//! The menu bar's health indicator: what the status file says, what that
//! means, and the icon that shows it.
//!
//! The indicator samples nothing by itself. It reads the small status file
//! that `vigil watch` writes with every sample.
use crate::alerts::optional_str;
use crate::fixplan::{field_value, record_field};
use crate::json::{
    holds_written, is_plain, is_plain_name, is_written, json_document, json_of, json_string, lemma_plain_name,
    member_texts, members, read_json, whole_number, written_json, written_text, Json, Scalar, Written,
};
use crate::number::{decimal, push_decimal};
use crate::paths::{join_path, path_join, vigil_dir, vigil_path};
use crate::stamps::since;
use vstd::prelude::*;
use vstd::string::StringExecFns;

verus! {

// ------------------------------------------------------------ status file

/// Where the status file is kept.
pub open spec fn status_path(home: Option<Seq<char>>) -> Seq<char> {
    path_join(vigil_dir(home), "status.json"@)
}

/// Where the status file is kept: in the home directory, like the journal.
pub fn default_status_file(home: Option<&str>) -> (r: String)
    ensures
        r@ == status_path(optional_str(home)),
{
    join_path(vigil_path(home).as_str(), "status.json")
}

/// What the status file says: when it was written, in seconds since the
/// epoch, and how many incidents were open then.
#[derive(Clone, Copy, Debug, PartialEq, Eq, Structural)]
pub struct StatusFile {
    pub updated_unix: u64,
    pub open_count: usize,
}

/// The text of the status file.
pub open spec fn status_text(open_count: usize, now_unix: u64) -> Seq<char> {
    "{\"updated_unix\":"@ + decimal(now_unix as nat) + ",\"open_count\":"@ + decimal(
        open_count as nat,
    ) + "}"@
}

/// The text of the status file.
pub fn build_status_json(open_count: usize, now_unix: u64) -> (r: String)
    ensures
        r@ == status_text(open_count, now_unix),
{
    let mut r = "{\"updated_unix\":".to_string();
    push_decimal(&mut r, now_unix as u128);
    r.append(",\"open_count\":");
    push_decimal(&mut r, open_count as u128);
    r.append("}");
    r
}

/// The number that `json` is.
pub open spec fn number_in(json: Option<Json>) -> Option<nat> {
    match json {
        Some(Json::Number(Some(n))) => Some(n),
        _ => None,
    }
}

/// What a status file with that JSON in it says.
pub open spec fn status_of(json: Json) -> Option<(nat, nat)> {
    match (
        number_in(record_field(json, "updated_unix"@, 0, 2)),
        number_in(record_field(json, "open_count"@, 1, 2)),
    ) {
        (Some(updated), Some(open)) => if open <= usize::MAX {
            Some((updated, open))
        } else {
            None
        },
        _ => None,
    }
}

/// What a status file with that text says.
pub open spec fn status_in(text: Seq<char>) -> Option<(nat, nat)> {
    match json_document(text) {
        Some(json) => status_of(json),
        None => None,
    }
}

fn number_field(v: &serde_json::Value, name: &str, place: usize) -> (r: Option<u64>)
    requires
        place < 2,
    ensures
        match r {
            Some(n) => number_in(record_field(json_of(*v), name@, place as int, 2)) == Some(
                n as nat,
            ),
            None => number_in(record_field(json_of(*v), name@, place as int, 2)) is None,
        },
{
    match field_value(v, name, place, 2) {
        Some(f) => whole_number(f),
        None => None,
    }
}

/// What a status file with that JSON in it says.
pub fn status_from_value(v: &serde_json::Value) -> (r: Option<StatusFile>)
    ensures
        match r {
            Some(s) => status_of(json_of(*v)) == Some(
                (s.updated_unix as nat, s.open_count as nat),
            ),
            None => status_of(json_of(*v)) is None,
        },
{
    match (number_field(v, "updated_unix", 0), number_field(v, "open_count", 1)) {
        (Some(updated_unix), Some(open)) => if open as u128 <= usize::MAX as u128 {
            Some(StatusFile { updated_unix, open_count: open as usize })
        } else {
            None
        },
        _ => None,
    }
}

/// What a status file with that text says; nothing where it cannot be read.
/// Members with other names are ignored, and of two with the same name the last
/// one counts.
/// A text that [`build_status_json`] made says what it was made of.
pub fn read_status(text: &str) -> (r: Option<StatusFile>)
    ensures
        match r {
            Some(s) => status_in(text@) == Some((s.updated_unix as nat, s.open_count as nat)),
            None => status_in(text@) is None,
        },
        forall|n: usize, t: u64|
            text@ == #[trigger] status_text(n, t) ==> r == Some(
                StatusFile { updated_unix: t, open_count: n },
            ),
{
    match read_json(text) {
        Ok(v) => {
            let r = status_from_value(&v);
            proof {
                assert forall|n: usize, t: u64| text@ == #[trigger] status_text(n, t) implies r
                    == Some(StatusFile { updated_unix: t, open_count: n }) by {
                    lemma_status_is_written(n, t);
                    assert(holds_written(text@, json_of(v)));
                    assert(json_of(v) == written_json(status_record(n, t)));
                }
            }
            r
        },
        Err(_) => {
            proof {
                assert forall|n: usize, t: u64| text@ == #[trigger] status_text(n, t) implies false by {
                    lemma_status_is_written(n, t);
                    assert(!is_written(text@));
                }
            }
            None
        },
    }
}

/// What the status file is written from.
pub open spec fn status_record(open_count: usize, now_unix: u64) -> Written {
    Written::Record(
        seq![
            ("updated_unix"@, Scalar::Number(now_unix)),
            ("open_count"@, Scalar::Number(open_count as u64)),
        ],
    )
}

proof fn lemma_status_is_written(open_count: usize, now_unix: u64)
    ensures
        is_plain(status_record(open_count, now_unix)),
        written_text(status_record(open_count, now_unix)) == status_text(open_count, now_unix),
        status_of(written_json(status_record(open_count, now_unix))) == Some(
            (now_unix as nat, open_count as nat),
        ),
{
    reveal_strlit("updated_unix");
    reveal_strlit("open_count");
    reveal_strlit("{");
    reveal_strlit("}");
    reveal_strlit(":");
    reveal_strlit(",");
    reveal_strlit("{\"updated_unix\":");
    reveal_strlit(",\"open_count\":");
    let first = ("updated_unix"@, Scalar::Number(now_unix));
    let second = ("open_count"@, Scalar::Number(open_count as u64));
    let record = seq![first, second];
    assert(is_plain_name("updated_unix"@));
    assert(is_plain_name("open_count"@));
    lemma_plain_name("updated_unix"@);
    lemma_plain_name("open_count"@);
    let parts = member_texts(record);
    assert(parts[0] == json_string("updated_unix"@) + ":"@ + decimal(now_unix as nat));
    assert(parts[1] == json_string("open_count"@) + ":"@ + decimal(open_count as nat));
    assert(parts.drop_last() == seq![parts[0]]);
    assert(crate::text::join(parts, ","@) == parts[0] + ","@ + parts[1]) by {
        reveal_with_fuel(crate::text::join, 3);
    }
    assert("{"@ + (parts[0] + ","@ + parts[1]) + "}"@ == status_text(open_count, now_unix));
    assert("updated_unix"@.len() == 12);
    assert("open_count"@.len() == 10);
    assert(record.drop_last() == seq![first]);
    assert(seq![first].drop_last() == Seq::<(Seq<char>, Scalar)>::empty());
    reveal_with_fuel(members, 3);
}

// ----------------------------------------------------------------- health

#[derive(Debug, Clone, Copy, PartialEq, Eq, Structural)]
pub enum HealthLevel {
    Healthy,
    Warning,
    Critical,
    /// No status, or one so old that nothing seems to write it any more.
    /// That is not the same as being known to be healthy.
    Unknown,
}

/// What a status means.
pub open spec fn health(
    status: Option<StatusFile>,
    now_unix: u64,
    stale_after_secs: u64,
) -> HealthLevel {
    match status {
        None => HealthLevel::Unknown,
        Some(s) => if since(now_unix, s.updated_unix) > stale_after_secs {
            HealthLevel::Unknown
        } else if s.open_count == 0 {
            HealthLevel::Healthy
        } else if s.open_count == 1 {
            HealthLevel::Warning
        } else {
            HealthLevel::Critical
        },
    }
}

/// What a status means. `None` is a status file that is missing or cannot be
/// read.
pub fn classify_health(
    status: Option<&StatusFile>,
    now_unix: u64,
    stale_after_secs: u64,
) -> (r: HealthLevel)
    ensures
        r == health(
            match status {
                Some(s) => Some(*s),
                None => None,
            },
            now_unix,
            stale_after_secs,
        ),
{
    match status {
        None => HealthLevel::Unknown,
        Some(s) => if now_unix.saturating_sub(s.updated_unix) > stale_after_secs {
            HealthLevel::Unknown
        } else if s.open_count == 0 {
            HealthLevel::Healthy
        } else if s.open_count == 1 {
            HealthLevel::Warning
        } else {
            HealthLevel::Critical
        },
    }
}

/// Only a fresh status is ever shown as healthy.
pub proof fn law_healthy_means_fresh(status: Option<StatusFile>, now_unix: u64, stale: u64)
    ensures
        health(status, now_unix, stale) == HealthLevel::Healthy <==> (status matches Some(s)
            && s.open_count == 0 && since(now_unix, s.updated_unix) <= stale),
        health(status, now_unix, stale) == HealthLevel::Unknown <==> (status matches Some(s)
            ==> since(now_unix, s.updated_unix) > stale),
{
}

// ------------------------------------------------------------------- icon

/// In pixels.
pub const ICON_SIZE: u32 = 22;

/// The eye is where two circles overlap whose centers are above and below
/// the icon's center by this much, in half pixels.
pub const EYE_FOCAL_OFFSET: i64 = 13;

/// The greatest integer whose square is at most `n`.
pub open spec fn is_root(n: nat, r: nat) -> bool {
    r * r <= n && n < (r + 1) * (r + 1)
}

/// The greatest integer whose square is at most `n`.
pub open spec fn root(n: nat) -> nat {
    choose|r: nat| is_root(n, r)
}

/// The least integer whose square is at least `n`.
pub open spec fn root_up(n: nat) -> nat {
    if root(n) * root(n) == n {
        root(n)
    } else {
        root(n) + 1
    }
}

/// How far a point `(x, y)`, in half pixels from the center of the icon, is
/// from the farther of the eye's two centers; squared.
pub open spec fn eye_distance(x: int, y: int) -> int {
    let dy = (if y < 0 {
        -y
    } else {
        y
    }) + EYE_FOCAL_OFFSET;
    x * x + dy * dy
}

/// How far it is from the center of the icon; squared.
pub open spec fn center_distance(x: int, y: int) -> int {
    x * x + y * y
}

/// The eye reaches 9.5 pixels from each center, with half a pixel more in
/// which it fades out.
pub open spec fn in_eye(x: int, y: int) -> bool {
    eye_distance(x, y) < 400
}

/// The pupil reaches 2.6 pixels from the center, with half a pixel more.
pub open spec fn in_pupil(x: int, y: int) -> bool {
    center_distance(x, y) * 25 < 961
}

/// The opacity at a point of the eye: all of `a` inside, and on the edge the
/// part of the pixel that the eye covers, which is 10 less the distance in
/// pixels, to the nearest integer.
pub open spec fn opacity(a: nat, distance: nat) -> int {
    if distance >= 400 {
        0
    } else if distance <= 324 {
        a as int
    } else {
        (20 * a + 1 - root_up(a * a * distance)) / 2
    }
}

/// One color channel at a point: `v` in the eye, `p` in the pupil, and in
/// between the part that the pupil covers, which is 3.1 less the distance in
/// pixels, to the nearest integer.
pub open spec fn blend(v: nat, p: nat, distance: nat) -> int {
    if distance >= 39 {
        v as int
    } else if distance <= 17 {
        p as int
    } else {
        let c = (v - p) as nat;
        (20 * v - 62 * c + 10 + root(100 * (c * c * distance))) / 20
    }
}

/// The color of the eye and its opacity.
pub open spec fn eye_color(level: HealthLevel) -> (u8, u8, u8, u8) {
    match level {
        HealthLevel::Healthy => (255, 255, 255, 40),
        HealthLevel::Warning => (255, 190, 20, 255),
        HealthLevel::Critical => (230, 50, 50, 255),
        HealthLevel::Unknown => (140, 140, 140, 200),
    }
}

/// A channel of the pupil: the eye's, mixed with 65 percent of black.
pub open spec fn darkened(v: nat) -> nat {
    (v * 35 + 50) / 100
}

/// The pixel in column `x` and row `y`, as four channels.
pub open spec fn pixel(level: HealthLevel, x: int, y: int) -> Seq<int> {
    let dx = 2 * x - 21;
    let dy = 2 * y - 21;
    let (r, g, b, a) = eye_color(level);
    let near = center_distance(dx, dy) as nat;
    if in_eye(dx, dy) {
        seq![
            blend(r as nat, darkened(r as nat), near),
            blend(g as nat, darkened(g as nat), near),
            blend(b as nat, darkened(b as nat), near),
            opacity(a as nat, eye_distance(dx, dy) as nat),
        ]
    } else {
        seq![0, 0, 0, 0]
    }
}

proof fn lemma_root_unique(n: nat, a: nat, b: nat)
    requires
        is_root(n, a),
        is_root(n, b),
    ensures
        a == b,
{
    if a < b {
        assert((a + 1) * (a + 1) <= b * b) by (nonlinear_arith)
            requires
                a + 1 <= b,
        ;
    } else if b < a {
        assert((b + 1) * (b + 1) <= a * a) by (nonlinear_arith)
            requires
                b + 1 <= a,
        ;
    }
}

/// The greatest integer whose square is at most `n`.
fn integer_root(n: u64) -> (r: u64)
    requires
        n <= 400000000,
    ensures
        is_root(n as nat, r as nat),
        r == root(n as nat),
        r <= 20000,
{
    let mut lo: u64 = 0;
    let mut hi: u64 = 20001;
    while hi - lo > 1
        invariant
            lo < hi <= 20001,
            lo * lo <= n,
            n < hi * hi,
            n <= 400000000,
        decreases hi - lo,
    {
        let mid = lo + (hi - lo) / 2;
        assert(mid * mid <= 20001 * 20001) by (nonlinear_arith)
            requires
                mid <= 20001,
        ;
        if mid * mid <= n {
            lo = mid;
        } else {
            hi = mid;
        }
    }
    proof {
        assert(hi == lo + 1);
        assert(is_root(n as nat, lo as nat));
        let chosen = choose|r: nat| is_root(n as nat, r);
        lemma_root_unique(n as nat, lo as nat, chosen);
    }
    lo
}

fn opacity_at(a: u8, distance: u64) -> (r: u8)
    ensures
        r == opacity(a as nat, distance as nat),
{
    if distance >= 400 {
        0
    } else if distance <= 324 {
        a
    } else {
        let w: u64 = a as u64;
        proof {
            lemma_opacity(a as nat, distance as nat);
        }
        let n: u64 = w * w * distance;
        let down = integer_root(n);
        proof {
            assert(down * down == root(n as nat) * root(n as nat));
            assert(down * down <= 400000000) by (nonlinear_arith)
                requires
                    down <= 20000,
            ;
        }
        let up: u64 = if down * down == n {
            down
        } else {
            down + 1
        };
        assert(up == root_up(n as nat));
        ((20 * w + 1 - up) / 2) as u8
    }
}

/// On the edge the opacity is between nothing and all.
proof fn lemma_opacity(a: nat, distance: nat)
    requires
        a <= 255,
        324 < distance < 400,
    ensures
        a * a <= 65025,
        a * a * distance <= 400000000,
        18 * a <= root_up(a * a * distance) <= 20 * a,
{
    let n = a * a * distance;
    assert(a * a <= 65025) by (nonlinear_arith)
        requires
            a <= 255,
    ;
    assert(n <= 65025 * 400) by (nonlinear_arith)
        requires
            a * a <= 65025,
            distance < 400,
            n == a * a * distance,
    ;
    let r = root(n);
    lemma_root_exists(n);
    assert((18 * a) * (18 * a) <= n) by (nonlinear_arith)
        requires
            distance >= 324,
            n == a * a * distance,
    ;
    assert(n <= (20 * a) * (20 * a)) by (nonlinear_arith)
        requires
            distance <= 400,
            n == a * a * distance,
    ;
    if r < 18 * a {
        assert((r + 1) * (r + 1) <= (18 * a) * (18 * a)) by (nonlinear_arith)
            requires
                r + 1 <= 18 * a,
        ;
    }
    if r > 20 * a {
        assert((20 * a) * (20 * a) < r * r) by (nonlinear_arith)
            requires
                20 * a < r,
        ;
    }
    if r == 20 * a {
        assert(r * r == n);
    }
}

proof fn lemma_root_exists(n: nat)
    ensures
        is_root(n, root(n)),
    decreases n,
{
    if n == 0 {
        assert(is_root(0, 0)) by (nonlinear_arith);
    } else {
        lemma_root_exists((n - 1) as nat);
        let r = root((n - 1) as nat);
        if n < (r + 1) * (r + 1) {
            assert(is_root(n, r));
        } else {
            assert((r + 2) * (r + 2) > (r + 1) * (r + 1)) by (nonlinear_arith);
            assert(is_root(n, r + 1));
        }
    }
}

fn blend_at(v: u8, p: u8, distance: u64) -> (r: u8)
    requires
        p <= v,
    ensures
        r == blend(v as nat, p as nat, distance as nat),
{
    if distance >= 39 {
        v
    } else if distance <= 17 {
        p
    } else {
        let c: u64 = (v - p) as u64;
        proof {
            lemma_blend(v as nat, p as nat, distance as nat);
        }
        let n: u64 = 100 * (c * c * distance);
        let r = integer_root(n);
        ((20 * v as u64 + 10 + r - 62 * c) / 20) as u8
    }
}

/// In between, a channel is between that of the pupil and that of the eye.
proof fn lemma_blend(v: nat, p: nat, distance: nat)
    requires
        p <= v <= 255,
        17 < distance < 39,
    ensures
        ({
            let c = (v - p) as nat;
            let r = root(100 * (c * c * distance));
            &&& c * c <= 65025
            &&& c * c * distance <= 2535975
            &&& 42 * c <= r <= 62 * c
        }),
{
    let c = (v - p) as nat;
    let n = 100 * (c * c * distance);
    assert(c * c <= 65025) by (nonlinear_arith)
        requires
            c <= 255,
    ;
    assert(c * c * distance <= 65025 * 39) by (nonlinear_arith)
        requires
            c * c <= 65025,
            distance <= 39,
    ;
    lemma_root_exists(n);
    let r = root(n);
    assert((42 * c) * (42 * c) <= n) by (nonlinear_arith)
        requires
            distance >= 18,
            n == 100 * (c * c * distance),
    ;
    assert(n <= (62 * c) * (62 * c)) by (nonlinear_arith)
        requires
            distance <= 38,
            n == 100 * (c * c * distance),
    ;
    if r < 42 * c {
        assert((r + 1) * (r + 1) <= (42 * c) * (42 * c)) by (nonlinear_arith)
            requires
                r + 1 <= 42 * c,
        ;
    }
    if r > 62 * c {
        assert((62 * c) * (62 * c) < r * r) by (nonlinear_arith)
            requires
                62 * c < r,
        ;
    }
}

fn eye_distance_at(x: i64, y: i64) -> (r: u64)
    requires
        -100 <= x <= 100,
        -100 <= y <= 100,
    ensures
        r == eye_distance(x as int, y as int),
{
    let up: i64 = if y < 0 {
        -y
    } else {
        y
    };
    let dy: i64 = up + EYE_FOCAL_OFFSET;
    assert(0 <= x * x <= 10000) by (nonlinear_arith)
        requires
            -100 <= x <= 100,
    ;
    assert(0 <= dy * dy <= 12769) by (nonlinear_arith)
        requires
            0 <= dy <= 113,
    ;
    (x * x + dy * dy) as u64
}

fn center_distance_at(x: i64, y: i64) -> (r: u64)
    requires
        -100 <= x <= 100,
        -100 <= y <= 100,
    ensures
        r == center_distance(x as int, y as int),
        r <= 20000,
{
    assert(0 <= x * x <= 10000) by (nonlinear_arith)
        requires
            -100 <= x <= 100,
    ;
    assert(0 <= y * y <= 10000) by (nonlinear_arith)
        requires
            -100 <= y <= 100,
    ;
    (x * x + y * y) as u64
}

/// Whether a point is at least partly in the eye. The point is given in half
/// pixels from the top left corner of the icon.
pub fn is_inside_eye(x: u8, y: u8) -> (r: bool)
    requires
        x <= 2 * ICON_SIZE,
        y <= 2 * ICON_SIZE,
    ensures
        r == in_eye(x - ICON_SIZE, y - ICON_SIZE),
{
    eye_distance_at(x as i64 - ICON_SIZE as i64, y as i64 - ICON_SIZE as i64) < 400
}

/// Whether a point is at least partly in the pupil. The point is given in
/// half pixels from the top left corner of the icon.
pub fn is_inside_pupil(x: u8, y: u8) -> (r: bool)
    requires
        x <= 2 * ICON_SIZE,
        y <= 2 * ICON_SIZE,
    ensures
        r == in_pupil(x - ICON_SIZE, y - ICON_SIZE),
{
    center_distance_at(x as i64 - ICON_SIZE as i64, y as i64 - ICON_SIZE as i64) * 25 < 961
}

/// The pupil is part of the eye.
pub proof fn law_pupil_is_in_eye(x: int, y: int)
    requires
        in_pupil(x, y),
    ensures
        in_eye(x, y),
{
    let up = if y < 0 {
        -y
    } else {
        y
    };
    assert(x * x >= 0) by (nonlinear_arith);
    assert(up * up == y * y) by (nonlinear_arith)
        requires
            up == y || up == -y,
    ;
    assert(up <= 6) by (nonlinear_arith)
        requires
            (x * x + up * up) * 25 < 961,
            x * x >= 0,
    ;
    assert((up + 13) * (up + 13) == up * up + 26 * up + 169) by (nonlinear_arith);
}

fn color_of(level: HealthLevel) -> (r: (u8, u8, u8, u8))
    ensures
        r == eye_color(level),
{
    match level {
        HealthLevel::Healthy => (255, 255, 255, 40),
        HealthLevel::Warning => (255, 190, 20, 255),
        HealthLevel::Critical => (230, 50, 50, 255),
        HealthLevel::Unknown => (140, 140, 140, 200),
    }
}

fn darken(v: u8) -> (r: u8)
    ensures
        r == darkened(v as nat),
        r <= v,
{
    ((v as u32 * 35 + 50) / 100) as u8
}

/// The icon: a small eye, drawn pixel by pixel. A healthy machine gets a faint
/// outline rather than nothing, so that the icon can be found. The pupil is
/// darker, not only more opaque, so that it can be seen in every color.
/// Returns the channels of the pixels row by row, the width and the height.
pub fn icon_rgba(level: HealthLevel) -> (r: (Vec<u8>, u32, u32))
    ensures
        r.1 == ICON_SIZE,
        r.2 == ICON_SIZE,
        r.0@.len() == ICON_SIZE * ICON_SIZE * 4,
        forall|x: int, y: int, k: int|
            0 <= x < ICON_SIZE && 0 <= y < ICON_SIZE && 0 <= k < 4
                ==> #[trigger] channel(r.0@, x, y, k) == pixel(level, x, y)[k],
{
    let (red, green, blue, a) = color_of(level);
    let (dark_red, dark_green, dark_blue) = (darken(red), darken(green), darken(blue));
    let mut buf: Vec<u8> = Vec::new();
    let mut n: u32 = 0;
    while n < ICON_SIZE * ICON_SIZE
        invariant
            n <= ICON_SIZE * ICON_SIZE,
            buf@.len() == 4 * n,
            (red, green, blue, a) == eye_color(level),
            dark_red == darkened(red as nat) && dark_red <= red,
            dark_green == darkened(green as nat) && dark_green <= green,
            dark_blue == darkened(blue as nat) && dark_blue <= blue,
            forall|m: int, k: int|
                0 <= m < n && 0 <= k < 4 ==> buf@[4 * m + k] == #[trigger] pixel(
                    level,
                    m % 22,
                    m / 22,
                )[k],
        decreases ICON_SIZE * ICON_SIZE - n,
    {
        let x: i64 = (n % ICON_SIZE) as i64;
        let y: i64 = (n / ICON_SIZE) as i64;
        let dx: i64 = 2 * x - 21;
        let dy: i64 = 2 * y - 21;
        let ghost had = buf@;
        let far = eye_distance_at(dx, dy);
        let near = center_distance_at(dx, dy);
        if far < 400 {
            buf.push(blend_at(red, dark_red, near));
            buf.push(blend_at(green, dark_green, near));
            buf.push(blend_at(blue, dark_blue, near));
            buf.push(opacity_at(a, far));
        } else {
            buf.push(0);
            buf.push(0);
            buf.push(0);
            buf.push(0);
        }
        proof {
            let now = pixel(level, x as int, y as int);
            assert(buf@[4 * n as int] == now[0]);
            assert(buf@[4 * n + 1] == now[1]);
            assert(buf@[4 * n + 2] == now[2]);
            assert(buf@[4 * n + 3] == now[3]);
            assert forall|m: int, k: int| 0 <= m < n + 1 && 0 <= k < 4 implies buf@[4 * m + k]
                == #[trigger] pixel(level, m % 22, m / 22)[k] by {
                if m < n {
                    assert(had[4 * m + k] == pixel(level, m % 22, m / 22)[k]);
                } else {
                    assert(m % 22 == x && m / 22 == y);
                    assert(k == 0 || k == 1 || k == 2 || k == 3);
                }
            }
        }
        n = n + 1;
    }
    proof {
        assert forall|x: int, y: int, k: int|
            0 <= x < ICON_SIZE && 0 <= y < ICON_SIZE && 0 <= k < 4 implies #[trigger] channel(
            buf@,
            x,
            y,
            k,
        ) == pixel(level, x, y)[k] by {
            let m = y * 22 + x;
            assert(m % 22 == x && m / 22 == y);
            assert(buf@[4 * m + k] == pixel(level, m % 22, m / 22)[k]);
        }
    }
    (buf, ICON_SIZE, ICON_SIZE)
}

/// A channel of the pixel in column `x` and row `y`.
pub open spec fn channel(buf: Seq<u8>, x: int, y: int, k: int) -> int {
    buf[(y * ICON_SIZE + x) * 4 + k] as int
}

pub struct MenubarOptions {
    pub status_file: String,
    pub incidents_dir: String,
    /// In nanoseconds.
    pub poll_interval: u128,
}

/// The indicator is green without an open incident, yellow with one and red
/// with more, however many; and unknown exactly without a status or with one
/// that is older than it may be.
pub proof fn law_health(s: StatusFile, now_unix: u64, stale_after_secs: u64)
    ensures
        health(None, now_unix, stale_after_secs) == HealthLevel::Unknown,
        now_unix - s.updated_unix > stale_after_secs ==> health(
            Some(s),
            now_unix,
            stale_after_secs,
        ) == HealthLevel::Unknown,
        now_unix - s.updated_unix <= stale_after_secs ==> health(
            Some(s),
            now_unix,
            stale_after_secs,
        ) == (if s.open_count == 0 {
            HealthLevel::Healthy
        } else if s.open_count == 1 {
            HealthLevel::Warning
        } else {
            HealthLevel::Critical
        }),
{
}

/// A status is an object with the time and the count, both whole numbers,
/// whatever other members it has.
pub proof fn law_status_members(m: Map<Seq<char>, Json>, updated: nat, open: nat)
    requires
        m.contains_key("updated_unix"@),
        m.contains_key("open_count"@),
    ensures
        m["updated_unix"@] == Json::Number(Some(updated)) && m["open_count"@] == Json::Number(
            Some(open),
        ) && open <= usize::MAX ==> status_of(Json::Object(m)) == Some((updated, open)),
        !(m["updated_unix"@] is Number) || !(m["open_count"@] is Number) ==> status_of(
            Json::Object(m),
        ) is None,
        status_of(Json::Object(m.remove("updated_unix"@))) is None,
        status_of(Json::Object(m.remove("open_count"@))) is None,
{
}

} // verus!
