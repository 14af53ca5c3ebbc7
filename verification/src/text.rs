//! Text as sequences of characters.
//!
//! The spec functions say what trimming, splitting and searching mean on a
//! `Seq<char>`; the executable ones compute the same on a slice of
//! characters. A part of a text is handed around as a pair of bounds, so
//! that one walk over a text serves every question about it.
use vstd::prelude::*;
use vstd::string::StringExecFns;

verus! {

/// `String::push` appends the given character to the end of the string.
pub assume_specification[ String::push ](s: &mut String, c: char)
    ensures
        final(s)@ == old(s)@.push(c),
;

// ---------------------------------------------------------------- model

/// The characters with the Unicode property `White_Space`.
pub open spec fn is_white(c: char) -> bool {
    let n = c as u32;
    ||| 0x09 <= n <= 0x0d
    ||| n == 0x20
    ||| n == 0x85
    ||| n == 0xa0
    ||| n == 0x1680
    ||| 0x2000 <= n <= 0x200a
    ||| n == 0x2028
    ||| n == 0x2029
    ||| n == 0x202f
    ||| n == 0x205f
    ||| n == 0x3000
}

pub open spec fn is_digit(c: char) -> bool {
    '0' <= c && c <= '9'
}

pub open spec fn is_alphanumeric(c: char) -> bool {
    is_digit(c) || ('a' <= c && c <= 'z') || ('A' <= c && c <= 'Z')
}

/// The ASCII lower case of `c`; every other character is its own.
pub open spec fn lower(c: char) -> char {
    if 'A' <= c && c <= 'Z' {
        (c as u32 + 32) as char
    } else {
        c
    }
}

pub open spec fn lowered(s: Seq<char>) -> Seq<char> {
    s.map_values(|c: char| lower(c))
}

/// `s` without the white space it starts with.
pub open spec fn trim_start(s: Seq<char>) -> Seq<char>
    decreases s.len(),
{
    if s.len() > 0 && is_white(s[0]) {
        trim_start(s.skip(1))
    } else {
        s
    }
}

/// `s` without the white space it ends with.
pub open spec fn trim_end(s: Seq<char>) -> Seq<char>
    decreases s.len(),
{
    if s.len() > 0 && is_white(s.last()) {
        trim_end(s.drop_last())
    } else {
        s
    }
}

/// `s` without the white space at either end.
pub open spec fn trim(s: Seq<char>) -> Seq<char> {
    trim_end(trim_start(s))
}

/// `s` without the run of `c` it starts with.
pub open spec fn trim_start_char(s: Seq<char>, c: char) -> Seq<char>
    decreases s.len(),
{
    if s.len() > 0 && s[0] == c {
        trim_start_char(s.skip(1), c)
    } else {
        s
    }
}

/// Where `c` first stands in `s`; the length of `s` if it does not.
pub open spec fn position(s: Seq<char>, c: char) -> int
    decreases s.len(),
{
    if s.len() == 0 || s[0] == c {
        0
    } else {
        1 + position(s.skip(1), c)
    }
}

/// `s` without the one carriage return it may end with.
pub open spec fn without_return(s: Seq<char>) -> Seq<char> {
    if s.len() > 0 && s.last() == '\r' {
        s.drop_last()
    } else {
        s
    }
}

/// The lines of `s`. A line ends at `\n` or `\r\n`, which is no part of it;
/// the last one may end with the text.
pub open spec fn lines(s: Seq<char>) -> Seq<Seq<char>>
    decreases s.len(),
{
    let end = position(s, '\n');
    if s.len() == 0 {
        Seq::empty()
    } else if end < 0 || end >= s.len() {
        seq![s]
    } else {
        seq![without_return(s.take(end))] + lines(s.skip(end + 1))
    }
}

/// How many characters `s` starts with that are not white space.
pub open spec fn word_len(s: Seq<char>) -> nat
    decreases s.len(),
{
    if s.len() == 0 || is_white(s[0]) {
        0
    } else {
        1 + word_len(s.skip(1))
    }
}

/// The maximal runs of characters in `s` that are not white space, in order.
pub open spec fn words(s: Seq<char>) -> Seq<Seq<char>>
    decreases s.len(),
{
    if s.len() == 0 {
        Seq::empty()
    } else if is_white(s[0]) {
        words(s.skip(1))
    } else {
        proof {
            lemma_word_len(s);
        }
        seq![s.take(word_len(s) as int)] + words(s.skip(word_len(s) as int))
    }
}

/// A word is no longer than the text it starts.
pub proof fn lemma_word_len(s: Seq<char>)
    ensures
        word_len(s) <= s.len(),
    decreases s.len(),
{
    if s.len() > 0 && !is_white(s[0]) {
        lemma_word_len(s.skip(1));
    }
}

/// `p` stands in `s` at `i`.
pub open spec fn occurs_at(s: Seq<char>, p: Seq<char>, i: int) -> bool {
    0 <= i && i + p.len() <= s.len() && s.subrange(i, i + p.len()) == p
}

/// `p` stands somewhere in `s`.
pub open spec fn contains(s: Seq<char>, p: Seq<char>) -> bool {
    exists|i: int| occurs_at(s, p, i)
}

/// Where `p` first stands in `s`, at `from` or behind it.
pub open spec fn find_from(s: Seq<char>, p: Seq<char>, from: int) -> Option<int>
    decreases s.len() - from + 1,
{
    if from < 0 || from + p.len() > s.len() {
        None
    } else if occurs_at(s, p, from) {
        Some(from)
    } else {
        find_from(s, p, from + 1)
    }
}

/// Where `p` first stands in `s`.
pub open spec fn find(s: Seq<char>, p: Seq<char>) -> Option<int> {
    find_from(s, p, 0)
}

/// Where `c` last stands in `s`; -1 if it does not.
pub open spec fn last_position(s: Seq<char>, c: char) -> int
    decreases s.len(),
{
    if s.len() == 0 {
        -1
    } else if s.last() == c {
        s.len() - 1
    } else {
        last_position(s.drop_last(), c)
    }
}

/// What stands behind the last `c` in `s`; all of `s` if it holds none.
pub open spec fn after_last(s: Seq<char>, c: char) -> Seq<char> {
    s.skip(last_position(s, c) + 1)
}

/// What stands before the last `c` in `s`; all of `s` if it holds none.
pub open spec fn before_last(s: Seq<char>, c: char) -> Seq<char> {
    if last_position(s, c) < 0 {
        s
    } else {
        s.take(last_position(s, c))
    }
}

/// `parts` one behind the other, with `sep` between every two.
pub open spec fn join(parts: Seq<Seq<char>>, sep: Seq<char>) -> Seq<char>
    decreases parts.len(),
{
    if parts.len() == 0 {
        Seq::empty()
    } else if parts.len() == 1 {
        parts[0]
    } else {
        join(parts.drop_last(), sep) + sep + parts.last()
    }
}

/// What the strings hold.
pub open spec fn texts(v: Seq<String>) -> Seq<Seq<char>> {
    v.map_values(|s: String| s@)
}

/// `a` comes before `b`, or is `b`, in the order of a dictionary over code
/// points.
pub open spec fn text_le(a: Seq<char>, b: Seq<char>) -> bool
    decreases a.len(),
{
    if a.len() == 0 {
        true
    } else if b.len() == 0 {
        false
    } else if a[0] == b[0] {
        text_le(a.skip(1), b.skip(1))
    } else {
        a[0] < b[0]
    }
}

/// The parts of `s` that `bounds` cuts out.
pub open spec fn pieces(s: Seq<char>, bounds: Seq<(usize, usize)>) -> Seq<Seq<char>> {
    bounds.map_values(|b: (usize, usize)| s.subrange(b.0 as int, b.1 as int))
}

/// Every pair of `bounds` cuts a part out of a text of length `len`.
pub open spec fn cut(bounds: Seq<(usize, usize)>, len: nat) -> bool {
    forall|i: int| 0 <= i < bounds.len() ==> (#[trigger] bounds[i]).0 <= bounds[i].1 <= len
}

// ----------------------------------------------------------- conversion

/// The characters of `s`.
pub fn chars_of(s: &str) -> (r: Vec<char>)
    ensures
        r@ == s@,
{
    let mut r: Vec<char> = Vec::new();
    for c in it: s.chars()
        invariant
            it.seq() == s@,
            r@ == s@.take(it.index()),
    {
        assert(s@.take(it.index() + 1) == s@.take(it.index()).push(c));
        r.push(c);
    }
    assert(s@.take(s@.len() as int) == s@);
    r
}

/// The part of `cs` between two bounds, as a string.
pub fn text_of(cs: &[char], from: usize, to: usize) -> (r: String)
    requires
        from <= to <= cs@.len(),
    ensures
        r@ == cs@.subrange(from as int, to as int),
{
    let mut r: String = String::new();
    let mut i: usize = from;
    while i < to
        invariant
            from <= i <= to <= cs@.len(),
            r@ == cs@.subrange(from as int, i as int),
        decreases to - i,
    {
        r.push(cs[i]);
        i = i + 1;
    }
    r
}

/// `parts` one behind the other, with `sep` between every two.
pub fn joined(parts: &Vec<String>, sep: &str) -> (r: String)
    ensures
        r@ == join(texts(parts@), sep@),
{
    let ghost all = texts(parts@);
    let mut r: String = String::new();
    let mut i: usize = 0;
    while i < parts.len()
        invariant
            i <= parts@.len(),
            all == texts(parts@),
            r@ == join(all.take(i as int), sep@),
        decreases parts@.len() - i,
    {
        if i > 0 {
            r.append(sep);
        }
        r.append(parts[i].as_str());
        proof {
            assert(all.take(i + 1).drop_last() == all.take(i as int));
            assert(all.take(i + 1).last() == parts@[i as int]@);
            assert(all.take(i + 1)[0] == all[0]);
            if i == 0 {
                assert(r@ == parts@[0]@);
            }
        }
        i = i + 1;
    }
    assert(all.take(i as int) == all);
    r
}

// ----------------------------------------------------------- characters

pub fn white(c: char) -> (r: bool)
    ensures
        r == is_white(c),
{
    let n: u32 = c as u32;
    (0x09 <= n && n <= 0x0d) || n == 0x20 || n == 0x85 || n == 0xa0 || n == 0x1680 || (0x2000 <= n
        && n <= 0x200a) || n == 0x2028 || n == 0x2029 || n == 0x202f || n == 0x205f || n == 0x3000
}

pub fn digit(c: char) -> (r: bool)
    ensures
        r == is_digit(c),
{
    '0' <= c && c <= '9'
}

pub fn alphanumeric(c: char) -> (r: bool)
    ensures
        r == is_alphanumeric(c),
{
    digit(c) || ('a' <= c && c <= 'z') || ('A' <= c && c <= 'Z')
}

pub fn to_lower(c: char) -> (r: char)
    ensures
        r == lower(c),
{
    if 'A' <= c && c <= 'Z' {
        ((c as u8) + 32u8) as char
    } else {
        c
    }
}

// ------------------------------------------------------------- comparing

/// Whether the part of `cs` between two bounds is `p`.
pub fn is_at(cs: &[char], from: usize, to: usize, p: &[char]) -> (r: bool)
    requires
        from <= to <= cs@.len(),
    ensures
        r == (cs@.subrange(from as int, to as int) == p@),
{
    if to - from != p.len() {
        return false;
    }
    let mut i: usize = 0;
    while i < p.len()
        invariant
            from <= to <= cs@.len(),
            to - from == p@.len(),
            i <= p@.len(),
            forall|j: int| 0 <= j < i ==> cs@[from + j] == p@[j],
        decreases p@.len() - i,
    {
        if cs[from + i] != p[i] {
            assert(cs@.subrange(from as int, to as int)[i as int] != p@[i as int]);
            return false;
        }
        i = i + 1;
    }
    assert(cs@.subrange(from as int, to as int) =~= p@);
    true
}

/// Whether two strings hold the same characters.
pub fn same(a: &str, b: &str) -> (r: bool)
    ensures
        r == (a@ == b@),
{
    let x = chars_of(a);
    let y = chars_of(b);
    let r = is_at(x.as_slice(), 0, x.len(), y.as_slice());
    assert(x@.subrange(0, x@.len() as int) == x@);
    r
}

/// Whether the part of `cs` between two bounds starts with `p`.
pub fn has_prefix(cs: &[char], from: usize, to: usize, p: &[char]) -> (r: bool)
    requires
        from <= to <= cs@.len(),
    ensures
        r == p@.is_prefix_of(cs@.subrange(from as int, to as int)),
{
    let ghost part = cs@.subrange(from as int, to as int);
    if to - from < p.len() {
        return false;
    }
    assert(part.subrange(0, p@.len() as int) == cs@.subrange(from as int, from + p@.len()));
    is_at(cs, from, from + p.len(), p)
}

/// Whether `s` starts with `p`.
pub fn starts_with(s: &str, p: &str) -> (r: bool)
    ensures
        r == p@.is_prefix_of(s@),
{
    let cs = chars_of(s);
    let ps = chars_of(p);
    let r = has_prefix(cs.as_slice(), 0, cs.len(), ps.as_slice());
    assert(cs@.subrange(0, cs@.len() as int) == cs@);
    r
}

/// `text_le` of the two strings.
pub fn is_le(a: &str, b: &str) -> (r: bool)
    ensures
        r == text_le(a@, b@),
{
    let x = chars_of(a);
    let y = chars_of(b);
    let mut i: usize = 0;
    assert(x@.skip(0) == x@ && y@.skip(0) == y@);
    while i < x.len() && i < y.len()
        invariant
            i <= x@.len(),
            i <= y@.len(),
            x@ == a@,
            y@ == b@,
            text_le(x@, y@) == text_le(x@.skip(i as int), y@.skip(i as int)),
        decreases x@.len() - i,
    {
        if x[i] != y[i] {
            return x[i] < y[i];
        }
        assert(x@.skip(i as int).skip(1) == x@.skip(i + 1));
        assert(y@.skip(i as int).skip(1) == y@.skip(i + 1));
        i = i + 1;
    }
    i == x.len()
}

// -------------------------------------------------------------- trimming

/// The bounds of what is left of the part of `cs` when the white space at
/// its start is taken off.
pub fn trim_start_bound(cs: &[char], from: usize, to: usize) -> (r: usize)
    requires
        from <= to <= cs@.len(),
    ensures
        from <= r <= to,
        cs@.subrange(r as int, to as int) == trim_start(cs@.subrange(from as int, to as int)),
{
    let mut a: usize = from;
    while a < to && white(cs[a])
        invariant
            from <= a <= to <= cs@.len(),
            trim_start(cs@.subrange(a as int, to as int)) == trim_start(
                cs@.subrange(from as int, to as int),
            ),
        decreases to - a,
    {
        assert(cs@.subrange(a as int, to as int).skip(1) == cs@.subrange(a + 1, to as int));
        a = a + 1;
    }
    a
}

/// The bound of what is left of the part of `cs` when the white space at
/// its end is taken off.
pub fn trim_end_bound(cs: &[char], from: usize, to: usize) -> (r: usize)
    requires
        from <= to <= cs@.len(),
    ensures
        from <= r <= to,
        cs@.subrange(from as int, r as int) == trim_end(cs@.subrange(from as int, to as int)),
{
    let mut b: usize = to;
    while from < b && white(cs[b - 1])
        invariant
            from <= b <= to <= cs@.len(),
            trim_end(cs@.subrange(from as int, b as int)) == trim_end(
                cs@.subrange(from as int, to as int),
            ),
        decreases b - from,
    {
        assert(cs@.subrange(from as int, b as int).drop_last() == cs@.subrange(
            from as int,
            b - 1,
        ));
        b = b - 1;
    }
    b
}

/// The bounds of what is left of the part of `cs` when it is trimmed.
pub fn trim_bounds(cs: &[char], from: usize, to: usize) -> (r: (usize, usize))
    requires
        from <= to <= cs@.len(),
    ensures
        from <= r.0 <= r.1 <= to,
        cs@.subrange(r.0 as int, r.1 as int) == trim(cs@.subrange(from as int, to as int)),
{
    let a = trim_start_bound(cs, from, to);
    let b = trim_end_bound(cs, a, to);
    (a, b)
}

/// `s` without the white space at either end.
pub fn trimmed(s: &str) -> (r: String)
    ensures
        r@ == trim(s@),
{
    let cs = chars_of(s);
    let (a, b) = trim_bounds(cs.as_slice(), 0, cs.len());
    assert(cs@.subrange(0, cs@.len() as int) == cs@);
    text_of(cs.as_slice(), a, b)
}

/// `s` without the white space it ends with.
pub fn trimmed_end(s: &str) -> (r: String)
    ensures
        r@ == trim_end(s@),
{
    let cs = chars_of(s);
    let b = trim_end_bound(cs.as_slice(), 0, cs.len());
    assert(cs@.subrange(0, cs@.len() as int) == cs@);
    text_of(cs.as_slice(), 0, b)
}

/// The bound of what is left of the part of `cs` when the run of `c` at its
/// start is taken off.
pub fn trim_start_char_bound(cs: &[char], from: usize, to: usize, c: char) -> (r: usize)
    requires
        from <= to <= cs@.len(),
    ensures
        from <= r <= to,
        cs@.subrange(r as int, to as int) == trim_start_char(
            cs@.subrange(from as int, to as int),
            c,
        ),
{
    let mut a: usize = from;
    while a < to && cs[a] == c
        invariant
            from <= a <= to <= cs@.len(),
            trim_start_char(cs@.subrange(a as int, to as int), c) == trim_start_char(
                cs@.subrange(from as int, to as int),
                c,
            ),
        decreases to - a,
    {
        assert(cs@.subrange(a as int, to as int).skip(1) == cs@.subrange(a + 1, to as int));
        a = a + 1;
    }
    a
}

// ------------------------------------------------------------- splitting

/// Where `c` first stands in the part of `cs`; its end if it does not.
pub fn position_of(cs: &[char], from: usize, to: usize, c: char) -> (r: usize)
    requires
        from <= to <= cs@.len(),
    ensures
        from <= r <= to,
        r == from + position(cs@.subrange(from as int, to as int), c),
        r < to ==> cs@[r as int] == c,
        forall|j: int| from <= j < r ==> cs@[j] != c,
{
    let mut i: usize = from;
    while i < to && cs[i] != c
        invariant
            from <= i <= to <= cs@.len(),
            i - from + position(cs@.subrange(i as int, to as int), c) == position(
                cs@.subrange(from as int, to as int),
                c,
            ),
            forall|j: int| from <= j < i ==> cs@[j] != c,
        decreases to - i,
    {
        assert(cs@.subrange(i as int, to as int).skip(1) == cs@.subrange(i + 1, to as int));
        i = i + 1;
    }
    i
}

/// Where `c` last stands in the part of `cs`, counted from one behind it;
/// the part's start if it does not.
pub fn last_position_of(cs: &[char], from: usize, to: usize, c: char) -> (r: usize)
    requires
        from <= to <= cs@.len(),
    ensures
        from <= r <= to,
        r == from + last_position(cs@.subrange(from as int, to as int), c) + 1,
        r > from ==> cs@[r - 1] == c,
{
    let mut i: usize = to;
    while i > from && cs[i - 1] != c
        invariant
            from <= i <= to <= cs@.len(),
            last_position(cs@.subrange(from as int, i as int), c) == last_position(
                cs@.subrange(from as int, to as int),
                c,
            ),
        decreases i,
    {
        assert(cs@.subrange(from as int, i as int).drop_last() == cs@.subrange(
            from as int,
            i - 1,
        ));
        i = i - 1;
    }
    i
}

/// The bounds of the lines of `cs`.
pub fn line_bounds(cs: &[char]) -> (r: Vec<(usize, usize)>)
    ensures
        cut(r@, cs@.len()),
        pieces(cs@, r@) == lines(cs@),
{
    let mut r: Vec<(usize, usize)> = Vec::new();
    let mut i: usize = 0;
    assert(cs@.skip(0) == cs@);
    assert(pieces(cs@, r@) + lines(cs@.skip(0)) == lines(cs@));
    while i < cs.len()
        invariant
            i <= cs@.len(),
            cut(r@, cs@.len()),
            pieces(cs@, r@) + lines(cs@.skip(i as int)) == lines(cs@),
        decreases cs@.len() - i,
    {
        let ghost rest = cs@.skip(i as int);
        let ghost done = r@;
        assert(rest == cs@.subrange(i as int, cs@.len() as int));
        let end = position_of(cs, i, cs.len(), '\n');
        if end == cs.len() {
            r.push((i, end));
            assert(lines(rest) == seq![rest]);
            assert(pieces(cs@, r@) == pieces(cs@, done).push(rest));
            assert(cs@.skip(end as int) == Seq::<char>::empty());
            assert(lines(cs@.skip(end as int)) == Seq::<Seq<char>>::empty());
            assert(pieces(cs@, r@) + lines(cs@.skip(end as int)) == lines(cs@));
            i = end;
        } else {
            let ghost line = rest.take(end - i);
            let mut stop: usize = end;
            if stop > i && cs[stop - 1] == '\r' {
                stop = stop - 1;
            }
            assert(without_return(line) == cs@.subrange(i as int, stop as int));
            r.push((i, stop));
            assert(pieces(cs@, r@) == pieces(cs@, done).push(without_return(line)));
            assert(rest.skip(end - i + 1) == cs@.skip(end + 1));
            assert(lines(rest) == seq![without_return(line)] + lines(cs@.skip(end + 1)));
            assert(pieces(cs@, r@) + lines(cs@.skip(end + 1)) == lines(cs@));
            i = end + 1;
        }
    }
    assert(cs@.skip(i as int) == Seq::<char>::empty());
    assert(pieces(cs@, r@) == lines(cs@));
    r
}

/// The bounds of the words in a part of `cs`.
pub fn word_bounds(cs: &[char], from: usize, to: usize) -> (r: Vec<(usize, usize)>)
    requires
        from <= to <= cs@.len(),
    ensures
        cut(r@, cs@.len()),
        forall|i: int| 0 <= i < r@.len() ==> from <= (#[trigger] r@[i]).0 && r@[i].1 <= to,
        pieces(cs@, r@) == words(cs@.subrange(from as int, to as int)),
{
    let mut r: Vec<(usize, usize)> = Vec::new();
    let mut i: usize = from;
    let ghost all = words(cs@.subrange(from as int, to as int));
    assert(pieces(cs@, r@) + words(cs@.subrange(i as int, to as int)) == all);
    while i < to
        invariant
            from <= i <= to <= cs@.len(),
            cut(r@, cs@.len()),
            forall|i: int| 0 <= i < r@.len() ==> from <= (#[trigger] r@[i]).0 && r@[i].1 <= to,
            pieces(cs@, r@) + words(cs@.subrange(i as int, to as int)) == all,
        decreases to - i,
    {
        let ghost rest = cs@.subrange(i as int, to as int);
        if white(cs[i]) {
            assert(rest.skip(1) == cs@.subrange(i + 1, to as int));
            i = i + 1;
        } else {
            let ghost done = r@;
            let start = i;
            let mut end: usize = i;
            while end < to && !white(cs[end])
                invariant
                    start <= end <= to <= cs@.len(),
                    rest == cs@.subrange(start as int, to as int),
                    word_len(rest) == end - start + word_len(cs@.subrange(end as int, to as int)),
                decreases to - end,
            {
                assert(cs@.subrange(end as int, to as int).skip(1) == cs@.subrange(
                    end + 1,
                    to as int,
                ));
                end = end + 1;
            }
            assert(word_len(rest) == end - start);
            r.push((start, end));
            assert(rest.take(end - start) == cs@.subrange(start as int, end as int));
            assert(rest.skip(end - start) == cs@.subrange(end as int, to as int));
            assert(pieces(cs@, r@) == pieces(cs@, done).push(
                cs@.subrange(start as int, end as int),
            ));
            assert(pieces(cs@, r@) + words(cs@.subrange(end as int, to as int)) == all);
            i = end;
        }
    }
    assert(words(cs@.subrange(i as int, to as int)) == Seq::<Seq<char>>::empty());
    assert(pieces(cs@, r@) == all);
    r
}

// ------------------------------------------------------------- searching

/// Where `p` first stands in `cs`, at `from` or behind it.
pub fn find_at(cs: &[char], p: &[char], from: usize) -> (r: Option<usize>)
    requires
        from <= cs@.len(),
    ensures
        match r {
            Some(i) => find_from(cs@, p@, from as int) == Some(i as int) && from <= i && i + p@.len()
                <= cs@.len(),
            None => find_from(cs@, p@, from as int) is None,
        },
{
    let n: usize = cs.len();
    let m: usize = p.len();
    let mut i: usize = from;
    while i <= n && m <= n - i
        invariant
            from <= i <= n + 1,
            n == cs@.len(),
            m == p@.len(),
            find_from(cs@, p@, i as int) == find_from(cs@, p@, from as int),
        decreases n + 1 - i,
    {
        if is_at(cs, i, i + m, p) {
            return Some(i);
        }
        assert(i < n) by {
            if i == n {
                assert(cs@.subrange(i as int, i + m) =~= p@);
            }
        }
        i = i + 1;
    }
    None
}

/// A search that finds nothing, and one that finds something, in terms of
/// where the pattern stands.
pub proof fn lemma_find_from(s: Seq<char>, p: Seq<char>, from: int)
    requires
        0 <= from,
    ensures
        match find_from(s, p, from) {
            Some(i) => from <= i && occurs_at(s, p, i) && forall|j: int|
                from <= j < i ==> !occurs_at(s, p, j),
            None => forall|j: int| from <= j ==> !occurs_at(s, p, j),
        },
    decreases s.len() - from + 1,
{
    if from + p.len() <= s.len() && !occurs_at(s, p, from) {
        lemma_find_from(s, p, from + 1);
    }
}

/// Whether `p` stands somewhere in `s`.
pub fn contains_text(s: &str, p: &str) -> (r: bool)
    ensures
        r == contains(s@, p@),
{
    let cs = chars_of(s);
    let ps = chars_of(p);
    let r = find_at(cs.as_slice(), ps.as_slice(), 0);
    proof {
        lemma_find_from(s@, p@, 0);
    }
    r.is_some()
}

} // verus!
