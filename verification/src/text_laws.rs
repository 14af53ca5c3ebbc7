//! What reading and writing text means, said of single characters.
use crate::number::{
    all_digits, decimal, hundredths, nearest, parse_number, tenths, two_digits, units, value,
};
use crate::text::{
    after_last, before_last, contains, find, find_from, is_white, join, last_position,
    lemma_find_from, lines, lower, occurs_at, position, text_le, trim, trim_end, trim_start,
    trim_start_char, word_len, words,
};
use vstd::arithmetic::div_mod::lemma_fundamental_div_mod;
use vstd::prelude::*;

verus! {

// ------------------------------------------------------------- characters

/// Blanks, tabs and line breaks are white space; no letter, digit or mark that
/// shows is.
pub proof fn law_white_space(c: char)
    ensures
        c == ' ' || c == '\t' || c == '\n' || c == '\r' ==> is_white(c),
        '!' <= c && c <= '~' ==> !is_white(c),
{
}

/// Lower case changes the letters from `A` to `Z` and nothing else.
pub proof fn law_lower_case(c: char)
    ensures
        'A' <= c && c <= 'Z' ==> lower(c) as u32 == c as u32 + 32,
        !('A' <= c && c <= 'Z') ==> lower(c) == c,
{
}

// ------------------------------------------------------------- separators

/// `c` does not occur in `s`.
pub open spec fn free_of(s: Seq<char>, c: char) -> bool {
    forall|i: int| 0 <= i < s.len() ==> #[trigger] s[i] != c
}

/// Cutting a text at the last of a character gives what stands before it and
/// what stands behind it; a text without it is not cut.
pub proof fn law_cut_at_last(head: Seq<char>, c: char, tail: Seq<char>)
    requires
        free_of(tail, c),
    ensures
        after_last(head + seq![c] + tail, c) == tail,
        before_last(head + seq![c] + tail, c) == head,
        after_last(tail, c) == tail,
        before_last(tail, c) == tail,
{
    let s = head + seq![c] + tail;
    lemma_last_position(head + seq![c], tail, c);
    assert((head + seq![c]).last() == c);
    assert(s.skip(head.len() as int + 1) == tail);
    assert(s.take(head.len() as int) == head);
    lemma_last_position(Seq::<char>::empty(), tail, c);
    assert(Seq::<char>::empty() + tail == tail);
    assert(tail.skip(0) == tail);
}

proof fn lemma_last_position(head: Seq<char>, tail: Seq<char>, c: char)
    requires
        free_of(tail, c),
    ensures
        last_position(head + tail, c) == last_position(head, c),
    decreases tail.len(),
{
    if tail.len() > 0 {
        let s = head + tail;
        assert(s.last() == tail[tail.len() - 1]);
        assert(s.drop_last() == head + tail.drop_last());
        lemma_last_position(head, tail.drop_last(), c);
    } else {
        assert(head + tail == head);
    }
}

// -------------------------------------------------------------- searching

/// The characters of `p` stand in `s` one by one from `i` on.
pub open spec fn spelled_at(s: Seq<char>, p: Seq<char>, i: int) -> bool {
    &&& 0 <= i
    &&& i + p.len() <= s.len()
    &&& forall|k: int| 0 <= k < p.len() ==> s[i + k] == #[trigger] p[k]
}

/// The characters of `p` stand somewhere in `s` one by one.
pub open spec fn is_spelled_in(s: Seq<char>, p: Seq<char>) -> bool {
    exists|i: int| spelled_at(s, p, i)
}

proof fn lemma_spelled(s: Seq<char>, p: Seq<char>, i: int)
    ensures
        occurs_at(s, p, i) == spelled_at(s, p, i),
{
    if 0 <= i && i + p.len() <= s.len() {
        let part = s.subrange(i, i + p.len());
        if spelled_at(s, p, i) {
            assert(part =~= p);
        }
        if part == p {
            assert forall|k: int| 0 <= k < p.len() implies s[i + k] == #[trigger] p[k] by {
                assert(part[k] == s[i + k]);
            }
        }
    }
}

/// A search from a place on finds the first place from there at which the
/// pattern is spelled, and nothing only where there is none.
pub proof fn law_search_finds_the_first(s: Seq<char>, p: Seq<char>, from: int)
    requires
        0 <= from,
    ensures
        match find_from(s, p, from) {
            Some(i) => from <= i && spelled_at(s, p, i) && forall|j: int|
                from <= j < i ==> !#[trigger] spelled_at(s, p, j),
            None => forall|j: int| from <= j ==> !#[trigger] spelled_at(s, p, j),
        },
        find(s, p) == find_from(s, p, 0),
        contains(s, p) <==> exists|i: int| spelled_at(s, p, i),
{
    lemma_find_from(s, p, from);
    assert forall|j: int| occurs_at(s, p, j) == #[trigger] spelled_at(s, p, j) by {
        lemma_spelled(s, p, j);
    }
    if contains(s, p) {
        let i = choose|i: int| occurs_at(s, p, i);
        assert(spelled_at(s, p, i));
    }
    if exists|i: int| spelled_at(s, p, i) {
        let i = choose|i: int| spelled_at(s, p, i);
        assert(occurs_at(s, p, i));
    }
}

// ------------------------------------------------------------------ lines

pub(crate) proof fn lemma_position_of_first(s: Seq<char>, c: char, rest: Seq<char>)
    requires
        free_of(s, c),
    ensures
        position(s + seq![c] + rest, c) == s.len(),
        position(s, c) == s.len(),
    decreases s.len(),
{
    let all = s + seq![c] + rest;
    if s.len() > 0 {
        assert(all.skip(1) == s.skip(1) + seq![c] + rest);
        assert(all[0] == s[0]);
        lemma_position_of_first(s.skip(1), c, rest);
    } else {
        assert(all[0] == c);
    }
}

/// The lines of a text are what stands between its line breaks, in order: a
/// carriage return before a break belongs to it, a text that ends with a break
/// has no empty line behind it, and the last line is kept as it is.
pub proof fn law_lines(s: Seq<char>, rest: Seq<char>)
    requires
        free_of(s, '\n'),
    ensures
        lines(Seq::<char>::empty()).len() == 0,
        s.len() > 0 ==> lines(s) == seq![s],
        s.len() == 0 || s.last() != '\r' ==> lines(s + seq!['\n'] + rest) == seq![s] + lines(rest),
        lines(s + seq!['\r'] + seq!['\n'] + rest) == seq![s] + lines(rest),
{
    lemma_position_of_first(s, '\n', rest);
    let all = s + seq!['\n'] + rest;
    assert(all.take(s.len() as int) == s);
    assert(all.skip(s.len() as int + 1) == rest);
    let t = s + seq!['\r'];
    assert(free_of(t, '\n'));
    lemma_position_of_first(t, '\n', rest);
    let more = t + seq!['\n'] + rest;
    assert(more.take(t.len() as int) == t);
    assert(more.skip(t.len() as int + 1) == rest);
    assert(t.drop_last() == s);
}

// ------------------------------------------------------------------ words

/// No character of `s` is white space.
pub open spec fn is_solid(s: Seq<char>) -> bool {
    forall|i: int| 0 <= i < s.len() ==> !is_white(#[trigger] s[i])
}

/// Every character of `s` is white space.
pub open spec fn is_blank(s: Seq<char>) -> bool {
    forall|i: int| 0 <= i < s.len() ==> is_white(#[trigger] s[i])
}

proof fn lemma_word_len_exact(w: Seq<char>, rest: Seq<char>)
    requires
        is_solid(w),
        rest.len() > 0 ==> is_white(rest[0]),
    ensures
        word_len(w + rest) == w.len(),
    decreases w.len(),
{
    let s = w + rest;
    if w.len() > 0 {
        assert(s[0] == w[0]);
        assert(s.skip(1) == w.skip(1) + rest);
        lemma_word_len_exact(w.skip(1), rest);
    } else {
        assert(s == rest);
    }
}

/// The words of a text are what stands between its white space, in order.
pub proof fn law_words(gap: Seq<char>, w: Seq<char>, rest: Seq<char>)
    requires
        is_blank(gap),
        is_solid(w),
        rest.len() > 0 ==> is_white(rest[0]),
    ensures
        words(gap).len() == 0,
        w.len() > 0 ==> words(gap + w + rest) == seq![w] + words(rest),
        words(gap + rest) == words(rest),
    decreases gap.len(),
{
    if gap.len() > 0 {
        let less = gap.skip(1);
        assert(is_blank(less)) by {
            assert forall|i: int| 0 <= i < less.len() implies is_white(#[trigger] less[i]) by {
                assert(less[i] == gap[i + 1]);
            }
        }
        law_words(less, w, rest);
        assert((gap + w + rest).skip(1) == less + w + rest);
        assert((gap + rest).skip(1) == less + rest);
        assert((gap + w + rest)[0] == gap[0] && (gap + rest)[0] == gap[0]);
    } else {
        assert(gap + w + rest == w + rest);
        assert(gap + rest == rest);
        if w.len() > 0 {
            lemma_word_len_exact(w, rest);
            assert((w + rest)[0] == w[0]);
            assert((w + rest).take(w.len() as int) == w);
            assert((w + rest).skip(w.len() as int) == rest);
        }
    }
}

// --------------------------------------------------------------- trimming

proof fn lemma_trim_start_blank(a: Seq<char>, s: Seq<char>)
    requires
        is_blank(a),
        s.len() > 0 ==> !is_white(s[0]),
    ensures
        trim_start(a + s) == s,
    decreases a.len(),
{
    if a.len() > 0 {
        assert((a + s).skip(1) == a.skip(1) + s);
        assert((a + s)[0] == a[0]);
        lemma_trim_start_blank(a.skip(1), s);
    } else {
        assert(a + s == s);
    }
}

proof fn lemma_trim_end_blank(s: Seq<char>, b: Seq<char>)
    requires
        is_blank(b),
        s.len() > 0 ==> !is_white(s.last()),
    ensures
        trim_end(s + b) == s,
    decreases b.len(),
{
    if b.len() > 0 {
        assert((s + b).drop_last() == s + b.drop_last());
        assert((s + b).last() == b[b.len() - 1]);
        lemma_trim_end_blank(s, b.drop_last());
    } else {
        assert(s + b == s);
    }
}

/// Trimming takes off the white space at either end and nothing else.
pub proof fn law_trim(a: Seq<char>, s: Seq<char>, b: Seq<char>)
    requires
        is_blank(a),
        is_blank(b),
        s.len() > 0 ==> !is_white(s[0]) && !is_white(s.last()),
    ensures
        trim(a + s + b) == s,
        trim_end(s + b) == s,
{
    if s.len() > 0 {
        assert(a + s + b == a + (s + b));
        assert((s + b)[0] == s[0]);
        lemma_trim_start_blank(a, s + b);
        lemma_trim_end_blank(s, b);
    } else {
        let all = a + s + b;
        assert(is_blank(all));
        lemma_trim_start_blank(all, Seq::<char>::empty());
        assert(all + Seq::<char>::empty() == all);
        lemma_trim_end_blank(s, b);
    }
}

/// Taking a run of a character off the start takes all of it and no more.
pub proof fn law_trim_run(run: Seq<char>, c: char, s: Seq<char>)
    requires
        forall|i: int| 0 <= i < run.len() ==> #[trigger] run[i] == c,
        s.len() > 0 ==> s[0] != c,
    ensures
        trim_start_char(run + s, c) == s,
    decreases run.len(),
{
    if run.len() > 0 {
        assert((run + s).skip(1) == run.skip(1) + s);
        assert((run + s)[0] == run[0]);
        law_trim_run(run.skip(1), c, s);
    } else {
        assert(run + s == s);
    }
}

// ---------------------------------------------------------------- joining

/// Joining puts the separator between every two parts and nowhere else.
pub proof fn law_join(parts: Seq<Seq<char>>, part: Seq<char>, sep: Seq<char>)
    ensures
        join(Seq::<Seq<char>>::empty(), sep).len() == 0,
        join(seq![part], sep) == part,
        parts.len() > 0 ==> join(parts.push(part), sep) == join(parts, sep) + sep + part,
{
    assert(parts.push(part).drop_last() == parts);
}

// ---------------------------------------------------------------- sorting

/// Two texts are ordered by the first character in which they differ, and a
/// text comes before every longer one that starts with it.
pub proof fn law_dictionary(a: Seq<char>, b: Seq<char>, k: int)
    requires
        0 <= k <= a.len(),
        k <= b.len(),
        forall|i: int| 0 <= i < k ==> #[trigger] a[i] == b[i],
    ensures
        k == a.len() ==> text_le(a, b),
        k == b.len() && k < a.len() ==> !text_le(a, b),
        k < a.len() && k < b.len() && a[k] < b[k] ==> text_le(a, b) && !text_le(b, a),
    decreases k,
{
    if k > 0 {
        let x = a.skip(1);
        let y = b.skip(1);
        assert forall|i: int| 0 <= i < k - 1 implies #[trigger] x[i] == y[i] by {
            assert(x[i] == a[i + 1] && y[i] == b[i + 1]);
            assert(a[i + 1] == b[i + 1]);
        }
        assert(a[0] == b[0]);
        law_dictionary(x, y, k - 1);
    }
}

// ---------------------------------------------------------------- numbers

/// A number is written with its last digit last, behind the number without
/// it, and with no zero in front.
pub proof fn law_decimal(n: nat)
    ensures
        decimal(n).len() >= 1,
        decimal(n).last() as u32 == 48 + n % 10,
        n >= 10 ==> decimal(n).drop_last() == decimal(n / 10),
        n < 10 ==> decimal(n).len() == 1,
        n < 10 ==> two_digits(n) == seq!['0'] + decimal(n),
        n >= 10 ==> two_digits(n) == decimal(n),
{
    if n >= 10 {
        assert(decimal(n).drop_last() =~= decimal(n / 10));
    }
}

/// Digits are read as a number in base ten.
pub proof fn law_value(s: Seq<char>, c: char)
    requires
        '0' <= c && c <= '9',
    ensures
        value(Seq::<char>::empty()) == 0,
        value(s.push(c)) == 10 * value(s) + (c as u32 - 48),
{
    assert(s.push(c).drop_last() == s);
}

/// A number is read from digits alone, with at most a plus sign in front, and
/// only where it is not too large.
pub proof fn law_number_reading(s: Seq<char>, max: nat)
    ensures
        parse_number(Seq::<char>::empty(), max) is None,
        forall|i: int|
            1 <= i < s.len() && !('0' <= #[trigger] s[i] && s[i] <= '9') ==> parse_number(s, max)
                is None,
        s.len() > 0 && s[0] != '+' && !('0' <= s[0] && s[0] <= '9') ==> parse_number(s, max) is None,
        s.len() > 0 && (forall|i: int| 0 <= i < s.len() ==> '0' <= #[trigger] s[i] && s[i] <= '9')
            ==> parse_number(s, max) == (if value(s) <= max {
            Some(value(s))
        } else {
            None
        }) && parse_number(seq!['+'] + s, max) == parse_number(s, max),
{
    if s.len() > 0 && s[0] == '+' {
        assert forall|i: int|
            1 <= i < s.len() && !('0' <= #[trigger] s[i] && s[i] <= '9') implies parse_number(
            s,
            max,
        ) is None by {
            assert(s.skip(1)[i - 1] == s[i]);
        }
    }
    if s.len() > 0 && (forall|i: int|
        0 <= i < s.len() ==> '0' <= #[trigger] s[i] && s[i] <= '9') {
        assert((seq!['+'] + s).skip(1) == s);
        assert('0' <= s[0] && s[0] <= '9');
        assert(all_digits(s));
    }
}

/// A fraction is rounded to the nearest integer, a half to the even one.
pub proof fn law_rounding(num: nat, den: nat)
    requires
        den > 0,
    ensures
        2 * (nearest(num, den) * den) <= 2 * num + den,
        2 * num <= 2 * (nearest(num, den) * den) + den,
        2 * (nearest(num, den) * den) == 2 * num + den || 2 * num == 2 * (nearest(num, den) * den)
            + den ==> nearest(num, den) % 2 == 0,
{
    lemma_fundamental_div_mod(num as int, den as int);
    let q = num / den;
    assert((q + 1) * den == q * den + den) by (nonlinear_arith);
    assert(den * q == q * den) by (nonlinear_arith);
}

proof fn lemma_nearest_is(num: nat, den: nat, k: nat)
    requires
        den > 0,
        2 * (k * den) < 2 * num + den,
        2 * num < 2 * (k * den) + den,
    ensures
        nearest(num, den) == k,
{
    law_rounding(num, den);
    let m = nearest(num, den);
    assert(m == k) by (nonlinear_arith)
        requires
            den > 0,
            2 * (k * den) < 2 * num + den,
            2 * num < 2 * (k * den) + den,
            2 * (m * den) <= 2 * num + den,
            2 * num <= 2 * (m * den) + den,
    ;
}

/// A fraction reads as the integer, the tenth or the hundredth that it is
/// nearest to.
pub proof fn law_shown_digits(num: nat, den: nat, k: nat)
    requires
        den > 0,
    ensures
        2 * (k * den) < 2 * num + den && 2 * num < 2 * (k * den) + den ==> units(num, den)
            == decimal(k),
        2 * (k * den) < 20 * num + den && 20 * num < 2 * (k * den) + den ==> tenths(num, den)
            == decimal(k / 10) + "."@ + decimal(k % 10),
        2 * (k * den) < 200 * num + den && 200 * num < 2 * (k * den) + den ==> hundredths(num, den)
            == decimal(k / 100) + "."@ + two_digits(k % 100),
{
    reveal_strlit(".");
    assert("."@ =~= seq!['.']);
    if 2 * (k * den) < 2 * num + den && 2 * num < 2 * (k * den) + den {
        lemma_nearest_is(num, den, k);
    }
    if 2 * (k * den) < 20 * num + den && 20 * num < 2 * (k * den) + den {
        lemma_nearest_is(num * 10, den, k);
    }
    if 2 * (k * den) < 200 * num + den && 200 * num < 2 * (k * den) + den {
        lemma_nearest_is(num * 100, den, k);
    }
}

/// What is left of a text when it is trimmed stands in it.
pub(crate) proof fn lemma_trim_part(s: Seq<char>)
    ensures
        exists|i: int| spelled_at(s, trim(s), i),
{
    lemma_trim_start_part(s);
    let a = trim_start(s);
    lemma_trim_end_part(a);
    let i = choose|i: int| spelled_at(s, a, i);
    assert(spelled_at(s, trim(s), i)) by {
        assert forall|k: int| 0 <= k < trim(s).len() implies s[i + k] == #[trigger] trim(s)[k] by {
            assert(a[0 + k] == trim(s)[k]);
            assert(s[i + k] == a[k]);
        }
    }
}

proof fn lemma_trim_start_part(s: Seq<char>)
    ensures
        exists|i: int| spelled_at(s, trim_start(s), i),
    decreases s.len(),
{
    if s.len() > 0 && is_white(s[0]) {
        let t = s.skip(1);
        lemma_trim_start_part(t);
        let i = choose|i: int| spelled_at(t, trim_start(t), i);
        assert(spelled_at(s, trim_start(s), i + 1)) by {
            assert forall|k: int| 0 <= k < trim_start(s).len() implies s[i + 1 + k]
                == #[trigger] trim_start(s)[k] by {
                assert(t[i + k] == trim_start(t)[k]);
            }
        }
    } else {
        assert(trim_start(s) == s);
        assert(spelled_at(s, trim_start(s), 0));
    }
}

proof fn lemma_trim_end_part(s: Seq<char>)
    ensures
        spelled_at(s, trim_end(s), 0),
    decreases s.len(),
{
    if s.len() > 0 && is_white(s.last()) {
        let t = s.drop_last();
        lemma_trim_end_part(t);
        assert forall|k: int| 0 <= k < trim_end(s).len() implies s[0 + k] == #[trigger] trim_end(
            s,
        )[k] by {
            assert(t[0 + k] == trim_end(t)[k]);
        }
    }
}

} // verus!
