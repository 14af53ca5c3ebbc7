//! What reading an incident file gives back of what was written to it.
use crate::fixplan::proposed_fix;
use crate::incidents::{
    alert_key_of, command_field, diagnosis_of, earliest, field, field_in, fix_execution_of, if_any,
    incident_file_name, lemma_run_len, run_len, runs, section, slug, stub_text, title_in, title_of,
};
use crate::investigate::is_about;
use crate::text::{
    contains, find, find_from, is_alphanumeric, is_white, join, lemma_find_from, lines, lower, lowered,
    occurs_at, position, trim, trim_end, trim_start, trim_start_char, without_return,
};
use crate::text_laws::{is_spelled_in, law_search_finds_the_first, spelled_at};
use vstd::prelude::*;

verus! {

/// `s` is one line.
pub open spec fn is_line(s: Seq<char>) -> bool {
    !s.contains('\n')
}

spec fn all_white(s: Seq<char>) -> bool {
    forall|i: int| 0 <= i < s.len() ==> is_white(#[trigger] s[i])
}

// ------------------------------------------------------------------ lines

proof fn lemma_position(s: Seq<char>, rest: Seq<char>)
    requires
        is_line(s),
    ensures
        position(s + seq!['\n'] + rest, '\n') == s.len(),
    decreases s.len(),
{
    let t = s + seq!['\n'] + rest;
    if s.len() > 0 {
        assert(s[0] != '\n');
        assert(is_line(s.skip(1))) by {
            assert forall|i: int| 0 <= i < s.skip(1).len() implies s.skip(1)[i] != '\n' by {
                assert(s[i + 1] != '\n');
            }
        }
        lemma_position(s.skip(1), rest);
        assert(t.skip(1) == s.skip(1) + seq!['\n'] + rest);
        assert(t[0] == s[0]);
    } else {
        assert(t[0] == '\n');
    }
}

/// The first line of a text.
pub(crate) proof fn lemma_first_line(s: Seq<char>, rest: Seq<char>)
    requires
        is_line(s),
    ensures
        lines(s + seq!['\n'] + rest) == seq![without_return(s)] + lines(rest),
{
    let t = s + seq!['\n'] + rest;
    lemma_position(s, rest);
    assert(t.take(s.len() as int) == s);
    assert(t.skip(s.len() as int + 1) == rest);
}

/// Where `c` stands first.
proof fn lemma_position_found(s: Seq<char>, c: char)
    ensures
        0 <= position(s, c) <= s.len(),
        position(s, c) < s.len() ==> s[position(s, c)] == c,
        s.contains(c) ==> position(s, c) < s.len(),
        forall|i: int| 0 <= i < position(s, c) ==> s[i] != c,
    decreases s.len(),
{
    if s.len() > 0 && s[0] != c {
        let t = s.skip(1);
        lemma_position_found(t, c);
        if s.contains(c) {
            let i = choose|i: int| 0 <= i < s.len() && s[i] == c;
            assert(t[i - 1] == c);
        }
        assert forall|i: int| 0 <= i < position(s, c) implies s[i] != c by {
            if i > 0 {
                assert(s[i] == t[i - 1]);
            }
        }
    }
}

/// The lines of a text that ends a line, with another behind it.
pub(crate) proof fn lemma_lines_append(a: Seq<char>, b: Seq<char>)
    requires
        a.len() > 0 ==> a.last() == '\n',
    ensures
        lines(a + b) == lines(a) + lines(b),
    decreases a.len(),
{
    if a.len() > 0 {
        lemma_position_found(a, '\n');
        assert(a.contains('\n')) by {
            assert(a[a.len() - 1] == '\n');
        }
        let end = position(a, '\n');
        let s = a.take(end);
        let rest = a.skip(end + 1);
        assert(is_line(s)) by {
            assert forall|i: int| 0 <= i < s.len() implies s[i] != '\n' by {
                assert(a[i] != '\n');
            }
        }
        assert(a == s + seq!['\n'] + rest);
        assert(a + b == s + seq!['\n'] + (rest + b));
        lemma_first_line(s, rest);
        lemma_first_line(s, rest + b);
        lemma_lines_append(rest, b);
        assert(lines(a + b) == lines(a) + lines(b));
    } else {
        assert(a + b == b);
        assert(lines(a) + lines(b) == lines(b));
    }
}

// --------------------------------------------------------------- trimming

proof fn lemma_trim_start_white(w: Seq<char>, s: Seq<char>)
    requires
        all_white(w),
    ensures
        trim_start(w + s) == trim_start(s),
    decreases w.len(),
{
    let t = w + s;
    if w.len() > 0 {
        assert(is_white(w[0]) && t[0] == w[0]);
        assert(all_white(w.skip(1))) by {
            assert forall|i: int| 0 <= i < w.skip(1).len() implies is_white(
                #[trigger] w.skip(1)[i],
            ) by {
                assert(is_white(w[i + 1]));
            }
        }
        lemma_trim_start_white(w.skip(1), s);
        assert(t.skip(1) == w.skip(1) + s);
    } else {
        assert(t == s);
    }
}

proof fn lemma_trim_end_white(s: Seq<char>, w: Seq<char>)
    requires
        all_white(w),
    ensures
        trim_end(s + w) == trim_end(s),
    decreases w.len(),
{
    let t = s + w;
    if w.len() > 0 {
        assert(is_white(w[w.len() - 1]) && t.last() == w.last());
        assert(all_white(w.drop_last())) by {
            assert forall|i: int| 0 <= i < w.drop_last().len() implies is_white(
                #[trigger] w.drop_last()[i],
            ) by {
                assert(is_white(w[i]));
            }
        }
        lemma_trim_end_white(s, w.drop_last());
        assert(t.drop_last() == s + w.drop_last());
    } else {
        assert(t == s);
    }
}

/// What is trimmed off is white space, and what is left does not end with any.
proof fn lemma_trim_end_split(s: Seq<char>)
    ensures
        trim_end(s).len() <= s.len(),
        trim_end(s) == s.take(trim_end(s).len() as int),
        all_white(s.skip(trim_end(s).len() as int)),
        trim_end(s).len() > 0 ==> !is_white(trim_end(s).last()),
    decreases s.len(),
{
    if s.len() > 0 && is_white(s.last()) {
        let t = s.drop_last();
        lemma_trim_end_split(t);
        let n = trim_end(t).len() as int;
        assert(s.take(n) == t.take(n));
        assert forall|i: int| 0 <= i < s.skip(n).len() implies is_white(#[trigger] s.skip(n)[i]) by {
            if i < t.skip(n).len() {
                assert(t.skip(n)[i] == s.skip(n)[i]);
            } else {
                assert(s.skip(n)[i] == s.last());
            }
        }
    } else {
        assert(s.take(s.len() as int) == s);
        assert(s.skip(s.len() as int) == Seq::<char>::empty());
    }
}

proof fn lemma_trim_start_split(s: Seq<char>)
    ensures
        trim_start(s).len() <= s.len(),
        trim_start(s) == s.skip(s.len() - trim_start(s).len()),
        all_white(s.take(s.len() - trim_start(s).len())),
        trim_start(s).len() > 0 ==> !is_white(trim_start(s)[0]),
    decreases s.len(),
{
    if s.len() > 0 && is_white(s[0]) {
        let t = s.skip(1);
        lemma_trim_start_split(t);
        let n = s.len() - trim_start(s).len();
        assert(s.skip(n) == t.skip(n - 1));
        assert forall|i: int| 0 <= i < s.take(n).len() implies is_white(#[trigger] s.take(n)[i]) by {
            if i > 0 {
                assert(t.take(n - 1)[i - 1] == s.take(n)[i]);
            }
        }
    } else {
        assert(s.skip(0) == s);
        assert(s.take(0) == Seq::<char>::empty());
    }
}

/// Trimming the end first makes no difference.
proof fn lemma_trim_of_trim_end(s: Seq<char>)
    ensures
        trim(trim_end(s)) == trim(s),
{
    lemma_trim_end_split(s);
    let e = trim_end(s);
    let w = s.skip(e.len() as int);
    assert(s == e + w);
    lemma_trim_start_split(e);
    let head = e.take(e.len() - trim_start(e).len());
    let body = trim_start(e);
    assert(e == head + body);
    if body.len() > 0 {
        assert(s == head + (body + w));
        lemma_trim_start_white(head, body + w);
        assert((body + w)[0] == body[0]);
        assert(trim_start(body + w) == body + w);
        lemma_trim_end_white(body, w);
    } else {
        assert(e == head);
        assert(all_white(s)) by {
            assert forall|i: int| 0 <= i < s.len() implies is_white(#[trigger] s[i]) by {
                if i < e.len() {
                    assert(head[i] == s[i]);
                } else {
                    assert(w[i - e.len()] == s[i]);
                }
            }
        }
        lemma_trim_start_white(s, Seq::<char>::empty());
        assert(s + Seq::<char>::empty() == s);
        assert(trim_start(s) == Seq::<char>::empty());
        assert(trim_end(Seq::<char>::empty()) == Seq::<char>::empty());
        lemma_trim_start_white(e, Seq::<char>::empty());
        assert(e + Seq::<char>::empty() == e);
    }
}

/// White space around a text is trimmed off with the rest.
proof fn lemma_trim_padded(a: Seq<char>, s: Seq<char>, b: Seq<char>)
    requires
        all_white(a),
        all_white(b),
    ensures
        trim(a + s + b) == trim(s),
{
    assert(a + s + b == a + (s + b));
    lemma_trim_start_white(a, s + b);
    lemma_trim_of_trim_end(s + b);
    lemma_trim_of_trim_end(s);
    lemma_trim_end_white(s, b);
}

/// A text that neither starts nor ends with white space is left as it is.
pub(crate) proof fn lemma_trim_tight(s: Seq<char>)
    requires
        s.len() > 0,
        !is_white(s[0]),
        !is_white(s.last()),
    ensures
        trim(s) == s,
{
}

/// What stands before the last character that is not white space is kept.
proof fn lemma_trim_end_marked(mark: Seq<char>, s: Seq<char>)
    requires
        mark.len() > 0,
        !is_white(mark.last()),
    ensures
        trim_end(mark + s) == mark + trim_end(s),
{
    lemma_trim_end_split(s);
    let e = trim_end(s);
    let w = s.skip(e.len() as int);
    assert(s == e + w);
    assert(mark + s == (mark + e) + w);
    lemma_trim_end_white(mark + e, w);
    assert((mark + e).last() == if e.len() > 0 { e.last() } else { mark.last() });
}

/// Only the end of a text behind a mark is trimmed.
proof fn lemma_trim_marked(mark: Seq<char>, s: Seq<char>)
    requires
        mark.len() > 0,
        !is_white(mark[0]),
        !is_white(mark.last()),
    ensures
        trim(mark + s) == mark + trim_end(s),
{
    assert((mark + s)[0] == mark[0]);
    lemma_trim_end_marked(mark, s);
}

proof fn lemma_without_return(head: Seq<char>, s: Seq<char>)
    requires
        head.len() > 0,
        head.last() != '\r',
    ensures
        without_return(head + s) == head + without_return(s),
        trim(without_return(s)) == trim(s),
        trim_end(without_return(s)) == trim_end(s),
{
    if s.len() > 0 {
        assert((head + s).last() == s.last());
        assert((head + s).drop_last() == head + s.drop_last());
        if s.last() == '\r' {
            assert(is_white('\r'));
            lemma_trim_of_trim_end(s);
            lemma_trim_of_trim_end(s.drop_last());
        }
    } else {
        assert(head + s == head);
    }
}

// ------------------------------------------------------------ first match

proof fn lemma_field_skip(ls: Seq<Seq<char>>, more: Seq<Seq<char>>, label: Seq<char>)
    requires
        field_in(ls, label) is Some,
    ensures
        field_in(ls + more, label) == field_in(ls, label),
    decreases ls.len(),
{
    let all = ls + more;
    assert(all[0] == ls[0]);
    if !label.is_prefix_of(trim(ls[0])) {
        lemma_field_skip(ls.skip(1), more, label);
        assert(all.skip(1) == ls.skip(1) + more);
    }
}

spec fn all_blank(ls: Seq<Seq<char>>) -> bool {
    forall|i: int| 0 <= i < ls.len() ==> trim(#[trigger] ls[i]).len() == 0
}

proof fn lemma_title_skip(ls: Seq<Seq<char>>, more: Seq<Seq<char>>)
    requires
        !all_blank(ls),
    ensures
        title_in(ls + more) == title_in(ls),
    decreases ls.len(),
{
    let all = ls + more;
    assert(ls.len() > 0);
    assert(all[0] == ls[0]);
    if trim(ls[0]).len() == 0 {
        assert(!all_blank(ls.skip(1))) by {
            let i = choose|i: int| 0 <= i < ls.len() && trim(#[trigger] ls[i]).len() != 0;
            assert(ls.skip(1)[i - 1] == ls[i]);
        }
        lemma_title_skip(ls.skip(1), more);
        assert(all.skip(1) == ls.skip(1) + more);
    }
}

/// What is appended to a file that ends a line changes neither its title nor
/// a field that it has.
pub proof fn law_appending_keeps_header(content: Seq<char>, more: Seq<char>, label: Seq<char>)
    requires
        content.len() > 0,
        content.last() == '\n',
    ensures
        field(content, label) is Some ==> field(content + more, label) == field(content, label),
        alert_key_of(content) is Some ==> alert_key_of(content + more) == alert_key_of(content),
        !all_lines_blank(content) ==> title_of(content + more) == title_of(content),
{
    lemma_lines_append(content, more);
    if field_in(lines(content), label) is Some {
        lemma_field_skip(lines(content), lines(more), label);
    }
    if field_in(lines(content), "**Alert key:**"@) is Some {
        lemma_field_skip(lines(content), lines(more), "**Alert key:**"@);
    }
    if !all_blank(lines(content)) {
        lemma_title_skip(lines(content), lines(more));
    }
}

/// No line of `content` has anything in it.
pub open spec fn all_lines_blank(content: Seq<char>) -> bool {
    forall|i: int| 0 <= i < lines(content).len() ==> trim(#[trigger] lines(content)[i]).len() == 0
}

// ------------------------------------------------------------------- stub

proof fn lemma_labels()
    ensures
        "# "@ == seq!['#', ' '],
        "**Alert key:**"@.len() == 14,
        "**Alert key:**"@[0] == '*',
        "**Alert key:**"@[2] == 'A',
        "**Alert key:**"@.last() == '*',
        "**Rule message:**"@.len() == 17,
        "**Rule message:**"@[0] == '*',
        "**Rule message:**"@[2] == 'R',
        "**Rule message:**"@.last() == '*',
        "**Command:**"@.len() == 12,
        "**Command:**"@[0] == '*',
        "**Command:**"@[2] == 'C',
        "**Command:**"@.last() == '*',
        "\n"@ == seq!['\n'],
        is_line("**Alert key:**"@),
        is_line("**Rule message:**"@),
        is_line("**Command:**"@),
{
    reveal_strlit("# ");
    reveal_strlit("**Alert key:**");
    reveal_strlit("**Rule message:**");
    reveal_strlit("**Command:**");
    reveal_strlit("\n");
    assert("# "@ =~= seq!['#', ' ']);
    assert("\n"@ =~= seq!['\n']);
}

/// The parts of a stub, line by line.
proof fn lemma_stub_parts(
    key: Seq<char>,
    title: Seq<char>,
    message: Seq<char>,
    command: Option<Seq<char>>,
)
    ensures
        ({
            let nl = seq!['\n'];
            let blank = Seq::<char>::empty();
            let tail = match command {
                Some(cmd) if cmd.len() > 0 => blank + nl + ("**Command:**"@ + (seq![' '] + cmd) + nl
                    + blank),
                _ => blank,
            };
            stub_text(key, title, message, command) == "# "@ + title + nl + (blank + nl + (
            "**Alert key:**"@ + (seq![' ', '`'] + key + seq!['`']) + nl + (blank + nl + (
            "**Rule message:**"@ + (seq![' '] + message) + nl + tail))))
        }),
{
    reveal_strlit("# ");
    reveal_strlit("\n\n**Alert key:** `");
    reveal_strlit("`\n\n**Rule message:** ");
    reveal_strlit("\n\n**Command:** ");
    reveal_strlit("\n");
    reveal_strlit("**Alert key:**");
    reveal_strlit("**Rule message:**");
    reveal_strlit("**Command:**");
    let nl = seq!['\n'];
    let blank = Seq::<char>::empty();
    assert("\n"@ =~= nl);
    assert("\n\n**Alert key:** `"@ =~= nl + nl + "**Alert key:**"@ + seq![' ', '`']);
    assert("`\n\n**Rule message:** "@ =~= seq!['`'] + nl + nl + "**Rule message:**"@ + seq![' ']);
    assert("\n\n**Command:** "@ =~= nl + nl + "**Command:**"@ + seq![' ']);
    let tail = match command {
        Some(cmd) if cmd.len() > 0 => blank + nl + ("**Command:**"@ + (seq![' '] + cmd) + nl
            + blank),
        _ => blank,
    };
    assert(message + command_field(command) + nl =~= message + nl + tail);
    assert(stub_text(key, title, message, command) =~= "# "@ + title + "\n\n**Alert key:** `"@ + key
        + "`\n\n**Rule message:** "@ + (message + command_field(command) + nl));
    assert(stub_text(key, title, message, command) =~= "# "@ + title + nl + (blank + nl + (
    "**Alert key:**"@ + (seq![' ', '`'] + key + seq!['`']) + nl + (blank + nl + (
    "**Rule message:**"@ + (seq![' '] + message) + nl + tail)))));
}

proof fn lemma_is_line_concat(a: Seq<char>, b: Seq<char>)
    requires
        is_line(a),
        is_line(b),
    ensures
        is_line(a + b),
{
    assert forall|i: int| 0 <= i < (a + b).len() implies (a + b)[i] != '\n' by {
        if i < a.len() {
            assert(a[i] != '\n');
        } else {
            assert(b[i - a.len()] != '\n');
        }
    }
}

/// A line with a field in it reads as the value of that field.
proof fn lemma_field_line(label: Seq<char>, value: Seq<char>)
    requires
        label.len() > 0,
        !is_white(label[0]),
        !is_white(label.last()),
    ensures
        label.is_prefix_of(trim(without_return(label + (seq![' '] + value)))),
        trim(trim(without_return(label + (seq![' '] + value))).skip(label.len() as int)) == trim(
            value,
        ),
        trim(without_return(label + (seq![' '] + value))).len() >= label.len(),
        forall|i: int|
            0 <= i < label.len() ==> trim(without_return(label + (seq![' '] + value)))[i]
                == #[trigger] label[i],
{
    let s = seq![' '] + value;
    assert(label.last() != '\r') by {
        assert(is_white('\r'));
    }
    lemma_without_return(label, s);
    lemma_trim_marked(label, without_return(s));
    let t = label + trim_end(s);
    assert(trim(without_return(label + s)) == t);
    assert(t.skip(label.len() as int) == trim_end(s));
    lemma_trim_of_trim_end(s);
    lemma_trim_padded(seq![' '], value, Seq::<char>::empty());
    assert(seq![' '] + value + Seq::<char>::empty() == s);
    assert(t.subrange(0, label.len() as int) == label);
}

/// The lines of a stub that come behind the message.
spec fn stub_tail(command: Option<Seq<char>>) -> Seq<Seq<char>> {
    match command {
        Some(c) if c.len() > 0 => seq![
            Seq::<char>::empty(),
            without_return("**Command:**"@ + (seq![' '] + c)),
        ],
        _ => Seq::empty(),
    }
}

proof fn lemma_stub_lines(
    key: Seq<char>,
    title: Seq<char>,
    message: Seq<char>,
    command: Option<Seq<char>>,
)
    requires
        is_line(key),
        is_line(title),
        is_line(message),
        command matches Some(c) ==> is_line(c),
    ensures
        lines(stub_text(key, title, message, command)) == seq![
            without_return("# "@ + title),
            Seq::<char>::empty(),
            without_return("**Alert key:**"@ + (seq![' ', '`'] + key + seq!['`'])),
            Seq::<char>::empty(),
            without_return("**Rule message:**"@ + (seq![' '] + message)),
        ] + stub_tail(command),
{
    let nl = seq!['\n'];
    let blank = Seq::<char>::empty();
    let rule = "**Rule message:**"@;
    let alert = "**Alert key:**"@;
    let cmd_label = "**Command:**"@;
    lemma_labels();
    lemma_stub_parts(key, title, message, command);
    let l0 = "# "@ + title;
    let l2 = alert + (seq![' ', '`'] + key + seq!['`']);
    let l4 = rule + (seq![' '] + message);
    lemma_is_line_concat("# "@, title);
    lemma_is_line_concat(seq![' ', '`'], key);
    lemma_is_line_concat(seq![' ', '`'] + key, seq!['`']);
    lemma_is_line_concat(alert, seq![' ', '`'] + key + seq!['`']);
    lemma_is_line_concat(seq![' '], message);
    lemma_is_line_concat(rule, seq![' '] + message);
    let has_command = command matches Some(c) && c.len() > 0;
    let l6 = cmd_label + (seq![' '] + command->0);
    let tail = if has_command {
        blank + nl + (l6 + nl + blank)
    } else {
        blank
    };
    assert(lines(blank) == Seq::<Seq<char>>::empty());
    assert(lines(tail) == stub_tail(command)) by {
        if has_command {
            lemma_is_line_concat(seq![' '], command->0);
            lemma_is_line_concat(cmd_label, seq![' '] + command->0);
            lemma_first_line(l6, blank);
            lemma_first_line(blank, l6 + nl + blank);
        }
    }
    let t4 = l4 + nl + tail;
    let t3 = blank + nl + t4;
    let t2 = l2 + nl + t3;
    let t1 = blank + nl + t2;
    lemma_first_line(l4, tail);
    lemma_first_line(blank, t4);
    lemma_first_line(l2, t3);
    lemma_first_line(blank, t2);
    lemma_first_line(l0, t1);
}

/// The title in the first line of a stub.
proof fn lemma_stub_title(title: Seq<char>)
    ensures
        ({
            let first = without_return("# "@ + title);
            &&& trim(first).len() > 0
            &&& trim(first)[0] == '#'
            &&& trim(trim_start_char(first, '#')) == trim(title)
        }),
{
    lemma_labels();
    let blank = Seq::<char>::empty();
    let rest = without_return(title);
    lemma_without_return("# "@, title);
    let first = without_return("# "@ + title);
    assert(first == seq!['#'] + (seq![' '] + rest));
    lemma_trim_marked(seq!['#'], seq![' '] + rest);
    assert(first.skip(1) == seq![' '] + rest);
    assert(first.skip(1)[0] == ' ');
    assert(trim_start_char(first.skip(1), '#') == first.skip(1));
    lemma_trim_padded(seq![' '], rest, blank);
    assert(seq![' '] + rest + blank == first.skip(1));
}

/// A line that starts differently is not the one with that field.
proof fn lemma_other_line(
    ls: Seq<Seq<char>>,
    label: Seq<char>,
    i: int,
)
    requires
        ls.len() > 0,
        label.len() > i >= 0,
        trim(ls[0]).len() <= i || trim(ls[0])[i] != label[i],
    ensures
        field_in(ls, label) == field_in(ls.skip(1), label),
{
    if label.is_prefix_of(trim(ls[0])) {
        assert(label == trim(ls[0]).subrange(0, label.len() as int));
        assert(label[i] == trim(ls[0])[i]);
    }
}

/// What a stub says can be read back from it: the title and the message, the
/// key as it is, and the command line where there was one. (White space at
/// the ends of a line is not kept.)
pub proof fn law_stub_reads_back(
    key: Seq<char>,
    title: Seq<char>,
    message: Seq<char>,
    command: Option<Seq<char>>,
)
    requires
        is_line(key),
        is_line(title),
        is_line(message),
        command matches Some(c) ==> is_line(c),
    ensures
        title_of(stub_text(key, title, message, command)) == trim(title),
        alert_key_of(stub_text(key, title, message, command)) == if_any(key),
        field(stub_text(key, title, message, command), "**Rule message:**"@) == if_any(
            trim(message),
        ),
        field(stub_text(key, title, message, command), "**Command:**"@) == match command {
            Some(c) => if_any(trim(c)),
            None => None,
        },
{
    let blank = Seq::<char>::empty();
    let rule = "**Rule message:**"@;
    let alert = "**Alert key:**"@;
    let cmd_label = "**Command:**"@;
    let ls = lines(stub_text(key, title, message, command));
    let value = seq!['`'] + key + seq!['`'];
    lemma_labels();
    lemma_stub_lines(key, title, message, command);
    lemma_stub_title(title);
    assert(trim(blank) == blank) by {
        assert(trim_start(blank) == blank);
    }
    let s1 = ls.skip(1);
    let s2 = s1.skip(1);
    let s3 = s2.skip(1);
    let s4 = s3.skip(1);
    let s5 = s4.skip(1);
    assert(seq![' ', '`'] + key + seq!['`'] == seq![' '] + value);
    assert(s1[0] == blank && s3[0] == blank);
    assert(s2[0] == without_return(alert + (seq![' '] + value)));
    assert(s4[0] == without_return(rule + (seq![' '] + message)));
    assert(s5 == stub_tail(command));
    lemma_field_line(alert, value);
    lemma_field_line(rule, message);
    assert(trim(s2[0])[2] == alert[2]);
    assert(trim(s4[0])[2] == rule[2]);
    // the key
    lemma_other_line(ls, alert, 0);
    lemma_other_line(s1, alert, 0);
    assert(value[0] == '`' && value.last() == '`');
    lemma_trim_tight(value);
    assert(value.subrange(1, value.len() - 1) == key);
    assert(field_in(s2, alert) == Some(value));
    // the message
    lemma_other_line(ls, rule, 0);
    lemma_other_line(s1, rule, 0);
    lemma_other_line(s2, rule, 2);
    lemma_other_line(s3, rule, 0);
    assert(field_in(s4, rule) == Some(trim(message)));
    // the command line
    lemma_other_line(ls, cmd_label, 0);
    lemma_other_line(s1, cmd_label, 0);
    lemma_other_line(s2, cmd_label, 2);
    lemma_other_line(s3, cmd_label, 0);
    lemma_other_line(s4, cmd_label, 2);
    match command {
        Some(c) => {
            if c.len() > 0 {
                lemma_field_line(cmd_label, c);
                lemma_other_line(s5, cmd_label, 0);
                assert(s5.skip(1)[0] == without_return(cmd_label + (seq![' '] + c)));
                assert(field_in(s5.skip(1), cmd_label) == Some(trim(c)));
            } else {
                assert(c == blank);
                assert(field_in(s5, cmd_label) is None);
            }
        },
        None => {
            assert(field_in(s5, cmd_label) is None);
        },
    }
}

// --------------------------------------------------------------- sections

/// What is one line does not stand across the end of one.
proof fn lemma_not_across(s: Seq<char>, p: Seq<char>, from: int, k: int)
    requires
        is_line(p),
        p.len() > 0,
        0 <= from <= k < s.len(),
        s[k] == '\n',
        !contains(s.subrange(from, k), p),
    ensures
        forall|j: int| from <= j <= k ==> !#[trigger] occurs_at(s, p, j),
{
    assert forall|j: int| from <= j <= k implies !#[trigger] occurs_at(s, p, j) by {
        if occurs_at(s, p, j) {
            let part = s.subrange(from, k);
            if j + p.len() <= k {
                assert(part.subrange(j - from, j - from + p.len()) == s.subrange(j, j + p.len()));
                assert(occurs_at(part, p, j - from));
            } else {
                assert(s.subrange(j, j + p.len())[k - j] == s[k]);
                assert(p.contains('\n'));
            }
        }
    }
}

proof fn lemma_nothing_in_nothing(p: Seq<char>)
    requires
        p.len() > 0,
    ensures
        !contains(Seq::<char>::empty(), p),
{
}

/// What the start of a text holds, the text holds.
proof fn lemma_contains_take(s: Seq<char>, p: Seq<char>, n: int)
    requires
        0 <= n <= s.len(),
        !contains(s, p),
    ensures
        !contains(s.take(n), p),
{
    if contains(s.take(n), p) {
        let i = choose|i: int| occurs_at(s.take(n), p, i);
        assert(s.take(n).subrange(i, i + p.len()) == s.subrange(i, i + p.len()));
        assert(occurs_at(s, p, i));
    }
}

/// The first of a heading that stands behind a text without it.
proof fn lemma_find_heading(before: Seq<char>, p: Seq<char>, after: Seq<char>)
    requires
        is_line(p),
        p.len() > 0,
        !contains(before, p),
    ensures
        find(before + seq!['\n'] + p + after, p) == Some(before.len() as int + 1),
{
    let s = before + seq!['\n'] + p + after;
    let k = before.len() as int;
    assert(s.subrange(0, k) == before);
    lemma_not_across(s, p, 0, k);
    assert(s.subrange(k + 1, k + 1 + p.len()) == p);
    assert(occurs_at(s, p, k + 1));
    lemma_find_from(s, p, 0);
    let found = find(s, p);
    assert(found is Some);
    assert(found->0 == k + 1) by {
        if found->0 < k + 1 {
            assert(occurs_at(s, p, found->0));
        }
    }
}

proof fn lemma_headings()
    ensures
        is_line("## Agent diagnosis"@),
        is_line("## Proposed fix"@),
        is_line("## Fix execution"@),
        "## Agent diagnosis"@.len() == 18,
        "## Proposed fix"@.len() == 15,
        "## Fix execution"@.len() == 16,
{
    reveal_strlit("## Agent diagnosis");
    reveal_strlit("## Proposed fix");
    reveal_strlit("## Fix execution");
}

proof fn lemma_section_parts(body: Seq<char>)
    ensures
        section("Agent diagnosis"@, body) == seq!['\n'] + "## Agent diagnosis"@ + (seq!['\n', '\n']
            + trim_end(body) + seq!['\n']),
        section("Fix execution"@, body) == seq!['\n'] + "## Fix execution"@ + (seq!['\n', '\n']
            + trim_end(body) + seq!['\n']),
{
    reveal_strlit("\n## ");
    reveal_strlit("Agent diagnosis");
    reveal_strlit("Fix execution");
    reveal_strlit("## Agent diagnosis");
    reveal_strlit("## Fix execution");
    reveal_strlit("\n\n");
    reveal_strlit("\n");
    assert("\n## "@ + "Agent diagnosis"@ =~= seq!['\n'] + "## Agent diagnosis"@);
    assert("\n## "@ + "Fix execution"@ =~= seq!['\n'] + "## Fix execution"@);
    assert("\n\n"@ =~= seq!['\n', '\n']);
    assert("\n"@ =~= seq!['\n']);
    assert(section("Agent diagnosis"@, body) =~= seq!['\n'] + "## Agent diagnosis"@ + (seq![
        '\n',
        '\n',
    ] + trim_end(body) + seq!['\n']));
    assert(section("Fix execution"@, body) =~= seq!['\n'] + "## Fix execution"@ + (seq!['\n', '\n']
        + trim_end(body) + seq!['\n']));
}

/// In a section's body, from behind its heading to its end, what its text
/// does not hold does not stand.
proof fn lemma_body_free(s: Seq<char>, start: int, body: Seq<char>, p: Seq<char>)
    requires
        is_line(p),
        p.len() > 0,
        !contains(body, p),
        0 <= start,
        start + trim_end(body).len() + 3 <= s.len(),
        s.subrange(start, start + trim_end(body).len() + 3) == seq!['\n', '\n'] + trim_end(body)
            + seq!['\n'],
    ensures
        forall|j: int|
            start <= j <= start + trim_end(body).len() + 2 ==> !#[trigger] occurs_at(s, p, j),
{
    let e = trim_end(body);
    let n: int = e.len() as int;
    let part = s.subrange(start, start + n + 3);
    let whole = seq!['\n', '\n'] + e + seq!['\n'];
    assert(part[0] == whole[0] && part[1] == whole[1] && part[n + 2] == whole[n + 2]);
    assert(s[start] == '\n' && s[start + 1] == '\n' && s[start + e.len() + 2] == '\n');
    lemma_nothing_in_nothing(p);
    assert(s.subrange(start, start) == Seq::<char>::empty());
    assert(s.subrange(start + 1, start + 1) == Seq::<char>::empty());
    lemma_not_across(s, p, start, start);
    lemma_not_across(s, p, start + 1, start + 1);
    lemma_trim_end_split(body);
    lemma_contains_take(body, p, e.len() as int);
    assert(s.subrange(start + 2, start + 2 + e.len()) == e) by {
        assert(whole.subrange(2, 2 + n) == e);
        assert(part.subrange(2, 2 + n) == s.subrange(start + 2, start + 2 + n));
    }
    lemma_not_across(s, p, start + 2, start + 2 + e.len());
}

proof fn lemma_find_nothing(s: Seq<char>, p: Seq<char>, from: int)
    requires
        0 <= from,
        forall|j: int| from <= j ==> !#[trigger] occurs_at(s, p, j),
    ensures
        find_from(s, p, from) is None,
{
    lemma_find_from(s, p, from);
}

/// A diagnosis reads back as it was appended, white space at its ends aside:
/// to a file that has none yet, and without a plan or a report in it.
pub proof fn law_diagnosis_reads_back(content: Seq<char>, diagnosis: Seq<char>)
    requires
        !contains(content, "## Agent diagnosis"@),
        !contains(diagnosis, "## Proposed fix"@),
        !contains(diagnosis, "## Fix execution"@),
    ensures
        diagnosis_of(content + section("Agent diagnosis"@, diagnosis)) == if_any(trim(diagnosis)),
{
    let h = "## Agent diagnosis"@;
    let plan = "## Proposed fix"@;
    let report = "## Fix execution"@;
    let e = trim_end(diagnosis);
    let body = seq!['\n', '\n'] + e + seq!['\n'];
    lemma_headings();
    lemma_section_parts(diagnosis);
    let s = content + section("Agent diagnosis"@, diagnosis);
    assert(s == content + seq!['\n'] + h + body);
    lemma_find_heading(content, h, body);
    let start: int = content.len() + 1 + h.len() as int;
    assert(s.subrange(start as int, s.len() as int) == body);
    lemma_body_free(s, start as int, diagnosis, plan);
    lemma_body_free(s, start as int, diagnosis, report);
    lemma_find_nothing(s, plan, start as int);
    lemma_find_nothing(s, report, start as int);
    lemma_trim_padded(seq!['\n', '\n'], e, seq!['\n']);
    lemma_trim_of_trim_end(diagnosis);
}

/// Where a plan is part of the diagnosis, what stands before it reads back.
pub proof fn law_diagnosis_stops_at_plan(
    content: Seq<char>,
    prose: Seq<char>,
    rest: Seq<char>,
)
    requires
        !contains(content, "## Agent diagnosis"@),
        !contains(prose, "## Proposed fix"@),
        !contains(prose, "## Fix execution"@),
    ensures
        diagnosis_of(
            content + section("Agent diagnosis"@, prose + "\n## Proposed fix"@ + rest),
        ) == if_any(trim(prose)),
{
    let h = "## Agent diagnosis"@;
    let plan = "## Proposed fix"@;
    let report = "## Fix execution"@;
    let answer = prose + "\n## Proposed fix"@ + rest;
    let nl = seq!['\n'];
    let head = prose + nl + plan;
    lemma_headings();
    reveal_strlit("\n## Proposed fix");
    reveal_strlit("## Proposed fix");
    assert("\n## Proposed fix"@ =~= nl + plan);
    assert(answer == head + rest);
    assert(head.last() == plan[14] && plan[14] == 'x');
    lemma_trim_end_marked(head, rest);
    lemma_section_parts(answer);
    let after = trim_end(rest) + nl;
    let s = content + section("Agent diagnosis"@, answer);
    assert(s == content + nl + h + (nl + nl + prose + nl + plan + after));
    lemma_find_heading(content, h, nl + nl + prose + nl + plan + after);
    let start: int = content.len() + 1 + h.len() as int;
    assert(s.skip(start) == nl + nl + prose + nl + plan + after);
    lemma_stops(s, start, prose, plan, report, after);
    assert(s.subrange(start, start + prose.len() + 3) == seq!['\n', '\n'] + prose + nl);
    lemma_trim_padded(seq!['\n', '\n'], prose, nl);
}

/// In prose between line ends, with `plan` behind it, that is the first thing
/// found.
proof fn lemma_stops(
    s: Seq<char>,
    start: int,
    prose: Seq<char>,
    plan: Seq<char>,
    report: Seq<char>,
    after: Seq<char>,
)
    requires
        0 <= start <= s.len(),
        s.skip(start) == seq!['\n'] + seq!['\n'] + prose + seq!['\n'] + plan + after,
        is_line(plan),
        is_line(report),
        plan.len() > 0,
        report.len() > 0,
        !contains(prose, plan),
        !contains(prose, report),
    ensures
        find_from(s, plan, start) == Some(start + prose.len() + 3),
        find_from(s, report, start) matches Some(y) ==> y >= start + prose.len() + 3,
{
    let end: int = start + prose.len() + 3;
    let tail = s.skip(start);
    let n: int = prose.len() as int;
    assert(tail.len() == s.len() - start);
    assert(tail.len() == n + 3 + plan.len() + after.len());
    assert(forall|i: int| 0 <= i < tail.len() ==> #[trigger] s[start + i] == tail[i]);
    assert(tail[0] == '\n' && tail[1] == '\n' && tail[n + 2] == '\n');
    assert(s[start + 0] == tail[0] && s[start + 1] == tail[1] && s[start + (n + 2)] == tail[n + 2]);
    assert(tail.subrange(2, n + 2) == prose);
    assert(s.subrange(start + 2, end - 1) == tail.subrange(2, n + 2));
    assert(tail.subrange(n + 3, n + 3 + plan.len()) == plan);
    assert(s.subrange(end, end + plan.len()) == tail.subrange(n + 3, n + 3 + plan.len()));
    assert(occurs_at(s, plan, end));
    lemma_nothing_in_nothing(plan);
    lemma_nothing_in_nothing(report);
    assert(s.subrange(start, start) == Seq::<char>::empty());
    assert(s.subrange(start + 1, start + 1) == Seq::<char>::empty());
    lemma_not_across(s, plan, start, start);
    lemma_not_across(s, plan, start + 1, start + 1);
    lemma_not_across(s, plan, start + 2, end - 1);
    lemma_not_across(s, report, start, start);
    lemma_not_across(s, report, start + 1, start + 1);
    lemma_not_across(s, report, start + 2, end - 1);
    lemma_find_from(s, plan, start);
    lemma_find_from(s, report, start);
}

/// A report reads back as it was appended, white space at its ends aside, to
/// a file that has none yet.
pub proof fn law_fix_execution_reads_back(content: Seq<char>, report: Seq<char>)
    requires
        !contains(content, "## Fix execution"@),
    ensures
        fix_execution_of(content + section("Fix execution"@, report)) == if_any(trim(report)),
{
    let h = "## Fix execution"@;
    let e = trim_end(report);
    let body = seq!['\n', '\n'] + e + seq!['\n'];
    lemma_headings();
    lemma_section_parts(report);
    let s = content + section("Fix execution"@, report);
    assert(s == content + seq!['\n'] + h + body);
    lemma_find_heading(content, h, body);
    assert(s.skip((content.len() + 1 + h.len()) as int) == body);
    lemma_trim_padded(seq!['\n', '\n'], e, seq!['\n']);
    lemma_trim_of_trim_end(report);
}

/// A report that is appended behind a diagnosis leaves the diagnosis as it
/// was.
pub proof fn law_report_keeps_diagnosis(
    content: Seq<char>,
    diagnosis: Seq<char>,
    report: Seq<char>,
)
    requires
        !contains(content, "## Agent diagnosis"@),
        !contains(diagnosis, "## Proposed fix"@),
        !contains(diagnosis, "## Fix execution"@),
    ensures
        diagnosis_of(
            content + section("Agent diagnosis"@, diagnosis) + section("Fix execution"@, report),
        ) == if_any(trim(diagnosis)),
{
    let h = "## Agent diagnosis"@;
    let plan = "## Proposed fix"@;
    let f = "## Fix execution"@;
    let e = trim_end(diagnosis);
    let body = seq!['\n', '\n'] + e + seq!['\n'];
    let more = seq!['\n', '\n'] + trim_end(report) + seq!['\n'];
    lemma_headings();
    lemma_section_parts(diagnosis);
    lemma_section_parts(report);
    let s = content + section("Agent diagnosis"@, diagnosis) + section("Fix execution"@, report);
    assert(s == content + seq!['\n'] + h + (body + (seq!['\n'] + f + more)));
    lemma_find_heading(content, h, body + (seq!['\n'] + f + more));
    let start: int = content.len() + 1 + h.len() as int;
    let mid: int = start + body.len();
    assert(s.subrange(start as int, mid as int) == body);
    lemma_body_free(s, start as int, diagnosis, plan);
    lemma_body_free(s, start as int, diagnosis, f);
    assert(s[mid as int] == '\n');
    assert(s.subrange(mid + 1, mid + 1 + f.len()) == f);
    assert(occurs_at(s, f, mid + 1));
    lemma_nothing_in_nothing(plan);
    lemma_nothing_in_nothing(f);
    assert(s.subrange(mid as int, mid as int) == Seq::<char>::empty());
    lemma_not_across(s, plan, mid as int, mid as int);
    lemma_not_across(s, f, mid as int, mid as int);
    lemma_find_from(s, plan, start as int);
    lemma_find_from(s, f, start as int);
    assert(find_from(s, f, start as int) == Some(mid + 1));
    let other = find_from(s, plan, start as int);
    assert(other matches Some(y) ==> y >= mid + 1);
    assert(!occurs_at(s, plan, mid + 1)) by {
        reveal_strlit("## Proposed fix");
        reveal_strlit("## Fix execution");
        if occurs_at(s, plan, mid + 1) {
            assert(s.subrange(mid + 1, mid + 1 + plan.len())[3] == s[mid + 4]);
            assert(s.subrange(mid + 1, mid + 1 + f.len())[3] == s[mid + 4]);
        }
    }
    assert(s.subrange(start as int, mid + 1) == body + seq!['\n']);
    assert(body + seq!['\n'] == seq!['\n', '\n'] + e + seq!['\n', '\n']);
    lemma_trim_padded(seq!['\n', '\n'], e, seq!['\n', '\n']);
    lemma_trim_of_trim_end(diagnosis);
}

// ------------------------------------------------------------------- slug

/// A word of a slug: letters in lower case and digits, at least one.
spec fn is_word(s: Seq<char>) -> bool {
    s.len() > 0 && forall|i: int|
        0 <= i < s.len() ==> is_alphanumeric(#[trigger] s[i]) && lower(s[i]) == s[i]
}

spec fn all_words(parts: Seq<Seq<char>>) -> bool {
    forall|i: int| 0 <= i < parts.len() ==> is_word(#[trigger] parts[i])
}

proof fn lemma_lower(c: char)
    requires
        is_alphanumeric(c),
    ensures
        is_alphanumeric(lower(c)),
        lower(lower(c)) == lower(c),
{
}

proof fn lemma_runs_are_words(s: Seq<char>)
    ensures
        all_words(runs(s)),
    decreases s.len(),
{
    if s.len() > 0 {
        if !is_alphanumeric(s[0]) {
            lemma_runs_are_words(s.skip(1));
        } else {
            lemma_run_len(s);
            let n = run_len(s) as int;
            lemma_runs_are_words(s.skip(n));
            let w = lowered(s.take(n));
            assert forall|i: int| 0 <= i < w.len() implies is_alphanumeric(#[trigger] w[i])
                && lower(w[i]) == w[i] by {
                assert(w[i] == lower(s[i]));
                lemma_lower(s[i]);
            }
            let rest = runs(s.skip(n));
            assert forall|i: int| 0 <= i < runs(s).len() implies is_word(#[trigger] runs(s)[i]) by {
                if i > 0 {
                    assert(runs(s)[i] == rest[i - 1]);
                }
            }
        }
    }
}

/// A word is its own only run.
proof fn lemma_run_of_word(w: Seq<char>, rest: Seq<char>)
    requires
        is_word(w),
        rest.len() > 0 ==> !is_alphanumeric(rest[0]),
    ensures
        run_len(w + rest) == w.len(),
        runs(w + rest) == seq![w] + runs(rest),
{
    lemma_run_len_exact(w, rest);
    assert((w + rest).take(w.len() as int) == w);
    assert((w + rest).skip(w.len() as int) == rest);
    assert((w + rest)[0] == w[0]);
    assert(lowered(w) =~= w);
}

proof fn lemma_run_len_exact(w: Seq<char>, rest: Seq<char>)
    requires
        forall|i: int| 0 <= i < w.len() ==> is_alphanumeric(#[trigger] w[i]),
        rest.len() > 0 ==> !is_alphanumeric(rest[0]),
    ensures
        run_len(w + rest) == w.len(),
    decreases w.len(),
{
    let s = w + rest;
    if w.len() > 0 {
        assert(s[0] == w[0]);
        let t = w.skip(1);
        assert forall|i: int| 0 <= i < t.len() implies is_alphanumeric(#[trigger] t[i]) by {
            assert(w[i + 1] == t[i]);
        }
        lemma_run_len_exact(t, rest);
        assert(s.skip(1) == t + rest);
    } else {
        assert(s == rest);
    }
}

/// The runs of words with hyphens between them are those words.
proof fn lemma_runs_of_join(parts: Seq<Seq<char>>, rest: Seq<char>)
    requires
        all_words(parts),
        rest.len() > 0 ==> !is_alphanumeric(rest[0]),
    ensures
        runs(join(parts, "-"@) + rest) == parts + runs(rest),
    decreases parts.len(),
{
    reveal_strlit("-");
    if parts.len() == 0 {
        assert(join(parts, "-"@) + rest == rest);
        assert(parts + runs(rest) == runs(rest));
    } else {
        let less = parts.drop_last();
        let w = parts.last();
        assert(is_word(parts[parts.len() - 1]));
        assert(all_words(less)) by {
            assert forall|i: int| 0 <= i < less.len() implies is_word(#[trigger] less[i]) by {
                assert(parts[i] == less[i]);
            }
        }
        lemma_run_of_word(w, rest);
        if parts.len() == 1 {
            assert(parts == seq![w]);
        } else {
            let tail = "-"@ + (w + rest);
            assert(tail[0] == '-');
            assert(tail.skip(1) == w + rest);
            assert(runs(tail) == runs(w + rest));
            lemma_runs_of_join(less, tail);
            assert(join(parts, "-"@) + rest == join(less, "-"@) + tail);
            assert(parts + runs(rest) == less + (seq![w] + runs(rest)));
        }
    }
}

/// The slug of a slug is that slug: the name in a file and the key it was
/// made from resolve to the same words.
pub proof fn law_slug_is_stable(key: Seq<char>)
    ensures
        slug(slug(key)) == slug(key),
{
    lemma_runs_are_words(key);
    lemma_runs_of_join(runs(key), Seq::<char>::empty());
    assert(slug(key) + Seq::<char>::empty() == slug(key));
    assert(runs(Seq::<char>::empty()) == Seq::<Seq<char>>::empty());
    assert(runs(key) + Seq::<Seq<char>>::empty() == runs(key));
}

/// A slug holds letters in lower case, digits and hyphens, and nothing else.
pub proof fn law_slug_is_safe(key: Seq<char>)
    ensures
        forall|i: int|
            0 <= i < slug(key).len() ==> {
                let c = #[trigger] slug(key)[i];
                c == '-' || (is_alphanumeric(c) && lower(c) == c)
            },
{
    lemma_runs_are_words(key);
    lemma_join_safe(runs(key));
}

proof fn lemma_join_safe(parts: Seq<Seq<char>>)
    requires
        all_words(parts),
    ensures
        forall|i: int|
            0 <= i < join(parts, "-"@).len() ==> {
                let c = #[trigger] join(parts, "-"@)[i];
                c == '-' || (is_alphanumeric(c) && lower(c) == c)
            },
    decreases parts.len(),
{
    reveal_strlit("-");
    if parts.len() == 1 {
        assert(is_word(parts[0]));
    } else if parts.len() > 1 {
        let less = parts.drop_last();
        let w = parts.last();
        assert(is_word(parts[parts.len() - 1]));
        assert(all_words(less)) by {
            assert forall|i: int| 0 <= i < less.len() implies is_word(#[trigger] less[i]) by {
                assert(parts[i] == less[i]);
            }
        }
        lemma_join_safe(less);
        let all = join(parts, "-"@);
        let front = join(less, "-"@);
        assert forall|i: int| 0 <= i < all.len() implies {
            let c = #[trigger] all[i];
            c == '-' || (is_alphanumeric(c) && lower(c) == c)
        } by {
            if i < front.len() {
                assert(all[i] == front[i]);
            } else if i > front.len() {
                assert(all[i] == w[i - front.len() - 1]);
            }
        }
    }
}

proof fn lemma_join_tight(parts: Seq<Seq<char>>)
    requires
        all_words(parts),
    ensures
        parts.len() > 0 ==> join(parts, "-"@).len() > 0 && join(parts, "-"@)[0] != '-' && join(
            parts,
            "-"@,
        ).last() != '-',
        forall|i: int|
            0 <= i < join(parts, "-"@).len() - 1 && #[trigger] join(parts, "-"@)[i] == '-' ==> join(
                parts,
                "-"@,
            )[i + 1] != '-',
    decreases parts.len(),
{
    reveal_strlit("-");
    if parts.len() > 0 {
        let w = parts.last();
        assert(is_word(parts[parts.len() - 1]));
        assert forall|i: int| 0 <= i < w.len() implies #[trigger] w[i] != '-' by {
            assert(is_alphanumeric(w[i]));
        }
        if parts.len() > 1 {
            let less = parts.drop_last();
            assert(all_words(less)) by {
                assert forall|i: int| 0 <= i < less.len() implies is_word(#[trigger] less[i]) by {
                    assert(parts[i] == less[i]);
                }
            }
            lemma_join_tight(less);
            let front = join(less, "-"@);
            let all = join(parts, "-"@);
            let n: int = front.len() as int;
            assert(all == front + "-"@ + w);
            assert forall|i: int| 0 <= i < all.len() - 1 && #[trigger] all[i] == '-' implies all[i + 1]
                != '-' by {
                if i < n - 1 {
                    assert(all[i] == front[i] && all[i + 1] == front[i + 1]);
                } else if i == n - 1 {
                    assert(all[i] == front.last());
                } else if i == n {
                    assert(all[i + 1] == w[0]);
                } else {
                    assert(all[i + 1] == w[i - n]);
                }
            }
            assert(all[0] == front[0]);
            assert(all.last() == w[w.len() - 1]);
        } else {
            assert(join(parts, "-"@) == w);
            assert(w.last() == w[w.len() - 1]);
        }
    }
}

/// A slug is words with one hyphen between each two: it neither starts nor
/// ends with a hyphen, and no hyphen follows another.
pub proof fn law_slug_is_words(key: Seq<char>)
    ensures
        slug(key).len() > 0 ==> slug(key)[0] != '-' && slug(key).last() != '-',
        forall|i: int|
            0 <= i < slug(key).len() - 1 && #[trigger] slug(key)[i] == '-' ==> slug(key)[i + 1] != '-',
{
    lemma_runs_are_words(key);
    lemma_join_tight(runs(key));
}

/// The file of an incident is found by the slug of its key.
pub proof fn law_file_name_holds_slug(time: Seq<char>, key: Seq<char>)
    ensures
        contains(incident_file_name(time, key), slug(key)),
        crate::incidents::is_markdown(incident_file_name(time, key)),
{
    let name = incident_file_name(time, key);
    reveal_strlit("-");
    reveal_strlit(".md");
    let at: int = time.len() as int + 1;
    assert(name.subrange(at as int, at + slug(key).len()) == slug(key));
    assert(occurs_at(name, slug(key), at as int));
    assert(name.subrange(name.len() - 3, name.len() as int) == ".md"@);
}

/// A stub is found again by the key that it was written for: among the files
/// of the journal, its name is one about that key.
pub proof fn law_stub_is_found_by_its_key(time: Seq<char>, key: Seq<char>)
    ensures
        is_about(incident_file_name(time, key), key),
{
    law_file_name_holds_slug(time, key);
}

// ------------------------------------------------------------------- plan

/// A plan that an investigation proposed is found again: the first fenced
/// block of JSON behind the heading, white space at its ends aside. What
/// stands before the heading may hold anything but that heading, and what
/// follows the block may hold anything.
pub proof fn law_proposed_fix_reads_back(before: Seq<char>, json: Seq<char>, after: Seq<char>)
    requires
        !contains(before, "## Proposed fix"@),
        !contains(json, "```"@),
    ensures
        proposed_fix(
            before + "\n## Proposed fix\n\n```json\n"@ + json + "\n```"@ + after,
        ) == if_any(trim(json)),
{
    let h = "## Proposed fix"@;
    let open = "```json"@;
    let close = "```"@;
    let nl = seq!['\n'];
    let s = before + "\n## Proposed fix\n\n```json\n"@ + json + "\n```"@ + after;
    reveal_strlit("## Proposed fix");
    reveal_strlit("```json");
    reveal_strlit("```");
    reveal_strlit("\n```");
    reveal_strlit("\n## Proposed fix\n\n```json\n");
    lemma_headings();
    let rest = seq!['\n', '\n'] + open + nl + json + nl + close + after;
    assert("\n## Proposed fix\n\n```json\n"@ =~= nl + h + seq!['\n', '\n'] + open + nl);
    assert("\n```"@ =~= nl + close);
    assert(s =~= before + nl + h + rest);
    lemma_find_heading(before, h, rest);
    let heading: int = before.len() as int + 1;
    let fence: int = heading + 17;
    let start: int = fence + 7;
    let end: int = start + 1 + json.len() as int + 1;
    assert(s.subrange(fence, fence + 7) == open);
    assert(occurs_at(s, open, fence));
    assert forall|j: int| heading <= j < fence implies !occurs_at(s, open, j) by {
        if occurs_at(s, open, j) {
            assert(s.subrange(j, j + 7)[0] == s[j]);
            if j < heading + 15 {
                assert(s[j] == h[j - heading]);
            } else {
                assert(s[j] == '\n');
            }
        }
    }
    lemma_find_from(s, open, heading);
    assert(find_from(s, open, heading) == Some(fence));
    assert(s.subrange(end, end + 3) == close);
    assert(occurs_at(s, close, end));
    assert(s[start] == '\n' && s[end - 1] == '\n');
    assert forall|j: int| start <= j < end implies !occurs_at(s, close, j) by {
        if occurs_at(s, close, j) {
            let w = s.subrange(j, j + 3);
            assert(w[0] == s[j] && w[1] == s[j + 1] && w[2] == s[j + 2]);
            assert(start < j && j + 2 < end - 1);
            let k = j - start - 1;
            assert(json.subrange(k, k + 3) =~= w) by {
                assert(json[k] == s[j] && json[k + 1] == s[j + 1] && json[k + 2] == s[j + 2]);
            }
            assert(occurs_at(json, close, k));
        }
    }
    lemma_find_from(s, close, start);
    assert(find_from(s, close, start) == Some(end));
    assert(s.subrange(start, end) == nl + json + nl);
    lemma_trim_padded(nl, json, nl);
}

proof fn lemma_found_stays(s: Seq<char>, more: Seq<char>, p: Seq<char>, from: int)
    requires
        0 <= from,
        find_from(s, p, from) is Some,
    ensures
        find_from(s + more, p, from) == find_from(s, p, from),
{
    let all = s + more;
    lemma_find_from(s, p, from);
    lemma_find_from(all, p, from);
    let i = find_from(s, p, from)->0;
    assert(all.subrange(i, i + p.len()) == s.subrange(i, i + p.len()));
    assert(occurs_at(all, p, i));
    let j = find_from(all, p, from)->0;
    if j < i {
        assert(all.subrange(j, j + p.len()) == s.subrange(j, j + p.len()));
        assert(occurs_at(s, p, j));
    }
}

/// A plan that is found in the journal is still found, and still the same,
/// after any text is appended.
pub proof fn law_appending_keeps_plan(content: Seq<char>, more: Seq<char>)
    requires
        proposed_fix(content) is Some,
    ensures
        proposed_fix(content + more) == proposed_fix(content),
{
    let heading = find(content, "## Proposed fix"@)->0;
    lemma_find_from(content, "## Proposed fix"@, 0);
    lemma_found_stays(content, more, "## Proposed fix"@, 0);
    let fence = find_from(content, "```json"@, heading)->0;
    lemma_find_from(content, "```json"@, heading);
    lemma_found_stays(content, more, "```json"@, heading);
    let start = fence + "```json"@.len();
    let end = find_from(content, "```"@, start)->0;
    lemma_find_from(content, "```"@, start);
    lemma_found_stays(content, more, "```"@, start);
    assert((content + more).subrange(start, end) == content.subrange(start, end));
}

/// The words of a slug are the runs of letters and digits in the key, all of
/// them in their order and in lower case.
pub proof fn law_slug_takes_all_words(gap: Seq<char>, w: Seq<char>, rest: Seq<char>)
    requires
        forall|i: int| 0 <= i < gap.len() ==> !is_letter_or_digit(#[trigger] gap[i]),
        forall|i: int| 0 <= i < w.len() ==> is_letter_or_digit(#[trigger] w[i]),
        rest.len() > 0 ==> !is_letter_or_digit(rest[0]),
    ensures
        runs(gap).len() == 0,
        w.len() > 0 ==> runs(gap + w + rest) == seq![lowered(w)] + runs(rest),
        slug(gap + w + rest) == join(runs(gap + w + rest), "-"@),
    decreases gap.len(),
{
    if gap.len() > 0 {
        let less = gap.skip(1);
        assert forall|i: int| 0 <= i < less.len() implies !is_letter_or_digit(#[trigger] less[i]) by {
            assert(less[i] == gap[i + 1]);
        }
        assert(!is_letter_or_digit(gap[0]));
        law_slug_takes_all_words(less, w, rest);
        assert((gap + w + rest).skip(1) =~= less + w + rest);
        assert((gap + w + rest)[0] == gap[0]);
    } else {
        assert(gap + w + rest =~= w + rest);
        if w.len() > 0 {
            assert(is_letter_or_digit(w[0]));
            lemma_run_len_exact(w, rest);
            assert((w + rest)[0] == w[0]);
            assert((w + rest).take(w.len() as int) =~= w);
            assert((w + rest).skip(w.len() as int) =~= rest);
        }
    }
}

/// An ASCII letter or digit.
pub open spec fn is_letter_or_digit(c: char) -> bool {
    ('0' <= c && c <= '9') || ('a' <= c && c <= 'z') || ('A' <= c && c <= 'Z')
}

/// The name of an incident's file starts with the time and a hyphen, so that
/// the names stand in the order of the times.
pub proof fn law_file_name_starts_with_time(time: Seq<char>, key: Seq<char>)
    ensures
        incident_file_name(time, key) == time + "-"@ + slug(key) + ".md"@,
        spelled_at(incident_file_name(time, key), time, 0),
{
}

/// The journal and the status are kept in the directory `.vigil` of the home
/// directory.
pub proof fn law_where_things_are(home: Seq<char>)
    requires
        home.len() > 0,
        home.last() != '/',
    ensures
        crate::incidents::journal_dir(Some(home)) == home + "/.vigil/incidents"@,
        crate::menubar::status_path(Some(home)) == home + "/.vigil/status.json"@,
        crate::incident_window::polled_dir(None, Some(home)) == home + "/.vigil/incidents"@,
        crate::incident_window::polled_dir(Some(home), None) == home,
{
    crate::paths::law_path(home, ".vigil"@);
    reveal_strlit("/.vigil");
    reveal_strlit(".vigil");
    reveal_strlit("/.vigil/incidents");
    reveal_strlit("/.vigil/status.json");
    reveal_strlit("incidents");
    reveal_strlit("status.json");
    let dir = home + "/.vigil"@;
    assert(dir.last() == 'l');
    assert(home + seq!['/'] + ".vigil"@ =~= dir);
    crate::paths::law_path(dir, "incidents"@);
    crate::paths::law_path(dir, "status.json"@);
    assert(dir + seq!['/'] + "incidents"@ =~= home + "/.vigil/incidents"@);
    assert(dir + seq!['/'] + "status.json"@ =~= home + "/.vigil/status.json"@);
}

/// A field that is not there or is blank has no value, and neither has a key
/// without backticks around it or with nothing between them.
pub proof fn law_values(content: Seq<char>, label: Seq<char>, value: Seq<char>)
    ensures
        field_in(lines(content), label) is None ==> field(content, label) is None,
        field_in(lines(content), label) == Some(value) ==> field(content, label) == (if value.len()
            > 0 {
            Some(value)
        } else {
            None
        }),
        title_of(content) == title_in(lines(content)),
        field_in(lines(content), "**Alert key:**"@) is None ==> alert_key_of(content) is None,
        field_in(lines(content), "**Alert key:**"@) == Some(seq!['`'] + value + seq!['`'])
            ==> alert_key_of(content) == (if value.len() > 0 {
            Some(value)
        } else {
            None
        }),
{
    crate::incidents::law_key_is_ticked(value);
}

/// The report on a fix is all that stands behind the first heading for it.
pub proof fn law_report_is_behind_its_heading(content: Seq<char>, before: Seq<char>, body: Seq<char>)
    requires
        content == before + "## Fix execution"@ + body,
        forall|i: int|
            0 <= i < before.len() ==> !#[trigger] spelled_at(content, "## Fix execution"@, i),
    ensures
        trim(body).len() > 0 ==> fix_execution_of(content) == Some(trim(body)),
        trim(body).len() == 0 ==> fix_execution_of(content) is None,
{
    let h = "## Fix execution"@;
    lemma_first_heading(content, before, h, body);
    assert(content.skip(before.len() as int + h.len()) =~= body);
}

/// Without its heading there is no report and no diagnosis.
pub proof fn law_no_section_without_its_heading(content: Seq<char>)
    ensures
        !is_spelled_in(content, "## Fix execution"@) ==> fix_execution_of(content) is None,
        !is_spelled_in(content, "## Agent diagnosis"@) ==> diagnosis_of(content) is None,
{
    law_search_finds_the_first(content, "## Fix execution"@, 0);
    law_search_finds_the_first(content, "## Agent diagnosis"@, 0);
    if find(content, "## Fix execution"@) is Some {
        assert(spelled_at(content, "## Fix execution"@, find(content, "## Fix execution"@)->0));
    }
    if find(content, "## Agent diagnosis"@) is Some {
        assert(spelled_at(content, "## Agent diagnosis"@, find(content, "## Agent diagnosis"@)->0));
    }
}

proof fn lemma_first_heading(content: Seq<char>, before: Seq<char>, h: Seq<char>, body: Seq<char>)
    requires
        content == before + h + body,
        forall|i: int| 0 <= i < before.len() ==> !#[trigger] spelled_at(content, h, i),
    ensures
        find(content, h) == Some(before.len() as int),
{
    law_search_finds_the_first(content, h, 0);
    assert(spelled_at(content, h, before.len() as int)) by {
        assert forall|k: int| 0 <= k < h.len() implies content[before.len() + k]
            == #[trigger] h[k] by {}
    }
}

/// The diagnosis is what stands behind the first heading for it, up to the
/// next heading for a plan or a report, or to the end.
pub proof fn law_diagnosis_is_behind_its_heading(
    content: Seq<char>,
    before: Seq<char>,
    body: Seq<char>,
    rest: Seq<char>,
)
    requires
        content == before + "## Agent diagnosis"@ + (body + rest),
        forall|i: int|
            0 <= i < before.len() ==> !#[trigger] spelled_at(content, "## Agent diagnosis"@, i),
        ({
            let start: int = before.len() as int + "## Agent diagnosis"@.len();
            let end: int = start + body.len();
            &&& forall|i: int|
                start <= i < end ==> !#[trigger] spelled_at(content, "## Proposed fix"@, i)
            &&& forall|i: int|
                start <= i < end ==> !#[trigger] spelled_at(content, "## Fix execution"@, i)
            &&& rest.len() > 0 ==> spelled_at(content, "## Proposed fix"@, end) || spelled_at(
                content,
                "## Fix execution"@,
                end,
            )
        }),
    ensures
        trim(body).len() > 0 ==> diagnosis_of(content) == Some(trim(body)),
        trim(body).len() == 0 ==> diagnosis_of(content) is None,
{
    let h = "## Agent diagnosis"@;
    let plan = "## Proposed fix"@;
    let report = "## Fix execution"@;
    lemma_first_heading(content, before, h, body + rest);
    let start: int = before.len() as int + h.len();
    let end: int = start + body.len();
    law_search_finds_the_first(content, plan, start);
    law_search_finds_the_first(content, report, start);
    assert(plan.len() > 0 && report.len() > 0) by {
        reveal_strlit("## Proposed fix");
        reveal_strlit("## Fix execution");
    }
    assert(content.len() == end + rest.len());
    let a = find_from(content, plan, start);
    let b = find_from(content, report, start);
    assert(earliest(a, b, content.len() as int) == end) by {
        if a is Some {
            assert(spelled_at(content, plan, a->0));
            assert(a->0 >= end);
        }
        if b is Some {
            assert(spelled_at(content, report, b->0));
            assert(b->0 >= end);
        }
        if rest.len() > 0 {
            if spelled_at(content, plan, end) {
                assert(a is Some && a->0 <= end);
            } else {
                assert(b is Some && b->0 <= end);
            }
        }
    }
    assert(content.subrange(start, end) =~= body);
}

/// A stub has the title for its heading and below it the key, the message and,
/// where there is one, the command line, each under its label.
pub proof fn law_stub_text(key: Seq<char>, title: Seq<char>, message: Seq<char>, cmd: Seq<char>)
    ensures
        ({
            let start = "# "@ + title + "\n\n**Alert key:** `"@ + key + "`\n\n**Rule message:** "@
                + message;
            &&& stub_text(key, title, message, None) == start + "\n"@
            &&& cmd.len() == 0 ==> stub_text(key, title, message, Some(cmd)) == start + "\n"@
            &&& cmd.len() > 0 ==> stub_text(key, title, message, Some(cmd)) == start + (
            "\n\n**Command:** "@ + cmd) + "\n"@
        }),
{
    let start = "# "@ + title + "\n\n**Alert key:** `"@ + key + "`\n\n**Rule message:** "@ + message;
    assert(start + Seq::<char>::empty() =~= start);
}

/// A section is a heading, a blank line and the text without the white space
/// at its end.
pub proof fn law_section_text(heading: Seq<char>, body: Seq<char>)
    ensures
        section(heading, body) == "\n## "@ + heading + "\n\n"@ + trim_end(body) + "\n"@,
{
}

} // verus!
