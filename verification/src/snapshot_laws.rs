//! What a snapshot is made of, said of the lines and processes it comes from.
use crate::float::{lemma_percent, lemma_whole_exact, lemma_whole_near, SINGLE};
use crate::number::{all_digits, value};
use crate::snapshot::{
    before, charge, charging, command_text, counted, cpu_sum, describes_disk, first,
    from_first_digit, grouped, has_group, law_oldest_have_run_longest, oldest_of, remaining_fits,
    sample_of,
    heaviest, is_group, is_incoming, is_other, is_tcp, listens_on, loopback, mem_sum, members,
    named, netstat_text, percent_word, port, real_disks, remaining, tcp_rows, to_last_digit,
    used_bits, ConnectionCounts, DiskInfo, ProcGroup, ProcInfo, RawDisk,
};
use crate::text::{find, join, lines, words};
use crate::text_laws::{
    free_of, is_spelled_in, law_cut_at_last, law_number_reading, law_search_finds_the_first,
    lemma_position_of_first, spelled_at,
};
use vstd::prelude::*;

verus! {

// ------------------------------------------------------------ connections

/// An address is written as a host, a dot and a port.
pub open spec fn is_address(addr: Seq<char>, host: Seq<char>, p: Seq<char>) -> bool {
    addr == host + seq!['.'] + p && free_of(p, '.')
}

/// `s` starts with `127.`.
pub open spec fn starts_with_127(s: Seq<char>) -> bool {
    s.len() >= 4 && s[0] == '1' && s[1] == '2' && s[2] == '7' && s[3] == '.'
}

/// A host is this machine itself exactly when it is `::1` or starts with
/// `127.`; any other peer, on the local network too, is another machine.
pub proof fn law_loopback(addr: Seq<char>, host: Seq<char>, p: Seq<char>)
    requires
        is_address(addr, host, p) || (addr == host && free_of(addr, '.')),
    ensures
        loopback(addr) <==> host == seq![':', ':', '1'] || starts_with_127(host),
{
    reveal_strlit("127.0.0.1");
    reveal_strlit("::1");
    reveal_strlit("127.");
    if is_address(addr, host, p) {
        law_cut_at_last(host, '.', p);
    } else {
        law_cut_at_last(Seq::<char>::empty(), '.', host);
    }
    assert("::1"@ =~= seq![':', ':', '1']);
    let net = "127."@;
    if net.is_prefix_of(host) {
        let start = host.subrange(0, net.len() as int);
        assert(start[0] == host[0] && start[1] == host[1] && start[2] == host[2] && start[3]
            == host[3]);
    }
    if starts_with_127(host) {
        assert(host.subrange(0, net.len() as int) =~= net);
    }
}

/// The port of an address is what stands behind its last dot, where that is
/// made of digits.
pub proof fn law_port(addr: Seq<char>, host: Seq<char>, p: Seq<char>)
    requires
        is_address(addr, host, p),
    ensures
        port(addr) == (if p.len() > 0 && (forall|i: int|
            0 <= i < p.len() ==> '0' <= #[trigger] p[i] && p[i] <= '9') {
            Some(p)
        } else {
            None
        }),
{
    law_cut_at_last(host, '.', p);
    if forall|i: int| 0 <= i < p.len() ==> '0' <= #[trigger] p[i] && p[i] <= '9' {
        assert(all_digits(p));
    } else {
        let i = choose|i: int| 0 <= i < p.len() && !('0' <= #[trigger] p[i] && p[i] <= '9');
        assert(!all_digits(p));
    }
}

/// The port is the last part of the address.
pub open spec fn ends_in_port(addr: Seq<char>, p: Seq<char>) -> bool {
    addr == p || exists|h: Seq<char>| is_address(addr, h, p)
}

/// Some row waits for connections on the port.
pub open spec fn is_served(rows: Seq<Seq<Seq<char>>>, p: Seq<char>) -> bool {
    exists|i: int|
        0 <= i < rows.len() && rows[i][5] == "LISTEN"@ && #[trigger] ends_in_port(rows[i][3], p)
}

proof fn lemma_split(addr: Seq<char>) -> (r: (Seq<char>, Seq<char>))
    requires
        exists|i: int| 0 <= i < addr.len() && addr[i] == '.',
    ensures
        is_address(addr, r.0, r.1),
    decreases addr.len(),
{
    let last = addr.len() - 1;
    if addr[last] == '.' {
        let r = (addr.drop_last(), Seq::<char>::empty());
        assert(addr =~= r.0 + seq!['.'] + r.1);
        r
    } else {
        let less = addr.drop_last();
        let i = choose|i: int| 0 <= i < addr.len() && addr[i] == '.';
        assert(less[i] == '.');
        let (h, p) = lemma_split(less);
        assert(addr =~= less.push(addr[last]));
        assert(less.push(addr[last]) =~= h + seq!['.'] + p.push(addr[last]));
        (h, p.push(addr[last]))
    }
}

proof fn lemma_served(rows: Seq<Seq<Seq<char>>>, p: Seq<char>)
    requires
        p.len() > 0,
        forall|i: int| 0 <= i < p.len() ==> '0' <= #[trigger] p[i] && p[i] <= '9',
    ensures
        listens_on(rows, p) <==> is_served(rows, p),
{
    assert(free_of(p, '.'));
    if listens_on(rows, p) {
        let i = choose|i: int|
            0 <= i < rows.len() && (#[trigger] rows[i])[5] == "LISTEN"@ && port(rows[i][3])
                == Some(p);
        let addr = rows[i][3];
        if exists|k: int| 0 <= k < addr.len() && addr[k] == '.' {
            let (h, q) = lemma_split(addr);
            law_port(addr, h, q);
            assert(is_address(addr, h, p));
        } else {
            assert(free_of(addr, '.'));
            law_cut_at_last(Seq::<char>::empty(), '.', addr);
        }
        assert(ends_in_port(rows[i][3], p));
    }
    if is_served(rows, p) {
        let i = choose|i: int|
            0 <= i < rows.len() && rows[i][5] == "LISTEN"@ && #[trigger] ends_in_port(
                rows[i][3],
                p,
            );
        let addr = rows[i][3];
        if addr == p {
            law_cut_at_last(Seq::<char>::empty(), '.', p);
            assert(all_digits(p));
        } else {
            let h = choose|h: Seq<char>| is_address(addr, h, p);
            law_port(addr, h, p);
        }
        assert(rows[i][5] == "LISTEN"@ && port(rows[i][3]) == Some(p));
    }
}

/// A connection came in from outside exactly when it is established, its peer
/// is another machine, and this machine waits for connections on its port.
pub proof fn law_incoming(
    rows: Seq<Seq<Seq<char>>>,
    row: Seq<Seq<char>>,
    host: Seq<char>,
    p: Seq<char>,
    peer: Seq<char>,
    peer_port: Seq<char>,
)
    requires
        is_address(row[3], host, p),
        is_address(row[4], peer, peer_port),
        p.len() > 0,
        forall|i: int| 0 <= i < p.len() ==> '0' <= #[trigger] p[i] && p[i] <= '9',
    ensures
        is_incoming(rows, row) <==> {
            &&& row[5] == "ESTABLISHED"@
            &&& peer != seq![':', ':', '1']
            &&& !starts_with_127(peer)
            &&& is_served(rows, p)
        },
{
    law_loopback(row[4], peer, peer_port);
    law_port(row[3], host, p);
    lemma_served(rows, p);
}

/// The places in `s` where `p` holds.
pub open spec fn places<A>(s: Seq<A>, p: spec_fn(A) -> bool) -> Set<int> {
    Set::new(|k: int| 0 <= k < s.len() && p(s[k]))
}

pub(crate) proof fn lemma_places<A>(s: Seq<A>, p: spec_fn(A) -> bool)
    ensures
        places(s, p).finite(),
        places(s, p).len() == s.filter(p).len(),
    decreases s.len(),
{
    if s.len() > 0 {
        let less = s.drop_last();
        let last = s.len() - 1;
        lemma_places(less, p);
        assert(s == less.push(s[last]));
        less.lemma_filter_len_push(p, s[last]);
        if p(s[last]) {
            assert(places(s, p) =~= places(less, p).insert(last));
            assert(!places(less, p).contains(last));
        } else {
            assert(places(s, p) =~= places(less, p));
        }
    } else {
        reveal(Seq::filter);
        assert(places(s, p) =~= Set::<int>::empty());
    }
}

/// Every connection is counted once in the total, once under its state, and
/// once more where it came in from outside.
pub proof fn law_counts(counts: ConnectionCounts, rows: Seq<Seq<Seq<char>>>)
    requires
        counted(counts, rows, rows),
    ensures
        counts.total == rows.len(),
        counts.established == places(rows, |r: Seq<Seq<char>>| r[5] == "ESTABLISHED"@).len(),
        counts.listen == places(rows, |r: Seq<Seq<char>>| r[5] == "LISTEN"@).len(),
        counts.time_wait == places(rows, |r: Seq<Seq<char>>| r[5] == "TIME_WAIT"@).len(),
        counts.close_wait == places(rows, |r: Seq<Seq<char>>| r[5] == "CLOSE_WAIT"@).len(),
        counts.other == places(
            rows,
            |r: Seq<Seq<char>>|
                r[5] != "ESTABLISHED"@ && r[5] != "LISTEN"@ && r[5] != "TIME_WAIT"@ && r[5]
                    != "CLOSE_WAIT"@,
        ).len(),
        counts.incoming == places(rows, |r: Seq<Seq<char>>| is_incoming(rows, r)).len(),
{
    lemma_places(rows, |r: Seq<Seq<char>>| r[5] == "ESTABLISHED"@);
    lemma_places(rows, |r: Seq<Seq<char>>| r[5] == "LISTEN"@);
    lemma_places(rows, |r: Seq<Seq<char>>| r[5] == "TIME_WAIT"@);
    lemma_places(rows, |r: Seq<Seq<char>>| r[5] == "CLOSE_WAIT"@);
    let other = |r: Seq<Seq<char>>|
        r[5] != "ESTABLISHED"@ && r[5] != "LISTEN"@ && r[5] != "TIME_WAIT"@ && r[5]
            != "CLOSE_WAIT"@;
    lemma_places(rows, other);
    assert(other =~= (|row: Seq<Seq<char>>| is_other(row)));
    lemma_places(rows, |r: Seq<Seq<char>>| is_incoming(rows, r));
    assert(counts.established == rows.filter(
        |r: Seq<Seq<char>>| r[5] == "ESTABLISHED"@,
    ).len());
    assert(counts.listen == rows.filter(|r: Seq<Seq<char>>| r[5] == "LISTEN"@).len());
    assert(counts.time_wait == rows.filter(|r: Seq<Seq<char>>| r[5] == "TIME_WAIT"@).len());
    assert(counts.close_wait == rows.filter(|r: Seq<Seq<char>>| r[5] == "CLOSE_WAIT"@).len());
    assert(counts.incoming == rows.filter(|r: Seq<Seq<char>>| is_incoming(rows, r)).len());
}

/// One more connection from another machine, on a port that is served, is one
/// more that came in, whatever else there is.
pub proof fn law_one_more_incoming(
    before: ConnectionCounts,
    after: ConnectionCounts,
    rows: Seq<Seq<Seq<char>>>,
    row: Seq<Seq<char>>,
)
    requires
        counted(before, rows, rows),
        counted(after, rows.push(row), rows.push(row)),
        row[5] == "ESTABLISHED"@,
        is_incoming(rows, row),
    ensures
        after.total == before.total + 1,
        after.established == before.established + 1,
        after.incoming == before.incoming + 1,
        after.listen == before.listen,
{
    let now = rows.push(row);
    law_counts(before, rows);
    law_counts(after, now);
    let came = |r: Seq<Seq<char>>| is_incoming(rows, r);
    let comes = |r: Seq<Seq<char>>| is_incoming(now, r);
    assert("ESTABLISHED"@ != "LISTEN"@) by {
        reveal_strlit("ESTABLISHED");
        reveal_strlit("LISTEN");
        assert("ESTABLISHED"@.len() == 11 && "LISTEN"@.len() == 6);
    }
    assert forall|r: Seq<Seq<char>>| is_incoming(rows, r) == #[trigger] is_incoming(now, r) by {
        if port(r[3]) is Some {
            let p = port(r[3])->0;
            if listens_on(rows, p) {
                let i = choose|i: int|
                    0 <= i < rows.len() && (#[trigger] rows[i])[5] == "LISTEN"@ && port(rows[i][3])
                        == Some(p);
                assert(now[i][5] == "LISTEN"@ && port(now[i][3]) == Some(p));
            }
            if listens_on(now, p) {
                let i = choose|i: int|
                    0 <= i < now.len() && (#[trigger] now[i])[5] == "LISTEN"@ && port(now[i][3])
                        == Some(p);
                assert(rows[i][5] == "LISTEN"@ && port(rows[i][3]) == Some(p));
            }
        }
    }
    assert(came =~= comes);
    let established = |r: Seq<Seq<char>>| r[5] == "ESTABLISHED"@;
    let listen = |r: Seq<Seq<char>>| r[5] == "LISTEN"@;
    lemma_places(rows, came);
    lemma_places(now, came);
    lemma_places(rows, established);
    lemma_places(now, established);
    lemma_places(rows, listen);
    lemma_places(now, listen);
    rows.lemma_filter_len_push(came, row);
    rows.lemma_filter_len_push(established, row);
    rows.lemma_filter_len_push(listen, row);
}

/// A line is about a TCP connection exactly when it has at least six columns
/// and the first starts with `tcp`; the others are left out.
pub proof fn law_tcp_lines(output: Seq<char>, k: int)
    requires
        0 <= k < lines(output).len(),
    ensures
        ({
            let cols = words(lines(output)[k]);
            tcp_rows(output).contains(cols) <==> cols.len() >= 6 && cols[0].len() >= 3
                && cols[0][0] == 't' && cols[0][1] == 'c' && cols[0][2] == 'p'
        }),
        tcp_rows(output).len() == places(
            lines(output),
            |l: Seq<char>|
                {
                    let cols = words(l);
                    cols.len() >= 6 && cols[0].len() >= 3 && cols[0][0] == 't' && cols[0][1] == 'c'
                        && cols[0][2] == 'p'
                },
        ).len(),
{
    let all = lines(output).map_values(|l: Seq<char>| words(l));
    let tcp = |cols: Seq<Seq<char>>| is_tcp(cols);
    let mine = |l: Seq<char>|
        {
            let cols = words(l);
            cols.len() >= 6 && cols[0].len() >= 3 && cols[0][0] == 't' && cols[0][1] == 'c'
                && cols[0][2] == 'p'
        };
    assert forall|cols: Seq<Seq<char>>| #[trigger] is_tcp(cols) <==> cols.len() >= 6
        && cols[0].len() >= 3 && cols[0][0] == 't' && cols[0][1] == 'c' && cols[0][2] == 'p' by {
        reveal_strlit("tcp");
        let mark = "tcp"@;
        if cols.len() >= 6 && cols[0].len() >= 3 {
            let start = cols[0].subrange(0, mark.len() as int);
            if start == mark {
                assert(start[0] == cols[0][0] && start[1] == cols[0][1] && start[2] == cols[0][2]);
            }
            if cols[0][0] == 't' && cols[0][1] == 'c' && cols[0][2] == 'p' {
                assert(start =~= mark);
            }
        }
    }
    lemma_places(all, tcp);
    assert(places(all, tcp) =~= places(lines(output), mine));
    let cols = words(lines(output)[k]);
    assert(all[k] == cols);
    if is_tcp(cols) {
        all.lemma_filter_contains(tcp, k);
    }
    if tcp_rows(output).contains(cols) {
        let i = choose|i: int| 0 <= i < tcp_rows(output).len() && tcp_rows(output)[i] == cols;
        all.lemma_filter_pred(tcp, i);
    }
}

/// What `netstat` printed for both families of addresses is counted, and what
/// there is where it could be run for one only.
pub proof fn law_both_families(a: Seq<char>, b: Seq<char>)
    ensures
        netstat_text(Some(a), Some(b)) == Some(a + seq!['\n'] + b),
        netstat_text(Some(a), None) == Some(a),
        netstat_text(None, Some(b)) == Some(b),
        netstat_text(None, None) is None,
{
    reveal_strlit("\n");
    assert("\n"@ =~= seq!['\n']);
}

// ---------------------------------------------------------------- battery

/// A battery is discharging exactly when its line says so, and charging
/// exactly when the line says that, or that there is power, without the other.
pub proof fn law_charging(line: Seq<char>)
    ensures
        charging(line) == Some(false) <==> is_spelled_in(line, "discharging"@),
        charging(line) == Some(true) <==> !is_spelled_in(line, "discharging"@) && (is_spelled_in(
            line,
            "charging"@,
        ) || is_spelled_in(line, "AC Power"@)),
{
    law_search_finds_the_first(line, "discharging"@, 0);
    law_search_finds_the_first(line, "charging"@, 0);
    law_search_finds_the_first(line, "AC Power"@, 0);
}

/// No character of `s` is a digit.
pub open spec fn digitless(s: Seq<char>) -> bool {
    forall|i: int| 0 <= i < s.len() ==> !('0' <= #[trigger] s[i] && s[i] <= '9')
}

/// Every character of `s` is a digit.
pub open spec fn is_digits(s: Seq<char>) -> bool {
    forall|i: int| 0 <= i < s.len() ==> '0' <= #[trigger] s[i] && s[i] <= '9'
}

proof fn lemma_percent_word(ws: Seq<Seq<char>>, k: int)
    requires
        0 <= k <= ws.len(),
        forall|j: int| 0 <= j < k ==> !(#[trigger] ws[j]).contains('%'),
    ensures
        k < ws.len() && ws[k].contains('%') ==> percent_word(ws) == Some(ws[k]),
        k == ws.len() ==> percent_word(ws) is None,
    decreases k,
{
    if k > 0 {
        let rest = ws.skip(1);
        assert forall|j: int| 0 <= j < k - 1 implies !(#[trigger] rest[j]).contains('%') by {
            assert(rest[j] == ws[j + 1]);
        }
        assert(!ws[0].contains('%'));
        lemma_percent_word(rest, k - 1);
    }
}

proof fn lemma_first_digit(pre: Seq<char>, s: Seq<char>)
    requires
        digitless(pre),
        s.len() > 0,
        '0' <= s[0] && s[0] <= '9',
    ensures
        from_first_digit(pre + s) == s,
    decreases pre.len(),
{
    if pre.len() > 0 {
        assert((pre + s).skip(1) =~= pre.skip(1) + s);
        assert((pre + s)[0] == pre[0]);
        lemma_first_digit(pre.skip(1), s);
    } else {
        assert(pre + s =~= s);
    }
}

proof fn lemma_last_digit(s: Seq<char>, post: Seq<char>)
    requires
        digitless(post),
        s.len() > 0,
        '0' <= s.last() && s.last() <= '9',
    ensures
        to_last_digit(s + post) == s,
    decreases post.len(),
{
    if post.len() > 0 {
        assert((s + post).drop_last() =~= s + post.drop_last());
        assert((s + post).last() == post[post.len() - 1]);
        lemma_last_digit(s, post.drop_last());
    } else {
        assert(s + post =~= s);
    }
}

/// The charge is the number in the first word of the line with a percent sign
/// in it, where that is one; a line without such a word gives none.
pub proof fn law_charge(line: Seq<char>, k: int, pre: Seq<char>, digits: Seq<char>, post: Seq<char>)
    requires
        0 <= k <= words(line).len(),
        forall|j: int| 0 <= j < k ==> !(#[trigger] words(line)[j]).contains('%'),
    ensures
        k == words(line).len() ==> charge(line) is None,
        k < words(line).len() && words(line)[k].contains('%') && words(line)[k] == pre + digits
            + post && digitless(pre) && digits.len() > 0 && is_digits(digits) && digitless(post)
            && value(digits) <= 255 ==> charge(line) == Some(value(digits)),
{
    lemma_percent_word(words(line), k);
    if k < words(line).len() && words(line)[k].contains('%') && words(line)[k] == pre + digits
        + post && digitless(pre) && digits.len() > 0 && is_digits(digits) && digitless(post)
        && value(digits) <= 255 {
        assert('0' <= digits[0] && digits[0] <= '9');
        assert('0' <= digits[digits.len() - 1] && digits[digits.len() - 1] <= '9');
        assert(pre + digits + post =~= pre + (digits + post));
        lemma_first_digit(pre, digits + post);
        lemma_last_digit(digits, post);
        law_number_reading(digits, 255);
    }
}

/// The time left is what the last word before `remaining`, or of the line where
/// that does not stand in it, says as hours and
/// minutes; `0:00`, and anything else there, says nothing.
pub proof fn law_remaining(line: Seq<char>, head: Seq<char>, rest: Seq<char>, h: Seq<char>, m: Seq<char>)
    requires
        line == head + "remaining"@ + rest || (line == head && !is_spelled_in(
            line,
            "remaining"@,
        )),
        forall|i: int| 0 <= i < head.len() ==> !#[trigger] spelled_at(line, "remaining"@, i),
    ensures
        words(head).len() == 0 ==> remaining(line) is None,
        words(head).len() > 0 && free_of(words(head).last(), ':') ==> remaining(line) is None,
        words(head).len() > 0 && words(head).last() == h + seq![':'] + m && h.len() > 0 && m.len()
            > 0 && is_digits(h) && is_digits(m) && value(h) <= u64::MAX && value(m) <= u64::MAX
            ==> remaining(line) == (if value(h) == 0 && value(m) == 0 {
            None
        } else {
            Some(value(h) * 3600 + value(m) * 60)
        }),
{
    let mark = "remaining"@;
    law_search_finds_the_first(line, mark, 0);
    if line == head + mark + rest {
        assert(spelled_at(line, mark, head.len() as int)) by {
            assert forall|k: int| 0 <= k < mark.len() implies line[head.len() + k]
                == #[trigger] mark[k] by {}
        }
        assert(find(line, mark) == Some(head.len() as int));
        assert(line.take(head.len() as int) =~= head);
    } else {
        assert(find(line, mark) is None) by {
            if find(line, mark) is Some {
                assert(spelled_at(line, mark, find(line, mark)->0));
            }
        }
    }
    assert(before(line, mark) == head);
    if words(head).len() > 0 {
        let token = words(head).last();
        if free_of(token, ':') {
            lemma_position_of_first(token, ':', Seq::<char>::empty());
        }
        if token == h + seq![':'] + m && h.len() > 0 && m.len() > 0 && is_digits(h) && is_digits(m)
            && value(h) <= u64::MAX && value(m) <= u64::MAX {
            assert(free_of(h, ':'));
            lemma_position_of_first(h, ':', m);
            assert(token.take(h.len() as int) =~= h);
            assert(token.skip(h.len() as int + 1) =~= m);
            law_number_reading(h, u64::MAX as nat);
            law_number_reading(m, u64::MAX as nat);
        }
    }
}

// ----------------------------------------------------------------- groups

/// The members of a group are the processes of its name, all of them in their
/// order; its memory is the sum of theirs.
pub proof fn law_members(procs: Seq<ProcInfo>, p: ProcInfo, name: Seq<char>)
    ensures
        members(Seq::<ProcInfo>::empty(), name).len() == 0,
        p.name@ == name ==> members(procs.push(p), name) == members(procs, name).push(p),
        p.name@ != name ==> members(procs.push(p), name) == members(procs, name),
        mem_sum(Seq::<ProcInfo>::empty()) == 0,
        mem_sum(procs.push(p)) == mem_sum(procs) + p.mem_bytes,
        cpu_sum(Seq::<ProcInfo>::empty()) == 0,
        cpu_sum(procs) + p.cpu_pct.bits < 0x100_0000 ==> cpu_sum(procs.push(p)) == cpu_sum(procs)
            + p.cpu_pct.bits,
        cpu_sum(procs) + p.cpu_pct.bits <= u64::MAX / 2 ==> {
            let sum = cpu_sum(procs) + p.cpu_pct.bits;
            let off = cpu_sum(procs.push(p)) - sum;
            off * 0x80_0000 <= sum && -off * 0x80_0000 <= sum
        },
{
    procs.lemma_filter_push(p, named(name));
    assert(members(Seq::<ProcInfo>::empty(), name).len() == 0) by {
        reveal(Seq::filter);
    }
    assert(procs.push(p).drop_last() =~= procs);
    let sum = cpu_sum(procs) + p.cpu_pct.bits as nat;
    lemma_whole_near(sum, 0x80_0000);
    if sum < 0x100_0000 {
        lemma_whole_exact(sum, SINGLE as nat);
    }
}

/// A group is led by the process that uses the most memory, of several the
/// first.
pub proof fn law_heaviest(m: Seq<ProcInfo>)
    requires
        m.len() > 0,
    ensures
        exists|k: int|
            0 <= k < m.len() && #[trigger] m[k] == heaviest(m) && (forall|j: int|
                0 <= j < m.len() ==> (#[trigger] m[j]).mem_bytes <= m[k].mem_bytes) && (forall|
                j: int,
            |
                0 <= j < k ==> (#[trigger] m[j]).mem_bytes < m[k].mem_bytes),
{
    let k = lemma_heaviest_at(m);
    assert(m[k] == heaviest(m));
}

proof fn lemma_heaviest_at(m: Seq<ProcInfo>) -> (k: int)
    requires
        m.len() > 0,
    ensures
        0 <= k < m.len(),
        m[k] == heaviest(m),
        forall|j: int| 0 <= j < m.len() ==> (#[trigger] m[j]).mem_bytes <= m[k].mem_bytes,
        forall|j: int| 0 <= j < k ==> (#[trigger] m[j]).mem_bytes < m[k].mem_bytes,
    decreases m.len(),
{
    if m.len() == 1 {
        0
    } else {
        let less = m.drop_last();
        let last = m.len() - 1;
        let k = lemma_heaviest_at(less);
        assert forall|j: int| 0 <= j < last implies (#[trigger] m[j]).mem_bytes
            <= m[k].mem_bytes by {
            assert(less[j] == m[j]);
        }
        assert forall|j: int| 0 <= j < k implies (#[trigger] m[j]).mem_bytes < m[k].mem_bytes by {
            assert(less[j] == m[j]);
        }
        assert(less[k] == m[k]);
        if m[last].mem_bytes > m[k].mem_bytes {
            last
        } else {
            k
        }
    }
}

/// Every process is counted in one group, that of its name, and no group has
/// anything else in it; the groups with the most memory come first.
pub proof fn law_groups(groups: Seq<ProcGroup>, procs: Seq<ProcInfo>)
    requires
        grouped(groups, procs),
    ensures
        forall|i: int|
            #![trigger groups[i]]
            0 <= i < groups.len() ==> groups[i].count == places(
                procs,
                |p: ProcInfo| p.name@ == groups[i].name@,
            ).len() && groups[i].count > 0 && groups[i].total_mem_bytes == mem_sum(
                members(procs, groups[i].name@),
            ) && groups[i].top_pid == heaviest(members(procs, groups[i].name@)).pid,
        forall|i: int, j: int|
            #![trigger groups[i], groups[j]]
            0 <= i < j < groups.len() ==> groups[i].name@ != groups[j].name@
                && groups[i].total_mem_bytes >= groups[j].total_mem_bytes,
        forall|k: int|
            0 <= k < procs.len() ==> exists|i: int|
                0 <= i < groups.len() && (#[trigger] groups[i]).name@ == (
                #[trigger] procs[k]).name@,
{
    assert forall|i: int|
        #![trigger groups[i]]
        0 <= i < groups.len() implies groups[i].count == places(
        procs,
        |p: ProcInfo| p.name@ == groups[i].name@,
    ).len() && groups[i].count > 0 && groups[i].total_mem_bytes == mem_sum(
        members(procs, groups[i].name@),
    ) && groups[i].top_pid == heaviest(members(procs, groups[i].name@)).pid by {
        let name = groups[i].name@;
        assert(is_group(groups[i], members(procs, name)));
        let mine = |p: ProcInfo| p.name@ == name;
        assert(named(name) =~= mine);
        lemma_places(procs, mine);
    }
    assert forall|k: int| 0 <= k < procs.len() implies exists|i: int|
        0 <= i < groups.len() && (#[trigger] groups[i]).name@ == (#[trigger] procs[k]).name@ by {
        assert(has_group(groups, procs[k].name@));
    }
}

// ------------------------------------------------------------------ disks

/// Every disk with a size is described, in the order given, and no other.
pub proof fn law_disks_kept(raw: Seq<RawDisk>, d: RawDisk)
    ensures
        real_disks(Seq::<RawDisk>::empty()).len() == 0,
        d.total_bytes > 0 ==> real_disks(raw.push(d)) == real_disks(raw).push(d),
        d.total_bytes == 0 ==> real_disks(raw.push(d)) == real_disks(raw),
{
    let holds = |d: RawDisk| d.total_bytes > 0;
    raw.lemma_filter_push(d, holds);
    assert(real_disks(Seq::<RawDisk>::empty()).len() == 0) by {
        reveal(Seq::filter);
    }
}

/// The share of a disk in use is what is not available of its size, in
/// percent: within 2^-32 percent and one part in 2^20.
pub proof fn law_disk_share(total: nat, available: nat)
    requires
        total > 0,
    ensures
        ({
            let used: int = if available < total {
                total - available
            } else {
                0
            };
            let off = used_bits(total, available) * total - 100 * used * 0x1_0000_0000;
            &&& off * 0x10_0000 <= total * 0x10_0000 + 100 * used * 0x1_0000_0000
            &&& -off * 0x10_0000 <= total * 0x10_0000 + 100 * used * 0x1_0000_0000
        }),
{
    let used: nat = if available < total {
        (total - available) as nat
    } else {
        0
    };
    lemma_percent(used, total, 0x1_0000_0000);
}

/// A command line is the arguments with blanks between them, or the first 200
/// characters of that.
pub proof fn law_command_line(args: Seq<Seq<char>>)
    ensures
        join(args, " "@).len() <= 200 ==> command_text(args) == join(args, " "@),
        join(args, " "@).len() > 200 ==> command_text(args) == join(args, " "@).take(200),
{
}

/// A sample of a process is its pid, its parent and how long it has run, and a
/// group has three of its members, or all where it has fewer.
pub proof fn law_samples(p: ProcInfo, m: Seq<ProcInfo>)
    ensures
        sample_of(p).pid == p.pid,
        sample_of(p).ppid == p.ppid,
        sample_of(p).run_time_secs == p.run_time_secs,
        oldest_of(m).len() == if m.len() < 3 {
            m.len()
        } else {
            3
        },
{
    law_oldest_have_run_longest(m);
}

/// A disk is described by where it is mounted, its size and what is available
/// of it, as the system reports them.
pub proof fn law_described_disk(d: DiskInfo, raw: RawDisk)
    requires
        describes_disk(d, raw),
    ensures
        d.mount_point@ == raw.mount_point@,
        d.total_bytes == raw.total_bytes,
        d.available_bytes == raw.available_bytes,
        d.used_pct.bits == used_bits(raw.total_bytes as nat, raw.available_bytes as nat),
{
}

/// The first so many of a sequence are all of it where it has fewer.
pub proof fn law_first<A>(s: Seq<A>, n: nat)
    ensures
        s.len() <= n ==> first(s, n) == s,
        s.len() > n ==> first(s, n) == s.take(n as int),
{
}

/// An estimate that is not given, or that a 64-bit number holds, can be read.
pub proof fn law_estimate_fits(line: Seq<char>)
    ensures
        remaining(line) is None ==> remaining_fits(line),
        remaining(line) matches Some(secs) ==> remaining_fits(line) == (secs
            <= 0xffff_ffff_ffff_ffff),
{
}

} // verus!
