//! Parsing the textual output of `ss -s`.
//!
//! Example output:
//!
//! ```text
//! Total: 1740
//! TCP:   457 (estab 205, closed 162, orphaned 0, timewait 1)
//!
//! Transport Total     IP        IPv6
//! RAW      0         0         0
//! UDP      18        17        1
//! TCP      295       285       10
//! INET     313       302       11
//! FRAG     0         0         0
//! ```
use vstd::prelude::*;

use crate::label_map::LabelMap;
use crate::number::{debug_quoted, debug_text, parse_u64, u64_result};
use crate::stats::{
    agrees,
    empty_stats,
    message_error,
    Error,
    SocketStats,
    StatsModel,
    TcpModel,
    TcpStats,
    TransportRow,
};
use crate::text::{
    after_prefix,
    chars_of,
    find_char,
    pieces,
    spans_within,
    split_once,
    split_spans,
    strip_prefix,
    texts,
    trim,
    trim_end_char,
    trim_end_char_span,
    trim_span,
    word_spans,
    words,
    Sep,
};

verus! {

/// A message made of `lead` and `subject` written with `{:?}`.
pub open spec fn quoted_message(lead: Seq<char>, subject: Seq<char>) -> Seq<char> {
    lead + debug_text(subject)
}

/// One `state count` part of the TCP breakdown: the state's label and
/// its count. Words after the second are ignored.
pub open spec fn state_entry(part: Seq<char>) -> Result<(Seq<char>, u64), Seq<char>> {
    let ws = words(part);
    if ws.len() == 0 {
        Err(quoted_message("missing state name in "@, part))
    } else if ws.len() == 1 {
        Err(quoted_message("missing state count in "@, part))
    } else {
        match u64_result(ws[1]) {
            Ok(c) => Ok((ws[0], c)),
            Err(m) => Err(m),
        }
    }
}

/// The breakdown parts read in order into a map; a later part with the
/// same label replaces an earlier one; the first failing part fails all.
pub open spec fn state_counts(parts: Seq<Seq<char>>) -> Result<Map<Seq<char>, u64>, Seq<char>>
    decreases parts.len(),
{
    if parts.len() == 0 {
        Ok(Map::empty())
    } else {
        match state_counts(parts.drop_last()) {
            Err(m) => Err(m),
            Ok(states) => match state_entry(parts.last()) {
                Ok((name, c)) => Ok(states.insert(name, c)),
                Err(m) => Err(m),
            },
        }
    }
}

/// What the `TCP:` line says after its label, such as
/// `457 (estab 205, closed 162, orphaned 0, timewait 1)`: the total before
/// the first `(`, then the comma-separated parts up to the closing `)`s.
pub open spec fn tcp_line(rest: Seq<char>) -> Result<TcpModel, Seq<char>> {
    let total_text = match split_once(rest, '(') {
        Some((before, _)) => trim(before),
        None => rest,
    };
    match u64_result(total_text) {
        Err(m) => Err(m),
        Ok(total) => match split_once(rest, '(') {
            None => Ok(TcpModel { total, states: Map::empty() }),
            Some((_, after)) => match state_counts(
                pieces(trim_end_char(after, ')'), Sep::Char(',')),
            ) {
                Ok(states) => Ok(TcpModel { total, states }),
                Err(m) => Err(m),
            },
        },
    }
}

/// A row of the transport table, such as `RAW  0  0  0`: the transport's
/// name, then its total, IPv4 and IPv6 counts. Words after the fourth are
/// ignored.
pub open spec fn transport_row(line: Seq<char>) -> Result<(Seq<char>, TransportRow), Seq<char>> {
    let ws = words(line);
    if ws.len() == 0 {
        Err(quoted_message("empty transport row: "@, line))
    } else if ws.len() == 1 {
        Err(quoted_message("transport row missing total: "@, line))
    } else {
        match u64_result(ws[1]) {
            Err(m) => Err(m),
            Ok(total) => if ws.len() == 2 {
                Err(quoted_message("transport row missing ipv4: "@, line))
            } else {
                match u64_result(ws[2]) {
                    Err(m) => Err(m),
                    Ok(ipv4) => if ws.len() == 3 {
                        Err(quoted_message("transport row missing ipv6: "@, line))
                    } else {
                        match u64_result(ws[3]) {
                            Err(m) => Err(m),
                            Ok(ipv6) => Ok((ws[0], TransportRow { total, ipv4, ipv6 })),
                        }
                    },
                }
            },
        }
    }
}

/// The reading so far: the statistics, and whether the transport table's
/// header has been seen.
pub struct ParseState {
    pub stats: StatsModel,
    pub in_table: bool,
}

/// Reading one line. Blank lines are skipped; `Total:` and `TCP:` lines
/// set their fields wherever they stand; a line that starts with
/// `Transport` opens the table; after that, every other line is a row.
pub open spec fn step(st: ParseState, raw: Seq<char>) -> Result<ParseState, Seq<char>> {
    let line = trim(raw);
    if line.len() == 0 {
        Ok(st)
    } else if strip_prefix(line, "Total:"@) is Some {
        match u64_result(trim(strip_prefix(line, "Total:"@)->0)) {
            Ok(v) => Ok(
                ParseState {
                    stats: StatsModel {
                        total: v,
                        tcp: st.stats.tcp,
                        transports: st.stats.transports,
                    },
                    in_table: st.in_table,
                },
            ),
            Err(m) => Err(m),
        }
    } else if strip_prefix(line, "TCP:"@) is Some {
        match tcp_line(trim(strip_prefix(line, "TCP:"@)->0)) {
            Ok(tcp) => Ok(
                ParseState {
                    stats: StatsModel {
                        total: st.stats.total,
                        tcp,
                        transports: st.stats.transports,
                    },
                    in_table: st.in_table,
                },
            ),
            Err(m) => Err(m),
        }
    } else if strip_prefix(line, "Transport"@) is Some {
        Ok(ParseState { stats: st.stats, in_table: true })
    } else if st.in_table {
        match transport_row(line) {
            Ok((name, row)) => Ok(
                ParseState {
                    stats: StatsModel {
                        total: st.stats.total,
                        tcp: st.stats.tcp,
                        transports: st.stats.transports.insert(name, row),
                    },
                    in_table: true,
                },
            ),
            Err(m) => Err(m),
        }
    } else {
        Ok(st)
    }
}

/// Reading `lines` in order, starting from `start`; the first failing
/// line fails all.
pub open spec fn resume(start: Result<ParseState, Seq<char>>, lines: Seq<Seq<char>>) -> Result<
    ParseState,
    Seq<char>,
>
    decreases lines.len(),
{
    if lines.len() == 0 {
        start
    } else {
        match resume(start, lines.drop_last()) {
            Ok(st) => step(st, lines.last()),
            Err(m) => Err(m),
        }
    }
}

/// Nothing read yet.
pub open spec fn initial_state() -> ParseState {
    ParseState { stats: empty_stats(), in_table: false }
}

/// Reading the lines in order from nothing read.
pub open spec fn run_lines(lines: Seq<Seq<char>>) -> Result<ParseState, Seq<char>> {
    resume(Ok(initial_state()), lines)
}

/// The state that reading all of `input` leaves.
pub open spec fn parse_state(input: Seq<char>) -> Result<ParseState, Seq<char>> {
    run_lines(pieces(input, Sep::Char('\n')))
}

/// What [`parse`] gives for `input`. The lines are the pieces between
/// `\n`s: `str::lines` also drops a `\r` before each `\n` and a last empty
/// line, which makes no difference here, since every line is trimmed and
/// blank lines are skipped.
pub open spec fn parse_result(input: Seq<char>) -> Result<StatsModel, Seq<char>> {
    match parse_state(input) {
        Ok(st) => Ok(st.stats),
        Err(m) => Err(m),
    }
}

proof fn lemma_state_counts_failed(parts: Seq<Seq<char>>, k: int, m: Seq<char>)
    requires
        0 <= k <= parts.len(),
        state_counts(parts.take(k)) == Err::<Map<Seq<char>, u64>, Seq<char>>(m),
    ensures
        state_counts(parts) == Err::<Map<Seq<char>, u64>, Seq<char>>(m),
    decreases parts.len() - k,
{
    if k < parts.len() {
        assert(parts.take(k + 1).drop_last() =~= parts.take(k));
        lemma_state_counts_failed(parts, k + 1, m);
    } else {
        assert(parts.take(k) =~= parts);
    }
}

proof fn lemma_run_lines_failed(lines: Seq<Seq<char>>, k: int, m: Seq<char>)
    requires
        0 <= k <= lines.len(),
        resume(Ok(initial_state()), lines.take(k)) == Err::<ParseState, Seq<char>>(m),
    ensures
        resume(Ok(initial_state()), lines) == Err::<ParseState, Seq<char>>(m),
    decreases lines.len() - k,
{
    if k < lines.len() {
        assert(lines.take(k + 1).drop_last() =~= lines.take(k));
        lemma_run_lines_failed(lines, k + 1, m);
    } else {
        assert(lines.take(k) =~= lines);
    }
}

/// Parses what the `TCP:` line says after its label, such as
/// `457 (estab 205, closed 162, orphaned 0, timewait 1)`.
pub fn parse_tcp_line(rest: &str) -> (r: Result<TcpStats, Error>)
    ensures
        agrees(r, tcp_line(rest@)),
{
    let cs = chars_of(rest);
    let n = cs.len();
    assert(cs@.subrange(0, n as int) =~= rest@);
    let open = find_char(&cs, 0, n, '(');
    let total = match open {
        Some(i) => {
            let (a, b) = trim_span(&cs, 0, i);
            parse_u64(rest.substring_char(a, b))
        },
        None => parse_u64(rest),
    };
    let total = match total {
        Ok(v) => v,
        Err(e) => {
            return Err(e);
        },
    };
    let i = match open {
        Some(i) => i,
        None => {
            return Ok(TcpStats { total, states: LabelMap::new() });
        },
    };
    let end = trim_end_char_span(&cs, i + 1, n, ')');
    let parts = split_spans(&cs, i + 1, end, Sep::Char(','));
    let ghost ps = texts(cs@, parts@);
    let mut states: LabelMap<u64> = LabelMap::new();
    let mut k: usize = 0;
    assert(ps.take(0) =~= Seq::<Seq<char>>::empty());
    assert(tcp_line(rest@) == match state_counts(ps) {
        Ok(states) => Ok(TcpModel { total, states }),
        Err(m) => Err(m),
    });
    while k < parts.len()
        invariant
            tcp_line(rest@) == match state_counts(ps) {
                Ok(states) => Ok(TcpModel { total, states }),
                Err(m) => Err(m),
            },
            k <= parts@.len(),
            n == cs@.len() == rest@.len(),
            cs@ == rest@,
            i + 1 <= end <= n,
            ps == texts(cs@, parts@),
            ps == pieces(cs@.subrange(i + 1, end as int), Sep::Char(',')),
            spans_within(parts@, (i + 1) as int, end as int),
            state_counts(ps.take(k as int)) == Ok::<Map<Seq<char>, u64>, Seq<char>>(states@),
        decreases parts@.len() - k,
    {
        assert(ps.take(k + 1).drop_last() =~= ps.take(k as int));
        let (a, b) = parts[k];
        assert(i + 1 <= parts@[k as int].0 <= parts@[k as int].1 <= end);
        assert(ps[k as int] == cs@.subrange(a as int, b as int));
        assert(ps.take(k + 1).last() == cs@.subrange(a as int, b as int));
        let ws = word_spans(&cs, a, b);
        let ghost wt = texts(cs@, ws@);
        if ws.len() == 0 {
            let e = message_error("missing state name in ", &debug_quoted(rest.substring_char(a, b)));
            proof {
                lemma_state_counts_failed(ps, k + 1, quoted_message("missing state name in "@, ps[k as int]));
            }
            return Err(e);
        }
        if ws.len() == 1 {
            let e = message_error("missing state count in ", &debug_quoted(rest.substring_char(a, b)));
            proof {
                lemma_state_counts_failed(ps, k + 1, quoted_message("missing state count in "@, ps[k as int]));
            }
            return Err(e);
        }
        let (c0, d0) = ws[0];
        let (c1, d1) = ws[1];
        assert(a <= ws@[0].0 <= ws@[0].1 <= b);
        assert(a <= ws@[1].0 <= ws@[1].1 <= b);
        assert(wt[0] == cs@.subrange(c0 as int, d0 as int));
        assert(wt[1] == cs@.subrange(c1 as int, d1 as int));
        let count = match parse_u64(rest.substring_char(c1, d1)) {
            Ok(v) => v,
            Err(e) => {
                proof {
                    lemma_state_counts_failed(ps, k + 1, u64_result(wt[1])->Err_0);
                }
                return Err(e);
            },
        };
        let label = rest.substring_char(c0, d0).to_owned();
        states.insert(label, count);
        k = k + 1;
    }
    assert(ps.take(parts@.len() as int) =~= ps);
    Ok(TcpStats { total, states })
}

/// Parses a row of the transport table, such as `RAW  0  0  0`, into the
/// transport's name and its counts.
pub fn parse_transport_row(line: &str) -> (r: Result<(String, TransportRow), Error>)
    ensures
        agrees(r, transport_row(line@)),
{
    let cs = chars_of(line);
    let n = cs.len();
    assert(cs@.subrange(0, n as int) =~= line@);
    let ws = word_spans(&cs, 0, n);
    let ghost wt = texts(cs@, ws@);
    if ws.len() == 0 {
        return Err(message_error("empty transport row: ", &debug_quoted(line)));
    }
    if ws.len() == 1 {
        return Err(message_error("transport row missing total: ", &debug_quoted(line)));
    }
    assert(forall|k: int| 0 <= k < ws@.len() ==> wt[k] == cs@.subrange(ws@[k].0 as int, ws@[k].1 as int));
    let (c0, d0) = ws[0];
    let (c1, d1) = ws[1];
    let total = match parse_u64(line.substring_char(c1, d1)) {
        Ok(v) => v,
        Err(e) => {
            return Err(e);
        },
    };
    if ws.len() == 2 {
        return Err(message_error("transport row missing ipv4: ", &debug_quoted(line)));
    }
    let (c2, d2) = ws[2];
    let ipv4 = match parse_u64(line.substring_char(c2, d2)) {
        Ok(v) => v,
        Err(e) => {
            return Err(e);
        },
    };
    if ws.len() == 3 {
        return Err(message_error("transport row missing ipv6: ", &debug_quoted(line)));
    }
    let (c3, d3) = ws[3];
    let ipv6 = match parse_u64(line.substring_char(c3, d3)) {
        Ok(v) => v,
        Err(e) => {
            return Err(e);
        },
    };
    let name = line.substring_char(c0, d0).to_owned();
    Ok((name, TransportRow { total, ipv4, ipv6 }))
}

/// Parses the textual output of `ss -s`.
pub fn parse(input: &str) -> (r: Result<SocketStats, Error>)
    ensures
        agrees(r, parse_result(input@)),
{
    let cs = chars_of(input);
    let n = cs.len();
    assert(cs@.subrange(0, n as int) =~= input@);
    let lines = split_spans(&cs, 0, n, Sep::Char('\n'));
    let ghost ls = texts(cs@, lines@);
    let total_label = chars_of("Total:");
    let tcp_label = chars_of("TCP:");
    let table_label = chars_of("Transport");
    let mut stats = SocketStats::default();
    let mut in_table = false;
    let mut k: usize = 0;
    assert(ls.take(0) =~= Seq::<Seq<char>>::empty());
    while k < lines.len()
        invariant
            k <= lines@.len(),
            n == cs@.len() == input@.len(),
            cs@ == input@,
            ls == texts(cs@, lines@),
            ls == pieces(input@, Sep::Char('\n')),
            spans_within(lines@, 0, n as int),
            total_label@ == "Total:"@,
            tcp_label@ == "TCP:"@,
            table_label@ == "Transport"@,
            run_lines(ls.take(k as int)) == Ok::<ParseState, Seq<char>>(
                ParseState { stats: stats@, in_table },
            ),
        decreases lines@.len() - k,
    {
        assert(ls.take(k + 1).drop_last() =~= ls.take(k as int));
        let (a0, b0) = lines[k];
        assert(0 <= lines@[k as int].0 <= lines@[k as int].1 <= n);
        assert(ls.take(k + 1).last() == cs@.subrange(a0 as int, b0 as int));
        let ghost st = ParseState { stats: stats@, in_table };
        let (a, b) = trim_span(&cs, a0, b0);
        if a < b {
            if let Some(p) = after_prefix(&cs, a, b, &total_label) {
                let (c, d) = trim_span(&cs, p, b);
                match parse_u64(input.substring_char(c, d)) {
                    Ok(v) => {
                        stats.total = v;
                    },
                    Err(e) => {
                        proof {
                            lemma_run_lines_failed(ls, k + 1, step(st, ls[k as int])->Err_0);
                        }
                        return Err(e);
                    },
                }
            } else if let Some(p) = after_prefix(&cs, a, b, &tcp_label) {
                let (c, d) = trim_span(&cs, p, b);
                match parse_tcp_line(input.substring_char(c, d)) {
                    Ok(t) => {
                        stats.tcp = t;
                    },
                    Err(e) => {
                        proof {
                            lemma_run_lines_failed(ls, k + 1, step(st, ls[k as int])->Err_0);
                        }
                        return Err(e);
                    },
                }
            } else if after_prefix(&cs, a, b, &table_label).is_some() {
                in_table = true;
            } else if in_table {
                match parse_transport_row(input.substring_char(a, b)) {
                    Ok((name, row)) => {
                        stats.transports.insert(name, row);
                    },
                    Err(e) => {
                        proof {
                            lemma_run_lines_failed(ls, k + 1, step(st, ls[k as int])->Err_0);
                        }
                        return Err(e);
                    },
                }
            }
        }
        assert(run_lines(ls.take(k + 1)) == Ok::<ParseState, Seq<char>>(
            ParseState { stats: stats@, in_table },
        ));
        k = k + 1;
    }
    assert(ls.take(lines@.len() as int) =~= ls);
    Ok(stats)
}

} // verus!
