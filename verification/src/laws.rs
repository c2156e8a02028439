//! Properties of reading `ss -s` output that hold for every input.
use vstd::prelude::*;

use crate::metrics::{
    lemma_transport_samples,
    lowercase_text,
    success_samples,
    Family,
    Sample,
};
use crate::number::{debug_text, decimal_u64, parse_failure_text, u64_result};
use crate::parser::{
    initial_state,
    parse_result,
    parse_state,
    resume,
    run_lines,
    state_counts,
    state_entry,
    step,
    tcp_line,
    transport_row,
    ParseState,
};
use crate::stats::{empty_stats, StatsModel, TcpModel, TransportRow};
use crate::text::{
    first_at,
    is_whitespace,
    non_empty,
    lemma_pieces_not_empty,
    pieces,
    split_once,
    starts_with,
    strip_prefix,
    trim,
    trim_end,
    trim_start,
    trim_end_char,
    words,
    Sep,
};

verus! {

proof fn lemma_pieces_join(a: Seq<char>, b: Seq<char>, c: char)
    ensures
        pieces(a + seq![c] + b, Sep::Char(c)) == pieces(a, Sep::Char(c)) + pieces(b, Sep::Char(c)),
    decreases b.len(),
{
    let sep = Sep::Char(c);
    let whole = a + seq![c] + b;
    if b.len() == 0 {
        assert(whole.drop_last() =~= a);
        assert(whole.last() == c);
        assert(pieces(whole, sep) =~= pieces(a, sep) + pieces(b, sep));
    } else {
        let b0 = b.drop_last();
        lemma_pieces_join(a, b0, c);
        lemma_pieces_not_empty(b0, sep);
        assert(whole.drop_last() =~= a + seq![c] + b0);
        assert(whole.last() == b.last());
        assert(pieces(whole, sep) =~= pieces(a, sep) + pieces(b, sep));
    }
}

proof fn lemma_resume_join(
    start: Result<ParseState, Seq<char>>,
    x: Seq<Seq<char>>,
    y: Seq<Seq<char>>,
)
    ensures
        resume(start, x + y) == resume(resume(start, x), y),
    decreases y.len(),
{
    if y.len() == 0 {
        assert(x + y =~= x);
    } else {
        lemma_resume_join(start, x, y.drop_last());
        assert((x + y).drop_last() =~= x + y.drop_last());
    }
}

proof fn lemma_resume_failed(m: Seq<char>, lines: Seq<Seq<char>>)
    ensures
        resume(Err(m), lines) == Err::<ParseState, Seq<char>>(m),
    decreases lines.len(),
{
    if lines.len() > 0 {
        lemma_resume_failed(m, lines.drop_last());
    }
}

proof fn lemma_single_piece(s: Seq<char>, c: char)
    requires
        forall|i: int| 0 <= i < s.len() ==> s[i] != c,
    ensures
        pieces(s, Sep::Char(c)) == seq![s],
    decreases s.len(),
{
    if s.len() > 0 {
        lemma_single_piece(s.drop_last(), c);
        assert(s.drop_last().push(s.last()) =~= s);
        assert(s[s.len() - 1] != c);
        assert(seq![s.drop_last()].update(0, s.drop_last().push(s.last())) =~= seq![s]);
    } else {
        assert(s =~= Seq::<char>::empty());
    }
}

proof fn lemma_trim_blank(s: Seq<char>)
    requires
        forall|i: int| 0 <= i < s.len() ==> is_whitespace(s[i]),
    ensures
        trim(s).len() == 0,
    decreases s.len(),
{
    if s.len() > 0 {
        lemma_trim_blank(s.drop_first());
    }
}

proof fn lemma_pieces_blank(s: Seq<char>)
    requires
        forall|i: int| 0 <= i < s.len() ==> is_whitespace(s[i]),
    ensures
        forall|k: int|
            0 <= k < pieces(s, Sep::Char('\n')).len() ==> forall|i: int|
                0 <= i < #[trigger] pieces(s, Sep::Char('\n'))[k].len() ==> is_whitespace(
                    pieces(s, Sep::Char('\n'))[k][i],
                ),
    decreases s.len(),
{
    if s.len() > 0 {
        lemma_pieces_blank(s.drop_last());
        lemma_pieces_not_empty(s.drop_last(), Sep::Char('\n'));
    }
}

proof fn lemma_blank_lines(lines: Seq<Seq<char>>)
    requires
        forall|k: int|
            0 <= k < lines.len() ==> forall|i: int|
                0 <= i < #[trigger] lines[k].len() ==> is_whitespace(lines[k][i]),
    ensures
        run_lines(lines) == Ok::<ParseState, Seq<char>>(initial_state()),
    decreases lines.len(),
{
    if lines.len() > 0 {
        lemma_blank_lines(lines.drop_last());
        lemma_trim_blank(lines.last());
    }
}

/// Reading a text made of `a`, a newline and `b` is reading `a`, then
/// reading the lines of `b` from where `a` left off: each line is read in
/// turn, in the light of the lines before it alone.
pub proof fn law_lines_read_in_order(a: Seq<char>, b: Seq<char>)
    ensures
        parse_state(a + seq!['\n'] + b) == resume(parse_state(a), pieces(b, Sep::Char('\n'))),
{
    lemma_pieces_join(a, b, '\n');
    lemma_resume_join(
        Ok(initial_state()),
        pieces(a, Sep::Char('\n')),
        pieces(b, Sep::Char('\n')),
    );
}

/// A line of whitespace between two parts of the output changes nothing.
pub proof fn law_blank_line_ignored(a: Seq<char>, w: Seq<char>, b: Seq<char>)
    requires
        forall|i: int| 0 <= i < w.len() ==> is_whitespace(w[i]) && w[i] != '\n',
    ensures
        parse_state(a + seq!['\n'] + w + seq!['\n'] + b) == parse_state(a + seq!['\n'] + b),
{
    let aw = a + seq!['\n'] + w;
    assert(a + seq!['\n'] + w + seq!['\n'] + b =~= aw + seq!['\n'] + b);
    law_lines_read_in_order(aw, b);
    law_lines_read_in_order(a, w);
    law_lines_read_in_order(a, b);
    lemma_single_piece(w, '\n');
    lemma_trim_blank(w);
    let lines = seq![w];
    assert(lines.drop_last() =~= Seq::<Seq<char>>::empty());
    match parse_state(a) {
        Ok(st) => {
            assert(resume(Ok(st), lines.drop_last()) == Ok::<ParseState, Seq<char>>(st));
            assert(resume(Ok(st), lines) == step(st, w));
            assert(step(st, w) == Ok::<ParseState, Seq<char>>(st));
        },
        Err(m) => {
            lemma_resume_failed(m, lines);
            lemma_resume_failed(m, pieces(b, Sep::Char('\n')));
        },
    }
}

/// A newline at the end of the output changes nothing.
pub proof fn law_trailing_newline_ignored(input: Seq<char>)
    ensures
        parse_result(input.push('\n')) == parse_result(input),
{
    let ps = pieces(input, Sep::Char('\n'));
    assert(input.push('\n').drop_last() =~= input);
    assert(ps.push(Seq::empty()).drop_last() =~= ps);
    assert(trim(Seq::<char>::empty()) =~= Seq::<char>::empty());
}

/// Output made of whitespace alone holds no statistics: every count is
/// zero and every map empty.
pub proof fn law_blank_output_is_empty(input: Seq<char>)
    requires
        forall|i: int| 0 <= i < input.len() ==> is_whitespace(input[i]),
    ensures
        parse_result(input) == Ok::<StatsModel, Seq<char>>(empty_stats()),
{
    lemma_pieces_blank(input);
    lemma_blank_lines(pieces(input, Sep::Char('\n')));
}

proof fn lemma_no_header(lines: Seq<Seq<char>>)
    requires
        forall|k: int| 0 <= k < lines.len() ==> !starts_with(trim(#[trigger] lines[k]), "Transport"@),
    ensures
        run_lines(lines) matches Ok(st) ==> !st.in_table && st.stats.transports == Map::<
            Seq<char>,
            crate::stats::TransportRow,
        >::empty(),
    decreases lines.len(),
{
    if lines.len() > 0 {
        let init = lines.drop_last();
        assert forall|k: int| 0 <= k < init.len() implies !starts_with(
            trim(#[trigger] init[k]),
            "Transport"@,
        ) by {
            assert(init[k] == lines[k]);
        }
        lemma_no_header(init);
        assert(!starts_with(trim(lines[lines.len() - 1]), "Transport"@));
    }
}

/// Rows are read only after the table's header: output with no line that
/// starts with `Transport` has no transports.
pub proof fn law_no_table_without_header(input: Seq<char>)
    requires
        forall|k: int|
            0 <= k < pieces(input, Sep::Char('\n')).len() ==> !starts_with(
                trim(#[trigger] pieces(input, Sep::Char('\n'))[k]),
                "Transport"@,
            ),
    ensures
        parse_result(input) matches Ok(stats) ==> stats.transports == Map::<
            Seq<char>,
            crate::stats::TransportRow,
        >::empty(),
{
    lemma_no_header(pieces(input, Sep::Char('\n')));
}

/// A `TCP:` line without a `(` has a total and no per-state counts.
pub proof fn law_tcp_line_without_breakdown(rest: Seq<char>)
    requires
        forall|i: int| 0 <= i < rest.len() ==> rest[i] != '(',
    ensures
        tcp_line(rest) == match u64_result(rest) {
            Ok(total) => Ok(TcpModel { total, states: Map::empty() }),
            Err(m) => Err(m),
        },
{
    assert(split_once(rest, '(') is None);
}

/// A `Total:` line sets the total and nothing else, whatever came
/// before it: the last such line wins.
pub proof fn law_total_line_sets_total(a: Seq<char>, t: Seq<char>, v: u64)
    requires
        parse_state(a) is Ok,
        decimal_u64(t) == Some(v),
        !is_whitespace(t[0]),
        !is_whitespace(t.last()),
        forall|i: int| 0 <= i < t.len() ==> t[i] != '\n',
    ensures
        parse_result(a + seq!['\n'] + "Total:"@ + t) == Ok::<StatsModel, Seq<char>>(
            StatsModel {
                total: v,
                tcp: parse_state(a)->Ok_0.stats.tcp,
                transports: parse_state(a)->Ok_0.stats.transports,
            },
        ),
{
    reveal_strlit("Total:");
    let label = "Total:"@;
    let line = label + t;
    assert(a + seq!['\n'] + label + t =~= a + seq!['\n'] + line);
    law_lines_read_in_order(a, line);
    assert forall|i: int| 0 <= i < line.len() implies line[i] != '\n' by {
        if i >= label.len() {
            assert(line[i] == t[i - label.len()]);
        }
    }
    lemma_single_piece(line, '\n');
    assert(seq![line].drop_last() =~= Seq::<Seq<char>>::empty());
    assert(t.len() > 0);
    assert(trim_start(line) == line);
    assert(line.last() == t.last());
    assert(trim_end(line) == line);
    assert(line.take(label.len() as int) =~= label);
    assert(line.skip(label.len() as int) =~= t);
    assert(strip_prefix(line, label) == Some(t));
    assert(trim_start(t) == t);
    assert(trim_end(t) == t);
    assert(trim(line) == line);
    let st = parse_state(a)->Ok_0;
    assert(resume(Ok(st), seq![line].drop_last()) == Ok::<ParseState, Seq<char>>(st));
    assert(resume(Ok(st), seq![line]) == step(st, line));
    assert(u64_result(trim(t)) == Ok::<u64, Seq<char>>(v));
    assert(step(st, line) == Ok::<ParseState, Seq<char>>(
        ParseState {
            stats: StatsModel { total: v, tcp: st.stats.tcp, transports: st.stats.transports },
            in_table: st.in_table,
        },
    ));
}

/// A count is read as the decimal number it spells: it is read exactly
/// when `str::parse::<u64>` accepts it, and then as that value.
pub proof fn law_count_is_decimal(s: Seq<char>)
    ensures
        u64_result(s) is Ok <==> decimal_u64(s) is Some,
        u64_result(s) is Ok ==> u64_result(s)->Ok_0 == decimal_u64(s)->Some_0,
{
}

proof fn lemma_state_counts_ok(parts: Seq<Seq<char>>, k: int)
    requires
        state_counts(parts) is Ok,
        0 <= k < parts.len(),
        forall|j: int|
            k < j < parts.len() ==> words(#[trigger] parts[j])[0] != words(parts[k])[0],
    ensures
        words(parts[k]).len() >= 2,
        decimal_u64(words(parts[k])[1]) is Some,
        state_counts(parts)->Ok_0.contains_key(words(parts[k])[0]),
        state_counts(parts)->Ok_0[words(parts[k])[0]] == decimal_u64(words(parts[k])[1])->Some_0,
    decreases parts.len(),
{
    let init = parts.drop_last();
    let last = parts.last();
    assert(state_counts(init) is Ok);
    assert(state_entry(last) is Ok);
    if k == parts.len() - 1 {
        law_count_is_decimal(words(last)[1]);
    } else {
        assert forall|j: int| k < j < init.len() implies words(#[trigger] init[j])[0] != words(
            init[k],
        )[0] by {
            assert(init[j] == parts[j]);
        }
        lemma_state_counts_ok(init, k);
        assert(init[k] == parts[k]);
        assert(words(parts[parts.len() - 1])[0] != words(parts[k])[0]);
    }
}

/// The parts of the breakdown of a `TCP:` line (the text after the first
/// `(`, without the closing `)`s, split at commas).
pub open spec fn breakdown_parts(rest: Seq<char>) -> Seq<Seq<char>> {
    pieces(trim_end_char(split_once(rest, '(')->Some_0.1, ')'), Sep::Char(','))
}

/// In a `TCP:` line that is read, each state's count is the decimal number
/// that the second word of its part spells, stored under the first word
/// (a later part with the same label replaces it).
pub proof fn law_tcp_counts_are_decimal(rest: Seq<char>, k: int)
    requires
        tcp_line(rest) is Ok,
        split_once(rest, '(') is Some,
        0 <= k < breakdown_parts(rest).len(),
        forall|j: int|
            k < j < breakdown_parts(rest).len() ==> words(#[trigger] breakdown_parts(rest)[j])[0]
                != words(breakdown_parts(rest)[k])[0],
    ensures
        words(breakdown_parts(rest)[k]).len() >= 2,
        decimal_u64(words(breakdown_parts(rest)[k])[1]) is Some,
        tcp_line(rest)->Ok_0.states.contains_key(words(breakdown_parts(rest)[k])[0]),
        tcp_line(rest)->Ok_0.states[words(breakdown_parts(rest)[k])[0]] == decimal_u64(
            words(breakdown_parts(rest)[k])[1],
        )->Some_0,
{
    lemma_state_counts_ok(breakdown_parts(rest), k);
}

/// Every label of a `TCP:` line that is read comes from some part of its
/// breakdown, and there is none without one.
pub proof fn law_tcp_labels_come_from_parts(rest: Seq<char>, l: Seq<char>)
    requires
        tcp_line(rest) is Ok,
        tcp_line(rest)->Ok_0.states.contains_key(l),
    ensures
        split_once(rest, '(') is Some,
        exists|k: int|
            0 <= k < breakdown_parts(rest).len() && words(#[trigger] breakdown_parts(rest)[k])[0]
                == l,
{
    lemma_state_labels(breakdown_parts(rest), l);
}

proof fn lemma_state_labels(parts: Seq<Seq<char>>, l: Seq<char>)
    requires
        state_counts(parts) is Ok,
        state_counts(parts)->Ok_0.contains_key(l),
    ensures
        exists|k: int| 0 <= k < parts.len() && words(#[trigger] parts[k])[0] == l,
    decreases parts.len(),
{
    let init = parts.drop_last();
    if words(parts.last())[0] != l {
        lemma_state_labels(init, l);
        let k = choose|k: int| 0 <= k < init.len() && words(#[trigger] init[k])[0] == l;
        assert(parts[k] == init[k]);
    } else {
        assert(words(parts[parts.len() - 1])[0] == l);
    }
}

/// The total of a `TCP:` line that is read is the decimal number before
/// its first `(` (trimmed), or the whole line when there is none.
pub proof fn law_tcp_total_is_decimal(rest: Seq<char>)
    ensures
        tcp_line(rest) is Ok ==> decimal_u64(
            match split_once(rest, '(') {
                Some((before, _)) => trim(before),
                None => rest,
            },
        ) == Some(tcp_line(rest)->Ok_0.total),
{
    let t = match split_once(rest, '(') {
        Some((before, _)) => trim(before),
        None => rest,
    };
    law_count_is_decimal(t);
}

/// A row of the transport table is read exactly when it has at least four
/// words of which the second, third and fourth are decimal counts; it is
/// then stored under its first word, with the counts in that order as
/// total, IPv4 and IPv6.
pub proof fn law_transport_row_is_decimal(line: Seq<char>)
    ensures
        transport_row(line) is Ok <==> {
            &&& words(line).len() >= 4
            &&& decimal_u64(words(line)[1]) is Some
            &&& decimal_u64(words(line)[2]) is Some
            &&& decimal_u64(words(line)[3]) is Some
        },
        transport_row(line) is Ok ==> transport_row(line)->Ok_0 == (
            words(line)[0],
            TransportRow {
                total: decimal_u64(words(line)[1])->Some_0,
                ipv4: decimal_u64(words(line)[2])->Some_0,
                ipv6: decimal_u64(words(line)[3])->Some_0,
            },
        ),
{
    let ws = words(line);
    if ws.len() >= 4 {
        law_count_is_decimal(ws[1]);
        law_count_is_decimal(ws[2]);
        law_count_is_decimal(ws[3]);
    } else if ws.len() >= 2 {
        law_count_is_decimal(ws[1]);
        if ws.len() >= 3 {
            law_count_is_decimal(ws[2]);
        }
    }
}

/// The family labels are the fixed texts `total`, `ipv4` and `ipv6`, so
/// no two columns of a row share a series.
pub proof fn law_family_labels()
    ensures
        Family::Total.label_text() == "total"@,
        Family::Ipv4.label_text() == "ipv4"@,
        Family::Ipv6.label_text() == "ipv6"@,
        Family::Total.label_text() != Family::Ipv4.label_text(),
        Family::Total.label_text() != Family::Ipv6.label_text(),
        Family::Ipv4.label_text() != Family::Ipv6.label_text(),
{
    reveal_strlit("total");
    reveal_strlit("ipv4");
    reveal_strlit("ipv6");
    assert("total"@.len() != "ipv4"@.len());
    assert("total"@.len() != "ipv6"@.len());
    assert("ipv4"@[3] != "ipv6"@[3]);
}

/// What a successful scrape publishes, position by position: the total of
/// the `Total:` line, then the total of the `TCP:` line, then each state
/// with its count, then each transport's three cells labelled by its name
/// in lower case, then the time of the scrape and success.
pub proof fn law_success_samples_layout(
    total: u64,
    tcp_total: u64,
    states: Seq<(String, u64)>,
    transports: Seq<(String, TransportRow)>,
    now_secs: u64,
)
    ensures
        ({
            let s = success_samples(total, tcp_total, states, transports, now_secs);
            &&& s.len() == 4 + states.len() + 3 * transports.len()
            &&& s[0] == Sample::SocketsTotal(total)
            &&& s[1] == Sample::TcpTotal(tcp_total)
            &&& forall|i: int|
                0 <= i < states.len() ==> s[2 + i] == Sample::TcpState(
                    #[trigger] states[i].0@,
                    states[i].1,
                )
            &&& forall|i: int|
                0 <= i < transports.len() ==> {
                    &&& s[2 + states.len() + 3 * i] == Sample::Transport(
                        lowercase_text(#[trigger] transports[i].0@),
                        Family::Total,
                        transports[i].1.total,
                    )
                    &&& s[2 + states.len() + 3 * i + 1] == Sample::Transport(
                        lowercase_text(transports[i].0@),
                        Family::Ipv4,
                        transports[i].1.ipv4,
                    )
                    &&& s[2 + states.len() + 3 * i + 2] == Sample::Transport(
                        lowercase_text(transports[i].0@),
                        Family::Ipv6,
                        transports[i].1.ipv6,
                    )
                }
            &&& s[s.len() - 2] == Sample::LastScrapeTimestamp(now_secs)
            &&& s[s.len() - 1] == Sample::LastScrapeSuccess(1)
        }),
{
    lemma_transport_samples(transports);
    let s = success_samples(total, tcp_total, states, transports, now_secs);
    let ts = crate::metrics::transport_samples(transports);
    assert forall|i: int| 0 <= i < transports.len() implies {
        &&& s[2 + states.len() + 3 * i] == Sample::Transport(
            lowercase_text(#[trigger] transports[i].0@),
            Family::Total,
            transports[i].1.total,
        )
        &&& s[2 + states.len() + 3 * i + 1] == Sample::Transport(
            lowercase_text(transports[i].0@),
            Family::Ipv4,
            transports[i].1.ipv4,
        )
        &&& s[2 + states.len() + 3 * i + 2] == Sample::Transport(
            lowercase_text(transports[i].0@),
            Family::Ipv6,
            transports[i].1.ipv6,
        )
    } by {
        let cells = crate::metrics::row_samples(lowercase_text(transports[i].0@), transports[i].1);
        assert(ts[3 * i + 0] == cells[0]);
        assert(ts[3 * i + 1] == cells[1]);
        assert(ts[3 * i + 2] == cells[2]);
        assert(crate::metrics::state_samples(states).len() == states.len());
        assert(ts[3 * i] == s[2 + states.len() + 3 * i]);
        assert(ts[3 * i + 1] == s[2 + states.len() + 3 * i + 1]);
        assert(ts[3 * i + 2] == s[2 + states.len() + 3 * i + 2]);
    }
}

proof fn lemma_append_line(a: Seq<char>, line: Seq<char>)
    requires
        parse_state(a) is Ok,
        forall|i: int| 0 <= i < line.len() ==> line[i] != '\n',
    ensures
        parse_state(a + seq!['\n'] + line) == step(parse_state(a)->Ok_0, line),
{
    law_lines_read_in_order(a, line);
    lemma_single_piece(line, '\n');
    let st = parse_state(a)->Ok_0;
    assert(seq![line].drop_last() =~= Seq::<Seq<char>>::empty());
    assert(resume(Ok(st), seq![line].drop_last()) == Ok::<ParseState, Seq<char>>(st));
}

/// A `TCP:` line sets the TCP statistics to what its text after the label
/// says, and nothing else, whatever came before it.
pub proof fn law_tcp_line_sets_tcp(a: Seq<char>, t: Seq<char>)
    requires
        parse_state(a) is Ok,
        t.len() > 0,
        !is_whitespace(t.last()),
        forall|i: int| 0 <= i < t.len() ==> t[i] != '\n',
    ensures
        parse_state(a + seq!['\n'] + "TCP:"@ + t) == match tcp_line(trim(t)) {
            Ok(tcp) => Ok(
                ParseState {
                    stats: StatsModel {
                        total: parse_state(a)->Ok_0.stats.total,
                        tcp,
                        transports: parse_state(a)->Ok_0.stats.transports,
                    },
                    in_table: parse_state(a)->Ok_0.in_table,
                },
            ),
            Err(m) => Err(m),
        },
{
    reveal_strlit("TCP:");
    reveal_strlit("Total:");
    let label = "TCP:"@;
    let line = label + t;
    assert(a + seq!['\n'] + label + t =~= a + seq!['\n'] + line);
    assert forall|i: int| 0 <= i < line.len() implies line[i] != '\n' by {
        if i >= label.len() {
            assert(line[i] == t[i - label.len()]);
        }
    }
    lemma_append_line(a, line);
    assert(trim_start(line) == line);
    assert(line.last() == t.last());
    assert(trim_end(line) == line);
    if line.len() >= 6 {
        assert(line.take(6)[1] != "Total:"@[1]);
    }
    assert(strip_prefix(line, "Total:"@) is None);
    assert(line.take(label.len() as int) =~= label);
    assert(line.skip(label.len() as int) =~= t);
}

/// Before the table's header, a line that is not a `Total:`, `TCP:` or
/// `Transport` line changes nothing.
pub proof fn law_other_lines_ignored_before_table(a: Seq<char>, line: Seq<char>)
    requires
        parse_state(a) is Ok,
        !parse_state(a)->Ok_0.in_table,
        forall|i: int| 0 <= i < line.len() ==> line[i] != '\n',
        !starts_with(trim(line), "Total:"@),
        !starts_with(trim(line), "TCP:"@),
        !starts_with(trim(line), "Transport"@),
    ensures
        parse_state(a + seq!['\n'] + line) == parse_state(a),
{
    lemma_append_line(a, line);
}

/// A line that starts with `Transport` opens the table and changes
/// nothing else.
pub proof fn law_header_opens_table(a: Seq<char>, line: Seq<char>)
    requires
        parse_state(a) is Ok,
        forall|i: int| 0 <= i < line.len() ==> line[i] != '\n',
        starts_with(trim(line), "Transport"@),
    ensures
        parse_state(a + seq!['\n'] + line) == Ok::<ParseState, Seq<char>>(
            ParseState { stats: parse_state(a)->Ok_0.stats, in_table: true },
        ),
{
    reveal_strlit("Transport");
    reveal_strlit("Total:");
    reveal_strlit("TCP:");
    lemma_append_line(a, line);
    let l = trim(line);
    assert(l.take(9)[1] == 'r');
    if l.len() >= 6 {
        assert(l.take(6)[1] == l[1]);
        assert(l.take(6)[1] != "Total:"@[1]);
    }
    assert(strip_prefix(l, "Total:"@) is None);
    assert(l.take(4)[1] == l[1]);
    assert(l.take(4)[1] != "TCP:"@[1]);
    assert(strip_prefix(l, "TCP:"@) is None);
}

/// Once the table has started, a line that is not a `Total:`, `TCP:` or
/// `Transport` line is a row: it is stored under its name with its counts
/// (replacing an earlier row of that name), or it fails the reading.
pub proof fn law_row_line_stored(a: Seq<char>, line: Seq<char>)
    requires
        parse_state(a) is Ok,
        parse_state(a)->Ok_0.in_table,
        forall|i: int| 0 <= i < line.len() ==> line[i] != '\n',
        trim(line).len() > 0,
        !starts_with(trim(line), "Total:"@),
        !starts_with(trim(line), "TCP:"@),
        !starts_with(trim(line), "Transport"@),
    ensures
        parse_state(a + seq!['\n'] + line) == match transport_row(trim(line)) {
            Ok((name, row)) => Ok(
                ParseState {
                    stats: StatsModel {
                        total: parse_state(a)->Ok_0.stats.total,
                        tcp: parse_state(a)->Ok_0.stats.tcp,
                        transports: parse_state(a)->Ok_0.stats.transports.insert(name, row),
                    },
                    in_table: true,
                },
            ),
            Err(m) => Err(m),
        },
{
    lemma_append_line(a, line);
}

/// The pieces joined again, with `c` between each two.
pub open spec fn join(ps: Seq<Seq<char>>, c: char) -> Seq<char>
    decreases ps.len(),
{
    if ps.len() == 0 {
        Seq::empty()
    } else if ps.len() == 1 {
        ps[0]
    } else {
        join(ps.drop_last(), c) + seq![c] + ps.last()
    }
}

/// All the pieces, one after the other.
pub open spec fn concat_all(ps: Seq<Seq<char>>) -> Seq<char>
    decreases ps.len(),
{
    if ps.len() == 0 {
        Seq::empty()
    } else {
        concat_all(ps.drop_last()) + ps.last()
    }
}

/// The characters of `s` that are not whitespace, in order.
pub open spec fn visible(s: Seq<char>) -> Seq<char>
    decreases s.len(),
{
    if s.len() == 0 {
        Seq::empty()
    } else if is_whitespace(s.last()) {
        visible(s.drop_last())
    } else {
        visible(s.drop_last()).push(s.last())
    }
}

/// Splitting at a character and joining the pieces again at it gives the
/// text back, and no piece holds a separator.
pub proof fn law_pieces_rejoin(s: Seq<char>, sep: Sep)
    ensures
        forall|k: int, i: int|
            0 <= k < pieces(s, sep).len() && 0 <= i < pieces(s, sep)[k].len()
                ==> !sep.separates(#[trigger] pieces(s, sep)[k][i]),
        sep is Char ==> join(pieces(s, sep), sep->Char_0) == s,
    decreases s.len(),
{
    if s.len() == 0 {
        assert(join(pieces(s, sep), '\0') =~= s);
        if sep is Char {
            assert(join(pieces(s, sep), sep->Char_0) =~= s);
        }
    } else {
        let init = s.drop_last();
        let p = pieces(init, sep);
        law_pieces_rejoin(init, sep);
        lemma_pieces_not_empty(init, sep);
        let x = s.last();
        assert(init.push(x) =~= s);
        if sep.separates(x) {
            if sep is Char {
                let c = sep->Char_0;
                assert(p.push(Seq::empty()).drop_last() =~= p);
                assert(join(p.push(Seq::empty()), c) =~= join(p, c) + seq![c]);
            }
        } else {
            let q = p.update(p.len() - 1, p.last().push(x));
            assert forall|k: int, i: int| 0 <= k < q.len() && 0 <= i < q[k].len() implies !sep.separates(
                #[trigger] q[k][i],
            ) by {
                if k < p.len() - 1 {
                    assert(q[k] == p[k]);
                } else if i < p.last().len() {
                    assert(q[k][i] == p[p.len() - 1][i]);
                }
            }
            if sep is Char {
                let c = sep->Char_0;
                if p.len() == 1 {
                    assert(join(q, c) =~= s);
                } else {
                    assert(q.drop_last() =~= p.drop_last());
                    assert(join(q, c) =~= join(p, c).push(x));
                }
            }
        }
    }
}

proof fn lemma_concat_non_empty(ps: Seq<Seq<char>>)
    ensures
        concat_all(non_empty(ps)) == concat_all(ps),
    decreases ps.len(),
{
    if ps.len() > 0 {
        lemma_concat_non_empty(ps.drop_last());
        if ps.last().len() == 0 {
            assert(concat_all(ps) =~= concat_all(ps.drop_last()));
        } else {
            assert(non_empty(ps).drop_last() =~= non_empty(ps.drop_last()));
        }
    }
}

proof fn lemma_concat_pieces(s: Seq<char>)
    ensures
        concat_all(pieces(s, Sep::Whitespace)) == visible(s),
    decreases s.len(),
{
    if s.len() > 0 {
        let init = s.drop_last();
        let p = pieces(init, Sep::Whitespace);
        lemma_concat_pieces(init);
        lemma_pieces_not_empty(init, Sep::Whitespace);
        if is_whitespace(s.last()) {
            assert(p.push(Seq::empty()).drop_last() =~= p);
            assert(concat_all(p.push(Seq::empty())) =~= concat_all(p));
        } else {
            let q = p.update(p.len() - 1, p.last().push(s.last()));
            assert(q.drop_last() =~= p.drop_last());
            assert(concat_all(q) == concat_all(p.drop_last()) + p.last().push(s.last()));
            assert(concat_all(p) == concat_all(p.drop_last()) + p.last());
            assert(concat_all(q) =~= concat_all(p).push(s.last()));
            assert(pieces(s, Sep::Whitespace) == q);
        }
    } else {
        let e = Seq::<char>::empty();
        assert(seq![e].drop_last() =~= Seq::<Seq<char>>::empty());
        assert(concat_all(Seq::<Seq<char>>::empty()) == e);
        assert(seq![e].last() == e);
        assert(concat_all(seq![e]) == concat_all(seq![e].drop_last()) + seq![e].last());
        assert(e + e =~= e);
    }
}

proof fn lemma_non_empty_members(ps: Seq<Seq<char>>)
    ensures
        forall|k: int|
            0 <= k < non_empty(ps).len() ==> #[trigger] non_empty(ps)[k].len() > 0
                && ps.contains(non_empty(ps)[k]),
    decreases ps.len(),
{
    if ps.len() > 0 {
        lemma_non_empty_members(ps.drop_last());
        let r = non_empty(ps.drop_last());
        assert forall|k: int| 0 <= k < non_empty(ps).len() implies #[trigger] non_empty(ps)[k].len()
            > 0 && ps.contains(non_empty(ps)[k]) by {
            if k < r.len() {
                assert(non_empty(ps)[k] == r[k]);
                let j = choose|j: int| 0 <= j < ps.drop_last().len() && ps.drop_last()[j] == r[k];
                assert(ps[j] == r[k]);
            } else {
                assert(ps[ps.len() - 1] == non_empty(ps)[k]);
            }
        }
    }
}

/// The words of a text are non-empty, hold no whitespace, and together
/// hold every other character of the text, in order.
pub proof fn law_words(s: Seq<char>)
    ensures
        forall|k: int| 0 <= k < words(s).len() ==> #[trigger] words(s)[k].len() > 0,
        forall|k: int, i: int|
            0 <= k < words(s).len() && 0 <= i < words(s)[k].len() ==> !is_whitespace(
                #[trigger] words(s)[k][i],
            ),
        concat_all(words(s)) == visible(s),
{
    let ps = pieces(s, Sep::Whitespace);
    law_pieces_rejoin(s, Sep::Whitespace);
    lemma_non_empty_members(ps);
    lemma_concat_non_empty(ps);
    lemma_concat_pieces(s);
    assert forall|k: int, i: int|
        0 <= k < words(s).len() && 0 <= i < words(s)[k].len() implies !is_whitespace(
        #[trigger] words(s)[k][i],
    ) by {
        let j = choose|j: int| 0 <= j < ps.len() && ps[j] == words(s)[k];
        assert(ps[j][i] == words(s)[k][i]);
    }
}

proof fn lemma_trim_start_shape(s: Seq<char>)
    ensures
        exists|i: int|
            0 <= i <= s.len() && trim_start(s) == s.skip(i) && (forall|j: int|
                0 <= j < i ==> is_whitespace(#[trigger] s[j])),
        trim_start(s).len() > 0 ==> !is_whitespace(trim_start(s)[0]),
    decreases s.len(),
{
    if s.len() > 0 && is_whitespace(s[0]) {
        let t = s.drop_first();
        lemma_trim_start_shape(t);
        let i = choose|i: int|
            0 <= i <= t.len() && trim_start(t) == t.skip(i) && (forall|j: int|
                0 <= j < i ==> is_whitespace(#[trigger] t[j]));
        assert(t.skip(i) =~= s.skip(i + 1));
        assert forall|j: int| 0 <= j < i + 1 implies is_whitespace(#[trigger] s[j]) by {
            if j > 0 {
                assert(s[j] == t[j - 1]);
            }
        }
    } else {
        assert(s.skip(0) =~= s);
    }
}

proof fn lemma_trim_end_shape(s: Seq<char>)
    ensures
        exists|i: int|
            0 <= i <= s.len() && trim_end(s) == s.take(i) && (forall|j: int|
                i <= j < s.len() ==> is_whitespace(#[trigger] s[j])),
        trim_end(s).len() > 0 ==> !is_whitespace(trim_end(s).last()),
    decreases s.len(),
{
    if s.len() > 0 && is_whitespace(s.last()) {
        let t = s.drop_last();
        lemma_trim_end_shape(t);
        let i = choose|i: int|
            0 <= i <= t.len() && trim_end(t) == t.take(i) && (forall|j: int|
                i <= j < t.len() ==> is_whitespace(#[trigger] t[j]));
        assert(t.take(i) =~= s.take(i));
        assert forall|j: int| i <= j < s.len() implies is_whitespace(#[trigger] s[j]) by {
            if j < s.len() - 1 {
                assert(s[j] == t[j]);
            }
        }
    } else {
        assert(s.take(s.len() as int) =~= s);
    }
}

/// Trimming cuts whitespace, and only whitespace, from both ends: the
/// result is a stretch of the text, all around it is whitespace, and it
/// is empty or starts and ends with other characters.
pub proof fn law_trim(s: Seq<char>)
    ensures
        exists|i: int, j: int|
            0 <= i <= j <= s.len() && trim(s) == s.subrange(i, j) && (forall|k: int|
                0 <= k < i ==> is_whitespace(#[trigger] s[k])) && (forall|k: int|
                j <= k < s.len() ==> is_whitespace(#[trigger] s[k])),
        trim(s).len() > 0 ==> !is_whitespace(trim(s)[0]) && !is_whitespace(trim(s).last()),
{
    lemma_trim_start_shape(s);
    let t = trim_start(s);
    let i = choose|i: int|
        0 <= i <= s.len() && t == s.skip(i) && (forall|j: int|
            0 <= j < i ==> is_whitespace(#[trigger] s[j]));
    lemma_trim_end_shape(t);
    let j = choose|j: int|
        0 <= j <= t.len() && trim_end(t) == t.take(j) && (forall|k: int|
            j <= k < t.len() ==> is_whitespace(#[trigger] t[k]));
    assert(t.take(j) =~= s.subrange(i, i + j));
    assert forall|k: int| i + j <= k < s.len() implies is_whitespace(#[trigger] s[k]) by {
        assert(s[k] == t[k - i]);
    }
    if trim(s).len() > 0 {
        assert(trim(s)[0] == t[0]);
    }
}

/// Stripping a prefix succeeds exactly when the text is the prefix
/// followed by something, and gives that something.
pub proof fn law_strip_prefix(s: Seq<char>, p: Seq<char>, r: Seq<char>)
    ensures
        strip_prefix(s, p) == Some(r) <==> s == p + r,
{
    if s == p + r {
        assert(s.take(p.len() as int) =~= p);
        assert(s.skip(p.len() as int) =~= r);
    }
    if strip_prefix(s, p) == Some(r) {
        assert(s =~= p + r);
    }
}

proof fn lemma_first_exists(s: Seq<char>, c: char, j: int)
    requires
        0 <= j < s.len(),
        s[j] == c,
    ensures
        exists|i: int| first_at(s, c, i),
    decreases j,
{
    if exists|k: int| 0 <= k < j && s[k] == c {
        let k = choose|k: int| 0 <= k < j && s[k] == c;
        lemma_first_exists(s, c, k);
    } else {
        assert(first_at(s, c, j));
    }
}

/// Splitting once at `c` finds a `c` exactly when there is one: the text
/// is the part before it, the `c`, and the part after, and the part
/// before holds no `c`.
pub proof fn law_split_once(s: Seq<char>, c: char)
    ensures
        split_once(s, c) is None <==> forall|i: int| 0 <= i < s.len() ==> s[i] != c,
        split_once(s, c) matches Some((before, after)) ==> s == before + seq![c] + after && (
        forall|i: int| 0 <= i < before.len() ==> before[i] != c),
{
    if exists|i: int| 0 <= i < s.len() && s[i] == c {
        let j = choose|i: int| 0 <= i < s.len() && s[i] == c;
        lemma_first_exists(s, c, j);
        let i = choose|i: int| first_at(s, c, i);
        assert(first_at(s, c, i));
        assert(s =~= s.take(i) + seq![c] + s.skip(i + 1));
    }
}

/// Cutting trailing `c`s leaves a text that is empty or does not end in
/// `c`, followed in the original by nothing but `c`s.
pub proof fn law_trim_end_char(s: Seq<char>, c: char)
    ensures
        exists|i: int|
            0 <= i <= s.len() && trim_end_char(s, c) == s.take(i) && (forall|j: int|
                i <= j < s.len() ==> #[trigger] s[j] == c),
        trim_end_char(s, c).len() > 0 ==> trim_end_char(s, c).last() != c,
    decreases s.len(),
{
    if s.len() > 0 && s.last() == c {
        let t = s.drop_last();
        law_trim_end_char(t, c);
        let i = choose|i: int|
            0 <= i <= t.len() && trim_end_char(t, c) == t.take(i) && (forall|j: int|
                i <= j < t.len() ==> #[trigger] t[j] == c);
        assert(t.take(i) =~= s.take(i));
        assert forall|j: int| i <= j < s.len() implies #[trigger] s[j] == c by {
            if j < s.len() - 1 {
                assert(s[j] == t[j]);
            }
        }
    } else {
        assert(s.take(s.len() as int) =~= s);
    }
}

/// The characters that count as whitespace include space, tab, line
/// feed, vertical tab, form feed and carriage return, and no digit.
pub proof fn law_whitespace_characters(c: char)
    ensures
        is_whitespace(' ') && is_whitespace('\t') && is_whitespace('\n') && is_whitespace('\r')
            && is_whitespace('\u{b}') && is_whitespace('\u{c}'),
        crate::number::is_digit(c) ==> !is_whitespace(c),
{
}

/// A count that is not a decimal number fails with `expected integer,
/// got ` and the count in quotes, then `: ` and the reason that parsing
/// gave.
pub proof fn law_count_error_message(s: Seq<char>)
    ensures
        decimal_u64(s) is None ==> u64_result(s) == Err::<u64, Seq<char>>(
            "expected integer, got "@ + debug_text(s) + ": "@ + parse_failure_text(s),
        ),
{
}

/// The messages of a part of the TCP breakdown that cannot be read: one
/// without words lacks the state's name, one with a single word lacks its
/// count, and one whose count is not a number says so.
pub proof fn law_state_part_errors(part: Seq<char>)
    ensures
        words(part).len() == 0 ==> state_entry(part) == Err::<(Seq<char>, u64), Seq<char>>(
            "missing state name in "@ + debug_text(part),
        ),
        words(part).len() == 1 ==> state_entry(part) == Err::<(Seq<char>, u64), Seq<char>>(
            "missing state count in "@ + debug_text(part),
        ),
        words(part).len() >= 2 && decimal_u64(words(part)[1]) is None ==> state_entry(part) == Err::<
            (Seq<char>, u64),
            Seq<char>,
        >(
            "expected integer, got "@ + debug_text(words(part)[1]) + ": "@ + parse_failure_text(
                words(part)[1],
            ),
        ),
{
}

/// The messages of a row of the transport table that cannot be read: the
/// first missing word is named, with the row in quotes, unless a count
/// before it is not a number.
pub proof fn law_row_errors(line: Seq<char>)
    ensures
        words(line).len() == 0 ==> transport_row(line) == Err::<(Seq<char>, TransportRow), Seq<char>>(
            "empty transport row: "@ + debug_text(line),
        ),
        words(line).len() == 1 ==> transport_row(line) == Err::<(Seq<char>, TransportRow), Seq<char>>(
            "transport row missing total: "@ + debug_text(line),
        ),
        words(line).len() == 2 && decimal_u64(words(line)[1]) is Some ==> transport_row(line) == Err::<
            (Seq<char>, TransportRow),
            Seq<char>,
        >("transport row missing ipv4: "@ + debug_text(line)),
        words(line).len() == 3 && decimal_u64(words(line)[1]) is Some && decimal_u64(words(line)[2]) is Some
            ==> transport_row(line) == Err::<(Seq<char>, TransportRow), Seq<char>>(
            "transport row missing ipv6: "@ + debug_text(line),
        ),
        words(line).len() >= 2 && decimal_u64(words(line)[1]) is None ==> transport_row(line) == Err::<
            (Seq<char>, TransportRow),
            Seq<char>,
        >(
            "expected integer, got "@ + debug_text(words(line)[1]) + ": "@ + parse_failure_text(
                words(line)[1],
            ),
        ),
{
}

/// A `Total:` line sets the total to the decimal number after the label
/// (trimmed) and changes nothing else, or fails the reading when there is
/// none, whatever came before it.
pub proof fn law_total_line_reads_count(a: Seq<char>, t: Seq<char>)
    requires
        parse_state(a) is Ok,
        t.len() > 0,
        !is_whitespace(t.last()),
        forall|i: int| 0 <= i < t.len() ==> t[i] != '\n',
    ensures
        parse_state(a + seq!['\n'] + "Total:"@ + t) == match decimal_u64(trim(t)) {
            Some(v) => Ok(
                ParseState {
                    stats: StatsModel {
                        total: v,
                        tcp: parse_state(a)->Ok_0.stats.tcp,
                        transports: parse_state(a)->Ok_0.stats.transports,
                    },
                    in_table: parse_state(a)->Ok_0.in_table,
                },
            ),
            None => Err(
                "expected integer, got "@ + debug_text(trim(t)) + ": "@ + parse_failure_text(trim(t)),
            ),
        },
{
    reveal_strlit("Total:");
    let label = "Total:"@;
    let line = label + t;
    assert(a + seq!['\n'] + label + t =~= a + seq!['\n'] + line);
    assert forall|i: int| 0 <= i < line.len() implies line[i] != '\n' by {
        if i >= label.len() {
            assert(line[i] == t[i - label.len()]);
        }
    }
    lemma_append_line(a, line);
    assert(trim_start(line) == line);
    assert(line.last() == t.last());
    assert(trim_end(line) == line);
    assert(line.take(label.len() as int) =~= label);
    assert(line.skip(label.len() as int) =~= t);
    law_count_is_decimal(trim(t));
}

proof fn lemma_state_counts_ok_iff(parts: Seq<Seq<char>>)
    ensures
        state_counts(parts) is Ok <==> forall|k: int|
            0 <= k < parts.len() ==> words(#[trigger] parts[k]).len() >= 2 && decimal_u64(
                words(parts[k])[1],
            ) is Some,
    decreases parts.len(),
{
    if parts.len() > 0 {
        let init = parts.drop_last();
        lemma_state_counts_ok_iff(init);
        law_count_is_decimal(words(parts.last())[1]);
        if forall|k: int|
            0 <= k < parts.len() ==> words(#[trigger] parts[k]).len() >= 2 && decimal_u64(
                words(parts[k])[1],
            ) is Some {
            assert forall|k: int| 0 <= k < init.len() implies words(#[trigger] init[k]).len() >= 2
                && decimal_u64(words(init[k])[1]) is Some by {
                assert(init[k] == parts[k]);
            }
            assert(words(parts[parts.len() - 1]).len() >= 2);
        }
        if state_counts(parts) is Ok {
            assert forall|k: int| 0 <= k < parts.len() implies words(#[trigger] parts[k]).len() >= 2
                && decimal_u64(words(parts[k])[1]) is Some by {
                if k < parts.len() - 1 {
                    assert(init[k] == parts[k]);
                }
            }
        }
    }
}

/// A `TCP:` line is read exactly when its total is a decimal number and,
/// if it has a breakdown, every part of it has a label and a decimal
/// count.
pub proof fn law_tcp_line_ok_iff(rest: Seq<char>)
    ensures
        tcp_line(rest) is Ok <==> match split_once(rest, '(') {
            None => decimal_u64(rest) is Some,
            Some((before, _)) => decimal_u64(trim(before)) is Some && forall|k: int|
                0 <= k < breakdown_parts(rest).len() ==> words(#[trigger] breakdown_parts(rest)[k]).len()
                    >= 2 && decimal_u64(words(breakdown_parts(rest)[k])[1]) is Some,
        },
{
    law_count_is_decimal(rest);
    if split_once(rest, '(') is Some {
        law_count_is_decimal(trim(split_once(rest, '(')->Some_0.0));
        lemma_state_counts_ok_iff(breakdown_parts(rest));
    }
}

/// Among ASCII characters, whitespace is exactly tab, line feed,
/// vertical tab, form feed, carriage return and space; so no letter,
/// digit or punctuation (such as `,`, `(` or `)`) is trimmed or splits
/// words.
pub proof fn law_ascii_whitespace(c: char)
    requires
        (c as u32) < 128,
    ensures
        is_whitespace(c) <==> (c == '\t' || c == '\n' || c == '\u{b}' || c == '\u{c}' || c
            == '\r' || c == ' '),
{
}

} // verus!
