//! What a scrape of `ss -s` publishes: the gauge values that the exporter
//! sets from parsed statistics, or after a failed run.
use vstd::prelude::*;

use crate::label_map::lemma_map_of_entries;
use crate::stats::{SocketStats, TransportRow};

verus! {

/// The address-family column of the transport table.
#[derive(Clone, Copy, Debug, PartialEq, Eq, Structural)]
pub enum Family {
    Total,
    Ipv4,
    Ipv6,
}

impl Family {
    pub open spec fn label_text(self) -> Seq<char> {
        match self {
            Family::Total => "total"@,
            Family::Ipv4 => "ipv4"@,
            Family::Ipv6 => "ipv6"@,
        }
    }

    /// The value of the `family` label.
    pub fn label(&self) -> (r: &'static str)
        ensures
            r@ == self.label_text(),
            r@ == match self {
                Family::Total => "total"@,
                Family::Ipv4 => "ipv4"@,
                Family::Ipv6 => "ipv6"@,
            },
    {
        match self {
            Family::Total => "total",
            Family::Ipv4 => "ipv4",
            Family::Ipv6 => "ipv6",
        }
    }
}

/// One gauge value to publish.
#[derive(Debug)]
pub enum GaugeUpdate {
    /// `ss_sockets_total`: the `Total:` line.
    SocketsTotal(u64),
    /// `ss_tcp_sockets_total`: the total of the `TCP:` line.
    TcpTotal(u64),
    /// `ss_tcp_sockets{state}`: one state of the `TCP:` line.
    TcpState { state: String, count: u64 },
    /// `ss_transport_sockets{transport, family}`: one cell of the table.
    Transport { transport: String, family: Family, count: u64 },
    /// `ss_last_scrape_timestamp_seconds`.
    LastScrapeTimestamp(u64),
    /// `ss_last_scrape_success`: 1 after a successful scrape, 0 otherwise.
    LastScrapeSuccess(u64),
}

/// What a [`GaugeUpdate`] publishes.
pub enum Sample {
    SocketsTotal(u64),
    TcpTotal(u64),
    TcpState(Seq<char>, u64),
    Transport(Seq<char>, Family, u64),
    LastScrapeTimestamp(u64),
    LastScrapeSuccess(u64),
}

impl View for GaugeUpdate {
    type V = Sample;

    open spec fn view(&self) -> Sample {
        match self {
            GaugeUpdate::SocketsTotal(v) => Sample::SocketsTotal(*v),
            GaugeUpdate::TcpTotal(v) => Sample::TcpTotal(*v),
            GaugeUpdate::TcpState { state, count } => Sample::TcpState(state@, *count),
            GaugeUpdate::Transport { transport, family, count } => Sample::Transport(
                transport@,
                *family,
                *count,
            ),
            GaugeUpdate::LastScrapeTimestamp(v) => Sample::LastScrapeTimestamp(*v),
            GaugeUpdate::LastScrapeSuccess(v) => Sample::LastScrapeSuccess(*v),
        }
    }
}

/// What a list of updates publishes, in order.
pub open spec fn samples(us: Seq<GaugeUpdate>) -> Seq<Sample> {
    us.map_values(|u: GaugeUpdate| u@)
}

/// The text of `s` in lower case, as `str::to_lowercase` gives it.
pub uninterp spec fn lowercase_text(s: Seq<char>) -> Seq<char>;

/// Calls `str::to_lowercase`. Trusted to give the text named
/// [`lowercase_text`]; what that text is (Unicode's lower-case mapping)
/// is not stated.
#[verifier::external_body]
fn lowercase(s: &str) -> (r: String)
    ensures
        r@ == lowercase_text(s@),
{
    s.to_lowercase()
}

/// The three cells of a transport's row.
pub open spec fn row_samples(transport: Seq<char>, row: TransportRow) -> Seq<Sample> {
    seq![
        Sample::Transport(transport, Family::Total, row.total),
        Sample::Transport(transport, Family::Ipv4, row.ipv4),
        Sample::Transport(transport, Family::Ipv6, row.ipv6),
    ]
}

/// One sample per TCP state, in the order of the list.
pub open spec fn state_samples(es: Seq<(String, u64)>) -> Seq<Sample> {
    es.map_values(|e: (String, u64)| Sample::TcpState(e.0@, e.1))
}

/// Three samples per transport, labelled by its name in lower case, in
/// the order of the list.
pub open spec fn transport_samples(es: Seq<(String, TransportRow)>) -> Seq<Sample>
    decreases es.len(),
{
    if es.len() == 0 {
        Seq::empty()
    } else {
        transport_samples(es.drop_last()) + row_samples(lowercase_text(es.last().0@), es.last().1)
    }
}

pub proof fn lemma_transport_samples(es: Seq<(String, TransportRow)>)
    ensures
        transport_samples(es).len() == 3 * es.len(),
        forall|i: int, j: int|
            0 <= i < es.len() && 0 <= j < 3 ==> transport_samples(es)[3 * i + j] == row_samples(
                lowercase_text(es[i].0@),
                es[i].1,
            )[j],
    decreases es.len(),
{
    if es.len() > 0 {
        let init = es.drop_last();
        lemma_transport_samples(init);
        assert forall|i: int, j: int| 0 <= i < es.len() && 0 <= j < 3 implies transport_samples(
            es,
        )[3 * i + j] == row_samples(lowercase_text(es[i].0@), es[i].1)[j] by {
            if i < es.len() - 1 {
                assert(init[i] == es[i]);
            }
        }
    }
}

/// What a successful scrape publishes.
pub open spec fn success_samples(
    total: u64,
    tcp_total: u64,
    states: Seq<(String, u64)>,
    transports: Seq<(String, TransportRow)>,
    now_secs: u64,
) -> Seq<Sample> {
    seq![Sample::SocketsTotal(total), Sample::TcpTotal(tcp_total)] + state_samples(states)
        + transport_samples(transports) + seq![
        Sample::LastScrapeTimestamp(now_secs),
        Sample::LastScrapeSuccess(1),
    ]
}

/// The updates for one row of the transport table, given the transport's
/// label.
pub fn row_updates(transport: &str, row: &TransportRow) -> (r: Vec<GaugeUpdate>)
    ensures
        samples(r@) == row_samples(transport@, *row),
{
    let mut r: Vec<GaugeUpdate> = Vec::new();
    r.push(
        GaugeUpdate::Transport {
            transport: transport.to_owned(),
            family: Family::Total,
            count: row.total,
        },
    );
    r.push(
        GaugeUpdate::Transport {
            transport: transport.to_owned(),
            family: Family::Ipv4,
            count: row.ipv4,
        },
    );
    r.push(
        GaugeUpdate::Transport {
            transport: transport.to_owned(),
            family: Family::Ipv6,
            count: row.ipv6,
        },
    );
    assert(samples(r@) =~= row_samples(transport@, *row));
    r
}

/// The updates that a successful scrape publishes: the totals, each TCP
/// state, each cell of the transport table (labelled by the transport's
/// name in lower case), the time of the scrape in seconds since the Unix
/// epoch, and success.
pub fn scrape_succeeded(stats: &SocketStats, now_secs: u64) -> (r: Vec<GaugeUpdate>)
    ensures
        samples(r@) == success_samples(
            stats.total,
            stats.tcp.total,
            stats.tcp.states.contents(),
            stats.transports.contents(),
            now_secs,
        ),
        samples(r@).len() >= 4,
        samples(r@)[0] == Sample::SocketsTotal(stats.total),
        samples(r@)[1] == Sample::TcpTotal(stats.tcp.total),
        samples(r@)[samples(r@).len() - 2] == Sample::LastScrapeTimestamp(now_secs),
        samples(r@)[samples(r@).len() - 1] == Sample::LastScrapeSuccess(1),
        forall|k: Seq<char>| #[trigger]
            stats.tcp.states@.contains_key(k) ==> samples(r@).contains(
                Sample::TcpState(k, stats.tcp.states@[k]),
            ),
        forall|k: Seq<char>| #[trigger]
            stats.transports@.contains_key(k) ==> {
                let row = stats.transports@[k];
                &&& samples(r@).contains(Sample::Transport(lowercase_text(k), Family::Total, row.total))
                &&& samples(r@).contains(Sample::Transport(lowercase_text(k), Family::Ipv4, row.ipv4))
                &&& samples(r@).contains(Sample::Transport(lowercase_text(k), Family::Ipv6, row.ipv6))
            },
{
    let mut out: Vec<GaugeUpdate> = Vec::new();
    out.push(GaugeUpdate::SocketsTotal(stats.total));
    out.push(GaugeUpdate::TcpTotal(stats.tcp.total));
    let states = stats.tcp.states.entries();
    let ghost head = samples(out@);
    let mut i: usize = 0;
    while i < states.len()
        invariant
            i <= states@.len(),
            states@ == stats.tcp.states.contents(),
            head == seq![Sample::SocketsTotal(stats.total), Sample::TcpTotal(stats.tcp.total)],
            samples(out@) == head + state_samples(states@.take(i as int)),
        decreases states@.len() - i,
    {
        let ghost before = samples(out@);
        out.push(GaugeUpdate::TcpState { state: states[i].0.clone(), count: states[i].1 });
        assert(states@.take(i + 1) =~= states@.take(i as int).push(states@[i as int]));
        assert(samples(out@) =~= before.push(Sample::TcpState(states@[i as int].0@, states@[i as int].1)));
        assert(state_samples(states@.take(i + 1)) =~= state_samples(states@.take(i as int)).push(
            Sample::TcpState(states@[i as int].0@, states@[i as int].1),
        ));
        i = i + 1;
    }
    assert(states@.take(states@.len() as int) =~= states@);
    let rows = stats.transports.entries();
    let ghost mid = samples(out@);
    let mut j: usize = 0;
    assert(transport_samples(rows@.take(0)) =~= Seq::<Sample>::empty());
    while j < rows.len()
        invariant
            j <= rows@.len(),
            rows@ == stats.transports.contents(),
            samples(out@) == mid + transport_samples(rows@.take(j as int)),
        decreases rows@.len() - j,
    {
        let ghost before = samples(out@);
        let label = lowercase(rows[j].0.as_str());
        let mut cells = row_updates(label.as_str(), &rows[j].1);
        let ghost added = samples(cells@);
        out.append(&mut cells);
        assert(rows@.take(j + 1).drop_last() =~= rows@.take(j as int));
        assert(rows@.take(j + 1).last() == rows@[j as int]);
        assert(samples(out@) =~= before + added);
        j = j + 1;
    }
    assert(rows@.take(rows@.len() as int) =~= rows@);
    let ghost tail_start = samples(out@);
    out.push(GaugeUpdate::LastScrapeTimestamp(now_secs));
    out.push(GaugeUpdate::LastScrapeSuccess(1));
    assert(samples(out@) =~= tail_start + seq![
        Sample::LastScrapeTimestamp(now_secs),
        Sample::LastScrapeSuccess(1),
    ]);
    proof {
        let all = samples(out@);
        let ss = state_samples(states@);
        let ts = transport_samples(rows@);
        lemma_map_of_entries(states@);
        lemma_map_of_entries(rows@);
        lemma_transport_samples(rows@);
        assert forall|k: Seq<char>| #[trigger]
            stats.tcp.states@.contains_key(k) implies all.contains(
            Sample::TcpState(k, stats.tcp.states@[k]),
        ) by {
            let i = choose|i: int| 0 <= i < states@.len() && states@[i].0@ == k;
            assert(ss[i] == Sample::TcpState(k, stats.tcp.states@[k]));
            assert(all[2 + i] == ss[i]);
        }
        assert forall|k: Seq<char>| #[trigger]
            stats.transports@.contains_key(k) implies {
                let row = stats.transports@[k];
                &&& all.contains(Sample::Transport(lowercase_text(k), Family::Total, row.total))
                &&& all.contains(Sample::Transport(lowercase_text(k), Family::Ipv4, row.ipv4))
                &&& all.contains(Sample::Transport(lowercase_text(k), Family::Ipv6, row.ipv6))
            } by {
            let i = choose|i: int| 0 <= i < rows@.len() && rows@[i].0@ == k;
            let cells = row_samples(lowercase_text(k), stats.transports@[k]);
            assert(ts[3 * i] == cells[0]);
            assert(ts[3 * i + 1] == cells[1]);
            assert(ts[3 * i + 2] == cells[2]);
            assert(all[2 + ss.len() + 3 * i] == ts[3 * i]);
            assert(all[2 + ss.len() + 3 * i + 1] == ts[3 * i + 1]);
            assert(all[2 + ss.len() + 3 * i + 2] == ts[3 * i + 2]);
        }
    }
    out
}

/// The updates after a failed scrape: success is 0, nothing else changes.
pub fn scrape_failed() -> (r: Vec<GaugeUpdate>)
    ensures
        samples(r@) == seq![Sample::LastScrapeSuccess(0)],
{
    let mut r: Vec<GaugeUpdate> = Vec::new();
    r.push(GaugeUpdate::LastScrapeSuccess(0));
    assert(samples(r@) =~= seq![Sample::LastScrapeSuccess(0)]);
    r
}

/// The time between scrapes, in seconds: as requested, but at least one.
pub fn refresh_interval_secs(requested: u64) -> (r: u64)
    ensures
        r == if requested < 1 {
            1
        } else {
            requested
        },
{
    if requested < 1 {
        1
    } else {
        requested
    }
}

} // verus!
