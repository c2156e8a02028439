//! The statistics that `ss -s` reports, and the errors of reading them.
use vstd::prelude::*;
use vstd::std_specs::convert::FromSpecImpl;

use crate::label_map::LabelMap;

verus! {

/// Declares `std::io::Error`, which [`Error::Spawn`] carries; nothing is
/// stated of its values.
#[verifier::external_type_specification]
#[verifier::external_body]
pub struct ExIoError(std::io::Error);

/// Errors produced when collecting socket statistics.
#[derive(Debug)]
pub enum Error {
    /// `ss -s` could not be run.
    Spawn(std::io::Error),
    /// `ss -s` exited with a non-zero status.
    NonZeroExit { status: i32, stderr: String },
    /// The output of `ss -s` could not be parsed.
    Parse(String),
}

impl From<std::io::Error> for Error {
    /// An error of running `ss -s`.
    fn from(e: std::io::Error) -> (r: Self) {
        Error::Spawn(e)
    }
}

impl FromSpecImpl<std::io::Error> for Error {
    open spec fn obeys_from_spec() -> bool {
        true
    }

    open spec fn from_spec(e: std::io::Error) -> Self {
        Error::Spawn(e)
    }
}

/// `e` is a parse error with message `m`.
pub open spec fn is_parse_error(e: Error, m: Seq<char>) -> bool {
    e matches Error::Parse(t) && t@ == m
}

/// The result `r` is what `expected` describes: the same value, or a
/// parse error with the described message.
pub open spec fn agrees<T: View>(r: Result<T, Error>, expected: Result<T::V, Seq<char>>) -> bool {
    match r {
        Ok(v) => expected == Ok::<T::V, Seq<char>>(v@),
        Err(e) => expected matches Err(m) && is_parse_error(e, m),
    }
}

/// A parse error whose message is `lead` followed by `subject`.
pub fn message_error(lead: &str, subject: &str) -> (e: Error)
    ensures
        is_parse_error(e, lead@ + subject@),
{
    let mut m = lead.to_owned();
    m.append(subject);
    Error::Parse(m)
}

/// A row of the `Transport` table: each transport (RAW, UDP, TCP, INET,
/// FRAG) has a total and a per-address-family breakdown.
#[derive(Clone, Copy, Debug, PartialEq, Eq, Structural)]
pub struct TransportRow {
    pub total: u64,
    pub ipv4: u64,
    pub ipv6: u64,
}

impl View for TransportRow {
    type V = TransportRow;

    open spec fn view(&self) -> TransportRow {
        *self
    }
}

impl Default for TransportRow {
    fn default() -> (r: Self)
        ensures
            r == (TransportRow { total: 0, ipv4: 0, ipv6: 0 }),
    {
        TransportRow { total: 0, ipv4: 0, ipv6: 0 }
    }
}

/// TCP socket counts broken down by connection state, as reported on the
/// `TCP:` line of `ss -s`.
#[derive(Clone, Debug, PartialEq, Eq)]
pub struct TcpStats {
    /// Total TCP sockets (the number before the parenthesised breakdown).
    pub total: u64,
    /// Per-state counts, keyed by the labels that `ss` uses (`estab`,
    /// `closed`, `orphaned`, `timewait`, `synrecv`, ...).
    pub states: LabelMap<u64>,
}

/// What a [`TcpStats`] holds.
pub struct TcpModel {
    pub total: u64,
    pub states: Map<Seq<char>, u64>,
}

impl View for TcpStats {
    type V = TcpModel;

    open spec fn view(&self) -> TcpModel {
        TcpModel { total: self.total, states: self.states@ }
    }
}

impl Default for TcpStats {
    fn default() -> (r: Self)
        ensures
            r@ == (TcpModel { total: 0, states: Map::empty() }),
    {
        TcpStats { total: 0, states: LabelMap::new() }
    }
}

/// Parsed `ss -s` output.
#[derive(Clone, Debug, PartialEq, Eq)]
pub struct SocketStats {
    /// `Total:` line: total sockets across all transports.
    pub total: u64,
    /// `TCP:` line: TCP totals and state breakdown.
    pub tcp: TcpStats,
    /// Transport table rows keyed by transport name (`RAW`, `UDP`, ...).
    pub transports: LabelMap<TransportRow>,
}

/// What a [`SocketStats`] holds.
pub struct StatsModel {
    pub total: u64,
    pub tcp: TcpModel,
    pub transports: Map<Seq<char>, TransportRow>,
}

impl View for SocketStats {
    type V = StatsModel;

    open spec fn view(&self) -> StatsModel {
        StatsModel { total: self.total, tcp: self.tcp@, transports: self.transports@ }
    }
}

/// The statistics of an output that has none of the lines read.
pub open spec fn empty_stats() -> StatsModel {
    StatsModel {
        total: 0,
        tcp: TcpModel { total: 0, states: Map::empty() },
        transports: Map::empty(),
    }
}

impl Default for SocketStats {
    fn default() -> (r: Self)
        ensures
            r@ == empty_stats(),
    {
        SocketStats { total: 0, tcp: TcpStats::default(), transports: LabelMap::new() }
    }
}

} // verus!
