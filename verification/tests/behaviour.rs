use socket_metrics_exporter::metrics::{
    refresh_interval_secs, scrape_failed, scrape_succeeded, Family, GaugeUpdate,
};
use socket_metrics_exporter::{
    parse, parse_tcp_line, parse_transport_row, parse_u64, Error, LabelMap, TransportRow,
};

fn message(e: Error) -> String {
    match e {
        Error::Parse(m) => m,
        other => panic!("not a parse error: {:?}", other),
    }
}

#[test]
fn integer_plain_and_signed() {
    assert_eq!(parse_u64("42").unwrap(), 42);
    assert_eq!(parse_u64("+7").unwrap(), 7);
    assert_eq!(parse_u64("007").unwrap(), 7);
    assert_eq!(parse_u64("18446744073709551615").unwrap(), u64::MAX);
}

#[test]
fn integer_rejections_carry_the_text() {
    assert_eq!(
        message(parse_u64("abc").unwrap_err()),
        "expected integer, got \"abc\": invalid digit found in string"
    );
    assert_eq!(
        message(parse_u64("").unwrap_err()),
        "expected integer, got \"\": cannot parse integer from empty string"
    );
    assert_eq!(
        message(parse_u64("18446744073709551616").unwrap_err()),
        "expected integer, got \"18446744073709551616\": number too large to fit in target type"
    );
    assert!(parse_u64("-1").is_err());
    assert!(parse_u64(" 1").is_err());
    assert!(parse_u64("+").is_err());
}

#[test]
fn tcp_breakdown_errors() {
    assert_eq!(
        message(parse_tcp_line("5 (estab 1, )").unwrap_err()),
        "missing state name in \" \""
    );
    assert_eq!(
        message(parse_tcp_line("5 (estab)").unwrap_err()),
        "missing state count in \"estab\""
    );
    assert_eq!(
        message(parse_tcp_line("x (estab 1)").unwrap_err()),
        "expected integer, got \"x\": invalid digit found in string"
    );
    assert_eq!(
        message(parse_tcp_line("5 (estab one)").unwrap_err()),
        "expected integer, got \"one\": invalid digit found in string"
    );
}

#[test]
fn tcp_breakdown_details() {
    let t = parse_tcp_line("3 (estab 1, estab 2))").unwrap();
    assert_eq!(t.total, 3);
    assert_eq!(t.states.len(), 1);
    assert_eq!(t.states.get("estab"), Some(&2));
    let t = parse_tcp_line("  9   ( synrecv 4 extra ,closed 0 )").unwrap();
    assert_eq!(t.total, 9);
    assert_eq!(t.states.get("synrecv"), Some(&4));
    assert_eq!(t.states.get("closed"), Some(&0));
    assert_eq!(t.states.get("estab"), None);
}

#[test]
fn transport_row_errors() {
    assert_eq!(
        message(parse_transport_row("").unwrap_err()),
        "empty transport row: \"\""
    );
    assert_eq!(
        message(parse_transport_row("RAW").unwrap_err()),
        "transport row missing total: \"RAW\""
    );
    assert_eq!(
        message(parse_transport_row("RAW 1").unwrap_err()),
        "transport row missing ipv4: \"RAW 1\""
    );
    assert_eq!(
        message(parse_transport_row("RAW 1 2").unwrap_err()),
        "transport row missing ipv6: \"RAW 1 2\""
    );
    assert_eq!(
        message(parse_transport_row("RAW x").unwrap_err()),
        "expected integer, got \"x\": invalid digit found in string"
    );
}

#[test]
fn transport_row_reads_four_words() {
    let (name, row) = parse_transport_row("UDP\t18  17 1 trailing").unwrap();
    assert_eq!(name, "UDP");
    assert_eq!(
        row,
        TransportRow {
            total: 18,
            ipv4: 17,
            ipv6: 1
        }
    );
}

#[test]
fn rows_need_the_header() {
    let s = parse("UDP 1 2 3\nTransport Total IP IPv6\nUDP 4 5 6\n").unwrap();
    assert_eq!(s.transports.len(), 1);
    assert_eq!(
        s.transports.get("UDP"),
        Some(&TransportRow {
            total: 4,
            ipv4: 5,
            ipv6: 6
        })
    );
    let s = parse("Total: 3\nUDP 1 2 3\n").unwrap();
    assert!(s.transports.is_empty());
}

#[test]
fn last_total_wins_and_crlf() {
    let s = parse("Total: 1\r\nTCP: 4\r\nTransport\r\nTotal: 2\r\n").unwrap();
    assert_eq!(s.total, 2);
    assert_eq!(s.tcp.total, 4);
    assert!(s.tcp.states.is_empty());
    assert!(s.transports.is_empty());
}

#[test]
fn blank_output_and_ignored_lines() {
    let s = parse("").unwrap();
    assert_eq!(s.total, 0);
    assert_eq!(s.tcp.total, 0);
    assert!(s.transports.is_empty());
    let s = parse(" \n\t\n").unwrap();
    assert_eq!(s.total, 0);
    let s = parse("Netid stuff 1 2\nTotal: 8").unwrap();
    assert_eq!(s.total, 8);
}

#[test]
fn trailing_newline_and_blank_lines_change_nothing() {
    let a = parse("Total: 5\nTransport\nRAW 1 1 0").unwrap();
    let b = parse("Total: 5\n  \nTransport\n\t\nRAW 1 1 0\n").unwrap();
    assert_eq!(a, b);
}

#[test]
fn errors_stop_the_parse() {
    assert_eq!(
        message(parse("Total: 1\nTransport\nRAW 1\nTotal: 2").unwrap_err()),
        "transport row missing ipv4: \"RAW 1\""
    );
    assert_eq!(
        message(parse("Total: many").unwrap_err()),
        "expected integer, got \"many\": invalid digit found in string"
    );
}

#[test]
fn label_maps_compare_as_maps() {
    let mut a: LabelMap<u64> = LabelMap::new();
    a.insert("x".to_string(), 1);
    a.insert("y".to_string(), 2);
    let mut b: LabelMap<u64> = LabelMap::new();
    b.insert("y".to_string(), 2);
    b.insert("x".to_string(), 1);
    assert!(a == b);
    let c = a.clone();
    assert!(c == a);
    b.insert("x".to_string(), 3);
    assert!(a != b);
    assert_eq!(b.get("x"), Some(&3));
    assert_eq!(b.len(), 2);
    assert_eq!(b.entries()[0].0, "y");
}

#[test]
fn successful_scrape_publishes_every_value() {
    let s = parse("Total: 10\nTCP: 4 (estab 3)\nTransport Total IP IPv6\nUDP 2 1 1\n").unwrap();
    let updates = scrape_succeeded(&s, 1234);
    assert_eq!(updates.len(), 8);
    assert!(matches!(updates[0], GaugeUpdate::SocketsTotal(10)));
    assert!(matches!(updates[1], GaugeUpdate::TcpTotal(4)));
    match &updates[2] {
        GaugeUpdate::TcpState { state, count } => {
            assert_eq!(state, "estab");
            assert_eq!(*count, 3);
        }
        other => panic!("unexpected {:?}", other),
    }
    let families = [Family::Total, Family::Ipv4, Family::Ipv6];
    let counts = [2, 1, 1];
    for k in 0..3 {
        match &updates[3 + k] {
            GaugeUpdate::Transport {
                transport,
                family,
                count,
            } => {
                assert_eq!(transport, "udp");
                assert_eq!(*family, families[k]);
                assert_eq!(*count, counts[k]);
            }
            other => panic!("unexpected {:?}", other),
        }
    }
    assert!(matches!(updates[6], GaugeUpdate::LastScrapeTimestamp(1234)));
    assert!(matches!(updates[7], GaugeUpdate::LastScrapeSuccess(1)));
    assert_eq!(Family::Ipv6.label(), "ipv6");
}

#[test]
fn failed_scrape_and_interval() {
    let updates = scrape_failed();
    assert_eq!(updates.len(), 1);
    assert!(matches!(updates[0], GaugeUpdate::LastScrapeSuccess(0)));
    assert_eq!(refresh_interval_secs(0), 1);
    assert_eq!(refresh_interval_secs(15), 15);
}

#[test]
fn io_errors_convert_and_defaults_are_empty() {
    let e: Error = std::io::Error::new(std::io::ErrorKind::NotFound, "no ss").into();
    assert!(matches!(e, Error::Spawn(_)));
    let s = socket_metrics_exporter::SocketStats::default();
    assert_eq!(s.total, 0);
    assert!(s.tcp.states.is_empty());
    assert!(s.transports.is_empty());
    assert_eq!(
        TransportRow::default(),
        TransportRow {
            total: 0,
            ipv4: 0,
            ipv6: 0
        }
    );
}
