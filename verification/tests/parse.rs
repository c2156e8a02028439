use socket_metrics_exporter::{parse, parse_tcp_line, TransportRow};

const SAMPLE: &str = "Total: 1740
TCP:   457 (estab 205, closed 162, orphaned 0, timewait 1)

Transport Total     IP        IPv6
RAW\t  0         0         0
UDP\t  18        17        1
TCP\t  295       285       10
INET\t  313       302       11
FRAG\t  0         0         0
";

#[test]
fn parses_total() {
    let s = parse(SAMPLE).unwrap();
    assert_eq!(s.total, 1740);
}

#[test]
fn parses_tcp_states() {
    let s = parse(SAMPLE).unwrap();
    assert_eq!(s.tcp.total, 457);
    assert_eq!(s.tcp.states.get("estab"), Some(&205));
    assert_eq!(s.tcp.states.get("closed"), Some(&162));
    assert_eq!(s.tcp.states.get("orphaned"), Some(&0));
    assert_eq!(s.tcp.states.get("timewait"), Some(&1));
}

#[test]
fn parses_transport_table() {
    let s = parse(SAMPLE).unwrap();
    assert_eq!(
        s.transports.get("UDP"),
        Some(&TransportRow {
            total: 18,
            ipv4: 17,
            ipv6: 1,
        })
    );
    assert_eq!(
        s.transports.get("TCP"),
        Some(&TransportRow {
            total: 295,
            ipv4: 285,
            ipv6: 10,
        })
    );
    assert_eq!(
        s.transports.get("INET"),
        Some(&TransportRow {
            total: 313,
            ipv4: 302,
            ipv6: 11,
        })
    );
    assert_eq!(
        s.transports.get("FRAG"),
        Some(&TransportRow {
            total: 0,
            ipv4: 0,
            ipv6: 0,
        })
    );
    assert_eq!(
        s.transports.get("RAW"),
        Some(&TransportRow {
            total: 0,
            ipv4: 0,
            ipv6: 0,
        })
    );
}

#[test]
fn tcp_line_without_breakdown() {
    let stats = parse_tcp_line("42").unwrap();
    assert_eq!(stats.total, 42);
    assert!(stats.states.is_empty());
}

#[test]
fn rejects_garbage() {
    assert!(parse("TCP:   not-a-number").is_err());
}
