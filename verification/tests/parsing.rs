use network_analysis::categories::{IpProtocol, PacketDirection};
use network_analysis::data_structure::build_shard;
use network_analysis::categories::{DataCategory, Encryption};
use network_analysis::numeric::{parse_flags, parse_i32, parse_unsigned};
use network_analysis::parse_data::{
    generate_packet, generate_packets, generate_tcp_packets, record_from_raw, records_from_raw,
    FieldName, Packet, ProtocolTag, RawData, RecordError, ShardError,
};
use network_analysis::timestamp::{duration_ms, parse_timestamp};

fn base_entry(bytes: &str, ihl: Option<&str>, packets: &str, start: &str, end: &str) -> Packet {
    Packet {
        bytes: bytes.to_string(),
        ip_header_length: ihl.map(|s| s.to_string()),
        packets: packets.to_string(),
        tcp_ack_number: None,
        tcp_header_len: None,
        tcp_flags: None,
        tcp_seq_number: None,
        timestamp_start: start.to_string(),
        timestamp_end: end.to_string(),
    }
}

fn tcp_entry(
    bytes: &str,
    ihl: Option<&str>,
    packets: &str,
    ack: Option<&str>,
    header: Option<&str>,
    flags: Option<&str>,
    seq: Option<&str>,
    start: &str,
    end: &str,
) -> Packet {
    Packet {
        bytes: bytes.to_string(),
        ip_header_length: ihl.map(|s| s.to_string()),
        packets: packets.to_string(),
        tcp_ack_number: ack.map(|s| s.to_string()),
        tcp_header_len: header.map(|s| s.to_string()),
        tcp_flags: flags.map(|s| s.to_string()),
        tcp_seq_number: seq.map(|s| s.to_string()),
        timestamp_start: start.to_string(),
        timestamp_end: end.to_string(),
    }
}

#[test]
fn unsigned_parsing() {
    assert_eq!(parse_unsigned("0", 255), Some(0));
    assert_eq!(parse_unsigned("255", 255), Some(255));
    assert_eq!(parse_unsigned("256", 255), None);
    assert_eq!(parse_unsigned("+17", 255), Some(17));
    assert_eq!(parse_unsigned("", 255), None);
    assert_eq!(parse_unsigned("+", 255), None);
    assert_eq!(parse_unsigned("12a", 255), None);
    assert_eq!(parse_unsigned(" 12", 255), None);
    assert_eq!(parse_unsigned("00042", 65535), Some(42));
    assert_eq!(parse_unsigned("4294967295", 4294967295), Some(4294967295));
    assert_eq!(parse_unsigned("4294967296", 4294967295), None);
    assert_eq!(
        parse_unsigned("99999999999999999999999999", 4294967295),
        None
    );
}

#[test]
fn signed_parsing() {
    assert_eq!(parse_i32("120"), Some(120));
    assert_eq!(parse_i32("-60"), Some(-60));
    assert_eq!(parse_i32("+60"), Some(60));
    assert_eq!(parse_i32("-0"), Some(0));
    assert_eq!(parse_i32("2147483647"), Some(2147483647));
    assert_eq!(parse_i32("2147483648"), None);
    assert_eq!(parse_i32("-2147483648"), Some(-2147483648));
    assert_eq!(parse_i32("-2147483649"), None);
    assert_eq!(parse_i32("--1"), None);
    assert_eq!(parse_i32(""), None);
    assert_eq!(parse_i32("-"), None);
}

#[test]
fn flags_parsing() {
    assert_eq!(parse_flags("00010000"), Some(16));
    assert_eq!(parse_flags("11111111"), Some(255));
    assert_eq!(parse_flags("0"), Some(0));
    assert_eq!(parse_flags("1"), Some(1));
    assert_eq!(parse_flags("0000000011111111"), Some(255));
    assert_eq!(parse_flags("100000000"), None);
    assert_eq!(parse_flags("00010002"), None);
    assert_eq!(parse_flags(""), None);
    assert_eq!(parse_flags("+1"), None);
}

#[test]
fn timestamp_parsing() {
    assert!(parse_timestamp("2024-01-01 00:00:00").is_some());
    assert!(parse_timestamp("2024-01-01 00:00:00.000").is_some());
    assert!(parse_timestamp("2024-01-01 00:00:00.123456789").is_some());
    // ten fraction digits are beyond the format
    assert!(parse_timestamp("2024-01-01 00:00:00.1234567890").is_none());
    // a bare dot carries no fraction
    assert!(parse_timestamp("2024-01-01 00:00:00.").is_none());
    assert!(parse_timestamp("2024-13-01 00:00:00").is_none());
    assert!(parse_timestamp("2024-00-01 00:00:00").is_none());
    assert!(parse_timestamp("2024-01-32 00:00:00").is_none());
    assert!(parse_timestamp("2024-01-00 00:00:00").is_none());
    assert!(parse_timestamp("2024-01-01 24:00:00").is_none());
    assert!(parse_timestamp("2024-01-01 00:60:00").is_none());
    assert!(parse_timestamp("2024-01-01 00:00:60").is_none());
    assert!(parse_timestamp("2024-01-01T00:00:00").is_none());
    assert!(parse_timestamp("2024-1-01 00:00:00").is_none());
    // leap years: 2024 yes, 2023 no, 1900 no, 2000 yes
    assert!(parse_timestamp("2024-02-29 12:00:00").is_some());
    assert!(parse_timestamp("2023-02-29 12:00:00").is_none());
    assert!(parse_timestamp("1900-02-29 12:00:00").is_none());
    assert!(parse_timestamp("2000-02-29 12:00:00").is_some());
}

#[test]
fn durations() {
    let a = parse_timestamp("2024-01-01 00:00:00.000").unwrap();
    let b = parse_timestamp("2024-01-01 00:00:00.050").unwrap();
    assert_eq!(duration_ms(&b, &a), 50);
    assert_eq!(duration_ms(&a, &b), -50);

    let c = parse_timestamp("1970-01-01 00:00:00").unwrap();
    let d = parse_timestamp("1970-01-02 00:00:00").unwrap();
    assert_eq!(duration_ms(&d, &c), 86_400_000);

    let e = parse_timestamp("2023-12-31 23:59:59").unwrap();
    let f = parse_timestamp("2024-01-01 00:00:00").unwrap();
    assert_eq!(duration_ms(&f, &e), 1000);

    // a leap day lies between these two instants
    let g = parse_timestamp("2024-02-28 00:00:00").unwrap();
    let h = parse_timestamp("2024-03-01 00:00:00").unwrap();
    assert_eq!(duration_ms(&h, &g), 2 * 86_400_000);

    // sub-millisecond parts truncate the difference toward zero
    let i = parse_timestamp("2024-01-01 00:00:00.0006").unwrap();
    let j = parse_timestamp("2024-01-01 00:00:00.0014").unwrap();
    assert_eq!(duration_ms(&j, &i), 0);
    assert_eq!(duration_ms(&i, &j), 0);
    let k = parse_timestamp("2024-01-01 00:00:00.0004").unwrap();
    let l = parse_timestamp("2024-01-01 00:00:00.0016").unwrap();
    assert_eq!(duration_ms(&l, &k), 1);
}

#[test]
fn direction_follows_sign() {
    let out = generate_packet(&base_entry(
        "120",
        Some("20"),
        "1",
        "2024-01-01 00:00:00.000",
        "2024-01-01 00:00:00.050",
    ))
    .unwrap();
    assert!(matches!(out.direction, PacketDirection::Outgoing));
    assert_eq!(out.bytes, 120);
    assert_eq!(out.packet_duration, 50);
    assert_eq!(out.ip_header_length, 20);
    assert_eq!(out.packets, 1);

    let inc = generate_packet(&base_entry(
        "-60",
        Some("20"),
        "1",
        "2024-01-01 00:00:00.000",
        "2024-01-01 00:00:00.010",
    ))
    .unwrap();
    assert!(matches!(inc.direction, PacketDirection::Incoming));
    assert_eq!(inc.bytes, 60);
    assert_eq!(inc.packet_duration, 10);

    let zero = generate_packet(&base_entry(
        "0",
        Some("20"),
        "1",
        "2024-01-01 00:00:00",
        "2024-01-01 00:00:00",
    ))
    .unwrap();
    assert!(matches!(zero.direction, PacketDirection::Outgoing));
    assert_eq!(zero.bytes, 0);

    let min = generate_packet(&base_entry(
        "-2147483648",
        Some("20"),
        "1",
        "2024-01-01 00:00:00",
        "2024-01-01 00:00:00",
    ))
    .unwrap();
    assert!(matches!(min.direction, PacketDirection::Incoming));
    assert_eq!(min.bytes, 2147483648);
}

#[test]
fn missing_header_length_is_filtered() {
    let entries = vec![
        base_entry(
            "10",
            Some("20"),
            "1",
            "2024-01-01 00:00:00",
            "2024-01-01 00:00:01",
        ),
        base_entry(
            "not a number",
            None,
            "also bad",
            "2024-01-01 00:00:00",
            "2024-01-01 00:00:01",
        ),
        base_entry(
            "-30",
            Some("24"),
            "2",
            "2024-01-01 00:00:00",
            "2024-01-01 00:00:02",
        ),
    ];
    let parsed = generate_packets(&entries).unwrap();
    assert_eq!(parsed.len(), 2);
    assert_eq!(parsed[0].bytes, 10);
    assert_eq!(parsed[1].bytes, 30);
    assert_eq!(parsed[1].ip_header_length, 24);
}

#[test]
fn field_errors_are_reported() {
    let bad_bytes = base_entry(
        "12x",
        Some("20"),
        "1",
        "2024-01-01 00:00:00",
        "2024-01-01 00:00:01",
    );
    assert_eq!(
        generate_packets(&vec![bad_bytes]),
        Err(RecordError::FieldParse(FieldName::Bytes))
    );

    let bad_ihl = base_entry(
        "12",
        Some("999"),
        "1",
        "2024-01-01 00:00:00",
        "2024-01-01 00:00:01",
    );
    assert_eq!(
        generate_packets(&vec![bad_ihl]),
        Err(RecordError::FieldParse(FieldName::IpHeaderLength))
    );

    let bad_count = base_entry(
        "12",
        Some("20"),
        "256",
        "2024-01-01 00:00:00",
        "2024-01-01 00:00:01",
    );
    assert_eq!(
        generate_packets(&vec![bad_count]),
        Err(RecordError::FieldParse(FieldName::PacketCount))
    );

    let bad_start = base_entry(
        "12",
        Some("20"),
        "1",
        "2024-02-30 00:00:00",
        "2024-01-01 00:00:01",
    );
    assert_eq!(
        generate_packets(&vec![bad_start]),
        Err(RecordError::FieldParse(FieldName::TimestampStart))
    );

    let bad_end = base_entry(
        "12",
        Some("20"),
        "1",
        "2024-01-01 00:00:00",
        "2024-01-01 00:00",
    );
    assert_eq!(
        generate_packets(&vec![bad_end]),
        Err(RecordError::FieldParse(FieldName::TimestampEnd))
    );
}

#[test]
fn tcp_mandatory_fields() {
    let missing_flags = tcp_entry(
        "5",
        Some("20"),
        "1",
        Some("100"),
        Some("40"),
        None,
        Some("55"),
        "2024-01-01 00:00:00",
        "2024-01-01 00:00:01",
    );
    assert_eq!(
        generate_tcp_packets(&vec![missing_flags]),
        Err(RecordError::MissingProtocolField(FieldName::TcpFlags))
    );

    let bad_flags = tcp_entry(
        "5",
        Some("20"),
        "1",
        Some("100"),
        Some("40"),
        Some("00010002"),
        Some("55"),
        "2024-01-01 00:00:00",
        "2024-01-01 00:00:01",
    );
    assert_eq!(
        generate_tcp_packets(&vec![bad_flags]),
        Err(RecordError::FieldParse(FieldName::TcpFlags))
    );

    let missing_header = tcp_entry(
        "5",
        Some("20"),
        "1",
        Some("100"),
        None,
        Some("00010000"),
        Some("55"),
        "2024-01-01 00:00:00",
        "2024-01-01 00:00:01",
    );
    assert_eq!(
        generate_tcp_packets(&vec![missing_header]),
        Err(RecordError::MissingProtocolField(FieldName::TcpHeaderLen))
    );

    // an entry without an IP header length is dropped before its TCP
    // fields are looked at
    let dropped = tcp_entry(
        "5",
        None,
        "1",
        None,
        None,
        None,
        None,
        "2024-01-01 00:00:00",
        "2024-01-01 00:00:01",
    );
    assert_eq!(generate_tcp_packets(&vec![dropped]).unwrap().len(), 0);

    let good = tcp_entry(
        "-60",
        Some("20"),
        "1",
        Some("100"),
        Some("40"),
        Some("00010000"),
        Some("55"),
        "2024-01-01 00:00:00.000",
        "2024-01-01 00:00:00.010",
    );
    let parsed = generate_tcp_packets(&vec![good]).unwrap();
    assert_eq!(parsed.len(), 1);
    assert_eq!(parsed[0].tcp_flags, 16);
    assert_eq!(parsed[0].tcp_header_len, 40);
    assert_eq!(parsed[0].tcp_acknowledgment_number, 100);
    assert_eq!(parsed[0].tcp_sequence_number, 55);
    assert_eq!(parsed[0].base.bytes, 60);
    assert!(matches!(parsed[0].base.direction, PacketDirection::Incoming));
    assert_eq!(parsed[0].base.packet_duration, 10);
}

#[test]
fn record_dispatch_by_tag() {
    let entry = base_entry(
        "7",
        Some("20"),
        "1",
        "2024-01-01 00:00:00",
        "2024-01-01 00:00:01",
    );
    let make = |tag: ProtocolTag| RawData {
        ip_protocol: tag,
        port_destination: 443,
        port_source: 51000,
        packets: vec![entry.clone()],
    };
    let udp = record_from_raw(&make(ProtocolTag::Udp)).unwrap();
    assert!(matches!(udp, IpProtocol::Udp(_)));
    let gre = record_from_raw(&make(ProtocolTag::Gre)).unwrap();
    assert!(matches!(gre, IpProtocol::Gre(_)));
    let icmp = record_from_raw(&make(ProtocolTag::Icmp)).unwrap();
    assert!(matches!(icmp, IpProtocol::Icmp(_)));
    if let IpProtocol::Udp(d) = udp {
        assert_eq!(d.port_destination, 443);
        assert_eq!(d.port_source, 51000);
        assert_eq!(d.packets.len(), 1);
    }
}

#[test]
fn shard_errors_carry_the_record_index() {
    let good = RawData {
        ip_protocol: ProtocolTag::Udp,
        port_destination: 1,
        port_source: 2,
        packets: vec![base_entry(
            "7",
            Some("20"),
            "1",
            "2024-01-01 00:00:00",
            "2024-01-01 00:00:01",
        )],
    };
    let bad = RawData {
        ip_protocol: ProtocolTag::Tcp,
        port_destination: 3,
        port_source: 4,
        packets: vec![tcp_entry(
            "5",
            Some("20"),
            "1",
            None,
            Some("40"),
            Some("1"),
            Some("55"),
            "2024-01-01 00:00:00",
            "2024-01-01 00:00:01",
        )],
    };
    let result = records_from_raw(&vec![good.clone(), bad]);
    assert_eq!(
        result.unwrap_err(),
        ShardError::MissingMandatoryProtocolField {
            record: 1,
            field: FieldName::TcpAckNumber
        }
    );

    let ok = records_from_raw(&vec![good.clone()]).unwrap();
    assert_eq!(ok.len(), 1);

    let unparsable = RawData {
        ip_protocol: ProtocolTag::Gre,
        port_destination: 5,
        port_source: 6,
        packets: vec![base_entry(
            "eight",
            Some("20"),
            "1",
            "2024-01-01 00:00:00",
            "2024-01-01 00:00:01",
        )],
    };
    assert_eq!(
        records_from_raw(&vec![good, unparsable]).unwrap_err(),
        ShardError::FieldParseFailure {
            record: 1,
            field: FieldName::Bytes
        }
    );
}

#[test]
fn build_shard_labels() {
    let raw = vec![RawData {
        ip_protocol: ProtocolTag::Udp,
        port_destination: 1,
        port_source: 2,
        packets: vec![],
    }];
    let shard = build_shard(
        Encryption::VPN(network_analysis::categories::VPN::PPTP),
        DataCategory::SSH,
        &raw,
    )
    .unwrap();
    assert_eq!(
        shard.encryption,
        Encryption::VPN(network_analysis::categories::VPN::PPTP)
    );
    assert_eq!(shard.data_category, DataCategory::SSH);
    assert_eq!(shard.all_packets.len(), 1);
}
