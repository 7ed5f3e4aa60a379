use network_analysis::categories::{DataCategory, Encryption, IpProtocol, PacketDirection, VPN};
use network_analysis::data_structure::{build_shard, BasePacket, Data, MetadataWrapper, TcpPacket};
use network_analysis::parse_data::{Packet, ProtocolTag, RawData};
use network_analysis::dataset::NetworkDataset;
use network_analysis::encoder::{base_feature_row, encode, tcp_feature_row, NetworkTrafficBatcher};
use network_analysis::visualise::collect_data_hash;

fn base_packet(bytes: u32, direction: PacketDirection, duration: i64) -> BasePacket {
    BasePacket {
        bytes,
        direction,
        ip_header_length: 20,
        packets: 1,
        packet_duration: duration,
    }
}

fn udp_wrapper(
    encryption: Encryption,
    category: DataCategory,
    packets: Vec<BasePacket>,
) -> MetadataWrapper {
    MetadataWrapper {
        encryption,
        data_category: category,
        all_packets: vec![IpProtocol::Udp(Data {
            port_destination: 443,
            port_source: 51000,
            packets,
        })],
    }
}

#[test]
fn feature_row_layout() {
    let p = BasePacket {
        bytes: 120,
        direction: PacketDirection::Outgoing,
        ip_header_length: 20,
        packets: 3,
        packet_duration: 50,
    };
    let row = base_feature_row(51000, 443, &p);
    assert_eq!(row, vec![51000, 443, 3, 50, 20, 1, 120]);

    let q = BasePacket {
        bytes: 60,
        direction: PacketDirection::Incoming,
        ip_header_length: 24,
        packets: 2,
        packet_duration: -10,
    };
    let row2 = base_feature_row(1, 2, &q);
    assert_eq!(row2, vec![1, 2, 2, -10, 24, 0, 60]);

    let t = TcpPacket {
        base: q,
        tcp_header_len: 40,
        tcp_flags: 16,
        tcp_acknowledgment_number: 100,
        tcp_sequence_number: 55,
    };
    let row3 = tcp_feature_row(1, 2, &t);
    // the last value repeats the header length, by design
    assert_eq!(row3, vec![1, 2, 2, -10, 24, 0, 60, 16, 40, 100, 40]);
}

#[test]
fn row_widths_follow_the_protocol_tag() {
    let base = base_packet(10, PacketDirection::Outgoing, 5);
    let tcp = TcpPacket {
        base,
        tcp_header_len: 40,
        tcp_flags: 2,
        tcp_acknowledgment_number: 9,
        tcp_sequence_number: 8,
    };
    let wrapper = MetadataWrapper {
        encryption: Encryption::NonVPN,
        data_category: DataCategory::Meet,
        all_packets: vec![
            IpProtocol::Udp(Data {
                port_destination: 1,
                port_source: 2,
                packets: vec![base, base],
            }),
            IpProtocol::Tcp(Data {
                port_destination: 3,
                port_source: 4,
                packets: vec![tcp],
            }),
            IpProtocol::Gre(Data {
                port_destination: 5,
                port_source: 6,
                packets: vec![base],
            }),
            IpProtocol::Icmp(Data {
                port_destination: 7,
                port_source: 8,
                packets: vec![base],
            }),
        ],
    };
    let encoded = encode(&vec![wrapper]);
    assert_eq!(encoded.base_rows.len(), 4);
    for row in &encoded.base_rows {
        assert_eq!(row.len(), 7);
    }
    assert_eq!(encoded.tcp_rows.len(), 1);
    for row in &encoded.tcp_rows {
        assert_eq!(row.len(), 11);
    }
    assert_eq!(encoded.base_labels.len(), 4);
    assert_eq!(encoded.tcp_labels.len(), 1);
    // every row of the wrapper carries the wrapper's label pair
    assert!(encoded.base_labels.iter().all(|l| *l == (1, 0)));
    assert_eq!(encoded.tcp_labels[0], (1, 0));
}

#[test]
fn labels_follow_the_taxonomy() {
    let a = udp_wrapper(
        Encryption::NonVPN,
        DataCategory::Mail,
        vec![base_packet(1, PacketDirection::Outgoing, 0)],
    );
    let b = udp_wrapper(
        Encryption::VPN(VPN::WireGuard),
        DataCategory::Streaming,
        vec![base_packet(2, PacketDirection::Incoming, 0)],
    );
    let encoded = encode(&vec![a, b]);
    assert_eq!(encoded.base_labels, vec![(0, 0), (4, 6)]);
}

#[test]
fn min_max_normalization() {
    let batcher = NetworkTrafficBatcher::new();
    let rows = vec![vec![0, 5, -3], vec![10, 5, 7], vec![4, 5, 2]];
    let norm = batcher.min_max_norm(&rows, 3);
    // column 0 spans 0..10, column 2 spans -3..7, column 1 is degenerate
    assert_eq!(norm.denominators, vec![10, 1, 10]);
    assert_eq!(norm.numerators.len(), 3);
    assert_eq!(norm.numerators[0], vec![0, 0, 0]);
    assert_eq!(norm.numerators[1], vec![10, 0, 10]);
    assert_eq!(norm.numerators[2], vec![4, 0, 5]);
    // each non-degenerate column attains numerator 0 and the denominator,
    // so the normalized column spans exactly 0.0 to 1.0
    for j in [0usize, 2] {
        let col: Vec<i64> = norm.numerators.iter().map(|r| r[j]).collect();
        assert_eq!(*col.iter().min().unwrap(), 0);
        assert_eq!(*col.iter().max().unwrap(), norm.denominators[j]);
        let scaled: Vec<f64> = col
            .iter()
            .map(|v| *v as f64 / norm.denominators[j] as f64)
            .collect();
        assert_eq!(scaled.iter().cloned().fold(f64::MAX, f64::min), 0.0);
        assert_eq!(scaled.iter().cloned().fold(f64::MIN, f64::max), 1.0);
    }
    // the degenerate column carries the substitute 0 in every row
    assert!(norm.numerators.iter().all(|r| r[1] == 0));
}

#[test]
fn batch_normalizes_and_labels() {
    let batcher = NetworkTrafficBatcher::new();
    let wrapper = udp_wrapper(
        Encryption::VPN(VPN::L2TP),
        DataCategory::SSH,
        vec![
            base_packet(100, PacketDirection::Outgoing, 50),
            base_packet(300, PacketDirection::Incoming, 150),
        ],
    );
    let batch = batcher.batch(&vec![wrapper]);
    assert_eq!(batch.targets, vec![(3, 1), (3, 1)]);
    assert_eq!(batch.base_inputs.numerators.len(), 2);
    assert_eq!(batch.base_inputs.denominators.len(), 7);
    assert_eq!(batch.tcp_inputs.numerators.len(), 0);
    assert_eq!(batch.tcp_inputs.denominators.len(), 11);
    // ports and header lengths are equal across the two rows: degenerate
    // columns with the substitute everywhere; the byte column spans 200
    assert_eq!(batch.base_inputs.denominators[0], 1);
    assert_eq!(batch.base_inputs.denominators[6], 200);
    assert_eq!(batch.base_inputs.numerators[0][6], 0);
    assert_eq!(batch.base_inputs.numerators[1][6], 200);
    // the direction indicator column spans 0..1
    assert_eq!(batch.base_inputs.denominators[5], 1);
    assert_eq!(batch.base_inputs.numerators[0][5], 1);
    assert_eq!(batch.base_inputs.numerators[1][5], 0);
}

#[test]
fn to_base_packet_narrows_a_tcp_flow() {
    let base = base_packet(10, PacketDirection::Outgoing, 5);
    let flow = Data {
        port_destination: 443,
        port_source: 51000,
        packets: vec![
            TcpPacket {
                base,
                tcp_header_len: 40,
                tcp_flags: 2,
                tcp_acknowledgment_number: 9,
                tcp_sequence_number: 8,
            },
        ],
    };
    let narrowed = flow.to_base_packet();
    assert_eq!(narrowed.port_source, 51000);
    assert_eq!(narrowed.port_destination, 443);
    assert_eq!(narrowed.packets, vec![base]);
}

#[test]
fn dataset_length_and_access() {
    let a = udp_wrapper(
        Encryption::NonVPN,
        DataCategory::Mail,
        vec![
            base_packet(1, PacketDirection::Outgoing, 0),
            base_packet(2, PacketDirection::Outgoing, 0),
        ],
    );
    let b = udp_wrapper(
        Encryption::NonVPN,
        DataCategory::Meet,
        vec![base_packet(3, PacketDirection::Incoming, 0)],
    );
    let ds = NetworkDataset::new(vec![a, b]);
    assert_eq!(ds.len(), 3);
    assert_eq!(ds.get(0).unwrap().data_category, DataCategory::Mail);
    assert_eq!(ds.get(1).unwrap().data_category, DataCategory::Meet);
    assert!(ds.get(2).is_none());
}

#[test]
fn normalization_of_an_empty_matrix() {
    let batcher = NetworkTrafficBatcher::new();
    let rows: Vec<Vec<i64>> = vec![];
    let norm = batcher.min_max_norm(&rows, 7);
    assert_eq!(norm.numerators.len(), 0);
    assert_eq!(norm.denominators, vec![1, 1, 1, 1, 1, 1, 1]);
}

#[test]
fn split_is_deterministic_and_partitions() {
    let packets: Vec<BasePacket> = (0..40)
        .map(|k| base_packet(k, PacketDirection::Outgoing, k as i64))
        .collect();
    let wrapper = udp_wrapper(Encryption::NonVPN, DataCategory::Mail, packets);
    let n: usize = 40;

    let (train1, valid1) = NetworkDataset::new(vec![wrapper.clone()]).split(4, 5, 42);
    let (train2, valid2) = NetworkDataset::new(vec![wrapper.clone()]).split(4, 5, 42);
    assert_eq!(train1, train2);
    assert_eq!(valid1, valid2);

    assert_eq!(train1.len(), n * 4 / 5);
    assert_eq!(valid1.len(), n - n * 4 / 5);

    // disjoint and exhaustive over [0, n)
    let mut seen = vec![0usize; n];
    for &i in train1.iter().chain(valid1.iter()) {
        assert!(i < n);
        seen[i] += 1;
    }
    assert!(seen.iter().all(|&c| c == 1));

    // the seeded permutation is not the identity
    let mut concatenated: Vec<usize> = train1.clone();
    concatenated.extend(valid1.iter().cloned());
    let identity: Vec<usize> = (0..n).collect();
    assert_ne!(concatenated, identity);

    // another seed gives another permutation
    let (train3, _) = NetworkDataset::new(vec![wrapper]).split(4, 5, 43);
    assert_ne!(train1, train3);
}

#[test]
fn histogram_counts_by_catalog_entry() {
    let a = udp_wrapper(
        Encryption::NonVPN,
        DataCategory::Mail,
        vec![
            base_packet(100, PacketDirection::Outgoing, 0),
            base_packet(100, PacketDirection::Incoming, 0),
            base_packet(200, PacketDirection::Outgoing, 0),
        ],
    );
    // a second shard with the same labels merges into the same entry
    let b = udp_wrapper(
        Encryption::NonVPN,
        DataCategory::Mail,
        vec![base_packet(100, PacketDirection::Outgoing, 0)],
    );
    let c = MetadataWrapper {
        encryption: Encryption::VPN(VPN::L2TP),
        data_category: DataCategory::Mail,
        all_packets: vec![IpProtocol::Tcp(Data {
            port_destination: 1,
            port_source: 2,
            packets: vec![TcpPacket {
                base: base_packet(100, PacketDirection::Outgoing, 0),
                tcp_header_len: 40,
                tcp_flags: 0,
                tcp_acknowledgment_number: 0,
                tcp_sequence_number: 0,
            }],
        })],
    };
    let hist = collect_data_hash(&vec![a, b, c]);
    assert_eq!(hist.len(), 35);
    // NonVPN × Mail is entry 0; VPN(L2TP) × Mail is entry 5
    assert_eq!(hist[0].get(&100), Some(&3));
    assert_eq!(hist[0].get(&200), Some(&1));
    assert_eq!(hist[0].get(&300), None);
    assert_eq!(hist[5].get(&100), Some(&1));
    for p in 1..5 {
        assert!(hist[p].is_empty());
    }
    for p in 6..35 {
        assert!(hist[p].is_empty());
    }
}

#[test]
fn two_record_scenario() {
    let udp_record = RawData {
        ip_protocol: ProtocolTag::Udp,
        port_destination: 443,
        port_source: 51000,
        packets: vec![Packet {
            bytes: "120".to_string(),
            ip_header_length: Some("20".to_string()),
            packets: "1".to_string(),
            tcp_ack_number: None,
            tcp_header_len: None,
            tcp_flags: None,
            tcp_seq_number: None,
            timestamp_start: "2024-01-01 00:00:00.000".to_string(),
            timestamp_end: "2024-01-01 00:00:00.050".to_string(),
        }],
    };
    let tcp_record = RawData {
        ip_protocol: ProtocolTag::Tcp,
        port_destination: 22,
        port_source: 50111,
        packets: vec![Packet {
            bytes: "-60".to_string(),
            ip_header_length: Some("20".to_string()),
            packets: "1".to_string(),
            tcp_ack_number: Some("100".to_string()),
            tcp_header_len: Some("40".to_string()),
            tcp_flags: Some("00010000".to_string()),
            tcp_seq_number: Some("55".to_string()),
            timestamp_start: "2024-01-01 00:00:00.000".to_string(),
            timestamp_end: "2024-01-01 00:00:00.010".to_string(),
        }],
    };
    let shard = build_shard(
        Encryption::NonVPN,
        DataCategory::Meet,
        &vec![udp_record, tcp_record],
    )
    .unwrap();
    assert_eq!(shard.all_packets.len(), 2);
    match &shard.all_packets[0] {
        IpProtocol::Udp(d) => {
            assert_eq!(d.port_destination, 443);
            assert_eq!(d.port_source, 51000);
            assert_eq!(d.packets.len(), 1);
            assert!(matches!(d.packets[0].direction, PacketDirection::Outgoing));
            assert_eq!(d.packets[0].bytes, 120);
            assert_eq!(d.packets[0].packet_duration, 50);
        }
        _ => panic!("first record should be UDP"),
    }
    match &shard.all_packets[1] {
        IpProtocol::Tcp(d) => {
            assert_eq!(d.port_destination, 22);
            assert_eq!(d.port_source, 50111);
            assert_eq!(d.packets.len(), 1);
            assert!(matches!(
                d.packets[0].base.direction,
                PacketDirection::Incoming
            ));
            assert_eq!(d.packets[0].base.bytes, 60);
            assert_eq!(d.packets[0].base.packet_duration, 10);
            assert_eq!(d.packets[0].tcp_flags, 16);
        }
        _ => panic!("second record should be TCP"),
    }
    let encoded = encode(&vec![shard.clone()]);
    assert_eq!(encoded.base_rows.len(), 1);
    assert_eq!(encoded.base_rows[0].len(), 7);
    assert_eq!(encoded.tcp_rows.len(), 1);
    assert_eq!(encoded.tcp_rows[0].len(), 11);
}
