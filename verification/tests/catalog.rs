use network_analysis::categories::{
    all_categories, all_encryptions, all_vpn, catalog_pairs, catalog_pairs_for,
    category_index_exec, encryption_offset_exec, DataCategory, Encryption, ToPath, VPN,
};
use network_analysis::data_structure::shard_path;

#[test]
fn catalog_has_thirty_five_distinct_pairs() {
    let pairs = catalog_pairs();
    assert_eq!(pairs.len(), 35);
    for i in 0..pairs.len() {
        for j in 0..i {
            assert_ne!(pairs[i], pairs[j]);
        }
    }
}

#[test]
fn catalog_covers_every_combination() {
    let pairs = catalog_pairs();
    for e in all_encryptions() {
        for c in all_categories() {
            assert!(pairs.iter().any(|p| *p == (e, c)));
        }
    }
    assert_eq!(pairs[0], (Encryption::NonVPN, DataCategory::Mail));
    assert_eq!(
        pairs[34],
        (Encryption::VPN(VPN::WireGuard), DataCategory::Streaming)
    );
}

#[test]
fn restricted_catalog_selector() {
    let only = catalog_pairs_for(Encryption::VPN(VPN::SSTP));
    assert_eq!(only.len(), 5);
    assert_eq!(
        only[0],
        (Encryption::VPN(VPN::SSTP), DataCategory::Mail)
    );
    assert_eq!(
        only[4],
        (Encryption::VPN(VPN::SSTP), DataCategory::Streaming)
    );
    assert!(only.iter().all(|p| p.0 == Encryption::VPN(VPN::SSTP)));
}

#[test]
fn variant_orders() {
    assert_eq!(all_categories().len(), 5);
    assert_eq!(all_vpn().len(), 6);
    assert_eq!(all_encryptions().len(), 7);
    assert_eq!(category_index_exec(DataCategory::Mail), 0);
    assert_eq!(category_index_exec(DataCategory::Streaming), 4);
    assert_eq!(encryption_offset_exec(Encryption::NonVPN), 0);
    assert_eq!(encryption_offset_exec(Encryption::VPN(VPN::L2TP)), 1);
    assert_eq!(encryption_offset_exec(Encryption::VPN(VPN::WireGuard)), 6);
}

#[test]
fn path_components() {
    assert_eq!(VPN::L2TP.path(), "L2TP");
    assert_eq!(VPN::L2TPIP.path(), "L2TP IPsec");
    assert_eq!(VPN::OpenVPN.path(), "OpenVPN");
    assert_eq!(VPN::PPTP.path(), "PPTP");
    assert_eq!(VPN::SSTP.path(), "SSTP");
    assert_eq!(VPN::WireGuard.path(), "WireGuard");
    assert_eq!(DataCategory::Mail.path(), "mail.json");
    assert_eq!(DataCategory::Meet.path(), "meet.json");
    assert_eq!(DataCategory::NonStreaming.path(), "non_streaming.json");
    assert_eq!(DataCategory::SSH.path(), "ssh.json");
    assert_eq!(DataCategory::Streaming.path(), "streaming.json");
}

#[test]
fn shard_paths() {
    assert_eq!(
        shard_path(Encryption::NonVPN, DataCategory::Mail),
        "dataset/Non VPN/mail.json"
    );
    assert_eq!(
        shard_path(Encryption::VPN(VPN::L2TPIP), DataCategory::SSH),
        "dataset/VPN/L2TP IPsec/ssh.json"
    );
    assert_eq!(
        shard_path(Encryption::VPN(VPN::WireGuard), DataCategory::Streaming),
        "dataset/VPN/WireGuard/streaming.json"
    );
}
