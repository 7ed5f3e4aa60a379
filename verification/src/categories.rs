//! The closed taxonomy of the dataset: encryption posture, VPN technology,
//! application traffic class, packet direction and transport protocol, plus
//! the catalog that resolves every `(Encryption, DataCategory)` combination
//! to the path of its source file.

use vstd::prelude::*;

verus! {

use crate::data_structure::{BasePacket, Data, TcpPacket};

/// Traffic's encryption posture: unencrypted capture or one fixed VPN
/// technology.
#[derive(Clone, Copy, Debug, PartialEq, Eq, Hash, Structural)]
pub enum Encryption {
    VPN(VPN),
    NonVPN,
}

/// The two top-level branches of the catalog's directory layout.
#[derive(Clone, Copy, Debug, PartialEq, Eq, Structural)]
pub enum EncryptionRepresentation {
    VPN,
    NonVPN,
}

/// The six named VPN technologies of the taxonomy.
#[derive(Clone, Copy, Debug, PartialEq, Eq, Hash, Structural)]
pub enum VPN {
    L2TP,
    L2TPIP,
    OpenVPN,
    PPTP,
    SSTP,
    WireGuard,
}

/// The five application traffic classes of the taxonomy.
#[derive(Clone, Copy, Debug, PartialEq, Eq, Hash, Structural)]
pub enum DataCategory {
    Mail,
    Meet,
    NonStreaming,
    SSH,
    Streaming,
}

/// Flow direction of one packet-group sample; never parsed directly, always
/// derived from the sign of the raw byte count.
#[derive(Clone, Copy, Debug, PartialEq, Eq, Structural)]
pub enum PacketDirection {
    Outgoing,
    Incoming,
}

/// A protocol-tagged flow: the TCP tag carries the richer packet shape, the
/// other three tags carry base packets only.
#[derive(Clone, Debug)]
pub enum IpProtocol {
    Udp(Data<BasePacket>),
    Tcp(Data<TcpPacket>),
    Gre(Data<BasePacket>),
    Icmp(Data<BasePacket>),
}

/// Position of a VPN technology in the fixed variant order.
pub open spec fn vpn_index(v: VPN) -> int {
    match v {
        VPN::L2TP => 0,
        VPN::L2TPIP => 1,
        VPN::OpenVPN => 2,
        VPN::PPTP => 3,
        VPN::SSTP => 4,
        VPN::WireGuard => 5,
    }
}

/// Position of a traffic class in the fixed variant order.
pub open spec fn category_index(c: DataCategory) -> int {
    match c {
        DataCategory::Mail => 0,
        DataCategory::Meet => 1,
        DataCategory::NonStreaming => 2,
        DataCategory::SSH => 3,
        DataCategory::Streaming => 4,
    }
}

/// Label offset of an encryption posture: 0 for NonVPN, the VPN technology's
/// index plus one otherwise.
pub open spec fn encryption_offset(e: Encryption) -> int {
    match e {
        Encryption::NonVPN => 0,
        Encryption::VPN(v) => vpn_index(v) + 1,
    }
}

/// The encryption posture with a given label offset in `0..7`.
pub open spec fn encryption_of_offset(i: int) -> Encryption {
    if i == 0 {
        Encryption::NonVPN
    } else {
        Encryption::VPN(vpn_of_index(i - 1))
    }
}

/// The VPN technology at a given position in the fixed variant order.
pub open spec fn vpn_of_index(i: int) -> VPN {
    if i == 0 {
        VPN::L2TP
    } else if i == 1 {
        VPN::L2TPIP
    } else if i == 2 {
        VPN::OpenVPN
    } else if i == 3 {
        VPN::PPTP
    } else if i == 4 {
        VPN::SSTP
    } else {
        VPN::WireGuard
    }
}

/// The traffic class at a given position in the fixed variant order.
pub open spec fn category_of_index(i: int) -> DataCategory {
    if i == 0 {
        DataCategory::Mail
    } else if i == 1 {
        DataCategory::Meet
    } else if i == 2 {
        DataCategory::NonStreaming
    } else if i == 3 {
        DataCategory::SSH
    } else {
        DataCategory::Streaming
    }
}

/// The position of a traffic class in the fixed variant order, as a label.
pub fn category_index_exec(c: DataCategory) -> (r: u8)
    ensures
        r as int == category_index(c),
{
    match c {
        DataCategory::Mail => 0,
        DataCategory::Meet => 1,
        DataCategory::NonStreaming => 2,
        DataCategory::SSH => 3,
        DataCategory::Streaming => 4,
    }
}

/// The label offset of an encryption posture: 0 for NonVPN, the VPN
/// technology's index plus one otherwise.
pub fn encryption_offset_exec(e: Encryption) -> (r: u8)
    ensures
        r as int == encryption_offset(e),
{
    match e {
        Encryption::NonVPN => 0,
        Encryption::VPN(VPN::L2TP) => 1,
        Encryption::VPN(VPN::L2TPIP) => 2,
        Encryption::VPN(VPN::OpenVPN) => 3,
        Encryption::VPN(VPN::PPTP) => 4,
        Encryption::VPN(VPN::SSTP) => 5,
        Encryption::VPN(VPN::WireGuard) => 6,
    }
}

/// Resolution of a taxonomy member to its fixed file-system path component.
pub trait ToPath {
    /// The path component, as a sequence of characters.
    spec fn path_spec(&self) -> Seq<char>;

    /// The path component; total over the closed enumeration, no failure mode.
    fn path(&self) -> (s: &'static str)
        ensures
            s@ == self.path_spec(),
    ;
}

impl ToPath for VPN {
    open spec fn path_spec(&self) -> Seq<char> {
        match *self {
            VPN::L2TP => "L2TP"@,
            VPN::L2TPIP => "L2TP IPsec"@,
            VPN::OpenVPN => "OpenVPN"@,
            VPN::PPTP => "PPTP"@,
            VPN::SSTP => "SSTP"@,
            VPN::WireGuard => "WireGuard"@,
        }
    }

    fn path(&self) -> (s: &'static str)
        ensures
            s@ == self.path_spec(),
    {
        match *self {
            VPN::L2TP => "L2TP",
            VPN::L2TPIP => "L2TP IPsec",
            VPN::OpenVPN => "OpenVPN",
            VPN::PPTP => "PPTP",
            VPN::SSTP => "SSTP",
            VPN::WireGuard => "WireGuard",
        }
    }
}

impl ToPath for DataCategory {
    open spec fn path_spec(&self) -> Seq<char> {
        match *self {
            DataCategory::Mail => "mail.json"@,
            DataCategory::Meet => "meet.json"@,
            DataCategory::NonStreaming => "non_streaming.json"@,
            DataCategory::SSH => "ssh.json"@,
            DataCategory::Streaming => "streaming.json"@,
        }
    }

    fn path(&self) -> (s: &'static str)
        ensures
            s@ == self.path_spec(),
    {
        match *self {
            DataCategory::Mail => "mail.json",
            DataCategory::Meet => "meet.json",
            DataCategory::NonStreaming => "non_streaming.json",
            DataCategory::SSH => "ssh.json",
            DataCategory::Streaming => "streaming.json",
        }
    }
}

/// All traffic classes, in the fixed variant order.
pub fn all_categories() -> (r: Vec<DataCategory>)
    ensures
        r@.len() == 5,
        forall|i: int| 0 <= i < 5 ==> r@[i] == category_of_index(i),
{
    let mut v: Vec<DataCategory> = Vec::new();
    v.push(DataCategory::Mail);
    v.push(DataCategory::Meet);
    v.push(DataCategory::NonStreaming);
    v.push(DataCategory::SSH);
    v.push(DataCategory::Streaming);
    v
}

/// All VPN technologies, in the fixed variant order.
pub fn all_vpn() -> (r: Vec<VPN>)
    ensures
        r@.len() == 6,
        forall|i: int| 0 <= i < 6 ==> r@[i] == vpn_of_index(i),
{
    let mut v: Vec<VPN> = Vec::new();
    v.push(VPN::L2TP);
    v.push(VPN::L2TPIP);
    v.push(VPN::OpenVPN);
    v.push(VPN::PPTP);
    v.push(VPN::SSTP);
    v.push(VPN::WireGuard);
    v
}

/// All encryption postures, ordered by label offset: NonVPN first, then the
/// six VPN technologies in their fixed order.
pub fn all_encryptions() -> (r: Vec<Encryption>)
    ensures
        r@.len() == 7,
        forall|i: int| 0 <= i < 7 ==> r@[i] == encryption_of_offset(i),
{
    let mut v: Vec<Encryption> = Vec::new();
    v.push(Encryption::NonVPN);
    v.push(Encryption::VPN(VPN::L2TP));
    v.push(Encryption::VPN(VPN::L2TPIP));
    v.push(Encryption::VPN(VPN::OpenVPN));
    v.push(Encryption::VPN(VPN::PPTP));
    v.push(Encryption::VPN(VPN::SSTP));
    v.push(Encryption::VPN(VPN::WireGuard));
    v
}

/// Every `(Encryption, DataCategory)` combination of the taxonomy, ordered by
/// encryption offset first and traffic class second. Entry `k` pairs the
/// encryption with offset `k / 5` and the class with index `k % 5`.
pub fn catalog_pairs() -> (r: Vec<(Encryption, DataCategory)>)
    ensures
        r@.len() == 35,
        forall|k: int|
            0 <= k < 35 ==> r@[k] == (encryption_of_offset(k / 5), category_of_index(k % 5)),
{
    let encryptions = all_encryptions();
    let categories = all_categories();
    let mut v: Vec<(Encryption, DataCategory)> = Vec::new();
    let mut i: usize = 0;
    while i < 7
        invariant
            i <= 7,
            encryptions@.len() == 7,
            categories@.len() == 5,
            forall|n: int| 0 <= n < 7 ==> encryptions@[n] == encryption_of_offset(n),
            forall|n: int| 0 <= n < 5 ==> categories@[n] == category_of_index(n),
            v@.len() == 5 * i,
            forall|k: int|
                0 <= k < v@.len() ==> v@[k] == (
                    encryption_of_offset(k / 5),
                    category_of_index(k % 5),
                ),
        decreases 7 - i,
    {
        let mut j: usize = 0;
        while j < 5
            invariant
                i < 7,
                j <= 5,
                encryptions@.len() == 7,
                categories@.len() == 5,
                forall|n: int| 0 <= n < 7 ==> encryptions@[n] == encryption_of_offset(n),
                forall|n: int| 0 <= n < 5 ==> categories@[n] == category_of_index(n),
                v@.len() == 5 * i + j,
                forall|k: int|
                    0 <= k < v@.len() ==> v@[k] == (
                        encryption_of_offset(k / 5),
                        category_of_index(k % 5),
                    ),
            decreases 5 - j,
        {
            let pair = (encryptions[i], categories[j]);
            proof {
                let k = 5 * i + j;
                assert(k / 5 == i as int && k % 5 == j as int) by (nonlinear_arith)
                    requires
                        k == 5 * (i as int) + j,
                        0 <= i as int,
                        0 <= j < 5,
                ;
            }
            v.push(pair);
            j = j + 1;
        }
        i = i + 1;
    }
    v
}

/// The catalog entries of one encryption posture: that posture paired with
/// every traffic class, in the fixed class order.
pub fn catalog_pairs_for(e: Encryption) -> (r: Vec<(Encryption, DataCategory)>)
    ensures
        r@.len() == 5,
        forall|k: int| 0 <= k < 5 ==> r@[k] == (e, category_of_index(k)),
{
    let categories = all_categories();
    let mut v: Vec<(Encryption, DataCategory)> = Vec::new();
    let mut j: usize = 0;
    while j < 5
        invariant
            j <= 5,
            categories@.len() == 5,
            forall|n: int| 0 <= n < 5 ==> categories@[n] == category_of_index(n),
            v@.len() == j,
            forall|k: int| 0 <= k < j ==> v@[k] == (e, category_of_index(k)),
        decreases 5 - j,
    {
        v.push((e, categories[j]));
        j = j + 1;
    }
    v
}

/// Catalog enumeration is exhaustive and free of repeats: it yields exactly
/// 35 pairs, every combination of the taxonomy appears, and no entry appears
/// twice.
pub proof fn lemma_catalog_complete(r: Seq<(Encryption, DataCategory)>)
    requires
        r.len() == 35,
        forall|k: int|
            0 <= k < 35 ==> r[k] == (encryption_of_offset(k / 5), category_of_index(k % 5)),
    ensures
        forall|e: Encryption, c: DataCategory|
            #![trigger encryption_offset(e), category_index(c)]
            {
                let k = encryption_offset(e) * 5 + category_index(c);
                0 <= k < 35 && r[k] == (e, c)
            },
        forall|k1: int, k2: int| 0 <= k1 < k2 < 35 ==> r[k1] != r[k2],
{
    assert forall|e: Encryption, c: DataCategory|
        #![trigger encryption_offset(e), category_index(c)]
        {
            let k = encryption_offset(e) * 5 + category_index(c);
            0 <= k < 35 && r[k] == (e, c)
        } by {
        let k = encryption_offset(e) * 5 + category_index(c);
        assert(0 <= k < 35);
        assert(k / 5 == encryption_offset(e) && k % 5 == category_index(c)) by (nonlinear_arith)
            requires
                k == encryption_offset(e) * 5 + category_index(c),
                0 <= encryption_offset(e) < 7,
                0 <= category_index(c) < 5,
        ;
        assert(encryption_of_offset(encryption_offset(e)) == e);
        assert(category_of_index(category_index(c)) == c);
        assert(r[k] == (e, c));
    }
    assert forall|k1: int, k2: int| 0 <= k1 < k2 < 35 implies r[k1] != r[k2] by {
        if k1 / 5 == k2 / 5 {
            assert(k1 % 5 != k2 % 5) by (nonlinear_arith)
                requires
                    0 <= k1 < k2 < 35,
                    k1 / 5 == k2 / 5,
            ;
            assert(category_of_index(k1 % 5) != category_of_index(k2 % 5));
        } else {
            assert(encryption_of_offset(k1 / 5) != encryption_of_offset(k2 / 5));
        }
    }
}

} // verus!
