//! The strongly-typed packet model: per-flow data, base and TCP packet
//! shapes, the labeled per-file shard, and the resolution of a catalog entry
//! to the path of its source file.

use vstd::prelude::*;

verus! {

use vstd::string::StrSliceExecFns;
use vstd::string::StringExecFns;
use crate::categories::{DataCategory, Encryption, IpProtocol, PacketDirection, ToPath};
use crate::parse_data::{
    first_record_error, record_matches, records_from_raw, shard_error_of, RawData, ShardError,
};

/// One source/destination-port flow holding an ordered sequence of packets
/// of one shape.
#[derive(Clone, Debug)]
pub struct Data<T> {
    pub port_destination: u16,
    pub port_source: u16,
    pub packets: Vec<T>,
}

/// One observed packet-group sample. `bytes` stores the magnitude of the raw
/// signed byte count; the sign lives in `direction` and nowhere else.
/// `packet_duration` is the signed sample interval in milliseconds.
#[derive(Clone, Copy, Debug, PartialEq, Eq, Structural)]
pub struct BasePacket {
    pub bytes: u32,
    pub direction: PacketDirection,
    pub ip_header_length: u8,
    pub packets: u8,
    pub packet_duration: i64,
}

/// A TCP-specific sample: a base packet plus the four mandatory TCP fields.
#[derive(Clone, Copy, Debug, PartialEq, Eq, Structural)]
pub struct TcpPacket {
    pub base: BasePacket,
    pub tcp_header_len: u16,
    pub tcp_flags: u8,
    pub tcp_acknowledgment_number: u32,
    pub tcp_sequence_number: u32,
}

/// One file's worth of labeled flows: the shard, the unit of aggregation.
/// Built once from a single source file and held immutably.
#[derive(Clone, Debug)]
pub struct MetadataWrapper {
    pub encryption: Encryption,
    pub data_category: DataCategory,
    pub all_packets: Vec<IpProtocol>,
}

impl Data<TcpPacket> {
    /// The same flow narrowed to base packets: both ports carry over, and
    /// each packet is replaced by its base part, in order.
    pub fn to_base_packet(&self) -> (r: Data<BasePacket>)
        ensures
            r.port_source == self.port_source,
            r.port_destination == self.port_destination,
            r.packets@ == self.packets@.map_values(|p: TcpPacket| p.base),
    {
        let mut packets: Vec<BasePacket> = Vec::new();
        let mut i: usize = 0;
        while i < self.packets.len()
            invariant
                i <= self.packets@.len(),
                packets@.len() == i,
                forall|j: int| 0 <= j < i ==> packets@[j] == self.packets@[j].base,
            decreases self.packets@.len() - i,
        {
            packets.push(self.packets[i].base);
            i = i + 1;
        }
        proof {
            assert(packets@ =~= self.packets@.map_values(|p: TcpPacket| p.base));
        }
        Data { port_source: self.port_source, port_destination: self.port_destination, packets }
    }
}

/// Builds one labeled shard from a file's loosely-typed records. The shard
/// carries exactly the labels of its catalog entry; the first offending
/// record aborts the build and names itself.
pub fn build_shard(encryption: Encryption, data_category: DataCategory, raw: &Vec<RawData>) -> (r:
    Result<MetadataWrapper, ShardError>)
    ensures
        first_record_error(raw@) matches Some((i, e)) ==> r == Err::<MetadataWrapper, ShardError>(
            shard_error_of(i, e),
        ),
        first_record_error(raw@) is None ==> (r matches Ok(w) && w.encryption == encryption
            && w.data_category == data_category && w.all_packets@.len() == raw@.len() && (forall|
            k: int,
        |
            0 <= k < raw@.len() ==> record_matches(raw@[k], #[trigger] w.all_packets@[k]))),
{
    match records_from_raw(raw) {
        Ok(all_packets) => Ok(MetadataWrapper { encryption, data_category, all_packets }),
        Err(e) => Err(e),
    }
}

/// The path of the source file for one catalog entry.
pub open spec fn shard_path_spec(e: Encryption, c: DataCategory) -> Seq<char> {
    match e {
        Encryption::VPN(v) => "dataset/VPN/"@ + v.path_spec() + "/"@ + c.path_spec(),
        Encryption::NonVPN => "dataset/Non VPN/"@ + c.path_spec(),
    }
}

/// Resolves a catalog entry to the path of its source file. Pure and total:
/// every combination has a defined path.
pub fn shard_path(e: Encryption, c: DataCategory) -> (r: String)
    ensures
        r@ == shard_path_spec(e, c),
{
    match e {
        Encryption::VPN(v) => {
            let mut s = String::from_str("dataset/VPN/");
            s.append(v.path());
            s.append("/");
            s.append(c.path());
            s
        },
        Encryption::NonVPN => {
            let mut s = String::from_str("dataset/Non VPN/");
            s.append(c.path());
            s
        },
    }
}

} // verus!
