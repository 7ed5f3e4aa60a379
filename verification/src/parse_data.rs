//! Conversion of loosely-typed source records into the typed packet model:
//! per-entry field parsing, filtering of entries without an IP header
//! length, protocol dispatch, and per-record error reporting.
//!
//! Within one kept entry the fields are checked in a fixed order — bytes,
//! IP header length, packet count, the two timestamps, then for TCP records
//! header length, flags, acknowledgment number and sequence number, presence
//! before content — and the first offending field of the first offending
//! record names the error.

use vstd::prelude::*;

verus! {

use vstd::pervasive::unreached;
use crate::categories::{IpProtocol, PacketDirection};
use crate::data_structure::{BasePacket, Data, TcpPacket};
use crate::numeric::{
    bin_val, parse_flags, parse_i32, parse_unsigned, signed_val, unsigned_val, valid_flags_str,
    valid_i32_str, valid_unsigned,
};
use crate::timestamp::{duration_ms, ns_to_ms_trunc, parse_timestamp, timestamp_ns, valid_timestamp};

/// One loosely-typed packet entry as it stands in a source file: numeric
/// fields as strings, TCP fields and the IP header length optional.
#[derive(Clone, Debug)]
pub struct Packet {
    pub bytes: String,
    pub ip_header_length: Option<String>,
    pub packets: String,
    pub tcp_ack_number: Option<String>,
    pub tcp_header_len: Option<String>,
    pub tcp_flags: Option<String>,
    pub tcp_seq_number: Option<String>,
    pub timestamp_start: String,
    pub timestamp_end: String,
}

/// The protocol tag a source record declares.
#[derive(Clone, Copy, Debug, PartialEq, Eq, Structural)]
pub enum ProtocolTag {
    Gre,
    Tcp,
    Udp,
    Icmp,
}

/// One loosely-typed source record: a protocol tag, the two ports, and the
/// packet entries.
#[derive(Clone, Debug)]
pub struct RawData {
    pub ip_protocol: ProtocolTag,
    pub port_destination: u16,
    pub port_source: u16,
    pub packets: Vec<Packet>,
}

/// The field of a packet entry an error names.
#[derive(Clone, Copy, Debug, PartialEq, Eq, Structural)]
pub enum FieldName {
    Bytes,
    IpHeaderLength,
    PacketCount,
    TimestampStart,
    TimestampEnd,
    TcpHeaderLen,
    TcpFlags,
    TcpAckNumber,
    TcpSeqNumber,
}

/// Why one record fails to convert: a field that does not parse, or a
/// TCP-mandatory field that is absent.
#[derive(Clone, Copy, Debug, PartialEq, Eq, Structural)]
pub enum RecordError {
    FieldParse(FieldName),
    MissingProtocolField(FieldName),
}

/// Why one shard fails to load.
#[derive(Clone, Copy, Debug, PartialEq, Eq, Structural)]
pub enum ShardError {
    /// The path resolves to no readable file.
    SourceNotFound,
    /// The file is not an array of records of the expected shape.
    MalformedShape,
    /// A numeric or timestamp field of the given record fails to parse.
    FieldParseFailure { record: usize, field: FieldName },
    /// The given TCP-tagged record lacks a TCP-mandatory field.
    MissingMandatoryProtocolField { record: usize, field: FieldName },
}

/// Whether an entry is kept: entries without an IP header length are
/// filtered out, by design, and never reported as errors.
pub open spec fn entry_kept(p: Packet) -> bool {
    p.ip_header_length is Some
}

/// The characters of the IP header length field of a kept entry.
pub open spec fn ihl_str(p: Packet) -> Seq<char> {
    match p.ip_header_length {
        Some(s) => s@,
        None => Seq::empty(),
    }
}

/// The first offending base field of a kept entry, if any.
pub open spec fn base_entry_error(p: Packet) -> Option<RecordError> {
    if !valid_i32_str(p.bytes@) {
        Some(RecordError::FieldParse(FieldName::Bytes))
    } else if !valid_unsigned(ihl_str(p), 255) {
        Some(RecordError::FieldParse(FieldName::IpHeaderLength))
    } else if !valid_unsigned(p.packets@, 255) {
        Some(RecordError::FieldParse(FieldName::PacketCount))
    } else if !valid_timestamp(p.timestamp_start@) {
        Some(RecordError::FieldParse(FieldName::TimestampStart))
    } else if !valid_timestamp(p.timestamp_end@) {
        Some(RecordError::FieldParse(FieldName::TimestampEnd))
    } else {
        None
    }
}

/// The base packet a well-formed kept entry denotes.
pub open spec fn base_of(p: Packet) -> BasePacket {
    let v = signed_val(p.bytes@);
    BasePacket {
        bytes: (if v >= 0 {
            v
        } else {
            -v
        }) as u32,
        direction: if v >= 0 {
            PacketDirection::Outgoing
        } else {
            PacketDirection::Incoming
        },
        ip_header_length: unsigned_val(ihl_str(p)) as u8,
        packets: unsigned_val(p.packets@) as u8,
        packet_duration: ns_to_ms_trunc(
            timestamp_ns(p.timestamp_end@) - timestamp_ns(p.timestamp_start@),
        ) as i64,
    }
}

/// The first offending field of a kept entry of a TCP record, if any: the
/// base fields first, then each TCP field, presence before content.
pub open spec fn tcp_entry_error(p: Packet) -> Option<RecordError> {
    if base_entry_error(p) is Some {
        base_entry_error(p)
    } else if p.tcp_header_len is None {
        Some(RecordError::MissingProtocolField(FieldName::TcpHeaderLen))
    } else if !valid_unsigned(tcp_header_len_str(p), 65535) {
        Some(RecordError::FieldParse(FieldName::TcpHeaderLen))
    } else if p.tcp_flags is None {
        Some(RecordError::MissingProtocolField(FieldName::TcpFlags))
    } else if !valid_flags_str(tcp_flags_str(p)) {
        Some(RecordError::FieldParse(FieldName::TcpFlags))
    } else if p.tcp_ack_number is None {
        Some(RecordError::MissingProtocolField(FieldName::TcpAckNumber))
    } else if !valid_unsigned(tcp_ack_str(p), 0xffff_ffff) {
        Some(RecordError::FieldParse(FieldName::TcpAckNumber))
    } else if p.tcp_seq_number is None {
        Some(RecordError::MissingProtocolField(FieldName::TcpSeqNumber))
    } else if !valid_unsigned(tcp_seq_str(p), 0xffff_ffff) {
        Some(RecordError::FieldParse(FieldName::TcpSeqNumber))
    } else {
        None
    }
}

/// The characters of the TCP header length field, when present.
pub open spec fn tcp_header_len_str(p: Packet) -> Seq<char> {
    match p.tcp_header_len {
        Some(s) => s@,
        None => Seq::empty(),
    }
}

/// The characters of the TCP flags field, when present.
pub open spec fn tcp_flags_str(p: Packet) -> Seq<char> {
    match p.tcp_flags {
        Some(s) => s@,
        None => Seq::empty(),
    }
}

/// The characters of the TCP acknowledgment number field, when present.
pub open spec fn tcp_ack_str(p: Packet) -> Seq<char> {
    match p.tcp_ack_number {
        Some(s) => s@,
        None => Seq::empty(),
    }
}

/// The characters of the TCP sequence number field, when present.
pub open spec fn tcp_seq_str(p: Packet) -> Seq<char> {
    match p.tcp_seq_number {
        Some(s) => s@,
        None => Seq::empty(),
    }
}

/// The TCP packet a well-formed kept entry denotes.
pub open spec fn tcp_of(p: Packet) -> TcpPacket {
    TcpPacket {
        base: base_of(p),
        tcp_header_len: unsigned_val(tcp_header_len_str(p)) as u16,
        tcp_flags: bin_val(tcp_flags_str(p)) as u8,
        tcp_acknowledgment_number: unsigned_val(tcp_ack_str(p)) as u32,
        tcp_sequence_number: unsigned_val(tcp_seq_str(p)) as u32,
    }
}

/// The first error among the kept entries of a base-packet record, scanning
/// left to right.
pub open spec fn base_entries_error(s: Seq<Packet>) -> Option<RecordError>
    decreases s.len(),
{
    if s.len() == 0 {
        None
    } else if entry_kept(s[0]) && base_entry_error(s[0]) is Some {
        base_entry_error(s[0])
    } else {
        base_entries_error(s.drop_first())
    }
}

/// The base packets of a record's kept entries, in order.
pub open spec fn base_entries_of(s: Seq<Packet>) -> Seq<BasePacket>
    decreases s.len(),
{
    if s.len() == 0 {
        Seq::empty()
    } else if entry_kept(s[0]) {
        seq![base_of(s[0])] + base_entries_of(s.drop_first())
    } else {
        base_entries_of(s.drop_first())
    }
}

/// The first error among the kept entries of a TCP record, scanning left to
/// right.
pub open spec fn tcp_entries_error(s: Seq<Packet>) -> Option<RecordError>
    decreases s.len(),
{
    if s.len() == 0 {
        None
    } else if entry_kept(s[0]) && tcp_entry_error(s[0]) is Some {
        tcp_entry_error(s[0])
    } else {
        tcp_entries_error(s.drop_first())
    }
}

/// The TCP packets of a record's kept entries, in order.
pub open spec fn tcp_entries_of(s: Seq<Packet>) -> Seq<TcpPacket>
    decreases s.len(),
{
    if s.len() == 0 {
        Seq::empty()
    } else if entry_kept(s[0]) {
        seq![tcp_of(s[0])] + tcp_entries_of(s.drop_first())
    } else {
        tcp_entries_of(s.drop_first())
    }
}

/// The number of entries a record drops for want of an IP header length.
pub open spec fn dropped_count(s: Seq<Packet>) -> int
    decreases s.len(),
{
    if s.len() == 0 {
        0
    } else {
        (if entry_kept(s[0]) {
            0int
        } else {
            1int
        }) + dropped_count(s.drop_first())
    }
}

/// Parses the base fields of one kept entry.
pub fn generate_packet(p: &Packet) -> (r: Result<BasePacket, RecordError>)
    requires
        entry_kept(*p),
    ensures
        match base_entry_error(*p) {
            Some(e) => r == Err::<BasePacket, RecordError>(e),
            None => r == Ok::<BasePacket, RecordError>(base_of(*p)),
        },
{
    let raw_bytes = match parse_i32(p.bytes.as_str()) {
        Some(v) => v,
        None => {
            return Err(RecordError::FieldParse(FieldName::Bytes));
        },
    };
    let direction = if raw_bytes >= 0 {
        PacketDirection::Outgoing
    } else {
        PacketDirection::Incoming
    };
    let magnitude: u32 = if raw_bytes >= 0 {
        raw_bytes as u32
    } else {
        (-(raw_bytes as i64)) as u32
    };
    let ihl_string = match &p.ip_header_length {
        Some(s) => s,
        None => unreached(),
    };
    let ip_header_length = match parse_unsigned(ihl_string.as_str(), 255) {
        Some(v) => v as u8,
        None => {
            return Err(RecordError::FieldParse(FieldName::IpHeaderLength));
        },
    };
    let packets = match parse_unsigned(p.packets.as_str(), 255) {
        Some(v) => v as u8,
        None => {
            return Err(RecordError::FieldParse(FieldName::PacketCount));
        },
    };
    let start = match parse_timestamp(p.timestamp_start.as_str()) {
        Some(t) => t,
        None => {
            return Err(RecordError::FieldParse(FieldName::TimestampStart));
        },
    };
    let end = match parse_timestamp(p.timestamp_end.as_str()) {
        Some(t) => t,
        None => {
            return Err(RecordError::FieldParse(FieldName::TimestampEnd));
        },
    };
    let duration = duration_ms(&end, &start);
    Ok(
        BasePacket {
            bytes: magnitude,
            direction,
            ip_header_length,
            packets,
            packet_duration: duration,
        },
    )
}

/// Parses the TCP fields of one kept entry on top of its base fields.
pub fn generate_tcp_packet(p: &Packet) -> (r: Result<TcpPacket, RecordError>)
    requires
        entry_kept(*p),
    ensures
        match tcp_entry_error(*p) {
            Some(e) => r == Err::<TcpPacket, RecordError>(e),
            None => r == Ok::<TcpPacket, RecordError>(tcp_of(*p)),
        },
{
    let base = match generate_packet(p) {
        Ok(b) => b,
        Err(e) => {
            return Err(e);
        },
    };
    let header_string = match &p.tcp_header_len {
        Some(s) => s,
        None => {
            return Err(RecordError::MissingProtocolField(FieldName::TcpHeaderLen));
        },
    };
    let tcp_header_len = match parse_unsigned(header_string.as_str(), 65535) {
        Some(v) => v as u16,
        None => {
            return Err(RecordError::FieldParse(FieldName::TcpHeaderLen));
        },
    };
    let flags_string = match &p.tcp_flags {
        Some(s) => s,
        None => {
            return Err(RecordError::MissingProtocolField(FieldName::TcpFlags));
        },
    };
    let tcp_flags = match parse_flags(flags_string.as_str()) {
        Some(v) => v,
        None => {
            return Err(RecordError::FieldParse(FieldName::TcpFlags));
        },
    };
    let ack_string = match &p.tcp_ack_number {
        Some(s) => s,
        None => {
            return Err(RecordError::MissingProtocolField(FieldName::TcpAckNumber));
        },
    };
    let tcp_acknowledgment_number = match parse_unsigned(ack_string.as_str(), 4294967295) {
        Some(v) => v as u32,
        None => {
            return Err(RecordError::FieldParse(FieldName::TcpAckNumber));
        },
    };
    let seq_string = match &p.tcp_seq_number {
        Some(s) => s,
        None => {
            return Err(RecordError::MissingProtocolField(FieldName::TcpSeqNumber));
        },
    };
    let tcp_sequence_number = match parse_unsigned(seq_string.as_str(), 4294967295) {
        Some(v) => v as u32,
        None => {
            return Err(RecordError::FieldParse(FieldName::TcpSeqNumber));
        },
    };
    Ok(
        TcpPacket {
            base,
            tcp_header_len,
            tcp_flags,
            tcp_acknowledgment_number,
            tcp_sequence_number,
        },
    )
}

/// Parses a record's entries as base packets, dropping entries without an
/// IP header length and stopping at the first offending field.
pub fn generate_packets(raw_packets: &Vec<Packet>) -> (r: Result<Vec<BasePacket>, RecordError>)
    ensures
        match base_entries_error(raw_packets@) {
            Some(e) => r == Err::<Vec<BasePacket>, RecordError>(e),
            None => r matches Ok(v) && v@ == base_entries_of(raw_packets@),
        },
{
    let ghost s = raw_packets@;
    let mut acc: Vec<BasePacket> = Vec::new();
    let mut i: usize = 0;
    proof {
        assert(s.skip(0) =~= s);
        assert(acc@ + base_entries_of(s) =~= base_entries_of(s));
    }
    while i < raw_packets.len()
        invariant
            i <= s.len(),
            s == raw_packets@,
            base_entries_error(s) == base_entries_error(s.skip(i as int)),
            base_entries_of(s) == acc@ + base_entries_of(s.skip(i as int)),
        decreases s.len() - i,
    {
        let ghost rest = s.skip(i as int);
        proof {
            assert(rest[0] == s[i as int]);
            assert(rest.drop_first() =~= s.skip(i + 1));
        }
        let p = &raw_packets[i];
        if p.ip_header_length.is_some() {
            match generate_packet(p) {
                Ok(b) => {
                    proof {
                        assert(base_entries_of(rest) == seq![base_of(s[i as int])]
                            + base_entries_of(s.skip(i + 1)));
                        assert(acc@ + base_entries_of(rest) =~= acc@.push(base_of(s[i as int]))
                            + base_entries_of(s.skip(i + 1)));
                    }
                    acc.push(b);
                },
                Err(e) => {
                    return Err(e);
                },
            }
        }
        i = i + 1;
    }
    proof {
        assert(s.skip(s.len() as int) =~= Seq::<Packet>::empty());
        assert(base_entries_of(s) =~= acc@);
    }
    Ok(acc)
}

/// Parses a TCP record's entries, dropping entries without an IP header
/// length and stopping at the first offending field.
pub fn generate_tcp_packets(raw_packets: &Vec<Packet>) -> (r: Result<Vec<TcpPacket>, RecordError>)
    ensures
        match tcp_entries_error(raw_packets@) {
            Some(e) => r == Err::<Vec<TcpPacket>, RecordError>(e),
            None => r matches Ok(v) && v@ == tcp_entries_of(raw_packets@),
        },
{
    let ghost s = raw_packets@;
    let mut acc: Vec<TcpPacket> = Vec::new();
    let mut i: usize = 0;
    proof {
        assert(s.skip(0) =~= s);
        assert(acc@ + tcp_entries_of(s) =~= tcp_entries_of(s));
    }
    while i < raw_packets.len()
        invariant
            i <= s.len(),
            s == raw_packets@,
            tcp_entries_error(s) == tcp_entries_error(s.skip(i as int)),
            tcp_entries_of(s) == acc@ + tcp_entries_of(s.skip(i as int)),
        decreases s.len() - i,
    {
        let ghost rest = s.skip(i as int);
        proof {
            assert(rest[0] == s[i as int]);
            assert(rest.drop_first() =~= s.skip(i + 1));
        }
        let p = &raw_packets[i];
        if p.ip_header_length.is_some() {
            match generate_tcp_packet(p) {
                Ok(t) => {
                    proof {
                        assert(tcp_entries_of(rest) == seq![tcp_of(s[i as int])] + tcp_entries_of(
                            s.skip(i + 1),
                        ));
                        assert(acc@ + tcp_entries_of(rest) =~= acc@.push(tcp_of(s[i as int]))
                            + tcp_entries_of(s.skip(i + 1)));
                    }
                    acc.push(t);
                },
                Err(e) => {
                    return Err(e);
                },
            }
        }
        i = i + 1;
    }
    proof {
        assert(s.skip(s.len() as int) =~= Seq::<Packet>::empty());
        assert(tcp_entries_of(s) =~= acc@);
    }
    Ok(acc)
}

/// The kept entries of a record, in order.
pub open spec fn kept_entries(s: Seq<Packet>) -> Seq<Packet>
    decreases s.len(),
{
    if s.len() == 0 {
        Seq::empty()
    } else if entry_kept(s[0]) {
        seq![s[0]] + kept_entries(s.drop_first())
    } else {
        kept_entries(s.drop_first())
    }
}

/// A packet-entry's direction is `Outgoing` exactly when its raw signed byte
/// count is non-negative, and the stored byte count is the magnitude of the
/// raw signed byte count.
pub proof fn lemma_direction_and_magnitude(p: Packet)
    requires
        valid_i32_str(p.bytes@),
    ensures
        base_of(p).direction == PacketDirection::Outgoing <==> signed_val(p.bytes@) >= 0,
        base_of(p).bytes == if signed_val(p.bytes@) >= 0 {
            signed_val(p.bytes@)
        } else {
            -signed_val(p.bytes@)
        },
{
}

/// Every packet-entry without an IP header length is absent from the parsed
/// output: the output lists exactly the kept entries in order, so it counts
/// the input entries minus the dropped ones.
pub proof fn lemma_filtered_entries(s: Seq<Packet>)
    ensures
        base_entries_of(s) == kept_entries(s).map_values(|p: Packet| base_of(p)),
        tcp_entries_of(s) == kept_entries(s).map_values(|p: Packet| tcp_of(p)),
        forall|j: int| 0 <= j < kept_entries(s).len() ==> entry_kept(#[trigger] kept_entries(s)[j]),
        kept_entries(s).len() + dropped_count(s) == s.len(),
        base_entries_of(s).len() + dropped_count(s) == s.len(),
        tcp_entries_of(s).len() + dropped_count(s) == s.len(),
    decreases s.len(),
{
    if s.len() == 0 {
        assert(base_entries_of(s) =~= kept_entries(s).map_values(|p: Packet| base_of(p)));
        assert(tcp_entries_of(s) =~= kept_entries(s).map_values(|p: Packet| tcp_of(p)));
    } else {
        lemma_filtered_entries(s.drop_first());
        if entry_kept(s[0]) {
            assert((seq![s[0]] + kept_entries(s.drop_first())).map_values(|p: Packet| base_of(p))
                =~= seq![base_of(s[0])] + kept_entries(s.drop_first()).map_values(
                |p: Packet| base_of(p),
            ));
            assert((seq![s[0]] + kept_entries(s.drop_first())).map_values(|p: Packet| tcp_of(p))
                =~= seq![tcp_of(s[0])] + kept_entries(s.drop_first()).map_values(
                |p: Packet| tcp_of(p),
            ));
        }
    }
}

/// The first error of one record, under its declared protocol tag.
pub open spec fn record_error(r: RawData) -> Option<RecordError> {
    match r.ip_protocol {
        ProtocolTag::Tcp => tcp_entries_error(r.packets@),
        _ => base_entries_error(r.packets@),
    }
}

/// Whether a typed record is the faithful conversion of a source record:
/// the variant matches the tag, the ports carry over, and the packets are
/// the kept entries in order.
pub open spec fn record_matches(raw: RawData, rec: IpProtocol) -> bool {
    match raw.ip_protocol {
        ProtocolTag::Tcp => rec matches IpProtocol::Tcp(d) && d.port_source == raw.port_source
            && d.port_destination == raw.port_destination && d.packets@ == tcp_entries_of(
            raw.packets@,
        ),
        ProtocolTag::Udp => rec matches IpProtocol::Udp(d) && d.port_source == raw.port_source
            && d.port_destination == raw.port_destination && d.packets@ == base_entries_of(
            raw.packets@,
        ),
        ProtocolTag::Gre => rec matches IpProtocol::Gre(d) && d.port_source == raw.port_source
            && d.port_destination == raw.port_destination && d.packets@ == base_entries_of(
            raw.packets@,
        ),
        ProtocolTag::Icmp => rec matches IpProtocol::Icmp(d) && d.port_source == raw.port_source
            && d.port_destination == raw.port_destination && d.packets@ == base_entries_of(
            raw.packets@,
        ),
    }
}

/// Converts one source record into its protocol-tagged typed record. The
/// branch is purely a structural re-tag: the TCP tag selects the richer
/// packet shape, no numeric policy differs by protocol.
pub fn record_from_raw(raw: &RawData) -> (r: Result<IpProtocol, RecordError>)
    ensures
        match record_error(*raw) {
            Some(e) => r == Err::<IpProtocol, RecordError>(e),
            None => r matches Ok(rec) && record_matches(*raw, rec),
        },
{
    match raw.ip_protocol {
        ProtocolTag::Tcp => {
            match generate_tcp_packets(&raw.packets) {
                Ok(packets) => Ok(
                    IpProtocol::Tcp(
                        Data {
                            port_destination: raw.port_destination,
                            port_source: raw.port_source,
                            packets,
                        },
                    ),
                ),
                Err(e) => Err(e),
            }
        },
        ProtocolTag::Udp => {
            match generate_packets(&raw.packets) {
                Ok(packets) => Ok(
                    IpProtocol::Udp(
                        Data {
                            port_destination: raw.port_destination,
                            port_source: raw.port_source,
                            packets,
                        },
                    ),
                ),
                Err(e) => Err(e),
            }
        },
        ProtocolTag::Gre => {
            match generate_packets(&raw.packets) {
                Ok(packets) => Ok(
                    IpProtocol::Gre(
                        Data {
                            port_destination: raw.port_destination,
                            port_source: raw.port_source,
                            packets,
                        },
                    ),
                ),
                Err(e) => Err(e),
            }
        },
        ProtocolTag::Icmp => {
            match generate_packets(&raw.packets) {
                Ok(packets) => Ok(
                    IpProtocol::Icmp(
                        Data {
                            port_destination: raw.port_destination,
                            port_source: raw.port_source,
                            packets,
                        },
                    ),
                ),
                Err(e) => Err(e),
            }
        },
    }
}

/// The first failing record of a shard, with its position.
pub open spec fn first_record_error(s: Seq<RawData>) -> Option<(int, RecordError)>
    decreases s.len(),
{
    if s.len() == 0 {
        None
    } else {
        match record_error(s[0]) {
            Some(e) => Some((0int, e)),
            None => match first_record_error(s.drop_first()) {
                Some((i, e)) => Some((i + 1, e)),
                None => None,
            },
        }
    }
}

/// The shard-level error a record-level error at a given position becomes.
pub open spec fn shard_error_of(record: int, e: RecordError) -> ShardError {
    match e {
        RecordError::FieldParse(f) => ShardError::FieldParseFailure {
            record: record as usize,
            field: f,
        },
        RecordError::MissingProtocolField(f) => ShardError::MissingMandatoryProtocolField {
            record: record as usize,
            field: f,
        },
    }
}

proof fn lemma_first_error_none(s: Seq<RawData>)
    requires
        forall|k: int| 0 <= k < s.len() ==> record_error(s[k]) is None,
    ensures
        first_record_error(s) is None,
    decreases s.len(),
{
    if s.len() > 0 {
        assert(forall|k: int|
            0 <= k < s.drop_first().len() ==> s.drop_first()[k] == s[k + 1]);
        lemma_first_error_none(s.drop_first());
    }
}

proof fn lemma_first_error_at(s: Seq<RawData>, i: int)
    requires
        0 <= i < s.len(),
        forall|k: int| 0 <= k < i ==> record_error(s[k]) is None,
        record_error(s[i]) is Some,
    ensures
        record_error(s[i]) matches Some(e) ==> first_record_error(s) == Some((i, e)),
    decreases s.len(),
{
    if i > 0 {
        assert(forall|k: int|
            0 <= k < s.drop_first().len() ==> s.drop_first()[k] == s[k + 1]);
        lemma_first_error_at(s.drop_first(), i - 1);
    }
}

/// Converts a whole shard's records. The first offending record aborts the
/// load and names itself, its field and its position; otherwise every record
/// converts, in order.
pub fn records_from_raw(raw: &Vec<RawData>) -> (r: Result<Vec<IpProtocol>, ShardError>)
    ensures
        first_record_error(raw@) matches Some((i, e)) ==> r == Err::<Vec<IpProtocol>, ShardError>(
            shard_error_of(i, e),
        ),
        first_record_error(raw@) is None ==> (r matches Ok(v) && v@.len() == raw@.len() && (forall|
            k: int,
        |
            0 <= k < raw@.len() ==> record_matches(raw@[k], #[trigger] v@[k]))),
{
    let mut acc: Vec<IpProtocol> = Vec::new();
    let mut i: usize = 0;
    while i < raw.len()
        invariant
            i <= raw@.len(),
            acc@.len() == i,
            forall|k: int| 0 <= k < i ==> record_error(raw@[k]) is None,
            forall|k: int| 0 <= k < i ==> record_matches(raw@[k], #[trigger] acc@[k]),
        decreases raw@.len() - i,
    {
        match record_from_raw(&raw[i]) {
            Ok(rec) => {
                acc.push(rec);
            },
            Err(e) => {
                proof {
                    lemma_first_error_at(raw@, i as int);
                }
                return Err(
                    match e {
                        RecordError::FieldParse(f) => ShardError::FieldParseFailure {
                            record: i,
                            field: f,
                        },
                        RecordError::MissingProtocolField(
                            f,
                        ) => ShardError::MissingMandatoryProtocolField { record: i, field: f },
                    },
                );
            },
        }
        i = i + 1;
    }
    proof {
        lemma_first_error_none(raw@);
    }
    Ok(acc)
}

} // verus!
