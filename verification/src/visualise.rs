//! The reduction handed to the visualization collaborator: for every
//! `(Encryption, DataCategory)` catalog entry, how often each byte size
//! occurs among the packets of the shards labeled with that entry.
//!
//! The result is one map per catalog entry, indexed by
//! `encryption_offset * 5 + category_index`, from byte size to occurrence
//! count; an absent key means the size never occurs.

use vstd::prelude::*;

verus! {

use std::collections::HashMap;
use crate::categories::{
    category_index, category_index_exec, encryption_offset, encryption_offset_exec, IpProtocol,
};
use crate::data_structure::{BasePacket, MetadataWrapper, TcpPacket};
use crate::dataset::{dataset_packet_count, record_packet_count};

broadcast use vstd::std_specs::hash::group_hash_axioms;

/// The catalog-entry index of a shard's label pair.
pub open spec fn pair_of(w: MetadataWrapper) -> int {
    encryption_offset(w.encryption) * 5 + category_index(w.data_category)
}

/// Occurrences of byte size `b` in a sequence of base packets.
pub open spec fn base_bytes_count(s: Seq<BasePacket>, b: u64) -> int
    decreases s.len(),
{
    if s.len() == 0 {
        0
    } else {
        (if s[0].bytes as u64 == b {
            1int
        } else {
            0int
        }) + base_bytes_count(s.drop_first(), b)
    }
}

/// Occurrences of byte size `b` in a sequence of TCP packets.
pub open spec fn tcp_bytes_count(s: Seq<TcpPacket>, b: u64) -> int
    decreases s.len(),
{
    if s.len() == 0 {
        0
    } else {
        (if s[0].base.bytes as u64 == b {
            1int
        } else {
            0int
        }) + tcp_bytes_count(s.drop_first(), b)
    }
}

/// Occurrences of byte size `b` among one record's packets.
pub open spec fn record_byte_count(r: IpProtocol, b: u64) -> int {
    match r {
        IpProtocol::Tcp(d) => tcp_bytes_count(d.packets@, b),
        IpProtocol::Udp(d) => base_bytes_count(d.packets@, b),
        IpProtocol::Gre(d) => base_bytes_count(d.packets@, b),
        IpProtocol::Icmp(d) => base_bytes_count(d.packets@, b),
    }
}

/// Occurrences of byte size `b` among a record sequence's packets.
pub open spec fn records_byte_count(s: Seq<IpProtocol>, b: u64) -> int
    decreases s.len(),
{
    if s.len() == 0 {
        0
    } else {
        record_byte_count(s[0], b) + records_byte_count(s.drop_first(), b)
    }
}

/// Occurrences of byte size `b` among the packets of the shards labeled
/// with catalog entry `p`.
pub open spec fn shards_byte_count(s: Seq<MetadataWrapper>, p: int, b: u64) -> int
    decreases s.len(),
{
    if s.len() == 0 {
        0
    } else {
        (if pair_of(s[0]) == p {
            records_byte_count(s[0].all_packets@, b)
        } else {
            0int
        }) + shards_byte_count(s.drop_first(), p, b)
    }
}

/// The count a histogram map holds for a byte size, zero when absent.
pub open spec fn map_count(m: Map<u64, u64>, b: u64) -> int {
    if m.contains_key(b) {
        m[b] as int
    } else {
        0
    }
}

proof fn lemma_base_bytes_count_le(s: Seq<BasePacket>, b: u64)
    ensures
        0 <= base_bytes_count(s, b) <= s.len(),
    decreases s.len(),
{
    if s.len() > 0 {
        lemma_base_bytes_count_le(s.drop_first(), b);
    }
}

proof fn lemma_tcp_bytes_count_le(s: Seq<TcpPacket>, b: u64)
    ensures
        0 <= tcp_bytes_count(s, b) <= s.len(),
    decreases s.len(),
{
    if s.len() > 0 {
        lemma_tcp_bytes_count_le(s.drop_first(), b);
    }
}

proof fn lemma_record_byte_count_le(r: IpProtocol, b: u64)
    ensures
        0 <= record_byte_count(r, b) <= record_packet_count(r),
{
    match r {
        IpProtocol::Tcp(d) => lemma_tcp_bytes_count_le(d.packets@, b),
        IpProtocol::Udp(d) => lemma_base_bytes_count_le(d.packets@, b),
        IpProtocol::Gre(d) => lemma_base_bytes_count_le(d.packets@, b),
        IpProtocol::Icmp(d) => lemma_base_bytes_count_le(d.packets@, b),
    }
}

proof fn lemma_records_byte_count_le(s: Seq<IpProtocol>, b: u64)
    ensures
        0 <= records_byte_count(s, b) <= crate::dataset::records_packet_count(s),
    decreases s.len(),
{
    if s.len() > 0 {
        lemma_record_byte_count_le(s[0], b);
        lemma_records_byte_count_le(s.drop_first(), b);
    }
}

proof fn lemma_shards_byte_count_le(s: Seq<MetadataWrapper>, p: int, b: u64)
    ensures
        0 <= shards_byte_count(s, p, b) <= dataset_packet_count(s),
    decreases s.len(),
{
    if s.len() > 0 {
        lemma_records_byte_count_le(s[0].all_packets@, b);
        lemma_shards_byte_count_le(s.drop_first(), p, b);
        crate::dataset::lemma_records_packet_count_nonneg(s[0].all_packets@);
    }
}

/// Adds one packet's byte size to a histogram map.
fn add_byte(m: &mut HashMap<u64, u64>, b: u64)
    requires
        map_count(old(m)@, b) + 1 <= u64::MAX,
        forall|x: u64| old(m)@.contains_key(x) ==> old(m)@[x] >= 1,
    ensures
        forall|x: u64|
            map_count(final(m)@, x) == map_count(old(m)@, x) + if x == b {
                1int
            } else {
                0int
            },
        forall|x: u64| final(m)@.contains_key(x) ==> final(m)@[x] >= 1,
{
    let c: u64 = match m.get(&b) {
        Some(v) => *v,
        None => 0,
    };
    m.insert(b, c + 1);
}

/// Counts a sequence of base packets into a histogram map.
fn add_base_packets(m: &mut HashMap<u64, u64>, s: &Vec<BasePacket>)
    requires
        forall|x: u64| map_count(old(m)@, x) + base_bytes_count(s@, x) <= u64::MAX,
        forall|x: u64| old(m)@.contains_key(x) ==> old(m)@[x] >= 1,
    ensures
        forall|x: u64| map_count(final(m)@, x) == map_count(old(m)@, x) + base_bytes_count(s@, x),
        forall|x: u64| final(m)@.contains_key(x) ==> final(m)@[x] >= 1,
{
    let ghost sv = s@;
    let mut i: usize = 0;
    proof {
        assert(sv.skip(0) =~= sv);
    }
    while i < s.len()
        invariant
            i <= sv.len(),
            sv == s@,
            forall|x: u64|
                map_count(m@, x) + base_bytes_count(sv.skip(i as int), x) == map_count(old(m)@, x)
                    + base_bytes_count(sv, x),
            forall|x: u64| map_count(old(m)@, x) + base_bytes_count(sv, x) <= u64::MAX,
            forall|x: u64| m@.contains_key(x) ==> m@[x] >= 1,
        decreases sv.len() - i,
    {
        let ghost rest = sv.skip(i as int);
        let ghost key = sv[i as int].bytes as u64;
        proof {
            assert(rest[0] == sv[i as int]);
            assert(rest.drop_first() =~= sv.skip(i + 1));
            lemma_base_bytes_count_le(sv.skip(i + 1), key);
            assert(base_bytes_count(rest, key) == 1 + base_bytes_count(sv.skip(i + 1), key));
            assert(map_count(m@, key) + base_bytes_count(rest, key) == map_count(old(m)@, key)
                + base_bytes_count(sv, key));
            assert(map_count(old(m)@, key) + base_bytes_count(sv, key) <= u64::MAX);
        }
        let ghost prev_map = m@;
        let b = s[i].bytes as u64;
        add_byte(m, b);
        proof {
            assert forall|x: u64|
                map_count(m@, x) + base_bytes_count(sv.skip(i + 1), x) == map_count(old(m)@, x)
                    + base_bytes_count(sv, x) by {
                assert(map_count(m@, x) == map_count(prev_map, x) + if x == key {
                    1int
                } else {
                    0int
                });
                assert(base_bytes_count(rest, x) == (if key == x {
                    1int
                } else {
                    0int
                }) + base_bytes_count(sv.skip(i + 1), x));
                assert(map_count(prev_map, x) + base_bytes_count(rest, x) == map_count(old(m)@, x)
                    + base_bytes_count(sv, x));
            }
        }
        i = i + 1;
    }
    proof {
        assert(sv.skip(sv.len() as int) =~= Seq::<BasePacket>::empty());
    }
}

/// Counts a sequence of TCP packets into a histogram map.
fn add_tcp_packets(m: &mut HashMap<u64, u64>, s: &Vec<TcpPacket>)
    requires
        forall|x: u64| map_count(old(m)@, x) + tcp_bytes_count(s@, x) <= u64::MAX,
        forall|x: u64| old(m)@.contains_key(x) ==> old(m)@[x] >= 1,
    ensures
        forall|x: u64| map_count(final(m)@, x) == map_count(old(m)@, x) + tcp_bytes_count(s@, x),
        forall|x: u64| final(m)@.contains_key(x) ==> final(m)@[x] >= 1,
{
    let ghost sv = s@;
    let mut i: usize = 0;
    proof {
        assert(sv.skip(0) =~= sv);
    }
    while i < s.len()
        invariant
            i <= sv.len(),
            sv == s@,
            forall|x: u64|
                map_count(m@, x) + tcp_bytes_count(sv.skip(i as int), x) == map_count(old(m)@, x)
                    + tcp_bytes_count(sv, x),
            forall|x: u64| map_count(old(m)@, x) + tcp_bytes_count(sv, x) <= u64::MAX,
            forall|x: u64| m@.contains_key(x) ==> m@[x] >= 1,
        decreases sv.len() - i,
    {
        let ghost rest = sv.skip(i as int);
        let ghost key = sv[i as int].base.bytes as u64;
        proof {
            assert(rest[0] == sv[i as int]);
            assert(rest.drop_first() =~= sv.skip(i + 1));
            lemma_tcp_bytes_count_le(sv.skip(i + 1), key);
            assert(tcp_bytes_count(rest, key) == 1 + tcp_bytes_count(sv.skip(i + 1), key));
            assert(map_count(m@, key) + tcp_bytes_count(rest, key) == map_count(old(m)@, key)
                + tcp_bytes_count(sv, key));
            assert(map_count(old(m)@, key) + tcp_bytes_count(sv, key) <= u64::MAX);
        }
        let ghost prev_map = m@;
        let b = s[i].base.bytes as u64;
        add_byte(m, b);
        proof {
            assert forall|x: u64|
                map_count(m@, x) + tcp_bytes_count(sv.skip(i + 1), x) == map_count(old(m)@, x)
                    + tcp_bytes_count(sv, x) by {
                assert(map_count(m@, x) == map_count(prev_map, x) + if x == key {
                    1int
                } else {
                    0int
                });
                assert(tcp_bytes_count(rest, x) == (if key == x {
                    1int
                } else {
                    0int
                }) + tcp_bytes_count(sv.skip(i + 1), x));
                assert(map_count(prev_map, x) + tcp_bytes_count(rest, x) == map_count(old(m)@, x)
                    + tcp_bytes_count(sv, x));
            }
        }
        i = i + 1;
    }
    proof {
        assert(sv.skip(sv.len() as int) =~= Seq::<TcpPacket>::empty());
    }
}

/// Counts one record's packets into a histogram map.
fn add_record(m: &mut HashMap<u64, u64>, r: &IpProtocol)
    requires
        forall|x: u64| map_count(old(m)@, x) + record_byte_count(*r, x) <= u64::MAX,
        forall|x: u64| old(m)@.contains_key(x) ==> old(m)@[x] >= 1,
    ensures
        forall|x: u64| map_count(final(m)@, x) == map_count(old(m)@, x) + record_byte_count(*r, x),
        forall|x: u64| final(m)@.contains_key(x) ==> final(m)@[x] >= 1,
{
    match r {
        IpProtocol::Tcp(d) => {
            proof {
                assert forall|x: u64|
                    map_count(old(m)@, x) + tcp_bytes_count(d.packets@, x) <= u64::MAX by {
                    assert(record_byte_count(*r, x) == tcp_bytes_count(d.packets@, x));
                    assert(map_count(old(m)@, x) + record_byte_count(*r, x) <= u64::MAX);
                }
            }
            add_tcp_packets(m, &d.packets);
            proof {
                assert forall|x: u64|
                    map_count(m@, x) == map_count(old(m)@, x) + record_byte_count(*r, x) by {
                    assert(map_count(m@, x) == map_count(old(m)@, x) + tcp_bytes_count(
                        d.packets@,
                        x,
                    ));
                    assert(record_byte_count(*r, x) == tcp_bytes_count(d.packets@, x));
                }
            }
        },
        IpProtocol::Udp(d) => {
            proof {
                assert forall|x: u64|
                    map_count(old(m)@, x) + base_bytes_count(d.packets@, x) <= u64::MAX by {
                    assert(record_byte_count(*r, x) == base_bytes_count(d.packets@, x));
                    assert(map_count(old(m)@, x) + record_byte_count(*r, x) <= u64::MAX);
                }
            }
            add_base_packets(m, &d.packets);
            proof {
                assert forall|x: u64|
                    map_count(m@, x) == map_count(old(m)@, x) + record_byte_count(*r, x) by {
                    assert(map_count(m@, x) == map_count(old(m)@, x) + base_bytes_count(
                        d.packets@,
                        x,
                    ));
                    assert(record_byte_count(*r, x) == base_bytes_count(d.packets@, x));
                }
            }
        },
        IpProtocol::Gre(d) => {
            proof {
                assert forall|x: u64|
                    map_count(old(m)@, x) + base_bytes_count(d.packets@, x) <= u64::MAX by {
                    assert(record_byte_count(*r, x) == base_bytes_count(d.packets@, x));
                    assert(map_count(old(m)@, x) + record_byte_count(*r, x) <= u64::MAX);
                }
            }
            add_base_packets(m, &d.packets);
            proof {
                assert forall|x: u64|
                    map_count(m@, x) == map_count(old(m)@, x) + record_byte_count(*r, x) by {
                    assert(map_count(m@, x) == map_count(old(m)@, x) + base_bytes_count(
                        d.packets@,
                        x,
                    ));
                    assert(record_byte_count(*r, x) == base_bytes_count(d.packets@, x));
                }
            }
        },
        IpProtocol::Icmp(d) => {
            proof {
                assert forall|x: u64|
                    map_count(old(m)@, x) + base_bytes_count(d.packets@, x) <= u64::MAX by {
                    assert(record_byte_count(*r, x) == base_bytes_count(d.packets@, x));
                    assert(map_count(old(m)@, x) + record_byte_count(*r, x) <= u64::MAX);
                }
            }
            add_base_packets(m, &d.packets);
            proof {
                assert forall|x: u64|
                    map_count(m@, x) == map_count(old(m)@, x) + record_byte_count(*r, x) by {
                    assert(map_count(m@, x) == map_count(old(m)@, x) + base_bytes_count(
                        d.packets@,
                        x,
                    ));
                    assert(record_byte_count(*r, x) == base_bytes_count(d.packets@, x));
                }
            }
        },
    }
}

/// Builds the byte-size histograms of a shard collection: entry `p` of the
/// result maps each byte size to its occurrence count among the packets of
/// the shards labeled with catalog entry `p`; a size that never occurs is
/// absent.
pub fn collect_data_hash(data: &Vec<MetadataWrapper>) -> (r: Vec<HashMap<u64, u64>>)
    requires
        dataset_packet_count(data@) <= u64::MAX,
    ensures
        r@.len() == 35,
        forall|p: int, b: u64|
            0 <= p < 35 ==> (#[trigger] r@[p]@.contains_key(b) <==> shards_byte_count(
                data@,
                p,
                b,
            ) > 0),
        forall|p: int, b: u64|
            0 <= p < 35 && #[trigger] r@[p]@.contains_key(b) ==> r@[p]@[b] == shards_byte_count(
                data@,
                p,
                b,
            ),
{
    let ghost s = data@;
    let mut maps: Vec<HashMap<u64, u64>> = Vec::new();
    let mut p: usize = 0;
    while p < 35
        invariant
            p <= 35,
            s == data@,
            dataset_packet_count(s) <= u64::MAX,
            maps@.len() == p,
            forall|q: int, b: u64|
                0 <= q < p ==> (#[trigger] maps@[q]@.contains_key(b) <==> shards_byte_count(
                    s,
                    q,
                    b,
                ) > 0),
            forall|q: int, b: u64|
                0 <= q < p && #[trigger] maps@[q]@.contains_key(b) ==> maps@[q]@[b]
                    == shards_byte_count(s, q, b),
        decreases 35 - p,
    {
        let mut m: HashMap<u64, u64> = HashMap::new();
        let mut i: usize = 0;
        proof {
            assert(s.skip(0) =~= s);
        }
        while i < data.len()
            invariant
                i <= s.len(),
                s == data@,
                dataset_packet_count(s) <= u64::MAX,
                p < 35,
                forall|x: u64|
                    map_count(m@, x) + shards_byte_count(s.skip(i as int), p as int, x)
                        == shards_byte_count(s, p as int, x),
                forall|x: u64| m@.contains_key(x) ==> m@[x] >= 1,
            decreases s.len() - i,
        {
            let ghost rest = s.skip(i as int);
            proof {
                assert(rest[0] == s[i as int]);
                assert(rest.drop_first() =~= s.skip(i + 1));
            }
            let w = &data[i];
            let idx = encryption_offset_exec(w.encryption) as usize * 5 + category_index_exec(
                w.data_category,
            ) as usize;
            proof {
                assert(pair_of(s[i as int]) == idx as int);
            }
            if idx == p {
                let ghost records = w.all_packets@;
                let mut j: usize = 0;
                proof {
                    assert(records.skip(0) =~= records);
                    assert forall|x: u64|
                        map_count(m@, x) + records_byte_count(records.skip(0), x)
                            + shards_byte_count(s.skip(i + 1), p as int, x) == shards_byte_count(
                            s,
                            p as int,
                            x,
                        ) by {
                        assert(map_count(m@, x) + shards_byte_count(rest, p as int, x)
                            == shards_byte_count(s, p as int, x));
                        assert(shards_byte_count(rest, p as int, x) == records_byte_count(
                            records,
                            x,
                        ) + shards_byte_count(s.skip(i + 1), p as int, x));
                    }
                }
                while j < w.all_packets.len()
                    invariant
                        j <= records.len(),
                        records == w.all_packets@,
                        records == s[i as int].all_packets@,
                        i < s.len(),
                        s == data@,
                        dataset_packet_count(s) <= u64::MAX,
                        p < 35,
                        pair_of(s[i as int]) == p as int,
                        forall|x: u64|
                            map_count(m@, x) + records_byte_count(records.skip(j as int), x)
                                + shards_byte_count(s.skip(i + 1), p as int, x)
                                == shards_byte_count(s, p as int, x),
                        forall|x: u64| m@.contains_key(x) ==> m@[x] >= 1,
                    decreases records.len() - j,
                {
                    let ghost rrest = records.skip(j as int);
                    proof {
                        assert(rrest[0] == records[j as int]);
                        assert(rrest.drop_first() =~= records.skip(j + 1));
                        assert forall|x: u64|
                            map_count(m@, x) + record_byte_count(records[j as int], x)
                                <= u64::MAX by {
                            assert(map_count(m@, x) + records_byte_count(rrest, x)
                                + shards_byte_count(s.skip(i + 1), p as int, x)
                                == shards_byte_count(s, p as int, x));
                            lemma_records_byte_count_le_self(records, j as int, x);
                            lemma_shards_byte_count_le(s, p as int, x);
                            lemma_shards_byte_count_nonneg(s.skip(i + 1), p as int, x);
                        }
                    }
                    let ghost prev_map = m@;
                    add_record(&mut m, &w.all_packets[j]);
                    proof {
                        assert forall|x: u64|
                            map_count(m@, x) + records_byte_count(records.skip(j + 1), x)
                                + shards_byte_count(s.skip(i + 1), p as int, x)
                                == shards_byte_count(s, p as int, x) by {
                            assert(map_count(m@, x) == map_count(prev_map, x) + record_byte_count(
                                records[j as int],
                                x,
                            ));
                            assert(records_byte_count(rrest, x) == record_byte_count(
                                records[j as int],
                                x,
                            ) + records_byte_count(records.skip(j + 1), x));
                            assert(map_count(prev_map, x) + records_byte_count(rrest, x)
                                + shards_byte_count(s.skip(i + 1), p as int, x)
                                == shards_byte_count(s, p as int, x));
                        }
                    }
                    j = j + 1;
                }
                proof {
                    assert(records.skip(records.len() as int) =~= Seq::<IpProtocol>::empty());
                    assert forall|x: u64|
                        map_count(m@, x) + shards_byte_count(s.skip(i + 1), p as int, x)
                            == shards_byte_count(s, p as int, x) by {
                        assert(map_count(m@, x) + records_byte_count(
                            records.skip(records.len() as int),
                            x,
                        ) + shards_byte_count(s.skip(i + 1), p as int, x) == shards_byte_count(
                            s,
                            p as int,
                            x,
                        ));
                    }
                }
            } else {
                proof {
                    assert forall|x: u64|
                        map_count(m@, x) + shards_byte_count(s.skip(i + 1), p as int, x)
                            == shards_byte_count(s, p as int, x) by {
                        assert(map_count(m@, x) + shards_byte_count(rest, p as int, x)
                            == shards_byte_count(s, p as int, x));
                        assert(shards_byte_count(rest, p as int, x) == shards_byte_count(
                            s.skip(i + 1),
                            p as int,
                            x,
                        ));
                    }
                }
            }
            i = i + 1;
        }
        proof {
            assert(s.skip(s.len() as int) =~= Seq::<MetadataWrapper>::empty());
        }
        maps.push(m);
        p = p + 1;
    }
    maps
}

proof fn lemma_shards_byte_count_nonneg(s: Seq<MetadataWrapper>, p: int, b: u64)
    ensures
        shards_byte_count(s, p, b) >= 0,
{
    lemma_shards_byte_count_le(s, p, b);
    crate::dataset::lemma_dataset_packet_count_nonneg(s);
}

/// A record's count of one byte size is at most the count of the record
/// sequence from that record on.
proof fn lemma_records_byte_count_le_self(s: Seq<IpProtocol>, j: int, b: u64)
    requires
        0 <= j < s.len(),
    ensures
        records_byte_count(s.skip(j), b) >= record_byte_count(s[j], b),
        record_byte_count(s[j], b) >= 0,
{
    assert(s.skip(j)[0] == s[j]);
    assert(s.skip(j).drop_first() =~= s.skip(j + 1));
    lemma_record_byte_count_le(s[j], b);
    lemma_records_byte_count_nonneg(s.skip(j + 1), b);
}

proof fn lemma_records_byte_count_nonneg(s: Seq<IpProtocol>, b: u64)
    ensures
        records_byte_count(s, b) >= 0,
    decreases s.len(),
{
    if s.len() > 0 {
        lemma_record_byte_count_le(s[0], b);
        lemma_records_byte_count_nonneg(s.drop_first(), b);
    }
}

/// Extremes of a byte-size column, as the chart bounds need them.
#[derive(Debug, Default)]
pub struct MinAndMax {
    pub min: u32,
    pub max: u32,
}

} // verus!
