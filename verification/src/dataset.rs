//! The shard collection as a dataset over the packet-level index space
//! `[0, n)`, and its deterministic split: a seeded pseudo-random permutation
//! of the indices, cut at `floor(n * ratio)` into a training part and a
//! validation part.

use vstd::prelude::*;

use rand::SeedableRng;
use rand::seq::SliceRandom;

verus! {

use vstd::arithmetic::div_mod::{lemma_div_is_ordered, lemma_div_multiples_vanish};
use vstd::arithmetic::mul::lemma_mul_inequality;
use vstd::seq_lib::{group_to_multiset_ensures, lemma_multiset_commutative};
use crate::categories::IpProtocol;
use crate::data_structure::MetadataWrapper;

/// A collection of shards, consumed as one flat dataset of packet entries.
#[derive(Clone, Debug)]
pub struct NetworkDataset(pub Vec<MetadataWrapper>);

/// Packet entries of one record.
pub open spec fn record_packet_count(r: IpProtocol) -> int {
    match r {
        IpProtocol::Udp(d) => d.packets@.len() as int,
        IpProtocol::Tcp(d) => d.packets@.len() as int,
        IpProtocol::Gre(d) => d.packets@.len() as int,
        IpProtocol::Icmp(d) => d.packets@.len() as int,
    }
}

/// Packet entries of a sequence of records.
pub open spec fn records_packet_count(s: Seq<IpProtocol>) -> int
    decreases s.len(),
{
    if s.len() == 0 {
        0
    } else {
        record_packet_count(s[0]) + records_packet_count(s.drop_first())
    }
}

/// Packet entries of a whole shard collection: the size of the index space
/// the split partitions.
pub open spec fn dataset_packet_count(s: Seq<MetadataWrapper>) -> int
    decreases s.len(),
{
    if s.len() == 0 {
        0
    } else {
        records_packet_count(s[0].all_packets@) + dataset_packet_count(s.drop_first())
    }
}

/// Packet counts are never negative.
pub proof fn lemma_records_packet_count_nonneg(s: Seq<IpProtocol>)
    ensures
        records_packet_count(s) >= 0,
    decreases s.len(),
{
    if s.len() > 0 {
        lemma_records_packet_count_nonneg(s.drop_first());
    }
}

/// Packet counts are never negative.
pub proof fn lemma_dataset_packet_count_nonneg(s: Seq<MetadataWrapper>)
    ensures
        dataset_packet_count(s) >= 0,
    decreases s.len(),
{
    if s.len() > 0 {
        lemma_records_packet_count_nonneg(s[0].all_packets@);
        lemma_dataset_packet_count_nonneg(s.drop_first());
    }
}

/// Packet entries of one wrapper's records.
fn records_count(records: &Vec<IpProtocol>) -> (n: usize)
    requires
        records_packet_count(records@) <= usize::MAX,
    ensures
        n == records_packet_count(records@),
{
    let ghost s = records@;
    let mut acc: usize = 0;
    let mut i: usize = 0;
    proof {
        assert(s.skip(0) =~= s);
    }
    while i < records.len()
        invariant
            i <= s.len(),
            s == records@,
            acc + records_packet_count(s.skip(i as int)) == records_packet_count(s),
            records_packet_count(s) <= usize::MAX,
            acc >= 0,
        decreases s.len() - i,
    {
        let ghost rest = s.skip(i as int);
        proof {
            assert(rest[0] == s[i as int]);
            assert(rest.drop_first() =~= s.skip(i + 1));
            lemma_records_packet_count_nonneg(s.skip(i + 1));
        }
        let c = match &records[i] {
            IpProtocol::Udp(d) => d.packets.len(),
            IpProtocol::Tcp(d) => d.packets.len(),
            IpProtocol::Gre(d) => d.packets.len(),
            IpProtocol::Icmp(d) => d.packets.len(),
        };
        acc = acc + c;
        i = i + 1;
    }
    proof {
        assert(s.skip(s.len() as int) =~= Seq::<IpProtocol>::empty());
    }
    acc
}

impl NetworkDataset {
    /// Wraps a shard collection.
    pub fn new(data: Vec<MetadataWrapper>) -> (r: Self)
        ensures
            r.0@ == data@,
    {
        NetworkDataset(data)
    }

    /// The shard at one position, if any.
    pub fn get(&self, index: usize) -> (r: Option<&MetadataWrapper>)
        ensures
            match r {
                Some(w) => index < self.0@.len() && *w == self.0@[index as int],
                None => index >= self.0@.len(),
            },
    {
        if index < self.0.len() {
            Some(&self.0[index])
        } else {
            None
        }
    }

    /// The number of packet entries across all shards: the length of the
    /// flat index space.
    pub fn len(&self) -> (n: usize)
        requires
            dataset_packet_count(self.0@) <= usize::MAX,
        ensures
            n == dataset_packet_count(self.0@),
    {
        let ghost s = self.0@;
        let mut acc: usize = 0;
        let mut i: usize = 0;
        proof {
            assert(s.skip(0) =~= s);
        }
        while i < self.0.len()
            invariant
                i <= s.len(),
                s == self.0@,
                acc + dataset_packet_count(s.skip(i as int)) == dataset_packet_count(s),
                dataset_packet_count(s) <= usize::MAX,
                acc >= 0,
            decreases s.len() - i,
        {
            let ghost rest = s.skip(i as int);
            proof {
                assert(rest[0] == s[i as int]);
                assert(rest.drop_first() =~= s.skip(i + 1));
                lemma_dataset_packet_count_nonneg(s.skip(i + 1));
                lemma_records_packet_count_nonneg(s[i as int].all_packets@);
            }
            let c = records_count(&self.0[i].all_packets);
            acc = acc + c;
            i = i + 1;
        }
        proof {
            assert(s.skip(s.len() as int) =~= Seq::<MetadataWrapper>::empty());
        }
        acc
    }

    /// Splits the packet-level index space `[0, n)` into a training part and
    /// a validation part: the seeded permutation of the indices is cut after
    /// its first `floor(n * ratio_num / ratio_den)` entries. Deterministic:
    /// the result is a function of the shard collection's size, the ratio
    /// and the seed alone.
    pub fn split(self, ratio_num: usize, ratio_den: usize, seed: u64) -> (r: (
        Vec<usize>,
        Vec<usize>,
    ))
        requires
            0 < ratio_den,
            ratio_num <= ratio_den,
            dataset_packet_count(self.0@) <= usize::MAX,
        ensures
            ({
                let n = dataset_packet_count(self.0@);
                let k = n * (ratio_num as int) / (ratio_den as int);
                let shuffled = shuffle_of(identity_indices(n as nat), seed);
                &&& r.0@ == shuffled.take(k)
                &&& r.1@ == shuffled.skip(k)
                &&& r.0@.len() == k
                &&& r.1@.len() == n - k
                &&& (r.0@ + r.1@).to_multiset() == identity_indices(n as nat).to_multiset()
            }),
    {
        let n = self.len();
        let ghost total = dataset_packet_count(self.0@);
        proof {
            lemma_mul_inequality(ratio_num as int, ratio_den as int, n as int);
            assert(n as int * ratio_num as int <= n as int * ratio_den as int) by (nonlinear_arith)
                requires
                    ratio_num as int * n as int <= ratio_den as int * n as int,
            ;
            lemma_div_is_ordered(
                n as int * ratio_num as int,
                n as int * ratio_den as int,
                ratio_den as int,
            );
            lemma_div_multiples_vanish(n as int, ratio_den as int);
            assert(n as int * ratio_den as int == ratio_den as int * n as int) by (nonlinear_arith);
            assert(n as int * ratio_num as int / ratio_den as int <= n as int);
            assert((n as u128) * (ratio_num as u128) < 0x100000000000000000000000000000000)
                by (nonlinear_arith)
                requires
                    n as u128 <= 0xffffffffffffffffu128,
                    ratio_num as u128 <= 0xffffffffffffffffu128,
            ;
        }
        let k = (((n as u128) * (ratio_num as u128)) / (ratio_den as u128)) as usize;
        proof {
            assert(k == n as int * ratio_num as int / ratio_den as int);
        }
        let mut indices: Vec<usize> = Vec::new();
        let mut i: usize = 0;
        while i < n
            invariant
                i <= n,
                indices@.len() == i,
                forall|j: int| 0 <= j < i ==> indices@[j] == j as usize,
            decreases n - i,
        {
            indices.push(i);
            i = i + 1;
        }
        proof {
            assert(indices@ =~= identity_indices(total as nat));
        }
        let ghost pre = indices@;
        shuffle_seeded(&mut indices, seed);
        proof {
            pre.to_multiset_ensures();
            indices@.to_multiset_ensures();
            assert(indices@.len() == n);
        }
        let mut train: Vec<usize> = Vec::new();
        let mut valid: Vec<usize> = Vec::new();
        let mut j: usize = 0;
        while j < k
            invariant
                j <= k <= n,
                indices@.len() == n,
                train@ =~= indices@.take(j as int),
            decreases k - j,
        {
            train.push(indices[j]);
            j = j + 1;
        }
        while j < n
            invariant
                k <= j <= n,
                indices@.len() == n,
                valid@ =~= indices@.subrange(k as int, j as int),
            decreases n - j,
        {
            valid.push(indices[j]);
            j = j + 1;
        }
        proof {
            assert(valid@ =~= indices@.skip(k as int));
            assert(train@ + valid@ =~= indices@);
        }
        (train, valid)
    }
}

/// The identity index sequence `0, 1, ..., n - 1`.
pub open spec fn identity_indices(n: nat) -> Seq<usize> {
    Seq::new(n, |i: int| i as usize)
}

/// The permutation that the seeded shuffle applies to a given index
/// sequence: a fixed function of the sequence and the seed.
pub uninterp spec fn shuffle_of(s: Seq<usize>, seed: u64) -> Seq<usize>;

/// Relies on rand's `SliceRandom::shuffle` driven by a `StdRng` from
/// `SeedableRng::seed_from_u64`: an in-place Fisher-Yates shuffle, so the
/// result holds the same elements, and both the generator's stream and the
/// shuffle are deterministic in the seed and the slice alone.
#[verifier::external_body]
fn shuffle_seeded(v: &mut Vec<usize>, seed: u64)
    ensures
        final(v)@ == shuffle_of(old(v)@, seed),
        final(v)@.to_multiset() == old(v)@.to_multiset(),
{
    let mut rng = rand::rngs::StdRng::seed_from_u64(seed);
    v.shuffle(&mut rng);
}

/// Each index below `n` occurs exactly once in the identity sequence, and
/// nothing else occurs.
proof fn lemma_identity_count(n: nat, x: usize)
    requires
        n <= usize::MAX,
    ensures
        identity_indices(n).to_multiset().count(x) == if (x as int) < n {
            1int
        } else {
            0int
        },
    decreases n,
{
    broadcast use group_to_multiset_ensures;
    broadcast use vstd::multiset::group_multiset_axioms;

    if n == 0 {
        assert(!identity_indices(0).contains(x));
    } else {
        lemma_identity_count((n - 1) as nat, x);
        assert(identity_indices(n) =~= identity_indices((n - 1) as nat).push((n - 1) as usize));
    }
}

/// Two splits of index spaces of the same size, with the same cut and the
/// same seed, are identical: the split is a function of size, ratio and
/// seed alone.
pub proof fn lemma_split_deterministic(
    n: nat,
    k: int,
    seed: u64,
    train1: Seq<usize>,
    valid1: Seq<usize>,
    train2: Seq<usize>,
    valid2: Seq<usize>,
)
    requires
        train1 == shuffle_of(identity_indices(n), seed).take(k),
        valid1 == shuffle_of(identity_indices(n), seed).skip(k),
        train2 == shuffle_of(identity_indices(n), seed).take(k),
        valid2 == shuffle_of(identity_indices(n), seed).skip(k),
    ensures
        train1 == train2,
        valid1 == valid2,
{
}

/// The two parts of a split partition the index space: together they hold
/// every index below `n` exactly once and nothing else, no part repeats an
/// index, and no index stands in both parts.
pub proof fn lemma_split_partition(train: Seq<usize>, valid: Seq<usize>, n: nat)
    requires
        n <= usize::MAX,
        (train + valid).to_multiset() == identity_indices(n).to_multiset(),
    ensures
        train.len() + valid.len() == n,
        forall|x: usize| (x as int) < n <==> (train.contains(x) || valid.contains(x)),
        forall|x: usize| !(train.contains(x) && valid.contains(x)),
        train.no_duplicates(),
        valid.no_duplicates(),
{
    broadcast use group_to_multiset_ensures;
    broadcast use vstd::multiset::group_multiset_axioms;

    train.to_multiset_ensures();
    valid.to_multiset_ensures();
    (train + valid).to_multiset_ensures();
    identity_indices(n).to_multiset_ensures();
    lemma_multiset_commutative(train, valid);
    assert(identity_indices(n).len() == n);
    assert((train + valid).len() == train.len() + valid.len());
    assert((train + valid).to_multiset().len() == identity_indices(n).to_multiset().len());
    assert forall|x: usize| (x as int) < n implies (train.contains(x) || valid.contains(x)) by {
        lemma_identity_count(n, x);
        assert((train + valid).to_multiset().count(x) == train.to_multiset().count(x)
            + valid.to_multiset().count(x));
        assert(train.to_multiset().count(x) + valid.to_multiset().count(x) == 1);
        if train.to_multiset().count(x) > 0 {
            assert(train.contains(x));
        } else {
            assert(valid.to_multiset().count(x) > 0);
            assert(valid.contains(x));
        }
    }
    assert forall|x: usize| (train.contains(x) || valid.contains(x)) implies (x as int) < n by {
        lemma_identity_count(n, x);
        assert((train + valid).to_multiset().count(x) == train.to_multiset().count(x)
            + valid.to_multiset().count(x));
        if train.contains(x) {
            assert(train.to_multiset().count(x) > 0);
        } else {
            assert(valid.to_multiset().count(x) > 0);
        }
    }
    assert forall|x: usize| !(train.contains(x) && valid.contains(x)) by {
        lemma_identity_count(n, x);
        assert((train + valid).to_multiset().count(x) == train.to_multiset().count(x)
            + valid.to_multiset().count(x));
        if train.contains(x) && valid.contains(x) {
            assert(train.to_multiset().count(x) >= 1 && valid.to_multiset().count(x) >= 1);
        }
    }
    assert forall|x: usize| train.to_multiset().contains(x) implies train.to_multiset().count(x)
        == 1 by {
        lemma_identity_count(n, x);
        assert((train + valid).to_multiset().count(x) == train.to_multiset().count(x)
            + valid.to_multiset().count(x));
        assert(train.to_multiset().count(x) > 0);
        assert(train.contains(x));
        assert((x as int) < n) by {
            assert(train.to_multiset().count(x) + valid.to_multiset().count(x) >= 1);
        }
    }
    train.lemma_multiset_has_no_duplicates_conv();
    assert forall|x: usize| valid.to_multiset().contains(x) implies valid.to_multiset().count(x)
        == 1 by {
        lemma_identity_count(n, x);
        assert((train + valid).to_multiset().count(x) == train.to_multiset().count(x)
            + valid.to_multiset().count(x));
        assert(valid.to_multiset().count(x) > 0);
        assert(valid.contains(x));
        assert((x as int) < n) by {
            assert(train.to_multiset().count(x) + valid.to_multiset().count(x) >= 1);
        }
    }
    valid.lemma_multiset_has_no_duplicates_conv();
}

} // verus!
