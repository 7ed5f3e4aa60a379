//! The feature encoder and batcher: every packet entry becomes an integer
//! feature row — 7 values for base packets, 11 for TCP packets — with one
//! `(category_index, encryption_offset)` label per row, and each batch is
//! min-max normalized per feature column.
//!
//! Rows of the two widths are segregated: a batch holds one matrix of base
//! rows and one of TCP rows, each normalized on its own columns, with the
//! base rows' labels first. Normalized values are kept exact, as the
//! numerator `value - min(column)` over the denominator `max(column) -
//! min(column)`; a zero-range column maps to numerator 0 over denominator 1
//! for every row, the documented substitute for the undefined quotient.

use vstd::prelude::*;

verus! {

use vstd::math::{max, min};
use crate::categories::{
    category_index, category_index_exec, encryption_offset, encryption_offset_exec, IpProtocol,
    PacketDirection,
};
use crate::data_structure::{BasePacket, Data, MetadataWrapper, TcpPacket};

/// 1 for an outgoing sample, 0 for an incoming one.
pub open spec fn direction_indicator(d: PacketDirection) -> int {
    match d {
        PacketDirection::Outgoing => 1,
        PacketDirection::Incoming => 0,
    }
}

/// The 7 base feature values of one packet entry, in their fixed order.
pub open spec fn base_row_spec(ps: u16, pd: u16, p: BasePacket) -> Seq<i64> {
    seq![
        ps as i64,
        pd as i64,
        p.packets as i64,
        p.packet_duration,
        p.ip_header_length as i64,
        direction_indicator(p.direction) as i64,
        p.bytes as i64,
    ]
}

/// The 11 feature values of one TCP packet entry: the base values, then
/// flags, header length, acknowledgment number, and the header length once
/// more — the last entry repeats the header length deliberately.
pub open spec fn tcp_row_spec(ps: u16, pd: u16, t: TcpPacket) -> Seq<i64> {
    base_row_spec(ps, pd, t.base) + seq![
        t.tcp_flags as i64,
        t.tcp_header_len as i64,
        t.tcp_acknowledgment_number as i64,
        t.tcp_header_len as i64,
    ]
}

/// The base feature rows of one record: one per packet for the three base
/// protocols, none for TCP.
pub open spec fn record_base_rows(r: IpProtocol) -> Seq<Seq<i64>> {
    match r {
        IpProtocol::Tcp(_) => Seq::empty(),
        IpProtocol::Udp(d) => d.packets@.map_values(
            |p: BasePacket| base_row_spec(d.port_source, d.port_destination, p),
        ),
        IpProtocol::Gre(d) => d.packets@.map_values(
            |p: BasePacket| base_row_spec(d.port_source, d.port_destination, p),
        ),
        IpProtocol::Icmp(d) => d.packets@.map_values(
            |p: BasePacket| base_row_spec(d.port_source, d.port_destination, p),
        ),
    }
}

/// The TCP feature rows of one record: one per packet for TCP, none for the
/// base protocols.
pub open spec fn record_tcp_rows(r: IpProtocol) -> Seq<Seq<i64>> {
    match r {
        IpProtocol::Tcp(d) => d.packets@.map_values(
            |p: TcpPacket| tcp_row_spec(d.port_source, d.port_destination, p),
        ),
        _ => Seq::empty(),
    }
}

/// The base feature rows of a sequence of records, in order.
pub open spec fn records_base_rows(s: Seq<IpProtocol>) -> Seq<Seq<i64>>
    decreases s.len(),
{
    if s.len() == 0 {
        Seq::empty()
    } else {
        record_base_rows(s[0]) + records_base_rows(s.drop_first())
    }
}

/// The TCP feature rows of a sequence of records, in order.
pub open spec fn records_tcp_rows(s: Seq<IpProtocol>) -> Seq<Seq<i64>>
    decreases s.len(),
{
    if s.len() == 0 {
        Seq::empty()
    } else {
        record_tcp_rows(s[0]) + records_tcp_rows(s.drop_first())
    }
}

/// The base feature rows of a whole shard collection, in order.
pub open spec fn dataset_base_rows(s: Seq<MetadataWrapper>) -> Seq<Seq<i64>>
    decreases s.len(),
{
    if s.len() == 0 {
        Seq::empty()
    } else {
        records_base_rows(s[0].all_packets@) + dataset_base_rows(s.drop_first())
    }
}

/// The TCP feature rows of a whole shard collection, in order.
pub open spec fn dataset_tcp_rows(s: Seq<MetadataWrapper>) -> Seq<Seq<i64>>
    decreases s.len(),
{
    if s.len() == 0 {
        Seq::empty()
    } else {
        records_tcp_rows(s[0].all_packets@) + dataset_tcp_rows(s.drop_first())
    }
}

/// The label pair every packet entry of a shard inherits: its traffic
/// class's index and its encryption posture's offset.
pub open spec fn wrapper_label(w: MetadataWrapper) -> (u8, u8) {
    (category_index(w.data_category) as u8, encryption_offset(w.encryption) as u8)
}

/// One label repeated once per row.
pub open spec fn repeat_label(l: (u8, u8), n: nat) -> Seq<(u8, u8)> {
    Seq::new(n, |i: int| l)
}

/// The labels of a shard collection's base rows, in row order.
pub open spec fn dataset_base_labels(s: Seq<MetadataWrapper>) -> Seq<(u8, u8)>
    decreases s.len(),
{
    if s.len() == 0 {
        Seq::empty()
    } else {
        repeat_label(wrapper_label(s[0]), records_base_rows(s[0].all_packets@).len())
            + dataset_base_labels(s.drop_first())
    }
}

/// The labels of a shard collection's TCP rows, in row order.
pub open spec fn dataset_tcp_labels(s: Seq<MetadataWrapper>) -> Seq<(u8, u8)>
    decreases s.len(),
{
    if s.len() == 0 {
        Seq::empty()
    } else {
        repeat_label(wrapper_label(s[0]), records_tcp_rows(s[0].all_packets@).len())
            + dataset_tcp_labels(s.drop_first())
    }
}

/// The character-for-character contents of a vector of rows.
pub open spec fn row_views(s: Seq<Vec<i64>>) -> Seq<Seq<i64>> {
    s.map_values(|v: Vec<i64>| v@)
}

/// The 7 base feature values of one packet entry.
pub fn base_feature_row(port_source: u16, port_destination: u16, p: &BasePacket) -> (r: Vec<i64>)
    ensures
        r@ == base_row_spec(port_source, port_destination, *p),
{
    let mut v: Vec<i64> = Vec::new();
    v.push(port_source as i64);
    v.push(port_destination as i64);
    v.push(p.packets as i64);
    v.push(p.packet_duration);
    v.push(p.ip_header_length as i64);
    v.push(
        match p.direction {
            PacketDirection::Outgoing => 1,
            PacketDirection::Incoming => 0,
        },
    );
    v.push(p.bytes as i64);
    proof {
        assert(v@ =~= base_row_spec(port_source, port_destination, *p));
    }
    v
}

/// The 11 feature values of one TCP packet entry, the header length
/// standing both second and last among the TCP values.
pub fn tcp_feature_row(port_source: u16, port_destination: u16, t: &TcpPacket) -> (r: Vec<i64>)
    ensures
        r@ == tcp_row_spec(port_source, port_destination, *t),
{
    let mut v = base_feature_row(port_source, port_destination, &t.base);
    v.push(t.tcp_flags as i64);
    v.push(t.tcp_header_len as i64);
    v.push(t.tcp_acknowledgment_number as i64);
    v.push(t.tcp_header_len as i64);
    proof {
        assert(v@ =~= tcp_row_spec(port_source, port_destination, *t));
    }
    v
}

/// Encodes one flow's base packets as rows.
fn data_base_rows(d: &Data<BasePacket>) -> (r: Vec<Vec<i64>>)
    ensures
        row_views(r@) == d.packets@.map_values(
            |p: BasePacket| base_row_spec(d.port_source, d.port_destination, p),
        ),
{
    let mut rows: Vec<Vec<i64>> = Vec::new();
    let mut i: usize = 0;
    while i < d.packets.len()
        invariant
            i <= d.packets@.len(),
            rows@.len() == i,
            forall|j: int|
                0 <= j < i ==> rows@[j]@ == base_row_spec(
                    d.port_source,
                    d.port_destination,
                    d.packets@[j],
                ),
        decreases d.packets@.len() - i,
    {
        let row = base_feature_row(d.port_source, d.port_destination, &d.packets[i]);
        rows.push(row);
        i = i + 1;
    }
    proof {
        assert(row_views(rows@) =~= d.packets@.map_values(
            |p: BasePacket| base_row_spec(d.port_source, d.port_destination, p),
        ));
    }
    rows
}

/// Encodes one flow's TCP packets as rows.
fn data_tcp_rows(d: &Data<TcpPacket>) -> (r: Vec<Vec<i64>>)
    ensures
        row_views(r@) == d.packets@.map_values(
            |p: TcpPacket| tcp_row_spec(d.port_source, d.port_destination, p),
        ),
{
    let mut rows: Vec<Vec<i64>> = Vec::new();
    let mut i: usize = 0;
    while i < d.packets.len()
        invariant
            i <= d.packets@.len(),
            rows@.len() == i,
            forall|j: int|
                0 <= j < i ==> rows@[j]@ == tcp_row_spec(
                    d.port_source,
                    d.port_destination,
                    d.packets@[j],
                ),
        decreases d.packets@.len() - i,
    {
        let row = tcp_feature_row(d.port_source, d.port_destination, &d.packets[i]);
        rows.push(row);
        i = i + 1;
    }
    proof {
        assert(row_views(rows@) =~= d.packets@.map_values(
            |p: TcpPacket| tcp_row_spec(d.port_source, d.port_destination, p),
        ));
    }
    rows
}

/// Encodes a sequence of records, the base rows and the TCP rows each in
/// record order.
fn encode_records(records: &Vec<IpProtocol>) -> (r: (Vec<Vec<i64>>, Vec<Vec<i64>>))
    ensures
        row_views(r.0@) == records_base_rows(records@),
        row_views(r.1@) == records_tcp_rows(records@),
{
    let ghost s = records@;
    let mut base: Vec<Vec<i64>> = Vec::new();
    let mut tcp: Vec<Vec<i64>> = Vec::new();
    let mut i: usize = 0;
    proof {
        assert(s.skip(0) =~= s);
        assert(row_views(base@) + records_base_rows(s) =~= records_base_rows(s));
        assert(row_views(tcp@) + records_tcp_rows(s) =~= records_tcp_rows(s));
    }
    while i < records.len()
        invariant
            i <= s.len(),
            s == records@,
            row_views(base@) + records_base_rows(s.skip(i as int)) == records_base_rows(s),
            row_views(tcp@) + records_tcp_rows(s.skip(i as int)) == records_tcp_rows(s),
        decreases s.len() - i,
    {
        let ghost rest = s.skip(i as int);
        proof {
            assert(rest[0] == s[i as int]);
            assert(rest.drop_first() =~= s.skip(i + 1));
        }
        match &records[i] {
            IpProtocol::Udp(d) => {
                let mut rows = data_base_rows(d);
                let ghost prev = base@;
                let ghost rv = rows@;
                base.append(&mut rows);
                proof {
                    assert(row_views(prev + rv) =~= row_views(prev) + row_views(rv));
                }
            },
            IpProtocol::Gre(d) => {
                let mut rows = data_base_rows(d);
                let ghost prev = base@;
                let ghost rv = rows@;
                base.append(&mut rows);
                proof {
                    assert(row_views(prev + rv) =~= row_views(prev) + row_views(rv));
                }
            },
            IpProtocol::Icmp(d) => {
                let mut rows = data_base_rows(d);
                let ghost prev = base@;
                let ghost rv = rows@;
                base.append(&mut rows);
                proof {
                    assert(row_views(prev + rv) =~= row_views(prev) + row_views(rv));
                }
            },
            IpProtocol::Tcp(d) => {
                let mut rows = data_tcp_rows(d);
                let ghost prev = tcp@;
                let ghost rv = rows@;
                tcp.append(&mut rows);
                proof {
                    assert(row_views(prev + rv) =~= row_views(prev) + row_views(rv));
                }
            },
        }
        proof {
            assert(row_views(base@) + records_base_rows(s.skip(i + 1)) =~= records_base_rows(s));
            assert(row_views(tcp@) + records_tcp_rows(s.skip(i + 1)) =~= records_tcp_rows(s));
        }
        i = i + 1;
    }
    proof {
        assert(s.skip(s.len() as int) =~= Seq::<IpProtocol>::empty());
        assert(row_views(base@) =~= records_base_rows(s));
        assert(row_views(tcp@) =~= records_tcp_rows(s));
    }
    (base, tcp)
}

/// A shard collection encoded as integer feature rows with one label per
/// row, base rows and TCP rows held apart.
pub struct EncodedBatch {
    pub base_rows: Vec<Vec<i64>>,
    pub base_labels: Vec<(u8, u8)>,
    pub tcp_rows: Vec<Vec<i64>>,
    pub tcp_labels: Vec<(u8, u8)>,
}

/// Pushes one label once per row it covers.
fn push_repeat(dst: &mut Vec<(u8, u8)>, l: (u8, u8), n: usize)
    ensures
        final(dst)@ == old(dst)@ + repeat_label(l, n as nat),
{
    let mut i: usize = 0;
    proof {
        assert(dst@ =~= old(dst)@ + repeat_label(l, 0));
    }
    while i < n
        invariant
            i <= n,
            dst@ =~= old(dst)@ + repeat_label(l, i as nat),
        decreases n - i,
    {
        dst.push(l);
        proof {
            assert(dst@ =~= old(dst)@ + repeat_label(l, (i + 1) as nat));
        }
        i = i + 1;
    }
}

/// Encodes a shard collection: one integer feature row per packet entry —
/// base rows and TCP rows apart — and, aligned with each row list, the
/// label pair the entry inherits from its shard.
pub fn encode(items: &Vec<MetadataWrapper>) -> (r: EncodedBatch)
    ensures
        row_views(r.base_rows@) == dataset_base_rows(items@),
        row_views(r.tcp_rows@) == dataset_tcp_rows(items@),
        r.base_labels@ == dataset_base_labels(items@),
        r.tcp_labels@ == dataset_tcp_labels(items@),
{
    let ghost s = items@;
    let mut base_rows: Vec<Vec<i64>> = Vec::new();
    let mut base_labels: Vec<(u8, u8)> = Vec::new();
    let mut tcp_rows: Vec<Vec<i64>> = Vec::new();
    let mut tcp_labels: Vec<(u8, u8)> = Vec::new();
    let mut i: usize = 0;
    proof {
        assert(s.skip(0) =~= s);
        assert(row_views(base_rows@) + dataset_base_rows(s) =~= dataset_base_rows(s));
        assert(row_views(tcp_rows@) + dataset_tcp_rows(s) =~= dataset_tcp_rows(s));
        assert(base_labels@ + dataset_base_labels(s) =~= dataset_base_labels(s));
        assert(tcp_labels@ + dataset_tcp_labels(s) =~= dataset_tcp_labels(s));
    }
    while i < items.len()
        invariant
            i <= s.len(),
            s == items@,
            row_views(base_rows@) + dataset_base_rows(s.skip(i as int)) == dataset_base_rows(s),
            row_views(tcp_rows@) + dataset_tcp_rows(s.skip(i as int)) == dataset_tcp_rows(s),
            base_labels@ + dataset_base_labels(s.skip(i as int)) == dataset_base_labels(s),
            tcp_labels@ + dataset_tcp_labels(s.skip(i as int)) == dataset_tcp_labels(s),
        decreases s.len() - i,
    {
        let ghost rest = s.skip(i as int);
        proof {
            assert(rest[0] == s[i as int]);
            assert(rest.drop_first() =~= s.skip(i + 1));
        }
        let w = &items[i];
        let label = (category_index_exec(w.data_category), encryption_offset_exec(w.encryption));
        let (mut b, mut t) = encode_records(&w.all_packets);
        let nb = b.len();
        let nt = t.len();
        push_repeat(&mut base_labels, label, nb);
        push_repeat(&mut tcp_labels, label, nt);
        let ghost prev_base = base_rows@;
        let ghost bv = b@;
        base_rows.append(&mut b);
        let ghost prev_tcp = tcp_rows@;
        let ghost tv = t@;
        tcp_rows.append(&mut t);
        proof {
            assert(row_views(prev_base + bv) =~= row_views(prev_base) + row_views(bv));
            assert(row_views(prev_tcp + tv) =~= row_views(prev_tcp) + row_views(tv));
            assert(row_views(base_rows@) + dataset_base_rows(s.skip(i + 1)) =~= dataset_base_rows(
                s,
            ));
            assert(row_views(tcp_rows@) + dataset_tcp_rows(s.skip(i + 1)) =~= dataset_tcp_rows(s));
            assert(base_labels@ + dataset_base_labels(s.skip(i + 1)) =~= dataset_base_labels(s));
            assert(tcp_labels@ + dataset_tcp_labels(s.skip(i + 1)) =~= dataset_tcp_labels(s));
        }
        i = i + 1;
    }
    proof {
        assert(s.skip(s.len() as int) =~= Seq::<MetadataWrapper>::empty());
        assert(row_views(base_rows@) =~= dataset_base_rows(s));
        assert(row_views(tcp_rows@) =~= dataset_tcp_rows(s));
        assert(base_labels@ =~= dataset_base_labels(s));
        assert(tcp_labels@ =~= dataset_tcp_labels(s));
    }
    EncodedBatch { base_rows, base_labels, tcp_rows, tcp_labels }
}

/// The least value of one feature column.
pub open spec fn col_min(rows: Seq<Seq<i64>>, j: int) -> int
    decreases rows.len(),
{
    if rows.len() == 0 {
        0
    } else if rows.len() == 1 {
        rows[0][j] as int
    } else {
        min(col_min(rows.drop_last(), j), rows.last()[j] as int)
    }
}

/// The greatest value of one feature column.
pub open spec fn col_max(rows: Seq<Seq<i64>>, j: int) -> int
    decreases rows.len(),
{
    if rows.len() == 0 {
        0
    } else if rows.len() == 1 {
        rows[0][j] as int
    } else {
        max(col_max(rows.drop_last(), j), rows.last()[j] as int)
    }
}

/// Column extremes are attained and lie within any bound on the elements.
proof fn lemma_col_extremes(rows: Seq<Seq<i64>>, j: int, lo: int, hi: int)
    requires
        rows.len() >= 1,
        forall|i: int| 0 <= i < rows.len() ==> lo <= #[trigger] rows[i][j] <= hi,
    ensures
        lo <= col_min(rows, j) <= col_max(rows, j) <= hi,
        exists|i: int| 0 <= i < rows.len() && rows[i][j] == col_min(rows, j),
        exists|i: int| 0 <= i < rows.len() && rows[i][j] == col_max(rows, j),
        forall|i: int|
            0 <= i < rows.len() ==> col_min(rows, j) <= #[trigger] rows[i][j] <= col_max(rows, j),
    decreases rows.len(),
{
    if rows.len() > 1 {
        let head = rows.drop_last();
        assert(forall|i: int| 0 <= i < head.len() ==> head[i] == rows[i]);
        lemma_col_extremes(head, j, lo, hi);
        assert(forall|i: int|
            0 <= i < head.len() ==> col_min(head, j) <= #[trigger] head[i][j] <= col_max(head, j));
        let wit_min = choose|i: int| 0 <= i < head.len() && head[i][j] == col_min(head, j);
        let wit_max = choose|i: int| 0 <= i < head.len() && head[i][j] == col_max(head, j);
        if col_min(rows, j) == col_min(head, j) {
            assert(rows[wit_min][j] == col_min(rows, j));
        } else {
            assert(rows[rows.len() - 1][j] == col_min(rows, j));
        }
        if col_max(rows, j) == col_max(head, j) {
            assert(rows[wit_max][j] == col_max(rows, j));
        } else {
            assert(rows[rows.len() - 1][j] == col_max(rows, j));
        }
    }
}

/// Shifting every entry of a column shifts its extremes by the same amount.
proof fn lemma_col_shift(a: Seq<Seq<i64>>, b: Seq<Seq<i64>>, j: int, c: int)
    requires
        a.len() == b.len(),
        forall|i: int| 0 <= i < a.len() ==> #[trigger] a[i][j] == b[i][j] - c,
    ensures
        a.len() > 0 ==> col_min(a, j) == col_min(b, j) - c,
        a.len() > 0 ==> col_max(a, j) == col_max(b, j) - c,
    decreases a.len(),
{
    if a.len() > 1 {
        assert(forall|i: int| 0 <= i < a.len() - 1 ==> a.drop_last()[i] == a[i]);
        assert(forall|i: int| 0 <= i < b.len() - 1 ==> b.drop_last()[i] == b[i]);
        lemma_col_shift(a.drop_last(), b.drop_last(), j, c);
        assert(a.last() == a[a.len() - 1] && b.last() == b[b.len() - 1]);
    }
}

/// One width's worth of normalized feature data: for each cell the exact
/// numerator `value - min(column)`, and for each column the denominator
/// `max(column) - min(column)`. A zero-range column carries numerator 0 and
/// denominator 1 in every row: the substitute for the undefined quotient.
pub struct NormalizedMatrix {
    pub numerators: Vec<Vec<i64>>,
    pub denominators: Vec<i64>,
}

/// What min-max normalization promises of its output.
pub open spec fn normalized_of(
    nums: Seq<Seq<i64>>,
    dens: Seq<i64>,
    rows: Seq<Seq<i64>>,
    width: int,
) -> bool {
    &&& nums.len() == rows.len()
    &&& dens.len() == width
    &&& (forall|i: int| 0 <= i < nums.len() ==> #[trigger] nums[i].len() == width)
    &&& (forall|j: int|
        0 <= j < width ==> #[trigger] dens[j] == if rows.len() > 0 && col_min(rows, j) != col_max(
            rows,
            j,
        ) {
            col_max(rows, j) - col_min(rows, j)
        } else {
            1int
        })
    &&& (forall|i: int, j: int|
        0 <= i < nums.len() && 0 <= j < width ==> #[trigger] nums[i][j] == if col_min(rows, j)
            != col_max(rows, j) {
            rows[i][j] - col_min(rows, j)
        } else {
            0int
        })
}

/// Bound under which every feature value of this library stays: ports,
/// counts, header fields and byte counts are far smaller, and parsed
/// durations stay within the range any two timestamps can span.
pub open spec fn element_bound() -> int {
    1_000_000_000_000_000
}

/// Whether every cell of a row matrix stays within the element bound.
pub open spec fn elements_bounded(rows: Seq<Seq<i64>>) -> bool {
    forall|i: int, j: int|
        0 <= i < rows.len() && 0 <= j < rows[i].len() ==> -element_bound() <= #[trigger] rows[i][j]
            <= element_bound()
}

/// The batcher: turns shard collections into normalized batches.
#[derive(Clone, Debug)]
pub struct NetworkTrafficBatcher {}

/// One batch: the two normalized matrices and the labels, base rows' labels
/// first, then TCP rows' labels.
pub struct NetworkTrafficBatch {
    pub base_inputs: NormalizedMatrix,
    pub tcp_inputs: NormalizedMatrix,
    pub targets: Vec<(u8, u8)>,
}

impl NetworkTrafficBatcher {
    /// A fresh batcher.
    pub fn new() -> (r: Self) {
        NetworkTrafficBatcher {  }
    }

    /// Min-max normalization of one matrix whose rows all have the given
    /// width: per column, numerator `value - min` over denominator
    /// `max - min`; a zero-range column yields 0 over 1 for every row.
    pub fn min_max_norm(&self, rows: &Vec<Vec<i64>>, width: usize) -> (r: NormalizedMatrix)
        requires
            forall|i: int| 0 <= i < rows@.len() ==> #[trigger] rows@[i]@.len() == width,
            elements_bounded(row_views(rows@)),
        ensures
            normalized_of(row_views(r.numerators@), r.denominators@, row_views(rows@), width as int),
    {
        let ghost rv = row_views(rows@);
        proof {
            assert(forall|i: int| 0 <= i < rows@.len() ==> #[trigger] rows@[i]@ == rv[i]);
            assert(forall|i: int| 0 <= i < rv.len() ==> #[trigger] rv[i].len() == width);
            assert(forall|i: int, j: int|
                0 <= i < rv.len() && 0 <= j < width ==> -element_bound() <= #[trigger] rv[i][j]
                    <= element_bound());
        }
        let n = rows.len();
        let mut mins: Vec<i64> = Vec::new();
        let mut maxs: Vec<i64> = Vec::new();
        let mut dens: Vec<i64> = Vec::new();
        let mut j: usize = 0;
        while j < width
            invariant
                j <= width,
                n == rv.len(),
                rv == row_views(rows@),
                forall|i: int| 0 <= i < rows@.len() ==> #[trigger] rows@[i]@ == rv[i],
                forall|i: int| 0 <= i < rv.len() ==> #[trigger] rv[i].len() == width,
                forall|i: int, jj: int|
                    0 <= i < rv.len() && 0 <= jj < width ==> -element_bound()
                        <= #[trigger] rv[i][jj] <= element_bound(),
                mins@.len() == j,
                maxs@.len() == j,
                dens@.len() == j,
                forall|jj: int|
                    0 <= jj < j && n > 0 ==> #[trigger] mins@[jj] == col_min(rv, jj) && maxs@[jj]
                        == col_max(rv, jj),
                forall|jj: int|
                    0 <= jj < j ==> #[trigger] dens@[jj] == if n > 0 && col_min(rv, jj) != col_max(
                        rv,
                        jj,
                    ) {
                        col_max(rv, jj) - col_min(rv, jj)
                    } else {
                        1int
                    },
            decreases width - j,
        {
            if n == 0 {
                mins.push(0);
                maxs.push(0);
                dens.push(1);
            } else {
                let mut mn: i64 = rows[0][j];
                let mut mx: i64 = rows[0][j];
                let mut i: usize = 1;
                proof {
                    assert(rv.take(1) =~= seq![rv[0]]);
                    assert(col_min(rv.take(1), j as int) == rv[0][j as int]);
                    assert(col_max(rv.take(1), j as int) == rv[0][j as int]);
                }
                while i < n
                    invariant
                        1 <= i <= n,
                        n == rv.len(),
                        rv == row_views(rows@),
                        0 <= j < width,
                        forall|ii: int| 0 <= ii < rows@.len() ==> #[trigger] rows@[ii]@ == rv[ii],
                        forall|ii: int| 0 <= ii < rv.len() ==> #[trigger] rv[ii].len() == width,
                        mn == col_min(rv.take(i as int), j as int),
                        mx == col_max(rv.take(i as int), j as int),
                    decreases n - i,
                {
                    proof {
                        assert(rv.take(i + 1).drop_last() =~= rv.take(i as int));
                        assert(rv.take(i + 1).last() == rv[i as int]);
                    }
                    let v = rows[i][j];
                    if v < mn {
                        mn = v;
                    }
                    if v > mx {
                        mx = v;
                    }
                    i = i + 1;
                }
                proof {
                    assert(rv.take(n as int) =~= rv);
                    lemma_col_extremes(rv, j as int, -element_bound(), element_bound());
                }
                mins.push(mn);
                maxs.push(mx);
                if mn == mx {
                    dens.push(1);
                } else {
                    dens.push(mx - mn);
                }
            }
            j = j + 1;
        }
        let mut nums: Vec<Vec<i64>> = Vec::new();
        let mut i: usize = 0;
        while i < n
            invariant
                i <= n,
                n == rv.len(),
                rv == row_views(rows@),
                forall|ii: int| 0 <= ii < rows@.len() ==> #[trigger] rows@[ii]@ == rv[ii],
                forall|ii: int| 0 <= ii < rv.len() ==> #[trigger] rv[ii].len() == width,
                forall|ii: int, jj: int|
                    0 <= ii < rv.len() && 0 <= jj < width ==> -element_bound()
                        <= #[trigger] rv[ii][jj] <= element_bound(),
                mins@.len() == width,
                maxs@.len() == width,
                forall|jj: int|
                    0 <= jj < width && n > 0 ==> #[trigger] mins@[jj] == col_min(rv, jj)
                        && maxs@[jj] == col_max(rv, jj),
                nums@.len() == i,
                forall|ii: int| 0 <= ii < i ==> #[trigger] nums@[ii]@.len() == width,
                forall|ii: int, jj: int|
                    0 <= ii < i && 0 <= jj < width ==> #[trigger] nums@[ii]@[jj] == if col_min(
                        rv,
                        jj,
                    ) != col_max(rv, jj) {
                        rv[ii][jj] - col_min(rv, jj)
                    } else {
                        0int
                    },
            decreases n - i,
        {
            let mut row: Vec<i64> = Vec::new();
            let mut jj: usize = 0;
            while jj < width
                invariant
                    jj <= width,
                    i < n,
                    n == rv.len(),
                    rv == row_views(rows@),
                    forall|ii: int| 0 <= ii < rows@.len() ==> #[trigger] rows@[ii]@ == rv[ii],
                    forall|ii: int| 0 <= ii < rv.len() ==> #[trigger] rv[ii].len() == width,
                    forall|ii: int, j2: int|
                        0 <= ii < rv.len() && 0 <= j2 < width ==> -element_bound()
                            <= #[trigger] rv[ii][j2] <= element_bound(),
                    mins@.len() == width,
                    maxs@.len() == width,
                    forall|j2: int|
                        0 <= j2 < width && n > 0 ==> #[trigger] mins@[j2] == col_min(rv, j2)
                            && maxs@[j2] == col_max(rv, j2),
                    row@.len() == jj,
                    forall|j2: int|
                        0 <= j2 < jj ==> #[trigger] row@[j2] == if col_min(rv, j2) != col_max(
                            rv,
                            j2,
                        ) {
                            rv[i as int][j2] - col_min(rv, j2)
                        } else {
                            0int
                        },
                decreases width - jj,
            {
                proof {
                    lemma_col_extremes(rv, jj as int, -element_bound(), element_bound());
                }
                let mn = mins[jj];
                let mx = maxs[jj];
                if mn == mx {
                    row.push(0);
                } else {
                    row.push(rows[i][jj] - mn);
                }
                jj = jj + 1;
            }
            nums.push(row);
            i = i + 1;
        }
        let r = NormalizedMatrix { numerators: nums, denominators: dens };
        proof {
            assert(row_views(r.numerators@).len() == rv.len());
            assert(normalized_of(
                row_views(r.numerators@),
                r.denominators@,
                row_views(rows@),
                width as int,
            ));
        }
        r
    }

    /// Encodes and normalizes a whole shard collection: the base matrix and
    /// the TCP matrix each min-max normalized on their own columns, and one
    /// label per row, base labels first.
    pub fn batch(&self, items: &Vec<MetadataWrapper>) -> (r: NetworkTrafficBatch)
        requires
            dataset_bounded(items@),
        ensures
            normalized_of(
                row_views(r.base_inputs.numerators@),
                r.base_inputs.denominators@,
                dataset_base_rows(items@),
                7,
            ),
            normalized_of(
                row_views(r.tcp_inputs.numerators@),
                r.tcp_inputs.denominators@,
                dataset_tcp_rows(items@),
                11,
            ),
            r.targets@ == dataset_base_labels(items@) + dataset_tcp_labels(items@),
    {
        proof {
            lemma_dataset_rows_form(items@);
        }
        let encoded = encode(items);
        proof {
            assert(forall|i: int|
                0 <= i < encoded.base_rows@.len() ==> #[trigger] encoded.base_rows@[i]@
                    == row_views(encoded.base_rows@)[i]);
            assert(forall|i: int|
                0 <= i < encoded.tcp_rows@.len() ==> #[trigger] encoded.tcp_rows@[i]@ == row_views(
                    encoded.tcp_rows@,
                )[i]);
        }
        let base_inputs = self.min_max_norm(&encoded.base_rows, 7);
        let tcp_inputs = self.min_max_norm(&encoded.tcp_rows, 11);
        let mut targets = encoded.base_labels;
        let mut tcp_labels = encoded.tcp_labels;
        targets.append(&mut tcp_labels);
        NetworkTrafficBatch { base_inputs, tcp_inputs, targets }
    }
}

/// Whether one packet's duration stays within the element bound.
pub open spec fn packet_bounded(p: BasePacket) -> bool {
    -element_bound() <= p.packet_duration <= element_bound()
}

/// Whether every packet of one record is bounded.
pub open spec fn record_bounded(r: IpProtocol) -> bool {
    match r {
        IpProtocol::Tcp(d) => forall|k: int|
            0 <= k < d.packets@.len() ==> packet_bounded(#[trigger] d.packets@[k].base),
        IpProtocol::Udp(d) => forall|k: int|
            0 <= k < d.packets@.len() ==> packet_bounded(#[trigger] d.packets@[k]),
        IpProtocol::Gre(d) => forall|k: int|
            0 <= k < d.packets@.len() ==> packet_bounded(#[trigger] d.packets@[k]),
        IpProtocol::Icmp(d) => forall|k: int|
            0 <= k < d.packets@.len() ==> packet_bounded(#[trigger] d.packets@[k]),
    }
}

/// Whether every record of every shard is bounded.
pub open spec fn dataset_bounded(s: Seq<MetadataWrapper>) -> bool {
    forall|i: int, j: int|
        0 <= i < s.len() && 0 <= j < s[i].all_packets@.len() ==> record_bounded(
            #[trigger] s[i].all_packets@[j],
        )
}

/// Every base feature row of a shard collection has width 7 with entries
/// within the element bound, and every TCP feature row width 11 likewise.
pub proof fn lemma_dataset_rows_form(s: Seq<MetadataWrapper>)
    requires
        dataset_bounded(s),
    ensures
        forall|i: int|
            0 <= i < dataset_base_rows(s).len() ==> #[trigger] dataset_base_rows(s)[i].len() == 7,
        forall|i: int|
            0 <= i < dataset_tcp_rows(s).len() ==> #[trigger] dataset_tcp_rows(s)[i].len() == 11,
        elements_bounded(dataset_base_rows(s)),
        elements_bounded(dataset_tcp_rows(s)),
    decreases s.len(),
{
    if s.len() > 0 {
        assert(forall|i: int, j: int|
            0 <= i < s.drop_first().len() && 0 <= j < s.drop_first()[i].all_packets@.len()
                ==> record_bounded(#[trigger] s.drop_first()[i].all_packets@[j]));
        lemma_dataset_rows_form(s.drop_first());
        lemma_records_rows_form(s[0].all_packets@);
    }
}

/// Row widths and bounds for one record sequence.
proof fn lemma_records_rows_form(s: Seq<IpProtocol>)
    requires
        forall|j: int| 0 <= j < s.len() ==> record_bounded(#[trigger] s[j]),
    ensures
        forall|i: int|
            0 <= i < records_base_rows(s).len() ==> #[trigger] records_base_rows(s)[i].len() == 7,
        forall|i: int|
            0 <= i < records_tcp_rows(s).len() ==> #[trigger] records_tcp_rows(s)[i].len() == 11,
        elements_bounded(records_base_rows(s)),
        elements_bounded(records_tcp_rows(s)),
    decreases s.len(),
{
    if s.len() > 0 {
        assert(forall|j: int| 0 <= j < s.drop_first().len() ==> record_bounded(
            #[trigger] s.drop_first()[j],
        ));
        lemma_records_rows_form(s.drop_first());
        lemma_record_rows_form(s[0]);
    }
}

/// Row widths and bounds for one record: a TCP-tagged record emits only
/// rows of width 11, one per packet, and the other tags emit only rows of
/// width 7, with every entry within the element bound.
pub proof fn lemma_record_rows_form(r: IpProtocol)
    requires
        record_bounded(r),
    ensures
        forall|i: int|
            0 <= i < record_base_rows(r).len() ==> #[trigger] record_base_rows(r)[i].len() == 7,
        forall|i: int|
            0 <= i < record_tcp_rows(r).len() ==> #[trigger] record_tcp_rows(r)[i].len() == 11,
        r matches IpProtocol::Tcp(d) ==> record_base_rows(r).len() == 0 && record_tcp_rows(r).len()
            == d.packets@.len(),
        !(r is Tcp) ==> record_tcp_rows(r).len() == 0,
        elements_bounded(record_base_rows(r)),
        elements_bounded(record_tcp_rows(r)),
{
    match r {
        IpProtocol::Tcp(d) => {
            assert forall|i: int, j: int|
                0 <= i < record_tcp_rows(r).len() && 0 <= j < record_tcp_rows(r)[i].len() implies
                -element_bound() <= #[trigger] record_tcp_rows(r)[i][j] <= element_bound() by {
                assert(record_tcp_rows(r)[i] == tcp_row_spec(
                    d.port_source,
                    d.port_destination,
                    d.packets@[i],
                ));
                assert(packet_bounded(d.packets@[i].base));
            }
        },
        IpProtocol::Udp(d) => {
            assert forall|i: int, j: int|
                0 <= i < record_base_rows(r).len() && 0 <= j < record_base_rows(r)[i].len() implies
                -element_bound() <= #[trigger] record_base_rows(r)[i][j] <= element_bound() by {
                assert(record_base_rows(r)[i] == base_row_spec(
                    d.port_source,
                    d.port_destination,
                    d.packets@[i],
                ));
                assert(packet_bounded(d.packets@[i]));
            }
        },
        IpProtocol::Gre(d) => {
            assert forall|i: int, j: int|
                0 <= i < record_base_rows(r).len() && 0 <= j < record_base_rows(r)[i].len() implies
                -element_bound() <= #[trigger] record_base_rows(r)[i][j] <= element_bound() by {
                assert(record_base_rows(r)[i] == base_row_spec(
                    d.port_source,
                    d.port_destination,
                    d.packets@[i],
                ));
                assert(packet_bounded(d.packets@[i]));
            }
        },
        IpProtocol::Icmp(d) => {
            assert forall|i: int, j: int|
                0 <= i < record_base_rows(r).len() && 0 <= j < record_base_rows(r)[i].len() implies
                -element_bound() <= #[trigger] record_base_rows(r)[i][j] <= element_bound() by {
                assert(record_base_rows(r)[i] == base_row_spec(
                    d.port_source,
                    d.port_destination,
                    d.packets@[i],
                ));
                assert(packet_bounded(d.packets@[i]));
            }
        },
    }
}

/// After normalization, a column with non-zero range attains 0 as its least
/// numerator and the denominator as its greatest, so the normalized column
/// spans exactly 0 to 1; a zero-range column carries the substitute 0 in
/// every row.
pub proof fn lemma_normalized_bounds(
    nums: Seq<Seq<i64>>,
    dens: Seq<i64>,
    rows: Seq<Seq<i64>>,
    width: int,
    j: int,
)
    requires
        normalized_of(nums, dens, rows, width),
        elements_bounded(rows),
        forall|i: int| 0 <= i < rows.len() ==> #[trigger] rows[i].len() == width,
        0 <= j < width,
        rows.len() > 0,
    ensures
        col_min(rows, j) != col_max(rows, j) ==> col_min(nums, j) == 0 && col_max(nums, j)
            == dens[j] && dens[j] > 0,
        col_min(rows, j) == col_max(rows, j) ==> (forall|i: int|
            0 <= i < nums.len() ==> #[trigger] nums[i][j] == 0) && dens[j] == 1,
{
    lemma_col_extremes(rows, j, -element_bound(), element_bound());
    if col_min(rows, j) != col_max(rows, j) {
        assert(forall|i: int| 0 <= i < nums.len() ==> #[trigger] nums[i][j] == rows[i][j] - col_min(
            rows,
            j,
        ));
        lemma_col_shift(nums, rows, j, col_min(rows, j));
    }
}

} // verus!

