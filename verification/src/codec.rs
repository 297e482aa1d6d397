use vstd::prelude::*;

verus! {

broadcast use vstd::array::group_array_axioms;

/// One exported infoset: the public history, the owning player's private
/// preference digit, and the nine quantized probabilities as palette indices
/// (0 meaning "not played", indices 1 to 15 naming nonzero palette entries).
#[derive(Clone, Copy, Debug)]
pub struct StrategyRecord {
    pub history: u32,
    pub private: u32,
    pub vals: [u8; 9],
}

/// The mathematical shadow of a `StrategyRecord`.
pub struct RecordView {
    pub history: int,
    pub private: int,
    pub vals: Seq<u8>,
}

impl View for StrategyRecord {
    type V = RecordView;

    open spec fn view(&self) -> RecordView {
        RecordView { history: self.history as int, private: self.private as int, vals: self.vals@ }
    }
}

impl DeepView for StrategyRecord {
    type V = RecordView;

    open spec fn deep_view(&self) -> RecordView {
        self@
    }
}

/// How many of the first `n` palette indices are nonzero.
pub open spec fn count_nonzero(vals: Seq<u8>, n: int) -> int
    decreases n,
{
    if n <= 0 {
        0
    } else {
        count_nonzero(vals, n - 1) + if vals[n - 1] == 0 { 0int } else { 1int }
    }
}

/// A record the wire format can carry: 26-bit history, 2-bit private digit,
/// 4-bit palette indices, and between 1 and 7 nonzero entries.
pub open spec fn record_wf(r: RecordView) -> bool {
    &&& 0 <= r.history < 0x400_0000
    &&& 0 <= r.private < 4
    &&& r.vals.len() == 9
    &&& forall|i: int| 0 <= i < 9 ==> r.vals[i] < 16
    &&& 1 <= count_nonzero(r.vals, 9) <= 7
}

/// The record's tag: history, private digit and nonzero count packed into one
/// integer, `history * 64 + private * 16 + count`.
pub open spec fn tag_of(r: RecordView) -> int {
    r.history * 64 + r.private * 16 + count_nonzero(r.vals, 9)
}

/// The serialized form of a tag, relative to the previously emitted tag:
/// a small delta fits one byte (top bits 00), a delta below 64*256 fits two
/// bytes (top bits 01, big-endian), and otherwise the absolute tag is written
/// in four bytes (top bit 1, big-endian, 31 bits of tag).
pub open spec fn tag_bytes(tag: int, last_tag: int) -> Seq<u8> {
    let delta = tag - last_tag;
    if delta < 64 {
        seq![delta as u8]
    } else if delta < 16384 {
        seq![(64 + delta / 256) as u8, (delta % 256) as u8]
    } else {
        seq![
            (128 + tag / 0x100_0000) as u8,
            ((tag / 0x1_0000) % 256) as u8,
            ((tag / 256) % 256) as u8,
            (tag % 256) as u8,
        ]
    }
}

/// The payload bytes for the first `n` cells: one byte per nonzero palette
/// index, `move_index * 16 + palette_index`, in move order.
pub open spec fn payload_bytes(vals: Seq<u8>, n: int) -> Seq<u8>
    decreases n,
{
    if n <= 0 {
        Seq::empty()
    } else {
        payload_bytes(vals, n - 1) + if vals[n - 1] == 0 {
            Seq::<u8>::empty()
        } else {
            seq![((n - 1) * 16 + vals[n - 1]) as u8]
        }
    }
}

/// The serialized form of one record.
pub open spec fn record_bytes(r: RecordView, last_tag: int) -> Seq<u8> {
    tag_bytes(tag_of(r), last_tag) + payload_bytes(r.vals, 9)
}

/// Can this record sequence be emitted after `last_tag`? Tags must be strictly
/// ascending, every record well formed, and a tag whose delta needs more than
/// two bytes must fit the 31-bit absolute form.
pub open spec fn chain_wf(rs: Seq<RecordView>, last_tag: int) -> bool
    decreases rs.len(),
{
    if rs.len() == 0 {
        true
    } else {
        &&& record_wf(rs[0])
        &&& last_tag < tag_of(rs[0])
        &&& (tag_of(rs[0]) - last_tag < 16384 || tag_of(rs[0]) < 0x8000_0000)
        &&& chain_wf(rs.drop_first(), tag_of(rs[0]))
    }
}

/// The whole exported blob for a record sequence.
pub open spec fn stream_bytes(rs: Seq<RecordView>, last_tag: int) -> Seq<u8>
    decreases rs.len(),
{
    if rs.len() == 0 {
        Seq::empty()
    } else {
        record_bytes(rs[0], last_tag) + stream_bytes(rs.drop_first(), tag_of(rs[0]))
    }
}

/// What reading a tag at position `i` yields: the tag value and the position
/// after it, or nothing if the buffer is too short.
pub open spec fn read_tag_spec(data: Seq<u8>, i: int, last_tag: int) -> Option<(int, int)> {
    if 0 <= i < data.len() {
        let b0 = data[i] as int;
        if b0 < 64 {
            Some((last_tag + b0, i + 1))
        } else if b0 < 128 {
            if i + 2 <= data.len() {
                Some((last_tag + (b0 - 64) * 256 + data[i + 1], i + 2))
            } else {
                None
            }
        } else {
            if i + 4 <= data.len() {
                Some(
                    (
                        (b0 - 128) * 0x100_0000 + data[i + 1] * 0x1_0000 + data[i + 2] * 256
                            + data[i + 3],
                        i + 4,
                    ),
                )
            } else {
                None
            }
        }
    } else {
        None
    }
}

/// What reading `n` payload bytes at position `i` yields, filling `acc` one
/// move index at a time; nothing if the buffer is too short or a byte names a
/// move index off the board.
pub open spec fn payload_vals(data: Seq<u8>, i: int, n: int, acc: Seq<u8>) -> Option<(Seq<u8>, int)>
    decreases n,
{
    if n <= 0 {
        Some((acc, i))
    } else if 0 <= i < data.len() {
        let b = data[i] as int;
        let ix = b / 16;
        let v = b % 16;
        if ix < 9 {
            payload_vals(data, i + 1, n - 1, acc.update(ix, v as u8))
        } else {
            None
        }
    } else {
        None
    }
}

/// The record sequence a blob decodes to, reading from position `i` with
/// `last_tag` as the delta base; nothing if the blob is malformed (truncated,
/// a tag above the 32-bit range, or a payload byte off the board).
pub open spec fn decode_stream(data: Seq<u8>, i: int, last_tag: int) -> Option<Seq<RecordView>>
    decreases data.len() - i,
{
    if i >= data.len() {
        Some(Seq::empty())
    } else {
        match read_tag_spec(data, i, last_tag) {
            None => None,
            Some((tag, j)) => if tag > u32::MAX {
                None
            } else {
                let n = tag % 16;
                let r0 = RecordView { history: tag / 64, private: (tag / 16) % 4, vals: seq![0u8; 9] };
                match payload_vals(data, j, n, seq![0u8; 9]) {
                    None => None,
                    Some((vals, k)) => if i < k <= data.len() {
                        match decode_stream(data, k, tag) {
                            None => None,
                            Some(rest) => Some(
                                seq![RecordView { vals, ..r0 }] + rest,
                            ),
                        }
                    } else {
                        None
                    },
                }
            },
        }
    }
}

/// The lookup key a record answers to: history and private digit combined.
pub open spec fn key_of(history: int, private: int) -> u64 {
    (history * 4 + private) as u64
}

/// The lookup table a decoded record sequence builds: later records overwrite
/// earlier ones with the same key.
pub open spec fn records_to_map(rs: Seq<RecordView>) -> Map<u64, Seq<u8>>
    decreases rs.len(),
{
    if rs.len() == 0 {
        Map::empty()
    } else {
        records_to_map(rs.drop_last()).insert(
            key_of(rs.last().history, rs.last().private),
            rs.last().vals,
        )
    }
}

/// A tag written after `last_tag` reads back exactly, whichever of the three
/// encoding widths it needs.
pub proof fn lemma_tag_round_trip(data: Seq<u8>, i: int, tag: int, last_tag: int)
    requires
        0 <= last_tag <= tag <= u32::MAX,
        tag - last_tag < 16384 || tag < 0x8000_0000,
        0 <= i,
        i + tag_bytes(tag, last_tag).len() <= data.len(),
        forall|p: int| 0 <= p < tag_bytes(tag, last_tag).len()
            ==> data[i + p] == tag_bytes(tag, last_tag)[p],
    ensures
        read_tag_spec(data, i, last_tag) == Some((tag, i + tag_bytes(tag, last_tag).len())),
{
    let delta = tag - last_tag;
    let bytes = tag_bytes(tag, last_tag);
    assert(data[i + 0] == bytes[0]);
    if delta < 64 {
        assert(data[i] as int == delta);
    } else if delta < 16384 {
        assert(0 <= delta / 256 < 64) by (nonlinear_arith)
            requires 64 <= delta < 16384;
        assert(data[i] == bytes[0] && data[i + 1] == bytes[1]);
        assert(data[i] as int == 64 + delta / 256);
        assert(data[i + 1] as int == delta % 256);
        assert(delta == (delta / 256) * 256 + delta % 256) by {
            vstd::arithmetic::div_mod::lemma_fundamental_div_mod(delta, 256);
        }
    } else {
        let t = tag as u32;
        assert(t == tag);
        assert((t / 0x100_0000) * 0x100_0000 + ((t / 0x1_0000) % 256) * 0x1_0000 + ((t / 256)
            % 256) * 256 + (t % 256) == t && t / 0x100_0000 < 128) by (bit_vector)
            requires t < 0x8000_0000u32;
        assert(data[i] == bytes[0] && data[i + 1] == bytes[1] && data[i + 2] == bytes[2] && data[i
            + 3] == bytes[3]);
        assert(data[i] as int == 128 + tag / 0x100_0000);
        assert(data[i + 1] as int == (tag / 0x1_0000) % 256);
        assert(data[i + 2] as int == (tag / 256) % 256);
        assert(data[i + 3] as int == tag % 256);
    }
}

/// The accumulator state of a payload read that has restored the first `p`
/// move indices: the rest still zero.
pub open spec fn acc_prefix(vals: Seq<u8>, p: int) -> Seq<u8> {
    Seq::new(9, |q: int| if q < p { vals[q] } else { 0u8 })
}

proof fn lemma_count_nonzero_monotone(vals: Seq<u8>, a: int, b: int)
    requires
        0 <= a <= b,
    ensures
        0 <= count_nonzero(vals, a) <= count_nonzero(vals, b),
    decreases b,
{
    if a < b {
        lemma_count_nonzero_monotone(vals, a, b - 1);
    } else if b > 0 {
        lemma_count_nonzero_monotone(vals, a - 1, b - 1);
    }
}

/// Earlier payload bytes are a prefix of later ones.
proof fn lemma_payload_prefix(vals: Seq<u8>, a: int, b: int)
    requires
        0 <= a <= b,
    ensures
        payload_bytes(vals, a).len() <= payload_bytes(vals, b).len(),
        forall|q: int| 0 <= q < payload_bytes(vals, a).len()
            ==> payload_bytes(vals, b)[q] == payload_bytes(vals, a)[q],
    decreases b - a,
{
    if a < b {
        lemma_payload_prefix(vals, a, b - 1);
    }
}

proof fn lemma_payload_len(vals: Seq<u8>, n: int)
    requires
        0 <= n,
    ensures
        payload_bytes(vals, n).len() == count_nonzero(vals, n),
    decreases n,
{
    if n > 0 {
        lemma_payload_len(vals, n - 1);
    }
}

/// A payload written for `vals` reads back to exactly `vals`, restoring the
/// zeroed accumulator one nonzero entry at a time.
proof fn lemma_payload_round_trip_from(data: Seq<u8>, base: int, vals: Seq<u8>, p: int)
    requires
        vals.len() == 9,
        forall|q: int| 0 <= q < 9 ==> vals[q] < 16,
        0 <= p <= 9,
        0 <= base,
        base + payload_bytes(vals, 9).len() <= data.len(),
        forall|q: int| 0 <= q < payload_bytes(vals, 9).len()
            ==> data[base + q] == payload_bytes(vals, 9)[q],
    ensures
        payload_vals(
            data,
            base + payload_bytes(vals, p).len(),
            count_nonzero(vals, 9) - count_nonzero(vals, p),
            acc_prefix(vals, p),
        ) == Some((vals, base + payload_bytes(vals, 9).len())),
    decreases 9 - p,
{
    lemma_payload_prefix(vals, p, 9);
    lemma_count_nonzero_monotone(vals, p, 9);
    if p == 9 {
        assert(acc_prefix(vals, 9) =~= vals);
    } else {
        lemma_payload_round_trip_from(data, base, vals, p + 1);
        if vals[p] == 0 {
            assert(payload_bytes(vals, p + 1) =~= payload_bytes(vals, p));
            assert(acc_prefix(vals, p + 1) =~= acc_prefix(vals, p));
        } else {
            let here = base + payload_bytes(vals, p).len();
            let b = ((p * 16 + vals[p]) as u8);
            assert(payload_bytes(vals, p + 1) =~= payload_bytes(vals, p) + seq![b]);
            assert(data[here] == b) by {
                lemma_payload_prefix(vals, p + 1, 9);
                assert(payload_bytes(vals, 9)[payload_bytes(vals, p).len() as int] == b);
            }
            assert(b as int == p * 16 + vals[p]);
            assert(b as int / 16 == p && b as int % 16 == vals[p]) by (nonlinear_arith)
                requires 0 <= p < 9 && 0 <= vals[p] < 16 && b as int == p * 16 + vals[p];
            assert(acc_prefix(vals, p).update(p, vals[p]) =~= acc_prefix(vals, p + 1));
            assert(here < data.len()) by {
                lemma_payload_prefix(vals, p + 1, 9);
            }
            let n_here = count_nonzero(vals, 9) - count_nonzero(vals, p);
            assert(n_here > 0) by {
                lemma_count_nonzero_monotone(vals, p + 1, 9);
            }
            assert(payload_vals(data, here, n_here, acc_prefix(vals, p)) == payload_vals(
                data,
                here + 1,
                n_here - 1,
                acc_prefix(vals, p + 1),
            ));
        }
    }
}

/// A well-formed, tag-ascending record batch decodes from its own blob to
/// exactly itself: the full encode/decode round trip, provided the blob is
/// read to its end.
pub proof fn lemma_stream_round_trip(data: Seq<u8>, i: int, rs: Seq<RecordView>, last_tag: int)
    requires
        chain_wf(rs, last_tag),
        0 <= last_tag <= u32::MAX,
        0 <= i,
        i + stream_bytes(rs, last_tag).len() == data.len(),
        forall|q: int| 0 <= q < stream_bytes(rs, last_tag).len()
            ==> data[i + q] == stream_bytes(rs, last_tag)[q],
    ensures
        decode_stream(data, i, last_tag) == Some(rs),
    decreases rs.len(),
{
    if rs.len() == 0 {
        assert(decode_stream(data, i, last_tag) == Some(Seq::<RecordView>::empty()));
        assert(rs =~= Seq::<RecordView>::empty());
    } else {
        let r0 = rs[0];
        let tag = tag_of(r0);
        let h = r0.history;
        let pv = r0.private;
        let n = count_nonzero(r0.vals, 9);
        let tb = tag_bytes(tag, last_tag);
        let pb = payload_bytes(r0.vals, 9);
        let rest = stream_bytes(rs.drop_first(), tag);
        assert(stream_bytes(rs, last_tag) =~= tb + pb + rest);

        assert(tag <= u32::MAX) by (nonlinear_arith)
            requires tag == h * 64 + pv * 16 + n && 0 <= h < 0x400_0000 && 0 <= pv < 4 && 0 <= n
                <= 7;

        let sb = stream_bytes(rs, last_tag);
        assert forall|p: int| 0 <= p < tb.len() implies data[i + p] == tb[p] by {
            assert(sb[p] == tb[p]);
            assert(data[i + p] == sb[p]);
        }
        lemma_tag_round_trip(data, i, tag, last_tag);
        let j = i + tb.len();

        lemma_payload_len(r0.vals, 9);
        assert forall|q: int| 0 <= q < pb.len() implies data[j + q] == pb[q] by {
            assert(sb[tb.len() + q] == pb[q]);
            assert(data[i + (tb.len() + q)] == sb[tb.len() + q]);
            assert(i + (tb.len() + q) == j + q);
        }
        lemma_payload_round_trip_from(data, j, r0.vals, 0);
        assert(payload_bytes(r0.vals, 0).len() == 0 && count_nonzero(r0.vals, 0) == 0);
        assert(acc_prefix(r0.vals, 0) =~= seq![0u8; 9]);
        let k = j + pb.len();
        assert(payload_vals(data, j, n, seq![0u8; 9]) == Some((r0.vals, k)));

        assert(tag % 16 == n && (tag / 16) % 4 == pv && tag / 64 == h) by (nonlinear_arith)
            requires tag == h * 64 + pv * 16 + n && 0 <= h && 0 <= pv < 4 && 0 <= n < 16;

        assert forall|q: int| 0 <= q < rest.len() implies data[k + q] == rest[q] by {
            assert(sb[tb.len() + pb.len() + q] == rest[q]);
            assert(data[i + (tb.len() + pb.len() + q)] == sb[tb.len() + pb.len() + q]);
            assert(i + (tb.len() + pb.len() + q) == k + q);
        }
        lemma_stream_round_trip(data, k, rs.drop_first(), tag);

        assert(decode_stream(data, i, last_tag) == Some(
            seq![
                RecordView { history: tag / 64, private: (tag / 16) % 4, vals: r0.vals },
            ] + rs.drop_first(),
        ));
        assert(RecordView { history: tag / 64, private: (tag / 16) % 4, vals: r0.vals } == r0);
        assert(seq![r0] + rs.drop_first() =~= rs);
    }
}

/// The full export round trip: a well-formed, tag-ascending record batch
/// decodes from its own blob to exactly itself, so a decoder holds exactly
/// the exported keys with their exact palette indices, and no others.
pub proof fn lemma_export_round_trip(rs: Seq<RecordView>)
    requires
        chain_wf(rs, 0),
    ensures
        decode_stream(stream_bytes(rs, 0), 0, 0) == Some(rs),
{
    lemma_stream_round_trip(stream_bytes(rs, 0), 0, rs, 0);
}

/// The lookup table built from a batch with pairwise distinct keys holds
/// exactly that batch: each encoded key maps to its own palette indices.
pub proof fn lemma_records_to_map_lookup(rs: Seq<RecordView>, k: int)
    requires
        0 <= k < rs.len(),
        forall|a: int, b: int| 0 <= a < b < rs.len() ==> key_of((#[trigger] rs[a]).history, rs[a].private)
            != key_of((#[trigger] rs[b]).history, rs[b].private),
    ensures
        records_to_map(rs).contains_key(key_of(rs[k].history, rs[k].private)),
        records_to_map(rs)[key_of(rs[k].history, rs[k].private)] == rs[k].vals,
    decreases rs.len(),
{
    if k < rs.len() - 1 {
        lemma_records_to_map_lookup(rs.drop_last(), k);
        assert(rs.drop_last()[k] == rs[k]);
    }
}

/// Only encoded keys appear in the lookup table: a key filtered out of the
/// export is absent, and a query for it falls back to the caller's default.
pub proof fn lemma_records_to_map_domain(rs: Seq<RecordView>, key: u64)
    requires
        records_to_map(rs).contains_key(key),
    ensures
        exists|k: int| 0 <= k < rs.len() && key_of((#[trigger] rs[k]).history, rs[k].private)
            == key,
    decreases rs.len(),
{
    if rs.len() > 0 {
        if key_of(rs.last().history, rs.last().private) == key {
            assert(rs[rs.len() - 1] == rs.last());
        } else {
            lemma_records_to_map_domain(rs.drop_last(), key);
            let k = choose|k: int| 0 <= k < rs.drop_last().len() && key_of(
                (#[trigger] rs.drop_last()[k]).history,
                rs.drop_last()[k].private,
            ) == key;
            assert(rs[k] == rs.drop_last()[k]);
        }
    }
}

/// Reads one variable-length tag. Returns the tag and the position after it,
/// or `None` where the buffer is too short or the delta would push the tag
/// past the 32-bit range.
pub fn read_tag(data: &[u8], i: usize, last_tag: u32) -> (r: Option<(u32, usize)>)
    ensures
        match r {
            Some(t) => read_tag_spec(data@, i as int, last_tag as int) == Some(
                (t.0 as int, t.1 as int),
            ),
            None => read_tag_spec(data@, i as int, last_tag as int) is None
                || read_tag_spec(data@, i as int, last_tag as int).unwrap().0 > u32::MAX,
        },
{
    if i >= data.len() {
        return None;
    }
    let b0 = data[i];
    if b0 < 64 {
        let t64: u64 = last_tag as u64 + b0 as u64;
        if t64 > u32::MAX as u64 {
            return None;
        }
        Some((t64 as u32, i + 1))
    } else if b0 < 128 {
        if data.len() - i < 2 {
            return None;
        }
        let t64: u64 = last_tag as u64 + (b0 - 64) as u64 * 256 + data[i + 1] as u64;
        if t64 > u32::MAX as u64 {
            return None;
        }
        Some((t64 as u32, i + 2))
    } else {
        if data.len() - i < 4 {
            return None;
        }
        let t: u32 = (b0 - 128) as u32 * 0x100_0000 + data[i + 1] as u32 * 0x1_0000
            + data[i + 2] as u32 * 256 + data[i + 3] as u32;
        Some((t, i + 4))
    }
}

/// Serializes a sorted batch of records into the compact blob, or reports by
/// `None` that the batch is not encodable: a record malformed, tags not
/// strictly ascending, or a wide jump whose absolute tag exceeds 31 bits.
pub fn encode_records(records: &Vec<StrategyRecord>) -> (r: Option<Vec<u8>>)
    ensures
        match r {
            Some(bytes) => chain_wf(records.deep_view(), 0) && bytes@ == stream_bytes(
                records.deep_view(),
                0,
            ),
            None => !chain_wf(records.deep_view(), 0),
        },
{
    let mut out: Vec<u8> = Vec::new();
    let mut last_tag: u32 = 0;
    let mut idx: usize = 0;
    let ghost rs = records.deep_view();
    proof {
        assert(rs.skip(0) =~= rs);
    }

    while idx < records.len()
        invariant
            idx <= records.len(),
            rs == records.deep_view(),
            rs.len() == records.len(),
            forall|k: int| 0 <= k < rs.len() ==> rs[k] == records@[k]@,
            stream_bytes(rs, 0) == out@ + stream_bytes(rs.skip(idx as int), last_tag as int),
            chain_wf(rs, 0) <==> chain_wf(rs.skip(idx as int), last_tag as int),
        decreases records.len() - idx,
    {
        let rec = records[idx];
        let ghost suffix = rs.skip(idx as int);
        proof {
            assert(suffix[0] == rec@);
            assert(suffix.drop_first() =~= rs.skip(idx as int + 1));
        }

        // validate the record
        let mut n_nonzero: u32 = 0;
        let mut ok: bool = true;
        let mut c: usize = 0;
        while c < 9
            invariant
                c <= 9,
                n_nonzero == count_nonzero(rec.vals@, c as int),
                0 <= n_nonzero <= c,
                ok <==> forall|i: int| 0 <= i < c ==> rec.vals@[i] < 16,
            decreases 9 - c,
        {
            if rec.vals[c] >= 16 {
                ok = false;
            }
            if rec.vals[c] != 0 {
                n_nonzero = n_nonzero + 1;
            }
            c = c + 1;
        }
        if !ok || n_nonzero == 0 || n_nonzero > 7 || rec.history >= 0x400_0000 || rec.private >= 4 {
            proof {
                assert(!record_wf(suffix[0]));
                assert(!chain_wf(suffix, last_tag as int));
            }
            return None;
        }

        let tag: u32 = rec.history * 64 + rec.private * 16 + n_nonzero;
        proof {
            assert(tag == tag_of(rec@));
        }
        if tag <= last_tag {
            proof {
                assert(!chain_wf(suffix, last_tag as int));
            }
            return None;
        }
        let delta: u32 = tag - last_tag;
        if delta >= 16384 && tag >= 0x8000_0000 {
            proof {
                assert(!chain_wf(suffix, last_tag as int));
            }
            return None;
        }

        // emit the tag
        let ghost out_before = out@;
        if delta < 64 {
            out.push(delta as u8);
        } else if delta < 16384 {
            out.push((64 + delta / 256) as u8);
            out.push((delta % 256) as u8);
        } else {
            out.push((128 + tag / 0x100_0000) as u8);
            out.push(((tag / 0x1_0000) % 256) as u8);
            out.push(((tag / 256) % 256) as u8);
            out.push((tag % 256) as u8);
        }
        proof {
            assert(out@ =~= out_before + tag_bytes(tag_of(rec@), last_tag as int));
        }

        // emit the payload
        let ghost out_tagged = out@;
        let mut p: usize = 0;
        while p < 9
            invariant
                p <= 9,
                forall|i: int| 0 <= i < 9 ==> rec.vals@[i] < 16,
                out@ == out_tagged + payload_bytes(rec.vals@, p as int),
            decreases 9 - p,
        {
            if rec.vals[p] != 0 {
                out.push((p as u8) * 16 + rec.vals[p]);
                proof {
                    assert(((p as int) * 16 + rec.vals@[p as int]) as u8 == (p as u8) * 16
                        + rec.vals@[p as int]);
                    assert(out@ =~= out_tagged + payload_bytes(rec.vals@, p as int + 1));
                }
            } else {
                proof {
                    assert(out@ =~= out_tagged + payload_bytes(rec.vals@, p as int + 1));
                }
            }
            p = p + 1;
        }

        proof {
            assert(record_wf(suffix[0]));
            assert(out@ =~= out_before + record_bytes(rec@, last_tag as int));
            assert(stream_bytes(suffix, last_tag as int) == record_bytes(rec@, last_tag as int)
                + stream_bytes(suffix.drop_first(), tag_of(rec@)));
            assert(stream_bytes(rs, 0) =~= out@ + stream_bytes(
                rs.skip(idx as int + 1),
                tag as int,
            ));
            assert(chain_wf(suffix, last_tag as int) <==> chain_wf(
                rs.skip(idx as int + 1),
                tag as int,
            ));
        }
        last_tag = tag;
        idx = idx + 1;
    }
    proof {
        assert(rs.skip(rs.len() as int) =~= Seq::<RecordView>::empty());
        assert(stream_bytes(rs, 0) =~= out@);
    }
    Some(out)
}

} // verus!
