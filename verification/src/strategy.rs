use vstd::prelude::*;
use std::collections::HashMap;
use crate::codec::{
    read_tag, read_tag_spec, payload_vals, decode_stream, records_to_map, RecordView, key_of,
};

verus! {

broadcast use vstd::std_specs::hash::group_hash_axioms, vstd::array::group_array_axioms;

/// The strategy table as decoded from the compact blob: for each exported
/// `(history, private)` key, the nine palette indices of the quantized
/// distribution. Expanding palette indices to probabilities and normalizing
/// is the consumer's business.
pub struct Strategy {
    pub items: HashMap<u64, [u8; 9]>,
}

impl Strategy {
    /// The table as a mathematical map from lookup key to palette indices.
    pub open spec fn table(self) -> Map<u64, Seq<u8>> {
        self.items@.map_values(|v: [u8; 9]| v@)
    }

    /// Decodes a strategy blob. Returns `None` exactly where the blob is
    /// malformed: truncated, a tag pushed past the 32-bit range, or a payload
    /// byte naming a move index off the board.
    pub fn load(data: &[u8]) -> (r: Option<Strategy>)
        ensures
            match r {
                Some(s) => decode_stream(data@, 0, 0) is Some && s.table() == records_to_map(
                    decode_stream(data@, 0, 0).unwrap(),
                ),
                None => decode_stream(data@, 0, 0) is None,
            },
    {
        let mut items: HashMap<u64, [u8; 9]> = HashMap::new();
        let mut last_tag: u32 = 0;
        let mut i: usize = 0;
        let ghost mut done: Seq<RecordView> = Seq::empty();

        proof {
            assert(items@.map_values(|v: [u8; 9]| v@) =~= records_to_map(done));
        }

        while i < data.len()
            invariant
                i <= data.len(),
                items@.map_values(|v: [u8; 9]| v@) == records_to_map(done),
                forall|rs2: Seq<RecordView>|
                    decode_stream(data@, i as int, last_tag as int) == Some(rs2)
                        ==> decode_stream(data@, 0, 0) == Some(done + rs2),
                decode_stream(data@, i as int, last_tag as int) is None
                    ==> decode_stream(data@, 0, 0) is None,
            decreases data.len() - i,
        {
            let tag_j = match read_tag(data, i, last_tag) {
                Some(t) => t,
                None => {
                    return None;
                },
            };
            let tag = tag_j.0;
            let j = tag_j.1;

            let n: u32 = tag % 16;
            let private: u32 = (tag / 16) % 4;
            let history: u32 = tag / 64;

            let mut vals: [u8; 9] = [0; 9];
            proof {
                assert(vals@ =~= seq![0u8; 9]);
                assert(read_tag_spec(data@, i as int, last_tag as int) == Some(
                    (tag as int, j as int),
                ));
                if payload_vals(data@, j as int, n as int, seq![0u8; 9]) is None {
                    assert(decode_stream(data@, i as int, last_tag as int) is None);
                }
            }
            let mut k: usize = j;
            let mut cnt: u32 = 0;
            while cnt < n
                invariant
                    cnt <= n,
                    j <= k <= data.len(),
                    payload_vals(data@, j as int, n as int, seq![0u8; 9]) == payload_vals(
                        data@,
                        k as int,
                        n - cnt,
                        vals@,
                    ),
                    payload_vals(data@, j as int, n as int, seq![0u8; 9]) is None
                        ==> decode_stream(data@, 0, 0) is None,
                decreases n - cnt,
            {
                if k >= data.len() {
                    proof {
                        assert(payload_vals(data@, j as int, n as int, seq![0u8; 9]) is None);
                    }
                    return None;
                }
                let b = data[k];
                let ix = b / 16;
                let v = b % 16;
                if ix >= 9 {
                    proof {
                        assert(payload_vals(data@, j as int, n as int, seq![0u8; 9]) is None);
                    }
                    return None;
                }
                let ghost vals0 = vals@;
                vals[ix as usize] = v;
                proof {
                    assert(vals@ =~= vals0.update(ix as int, v));
                }
                k = k + 1;
                cnt = cnt + 1;
            }
            proof {
                assert(payload_vals(data@, j as int, n as int, seq![0u8; 9]) == Some(
                    (vals@, k as int),
                ));
            }

            let ghost rec = RecordView {
                history: history as int,
                private: private as int,
                vals: vals@,
            };
            let key: u64 = history as u64 * 4 + private as u64;
            let ghost items0 = items@;
            items.insert(key, vals);

            proof {
                assert(key == key_of(rec.history, rec.private));
                assert((done.push(rec)).drop_last() =~= done);
                assert((done.push(rec)).last() == rec);
                assert(records_to_map(done.push(rec)) =~= records_to_map(done).insert(
                    key,
                    vals@,
                ));
                assert(items@.map_values(|v: [u8; 9]| v@) =~= items0.map_values(
                    |v: [u8; 9]| v@,
                ).insert(key, vals@));

                // one decode step
                let dec_i = decode_stream(data@, i as int, last_tag as int);
                assert(read_tag_spec(data@, i as int, last_tag as int) == Some(
                    (tag as int, j as int),
                ));
                assert forall|rs2: Seq<RecordView>|
                    decode_stream(data@, k as int, tag as int) == Some(rs2) implies decode_stream(
                    data@,
                    0,
                    0,
                ) == Some(done.push(rec) + rs2) by {
                    assert(dec_i == Some(seq![rec] + rs2));
                    assert(done + (seq![rec] + rs2) =~= done.push(rec) + rs2);
                }
                assert(decode_stream(data@, k as int, tag as int) is None ==> dec_i is None);
            }
            proof {
                done = done.push(rec);
            }
            last_tag = tag;
            i = k;
        }
        proof {
            assert(decode_stream(data@, i as int, last_tag as int) == Some(
                Seq::<RecordView>::empty(),
            ));
            assert(done + Seq::<RecordView>::empty() =~= done);
        }
        Some(Strategy { items })
    }

    /// Looks one key up, returning the palette indices recorded for it, or
    /// `None` where the blob held no record for this key (the consumer then
    /// falls back to a uniform distribution over the legal moves).
    pub fn get(&self, history: u32, private: u32) -> (r: Option<[u8; 9]>)
        ensures
            match r {
                Some(v) => self.table().contains_key(key_of(history as int, private as int))
                    && v@ == self.table()[key_of(history as int, private as int)],
                None => !self.table().contains_key(key_of(history as int, private as int)),
            },
    {
        let key: u64 = history as u64 * 4 + private as u64;
        match self.items.get(&key) {
            Some(v) => Some(*v),
            None => None,
        }
    }
}

} // verus!
