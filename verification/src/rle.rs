//! Run-length encoding: collapsing maximal runs of consecutive equal values
//! into `(value, run length)` records, and expanding such records back.
use vstd::prelude::*;

use crate::{vals, ColumnError, DataType, Val, Value};

verus! {

/// One run: a value together with the number of consecutive times it
/// occurs. The non-run-length decode path wraps each raw value with
/// `run_length == 1` so both paths share one result shape.
#[derive(Copy, Clone, Debug, PartialEq)]
pub struct Values<T> {
    pub value: T,
    pub run_length: u64,
}

impl<T> Values<T> {
    /// Wraps a single raw value as a run of length one.
    pub fn single(element: T) -> (r: Self)
        ensures
            r.value == element,
            r.run_length == 1,
    {
        Values { value: element, run_length: 1 }
    }
}

impl<T: Copy> Values<T> {
    /// Materialises the run: the value, repeated `run_length` times.
    pub fn repeated(&self) -> (r: Vec<T>)
        requires
            self.run_length <= usize::MAX,
        ensures
            r@ == Seq::new(self.run_length as nat, |i: int| self.value),
    {
        let mut out: Vec<T> = Vec::new();
        let mut i: u64 = 0;
        while i < self.run_length
            invariant
                0 <= i <= self.run_length,
                self.run_length <= usize::MAX,
                out@ == Seq::new(i as nat, |j: int| self.value),
            decreases self.run_length - i,
        {
            out.push(self.value);
            i = i + 1;
            proof {
                assert(out@ =~= Seq::new(i as nat, |j: int| self.value));
            }
        }
        out
    }
}

/// The value repeated `n` times.
pub open spec fn repeat_val(v: Val, n: nat) -> Seq<Val> {
    Seq::new(n, |i: int| v)
}

/// Expansion of a sequence of runs back into the value stream it stands
/// for.
pub open spec fn expand_runs(rs: Seq<(Val, u64)>) -> Seq<Val>
    decreases rs.len(),
{
    if rs.len() == 0 {
        Seq::empty()
    } else {
        expand_runs(rs.drop_last()) + repeat_val(rs.last().0, rs.last().1 as nat)
    }
}

/// The number of logical values a sequence of runs stands for.
pub open spec fn run_total(rs: Seq<(Val, u64)>) -> int
    decreases rs.len(),
{
    if rs.len() == 0 {
        0
    } else {
        run_total(rs.drop_last()) + rs.last().1
    }
}

/// Run-length encoding of a value stream: each maximal run of consecutive
/// equal values becomes one record, except that a run is cut when its
/// length reaches the run-length field's ceiling.
pub open spec fn rle_of(s: Seq<Val>) -> Seq<(Val, u64)>
    decreases s.len(),
{
    if s.len() == 0 {
        Seq::empty()
    } else {
        let rest = rle_of(s.drop_last());
        let v = s.last();
        if rest.len() > 0 && rest.last().0 == v && rest.last().1 < u64::MAX {
            rest.update(rest.len() - 1, (v, (rest.last().1 + 1) as u64))
        } else {
            rest.push((v, 1u64))
        }
    }
}

/// Every value wrapped as a run of length one: the shape of the raw,
/// non-run-length record stream.
pub open spec fn singles(s: Seq<Val>) -> Seq<(Val, u64)> {
    s.map_values(|v: Val| (v, 1u64))
}

/// No two consecutive values of the stream are equal.
pub open spec fn no_repetition(s: Seq<Val>) -> bool {
    forall|i: int| 0 <= i && i + 1 < s.len() ==> (#[trigger] s[i]) != s[i + 1]
}

/// The views of a sequence of run records.
pub open spec fn runs(rs: Seq<Values<Value>>) -> Seq<(Val, u64)> {
    rs.map_values(|r: Values<Value>| (r.value@, r.run_length))
}

proof fn lemma_expand_update_last(rs: Seq<(Val, u64)>, v: Val, c: u64)
    requires
        rs.len() > 0,
        rs.last() == (v, c),
        c < u64::MAX,
    ensures
        expand_runs(rs.update(rs.len() - 1, (v, (c + 1) as u64))) == expand_runs(rs) + seq![v],
{
    let rs2 = rs.update(rs.len() - 1, (v, (c + 1) as u64));
    assert(rs2.drop_last() =~= rs.drop_last());
    assert(rs2.last() == (v, (c + 1) as u64));
    assert(repeat_val(v, (c + 1) as nat) =~= repeat_val(v, c as nat) + seq![v]);
    assert(expand_runs(rs2) =~= expand_runs(rs) + seq![v]);
}

proof fn lemma_expand_push(rs: Seq<(Val, u64)>, v: Val)
    ensures
        expand_runs(rs.push((v, 1u64))) == expand_runs(rs) + seq![v],
{
    let rs2 = rs.push((v, 1u64));
    assert(rs2.drop_last() =~= rs);
    assert(repeat_val(v, 1nat) =~= seq![v]);
    assert(expand_runs(rs2) =~= expand_runs(rs) + seq![v]);
}

/// The shape of a run-length encoding: every run is non-empty, the encoding
/// never has more records than values, it accounts for every value exactly
/// once, and its last record carries the stream's last value.
pub proof fn lemma_rle_shape(s: Seq<Val>)
    ensures
        forall|i: int| 0 <= i < rle_of(s).len() ==> (#[trigger] rle_of(s)[i].1) >= 1,
        rle_of(s).len() <= s.len(),
        run_total(rle_of(s)) == s.len(),
        s.len() == 0 <==> rle_of(s).len() == 0,
        s.len() > 0 ==> rle_of(s).last().0 == s.last(),
    decreases s.len(),
{
    if s.len() > 0 {
        lemma_rle_shape(s.drop_last());
        let rest = rle_of(s.drop_last());
        let v = s.last();
        if rest.len() > 0 && rest.last().0 == v && rest.last().1 < u64::MAX {
            let rs2 = rest.update(rest.len() - 1, (v, (rest.last().1 + 1) as u64));
            assert(rs2.drop_last() =~= rest.drop_last());
            assert(run_total(rs2) == run_total(rest) + 1);
        } else {
            let rs2 = rest.push((v, 1u64));
            assert(rs2.drop_last() =~= rest);
        }
    }
}

/// Run-length round trip: expanding the run-length encoding of any value
/// stream yields that stream again, exactly and in order.
pub proof fn lemma_rle_expand(s: Seq<Val>)
    ensures
        expand_runs(rle_of(s)) == s,
    decreases s.len(),
{
    if s.len() == 0 {
        assert(expand_runs(rle_of(s)) =~= s);
    } else {
        lemma_rle_expand(s.drop_last());
        let rest = rle_of(s.drop_last());
        let v = s.last();
        if rest.len() > 0 && rest.last().0 == v && rest.last().1 < u64::MAX {
            lemma_expand_update_last(rest, v, rest.last().1);
        } else {
            lemma_expand_push(rest, v);
        }
        assert(expand_runs(rle_of(s)) =~= s);
    }
}

/// On a stream without consecutive repetition, run-length encoding is the
/// same record stream as the raw encoding: one record per value, each with
/// run length one.
pub proof fn lemma_rle_no_repetition(s: Seq<Val>)
    requires
        no_repetition(s),
    ensures
        rle_of(s) == singles(s),
    decreases s.len(),
{
    if s.len() == 0 {
        assert(rle_of(s) =~= singles(s));
    } else {
        assert(no_repetition(s.drop_last()));
        lemma_rle_no_repetition(s.drop_last());
        lemma_rle_shape(s.drop_last());
        let rest = rle_of(s.drop_last());
        let v = s.last();
        if rest.len() > 0 {
            assert(rest.last().0 == s.drop_last().last());
            assert(s[s.len() - 2] != s[s.len() - 1]);
        }
        assert(rle_of(s) =~= singles(s));
    }
}

/// Runs are maximal: two consecutive records of a run-length encoding never
/// carry the same value, unless the first was cut at the run-length field's
/// ceiling.
pub proof fn lemma_rle_maximal(s: Seq<Val>)
    ensures
        forall|i: int|
            0 <= i && i + 1 < rle_of(s).len() ==> ((#[trigger] rle_of(s)[i]).0 != rle_of(s)[i
                + 1].0 || rle_of(s)[i].1 == u64::MAX),
    decreases s.len(),
{
    if s.len() > 0 {
        lemma_rle_maximal(s.drop_last());
        let rest = rle_of(s.drop_last());
        let v = s.last();
        let rs2 = rle_of(s);
        if rest.len() > 0 && rest.last().0 == v && rest.last().1 < u64::MAX {
            assert forall|i: int| 0 <= i && i + 1 < rs2.len() implies ((#[trigger] rs2[i]).0
                != rs2[i + 1].0 || rs2[i].1 == u64::MAX) by {
                assert(rs2[i].0 == rest[i].0);
                assert(rs2[i + 1].0 == rest[i + 1].0);
                if i + 1 < rs2.len() - 1 {
                    assert(rs2[i] == rest[i]);
                }
            }
        } else {
            assert forall|i: int| 0 <= i && i + 1 < rs2.len() implies ((#[trigger] rs2[i]).0
                != rs2[i + 1].0 || rs2[i].1 == u64::MAX) by {
                if i + 1 < rs2.len() - 1 {
                    assert(rs2[i] == rest[i]);
                    assert(rs2[i + 1] == rest[i + 1]);
                }
            }
        }
    }
}

/// Expanding one run per value gives the value stream back unchanged.
pub proof fn lemma_singles_expand(s: Seq<Val>)
    ensures
        expand_runs(singles(s)) == s,
    decreases s.len(),
{
    if s.len() == 0 {
        assert(expand_runs(singles(s)) =~= s);
    } else {
        lemma_singles_expand(s.drop_last());
        assert(singles(s).drop_last() =~= singles(s.drop_last()));
        assert(singles(s).last() == (s.last(), 1u64));
        assert(repeat_val(s.last(), 1nat) =~= seq![s.last()]);
        assert(expand_runs(singles(s)) =~= s);
    }
}

/// Total number of value bytes in the raw encoding of a stream.
pub open spec fn vals_size(s: Seq<Val>) -> int
    decreases s.len(),
{
    if s.len() == 0 {
        0
    } else {
        vals_size(s.drop_last()) + crate::codec::enc_val(s.last()).len()
    }
}

/// Total number of value bytes in a record stream, not counting the
/// run-length fields.
pub open spec fn run_vals_size(rs: Seq<(Val, u64)>) -> int
    decreases rs.len(),
{
    if rs.len() == 0 {
        0
    } else {
        run_vals_size(rs.drop_last()) + crate::codec::enc_val(rs.last().0).len()
    }
}

proof fn lemma_singles_size(s: Seq<Val>)
    ensures
        run_vals_size(singles(s)) == vals_size(s),
        singles(s).len() == s.len(),
    decreases s.len(),
{
    if s.len() > 0 {
        lemma_singles_size(s.drop_last());
        assert(singles(s).drop_last() =~= singles(s.drop_last()));
    }
}

/// Run-length encoding never increases the encoded size: it writes at most
/// as many records as the raw encoding, and at most as many value bytes
/// (the run-length fields being the fixed per-record overhead); and on a
/// stream without consecutive repetition it writes exactly the raw record
/// stream, of exactly the same size.
pub proof fn lemma_rle_never_larger(s: Seq<Val>)
    ensures
        rle_of(s).len() <= s.len(),
        run_vals_size(rle_of(s)) <= vals_size(s),
        no_repetition(s) ==> rle_of(s) == singles(s) && rle_of(s).len() == s.len()
            && run_vals_size(rle_of(s)) == vals_size(s),
    decreases s.len(),
{
    if s.len() > 0 {
        lemma_rle_never_larger(s.drop_last());
        let rest = rle_of(s.drop_last());
        let v = s.last();
        if rest.len() > 0 && rest.last().0 == v && rest.last().1 < u64::MAX {
            let rs2 = rest.update(rest.len() - 1, (v, (rest.last().1 + 1) as u64));
            assert(rs2.drop_last() =~= rest.drop_last());
            assert(run_vals_size(rs2) == run_vals_size(rest));
        } else {
            let rs2 = rest.push((v, 1u64));
            assert(rs2.drop_last() =~= rest);
        }
    }
    if no_repetition(s) {
        lemma_rle_no_repetition(s);
        lemma_singles_size(s);
    }
}

/// Lazily groups the input into maximal runs of consecutive equal values:
/// one forward pass with a current-run state, no backtracking.
pub fn encode_iter(data: &Vec<Value>) -> (r: Vec<Values<Value>>)
    ensures
        runs(r@) == rle_of(vals(data@)),
{
    let mut out: Vec<Values<Value>> = Vec::new();
    if data.len() == 0 {
        proof {
            assert(runs(out@) =~= rle_of(vals(data@)));
        }
        return out;
    }
    let mut cur: Value = data[0].clone();
    let mut count: u64 = 1;
    let mut i: usize = 1;
    proof {
        assert(vals(data@.take(1)).drop_last() =~= Seq::<Val>::empty());
        assert(rle_of(Seq::<Val>::empty()) == Seq::<(Val, u64)>::empty());
        assert(vals(data@.take(1)).last() == data@[0]@);
        assert(runs(out@) =~= Seq::<(Val, u64)>::empty());
        assert(runs(out@).push((cur@, count)) =~= rle_of(vals(data@.take(1))));
    }
    while i < data.len()
        invariant
            1 <= i <= data@.len(),
            runs(out@).push((cur@, count)) == rle_of(vals(data@.take(i as int))),
            count >= 1,
        decreases data@.len() - i,
    {
        proof {
            assert(vals(data@.take(i + 1)).drop_last() =~= vals(data@.take(i as int)));
            assert(vals(data@.take(i + 1)).last() == data@[i as int]@);
            assert(rle_of(vals(data@.take(i as int))).last() == (cur@, count));
        }
        if data[i] == cur && count < u64::MAX {
            count = count + 1;
            proof {
                let prev = rle_of(vals(data@.take(i as int)));
                assert(prev.update(prev.len() - 1, (cur@, count)) =~= runs(out@).push(
                    (cur@, count),
                ));
            }
        } else {
            out.push(Values { value: cur, run_length: count });
            cur = data[i].clone();
            count = 1;
            proof {
                let prev = rle_of(vals(data@.take(i as int)));
                assert(runs(out@) =~= prev);
                assert(prev.push((cur@, 1u64)) =~= runs(out@).push((cur@, count)));
            }
        }
        i = i + 1;
    }
    out.push(Values { value: cur, run_length: count });
    proof {
        assert(data@.take(data@.len() as int) =~= data@);
        assert(runs(out@) =~= rle_of(vals(data@)));
    }
    out
}

/// Decodes run records from a buffer position until `elements` logical
/// values are accounted for, checking each run against the remaining
/// budget: a run longer than what is left signals corruption and ends the
/// decode with an error item. Returns the items and the final position.
///
/// On a buffer that carries at that position the encodings of runs
/// accounting for exactly `elements` values, every item is a run read back
/// exactly, in order.
pub fn decode_rle_data(data_type: DataType, elements: usize, buf: &Vec<u8>, start: usize) -> (r: (
    Vec<Result<Values<Value>, ColumnError>>,
    usize,
))
    requires
        start <= buf@.len(),
    ensures
        start <= r.1 <= buf@.len(),
        forall|rs: Seq<(Val, u64)>|
            crate::encode::all_typed(rs, data_type) && crate::encode::all_runs_pos(rs)
                && run_total(rs) == elements && crate::codec::prefix_of(
                #[trigger] crate::encode::rec_bytes(rs, true),
                buf@.skip(start as int),
            ) ==> (r.0@.len() == rs.len() && (forall|i: int|
                0 <= i < rs.len() ==> (#[trigger] r.0@[i]) is Ok && r.0@[i]->Ok_0.value@ == rs[i].0
                    && r.0@[i]->Ok_0.run_length == rs[i].1) && r.1 == start
                + crate::encode::rec_bytes(rs, true).len()),
{
    let blen = buf.len();
    let mut out: Vec<Result<Values<Value>, ColumnError>> = Vec::new();
    let mut left: usize = elements;
    let mut pos: usize = start;
    proof {
        assert(buf@.skip(start as int).skip(0) =~= buf@.skip(start as int));
    }
    while left > 0
        invariant
            start <= pos <= blen,
            blen == buf@.len(),
            left <= elements,
            forall|rs: Seq<(Val, u64)>|
                crate::encode::all_typed(rs, data_type) && crate::encode::all_runs_pos(rs)
                    && run_total(rs) == elements && crate::codec::prefix_of(
                    #[trigger] crate::encode::rec_bytes(rs, true),
                    buf@.skip(start as int),
                ) ==> (out@.len() <= rs.len() && (forall|i: int|
                    0 <= i < out@.len() ==> (#[trigger] out@[i]) is Ok && out@[i]->Ok_0.value@
                        == rs[i].0 && out@[i]->Ok_0.run_length == rs[i].1) && pos == start
                    + crate::encode::rec_bytes(rs.take(out@.len() as int), true).len() && left
                    == elements - run_total(rs.take(out@.len() as int))),
        decreases buf@.len() - pos,
    {
        let ghost k = out@.len() as int;
        let ghost p0 = pos as int;
        proof {
            assert forall|rs: Seq<(Val, u64)>|
                crate::encode::all_typed(rs, data_type) && crate::encode::all_runs_pos(rs)
                    && run_total(rs) == elements && crate::codec::prefix_of(
                    #[trigger] crate::encode::rec_bytes(rs, true),
                    buf@.skip(start as int),
                ) implies k < rs.len() && crate::codec::prefix_of(
                crate::encode::enc_record(rs[k].0, rs[k].1, true),
                buf@.skip(p0),
            ) && rs[k].1 <= left by {
                let hd = rs.take(k);
                let tl = rs.skip(k);
                assert(rs =~= hd + tl);
                crate::encode::lemma_run_total_additive(hd, tl);
                assert(crate::encode::all_runs_pos(tl)) by {
                    assert(forall|i: int| 0 <= i < tl.len() ==> tl[i] == rs[i + k]);
                }
                if tl.len() == 0 {
                    assert(run_total(tl) == 0);
                }
                crate::encode::lemma_run_total_first(tl);
                crate::encode::lemma_run_total_nonneg(tl.drop_first());
                crate::encode::lemma_rec_bytes_additive(hd, tl, true);
                crate::codec::lemma_prefix_split(
                    crate::encode::rec_bytes(hd, true),
                    crate::encode::rec_bytes(tl, true),
                    buf@.skip(start as int),
                );
                assert(buf@.skip(start as int).skip(crate::encode::rec_bytes(hd, true).len() as int)
                    =~= buf@.skip(p0));
                crate::encode::lemma_rec_bytes_first(tl, true);
                crate::codec::lemma_prefix_split(
                    crate::encode::enc_record(tl[0].0, tl[0].1, true),
                    crate::encode::rec_bytes(tl.drop_first(), true),
                    buf@.skip(p0),
                );
                assert(tl[0] == rs[k]);
            }
        }
        let dres = crate::decode::dec_record(buf, pos, data_type, true);
        match dres {
            None => {
                out.push(Err(ColumnError::DecodeFailed));
                return (out, pos);
            },
            Some((rec, n)) => {
                let rl = rec.run_length;
                if rl > left as u64 {
                    let consumed = elements - left;
                    let actual = if rl > (usize::MAX - consumed) as u64 {
                        usize::MAX
                    } else {
                        consumed + rl as usize
                    };
                    out.push(
                        Err(
                            ColumnError::NotEnoughValuesInReader {
                                expected_total: elements,
                                actual_total: actual,
                            },
                        ),
                    );
                    return (out, pos);
                }
                left = left - rl as usize;
                pos = pos + n;
                out.push(Ok(rec));
                proof {
                    assert forall|rs: Seq<(Val, u64)>|
                        crate::encode::all_typed(rs, data_type) && crate::encode::all_runs_pos(rs)
                            && run_total(rs) == elements && crate::codec::prefix_of(
                            #[trigger] crate::encode::rec_bytes(rs, true),
                            buf@.skip(start as int),
                        ) implies (out@.len() <= rs.len() && (forall|i: int|
                        0 <= i < out@.len() ==> (#[trigger] out@[i]) is Ok && out@[i]->Ok_0.value@
                            == rs[i].0 && out@[i]->Ok_0.run_length == rs[i].1) && pos == start
                        + crate::encode::rec_bytes(rs.take(k + 1), true).len() && left == elements
                        - run_total(rs.take(k + 1))) by {
                        assert(rs.take(k + 1).drop_last() =~= rs.take(k));
                        assert(rs.take(k + 1).last() == rs[k]);
                    }
                }
            },
        }
    }
    proof {
        assert forall|rs: Seq<(Val, u64)>|
            crate::encode::all_typed(rs, data_type) && crate::encode::all_runs_pos(rs) && run_total(
                rs,
            ) == elements && crate::codec::prefix_of(
                #[trigger] crate::encode::rec_bytes(rs, true),
                buf@.skip(start as int),
            ) implies out@.len() == rs.len() && pos == start + crate::encode::rec_bytes(
            rs,
            true,
        ).len() by {
            let hd = rs.take(out@.len() as int);
            let tl = rs.skip(out@.len() as int);
            assert(rs =~= hd + tl);
            crate::encode::lemma_run_total_additive(hd, tl);
            assert(crate::encode::all_runs_pos(tl)) by {
                assert(forall|i: int|
                    0 <= i < tl.len() ==> tl[i] == rs[i + out@.len()]);
            }
            crate::encode::lemma_run_total_ge_len(tl);
            assert(tl.len() == 0);
            assert(rs.take(out@.len() as int) =~= rs);
        }
    }
    (out, pos)
}

} // verus!
