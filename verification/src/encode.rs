//! The column encoder: drives the record stream through bounded-size pages,
//! then writes the footer and the trailer.
use vstd::prelude::*;
use vstd::bytes::spec_u64_to_le_bytes;

use crate::codec::{enc_val, enc_value, enc_u64, enc_i64, vu64, vi64};
use crate::rle::{
    encode_iter, expand_runs, rle_of, run_total, runs, singles, Values,
};
use crate::{
    magic_seq, push_magic, spec_tag_code, tag_code, val_type, vals, ColumnError, DataType, Footer,
    Header, PageInfo, Val, Value,
};

verus! {

/// A page is closed once its encoded bytes reach this size.
pub const MIN_TARGET_PAGE_SIZE: usize = 2048;

/// Number of bytes before the first data page: the magic literal plus the
/// two header bytes.
pub const DATA_START: usize = 11;

/// The byte persisted for the run-length flag.
pub open spec fn rle_flag_byte(use_rle: bool) -> u8 {
    if use_rle {
        1u8
    } else {
        0u8
    }
}

/// The two header bytes: type tag, then run-length flag.
pub open spec fn header_seq(dt: DataType, use_rle: bool) -> Seq<u8> {
    seq![spec_tag_code(dt), rle_flag_byte(use_rle)]
}

/// The bytes of one encoded record: the value, followed by its run length
/// when run-length encoding is on.
pub open spec fn enc_record(v: Val, rl: u64, use_rle: bool) -> Seq<u8> {
    if use_rle {
        enc_val(v) + vu64(rl)
    } else {
        enc_val(v)
    }
}

/// The bytes of a record stream, back-to-back.
pub open spec fn rec_bytes(rs: Seq<(Val, u64)>, use_rle: bool) -> Seq<u8>
    decreases rs.len(),
{
    if rs.len() == 0 {
        Seq::empty()
    } else {
        rec_bytes(rs.drop_last(), use_rle) + enc_record(rs.last().0, rs.last().1, use_rle)
    }
}

/// The records a value stream turns into: its run-length encoding, or one
/// record per value.
pub open spec fn records_of(s: Seq<Val>, use_rle: bool) -> Seq<(Val, u64)> {
    if use_rle {
        rle_of(s)
    } else {
        singles(s)
    }
}

/// How many leading records the next page takes, starting from `acc`
/// accumulated bytes: records are added until the page reaches the target
/// size or the stream ends.
pub open spec fn page_fill(rs: Seq<(Val, u64)>, use_rle: bool, acc: int) -> nat
    decreases rs.len(),
{
    if rs.len() == 0 {
        0
    } else if acc + enc_record(rs[0].0, rs[0].1, use_rle).len() >= MIN_TARGET_PAGE_SIZE {
        1
    } else {
        1 + page_fill(rs.skip(1), use_rle, acc + enc_record(rs[0].0, rs[0].1, use_rle).len())
    }
}

/// The length of the next page, bounded by the stream's length.
pub open spec fn page_len(rs: Seq<(Val, u64)>, use_rle: bool) -> int {
    if page_fill(rs, use_rle, 0) > rs.len() {
        rs.len() as int
    } else {
        page_fill(rs, use_rle, 0) as int
    }
}

/// The page descriptions the paging loop produces for a record stream,
/// starting at the given stream offset.
pub open spec fn spec_page_infos(rs: Seq<(Val, u64)>, use_rle: bool, offset: int) -> Seq<PageInfo>
    decreases rs.len(),
{
    if rs.len() == 0 {
        Seq::empty()
    } else {
        let k = page_len(rs, use_rle);
        let page = rs.take(k);
        seq![
            PageInfo {
                file_offset: offset as i64,
                values_count: run_total(page) as usize,
                encoded_values_count: k as usize,
            },
        ] + spec_page_infos(rs.skip(k), use_rle, offset + rec_bytes(page, use_rle).len())
    }
}

/// Every page's starting offset is representable as a signed 64-bit file
/// offset.
pub open spec fn offsets_fit(rs: Seq<(Val, u64)>, use_rle: bool, offset: int) -> bool
    decreases rs.len(),
{
    if rs.len() == 0 {
        true
    } else {
        let k = page_len(rs, use_rle);
        let page = rs.take(k);
        offset <= i64::MAX && offsets_fit(
            rs.skip(k),
            use_rle,
            offset + rec_bytes(page, use_rle).len(),
        )
    }
}

/// The record streams of the individual pages, in order: the same greedy
/// split that `spec_page_infos` describes.
pub open spec fn spec_pages(rs: Seq<(Val, u64)>, use_rle: bool) -> Seq<Seq<(Val, u64)>>
    decreases rs.len(),
{
    if rs.len() == 0 {
        Seq::empty()
    } else {
        let k = page_len(rs, use_rle);
        seq![rs.take(k)] + spec_pages(rs.skip(k), use_rle)
    }
}

/// The record streams of consecutive pages, joined back together.
pub open spec fn flatten_recs(pp: Seq<Seq<(Val, u64)>>) -> Seq<(Val, u64)>
    decreases pp.len(),
{
    if pp.len() == 0 {
        Seq::empty()
    } else {
        pp.first() + flatten_recs(pp.drop_first())
    }
}

/// Every record of the stream has a positive run length.
pub open spec fn all_runs_pos(rs: Seq<(Val, u64)>) -> bool {
    forall|i: int| 0 <= i < rs.len() ==> (#[trigger] rs[i]).1 >= 1
}

/// Every record of the stream carries a value of the given tag.
pub open spec fn all_typed(rs: Seq<(Val, u64)>, dt: DataType) -> bool {
    forall|i: int| 0 <= i < rs.len() ==> val_type((#[trigger] rs[i]).0) == dt
}

/// Every record of the stream is a run of exactly one value: the shape of a
/// raw record stream.
pub open spec fn all_ones(rs: Seq<(Val, u64)>) -> bool {
    forall|i: int| 0 <= i < rs.len() ==> (#[trigger] rs[i]).1 == 1
}

/// The three encoded fields of one page description.
pub open spec fn page_field(p: PageInfo) -> Seq<u8> {
    vi64(p.file_offset) + vu64(p.values_count as u64) + vu64(p.encoded_values_count as u64)
}

/// The encoded fields of the page descriptions inside the footer.
pub open spec fn page_fields_bytes(ps: Seq<PageInfo>) -> Seq<u8>
    decreases ps.len(),
{
    if ps.len() == 0 {
        Seq::empty()
    } else {
        page_fields_bytes(ps.drop_last()) + page_field(ps.last())
    }
}

/// Page field bytes concatenate over split page lists.
pub proof fn lemma_page_fields_additive(a: Seq<PageInfo>, b: Seq<PageInfo>)
    ensures
        page_fields_bytes(a + b) == page_fields_bytes(a) + page_fields_bytes(b),
    decreases b.len(),
{
    if b.len() == 0 {
        assert(a + b =~= a);
        assert(page_fields_bytes(a) + page_fields_bytes(b) =~= page_fields_bytes(a));
    } else {
        lemma_page_fields_additive(a, b.drop_last());
        assert((a + b).drop_last() =~= a + b.drop_last());
        assert((a + b).last() == b.last());
        assert(page_fields_bytes(a + b) =~= page_fields_bytes(a) + page_fields_bytes(b));
    }
}

/// A non-empty page list's field bytes start with its first page's fields.
pub proof fn lemma_page_fields_first(ps: Seq<PageInfo>)
    requires
        ps.len() > 0,
    ensures
        page_fields_bytes(ps) == page_field(ps[0]) + page_fields_bytes(ps.drop_first()),
{
    assert(ps =~= seq![ps[0]] + ps.drop_first());
    lemma_page_fields_additive(seq![ps[0]], ps.drop_first());
    assert(seq![ps[0]].drop_last() =~= Seq::<PageInfo>::empty());
    assert(page_fields_bytes(Seq::<PageInfo>::empty()) =~= Seq::<u8>::empty());
    assert(page_fields_bytes(seq![ps[0]]) =~= page_field(ps[0]));
}

/// Each page description costs at least one byte per page, so a byte
/// sequence bounds the number of pages it can describe.
pub proof fn lemma_page_fields_lower_bound(ps: Seq<PageInfo>)
    ensures
        page_fields_bytes(ps).len() >= ps.len(),
    decreases ps.len(),
{
    if ps.len() > 0 {
        lemma_page_fields_lower_bound(ps.drop_last());
    }
}

/// The footer's bytes: tag, flag, page count, then each page's fields.
pub open spec fn footer_bytes(dt: DataType, use_rle: bool, ps: Seq<PageInfo>) -> Seq<u8> {
    seq![spec_tag_code(dt), rle_flag_byte(use_rle)] + vu64(ps.len() as u64) + page_fields_bytes(ps)
}

/// The page descriptions of a column's footer.
pub open spec fn spec_footer_pages(s: Seq<Val>, use_rle: bool) -> Seq<PageInfo> {
    spec_page_infos(records_of(s, use_rle), use_rle, DATA_START as int)
}

/// The whole encoded stream of a column: magic, header, the record bytes of
/// every page back-to-back, the footer, and the footer's length as the
/// 8-byte little-endian trailer.
pub open spec fn spec_encode(s: Seq<Val>, use_rle: bool, dt: DataType) -> Seq<u8> {
    let recs = records_of(s, use_rle);
    let fb = footer_bytes(dt, use_rle, spec_footer_pages(s, use_rle));
    magic_seq() + header_seq(dt, use_rle) + rec_bytes(recs, use_rle) + fb + spec_u64_to_le_bytes(
        fb.len() as u64,
    )
}

/// Every value of the stream carries the column's declared tag.
pub open spec fn types_ok(s: Seq<Val>, dt: DataType) -> bool {
    forall|i: int| 0 <= i < s.len() ==> val_type(#[trigger] s[i]) == dt
}

/// The whole data region of a column fits the representable offsets.
pub open spec fn spec_fits(s: Seq<Val>, use_rle: bool) -> bool {
    offsets_fit(records_of(s, use_rle), use_rle, DATA_START as int)
}

/// Record bytes concatenate: the bytes of a split stream are the bytes of
/// its parts.
pub proof fn lemma_rec_bytes_additive(a: Seq<(Val, u64)>, b: Seq<(Val, u64)>, use_rle: bool)
    ensures
        rec_bytes(a + b, use_rle) == rec_bytes(a, use_rle) + rec_bytes(b, use_rle),
    decreases b.len(),
{
    if b.len() == 0 {
        assert(a + b =~= a);
        assert(rec_bytes(a, use_rle) + rec_bytes(b, use_rle) =~= rec_bytes(a, use_rle));
    } else {
        lemma_rec_bytes_additive(a, b.drop_last(), use_rle);
        assert((a + b).drop_last() =~= a + b.drop_last());
        assert((a + b).last() == b.last());
        assert(rec_bytes(a + b, use_rle) =~= rec_bytes(a, use_rle) + rec_bytes(b, use_rle));
    }
}

/// A non-empty record stream's bytes start with its first record's bytes.
pub proof fn lemma_rec_bytes_first(rs: Seq<(Val, u64)>, use_rle: bool)
    requires
        rs.len() > 0,
    ensures
        rec_bytes(rs, use_rle) == enc_record(rs[0].0, rs[0].1, use_rle) + rec_bytes(
            rs.drop_first(),
            use_rle,
        ),
{
    assert(rs =~= seq![rs[0]] + rs.drop_first());
    lemma_rec_bytes_additive(seq![rs[0]], rs.drop_first(), use_rle);
    assert(seq![rs[0]].drop_last() =~= Seq::<(Val, u64)>::empty());
    assert(rec_bytes(Seq::<(Val, u64)>::empty(), use_rle) =~= Seq::<u8>::empty());
    assert(rec_bytes(seq![rs[0]], use_rle) =~= enc_record(rs[0].0, rs[0].1, use_rle));
}

/// A non-empty record stream's total splits off its first record's count.
pub proof fn lemma_run_total_first(rs: Seq<(Val, u64)>)
    requires
        rs.len() > 0,
    ensures
        run_total(rs) == rs[0].1 + run_total(rs.drop_first()),
{
    assert(rs =~= seq![rs[0]] + rs.drop_first());
    lemma_run_total_additive(seq![rs[0]], rs.drop_first());
    assert(seq![rs[0]].drop_last() =~= Seq::<(Val, u64)>::empty());
    assert(run_total(Seq::<(Val, u64)>::empty()) == 0);
    assert(seq![rs[0]].last() == rs[0]);
    assert(run_total(seq![rs[0]]) == rs[0].1);
}

/// Run totals are non-negative.
pub proof fn lemma_run_total_nonneg(rs: Seq<(Val, u64)>)
    ensures
        run_total(rs) >= 0,
    decreases rs.len(),
{
    if rs.len() > 0 {
        lemma_run_total_nonneg(rs.drop_last());
    }
}

/// Run totals add over concatenation.
pub proof fn lemma_run_total_additive(a: Seq<(Val, u64)>, b: Seq<(Val, u64)>)
    ensures
        run_total(a + b) == run_total(a) + run_total(b),
    decreases b.len(),
{
    if b.len() == 0 {
        assert(a + b =~= a);
    } else {
        lemma_run_total_additive(a, b.drop_last());
        assert((a + b).drop_last() =~= a + b.drop_last());
        assert((a + b).last() == b.last());
    }
}

/// A middle piece of a stream accounts for no more values than the whole.
pub proof fn lemma_run_total_subrange_le(rs: Seq<(Val, u64)>, a: int, b: int)
    requires
        0 <= a <= b <= rs.len(),
    ensures
        run_total(rs.subrange(a, b)) <= run_total(rs),
{
    assert(rs =~= rs.subrange(0, a) + rs.subrange(a, b) + rs.subrange(b, rs.len() as int));
    lemma_run_total_additive(rs.subrange(0, a) + rs.subrange(a, b), rs.subrange(b, rs.len() as int));
    lemma_run_total_additive(rs.subrange(0, a), rs.subrange(a, b));
    lemma_run_total_nonneg(rs.subrange(0, a));
    lemma_run_total_nonneg(rs.subrange(b, rs.len() as int));
}

/// A non-empty stream's next page takes at least one record and no more
/// than the stream holds.
pub proof fn lemma_page_fill_bounds(rs: Seq<(Val, u64)>, use_rle: bool, acc: int)
    requires
        rs.len() > 0,
    ensures
        1 <= page_fill(rs, use_rle, acc) <= rs.len(),
    decreases rs.len(),
{
    if !(acc + enc_record(rs[0].0, rs[0].1, use_rle).len() >= MIN_TARGET_PAGE_SIZE) {
        if rs.skip(1).len() > 0 {
            lemma_page_fill_bounds(rs.skip(1), use_rle, acc + enc_record(
                rs[0].0,
                rs[0].1,
                use_rle,
            ).len());
        } else {
            assert(page_fill(
                rs.skip(1),
                use_rle,
                acc + enc_record(rs[0].0, rs[0].1, use_rle).len(),
            ) == 0);
        }
    }
}

/// The page split is a partition: the pages joined back together are the
/// original record stream, page descriptions and page record streams come
/// in matching pairs, and each description's counts account exactly for its
/// page's records.
pub proof fn lemma_spec_pages(rs: Seq<(Val, u64)>, use_rle: bool, offset: int)
    requires
        run_total(rs) <= usize::MAX,
    ensures
        spec_pages(rs, use_rle).len() == spec_page_infos(rs, use_rle, offset).len(),
        flatten_recs(spec_pages(rs, use_rle)) == rs,
        forall|j: int|
            0 <= j < spec_pages(rs, use_rle).len() ==> run_total(
                #[trigger] spec_pages(rs, use_rle)[j],
            ) == spec_page_infos(rs, use_rle, offset)[j].values_count,
    decreases rs.len(),
{
    if rs.len() > 0 {
        let k = page_len(rs, use_rle);
        lemma_page_fill_bounds(rs, use_rle, 0);
        assert(rs =~= rs.take(k) + rs.skip(k));
        lemma_run_total_additive(rs.take(k), rs.skip(k));
        lemma_run_total_nonneg(rs.take(k));
        lemma_run_total_nonneg(rs.skip(k));
        lemma_spec_pages(rs.skip(k), use_rle, offset + rec_bytes(rs.take(k), use_rle).len());
        let pp = spec_pages(rs, use_rle);
        let rest = spec_pages(rs.skip(k), use_rle);
        assert(pp.first() == rs.take(k));
        assert(pp.drop_first() =~= rest);
        assert(flatten_recs(pp) =~= rs);
        let infos = spec_page_infos(rs, use_rle, offset);
        let rest_infos = spec_page_infos(
            rs.skip(k),
            use_rle,
            offset + rec_bytes(rs.take(k), use_rle).len(),
        );
        assert forall|j: int| 0 <= j < pp.len() implies run_total(#[trigger] pp[j])
            == infos[j].values_count by {
            if j == 0 {
                assert(run_total(pp[0]) == run_total(rs.take(k)));
            } else {
                assert(pp[j] == rest[j - 1]);
                assert(infos[j] == rest_infos[j - 1]);
            }
        }
    }
}

/// Round trip: whichever record shape a column is encoded with, expanding
/// its records reproduces the original value stream exactly and in order.
/// Without run-length encoding each value stands as its own run of one;
/// with it, consecutive equal values collapse into single runs.
pub proof fn lemma_records_expand(s: Seq<Val>, use_rle: bool)
    ensures
        expand_runs(records_of(s, use_rle)) == s,
        !use_rle ==> records_of(s, use_rle) == singles(s),
{
    if use_rle {
        crate::rle::lemma_rle_expand(s);
    } else {
        crate::rle::lemma_singles_expand(s);
    }
}

/// The sum of the values accounted to the stream's pages.
pub open spec fn infos_values_total(ps: Seq<PageInfo>) -> int
    decreases ps.len(),
{
    if ps.len() == 0 {
        0
    } else {
        ps.first().values_count + infos_values_total(ps.drop_first())
    }
}

/// A stream of positive runs holds at least one value per record.
pub proof fn lemma_run_total_ge_len(rs: Seq<(Val, u64)>)
    requires
        all_runs_pos(rs),
    ensures
        run_total(rs) >= rs.len(),
    decreases rs.len(),
{
    if rs.len() > 0 {
        assert(all_runs_pos(rs.drop_last()));
        lemma_run_total_ge_len(rs.drop_last());
    }
}

proof fn lemma_infos_total(rs: Seq<(Val, u64)>, use_rle: bool, offset: int)
    requires
        run_total(rs) <= usize::MAX,
        all_runs_pos(rs),
    ensures
        infos_values_total(spec_page_infos(rs, use_rle, offset)) == run_total(rs),
        forall|j: int|
            0 <= j < spec_page_infos(rs, use_rle, offset).len() ==> (#[trigger] spec_page_infos(
                rs,
                use_rle,
                offset,
            )[j]).encoded_values_count <= spec_page_infos(rs, use_rle, offset)[j].values_count,
    decreases rs.len(),
{
    if rs.len() > 0 {
        let k = page_len(rs, use_rle);
        lemma_page_fill_bounds(rs, use_rle, 0);
        assert(rs =~= rs.take(k) + rs.skip(k));
        lemma_run_total_additive(rs.take(k), rs.skip(k));
        lemma_run_total_nonneg(rs.take(k));
        lemma_run_total_nonneg(rs.skip(k));
        assert(all_runs_pos(rs.take(k)) && all_runs_pos(rs.skip(k))) by {
            assert(forall|i: int| 0 <= i < k ==> rs.take(k)[i] == rs[i]);
            assert(forall|i: int| 0 <= i < rs.len() - k ==> rs.skip(k)[i] == rs[i + k]);
        }
        lemma_run_total_ge_len(rs.take(k));
        let off2 = offset + rec_bytes(rs.take(k), use_rle).len();
        lemma_infos_total(rs.skip(k), use_rle, off2);
        let infos = spec_page_infos(rs, use_rle, offset);
        let rest = spec_page_infos(rs.skip(k), use_rle, off2);
        assert(infos.first().values_count == run_total(rs.take(k)));
        assert(infos.drop_first() =~= rest);
        assert forall|j: int| 0 <= j < infos.len() implies (#[trigger] infos[j]).encoded_values_count
            <= infos[j].values_count by {
            if j > 0 {
                assert(infos[j] == rest[j - 1]);
            }
        }
    }
}

/// A stream of positive runs holds exactly one value per record -- that is,
/// as many encoded records as logical values -- precisely when every run
/// has length one.
pub proof fn lemma_counts_equal_iff_all_ones(rs: Seq<(Val, u64)>)
    requires
        all_runs_pos(rs),
    ensures
        run_total(rs) == rs.len() <==> all_ones(rs),
    decreases rs.len(),
{
    if rs.len() > 0 {
        assert(all_runs_pos(rs.drop_last()));
        lemma_counts_equal_iff_all_ones(rs.drop_last());
        lemma_run_total_ge_len(rs.drop_last());
        if run_total(rs) == rs.len() {
            assert(all_ones(rs.drop_last()));
            assert forall|i: int| 0 <= i < rs.len() implies (#[trigger] rs[i]).1 == 1 by {
                if i < rs.len() - 1 {
                    assert(rs.drop_last()[i] == rs[i]);
                }
            }
        }
        if all_ones(rs) {
            assert(all_ones(rs.drop_last())) by {
                assert(forall|i: int| 0 <= i < rs.len() - 1 ==> rs.drop_last()[i] == rs[i]);
            }
        }
    }
}

/// Page accounting: the pages of a column's footer account for every input
/// value exactly once -- their value counts sum to the input's length --
/// and no page claims more encoded records than logical values.
pub proof fn lemma_footer_accounts(s: Seq<Val>, use_rle: bool, dt: DataType)
    requires
        s.len() <= usize::MAX,
        types_ok(s, dt),
    ensures
        infos_values_total(spec_footer_pages(s, use_rle)) == s.len(),
        forall|j: int|
            0 <= j < spec_footer_pages(s, use_rle).len() ==> (#[trigger] spec_footer_pages(
                s,
                use_rle,
            )[j]).encoded_values_count <= spec_footer_pages(s, use_rle)[j].values_count,
{
    let recs = records_of(s, use_rle);
    if use_rle {
        crate::rle::lemma_rle_shape(s);
    } else {
        lemma_singles_total(s);
    }
    lemma_records_typed(s, use_rle, dt);
    lemma_infos_total(recs, use_rle, DATA_START as int);
}

/// Where the fixed parts of an encoded stream lie: the magic literal at the
/// start, the two header bytes after it, and the record bytes from the data
/// region on.
pub proof fn lemma_encode_layout(s: Seq<Val>, use_rle: bool, dt: DataType)
    ensures
        spec_encode(s, use_rle, dt).len() >= DATA_START,
        spec_encode(s, use_rle, dt).subrange(0, crate::MAGIC_BYTES_LEN as int) == magic_seq(),
        spec_encode(s, use_rle, dt)[9] == spec_tag_code(dt),
        spec_encode(s, use_rle, dt)[10] == rle_flag_byte(use_rle),
        crate::codec::prefix_of(
            rec_bytes(records_of(s, use_rle), use_rle),
            spec_encode(s, use_rle, dt).skip(DATA_START as int),
        ),
{
    let e = spec_encode(s, use_rle, dt);
    let recs = records_of(s, use_rle);
    assert(e.subrange(0, crate::MAGIC_BYTES_LEN as int) =~= magic_seq());
    assert(e.skip(DATA_START as int).subrange(0, rec_bytes(recs, use_rle).len() as int)
        =~= rec_bytes(recs, use_rle));
}

/// Each page of the split inherits the record stream's shape: positive run
/// lengths, a single value tag, and, for raw streams, runs of exactly one.
pub proof fn lemma_spec_pages_inherit(rs: Seq<(Val, u64)>, use_rle: bool, dt: DataType)
    requires
        all_runs_pos(rs),
        all_typed(rs, dt),
    ensures
        forall|j: int|
            0 <= j < spec_pages(rs, use_rle).len() ==> all_runs_pos(
                #[trigger] spec_pages(rs, use_rle)[j],
            ) && all_typed(spec_pages(rs, use_rle)[j], dt) && (all_ones(rs) ==> all_ones(
                spec_pages(rs, use_rle)[j],
            )),
    decreases rs.len(),
{
    if rs.len() > 0 {
        let k = page_len(rs, use_rle);
        lemma_page_fill_bounds(rs, use_rle, 0);
        assert(all_runs_pos(rs.take(k)) && all_typed(rs.take(k), dt)) by {
            assert(forall|i: int| 0 <= i < k ==> rs.take(k)[i] == rs[i]);
        }
        assert(all_runs_pos(rs.skip(k)) && all_typed(rs.skip(k), dt)) by {
            assert(forall|i: int| 0 <= i < rs.len() - k ==> rs.skip(k)[i] == rs[i + k]);
        }
        if all_ones(rs) {
            assert(all_ones(rs.take(k)) && all_ones(rs.skip(k))) by {
                assert(forall|i: int| 0 <= i < k ==> rs.take(k)[i] == rs[i]);
                assert(forall|i: int| 0 <= i < rs.len() - k ==> rs.skip(k)[i] == rs[i + k]);
            }
        }
        lemma_spec_pages_inherit(rs.skip(k), use_rle, dt);
        let pp = spec_pages(rs, use_rle);
        let rest = spec_pages(rs.skip(k), use_rle);
        assert forall|j: int| 0 <= j < pp.len() implies all_runs_pos(#[trigger] pp[j])
            && all_typed(pp[j], dt) && (all_ones(rs) ==> all_ones(pp[j])) by {
            if j == 0 {
                assert(pp[0] == rs.take(k));
            } else {
                assert(pp[j] == rest[j - 1]);
            }
        }
    }
}

/// Records inherit their values' tags from the stream they encode.
pub proof fn lemma_records_typed(s: Seq<Val>, use_rle: bool, dt: DataType)
    requires
        types_ok(s, dt),
    ensures
        all_typed(records_of(s, use_rle), dt),
        all_runs_pos(records_of(s, use_rle)),
        !use_rle ==> all_ones(records_of(s, use_rle)),
    decreases s.len(),
{
    if use_rle {
        if s.len() > 0 {
            assert(types_ok(s.drop_last(), dt));
            lemma_records_typed(s.drop_last(), use_rle, dt);
            let rest = rle_of(s.drop_last());
            let v = s.last();
            assert(val_type(v) == dt);
            if rest.len() > 0 && rest.last().0 == v && rest.last().1 < u64::MAX {
                let rs2 = rest.update(rest.len() - 1, (v, (rest.last().1 + 1) as u64));
                assert forall|i: int| 0 <= i < rs2.len() implies val_type(
                    (#[trigger] rs2[i]).0,
                ) == dt && rs2[i].1 >= 1 by {
                    if i < rs2.len() - 1 {
                        assert(rs2[i] == rest[i]);
                    }
                }
            } else {
                let rs2 = rest.push((v, 1u64));
                assert forall|i: int| 0 <= i < rs2.len() implies val_type(
                    (#[trigger] rs2[i]).0,
                ) == dt && rs2[i].1 >= 1 by {
                    if i < rs2.len() - 1 {
                        assert(rs2[i] == rest[i]);
                    }
                }
            }
        }
    } else {
        assert forall|i: int| 0 <= i < singles(s).len() implies val_type(
            (#[trigger] singles(s)[i]).0,
        ) == dt && singles(s)[i].1 >= 1 by {
            assert(singles(s)[i] == (s[i], 1u64));
        }
    }
}

/// One record per value means one run per record, each of length one.
pub proof fn lemma_singles_total(s: Seq<Val>)
    ensures
        run_total(singles(s)) == s.len(),
    decreases s.len(),
{
    if s.len() > 0 {
        lemma_singles_total(s.drop_last());
        assert(singles(s).drop_last() =~= singles(s.drop_last()));
    }
}

/// Encodes one record: the value, then its run length when run-length
/// encoding is on.
pub fn enc_record_exec(v: &Value, rl: u64, use_rle: bool) -> (r: Vec<u8>)
    ensures
        r@ == enc_record(v@, rl, use_rle),
{
    let mut out = enc_value(v);
    if use_rle {
        let mut tail = enc_u64(rl);
        out.append(&mut tail);
    }
    out
}

/// Fills one page: encodes records starting at `start` until the page
/// reaches the target size or the records run out, and describes the page.
fn encode_values_as_bincode(
    records: &Vec<Values<Value>>,
    start: usize,
    file_offset: i64,
    use_rle: bool,
) -> (r: (Vec<u8>, PageInfo, usize))
    requires
        start < records@.len(),
        run_total(runs(records@)) <= usize::MAX,
    ensures
        ({
            let rs = runs(records@);
            let k = page_len(rs.skip(start as int), use_rle);
            &&& r.2 == start + k
            &&& start < r.2 <= records@.len()
            &&& r.0@ == rec_bytes(rs.subrange(start as int, start + k), use_rle)
            &&& r.1.file_offset == file_offset
            &&& r.1.values_count == run_total(rs.subrange(start as int, start + k))
            &&& r.1.encoded_values_count == k
        }),
{
    let ghost rs = runs(records@);
    let mut bytes: Vec<u8> = Vec::new();
    let mut values_count: usize = 0;
    let mut j: usize = start;
    let n_records = records.len();
    proof {
        assert(rs.subrange(start as int, start as int) =~= Seq::<(Val, u64)>::empty());
        assert(bytes@ =~= rec_bytes(rs.subrange(start as int, start as int), use_rle));
    }
    loop
        invariant_except_break
            start <= j < records@.len(),
            n_records == records@.len(),
            rs == runs(records@),
            run_total(rs) <= usize::MAX,
            bytes@.len() < MIN_TARGET_PAGE_SIZE,
            bytes@ == rec_bytes(rs.subrange(start as int, j as int), use_rle),
            values_count == run_total(rs.subrange(start as int, j as int)),
            page_fill(rs.skip(start as int), use_rle, 0) == (j - start) + page_fill(
                rs.skip(j as int),
                use_rle,
                bytes@.len() as int,
            ),
        ensures
            start < j <= records@.len(),
            rs == runs(records@),
            bytes@ == rec_bytes(rs.subrange(start as int, j as int), use_rle),
            values_count == run_total(rs.subrange(start as int, j as int)),
            j - start == page_fill(rs.skip(start as int), use_rle, 0),
        decreases records@.len() - j,
    {
        let ghost j0 = j as int;
        let ghost acc0 = bytes@.len() as int;
        let rl = records[j].run_length;
        let mut enc = enc_record_exec(&records[j].value, rl, use_rle);
        proof {
            assert(rs[j0] == (records@[j0].value@, records@[j0].run_length));
            assert(rs.skip(j0)[0] == rs[j0]);
            assert(enc@ == enc_record(rs.skip(j0)[0].0, rs.skip(j0)[0].1, use_rle));
            assert(rs.subrange(start as int, j0 + 1).drop_last() =~= rs.subrange(
                start as int,
                j0,
            ));
            assert(rs.subrange(start as int, j0 + 1).last() == rs[j0]);
            lemma_run_total_subrange_le(rs, start as int, j0 + 1);
            lemma_run_total_nonneg(rs.subrange(start as int, j0));
        }
        values_count = values_count + rl as usize;
        bytes.append(&mut enc);
        j = j + 1;
        proof {
            assert(bytes@ == rec_bytes(rs.subrange(start as int, j as int), use_rle));
            assert(bytes@.len() == acc0 + enc_record(rs.skip(j0)[0].0, rs.skip(j0)[0].1, use_rle).len());
        }
        if j == n_records || bytes.len() >= MIN_TARGET_PAGE_SIZE {
            proof {
                if bytes@.len() >= MIN_TARGET_PAGE_SIZE {
                    assert(rs.len() == records@.len());
                    assert(rs.skip(j0).len() > 0);
                    assert(acc0 + enc_record(rs.skip(j0)[0].0, rs.skip(j0)[0].1, use_rle).len()
                        >= MIN_TARGET_PAGE_SIZE);
                    assert(page_fill(rs.skip(j0), use_rle, acc0) == 1);
                } else {
                    assert(rs.skip(j0).skip(1) =~= rs.skip(j as int));
                    assert(rs.skip(j as int).len() == 0);
                    assert(page_fill(
                        rs.skip(j as int),
                        use_rle,
                        acc0 + enc_record(rs.skip(j0)[0].0, rs.skip(j0)[0].1, use_rle).len(),
                    ) == 0);
                    assert(page_fill(rs.skip(j0), use_rle, acc0) == 1);
                }
            }
            break;
        }
        proof {
            assert(rs.skip(j0).skip(1) =~= rs.skip(j as int));
            assert(page_fill(rs.skip(j0), use_rle, acc0) == 1 + page_fill(
                rs.skip(j as int),
                use_rle,
                bytes@.len() as int,
            ));
        }
    }
    proof {
        lemma_page_fill_bounds(rs.skip(start as int), use_rle, 0);
        assert(page_len(rs.skip(start as int), use_rle) == j - start);
    }
    let info = PageInfo { file_offset, values_count, encoded_values_count: j - start };
    (bytes, info, j)
}

/// Serialises a footer: tag, flag, page count, then each page's fields.
pub fn footer_to_bytes(data_type: DataType, use_rle: bool, pages: &Vec<PageInfo>) -> (fb: Vec<u8>)
    ensures
        fb@ == footer_bytes(data_type, use_rle, pages@),
{
    let mut fb: Vec<u8> = Vec::new();
    fb.push(tag_code(data_type));
    fb.push(if use_rle { 1u8 } else { 0u8 });
    let mut cnt = enc_u64(pages.len() as u64);
    fb.append(&mut cnt);
    let ghost fb_head = seq![spec_tag_code(data_type), rle_flag_byte(use_rle)] + vu64(
        pages@.len() as u64,
    );
    proof {
        assert(pages@.subrange(0, 0) =~= Seq::<PageInfo>::empty());
        assert(fb@ =~= fb_head + page_fields_bytes(pages@.subrange(0, 0)));
    }
    let n = pages.len();
    let mut pi: usize = 0;
    while pi < n
        invariant
            0 <= pi <= pages@.len(),
            n == pages@.len(),
            fb_head == seq![spec_tag_code(data_type), rle_flag_byte(use_rle)] + vu64(
                pages@.len() as u64,
            ),
            fb@ == fb_head + page_fields_bytes(pages@.subrange(0, pi as int)),
        decreases pages@.len() - pi,
    {
        let p = pages[pi];
        let mut b1 = enc_i64(p.file_offset);
        fb.append(&mut b1);
        let mut b2 = enc_u64(p.values_count as u64);
        fb.append(&mut b2);
        let mut b3 = enc_u64(p.encoded_values_count as u64);
        fb.append(&mut b3);
        proof {
            assert(pages@.subrange(0, pi + 1).drop_last() =~= pages@.subrange(0, pi as int));
            assert(pages@.subrange(0, pi + 1).last() == pages@[pi as int]);
            assert(fb@ =~= fb_head + page_fields_bytes(pages@.subrange(0, pi + 1)));
        }
        pi += 1;
    }
    proof {
        assert(pages@.subrange(0, pages@.len() as int) =~= pages@);
        assert(fb@ =~= footer_bytes(data_type, use_rle, pages@));
    }
    fb
}

/// Encodes a whole column: magic bytes, header, pages of records, footer,
/// trailer.
///
/// Succeeds exactly when every value carries the declared tag and the data
/// region's page offsets stay representable; the bytes and footer of a
/// successful encode are pinned down completely by the input.
#[verifier::rlimit(100)]
pub fn encode_column_impl(values: &Vec<Value>, data_type: DataType, use_rle: bool) -> (r: Result<
    (Vec<u8>, Footer),
    ColumnError,
>)
    ensures
        (types_ok(vals(values@), data_type) && spec_fits(vals(values@), use_rle)) <==> r is Ok,
        r matches Ok(p) ==> p.0@ == spec_encode(vals(values@), use_rle, data_type)
            && p.1.data_type == data_type && p.1.use_rle == use_rle && p.1.pages@
            == spec_footer_pages(vals(values@), use_rle),
        !types_ok(vals(values@), data_type) ==> (r matches Err(e) && exists|i: int|
            0 <= i < vals(values@).len() && val_type(#[trigger] vals(values@)[i]) != data_type && e
                == (ColumnError::UnsupportedDataType {
                expected: data_type,
                actual: val_type(vals(values@)[i]),
            })),
        types_ok(vals(values@), data_type) && !spec_fits(vals(values@), use_rle) ==> r == Err::<
            (Vec<u8>, Footer),
            ColumnError,
        >(ColumnError::TooLarge),
{
    let ghost s = vals(values@);
    let n = values.len();

    let mut i: usize = 0;
    while i < n
        invariant
            0 <= i <= values@.len(),
            n == values@.len(),
            forall|j: int| 0 <= j < i ==> val_type(#[trigger] vals(values@)[j]) == data_type,
        decreases values@.len() - i,
    {
        if !data_type.is_supported(&values[i]) {
            proof {
                assert(vals(values@)[i as int] == values@[i as int]@);
            }
            if let Some(actual) = DataType::from_type(&values[i]) {
                return Err(ColumnError::UnsupportedDataType { expected: data_type, actual });
            }
        }
        i += 1;
    }
    assert(types_ok(s, data_type));

    let mut records: Vec<Values<Value>>;
    if use_rle {
        records = encode_iter(values);
        proof {
            crate::rle::lemma_rle_shape(s);
        }
    } else {
        records = Vec::new();
        let mut idx: usize = 0;
        while idx < n
            invariant
                0 <= idx <= values@.len(),
                n == values@.len(),
                records@.len() == idx,
                forall|k: int|
                    0 <= k < idx ==> (#[trigger] records@[k]).value@ == values@[k]@
                        && records@[k].run_length == 1,
            decreases values@.len() - idx,
        {
            records.push(Values::single(values[idx].clone()));
            idx += 1;
        }
        proof {
            assert(runs(records@) =~= singles(vals(values@)));
            lemma_singles_total(s);
        }
    }
    let ghost recs = records_of(s, use_rle);
    proof {
        assert(runs(records@) == recs);
        assert(run_total(recs) == s.len());
    }

    let header = Header { data_type, use_rle };
    let mut out: Vec<u8> = Vec::new();
    push_magic(&mut out);
    out.push(tag_code(header.data_type));
    out.push(if header.use_rle { 1u8 } else { 0u8 });
    proof {
        assert(out@ =~= magic_seq() + header_seq(data_type, use_rle));
        assert(recs.subrange(0, 0) =~= Seq::<(Val, u64)>::empty());
        assert(out@ =~= magic_seq() + header_seq(data_type, use_rle) + rec_bytes(
            recs.subrange(0, 0),
            use_rle,
        ));
        assert(recs.skip(0) =~= recs);
    }
    let mut pages: Vec<PageInfo> = Vec::new();
    let mut i: usize = 0;
    while i < records.len()
        invariant
            0 <= i <= records@.len(),
            runs(records@) == recs,
            recs == records_of(vals(values@), use_rle),
            types_ok(vals(values@), data_type),
            run_total(recs) <= usize::MAX,
            out@ == magic_seq() + header_seq(data_type, use_rle) + rec_bytes(
                recs.subrange(0, i as int),
                use_rle,
            ),
            pages@ + spec_page_infos(recs.skip(i as int), use_rle, out@.len() as int)
                == spec_page_infos(recs, use_rle, DATA_START as int),
            offsets_fit(recs, use_rle, DATA_START as int) == offsets_fit(
                recs.skip(i as int),
                use_rle,
                out@.len() as int,
            ),
        decreases records@.len() - i,
    {
        let page_start = out.len();
        if page_start as u64 > i64::MAX as u64 {
            proof {
                assert(recs.skip(i as int).len() > 0);
                assert(!offsets_fit(recs.skip(i as int), use_rle, out@.len() as int));
            }
            return Err(ColumnError::TooLarge);
        }
        let (mut page_bytes, info, j) = encode_values_as_bincode(
            &records,
            i,
            page_start as i64,
            use_rle,
        );
        proof {
            lemma_page_fill_bounds(recs.skip(i as int), use_rle, 0);
            let k = page_len(recs.skip(i as int), use_rle);
            assert(recs.skip(i as int).take(k) =~= recs.subrange(i as int, i + k));
            assert(recs.skip(i as int).skip(k) =~= recs.skip(i + k));
            lemma_rec_bytes_additive(
                recs.subrange(0, i as int),
                recs.subrange(i as int, i + k),
                use_rle,
            );
            assert(recs.subrange(0, i as int) + recs.subrange(i as int, i + k) =~= recs.subrange(
                0,
                i + k,
            ));
        }
        out.append(&mut page_bytes);
        pages.push(info);
        i = j;
        proof {
            assert(pages@ + spec_page_infos(recs.skip(i as int), use_rle, out@.len() as int)
                =~= spec_page_infos(recs, use_rle, DATA_START as int));
        }
    }
    proof {
        assert(recs.skip(i as int).len() == 0);
        assert(pages@ =~= spec_page_infos(recs, use_rle, DATA_START as int));
        assert(recs.subrange(0, i as int) =~= recs);
        assert(offsets_fit(recs, use_rle, DATA_START as int));
    }

    let mut fb: Vec<u8> = footer_to_bytes(data_type, use_rle, &pages);
    let flen = fb.len();
    out.append(&mut fb);
    let mut trailer = vstd::bytes::u64_to_le_bytes(flen as u64);
    out.append(&mut trailer);
    let footer = Footer { data_type, use_rle, pages };
    proof {
        assert(out@ =~= spec_encode(s, use_rle, data_type));
    }
    Ok((out, footer))
}

/// Encodes a column. See [`encode_column_impl`].
pub fn encode_column(values: &Vec<Value>, data_type: DataType, use_rle: bool) -> (r: Result<
    (Vec<u8>, Footer),
    ColumnError,
>)
    ensures
        (types_ok(vals(values@), data_type) && spec_fits(vals(values@), use_rle)) <==> r is Ok,
        r matches Ok(p) ==> p.0@ == spec_encode(vals(values@), use_rle, data_type)
            && p.1.data_type == data_type && p.1.use_rle == use_rle && p.1.pages@
            == spec_footer_pages(vals(values@), use_rle),
        !types_ok(vals(values@), data_type) ==> (r matches Err(e) && exists|i: int|
            0 <= i < vals(values@).len() && val_type(#[trigger] vals(values@)[i]) != data_type && e
                == (ColumnError::UnsupportedDataType {
                expected: data_type,
                actual: val_type(vals(values@)[i]),
            })),
        types_ok(vals(values@), data_type) && !spec_fits(vals(values@), use_rle) ==> r == Err::<
            (Vec<u8>, Footer),
            ColumnError,
        >(ColumnError::TooLarge),
{
    encode_column_impl(values, data_type, use_rle)
}

} // verus!
