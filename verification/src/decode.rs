//! The column decoder: magic and header validation, the backward-seek
//! footer protocol, and a lazy iterator over decoded runs that enforces
//! per-page value accounting.
use vstd::prelude::*;
use vstd::bytes::{
    lemma_auto_spec_u64_to_from_le_bytes, spec_u64_from_le_bytes, spec_u64_to_le_bytes,
    u64_from_le_bytes,
};
use vstd::slice::slice_subrange;

use crate::codec::{
    dec_i16, dec_i32, dec_i64, dec_i8, dec_str, dec_u16, dec_u32, dec_u64, dec_u8, enc_val,
    lemma_prefix_split, prefix_of, vi64, vu64,
};
use crate::encode::{
    all_runs_pos, all_typed, enc_record, flatten_recs, footer_bytes, page_field,
    page_fields_bytes, rec_bytes, records_of, spec_encode, spec_footer_pages, spec_pages,
    types_ok, DATA_START,
};
use crate::rle::{run_total, runs, Values};
use crate::{
    magic_seq, spec_tag_code, tag_of_code, val_type, ColumnError, DataType, Footer, Header,
    PageInfo, Val, Value,
};

verus! {

/// Decodes one value of the given type at a position in the buffer.
///
/// On a buffer that carries the encoding of some value of that type at that
/// position, the read returns exactly that value and consumes exactly its
/// encoding.
pub fn dec_value(buf: &Vec<u8>, pos: usize, dt: DataType) -> (r: Option<(Value, usize)>)
    requires
        pos <= buf@.len(),
    ensures
        r matches Some(p) ==> pos < pos + p.1 <= buf@.len() && val_type(p.0@) == dt,
        forall|v: Val|
            val_type(v) == dt && prefix_of(#[trigger] enc_val(v), buf@.skip(pos as int)) ==> (
            r is Some && r.unwrap().0@ == v && r.unwrap().1 == enc_val(v).len()),
{
    let tail = slice_subrange(buf.as_slice(), pos, buf.len());
    proof {
        assert(tail@ =~= buf@.skip(pos as int));
    }
    match dt {
        DataType::U8 => {
            let r0 = dec_u8(tail);
            proof {
                assert forall|v: Val|
                    val_type(v) == dt && prefix_of(
                        #[trigger] enc_val(v),
                        buf@.skip(pos as int),
                    ) implies (match r0 {
                    Some(p) => p.0 == v->U8_0 && p.1 == enc_val(v).len(),
                    None => false,
                }) by {
                    assert(enc_val(v) == seq![v->U8_0]);
                    assert(tail@[0] == seq![v->U8_0][0]);
                }
            }
            match r0 {
                Some(p) => Some((Value::U8(p.0), p.1)),
                None => None,
            }
        },
        DataType::I8 => {
            let r0 = dec_i8(tail);
            proof {
                assert forall|v: Val|
                    val_type(v) == dt && prefix_of(
                        #[trigger] enc_val(v),
                        buf@.skip(pos as int),
                    ) implies (match r0 {
                    Some(p) => p.0 == v->I8_0 && p.1 == enc_val(v).len(),
                    None => false,
                }) by {
                    let y = v->I8_0;
                    assert(enc_val(v) == seq![y as u8]);
                    assert(tail@[0] == seq![y as u8][0]);
                    assert(y as u8 as i8 == y) by (bit_vector);
                }
            }
            match r0 {
                Some(p) => Some((Value::I8(p.0), p.1)),
                None => None,
            }
        },
        DataType::U16 => {
            match dec_u16(tail) {
                Some(p) => Some((Value::U16(p.0), p.1)),
                None => None,
            }
        },
        DataType::I16 => {
            match dec_i16(tail) {
                Some(p) => Some((Value::I16(p.0), p.1)),
                None => None,
            }
        },
        DataType::U32 => {
            match dec_u32(tail) {
                Some(p) => Some((Value::U32(p.0), p.1)),
                None => None,
            }
        },
        DataType::I32 => {
            match dec_i32(tail) {
                Some(p) => Some((Value::I32(p.0), p.1)),
                None => None,
            }
        },
        DataType::U64 => {
            match dec_u64(tail) {
                Some(p) => Some((Value::U64(p.0), p.1)),
                None => None,
            }
        },
        DataType::I64 => {
            match dec_i64(tail) {
                Some(p) => Some((Value::I64(p.0), p.1)),
                None => None,
            }
        },
        DataType::Str => {
            // read the length prefix first: a length past the slice's end
            // can only belong to a corrupt stream, and handing it on would
            // ask the codec to allocate that much up front
            match dec_u64(tail) {
                None => {
                    proof {
                        assert forall|v: Val|
                            val_type(v) == dt && prefix_of(
                                #[trigger] enc_val(v),
                                buf@.skip(pos as int),
                            ) implies false by {
                            let s0 = v->Str_0;
                            crate::codec::lemma_prefix_split(
                                vu64(vstd::utf8::encode_utf8(s0).len() as u64),
                                vstd::utf8::encode_utf8(s0),
                                tail@,
                            );
                        }
                    }
                    None
                },
                Some((l, _n)) => {
                    if l > tail.len() as u64 {
                        proof {
                            assert forall|v: Val|
                                val_type(v) == dt && prefix_of(
                                    #[trigger] enc_val(v),
                                    buf@.skip(pos as int),
                                ) implies false by {
                                let s0 = v->Str_0;
                                let ul = vstd::utf8::encode_utf8(s0).len() as u64;
                                crate::codec::lemma_prefix_split(
                                    vu64(ul),
                                    vstd::utf8::encode_utf8(s0),
                                    tail@,
                                );
                                assert(l == ul);
                            }
                        }
                        None
                    } else {
                        proof {
                            assert forall|l0: u64|
                                prefix_of(#[trigger] vu64(l0), tail@) implies l0
                                <= tail@.len() by {
                                assert(l0 == l);
                            }
                        }
                        match dec_str(tail) {
                            Some(p) => Some((Value::Str(p.0), p.1)),
                            None => None,
                        }
                    }
                },
            }
        },
    }
}

/// Decodes one record at a position: a value, and its run length when
/// run-length encoding is on (a raw value counts as a run of one).
///
/// On a buffer that carries the encoding of some record of the given type
/// at that position, the read returns exactly that record and consumes
/// exactly its encoding.
pub fn dec_record(buf: &Vec<u8>, pos: usize, dt: DataType, use_rle: bool) -> (r: Option<
    (Values<Value>, usize),
>)
    requires
        pos <= buf@.len(),
    ensures
        r matches Some(p) ==> pos < pos + p.1 <= buf@.len() && val_type(p.0.value@) == dt,
        forall|v: Val, rl: u64|
            val_type(v) == dt && prefix_of(
                #[trigger] enc_record(v, rl, use_rle),
                buf@.skip(pos as int),
            ) ==> (r is Some && r.unwrap().0.value@ == v && (use_rle ==> r.unwrap().0.run_length
                == rl) && (!use_rle ==> r.unwrap().0.run_length == 1) && r.unwrap().1 == enc_record(
                v,
                rl,
                use_rle,
            ).len()),
{
    let v0 = dec_value(buf, pos, dt);
    match v0 {
        None => {
            proof {
                assert forall|v: Val, rl: u64|
                    val_type(v) == dt && prefix_of(
                        #[trigger] enc_record(v, rl, use_rle),
                        buf@.skip(pos as int),
                    ) implies false by {
                    if use_rle {
                        lemma_prefix_split(enc_val(v), vu64(rl), buf@.skip(pos as int));
                    }
                }
            }
            None
        },
        Some((value, n1)) => {
            if use_rle {
                let blen = buf.len();
                let r1 = dec_u64(slice_subrange(buf.as_slice(), pos + n1, blen));
                proof {
                    assert(buf@.subrange(pos + n1, buf@.len() as int) =~= buf@.skip(
                        pos + n1 as int,
                    ));
                }
                match r1 {
                    None => {
                        proof {
                            assert forall|v: Val, rl: u64|
                                val_type(v) == dt && prefix_of(
                                    #[trigger] enc_record(v, rl, use_rle),
                                    buf@.skip(pos as int),
                                ) implies false by {
                                lemma_prefix_split(enc_val(v), vu64(rl), buf@.skip(pos as int));
                                assert(buf@.skip(pos as int).skip(enc_val(v).len() as int)
                                    =~= buf@.skip(pos + enc_val(v).len()));
                            }
                        }
                        None
                    },
                    Some((rl, n2)) => {
                        let rec = Values { value, run_length: rl };
                        proof {
                            assert forall|v: Val, rl2: u64|
                                val_type(v) == dt && prefix_of(
                                    #[trigger] enc_record(v, rl2, use_rle),
                                    buf@.skip(pos as int),
                                ) implies rec.value@ == v && rec.run_length == rl2 && n1 + n2
                                == enc_record(v, rl2, use_rle).len() by {
                                lemma_prefix_split(enc_val(v), vu64(rl2), buf@.skip(pos as int));
                                assert(buf@.skip(pos as int).skip(enc_val(v).len() as int)
                                    =~= buf@.skip(pos + enc_val(v).len()));
                            }
                        }
                        Some((rec, n1 + n2))
                    },
                }
            } else {
                Some((Values { value, run_length: 1 }, n1))
            }
        },
    }
}

/// The byte stream ends with this footer followed by the 8-byte trailer
/// that carries the footer's length.
pub open spec fn has_footer(bytes: Seq<u8>, dt: DataType, rle: bool, ps: Seq<PageInfo>) -> bool {
    let fb = footer_bytes(dt, rle, ps);
    &&& bytes.len() >= fb.len() + 8
    &&& bytes.subrange(bytes.len() - 8 - fb.len(), bytes.len() - 8) == fb
    &&& bytes.subrange(bytes.len() - 8, bytes.len() as int) == spec_u64_to_le_bytes(fb.len() as u64)
}

/// Parses `count` page descriptions starting at a position.
///
/// On a buffer that carries the field bytes of some `count` page
/// descriptions at that position, the parse returns exactly those
/// descriptions and stops exactly after their bytes.
fn parse_page_infos(buf: &Vec<u8>, pos: usize, count: u64) -> (r: Option<(Vec<PageInfo>, usize)>)
    requires
        pos <= buf@.len(),
    ensures
        r matches Some(p) ==> p.0@.len() == count && pos <= p.1 <= buf@.len(),
        forall|ps: Seq<PageInfo>|
            ps.len() == count && prefix_of(
                #[trigger] page_fields_bytes(ps),
                buf@.skip(pos as int),
            ) ==> (r is Some && r.unwrap().0@ == ps && r.unwrap().1 == pos + page_fields_bytes(
                ps,
            ).len()),
{
    let blen = buf.len();
    let mut acc: Vec<PageInfo> = Vec::new();
    let mut cur: usize = pos;
    let mut k: u64 = 0;
    proof {
        assert(buf@.skip(pos as int).skip(0) =~= buf@.skip(pos as int));
    }
    while k < count
        invariant
            pos <= cur <= buf@.len(),
            blen == buf@.len(),
            0 <= k <= count,
            acc@.len() == k,
            forall|ps: Seq<PageInfo>|
                ps.len() == count && prefix_of(
                    #[trigger] page_fields_bytes(ps),
                    buf@.skip(pos as int),
                ) ==> (acc@ == ps.take(k as int) && cur == pos + page_fields_bytes(
                    ps.take(k as int),
                ).len()),
        decreases count - k,
    {
        let ghost cur0 = cur as int;
        proof {
            assert forall|ps: Seq<PageInfo>|
                ps.len() == count && prefix_of(
                    #[trigger] page_fields_bytes(ps),
                    buf@.skip(pos as int),
                ) implies prefix_of(
                page_field(ps[k as int]),
                buf@.skip(cur0),
            ) && prefix_of(
                vi64(ps[k as int].file_offset),
                buf@.skip(cur0),
            ) && prefix_of(
                vu64(ps[k as int].values_count as u64),
                buf@.skip(cur0 + vi64(ps[k as int].file_offset).len()),
            ) && prefix_of(
                vu64(ps[k as int].encoded_values_count as u64),
                buf@.skip(
                    cur0 + vi64(ps[k as int].file_offset).len() + vu64(
                        ps[k as int].values_count as u64,
                    ).len(),
                ),
            ) by {
                let hd = ps.take(k as int);
                let tl = ps.skip(k as int);
                assert(ps =~= hd + tl);
                crate::encode::lemma_page_fields_additive(hd, tl);
                lemma_prefix_split(
                    page_fields_bytes(hd),
                    page_fields_bytes(tl),
                    buf@.skip(pos as int),
                );
                assert(buf@.skip(pos as int).skip(page_fields_bytes(hd).len() as int) =~= buf@.skip(
                    cur0,
                ));
                crate::encode::lemma_page_fields_first(tl);
                assert(tl[0] == ps[k as int]);
                lemma_prefix_split(
                    page_field(tl[0]),
                    page_fields_bytes(tl.drop_first()),
                    buf@.skip(cur0),
                );
                let f1 = vi64(tl[0].file_offset);
                let f2 = vu64(tl[0].values_count as u64);
                let f3 = vu64(tl[0].encoded_values_count as u64);
                assert(page_field(tl[0]) =~= f1 + (f2 + f3));
                lemma_prefix_split(f1, f2 + f3, buf@.skip(cur0));
                assert(buf@.skip(cur0).skip(f1.len() as int) =~= buf@.skip(cur0 + f1.len()));
                lemma_prefix_split(f2, f3, buf@.skip(cur0 + f1.len()));
                assert(buf@.skip(cur0 + f1.len()).skip(f2.len() as int) =~= buf@.skip(
                    cur0 + f1.len() + f2.len(),
                ));
            }
        }
        let fo = match dec_i64(slice_subrange(buf.as_slice(), cur, blen)) {
            Some(p) => p,
            None => {
                return None;
            },
        };
        proof {
            assert(buf@.subrange(cur0, blen as int) =~= buf@.skip(cur0));
        }
        let c1 = cur + fo.1;
        let vc = match dec_u64(slice_subrange(buf.as_slice(), c1, blen)) {
            Some(p) => p,
            None => {
                return None;
            },
        };
        proof {
            assert(buf@.subrange(c1 as int, blen as int) =~= buf@.skip(c1 as int));
        }
        let c2 = c1 + vc.1;
        let ec = match dec_u64(slice_subrange(buf.as_slice(), c2, blen)) {
            Some(p) => p,
            None => {
                return None;
            },
        };
        proof {
            assert(buf@.subrange(c2 as int, blen as int) =~= buf@.skip(c2 as int));
        }
        let c3 = c2 + ec.1;
        if vc.0 > usize::MAX as u64 || ec.0 > usize::MAX as u64 {
            return None;
        }
        let info = PageInfo {
            file_offset: fo.0,
            values_count: vc.0 as usize,
            encoded_values_count: ec.0 as usize,
        };
        acc.push(info);
        cur = c3;
        k = k + 1;
        proof {
            assert forall|ps: Seq<PageInfo>|
                ps.len() == count && prefix_of(
                    #[trigger] page_fields_bytes(ps),
                    buf@.skip(pos as int),
                ) implies (acc@ == ps.take(k as int) && cur == pos + page_fields_bytes(
                ps.take(k as int),
            ).len()) by {
                assert(info == ps[k - 1]);
                assert(acc@ =~= ps.take(k as int));
                let hd = ps.take(k - 1);
                assert(ps.take(k as int).drop_last() =~= hd);
                assert(ps.take(k as int).last() == ps[k - 1]);
            }
        }
    }
    proof {
        assert forall|ps: Seq<PageInfo>|
            ps.len() == count && prefix_of(
                #[trigger] page_fields_bytes(ps),
                buf@.skip(pos as int),
            ) implies (acc@ == ps && cur == pos + page_fields_bytes(ps).len()) by {
            assert(ps.take(k as int) =~= ps);
        }
    }
    Some((acc, cur))
}

/// Locates and reads the footer: seeks to the 8-byte trailer at the very
/// end, reads the footer's length from it, seeks to where the footer must
/// start, and deserialises it.
///
/// On any stream that ends with a footer and its trailer, the returned
/// footer equals the one that was written, field for field and page for
/// page.
pub fn decode_footer_impl(buf: &Vec<u8>) -> (r: Result<Footer, ColumnError>)
    ensures
        forall|dt: DataType, rle: bool, ps: Seq<PageInfo>|
            #[trigger] has_footer(buf@, dt, rle, ps) ==> (r matches Ok(f) && f.data_type == dt
                && f.use_rle == rle && f.pages@ == ps),
        r matches Err(e) ==> e == ColumnError::Truncated || e == ColumnError::DecodeFailed,
{
    let blen = buf.len();
    if blen < 8 {
        return Err(ColumnError::Truncated);
    }
    let tail8 = slice_subrange(buf.as_slice(), blen - 8, blen);
    let flen64 = u64_from_le_bytes(tail8);
    proof {
        lemma_auto_spec_u64_to_from_le_bytes();
        assert forall|dt: DataType, rle: bool, ps: Seq<PageInfo>|
            #[trigger] has_footer(buf@, dt, rle, ps) implies flen64 == footer_bytes(
            dt,
            rle,
            ps,
        ).len() && footer_bytes(dt, rle, ps).len() + 8 <= blen by {
            let fb = footer_bytes(dt, rle, ps);
            assert(tail8@ == spec_u64_to_le_bytes(fb.len() as u64));
            assert(spec_u64_from_le_bytes(spec_u64_to_le_bytes(fb.len() as u64)) == fb.len()
                as u64);
        }
    }
    if flen64 > (blen - 8) as u64 {
        return Err(ColumnError::Truncated);
    }
    let flen = flen64 as usize;
    let fstart = blen - 8 - flen;
    let ghost fs = fstart as int;
    proof {
        assert forall|dt: DataType, rle: bool, ps: Seq<PageInfo>|
            #[trigger] has_footer(buf@, dt, rle, ps) implies prefix_of(
            footer_bytes(dt, rle, ps),
            buf@.skip(fs),
        ) by {
            let fb = footer_bytes(dt, rle, ps);
            assert(buf@.skip(fs).subrange(0, fb.len() as int) =~= buf@.subrange(
                blen - 8 - fb.len(),
                blen - 8,
            ));
        }
    }
    if fstart >= blen {
        return Err(ColumnError::Truncated);
    }
    let tagb = buf[fstart];
    let flagb = buf[fstart + 1];
    proof {
        assert forall|dt: DataType, rle: bool, ps: Seq<PageInfo>|
            #[trigger] has_footer(buf@, dt, rle, ps) implies tagb == spec_tag_code(dt) && flagb
            == crate::encode::rle_flag_byte(rle) && prefix_of(
            vu64(ps.len() as u64),
            buf@.skip(fs + 2),
        ) && prefix_of(
            page_fields_bytes(ps),
            buf@.skip(fs + 2 + vu64(ps.len() as u64).len()),
        ) && ps.len() <= usize::MAX by {
            let fb = footer_bytes(dt, rle, ps);
            let head = seq![spec_tag_code(dt), crate::encode::rle_flag_byte(rle)];
            assert(fb =~= head + (vu64(ps.len() as u64) + page_fields_bytes(ps)));
            lemma_prefix_split(
                head,
                vu64(ps.len() as u64) + page_fields_bytes(ps),
                buf@.skip(fs),
            );
            assert(buf@.skip(fs)[0] == buf@[fs]);
            assert(buf@.skip(fs)[1] == buf@[fs + 1]);
            assert(head[0] == spec_tag_code(dt));
            assert(buf@.skip(fs).subrange(0, 2)[0] == buf@.skip(fs)[0]);
            assert(buf@.skip(fs).subrange(0, 2)[1] == buf@.skip(fs)[1]);
            assert(buf@.skip(fs).skip(2) =~= buf@.skip(fs + 2));
            lemma_prefix_split(
                vu64(ps.len() as u64),
                page_fields_bytes(ps),
                buf@.skip(fs + 2),
            );
            assert(buf@.skip(fs + 2).skip(vu64(ps.len() as u64).len() as int) =~= buf@.skip(
                fs + 2 + vu64(ps.len() as u64).len(),
            ));
            crate::encode::lemma_page_fields_lower_bound(ps);
        }
    }
    let data_type = match tag_of_code(tagb) {
        Some(t) => t,
        None => {
            return Err(ColumnError::DecodeFailed);
        },
    };
    let use_rle = if flagb == 0 {
        false
    } else if flagb == 1 {
        true
    } else {
        return Err(ColumnError::DecodeFailed);
    };
    let cnt = match dec_u64(slice_subrange(buf.as_slice(), fstart + 2, blen)) {
        Some(p) => p,
        None => {
            return Err(ColumnError::DecodeFailed);
        },
    };
    proof {
        assert(buf@.subrange(fs + 2, blen as int) =~= buf@.skip(fs + 2));
    }
    let pages = match parse_page_infos(buf, fstart + 2 + cnt.1, cnt.0) {
        Some(p) => p.0,
        None => {
            return Err(ColumnError::DecodeFailed);
        },
    };
    Ok(Footer { data_type, use_rle, pages })
}

/// A run has a positive total exactly when it holds at least one record.
proof fn lemma_run_total_pos(rs: Seq<(Val, u64)>)
    requires
        all_runs_pos(rs),
    ensures
        rs.len() > 0 ==> run_total(rs) >= 1,
        rs.len() == 0 ==> run_total(rs) == 0,
{
    if rs.len() > 0 {
        crate::encode::lemma_run_total_first(rs);
        crate::encode::lemma_run_total_nonneg(rs.drop_first());
    }
}

/// The lazy decode iterator: it owns the stream's bytes, a cursor into the
/// data region, and the footer's page list together with the current page's
/// remaining logical budget. Each call decodes one record, charges it
/// against the current page, and skips pages whose budget is exhausted.
pub struct ColumnIter {
    /// The whole encoded stream.
    pub buf: Vec<u8>,
    /// Read position inside the data region.
    pub pos: usize,
    /// The tag every decoded value must carry.
    pub data_type: DataType,
    /// Whether records carry run lengths.
    pub use_rle: bool,
    /// The footer's page descriptions.
    pub pages: Vec<PageInfo>,
    /// The page the cursor is in.
    pub page_idx: usize,
    /// Logical values still to be drawn from the current page.
    pub remaining: usize,
}

impl ColumnIter {
    /// Bounds that every state of the iterator satisfies.
    pub open spec fn basic_inv(self) -> bool {
        &&& self.pos <= self.buf@.len()
        &&& self.page_idx <= self.pages@.len()
        &&& (self.page_idx < self.pages@.len() ==> self.remaining
            <= self.pages@[self.page_idx as int].values_count)
        &&& (self.page_idx == self.pages@.len() ==> self.remaining == 0)
    }

    /// The iterator's remaining work, page by page: `rp` lists the records
    /// still to be yielded from each remaining page, the page budgets
    /// account for them exactly, and the bytes at the cursor are their
    /// encodings back-to-back.
    pub open spec fn models(self, rp: Seq<Seq<(Val, u64)>>) -> bool {
        &&& self.basic_inv()
        &&& rp.len() == self.pages@.len() - self.page_idx
        &&& (self.page_idx < self.pages@.len() ==> run_total(rp[0]) == self.remaining)
        &&& (forall|j: int|
            1 <= j < rp.len() ==> run_total(#[trigger] rp[j]) == self.pages@[self.page_idx
                + j].values_count)
        &&& (forall|j: int|
            0 <= j < rp.len() ==> all_runs_pos(#[trigger] rp[j]) && all_typed(
                rp[j],
                self.data_type,
            ))
        &&& (!self.use_rle ==> (forall|j: int|
            0 <= j < rp.len() ==> crate::encode::all_ones(#[trigger] rp[j])))
        &&& prefix_of(rec_bytes(flatten_recs(rp), self.use_rle), self.buf@.skip(self.pos as int))
    }

    /// Yields the next run record: skips exhausted pages, decodes one
    /// record at the cursor, charges its run length against the current
    /// page's budget, and reports corruption when a run overdraws it.
    /// Returns `None` once no page has budget left.
    ///
    /// On a stream whose remaining pages the model `rp` describes, the call
    /// yields exactly the next record of the model and leaves the iterator
    /// describing the rest.
    pub fn next(&mut self) -> (r: Option<Result<Values<Value>, ColumnError>>)
        requires
            old(self).basic_inv(),
        ensures
            final(self).basic_inv(),
            final(self).buf == old(self).buf,
            final(self).data_type == old(self).data_type,
            final(self).use_rle == old(self).use_rle,
            final(self).pages == old(self).pages,
            (r is Some && r.unwrap() is Ok) ==> final(self).pos > old(self).pos,
            (r is Some && r.unwrap() is Err) ==> (r.unwrap()->Err_0 == ColumnError::DecodeFailed
                || r.unwrap()->Err_0 matches ColumnError::NotEnoughValuesInReader { .. }),
            forall|rp: Seq<Seq<(Val, u64)>>|
                #[trigger] old(self).models(rp) ==> (if flatten_recs(rp).len() == 0 {
                    r == None::<Result<Values<Value>, ColumnError>>
                } else {
                    &&& r is Some
                    &&& r.unwrap() is Ok
                    &&& r.unwrap()->Ok_0.value@ == flatten_recs(rp)[0].0
                    &&& r.unwrap()->Ok_0.run_length == flatten_recs(rp)[0].1
                    &&& exists|rp2: Seq<Seq<(Val, u64)>>|
                        #[trigger] final(self).models(rp2) && flatten_recs(rp2) == flatten_recs(
                            rp,
                        ).drop_first()
                }),
        decreases self.pages@.len() - self.page_idx,
    {
        let npages = self.pages.len();
        if self.remaining == 0 {
            if self.page_idx == npages {
                proof {
                    assert forall|rp: Seq<Seq<(Val, u64)>>|
                        #[trigger] old(self).models(rp) implies flatten_recs(rp).len() == 0 by {
                        assert(rp.len() == 0);
                    }
                }
                return None;
            }
            self.page_idx = self.page_idx + 1;
            if self.page_idx < npages {
                self.remaining = self.pages[self.page_idx].values_count;
            } else {
                self.remaining = 0;
            }
            let ghost mid = *self;
            proof {
                assert forall|rp: Seq<Seq<(Val, u64)>>|
                    #[trigger] old(self).models(rp) implies mid.models(rp.drop_first())
                    && flatten_recs(rp.drop_first()) == flatten_recs(rp) && flatten_recs(
                    rp,
                ).len() == flatten_recs(rp.drop_first()).len() by {
                    assert(rp.len() > 0);
                    assert(all_runs_pos(rp[0]));
                    lemma_run_total_pos(rp[0]);
                    assert(rp[0].len() == 0);
                    assert(flatten_recs(rp) =~= flatten_recs(rp.drop_first()));
                    assert forall|j: int| 1 <= j < rp.drop_first().len() implies run_total(
                        #[trigger] rp.drop_first()[j],
                    ) == mid.pages@[mid.page_idx + j].values_count by {
                        assert(rp.drop_first()[j] == rp[j + 1]);
                    }
                    assert forall|j: int| 0 <= j < rp.drop_first().len() implies all_runs_pos(
                        #[trigger] rp.drop_first()[j],
                    ) && all_typed(rp.drop_first()[j], mid.data_type) by {
                        assert(rp.drop_first()[j] == rp[j + 1]);
                    }
                    if !mid.use_rle {
                        assert forall|j: int|
                            0 <= j < rp.drop_first().len() implies crate::encode::all_ones(
                            #[trigger] rp.drop_first()[j],
                        ) by {
                            assert(rp.drop_first()[j] == rp[j + 1]);
                        }
                    }
                    if mid.page_idx < mid.pages@.len() {
                        assert(rp.drop_first()[0] == rp[1]);
                    }
                }
            }
            let r = self.next();
            proof {
                assert forall|rp: Seq<Seq<(Val, u64)>>|
                    #[trigger] old(self).models(rp) implies (if flatten_recs(rp).len() == 0 {
                    r == None::<Result<Values<Value>, ColumnError>>
                } else {
                    &&& r is Some
                    &&& r.unwrap() is Ok
                    &&& r.unwrap()->Ok_0.value@ == flatten_recs(rp)[0].0
                    &&& r.unwrap()->Ok_0.run_length == flatten_recs(rp)[0].1
                    &&& exists|rp2: Seq<Seq<(Val, u64)>>|
                        #[trigger] final(self).models(rp2) && flatten_recs(rp2) == flatten_recs(
                            rp,
                        ).drop_first()
                }) by {
                    assert(mid.models(rp.drop_first()));
                }
            }
            return r;
        }
        let ghost p0 = self.pos as int;
        proof {
            broadcast use vstd::std_specs::vec::axiom_spec_len;

            assert(vstd::std_specs::vec::spec_vec_len(&self.buf) <= usize::MAX);
        }
        let dres = dec_record(&self.buf, self.pos, self.data_type, self.use_rle);
        proof {
            assert forall|rp: Seq<Seq<(Val, u64)>>|
                #[trigger] old(self).models(rp) implies flatten_recs(rp).len() > 0 && prefix_of(
                enc_record(flatten_recs(rp)[0].0, flatten_recs(rp)[0].1, self.use_rle),
                self.buf@.skip(p0),
            ) && val_type(flatten_recs(rp)[0].0) == self.data_type && flatten_recs(rp)[0].1
                <= self.remaining && (!self.use_rle ==> flatten_recs(rp)[0].1 == 1) by {
                assert(rp.len() > 0);
                lemma_run_total_pos(rp[0]);
                assert(rp[0].len() > 0);
                let flat = flatten_recs(rp);
                assert(flat == rp[0] + flatten_recs(rp.drop_first()));
                assert(flat[0] == rp[0][0]);
                crate::encode::lemma_rec_bytes_first(flat, self.use_rle);
                lemma_prefix_split(
                    enc_record(flat[0].0, flat[0].1, self.use_rle),
                    rec_bytes(flat.drop_first(), self.use_rle),
                    self.buf@.skip(p0),
                );
                crate::encode::lemma_run_total_first(rp[0]);
                crate::encode::lemma_run_total_nonneg(rp[0].drop_first());
            }
        }
        match dres {
            None => {
                return Some(Err(ColumnError::DecodeFailed));
            },
            Some((rec, n)) => {
                let rl = rec.run_length;
                if rl > self.remaining as u64 {
                    let vc = self.pages[self.page_idx].values_count;
                    let consumed = vc - self.remaining;
                    let actual = if rl > (usize::MAX - consumed) as u64 {
                        usize::MAX
                    } else {
                        consumed + rl as usize
                    };
                    return Some(
                        Err(
                            ColumnError::NotEnoughValuesInReader {
                                expected_total: vc,
                                actual_total: actual,
                            },
                        ),
                    );
                }
                self.pos = self.pos + n;
                self.remaining = self.remaining - rl as usize;
                proof {
                    assert forall|rp: Seq<Seq<(Val, u64)>>|
                        #[trigger] old(self).models(rp) implies ((rec.value@, rec.run_length)
                        == flatten_recs(rp)[0] && exists|rp2: Seq<Seq<(Val, u64)>>|
                        #[trigger] final(self).models(rp2) && flatten_recs(rp2) == flatten_recs(
                            rp,
                        ).drop_first()) by {
                        let flat = flatten_recs(rp);
                        assert(rp.len() > 0 && rp[0].len() > 0);
                        assert(flat == rp[0] + flatten_recs(rp.drop_first()));
                        assert(flat[0] == rp[0][0]);
                        let rp2 = rp.update(0, rp[0].drop_first());
                        assert(rp2.drop_first() =~= rp.drop_first());
                        assert(flatten_recs(rp2) == rp[0].drop_first() + flatten_recs(
                            rp.drop_first(),
                        ));
                        assert(flatten_recs(rp2) =~= flat.drop_first());
                        crate::encode::lemma_run_total_first(rp[0]);
                        assert(run_total(rp[0].drop_first()) == final(self).remaining);
                        assert forall|j: int| 1 <= j < rp2.len() implies run_total(
                            #[trigger] rp2[j],
                        ) == final(self).pages@[final(self).page_idx + j].values_count by {
                            assert(rp2[j] == rp[j]);
                        }
                        assert forall|j: int| 0 <= j < rp2.len() implies all_runs_pos(
                            #[trigger] rp2[j],
                        ) && all_typed(rp2[j], final(self).data_type) by {
                            if j > 0 {
                                assert(rp2[j] == rp[j]);
                            } else {
                                assert(forall|i: int|
                                    0 <= i < rp[0].drop_first().len() ==> rp[0].drop_first()[i]
                                        == rp[0][i + 1]);
                            }
                        }
                        if !final(self).use_rle {
                            assert forall|j: int|
                                0 <= j < rp2.len() implies crate::encode::all_ones(
                                #[trigger] rp2[j],
                            ) by {
                                if j > 0 {
                                    assert(rp2[j] == rp[j]);
                                } else {
                                    assert(forall|i: int|
                                        0 <= i < rp[0].drop_first().len() ==> rp[0].drop_first()[i]
                                            == rp[0][i + 1]);
                                }
                            }
                        }
                        crate::encode::lemma_rec_bytes_first(flat, final(self).use_rle);
                        lemma_prefix_split(
                            enc_record(flat[0].0, flat[0].1, final(self).use_rle),
                            rec_bytes(flat.drop_first(), final(self).use_rle),
                            final(self).buf@.skip(p0),
                        );
                        assert(final(self).buf@.skip(p0).skip(
                            enc_record(flat[0].0, flat[0].1, final(self).use_rle).len() as int,
                        ) =~= final(self).buf@.skip(final(self).pos as int));
                        assert(final(self).models(rp2));
                    }
                }
                return Some(Ok(rec));
            },
        }
    }
}

/// The byte stream is the encoding of the typed value stream `s`, with or
/// without run-length compression, under the given tag.
pub open spec fn encoding_of(bytes: Seq<u8>, s: Seq<Val>, rle: bool, dt: DataType) -> bool {
    &&& types_ok(s, dt)
    &&& s.len() <= usize::MAX
    &&& bytes == spec_encode(s, rle, dt)
}

/// Tests whether the stream starts with the fixed magic literal.
pub fn check_magic(bytes: &Vec<u8>) -> (r: bool)
    ensures
        r == (bytes@.len() >= crate::MAGIC_BYTES_LEN && bytes@.subrange(
            0,
            crate::MAGIC_BYTES_LEN as int,
        ) == magic_seq()),
{
    if bytes.len() < crate::MAGIC_BYTES_LEN {
        return false;
    }
    let mut m: Vec<u8> = Vec::new();
    crate::push_magic(&mut m);
    let mut i: usize = 0;
    while i < crate::MAGIC_BYTES_LEN
        invariant
            0 <= i <= crate::MAGIC_BYTES_LEN,
            bytes@.len() >= crate::MAGIC_BYTES_LEN,
            m@ == magic_seq(),
            forall|j: int| 0 <= j < i ==> bytes@[j] == magic_seq()[j],
        decreases crate::MAGIC_BYTES_LEN - i,
    {
        if bytes[i] != m[i] {
            proof {
                assert(bytes@.subrange(0, crate::MAGIC_BYTES_LEN as int)[i as int] != magic_seq()[
                    i as int
                ]);
            }
            return false;
        }
        i += 1;
    }
    proof {
        assert(bytes@.subrange(0, crate::MAGIC_BYTES_LEN as int) =~= magic_seq());
    }
    true
}

/// Opens a column for decoding: checks the magic literal, reads the header,
/// locates and reads the footer, verifies that the persisted tag matches
/// the requested one, and positions a lazy iterator at the data region.
///
/// On the encoding of a value stream of the requested type, the returned
/// iterator's model is exactly that stream's records; on one of another
/// type, the call fails with the persisted and requested tags; and on a
/// stream that does not begin with the magic literal it fails with a format
/// error, and only then.
pub fn decode_column_impl(bytes: Vec<u8>, data_type: DataType) -> (r: Result<
    ColumnIter,
    ColumnError,
>)
    ensures
        (bytes@.len() < crate::MAGIC_BYTES_LEN || bytes@.subrange(0, crate::MAGIC_BYTES_LEN as int)
            != magic_seq()) <==> r == Err::<ColumnIter, ColumnError>(ColumnError::BadMagic),
        r matches Ok(it) ==> it.basic_inv() && it.buf == bytes && it.data_type == data_type,
        forall|s: Seq<Val>, rle: bool, dt: DataType|
            #[trigger] encoding_of(bytes@, s, rle, dt) ==> (if dt == data_type {
                r is Ok && (exists|rp: Seq<Seq<(Val, u64)>>|
                    #[trigger] (r->Ok_0).models(rp) && flatten_recs(rp) == records_of(s, rle))
                    && (r->Ok_0).use_rle == rle && (r->Ok_0).pages@ == spec_footer_pages(s, rle)
            } else {
                r == Err::<ColumnIter, ColumnError>(
                    ColumnError::UnsupportedDataType { expected: dt, actual: data_type },
                )
            }),
{
    let ghost b = bytes@;
    if !check_magic(&bytes) {
        proof {
            assert forall|s: Seq<Val>, rle: bool, dt: DataType|
                #[trigger] encoding_of(b, s, rle, dt) implies false by {
                crate::encode::lemma_encode_layout(s, rle, dt);
            }
        }
        return Err(ColumnError::BadMagic);
    }
    let blen = bytes.len();
    if blen < DATA_START {
        proof {
            assert forall|s: Seq<Val>, rle: bool, dt: DataType|
                #[trigger] encoding_of(b, s, rle, dt) implies false by {
                crate::encode::lemma_encode_layout(s, rle, dt);
            }
        }
        return Err(ColumnError::Truncated);
    }
    let htag_opt = tag_of_code(bytes[9]);
    let htag = match htag_opt {
        Some(t) => t,
        None => {
            proof {
                assert forall|s: Seq<Val>, rle: bool, dt: DataType|
                    #[trigger] encoding_of(b, s, rle, dt) implies false by {
                    crate::encode::lemma_encode_layout(s, rle, dt);
                }
            }
            return Err(ColumnError::DecodeFailed);
        },
    };
    let hflag = bytes[10];
    let huse = if hflag == 0 {
        false
    } else if hflag == 1 {
        true
    } else {
        proof {
            assert forall|s: Seq<Val>, rle: bool, dt: DataType|
                #[trigger] encoding_of(b, s, rle, dt) implies false by {
                crate::encode::lemma_encode_layout(s, rle, dt);
            }
        }
        return Err(ColumnError::DecodeFailed);
    };
    let footer = match decode_footer_impl(&bytes) {
        Ok(f) => f,
        Err(e) => {
            proof {
                assert forall|s: Seq<Val>, rle: bool, dt: DataType|
                    #[trigger] encoding_of(b, s, rle, dt) implies false by {
                    lemma_encode_has_footer(s, rle, dt);
                }
            }
            return Err(e);
        },
    };
    proof {
        assert forall|s: Seq<Val>, rle: bool, dt: DataType|
            #[trigger] encoding_of(b, s, rle, dt) implies footer.data_type == dt && footer.use_rle
            == rle && footer.pages@ == spec_footer_pages(s, rle) && htag == dt && huse == rle by {
            lemma_encode_has_footer(s, rle, dt);
            crate::encode::lemma_encode_layout(s, rle, dt);
        }
    }
    let header = Header { data_type: htag, use_rle: huse };
    if header.data_type != footer.data_type || header.use_rle != footer.use_rle {
        return Err(ColumnError::DecodeFailed);
    }
    if footer.data_type != data_type {
        return Err(
            ColumnError::UnsupportedDataType { expected: footer.data_type, actual: data_type },
        );
    }
    let npages = footer.pages.len();
    let remaining = if npages > 0 {
        footer.pages[0].values_count
    } else {
        0
    };
    let it = ColumnIter {
        buf: bytes,
        pos: DATA_START,
        data_type,
        use_rle: footer.use_rle,
        pages: footer.pages,
        page_idx: 0,
        remaining,
    };
    proof {
        assert forall|s: Seq<Val>, rle: bool, dt: DataType|
            #[trigger] encoding_of(b, s, rle, dt) implies (exists|rp: Seq<Seq<(Val, u64)>>|
            #[trigger] it.models(rp) && flatten_recs(rp) == records_of(s, rle)) by {
            let recs = records_of(s, rle);
            if rle {
                crate::rle::lemma_rle_shape(s);
            } else {
                crate::encode::lemma_singles_total(s);
            }
            crate::encode::lemma_spec_pages(recs, rle, DATA_START as int);
            crate::encode::lemma_records_typed(s, rle, dt);
            crate::encode::lemma_spec_pages_inherit(recs, rle, dt);
            crate::encode::lemma_encode_layout(s, rle, dt);
            let rp = spec_pages(recs, rle);
            assert(flatten_recs(rp) == recs);
            if npages > 0 {
                assert(run_total(rp[0]) == it.pages@[0].values_count);
            }
            assert(it.models(rp));
        }
    }
    Ok(it)
}

/// Opens a column for decoding. See [`decode_column_impl`].
pub fn decode_column(bytes: Vec<u8>, data_type: DataType) -> (r: Result<ColumnIter, ColumnError>)
    ensures
        (bytes@.len() < crate::MAGIC_BYTES_LEN || bytes@.subrange(0, crate::MAGIC_BYTES_LEN as int)
            != magic_seq()) <==> r == Err::<ColumnIter, ColumnError>(ColumnError::BadMagic),
        r matches Ok(it) ==> it.basic_inv() && it.buf == bytes && it.data_type == data_type,
        forall|s: Seq<Val>, rle: bool, dt: DataType|
            #[trigger] encoding_of(bytes@, s, rle, dt) ==> (if dt == data_type {
                r is Ok && (exists|rp: Seq<Seq<(Val, u64)>>|
                    #[trigger] (r->Ok_0).models(rp) && flatten_recs(rp) == records_of(s, rle))
                    && (r->Ok_0).use_rle == rle && (r->Ok_0).pages@ == spec_footer_pages(s, rle)
            } else {
                r == Err::<ColumnIter, ColumnError>(
                    ColumnError::UnsupportedDataType { expected: dt, actual: data_type },
                )
            }),
{
    decode_column_impl(bytes, data_type)
}

/// Decodes a whole column eagerly: opens it, then drains the iterator into
/// a vector of run records, stopping at the first error.
///
/// On the encoding of a value stream of the requested type, the result is
/// exactly that stream's records: its run-length records, or its values
/// each wrapped as a run of one.
pub fn decode_all(bytes: Vec<u8>, data_type: DataType) -> (r: Result<
    Vec<Values<Value>>,
    ColumnError,
>)
    ensures
        (bytes@.len() < crate::MAGIC_BYTES_LEN || bytes@.subrange(0, crate::MAGIC_BYTES_LEN as int)
            != magic_seq()) <==> r == Err::<Vec<Values<Value>>, ColumnError>(ColumnError::BadMagic),
        forall|s: Seq<Val>, rle: bool, dt: DataType|
            #[trigger] encoding_of(bytes@, s, rle, dt) ==> (if dt == data_type {
                r is Ok && runs((r->Ok_0)@) == records_of(s, rle)
            } else {
                r == Err::<Vec<Values<Value>>, ColumnError>(
                    ColumnError::UnsupportedDataType { expected: dt, actual: data_type },
                )
            }),
{
    let ghost b = bytes@;
    let mut it = match decode_column_impl(bytes, data_type) {
        Ok(it) => it,
        Err(e) => {
            return Err(e);
        },
    };
    let mut out: Vec<Values<Value>> = Vec::new();
    loop
        invariant_except_break
            it.basic_inv(),
            it.data_type == data_type,
            it.buf@ == b,
            forall|s: Seq<Val>, rle: bool|
                #[trigger] encoding_of(b, s, rle, data_type) ==> (out@.len() <= records_of(
                    s,
                    rle,
                ).len() && runs(out@) == records_of(s, rle).take(out@.len() as int) && (exists|
                    rp: Seq<Seq<(Val, u64)>>,
                |
                    #[trigger] it.models(rp) && flatten_recs(rp) == records_of(s, rle).skip(
                        out@.len() as int,
                    ))),
        invariant
            b == bytes@,
            b.len() >= crate::MAGIC_BYTES_LEN,
            b.subrange(0, crate::MAGIC_BYTES_LEN as int) == magic_seq(),
            forall|s: Seq<Val>, rle: bool, dt: DataType|
                #[trigger] encoding_of(b, s, rle, dt) ==> dt == data_type,
        ensures
            it.basic_inv(),
            forall|s: Seq<Val>, rle: bool|
                #[trigger] encoding_of(b, s, rle, data_type) ==> runs(out@) == records_of(s, rle),
        decreases it.buf@.len() - it.pos,
    {
        let ghost mid = it;
        let step = it.next();
        match step {
            None => {
                proof {
                    assert forall|s: Seq<Val>, rle: bool|
                        #[trigger] encoding_of(b, s, rle, data_type) implies runs(out@)
                        == records_of(s, rle) by {
                        let rp = choose|rp: Seq<Seq<(Val, u64)>>|
                            #[trigger] mid.models(rp) && flatten_recs(rp) == records_of(
                                s,
                                rle,
                            ).skip(out@.len() as int);
                        assert(mid.models(rp));
                        assert(flatten_recs(rp).len() == 0);
                        assert(records_of(s, rle).skip(out@.len() as int).len() == 0);
                        assert(runs(out@) =~= records_of(s, rle));
                    }
                }
                break;
            },
            Some(item) => {
                match item {
                    Err(e) => {
                        proof {
                            assert forall|s: Seq<Val>, rle: bool|
                                #[trigger] encoding_of(b, s, rle, data_type) implies false by {
                                let rp = choose|rp: Seq<Seq<(Val, u64)>>|
                                    #[trigger] mid.models(rp) && flatten_recs(rp) == records_of(
                                        s,
                                        rle,
                                    ).skip(out@.len() as int);
                                assert(mid.models(rp));
                            }
                        }
                        return Err(e);
                    },
                    Ok(rec) => {
                        out.push(rec);
                        proof {
                            assert forall|s: Seq<Val>, rle: bool|
                                #[trigger] encoding_of(b, s, rle, data_type) implies (out@.len()
                                <= records_of(s, rle).len() && runs(out@) == records_of(
                                s,
                                rle,
                            ).take(out@.len() as int) && (exists|rp2: Seq<Seq<(Val, u64)>>|
                                #[trigger] it.models(rp2) && flatten_recs(rp2) == records_of(
                                    s,
                                    rle,
                                ).skip(out@.len() as int))) by {
                                let recs = records_of(s, rle);
                                let k = out@.len() - 1;
                                let rp = choose|rp: Seq<Seq<(Val, u64)>>|
                                    #[trigger] mid.models(rp) && flatten_recs(rp) == recs.skip(k);
                                assert(mid.models(rp));
                                assert(flatten_recs(rp).len() > 0);
                                assert(flatten_recs(rp)[0] == recs.skip(k)[0]);
                                assert(recs.skip(k)[0] == recs[k]);
                                assert((rec.value@, rec.run_length) == recs[k]);
                                assert(runs(out@) =~= recs.take(k + 1));
                                let rp2 = choose|rp2: Seq<Seq<(Val, u64)>>|
                                    #[trigger] it.models(rp2) && flatten_recs(rp2)
                                        == flatten_recs(rp).drop_first();
                                assert(it.models(rp2));
                                assert(flatten_recs(rp).drop_first() =~= recs.skip(k + 1));
                            }
                        }
                    },
                }
            },
        }
    }
    Ok(out)
}

/// The stream an encode produces ends with its footer and trailer, so the
/// footer protocol finds them.
pub proof fn lemma_encode_has_footer(s: Seq<Val>, use_rle: bool, dt: DataType)
    ensures
        has_footer(
            spec_encode(s, use_rle, dt),
            dt,
            use_rle,
            spec_footer_pages(s, use_rle),
        ),
{
    lemma_auto_spec_u64_to_from_le_bytes();
    let e = spec_encode(s, use_rle, dt);
    let fb = footer_bytes(dt, use_rle, spec_footer_pages(s, use_rle));
    let t = spec_u64_to_le_bytes(fb.len() as u64);
    assert(t.len() == 8);
    assert(e.subrange(e.len() - 8 - fb.len(), e.len() - 8) =~= fb);
    assert(e.subrange(e.len() - 8, e.len() as int) =~= t);
}

} // verus!

