//! Per-source n-gram records.
//!
//! Each record is a window of four token spans over one line of a source's
//! text: three context tokens and the predicted token that followed them.
//! Lines are padded on both sides with sentinel spans so that every real
//! token appears in the predicted position under every left context it has;
//! windows whose two trailing positions are both sentinels are redundant and
//! are discarded.

use vstd::prelude::*;

use crate::span::{EncodingOverflow, Offset, MAX_START, MAX_TOKEN_LEN};
use crate::text::{
    line_end, lemma_line_end_bounds, lemma_tokens_in_range, pairs_view, scan_tokens,
    find_line_end, spec_tokens,
};

verus! {

/// One n-gram record: three context spans (oldest first) and the predicted
/// span, all relative to the owning source's text buffer.
#[derive(Clone, Copy, Debug, PartialEq, Eq, Structural)]
pub struct NgramData {
    pub pp_prev: Offset,
    pub p_prev: Offset,
    pub prev: Offset,
    pub current: Offset,
}

/// Whether a span stays inside the owning buffer.  Sentinels never address
/// the buffer; any other span must reference a non-empty in-bounds range.
pub open spec fn span_wf(o: Offset, content: Seq<u8>) -> bool {
    o.spec_len() > 0 ==> o.spec_start() + o.spec_len() <= content.len()
}

/// Whether all four spans of a record stay inside the owning buffer.
pub open spec fn ngram_wf(d: NgramData, content: Seq<u8>) -> bool {
    &&& span_wf(d.pp_prev, content)
    &&& span_wf(d.p_prev, content)
    &&& span_wf(d.prev, content)
    &&& span_wf(d.current, content)
}

/// The bytes a span refers to: the empty sequence for sentinels, otherwise
/// the referenced substring of the owning buffer.
pub open spec fn tok_bytes(o: Offset, content: Seq<u8>) -> Seq<u8> {
    if o.spec_len() == 0 {
        Seq::empty()
    } else {
        content.subrange(o.spec_start() as int, o.spec_start() + o.spec_len())
    }
}

impl NgramData {
    /// The oldest context token, decoded against the owning buffer.
    pub fn pp_prev<'a>(&self, content: &'a [u8]) -> (r: &'a [u8])
        requires
            span_wf(self.pp_prev, content@),
        ensures
            r@ == tok_bytes(self.pp_prev, content@),
    {
        decode_span(self.pp_prev, content)
    }

    /// The middle context token, decoded against the owning buffer.
    pub fn p_prev<'a>(&self, content: &'a [u8]) -> (r: &'a [u8])
        requires
            span_wf(self.p_prev, content@),
        ensures
            r@ == tok_bytes(self.p_prev, content@),
    {
        decode_span(self.p_prev, content)
    }

    /// The most recent context token, decoded against the owning buffer.
    pub fn prev<'a>(&self, content: &'a [u8]) -> (r: &'a [u8])
        requires
            span_wf(self.prev, content@),
        ensures
            r@ == tok_bytes(self.prev, content@),
    {
        decode_span(self.prev, content)
    }

    /// The predicted token, decoded against the owning buffer.
    pub fn current<'a>(&self, content: &'a [u8]) -> (r: &'a [u8])
        requires
            span_wf(self.current, content@),
        ensures
            r@ == tok_bytes(self.current, content@),
    {
        decode_span(self.current, content)
    }
}

/// Decodes one span against its owning buffer.
fn decode_span<'a>(o: Offset, content: &'a [u8]) -> (r: &'a [u8])
    requires
        span_wf(o, content@),
    ensures
        r@ == tok_bytes(o, content@),
{
    if o.is_sentinel() {
        vstd::slice::slice_subrange(content, 0, 0)
    } else {
        let start = o.ptr();
        let length = o.len();
        vstd::slice::slice_subrange(content, start, start + length)
    }
}

/// The span at position `j` of a line's padded token sequence: positions
/// 0..3 and everything past the tokens are sentinels; position `j` in
/// between is token `j - 3` of the line.
pub open spec fn spec_tok_offset(toks: Seq<(int, int)>, j: int) -> Offset {
    if 3 <= j < toks.len() + 3 {
        Offset::spec_encode(toks[j - 3].0 as u32, toks[j - 3].1 as u32)
    } else {
        Offset(0)
    }
}

/// The records of one line, given its token ranges: one window per position
/// `w` in `0 ..= toks.len()`, each reading four consecutive padded slots.
/// Windows past that range would have two trailing sentinels and are
/// discarded; a line without tokens yields no records.
pub open spec fn spec_line_records(toks: Seq<(int, int)>) -> Seq<NgramData> {
    if toks.len() == 0 {
        Seq::empty()
    } else {
        Seq::new(
            (toks.len() + 1) as nat,
            |w: int| NgramData {
                pp_prev: spec_tok_offset(toks, w),
                p_prev: spec_tok_offset(toks, w + 1),
                prev: spec_tok_offset(toks, w + 2),
                current: spec_tok_offset(toks, w + 3),
            },
        )
    }
}

/// The records of every line of `s` starting at position `i`, in line order.
pub open spec fn spec_records_from(s: Seq<u8>, i: int) -> Seq<NgramData>
    decreases s.len() - i + 1,
    via spec_records_from_decreases
{
    if i >= s.len() {
        Seq::empty()
    } else {
        spec_line_records(spec_tokens(s, i, line_end(s, i)))
            + spec_records_from(s, line_end(s, i) + 1)
    }
}

#[via_fn]
proof fn spec_records_from_decreases(s: Seq<u8>, i: int) {
    if i < s.len() {
        lemma_line_end_bounds(s, i);
    }
}

/// The full record list of a source text.
pub open spec fn spec_records(s: Seq<u8>) -> Seq<NgramData> {
    spec_records_from(s, 0)
}

/// Whether every token of the line `s[ls .. le]` fits the compact span form.
pub open spec fn spec_line_encodable(s: Seq<u8>, ls: int, le: int) -> bool {
    forall|k: int| 0 <= k < spec_tokens(s, ls, le).len()
        ==> (#[trigger] spec_tokens(s, ls, le)[k]).0 <= MAX_START
            && spec_tokens(s, ls, le)[k].1 <= MAX_TOKEN_LEN
}

/// Whether every token of every line of `s` at or after `i` fits the
/// compact span form.
pub open spec fn spec_encodable_from(s: Seq<u8>, i: int) -> bool
    decreases s.len() - i + 1,
    via spec_encodable_from_decreases
{
    if i >= s.len() {
        true
    } else {
        spec_line_encodable(s, i, line_end(s, i)) && spec_encodable_from(s, line_end(s, i) + 1)
    }
}

#[via_fn]
proof fn spec_encodable_from_decreases(s: Seq<u8>, i: int) {
    if i < s.len() {
        lemma_line_end_bounds(s, i);
    }
}

/// Whether every token of a source text fits the compact span form.
pub open spec fn spec_encodable(s: Seq<u8>) -> bool {
    spec_encodable_from(s, 0)
}

/// One source's model: its label, its owned text buffer, and the n-gram
/// records extracted from the text, in construction order.
#[derive(Debug)]
pub struct BookNgram {
    pub book: Vec<u8>,
    pub content: Vec<u8>,
    pub data: Vec<NgramData>,
}

impl BookNgram {
    /// Every record's spans stay inside the owned buffer.
    pub open spec fn wf(self) -> bool {
        forall|k: int| 0 <= k < self.data@.len() ==> ngram_wf(#[trigger] self.data@[k], self.content@)
    }

    /// Builds the model of one source.  Succeeds exactly when every token of
    /// the text fits the compact span form, and then holds precisely the
    /// records `spec_records` describes.
    pub fn new(content: &[u8], book: &[u8]) -> (r: Result<BookNgram, EncodingOverflow>)
        ensures
            r is Ok <==> spec_encodable(content@),
            r matches Ok(b) ==> b.book@ == book@ && b.content@ == content@
                && b.data@ == spec_records(content@) && b.wf(),
    {
        let ghost s = content@;
        let mut data: Vec<NgramData> = Vec::new();
        let mut i: usize = 0;
        while i < content.len()
            invariant
                i <= content@.len(),
                s == content@,
                spec_encodable(s) <==> spec_encodable_from(s, i as int),
                spec_records(s) == data@ + spec_records_from(s, i as int),
                forall|k: int| 0 <= k < data@.len() ==> ngram_wf(#[trigger] data@[k], s),
            decreases content@.len() - i,
        {
            let le = find_line_end(content, i);
            let toks = scan_tokens(content, i, le);
            let ghost gt = spec_tokens(s, i as int, le as int);
            proof {
                lemma_tokens_in_range(s, i as int, le as int);
            }

            // Reject the source if any token of this line cannot be packed.
            let mut k: usize = 0;
            while k < toks.len()
                invariant
                    k <= toks@.len(),
                    pairs_view(toks@) == gt,
                    gt == spec_tokens(s, i as int, le as int),
                    s == content@,
                    i < content@.len(),
                    i <= le <= content@.len(),
                    le == line_end(s, i as int),
                    spec_encodable(s) <==> spec_encodable_from(s, i as int),
                    forall|m: int| 0 <= m < k ==> (#[trigger] gt[m]).0 <= MAX_START
                        && gt[m].1 <= MAX_TOKEN_LEN,
                decreases toks@.len() - k,
            {
                let (st, ln) = toks[k];
                if st > MAX_START || ln > MAX_TOKEN_LEN {
                    proof {
                        assert(gt[k as int] == (st as int, ln as int));
                        assert(!spec_line_encodable(s, i as int, le as int));
                        assert(spec_encodable_from(s, i as int) == (
                            spec_line_encodable(s, i as int, line_end(s, i as int))
                                && spec_encodable_from(s, line_end(s, i as int) + 1)
                        ));
                        assert(!spec_encodable_from(s, i as int));
                    }
                    return Err(EncodingOverflow);
                }
                k = k + 1;
            }
            proof {
                assert(spec_line_encodable(s, i as int, le as int));
            }

            // Emit this line's records: one window per position 0 ..= toks.len().
            let ghost line_recs = spec_line_records(gt);
            let ghost data_before = data@;
            if toks.len() > 0 {
                let mut w: usize = 0;
                while w < toks.len() + 1
                    invariant
                        w <= toks@.len() + 1,
                        toks@.len() >= 1,
                        toks@.len() < usize::MAX - 3,
                        pairs_view(toks@) == gt,
                        gt == spec_tokens(s, i as int, le as int),
                        i <= le <= content@.len(),
                        le == line_end(s, i as int),
                        s == content@,
                        spec_line_encodable(s, i as int, le as int),
                        line_recs == spec_line_records(gt),
                        data@ == data_before + line_recs.take(w as int),
                        forall|k: int| 0 <= k < data@.len() ==> ngram_wf(#[trigger] data@[k], s),
                    decreases toks@.len() + 1 - w,
                {
                    let nd = NgramData {
                        pp_prev: tok_offset_at(&toks, w, Ghost(s), Ghost(i as int), Ghost(le as int)),
                        p_prev: tok_offset_at(&toks, w + 1, Ghost(s), Ghost(i as int), Ghost(le as int)),
                        prev: tok_offset_at(&toks, w + 2, Ghost(s), Ghost(i as int), Ghost(le as int)),
                        current: tok_offset_at(&toks, w + 3, Ghost(s), Ghost(i as int), Ghost(le as int)),
                    };
                    data.push(nd);
                    proof {
                        assert(nd == line_recs[w as int]);
                        assert(line_recs.take(w as int + 1)
                            =~= line_recs.take(w as int).push(nd));
                        assert(data@ =~= data_before + line_recs.take(w as int + 1));
                    }
                    w = w + 1;
                }
                proof {
                    assert(line_recs.take(toks@.len() as int + 1) =~= line_recs);
                }
            }
            proof {
                assert(data@ =~= data_before + line_recs);
                assert(spec_records_from(s, i as int)
                    == line_recs + spec_records_from(s, le as int + 1));
                assert(spec_records(s) =~= data@ + spec_records_from(s, le as int + 1));
            }

            if le < content.len() {
                i = le + 1;
            } else {
                i = le;
                proof {
                    assert(spec_records_from(s, le as int) =~= Seq::<NgramData>::empty());
                    assert(spec_records_from(s, le as int + 1) =~= Seq::<NgramData>::empty());
                    assert(spec_encodable_from(s, le as int));
                    assert(spec_encodable_from(s, le as int + 1));
                }
            }
        }
        proof {
            assert(spec_records_from(s, i as int) =~= Seq::<NgramData>::empty());
            assert(spec_records(s) =~= data@);
            assert(spec_encodable_from(s, i as int));
        }
        Ok(BookNgram { book: vstd::slice::slice_to_vec(book), content: vstd::slice::slice_to_vec(content), data })
    }
}

/// The padded-window span at slot `j` for a line whose token ranges are
/// `toks`, packed; slots outside the token range are sentinels.
fn tok_offset_at(
    toks: &Vec<(usize, usize)>,
    j: usize,
    Ghost(s): Ghost<Seq<u8>>,
    Ghost(ls): Ghost<int>,
    Ghost(le): Ghost<int>,
) -> (r: Offset)
    requires
        pairs_view(toks@) == spec_tokens(s, ls, le),
        spec_line_encodable(s, ls, le),
        ls <= le,
        toks@.len() < usize::MAX - 3,
    ensures
        r == spec_tok_offset(pairs_view(toks@), j as int),
        span_wf_upto(r, le),
{
    let ghost gt = pairs_view(toks@);
    if 3 <= j && j < toks.len() + 3 {
        let (st, ln) = toks[j - 3];
        proof {
            assert(gt[j as int - 3] == (st as int, ln as int));
            lemma_tokens_in_range(s, ls, le);
            assert(st + ln <= le);
        }
        Offset::pack(st, ln)
    } else {
        proof {
            assert(Offset(0).spec_len() == 0);
        }
        Offset(0)
    }
}

/// Whether a span's referenced range ends at or before position `le`.
pub open spec fn span_wf_upto(o: Offset, le: int) -> bool {
    o.spec_len() > 0 ==> o.spec_start() + o.spec_len() <= le
}

/// Every position that starts a line, being zero or standing right after a
/// line feed, is one of the line starts that `spec_encodable_from` walks
/// from the front of the text, so a bad line anywhere spoils the whole.
proof fn lemma_unencodable_reaches(s: Seq<u8>, i: int, p: int)
    requires
        0 <= i <= p <= s.len(),
        p == 0 || s[p - 1] == 10,
        !spec_line_encodable(s, p, line_end(s, p)),
    ensures
        !spec_encodable_from(s, i),
    decreases p - i,
{
    lemma_line_end_bounds(s, i);
    let le = line_end(s, i);
    if i == p {
        assert(spec_encodable_from(s, i) == (spec_line_encodable(s, i, le)
            && spec_encodable_from(s, le + 1)));
    } else {
        // The line feed just before `p` lies at or past this line's end, so
        // the next visited line start is still at or before `p`.
        assert(s[p - 1] == 10);
        assert(le <= p - 1);
        lemma_unencodable_reaches(s, le + 1, p);
        assert(spec_encodable_from(s, i) == (spec_line_encodable(s, i, le)
            && spec_encodable_from(s, le + 1)));
    }
}

/// Overflow law: a text holding, in any of its lines, a token longer than
/// the packable maximum or starting past the packable range is not
/// encodable, so by their contracts `BookNgram::new` and
/// `BookNgrams::from_books` fail with `EncodingOverflow` on such a text;
/// nothing is truncated or skipped silently.
pub proof fn lemma_oversized_token_unencodable(s: Seq<u8>, p: int, k: int)
    requires
        0 <= p <= s.len(),
        p == 0 || s[p - 1] == 10,
        0 <= k < spec_tokens(s, p, line_end(s, p)).len(),
        spec_tokens(s, p, line_end(s, p))[k].1 > MAX_TOKEN_LEN
            || spec_tokens(s, p, line_end(s, p))[k].0 > MAX_START,
    ensures
        !spec_encodable(s),
{
    assert(!spec_line_encodable(s, p, line_end(s, p)));
    lemma_unencodable_reaches(s, 0, p);
}

} // verus!
