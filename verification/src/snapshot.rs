//! The compiled snapshot: a self-contained binary form of a built corpus
//! model, written and read back without any outside help.
//!
//! Layout, all integers little-endian: the number of sources as a `u64`,
//! then for each source its label length (`u64`) and label bytes, its text
//! length (`u64`) and text bytes, its record count (`u64`) and its records,
//! each record being four packed spans of four bytes.  A blob parses only
//! if it follows this layout exactly, ends where the data ends, and every
//! record's spans stay inside the text they were written with; anything
//! else is a distinct deserialization error, never an empty model.

use vstd::prelude::*;

use vstd::bytes::{
    spec_u32_from_le_bytes, spec_u32_to_le_bytes, spec_u64_from_le_bytes, spec_u64_to_le_bytes,
    u32_from_le_bytes, u32_to_le_bytes, u64_from_le_bytes, u64_to_le_bytes,
};

use crate::bytes_util::push_bytes;
use crate::corpus::{books_equivalent, lemma_walk_deterministic, spec_walk, BookNgrams};
use crate::ngram::{ngram_wf, BookNgram, NgramData};
use crate::span::Offset;

verus! {

/// The view of one source as the snapshot carries it: label, text, records.
pub type BookView = (Seq<u8>, Seq<u8>, Seq<NgramData>);

/// The snapshot views of a corpus's sources.
pub open spec fn corpus_view(books: Seq<BookNgram>) -> Seq<BookView> {
    Seq::new(books.len(), |k: int| (books[k].book@, books[k].content@, books[k].data@))
}

/// The sixteen bytes of one record.
pub open spec fn spec_ser_record(d: NgramData) -> Seq<u8> {
    spec_u32_to_le_bytes(d.pp_prev.0) + spec_u32_to_le_bytes(d.p_prev.0)
        + spec_u32_to_le_bytes(d.prev.0) + spec_u32_to_le_bytes(d.current.0)
}

/// The bytes of a record list, in order.
pub open spec fn spec_ser_records(data: Seq<NgramData>) -> Seq<u8>
    decreases data.len(),
{
    if data.len() == 0 {
        Seq::empty()
    } else {
        spec_ser_record(data.first()) + spec_ser_records(data.drop_first())
    }
}

/// The bytes of one source.
pub open spec fn spec_ser_book(b: BookView) -> Seq<u8> {
    spec_u64_to_le_bytes(b.0.len() as u64) + b.0 + spec_u64_to_le_bytes(b.1.len() as u64) + b.1
        + spec_u64_to_le_bytes(b.2.len() as u64) + spec_ser_records(b.2)
}

/// The bytes of a source list, in order.
pub open spec fn spec_ser_books(books: Seq<BookView>) -> Seq<u8>
    decreases books.len(),
{
    if books.len() == 0 {
        Seq::empty()
    } else {
        spec_ser_book(books.first()) + spec_ser_books(books.drop_first())
    }
}

/// The whole snapshot of a corpus.
pub open spec fn spec_serialize(books: Seq<BookView>) -> Seq<u8> {
    spec_u64_to_le_bytes(books.len() as u64) + spec_ser_books(books)
}

/// Reads a `u64` at `pos`, if eight bytes are there.
pub open spec fn spec_parse_u64(b: Seq<u8>, pos: int) -> Option<(u64, int)> {
    if 0 <= pos && pos + 8 <= b.len() {
        Some((spec_u64_from_le_bytes(b.subrange(pos, pos + 8)), pos + 8))
    } else {
        None
    }
}

/// Reads `n` raw bytes at `pos`, if they are there.
pub open spec fn spec_parse_bytes(b: Seq<u8>, pos: int, n: int) -> Option<(Seq<u8>, int)> {
    if 0 <= pos && 0 <= n && pos + n <= b.len() {
        Some((b.subrange(pos, pos + n), pos + n))
    } else {
        None
    }
}

/// Reads one record at `pos`, if sixteen bytes are there.
pub open spec fn spec_parse_record(b: Seq<u8>, pos: int) -> Option<(NgramData, int)> {
    if 0 <= pos && pos + 16 <= b.len() {
        Some(
            (
                NgramData {
                    pp_prev: Offset(spec_u32_from_le_bytes(b.subrange(pos, pos + 4))),
                    p_prev: Offset(spec_u32_from_le_bytes(b.subrange(pos + 4, pos + 8))),
                    prev: Offset(spec_u32_from_le_bytes(b.subrange(pos + 8, pos + 12))),
                    current: Offset(spec_u32_from_le_bytes(b.subrange(pos + 12, pos + 16))),
                },
                pos + 16,
            ),
        )
    } else {
        None
    }
}

/// Reads `n` records at `pos`.
pub open spec fn spec_parse_records(b: Seq<u8>, pos: int, n: nat) -> Option<(Seq<NgramData>, int)>
    decreases n,
{
    if n == 0 {
        Some((Seq::empty(), pos))
    } else {
        match spec_parse_record(b, pos) {
            None => None,
            Some((d, p1)) => match spec_parse_records(b, p1, (n - 1) as nat) {
                None => None,
                Some((ds, p2)) => Some((seq![d] + ds, p2)),
            },
        }
    }
}

/// Reads one source at `pos`: label, text and records; refuses a source
/// whose records reach outside its text.
pub open spec fn spec_parse_book(b: Seq<u8>, pos: int) -> Option<(BookView, int)> {
    match spec_parse_u64(b, pos) {
        None => None,
        Some((lab_len, p1)) => match spec_parse_bytes(b, p1, lab_len as int) {
            None => None,
            Some((label, p2)) => match spec_parse_u64(b, p2) {
                None => None,
                Some((text_len, p3)) => match spec_parse_bytes(b, p3, text_len as int) {
                    None => None,
                    Some((text, p4)) => match spec_parse_u64(b, p4) {
                        None => None,
                        Some((n_recs, p5)) => match spec_parse_records(b, p5, n_recs as nat) {
                            None => None,
                            Some((recs, p6)) => {
                                if forall|k: int|
                                    0 <= k < recs.len() ==> ngram_wf(#[trigger] recs[k], text) {
                                    Some(((label, text, recs), p6))
                                } else {
                                    None
                                }
                            },
                        },
                    },
                },
            },
        },
    }
}

/// Reads `n` sources at `pos`.
pub open spec fn spec_parse_books(b: Seq<u8>, pos: int, n: nat) -> Option<(Seq<BookView>, int)>
    decreases n,
{
    if n == 0 {
        Some((Seq::empty(), pos))
    } else {
        match spec_parse_book(b, pos) {
            None => None,
            Some((bv, p1)) => match spec_parse_books(b, p1, (n - 1) as nat) {
                None => None,
                Some((bvs, p2)) => Some((seq![bv] + bvs, p2)),
            },
        }
    }
}

/// Reads a whole snapshot: the source count, that many sources, and
/// nothing after them.
pub open spec fn spec_parse(b: Seq<u8>) -> Option<Seq<BookView>> {
    match spec_parse_u64(b, 0) {
        None => None,
        Some((n, p1)) => match spec_parse_books(b, p1, n as nat) {
            None => None,
            Some((bvs, p2)) => if p2 == b.len() {
                Some(bvs)
            } else {
                None
            },
        },
    }
}

/// Error value for a snapshot blob that does not parse back into a model.
#[derive(Clone, Copy, Debug, PartialEq, Eq, Structural)]
pub struct SnapshotError;

/// Whether all four spans of a record stay inside a buffer of `n` bytes.
pub open spec fn ngram_fits(d: NgramData, n: int) -> bool {
    &&& (d.pp_prev.spec_len() > 0 ==> d.pp_prev.spec_start() + d.pp_prev.spec_len() <= n)
    &&& (d.p_prev.spec_len() > 0 ==> d.p_prev.spec_start() + d.p_prev.spec_len() <= n)
    &&& (d.prev.spec_len() > 0 ==> d.prev.spec_start() + d.prev.spec_len() <= n)
    &&& (d.current.spec_len() > 0 ==> d.current.spec_start() + d.current.spec_len() <= n)
}

/// Appends the sixteen bytes of one record.
fn ser_record_into(dst: &mut Vec<u8>, d: &NgramData)
    ensures
        final(dst)@ == old(dst)@ + spec_ser_record(*d),
{
    let b0 = u32_to_le_bytes(d.pp_prev.0);
    push_bytes(dst, b0.as_slice());
    let b1 = u32_to_le_bytes(d.p_prev.0);
    push_bytes(dst, b1.as_slice());
    let b2 = u32_to_le_bytes(d.prev.0);
    push_bytes(dst, b2.as_slice());
    let b3 = u32_to_le_bytes(d.current.0);
    push_bytes(dst, b3.as_slice());
    proof {
        assert(dst@ =~= old(dst)@ + spec_ser_record(*d));
    }
}

/// Appends the bytes of a whole record list.
fn ser_records_into(dst: &mut Vec<u8>, data: &Vec<NgramData>)
    ensures
        final(dst)@ == old(dst)@ + spec_ser_records(data@),
{
    let mut k: usize = 0;
    proof {
        assert(data@.skip(0) =~= data@);
    }
    while k < data.len()
        invariant
            k <= data@.len(),
            old(dst)@ + spec_ser_records(data@) == dst@ + spec_ser_records(data@.skip(k as int)),
        decreases data@.len() - k,
    {
        ser_record_into(dst, &data[k]);
        proof {
            let rest = data@.skip(k as int);
            assert(rest.first() == data@[k as int]);
            assert(rest.drop_first() =~= data@.skip(k as int + 1));
            assert(spec_ser_records(rest)
                == spec_ser_record(data@[k as int]) + spec_ser_records(data@.skip(k as int + 1)));
            assert(old(dst)@ + spec_ser_records(data@)
                =~= dst@ + spec_ser_records(data@.skip(k as int + 1)));
        }
        k = k + 1;
    }
    proof {
        assert(data@.skip(data@.len() as int) =~= Seq::<NgramData>::empty());
        assert(spec_ser_records(Seq::<NgramData>::empty()) == Seq::<u8>::empty());
        assert(dst@ =~= old(dst)@ + spec_ser_records(data@));
    }
}

/// Appends the bytes of one source.
fn ser_book_into(dst: &mut Vec<u8>, b: &BookNgram)
    ensures
        final(dst)@ == old(dst)@ + spec_ser_book((b.book@, b.content@, b.data@)),
{
    let lab = u64_to_le_bytes(b.book.len() as u64);
    push_bytes(dst, lab.as_slice());
    push_bytes(dst, b.book.as_slice());
    let txt = u64_to_le_bytes(b.content.len() as u64);
    push_bytes(dst, txt.as_slice());
    push_bytes(dst, b.content.as_slice());
    let cnt = u64_to_le_bytes(b.data.len() as u64);
    push_bytes(dst, cnt.as_slice());
    ser_records_into(dst, &b.data);
    proof {
        assert(dst@ =~= old(dst)@ + spec_ser_book((b.book@, b.content@, b.data@)));
    }
}

impl BookNgrams {
    /// Writes the model into one self-contained binary blob.
    pub fn serialize(&self) -> (r: Vec<u8>)
        ensures
            r@ == spec_serialize(corpus_view(self.0@)),
    {
        let ghost views = corpus_view(self.0@);
        let mut r: Vec<u8> = u64_to_le_bytes(self.0.len() as u64);
        let mut k: usize = 0;
        proof {
            assert(views.skip(0) =~= views);
        }
        while k < self.0.len()
            invariant
                k <= self.0@.len(),
                views == corpus_view(self.0@),
                spec_u64_to_le_bytes(self.0@.len() as u64) + spec_ser_books(views) == r@
                    + spec_ser_books(views.skip(k as int)),
            decreases self.0@.len() - k,
        {
            ser_book_into(&mut r, &self.0[k]);
            proof {
                let rest = views.skip(k as int);
                assert(rest.first() == views[k as int]);
                assert(rest.drop_first() =~= views.skip(k as int + 1));
                assert(spec_ser_books(rest)
                    == spec_ser_book(views[k as int]) + spec_ser_books(views.skip(k as int + 1)));
                assert(spec_u64_to_le_bytes(self.0@.len() as u64) + spec_ser_books(views)
                    =~= r@ + spec_ser_books(views.skip(k as int + 1)));
            }
            k = k + 1;
        }
        proof {
            assert(views.skip(views.len() as int) =~= Seq::<BookView>::empty());
            assert(spec_ser_books(Seq::<BookView>::empty()) == Seq::<u8>::empty());
            assert(r@ =~= spec_u64_to_le_bytes(self.0@.len() as u64) + spec_ser_books(views));
        }
        r
    }

    /// Reads a model back from a snapshot blob.  Succeeds exactly when the
    /// blob parses under the snapshot layout, and then reconstructs every
    /// source with its label, text and records as they were written.
    pub fn deserialize(bytes: &[u8]) -> (r: Result<BookNgrams, SnapshotError>)
        ensures
            r is Ok <==> spec_parse(bytes@) is Some,
            r matches Ok(m) ==> m.wf() && spec_parse(bytes@) == Some(corpus_view(m.0@)),
    {
        let (count, p1) = match read_u64(bytes, 0) {
            Some(t) => t,
            None => {
                return Err(SnapshotError);
            },
        };
        let (v, pos) = match read_books(bytes, p1, count) {
            Ok(t) => t,
            Err(e) => {
                return Err(e);
            },
        };
        if pos != bytes.len() {
            return Err(SnapshotError);
        }
        Ok(BookNgrams(v))
    }
}

/// Reads a `u64` at `pos`, exactly as `spec_parse_u64` does.
fn read_u64(bytes: &[u8], pos: usize) -> (r: Option<(u64, usize)>)
    ensures
        r is None <==> spec_parse_u64(bytes@, pos as int) is None,
        r matches Some(t) ==> spec_parse_u64(bytes@, pos as int) == Some((t.0, t.1 as int))
            && t.1 <= bytes@.len(),
{
    if bytes.len() >= 8 && pos <= bytes.len() - 8 {
        let v = u64_from_le_bytes(vstd::slice::slice_subrange(bytes, pos, pos + 8));
        Some((v, pos + 8))
    } else {
        None
    }
}

/// Reads one record at `pos`, exactly as `spec_parse_record` does.
fn read_record(bytes: &[u8], pos: usize) -> (r: Option<(NgramData, usize)>)
    ensures
        r is None <==> spec_parse_record(bytes@, pos as int) is None,
        r matches Some(t) ==> spec_parse_record(bytes@, pos as int) == Some((t.0, t.1 as int))
            && t.1 <= bytes@.len(),
{
    if bytes.len() >= 16 && pos <= bytes.len() - 16 {
        let d = NgramData {
            pp_prev: Offset(u32_from_le_bytes(vstd::slice::slice_subrange(bytes, pos, pos + 4))),
            p_prev: Offset(
                u32_from_le_bytes(vstd::slice::slice_subrange(bytes, pos + 4, pos + 8)),
            ),
            prev: Offset(
                u32_from_le_bytes(vstd::slice::slice_subrange(bytes, pos + 8, pos + 12)),
            ),
            current: Offset(
                u32_from_le_bytes(vstd::slice::slice_subrange(bytes, pos + 12, pos + 16)),
            ),
        };
        Some((d, pos + 16))
    } else {
        None
    }
}

/// Reads `n` records at `pos`, exactly as `spec_parse_records` does.
fn read_records(bytes: &[u8], pos: usize, n: u64) -> (r: Result<(Vec<NgramData>, usize), SnapshotError>)
    requires
        pos <= bytes@.len(),
    ensures
        r is Err <==> spec_parse_records(bytes@, pos as int, n as nat) is None,
        r matches Ok(t) ==> spec_parse_records(bytes@, pos as int, n as nat) == Some(
            (t.0@, t.1 as int),
        ) && t.1 <= bytes@.len(),
{
    let mut data: Vec<NgramData> = Vec::new();
    let mut rpos: usize = pos;
    let mut rem: u64 = n;
    while rem > 0
        invariant
            rpos <= bytes@.len(),
            spec_parse_records(bytes@, pos as int, n as nat) == (match spec_parse_records(
                bytes@,
                rpos as int,
                rem as nat,
            ) {
                None => None::<(Seq<NgramData>, int)>,
                Some((ds, p)) => Some((data@ + ds, p)),
            }),
        decreases rem,
    {
        let (d, rp) = match read_record(bytes, rpos) {
            Some(t) => t,
            None => {
                proof {
                    assert(spec_parse_records(bytes@, rpos as int, rem as nat) is None);
                }
                return Err(SnapshotError);
            },
        };
        data.push(d);
        proof {
            let rest = spec_parse_records(bytes@, rp as int, (rem - 1) as nat);
            assert(data@.drop_last().push(d) =~= data@);
            if rest is Some {
                let (ds, p) = rest->Some_0;
                assert(data@.drop_last() + (seq![d] + ds) =~= data@ + ds);
            }
        }
        rpos = rp;
        rem = rem - 1;
    }
    proof {
        assert(spec_parse_records(bytes@, rpos as int, 0nat) == Some(
            (Seq::<NgramData>::empty(), rpos as int),
        ));
        assert(data@ + Seq::<NgramData>::empty() =~= data@);
    }
    Ok((data, rpos))
}

/// Whether every record of the list stays inside a buffer of `n` bytes.
fn records_fit(data: &Vec<NgramData>, n: usize) -> (r: bool)
    ensures
        r == forall|k: int| 0 <= k < data@.len() ==> ngram_fits(#[trigger] data@[k], n as int),
{
    let mut k: usize = 0;
    while k < data.len()
        invariant
            k <= data@.len(),
            forall|m: int| 0 <= m < k ==> ngram_fits(#[trigger] data@[m], n as int),
        decreases data@.len() - k,
    {
        let d = data[k];
        let ok = span_fits(d.pp_prev, n) && span_fits(d.p_prev, n) && span_fits(d.prev, n)
            && span_fits(d.current, n);
        if !ok {
            proof {
                assert(!ngram_fits(data@[k as int], n as int));
            }
            return false;
        }
        k = k + 1;
    }
    true
}

/// Whether a span's referenced range ends within the first `n` bytes.
fn span_fits(o: Offset, n: usize) -> (r: bool)
    ensures
        r == (o.spec_len() > 0 ==> o.spec_start() + o.spec_len() <= n),
{
    o.len() == 0 || o.ptr() + o.len() <= n
}

/// Reads one source at `pos`, exactly as `spec_parse_book` does, and hands
/// back a well-formed source model.
fn read_book(bytes: &[u8], pos: usize) -> (r: Result<(BookNgram, usize), SnapshotError>)
    ensures
        r is Err <==> spec_parse_book(bytes@, pos as int) is None,
        r matches Ok(t) ==> spec_parse_book(bytes@, pos as int) == Some(
            ((t.0.book@, t.0.content@, t.0.data@), t.1 as int),
        ) && t.0.wf() && t.1 <= bytes@.len(),
{
    let (lab_len, p1) = match read_u64(bytes, pos) {
        Some(t) => t,
        None => {
            return Err(SnapshotError);
        },
    };
    if lab_len > (bytes.len() - p1) as u64 {
        return Err(SnapshotError);
    }
    let lab_n = lab_len as usize;
    let book = vstd::slice::slice_to_vec(vstd::slice::slice_subrange(bytes, p1, p1 + lab_n));
    let p2 = p1 + lab_n;
    let (text_len, p3) = match read_u64(bytes, p2) {
        Some(t) => t,
        None => {
            return Err(SnapshotError);
        },
    };
    if text_len > (bytes.len() - p3) as u64 {
        return Err(SnapshotError);
    }
    let text_n = text_len as usize;
    let content = vstd::slice::slice_to_vec(vstd::slice::slice_subrange(bytes, p3, p3 + text_n));
    let p4 = p3 + text_n;
    let (n_recs, p5) = match read_u64(bytes, p4) {
        Some(t) => t,
        None => {
            return Err(SnapshotError);
        },
    };
    let (data, p6) = match read_records(bytes, p5, n_recs) {
        Ok(t) => t,
        Err(e) => {
            return Err(e);
        },
    };
    // Refuse records whose spans reach outside the text they came with.
    if !records_fit(&data, text_n) {
        proof {
            let recs = data@;
            let text = content@;
            let k = choose|k: int| 0 <= k < recs.len() && !ngram_fits(recs[k], text_n as int);
            assert(!ngram_wf(recs[k], text));
        }
        return Err(SnapshotError);
    }
    let b = BookNgram { book, content, data };
    proof {
        assert forall|k: int| 0 <= k < b.data@.len() implies ngram_wf(
            #[trigger] b.data@[k],
            b.content@,
        ) by {
            assert(ngram_fits(b.data@[k], text_n as int));
        }
    }
    Ok((b, p6))
}

/// Reads `n` sources at `pos`, exactly as `spec_parse_books` does.
fn read_books(bytes: &[u8], pos: usize, n: u64) -> (r: Result<(Vec<BookNgram>, usize), SnapshotError>)
    requires
        pos <= bytes@.len(),
    ensures
        r is Err <==> spec_parse_books(bytes@, pos as int, n as nat) is None,
        r matches Ok(t) ==> spec_parse_books(bytes@, pos as int, n as nat) == Some(
            (corpus_view(t.0@), t.1 as int),
        ) && t.1 <= bytes@.len() && (forall|m: int| 0 <= m < t.0@.len() ==> (#[trigger] t.0@[m]).wf()),
{
    let mut v: Vec<BookNgram> = Vec::new();
    let mut bpos: usize = pos;
    let mut rem: u64 = n;
    proof {
        assert(corpus_view(v@) =~= Seq::<BookView>::empty());
    }
    while rem > 0
        invariant
            bpos <= bytes@.len(),
            spec_parse_books(bytes@, pos as int, n as nat) == (match spec_parse_books(
                bytes@,
                bpos as int,
                rem as nat,
            ) {
                None => None::<(Seq<BookView>, int)>,
                Some((bvs, p)) => Some((corpus_view(v@) + bvs, p)),
            }),
            forall|m: int| 0 <= m < v@.len() ==> (#[trigger] v@[m]).wf(),
        decreases rem,
    {
        let (b, bp) = match read_book(bytes, bpos) {
            Ok(t) => t,
            Err(e) => {
                proof {
                    assert(spec_parse_books(bytes@, bpos as int, rem as nat) is None);
                }
                return Err(e);
            },
        };
        v.push(b);
        proof {
            let rest = spec_parse_books(bytes@, bp as int, (rem - 1) as nat);
            let bv = (v@.last().book@, v@.last().content@, v@.last().data@);
            assert(corpus_view(v@) =~= corpus_view(v@.drop_last()).push(bv));
            if rest is Some {
                let (bvs, p) = rest->Some_0;
                assert(corpus_view(v@.drop_last()) + (seq![bv] + bvs) =~= corpus_view(v@) + bvs);
            }
        }
        bpos = bp;
        rem = rem - 1;
    }
    proof {
        assert(spec_parse_books(bytes@, bpos as int, 0nat) == Some(
            (Seq::<BookView>::empty(), bpos as int),
        ));
        assert(corpus_view(v@) + Seq::<BookView>::empty() =~= corpus_view(v@));
    }
    Ok((v, bpos))
}

/// One record's bytes are sixteen.
proof fn lemma_ser_record_len(d: NgramData)
    ensures
        spec_ser_record(d).len() == 16,
{
    vstd::bytes::lemma_auto_spec_u32_to_from_le_bytes();
}

/// A record list's bytes are sixteen per record.
proof fn lemma_ser_records_len(data: Seq<NgramData>)
    ensures
        spec_ser_records(data).len() == 16 * data.len(),
    decreases data.len(),
{
    if data.len() > 0 {
        lemma_ser_record_len(data.first());
        lemma_ser_records_len(data.drop_first());
    }
}

/// A piece of a buffer region equals the matching piece of what the region
/// holds.
proof fn lemma_chunk(b: Seq<u8>, pos: int, whole: Seq<u8>, off: int, chunk: Seq<u8>)
    requires
        0 <= pos,
        pos + whole.len() <= b.len(),
        b.subrange(pos, pos + whole.len() as int) == whole,
        0 <= off,
        off + chunk.len() <= whole.len(),
        forall|i: int| 0 <= i < chunk.len() ==> whole[off + i] == #[trigger] chunk[i],
    ensures
        b.subrange(pos + off, pos + off + chunk.len() as int) == chunk,
{
    assert forall|i: int| 0 <= i < chunk.len()
        implies b.subrange(pos + off, pos + off + chunk.len() as int)[i] == chunk[i] by {
        assert(b.subrange(pos, pos + whole.len() as int)[off + i] == b[pos + off + i]);
        assert(whole[off + i] == chunk[i]);
    }
    assert(b.subrange(pos + off, pos + off + chunk.len() as int) =~= chunk);
}

/// Parsing a buffer region that holds a record list's bytes yields exactly
/// that record list.
proof fn lemma_parse_records_of_ser(b: Seq<u8>, pos: int, data: Seq<NgramData>)
    requires
        0 <= pos,
        pos + 16 * data.len() <= b.len(),
        b.subrange(pos, pos + 16 * data.len()) == spec_ser_records(data),
    ensures
        spec_parse_records(b, pos, data.len()) == Some((data, pos + 16 * data.len())),
    decreases data.len(),
{
    vstd::bytes::lemma_auto_spec_u32_to_from_le_bytes();
    if data.len() == 0 {
        assert(spec_parse_records(b, pos, 0) == Some((Seq::<NgramData>::empty(), pos)));
        assert(data =~= Seq::<NgramData>::empty());
    } else {
        let d = data.first();
        let rest = data.drop_first();
        let enc = spec_ser_records(data);
        lemma_ser_record_len(d);
        lemma_ser_records_len(rest);
        lemma_ser_records_len(data);
        assert(enc == spec_ser_record(d) + spec_ser_records(rest));
        let r0 = spec_u32_to_le_bytes(d.pp_prev.0);
        let r1 = spec_u32_to_le_bytes(d.p_prev.0);
        let r2 = spec_u32_to_le_bytes(d.prev.0);
        let r3 = spec_u32_to_le_bytes(d.current.0);
        assert(spec_ser_record(d) == ((r0 + r1) + r2) + r3);
        assert forall|i: int| 0 <= i < 4 implies enc[0 + i] == #[trigger] r0[i] by {
            assert(enc[i] == (spec_ser_record(d) + spec_ser_records(rest))[i]);
            assert(spec_ser_record(d)[i] == (((r0 + r1) + r2) + r3)[i]);
            assert(((r0 + r1) + r2)[i] == (r0 + r1)[i]);
        }
        lemma_chunk(b, pos, enc, 0, r0);
        assert forall|i: int| 0 <= i < 4 implies enc[4 + i] == #[trigger] r1[i] by {
            assert(enc[4 + i] == (spec_ser_record(d) + spec_ser_records(rest))[4 + i]);
            assert(spec_ser_record(d)[4 + i] == (((r0 + r1) + r2) + r3)[4 + i]);
            assert(((r0 + r1) + r2)[4 + i] == (r0 + r1)[4 + i]);
        }
        lemma_chunk(b, pos, enc, 4, r1);
        assert forall|i: int| 0 <= i < 4 implies enc[8 + i] == #[trigger] r2[i] by {
            assert(enc[8 + i] == (spec_ser_record(d) + spec_ser_records(rest))[8 + i]);
            assert(spec_ser_record(d)[8 + i] == (((r0 + r1) + r2) + r3)[8 + i]);
            assert(((r0 + r1) + r2)[8 + i] == r2[i]);
        }
        lemma_chunk(b, pos, enc, 8, r2);
        assert forall|i: int| 0 <= i < 4 implies enc[12 + i] == #[trigger] r3[i] by {
            assert(enc[12 + i] == (spec_ser_record(d) + spec_ser_records(rest))[12 + i]);
            assert(spec_ser_record(d)[12 + i] == (((r0 + r1) + r2) + r3)[12 + i]);
        }
        lemma_chunk(b, pos, enc, 12, r3);
        assert(spec_parse_record(b, pos) == Some((d, pos + 16)));
        assert forall|i: int| 0 <= i < 16 * rest.len()
            implies enc[16 + i] == #[trigger] spec_ser_records(rest)[i] by {
            assert(enc[16 + i] == (spec_ser_record(d) + spec_ser_records(rest))[16 + i]);
        }
        lemma_chunk(b, pos, enc, 16, spec_ser_records(rest));
        lemma_parse_records_of_ser(b, pos + 16, rest);
        assert(seq![d] + rest =~= data);
    }
}

/// Parsing a buffer region that holds one source's bytes yields exactly
/// that source, provided its records stay inside its text.
proof fn lemma_parse_book_of_ser(b: Seq<u8>, pos: int, bv: BookView)
    requires
        0 <= pos,
        bv.0.len() <= u64::MAX,
        bv.1.len() <= u64::MAX,
        bv.2.len() <= u64::MAX,
        pos + spec_ser_book(bv).len() <= b.len(),
        b.subrange(pos, pos + spec_ser_book(bv).len() as int) == spec_ser_book(bv),
        forall|k: int| 0 <= k < bv.2.len() ==> ngram_wf(#[trigger] bv.2[k], bv.1),
    ensures
        spec_parse_book(b, pos) == Some((bv, pos + spec_ser_book(bv).len())),
{
    vstd::bytes::lemma_auto_spec_u64_to_from_le_bytes();
    let n0 = bv.0.len() as int;
    let n1 = bv.1.len() as int;
    let n2 = bv.2.len() as int;
    lemma_ser_records_len(bv.2);
    let enc = spec_ser_book(bv);
    let h0 = spec_u64_to_le_bytes(bv.0.len() as u64);
    let h1 = spec_u64_to_le_bytes(bv.1.len() as u64);
    let h2 = spec_u64_to_le_bytes(bv.2.len() as u64);
    let recs = spec_ser_records(bv.2);
    let a2 = h0 + bv.0;
    let a3 = a2 + h1;
    let a4 = a3 + bv.1;
    let a5 = a4 + h2;
    assert(enc == a5 + recs);
    assert(enc.len() == 24 + n0 + n1 + 16 * n2);
    let p1 = pos + 8;
    let p2 = p1 + n0;
    let p3 = p2 + 8;
    let p4 = p3 + n1;
    let p5 = p4 + 8;
    let p6 = p5 + 16 * n2;
    assert forall|i: int| 0 <= i < 8 implies enc[0 + i] == #[trigger] h0[i] by {
        assert(enc[i] == (a5 + recs)[i]);
        assert(a5[i] == (a4 + h2)[i]);
        assert(a4[i] == (a3 + bv.1)[i]);
        assert(a3[i] == (a2 + h1)[i]);
        assert(a2[i] == (h0 + bv.0)[i]);
    }
    lemma_chunk(b, pos, enc, 0, h0);
    assert(spec_parse_u64(b, pos) == Some((bv.0.len() as u64, p1)));
    assert forall|i: int| 0 <= i < n0 implies enc[8 + i] == #[trigger] bv.0[i] by {
        assert(enc[8 + i] == (a5 + recs)[8 + i]);
        assert(a5[8 + i] == (a4 + h2)[8 + i]);
        assert(a4[8 + i] == (a3 + bv.1)[8 + i]);
        assert(a3[8 + i] == (a2 + h1)[8 + i]);
        assert(a2[8 + i] == (h0 + bv.0)[8 + i]);
    }
    lemma_chunk(b, pos, enc, 8, bv.0);
    assert(spec_parse_bytes(b, p1, n0) == Some((bv.0, p2)));
    assert forall|i: int| 0 <= i < 8 implies enc[8 + n0 + i] == #[trigger] h1[i] by {
        assert(enc[8 + n0 + i] == (a5 + recs)[8 + n0 + i]);
        assert(a5[8 + n0 + i] == (a4 + h2)[8 + n0 + i]);
        assert(a4[8 + n0 + i] == (a3 + bv.1)[8 + n0 + i]);
        assert(a3[8 + n0 + i] == (a2 + h1)[8 + n0 + i]);
    }
    lemma_chunk(b, pos, enc, 8 + n0, h1);
    assert(spec_parse_u64(b, p2) == Some((bv.1.len() as u64, p3)));
    assert forall|i: int| 0 <= i < n1 implies enc[16 + n0 + i] == #[trigger] bv.1[i] by {
        assert(enc[16 + n0 + i] == (a5 + recs)[16 + n0 + i]);
        assert(a5[16 + n0 + i] == (a4 + h2)[16 + n0 + i]);
        assert(a4[16 + n0 + i] == (a3 + bv.1)[16 + n0 + i]);
    }
    lemma_chunk(b, pos, enc, 16 + n0, bv.1);
    assert(spec_parse_bytes(b, p3, n1) == Some((bv.1, p4)));
    assert forall|i: int| 0 <= i < 8 implies enc[16 + n0 + n1 + i] == #[trigger] h2[i] by {
        assert(enc[16 + n0 + n1 + i] == (a5 + recs)[16 + n0 + n1 + i]);
        assert(a5[16 + n0 + n1 + i] == (a4 + h2)[16 + n0 + n1 + i]);
    }
    lemma_chunk(b, pos, enc, 16 + n0 + n1, h2);
    assert(spec_parse_u64(b, p4) == Some((bv.2.len() as u64, p5)));
    assert forall|i: int| 0 <= i < 16 * n2 implies enc[24 + n0 + n1 + i] == #[trigger] recs[i] by {
        assert(enc[24 + n0 + n1 + i] == (a5 + recs)[24 + n0 + n1 + i]);
    }
    lemma_chunk(b, pos, enc, 24 + n0 + n1, recs);
    lemma_parse_records_of_ser(b, p5, bv.2);
}

/// Parsing a buffer region that holds a source list's bytes yields exactly
/// that source list.
proof fn lemma_parse_books_of_ser(b: Seq<u8>, pos: int, views: Seq<BookView>)
    requires
        0 <= pos,
        pos + spec_ser_books(views).len() <= b.len(),
        b.subrange(pos, pos + spec_ser_books(views).len() as int) == spec_ser_books(views),
        forall|j: int| 0 <= j < views.len() ==> (#[trigger] views[j]).0.len() <= u64::MAX
            && views[j].1.len() <= u64::MAX && views[j].2.len() <= u64::MAX,
        forall|j: int, k: int| 0 <= j < views.len() && 0 <= k < views[j].2.len() ==> ngram_wf(
            #[trigger] views[j].2[k],
            views[j].1,
        ),
    ensures
        spec_parse_books(b, pos, views.len()) == Some(
            (views, pos + spec_ser_books(views).len()),
        ),
    decreases views.len(),
{
    if views.len() == 0 {
        assert(views =~= Seq::<BookView>::empty());
    } else {
        let bv = views.first();
        let rest = views.drop_first();
        let enc = spec_ser_books(views);
        assert(enc == spec_ser_book(bv) + spec_ser_books(rest));
        let m = spec_ser_book(bv).len() as int;
        assert forall|i: int| 0 <= i < m implies enc[0 + i] == #[trigger] spec_ser_book(bv)[i] by {
            assert(enc[i] == (spec_ser_book(bv) + spec_ser_books(rest))[i]);
        }
        lemma_chunk(b, pos, enc, 0, spec_ser_book(bv));
        assert(bv == views[0]);
        assert(forall|k: int| 0 <= k < bv.2.len() ==> ngram_wf(#[trigger] bv.2[k], bv.1));
        lemma_parse_book_of_ser(b, pos, bv);
        assert forall|i: int| 0 <= i < spec_ser_books(rest).len()
            implies enc[m + i] == #[trigger] spec_ser_books(rest)[i] by {
            assert(enc[m + i] == (spec_ser_book(bv) + spec_ser_books(rest))[m + i]);
        }
        lemma_chunk(b, pos, enc, m, spec_ser_books(rest));
        assert forall|j: int| 0 <= j < rest.len() implies (#[trigger] rest[j]).0.len()
            <= u64::MAX && rest[j].1.len() <= u64::MAX && rest[j].2.len() <= u64::MAX by {
            assert(rest[j] == views[j + 1]);
        }
        assert forall|j: int, k: int| 0 <= j < rest.len() && 0 <= k < rest[j].2.len()
            implies ngram_wf(#[trigger] rest[j].2[k], rest[j].1) by {
            assert(rest[j] == views[j + 1]);
            assert(ngram_wf(views[j + 1].2[k], views[j + 1].1));
        }
        lemma_parse_books_of_ser(b, pos + m, rest);
        assert(seq![bv] + rest =~= views);
    }
}

/// Snapshot round-trip law: the snapshot of a well-formed corpus model
/// parses back to exactly the model's sources, labels, texts and records.
pub proof fn lemma_snapshot_round_trip(views: Seq<BookView>)
    requires
        views.len() <= u64::MAX,
        forall|j: int| 0 <= j < views.len() ==> (#[trigger] views[j]).0.len() <= u64::MAX
            && views[j].1.len() <= u64::MAX && views[j].2.len() <= u64::MAX,
        forall|j: int, k: int| 0 <= j < views.len() && 0 <= k < views[j].2.len() ==> ngram_wf(
            #[trigger] views[j].2[k],
            views[j].1,
        ),
    ensures
        spec_parse(spec_serialize(views)) == Some(views),
{
    vstd::bytes::lemma_auto_spec_u64_to_from_le_bytes();
    let b = spec_serialize(views);
    assert(b == spec_u64_to_le_bytes(views.len() as u64) + spec_ser_books(views));
    assert(b.subrange(0, 8) =~= spec_u64_to_le_bytes(views.len() as u64));
    assert(spec_parse_u64(b, 0) == Some((views.len() as u64, 8int)));
    assert(b.subrange(8, 8 + spec_ser_books(views).len() as int) =~= spec_ser_books(views));
    lemma_parse_books_of_ser(b, 8, views);
}

/// The round-trip law stated of a model: its own snapshot parses back to
/// its own view of the corpus.
pub proof fn lemma_model_snapshot_round_trip(m: BookNgrams)
    requires
        m.wf(),
    ensures
        spec_parse(spec_serialize(corpus_view(m.0@))) == Some(corpus_view(m.0@)),
{
    let views = corpus_view(m.0@);
    vstd::std_specs::vec::axiom_spec_len(&m.0);
    assert forall|j: int| 0 <= j < views.len() implies (#[trigger] views[j]).0.len()
        <= u64::MAX && views[j].1.len() <= u64::MAX && views[j].2.len() <= u64::MAX by {
        vstd::std_specs::vec::axiom_spec_len(&m.0@[j].book);
        vstd::std_specs::vec::axiom_spec_len(&m.0@[j].content);
        vstd::std_specs::vec::axiom_spec_len(&m.0@[j].data);
    }
    assert forall|j: int, k: int| 0 <= j < views.len() && 0 <= k < views[j].2.len()
        implies ngram_wf(#[trigger] views[j].2[k], views[j].1) by {
        assert(m.0@[j].wf());
        assert(ngram_wf(m.0@[j].data@[k], m.0@[j].content@));
    }
    lemma_snapshot_round_trip(views);
}

/// Two models with the same corpus view hold the same sources, so the walk,
/// and with it generation, behaves identically on them for every context,
/// seed and budget.  Together with the round-trip law this says a model
/// restored from a snapshot generates exactly what the original does.
/// Corpora with the same view hold the same labels, texts and records.
proof fn lemma_view_eq_equivalent(a: Seq<BookNgram>, b: Seq<BookNgram>)
    requires
        corpus_view(a) == corpus_view(b),
    ensures
        books_equivalent(a, b),
{
    assert(corpus_view(a).len() == a.len());
    assert(corpus_view(b).len() == b.len());
    assert forall|k: int| 0 <= k < a.len() implies {
        &&& (#[trigger] a[k]).book@ == b[k].book@
        &&& a[k].content@ == b[k].content@
        &&& a[k].data@ == b[k].data@
    } by {
        let va = corpus_view(a)[k];
        let vb = corpus_view(b)[k];
        assert(va == (a[k].book@, a[k].content@, a[k].data@));
        assert(vb == (b[k].book@, b[k].content@, b[k].data@));
        assert(va == vb);
        assert(va.0 == vb.0 && va.1 == vb.1 && va.2 == vb.2);
    }
}

/// Two models with the same corpus view hold the same sources, so the walk,
/// and with it generation, behaves identically on them for every context,
/// seed and budget.  Together with the round-trip law this says a model
/// restored from a snapshot generates exactly what the original does.
pub proof fn lemma_same_view_same_walk(
    m1: BookNgrams,
    m2: BookNgrams,
    q0: Seq<u8>,
    q1: Seq<u8>,
    q2: Seq<u8>,
    s: u64,
    fuel: nat,
)
    requires
        corpus_view(m1.0@) == corpus_view(m2.0@),
    ensures
        spec_walk(m1.0@, q0, q1, q2, s, fuel) == spec_walk(m2.0@, q0, q1, q2, s, fuel),
{
    vstd::std_specs::vec::axiom_spec_len(&m1.0);
    lemma_view_eq_equivalent(m1.0@, m2.0@);
    lemma_walk_deterministic(m1.0@, m2.0@, q0, q1, q2, s, fuel);
}

} // verus!
