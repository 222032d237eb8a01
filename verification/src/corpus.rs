//! The corpus model: the collection of per-source models, context search
//! across all of them, and the random-walk generation engine.
//!
//! A search scans every source's records and returns every record whose
//! three decoded context tokens equal the queried tokens exactly, tagged
//! with the index of its source.  Generation starts from the all-sentinel
//! context, repeatedly picks one candidate with the injected random source,
//! appends its predicted token, and shifts the context window, until a
//! context has no candidates, a sentinel is predicted, or the step budget
//! runs out.

use vstd::prelude::*;

use crate::bytes_util::bytes_eq;
use crate::ngram::{
    ngram_wf, spec_encodable, spec_records, tok_bytes, BookNgram, NgramData,
};
use crate::output::{spec_add_label, spec_append_sep, spec_collect_onto, spec_contributors, spec_join_onto, spec_joined, Output};
use crate::rng::WalkRng;
use crate::span::EncodingOverflow;

verus! {

/// One search candidate: the index of the source it came from and the
/// matching record.
#[derive(Clone, Copy, Debug, PartialEq, Eq, Structural)]
pub struct NgramEntry {
    pub book: usize,
    pub ngram: NgramData,
}

/// Whether a record's three decoded context tokens equal the query exactly.
pub open spec fn spec_ngram_matches(
    d: NgramData,
    content: Seq<u8>,
    q0: Seq<u8>,
    q1: Seq<u8>,
    q2: Seq<u8>,
) -> bool {
    &&& tok_bytes(d.pp_prev, content) == q0
    &&& tok_bytes(d.p_prev, content) == q1
    &&& tok_bytes(d.prev, content) == q2
}

/// The candidates one source contributes: its matching records in order,
/// each tagged with the source's index.
pub open spec fn spec_book_entries(
    idx: usize,
    content: Seq<u8>,
    data: Seq<NgramData>,
    q0: Seq<u8>,
    q1: Seq<u8>,
    q2: Seq<u8>,
) -> Seq<NgramEntry>
    decreases data.len(),
{
    if data.len() == 0 {
        Seq::empty()
    } else {
        let pre = spec_book_entries(idx, content, data.drop_last(), q0, q1, q2);
        if spec_ngram_matches(data.last(), content, q0, q1, q2) {
            pre.push(NgramEntry { book: idx, ngram: data.last() })
        } else {
            pre
        }
    }
}

/// The candidates of a whole corpus: each source's matching records, in
/// source order, then record order.
pub open spec fn spec_matching(
    books: Seq<BookNgram>,
    q0: Seq<u8>,
    q1: Seq<u8>,
    q2: Seq<u8>,
) -> Seq<NgramEntry>
    decreases books.len(),
{
    if books.len() == 0 {
        Seq::empty()
    } else {
        spec_matching(books.drop_last(), q0, q1, q2) + spec_book_entries(
            (books.len() - 1) as usize,
            books.last().content@,
            books.last().data@,
            q0,
            q1,
            q2,
        )
    }
}

/// Every candidate a source contributes carries that source's index, is one
/// of the source's records, and matches the query.
pub proof fn lemma_book_entries_props(
    idx: usize,
    content: Seq<u8>,
    data: Seq<NgramData>,
    q0: Seq<u8>,
    q1: Seq<u8>,
    q2: Seq<u8>,
)
    ensures
        forall|k: int| 0 <= k < spec_book_entries(idx, content, data, q0, q1, q2).len() ==> {
            let e = #[trigger] spec_book_entries(idx, content, data, q0, q1, q2)[k];
            &&& e.book == idx
            &&& data.contains(e.ngram)
            &&& spec_ngram_matches(e.ngram, content, q0, q1, q2)
        },
    decreases data.len(),
{
    if data.len() > 0 {
        lemma_book_entries_props(idx, content, data.drop_last(), q0, q1, q2);
        let pre = spec_book_entries(idx, content, data.drop_last(), q0, q1, q2);
        let full = spec_book_entries(idx, content, data, q0, q1, q2);
        assert forall|k: int| 0 <= k < full.len() implies {
            let e = #[trigger] full[k];
            &&& e.book == idx
            &&& data.contains(e.ngram)
            &&& spec_ngram_matches(e.ngram, content, q0, q1, q2)
        } by {
            if k < pre.len() {
                assert(full[k] == pre[k]);
                let e = pre[k];
                let i = choose|i: int| 0 <= i < data.drop_last().len() && data.drop_last()[i] == e.ngram;
                assert(data[i] == e.ngram);
            } else {
                assert(data[data.len() - 1] == full[k].ngram);
            }
        }
    }
}

/// Every candidate of a corpus search points at a real source, is one of
/// that source's records, and matches the query.
pub proof fn lemma_matching_props(books: Seq<BookNgram>, q0: Seq<u8>, q1: Seq<u8>, q2: Seq<u8>)
    requires
        books.len() <= usize::MAX,
    ensures
        forall|k: int| 0 <= k < spec_matching(books, q0, q1, q2).len() ==> {
            let e = #[trigger] spec_matching(books, q0, q1, q2)[k];
            &&& e.book < books.len()
            &&& books[e.book as int].data@.contains(e.ngram)
            &&& spec_ngram_matches(e.ngram, books[e.book as int].content@, q0, q1, q2)
        },
    decreases books.len(),
{
    if books.len() > 0 {
        lemma_matching_props(books.drop_last(), q0, q1, q2);
        lemma_book_entries_props(
            (books.len() - 1) as usize,
            books.last().content@,
            books.last().data@,
            q0,
            q1,
            q2,
        );
        let pre = spec_matching(books.drop_last(), q0, q1, q2);
        let tail = spec_book_entries(
            (books.len() - 1) as usize,
            books.last().content@,
            books.last().data@,
            q0,
            q1,
            q2,
        );
        let full = spec_matching(books, q0, q1, q2);
        assert(full == pre + tail);
        assert forall|k: int| 0 <= k < full.len() implies {
            let e = #[trigger] full[k];
            &&& e.book < books.len()
            &&& books[e.book as int].data@.contains(e.ngram)
            &&& spec_ngram_matches(e.ngram, books[e.book as int].content@, q0, q1, q2)
        } by {
            if k < pre.len() {
                assert(full[k] == pre[k]);
                let e = pre[k];
                assert(books.drop_last()[e.book as int] == books[e.book as int]);
            } else {
                assert(full[k] == tail[k - pre.len()]);
                assert(books[books.len() - 1] == books.last());
            }
        }
    }
}

/// Exact-match law: a search never yields a candidate whose decoded context
/// tokens differ from the query in any position.
pub proof fn lemma_search_exact(
    books: Seq<BookNgram>,
    q0: Seq<u8>,
    q1: Seq<u8>,
    q2: Seq<u8>,
    k: int,
)
    requires
        books.len() <= usize::MAX,
        0 <= k < spec_matching(books, q0, q1, q2).len(),
    ensures
        ({
            let e = spec_matching(books, q0, q1, q2)[k];
            &&& 0 <= e.book < books.len()
            &&& tok_bytes(e.ngram.pp_prev, books[e.book as int].content@) == q0
            &&& tok_bytes(e.ngram.p_prev, books[e.book as int].content@) == q1
            &&& tok_bytes(e.ngram.prev, books[e.book as int].content@) == q2
        }),
{
    lemma_matching_props(books, q0, q1, q2);
}

/// The trace of the random walk from a context: the sequence of tokens it
/// appends and the sequence of source labels it draws them from, one entry
/// per step, until a context without candidates, a sentinel prediction, or
/// the end of the budget stops it.
pub open spec fn spec_walk(
    books: Seq<BookNgram>,
    q0: Seq<u8>,
    q1: Seq<u8>,
    q2: Seq<u8>,
    s: u64,
    fuel: nat,
) -> (Seq<Seq<u8>>, Seq<Seq<u8>>)
    decreases fuel,
{
    if fuel == 0 {
        (Seq::empty(), Seq::empty())
    } else {
        let cands = spec_matching(books, q0, q1, q2);
        if cands.len() == 0 {
            (Seq::empty(), Seq::empty())
        } else {
            let e = cands[WalkRng::spec_pick(s, cands.len() as int)];
            let content = books[e.book as int].content@;
            let tok = tok_bytes(e.ngram.current, content);
            if tok.len() == 0 {
                (Seq::empty(), Seq::empty())
            } else {
                let rest = spec_walk(
                    books,
                    tok_bytes(e.ngram.p_prev, content),
                    tok_bytes(e.ngram.prev, content),
                    tok,
                    WalkRng::spec_next(s),
                    (fuel - 1) as nat,
                );
                (seq![tok] + rest.0, seq![books[e.book as int].book@] + rest.1)
            }
        }
    }
}


/// One unfolding of the walk at a context that has candidates: which entry
/// the draw picks, that it is a real record of a real source, and how the
/// walk's trace decomposes around the chosen token.
pub proof fn lemma_walk_step(
    books: Seq<BookNgram>,
    q0: Seq<u8>,
    q1: Seq<u8>,
    q2: Seq<u8>,
    s: u64,
    fuel: nat,
)
    requires
        fuel > 0,
        books.len() <= usize::MAX,
        spec_matching(books, q0, q1, q2).len() > 0,
    ensures
        ({
            let cands = spec_matching(books, q0, q1, q2);
            let pick = WalkRng::spec_pick(s, cands.len() as int);
            let e = cands[pick];
            let content = books[e.book as int].content@;
            let tok = tok_bytes(e.ngram.current, content);
            &&& 0 <= pick < cands.len()
            &&& e.book < books.len()
            &&& books[e.book as int].data@.contains(e.ngram)
            &&& (tok.len() == 0 ==> spec_walk(books, q0, q1, q2, s, fuel) == (
                Seq::<Seq<u8>>::empty(),
                Seq::<Seq<u8>>::empty(),
            ))
            &&& (tok.len() > 0 ==> spec_walk(books, q0, q1, q2, s, fuel) == {
                let rest = spec_walk(
                    books,
                    tok_bytes(e.ngram.p_prev, content),
                    tok_bytes(e.ngram.prev, content),
                    tok,
                    WalkRng::spec_next(s),
                    (fuel - 1) as nat,
                );
                (seq![tok] + rest.0, seq![books[e.book as int].book@] + rest.1)
            })
        }),
{
    lemma_matching_props(books, q0, q1, q2);
}

/// A record listed by a well-formed source stays inside that source's
/// buffer.
pub proof fn lemma_contained_record_wf(b: BookNgram, d: NgramData)
    requires
        b.wf(),
        b.data@.contains(d),
    ensures
        ngram_wf(d, b.content@),
{
    let i = choose|i: int| 0 <= i < b.data@.len() && b.data@[i] == d;
    assert(ngram_wf(b.data@[i], b.content@));
}

/// The corpus model: one model per source, immutable once built.
#[derive(Debug)]
pub struct BookNgrams(pub Vec<BookNgram>);

impl BookNgrams {
    /// Every source model is well formed.
    pub open spec fn wf(self) -> bool {
        forall|k: int| 0 <= k < self.0@.len() ==> (#[trigger] self.0@[k]).wf()
    }

    /// An empty corpus model.
    pub fn new() -> (r: BookNgrams)
        ensures
            r.0@.len() == 0,
            r.wf(),
    {
        BookNgrams(Vec::new())
    }

    /// Whether the corpus holds no sources at all, as opposed to being
    /// merely small: an empty corpus generates only empty output.
    pub fn is_empty(&self) -> (r: bool)
        ensures
            r == (self.0@.len() == 0),
    {
        self.0.len() == 0
    }

    /// Builds one source model per (label, text) entry, in entry order.
    /// The entries stand for a mapping from source label to text, so their
    /// labels must be pairwise distinct, as `read_books` guarantees of a raw
    /// directory listing.  Fails with `EncodingOverflow` exactly when some
    /// entry's text holds a token that the compact span form cannot carry.
    pub fn from_books(books: &Vec<(Vec<u8>, Vec<u8>)>) -> (r: Result<BookNgrams, EncodingOverflow>)
        requires
            forall|i: int, j: int| 0 <= i < j < books@.len() ==> (#[trigger] books@[i]).0@ != (
            #[trigger] books@[j]).0@,
        ensures
            r is Ok <==> (forall|k: int|
                0 <= k < books@.len() ==> spec_encodable((#[trigger] books@[k]).1@)),
            r matches Ok(m) ==> m.wf() && m.0@.len() == books@.len() && (forall|k: int|
                0 <= k < books@.len() ==> {
                    &&& (#[trigger] m.0@[k]).book@ == books@[k].0@
                    &&& m.0@[k].content@ == books@[k].1@
                    &&& m.0@[k].data@ == spec_records(books@[k].1@)
                }),
    {
        let mut v: Vec<BookNgram> = Vec::new();
        let mut k: usize = 0;
        while k < books.len()
            invariant
                k <= books@.len(),
                v@.len() == k,
                forall|m: int| 0 <= m < k ==> spec_encodable((#[trigger] books@[m]).1@),
                forall|m: int| 0 <= m < k ==> {
                    &&& (#[trigger] v@[m]).book@ == books@[m].0@
                    &&& v@[m].content@ == books@[m].1@
                    &&& v@[m].data@ == spec_records(books@[m].1@)
                    &&& v@[m].wf()
                },
            decreases books@.len() - k,
        {
            let entry = &books[k];
            match BookNgram::new(entry.1.as_slice(), entry.0.as_slice()) {
                Ok(b) => {
                    v.push(b);
                }
                Err(e) => {
                    return Err(e);
                }
            }
            k = k + 1;
        }
        Ok(BookNgrams(v))
    }

    /// Scans every source and returns every record whose decoded context
    /// equals the query exactly, in source order, then record order.
    pub fn search(&self, pp: &[u8], p: &[u8], prev: &[u8]) -> (r: Vec<NgramEntry>)
        requires
            self.wf(),
        ensures
            r@ == spec_matching(self.0@, pp@, p@, prev@),
    {
        let mut r: Vec<NgramEntry> = Vec::new();
        let mut k: usize = 0;
        while k < self.0.len()
            invariant
                self.wf(),
                k <= self.0@.len(),
                r@ == spec_matching(self.0@.take(k as int), pp@, p@, prev@),
            decreases self.0@.len() - k,
        {
            let mut part = book_search(&self.0[k], k, pp, p, prev);
            r.append(&mut part);
            proof {
                assert(self.0@.take(k as int + 1).drop_last() =~= self.0@.take(k as int));
                assert(self.0@.take(k as int + 1).last() == self.0@[k as int]);
            }
            k = k + 1;
        }
        proof {
            assert(self.0@.take(self.0@.len() as int) =~= self.0@);
        }
        r
    }

    /// Picks one candidate for the queried context uniformly from the
    /// search result, advancing the random source by one draw; yields
    /// nothing, and leaves the random source untouched, when no record
    /// matches.
    pub fn random(&self, rng: &mut WalkRng, pp: &[u8], p: &[u8], prev: &[u8]) -> (r: Option<
        NgramEntry,
    >)
        requires
            self.wf(),
        ensures
            ({
                let cands = spec_matching(self.0@, pp@, p@, prev@);
                &&& cands.len() == 0 ==> r is None && *final(rng) == *old(rng)
                &&& cands.len() > 0 ==> r == Some(
                    cands[WalkRng::spec_pick(old(rng).state, cands.len() as int)],
                ) && final(rng).state == WalkRng::spec_next(old(rng).state)
            }),
    {
        let choices = self.search(pp, p, prev);
        if choices.len() == 0 {
            None
        } else {
            let k = rng.next_below(choices.len());
            Some(choices[k])
        }
    }

    /// Runs the random walk from the all-sentinel context until it reaches a
    /// context with no candidates, a sentinel prediction, or the step
    /// budget, and returns the accumulated output.  The result is a function
    /// of the corpus, the seed and the budget alone.
    pub fn generate(&self, rng: &mut WalkRng, max_steps: usize) -> (out: Output)
        requires
            self.wf(),
        ensures
            ({
                let walk = spec_walk(
                    self.0@,
                    Seq::empty(),
                    Seq::empty(),
                    Seq::empty(),
                    old(rng).state,
                    max_steps as nat,
                );
                &&& out.string@ == spec_joined(walk.0)
                &&& out.books.deep_view() == spec_contributors(walk.1)
            }),
    {
        let mut out = Output::new();
        let start: Vec<u8> = Vec::new();
        self.walk_into(rng, start.as_slice(), start.as_slice(), start.as_slice(), max_steps, &mut out);
        proof {
            let walk = spec_walk(
                self.0@,
                Seq::empty(),
                Seq::empty(),
                Seq::empty(),
                old(rng).state,
                max_steps as nat,
            );
            crate::output::lemma_join_onto_is_joined(walk.0);
            crate::output::lemma_collect_onto_is_contributors(walk.1);
        }
        out
    }

    /// One stretch of the walk: runs at most `steps` further steps from the
    /// given context, appending every chosen token and contributor to `out`.
    fn walk_into(
        &self,
        rng: &mut WalkRng,
        q0: &[u8],
        q1: &[u8],
        q2: &[u8],
        steps: usize,
        out: &mut Output,
    )
        requires
            self.wf(),
        ensures
            ({
                let walk = spec_walk(self.0@, q0@, q1@, q2@, old(rng).state, steps as nat);
                &&& final(out).string@ == spec_join_onto(old(out).string@, walk.0)
                &&& final(out).books.deep_view() == spec_collect_onto(
                    old(out).books.deep_view(),
                    walk.1,
                )
            }),
        decreases steps,
    {
        if steps == 0 {
            return;
        }
        let ghost s_cur = rng.state;
        let ghost cands = spec_matching(self.0@, q0@, q1@, q2@);
        let choice = self.random(rng, q0, q1, q2);
        match choice {
            None => {
                proof {
                    assert(spec_walk(self.0@, q0@, q1@, q2@, s_cur, steps as nat) == (
                        Seq::<Seq<u8>>::empty(),
                        Seq::<Seq<u8>>::empty(),
                    ));
                }
            }
            Some(e) => {
                let ghost pick = WalkRng::spec_pick(s_cur, cands.len() as int);
                proof {
                    vstd::std_specs::vec::axiom_spec_len(&self.0);
                    lemma_walk_step(self.0@, q0@, q1@, q2@, s_cur, steps as nat);
                    assert(e == cands[pick]);
                    lemma_contained_record_wf(self.0@[e.book as int], e.ngram);
                }
                let b = &self.0[e.book];
                let tok_slice = e.ngram.current(b.content.as_slice());
                let ghost tok = tok_bytes(e.ngram.current, b.content@);
                if tok_slice.len() == 0 {
                    proof {
                        assert(spec_walk(self.0@, q0@, q1@, q2@, s_cur, steps as nat) == (
                            Seq::<Seq<u8>>::empty(),
                            Seq::<Seq<u8>>::empty(),
                        ));
                    }
                    return;
                }
                let ghost rest = spec_walk(
                    self.0@,
                    tok_bytes(e.ngram.p_prev, b.content@),
                    tok_bytes(e.ngram.prev, b.content@),
                    tok,
                    WalkRng::spec_next(s_cur),
                    (steps - 1) as nat,
                );
                let ghost walk = spec_walk(self.0@, q0@, q1@, q2@, s_cur, steps as nat);
                proof {
                    assert(walk == (seq![tok] + rest.0, seq![b.book@] + rest.1));
                }
                out.append_entry(b.book.as_slice(), tok_slice);
                let n0 = e.ngram.p_prev(b.content.as_slice());
                let n1 = e.ngram.prev(b.content.as_slice());
                self.walk_into(rng, n0, n1, tok_slice, steps - 1, out);
                proof {
                    assert(walk.0.first() == tok);
                    assert(walk.0.drop_first() =~= rest.0);
                    assert(walk.1.first() == b.book@);
                    assert(walk.1.drop_first() =~= rest.1);
                    assert(spec_join_onto(old(out).string@, walk.0)
                        == spec_join_onto(spec_append_sep(old(out).string@, tok), rest.0));
                    assert(spec_collect_onto(old(out).books.deep_view(), walk.1)
                        == spec_collect_onto(
                            spec_add_label(old(out).books.deep_view(), b.book@),
                            rest.1,
                        ));
                }
            }
        }
    }
}

/// The candidates one source contributes for a query, exactly as
/// `spec_book_entries` lists them.
fn book_search(b: &BookNgram, idx: usize, pp: &[u8], p: &[u8], prev: &[u8]) -> (r: Vec<NgramEntry>)
    requires
        b.wf(),
    ensures
        r@ == spec_book_entries(idx, b.content@, b.data@, pp@, p@, prev@),
{
    let mut r: Vec<NgramEntry> = Vec::new();
    let mut k: usize = 0;
    while k < b.data.len()
        invariant
            b.wf(),
            k <= b.data@.len(),
            r@ == spec_book_entries(idx, b.content@, b.data@.take(k as int), pp@, p@, prev@),
        decreases b.data@.len() - k,
    {
        let d = b.data[k];
        proof {
            assert(ngram_wf(b.data@[k as int], b.content@));
        }
        let m0 = bytes_eq(d.pp_prev(b.content.as_slice()), pp);
        let m1 = bytes_eq(d.p_prev(b.content.as_slice()), p);
        let m2 = bytes_eq(d.prev(b.content.as_slice()), prev);
        if m0 && m1 && m2 {
            r.push(NgramEntry { book: idx, ngram: d });
        }
        proof {
            assert(b.data@.take(k as int + 1).drop_last() =~= b.data@.take(k as int));
            assert(b.data@.take(k as int + 1).last() == b.data@[k as int]);
        }
        k = k + 1;
    }
    proof {
        assert(b.data@.take(b.data@.len() as int) =~= b.data@);
    }
    r
}

/// An empty corpus generates nothing: the walk's trace is empty for every
/// context, seed and budget, so the output string and the contributor set
/// are both empty.
pub proof fn lemma_empty_corpus_generates_nothing(
    q0: Seq<u8>,
    q1: Seq<u8>,
    q2: Seq<u8>,
    s: u64,
    fuel: nat,
)
    ensures
        spec_walk(Seq::<BookNgram>::empty(), q0, q1, q2, s, fuel) == (
            Seq::<Seq<u8>>::empty(),
            Seq::<Seq<u8>>::empty(),
        ),
        spec_joined(Seq::<Seq<u8>>::empty()) == Seq::<u8>::empty(),
        spec_contributors(Seq::<Seq<u8>>::empty()) == Seq::<Seq<u8>>::empty(),
{
    assert(spec_matching(Seq::<BookNgram>::empty(), q0, q1, q2) =~= Seq::<NgramEntry>::empty());
}

/// The walk is finite: it appends at most one token and one contributor
/// per unit of budget, so every generation run ends within its budget.
pub proof fn lemma_walk_bounded(
    books: Seq<BookNgram>,
    q0: Seq<u8>,
    q1: Seq<u8>,
    q2: Seq<u8>,
    s: u64,
    fuel: nat,
)
    ensures
        spec_walk(books, q0, q1, q2, s, fuel).0.len() <= fuel,
        spec_walk(books, q0, q1, q2, s, fuel).1.len() <= fuel,
    decreases fuel,
{
    if fuel > 0 {
        let cands = spec_matching(books, q0, q1, q2);
        if cands.len() > 0 {
            let e = cands[WalkRng::spec_pick(s, cands.len() as int)];
            let content = books[e.book as int].content@;
            let tok = tok_bytes(e.ngram.current, content);
            if tok.len() > 0 {
                lemma_walk_bounded(
                    books,
                    tok_bytes(e.ngram.p_prev, content),
                    tok_bytes(e.ngram.prev, content),
                    tok,
                    WalkRng::spec_next(s),
                    (fuel - 1) as nat,
                );
            }
        }
    }
}

/// Whether two corpora hold the same sources: equal labels, equal texts and
/// equal record lists, source by source.
pub open spec fn books_equivalent(a: Seq<BookNgram>, b: Seq<BookNgram>) -> bool {
    &&& a.len() == b.len()
    &&& forall|k: int| 0 <= k < a.len() ==> {
        &&& (#[trigger] a[k]).book@ == b[k].book@
        &&& a[k].content@ == b[k].content@
        &&& a[k].data@ == b[k].data@
    }
}

/// Equivalent corpora yield identical search results.
pub proof fn lemma_matching_congruent(
    a: Seq<BookNgram>,
    b: Seq<BookNgram>,
    q0: Seq<u8>,
    q1: Seq<u8>,
    q2: Seq<u8>,
)
    requires
        books_equivalent(a, b),
    ensures
        spec_matching(a, q0, q1, q2) == spec_matching(b, q0, q1, q2),
    decreases a.len(),
{
    if a.len() > 0 {
        assert(books_equivalent(a.drop_last(), b.drop_last())) by {
            assert forall|k: int| 0 <= k < a.drop_last().len() implies {
                &&& (#[trigger] a.drop_last()[k]).book@ == b.drop_last()[k].book@
                &&& a.drop_last()[k].content@ == b.drop_last()[k].content@
                &&& a.drop_last()[k].data@ == b.drop_last()[k].data@
            } by {
                assert(a.drop_last()[k] == a[k]);
                assert(b.drop_last()[k] == b[k]);
            }
        }
        lemma_matching_congruent(a.drop_last(), b.drop_last(), q0, q1, q2);
        assert(a.last() == a[a.len() - 1]);
        assert(b.last() == b[b.len() - 1]);
    }
}

/// Determinism law: the walk is a function of the sources' labels, texts
/// and records, the context, the seed and the budget alone.  Two equivalent
/// corpora, walked from the same seed with the same budget, leave the same
/// trace.
pub proof fn lemma_walk_deterministic(
    a: Seq<BookNgram>,
    b: Seq<BookNgram>,
    q0: Seq<u8>,
    q1: Seq<u8>,
    q2: Seq<u8>,
    s: u64,
    fuel: nat,
)
    requires
        a.len() <= usize::MAX,
        books_equivalent(a, b),
    ensures
        spec_walk(a, q0, q1, q2, s, fuel) == spec_walk(b, q0, q1, q2, s, fuel),
    decreases fuel,
{
    if fuel > 0 {
        lemma_matching_congruent(a, b, q0, q1, q2);
        let cands = spec_matching(a, q0, q1, q2);
        if cands.len() > 0 {
            lemma_matching_props(a, q0, q1, q2);
            let e = cands[WalkRng::spec_pick(s, cands.len() as int)];
            let content = a[e.book as int].content@;
            let tok = tok_bytes(e.ngram.current, content);
            if tok.len() > 0 {
                lemma_walk_deterministic(
                    a,
                    b,
                    tok_bytes(e.ngram.p_prev, content),
                    tok_bytes(e.ngram.prev, content),
                    tok,
                    WalkRng::spec_next(s),
                    (fuel - 1) as nat,
                );
            }
        }
    }
}

/// The index of the last dot in a file name at or before position `i`, or
/// zero when there is none.
pub open spec fn last_dot_from(name: Seq<u8>, i: int) -> int
    decreases i,
{
    if i <= 0 {
        0
    } else if name[i] == 46 {
        i
    } else {
        last_dot_from(name, i - 1)
    }
}

/// The stem of a file name: everything before the last dot, or the whole
/// name when there is no dot past the first byte (so a leading-dot name
/// keeps its name).
pub open spec fn spec_stem(name: Seq<u8>) -> Seq<u8> {
    let p = last_dot_from(name, name.len() - 1);
    if p > 0 {
        name.take(p)
    } else {
        name
    }
}

/// The text with every carriage-return byte removed.
pub open spec fn spec_without_cr(s: Seq<u8>) -> Seq<u8>
    decreases s.len(),
{
    if s.len() == 0 {
        Seq::empty()
    } else if s.last() == 13 {
        spec_without_cr(s.drop_last())
    } else {
        spec_without_cr(s.drop_last()).push(s.last())
    }
}

/// The plain view of a list of corpus entries: each pair of byte vectors as
/// a pair of byte sequences.
pub open spec fn entries_view(v: Seq<(Vec<u8>, Vec<u8>)>) -> Seq<(Seq<u8>, Seq<u8>)> {
    Seq::new(v.len(), |k: int| (v[k].0@, v[k].1@))
}

/// The first position whose entry carries `label`, or the list's length
/// when no entry does.
pub open spec fn label_index(entries: Seq<(Seq<u8>, Seq<u8>)>, label: Seq<u8>) -> int
    decreases entries.len(),
{
    if entries.len() == 0 {
        0
    } else if entries.first().0 == label {
        0
    } else {
        1 + label_index(entries.drop_first(), label)
    }
}

/// `label_index` names the first position holding the label, and the
/// list's length when the label is absent.
pub proof fn lemma_label_index(entries: Seq<(Seq<u8>, Seq<u8>)>, label: Seq<u8>)
    ensures
        0 <= label_index(entries, label) <= entries.len(),
        label_index(entries, label) < entries.len() ==> entries[label_index(
            entries,
            label,
        )].0 == label,
        forall|m: int| 0 <= m < label_index(entries, label) ==> (#[trigger] entries[m]).0 != label,
    decreases entries.len(),
{
    if entries.len() > 0 && entries.first().0 != label {
        lemma_label_index(entries.drop_first(), label);
        assert forall|m: int| 0 <= m < label_index(entries, label)
            implies (#[trigger] entries[m]).0 != label by {
            if m > 0 {
                assert(entries.drop_first()[m - 1] == entries[m]);
            }
        }
        if label_index(entries, label) < entries.len() {
            assert(entries.drop_first()[label_index(entries, label) - 1]
                == entries[label_index(entries, label)]);
        }
    }
}

/// One corpus entry inserted with mapping semantics: an entry whose label
/// is already present replaces that label's text in place; a new label is
/// appended.
pub open spec fn spec_insert_entry(
    entries: Seq<(Seq<u8>, Seq<u8>)>,
    label: Seq<u8>,
    text: Seq<u8>,
) -> Seq<(Seq<u8>, Seq<u8>)> {
    let i = label_index(entries, label);
    if i < entries.len() {
        entries.update(i, (label, text))
    } else {
        entries.push((label, text))
    }
}

/// The corpus mapping of a list of raw directory entries: each file's stem
/// is its label and its text loses its carriage returns; files are inserted
/// in order with mapping semantics, so a later file whose stem was already
/// seen replaces that stem's text, and each label survives exactly once, in
/// order of first appearance.
pub open spec fn spec_corpus_entries(files: Seq<(Seq<u8>, Seq<u8>)>) -> Seq<(Seq<u8>, Seq<u8>)>
    decreases files.len(),
{
    if files.len() == 0 {
        Seq::empty()
    } else {
        spec_insert_entry(
            spec_corpus_entries(files.drop_last()),
            spec_stem(files.last().0),
            spec_without_cr(files.last().1),
        )
    }
}

/// Inserting with mapping semantics keeps the labels pairwise distinct.
proof fn lemma_insert_entry_distinct(
    entries: Seq<(Seq<u8>, Seq<u8>)>,
    label: Seq<u8>,
    text: Seq<u8>,
)
    requires
        forall|i: int, j: int| 0 <= i < j < entries.len()
            ==> (#[trigger] entries[i]).0 != (#[trigger] entries[j]).0,
    ensures
        forall|i: int, j: int| 0 <= i < j < spec_insert_entry(entries, label, text).len()
            ==> (#[trigger] spec_insert_entry(entries, label, text)[i]).0 != (
            #[trigger] spec_insert_entry(entries, label, text)[j]).0,
{
    lemma_label_index(entries, label);
    let p = label_index(entries, label);
    let out = spec_insert_entry(entries, label, text);
    if p < entries.len() {
        // Replacing in place keeps every label where it was.
        assert forall|m: int| 0 <= m < out.len()
            implies (#[trigger] out[m]).0 == entries[m].0 by {
            if m == p {
                assert(out[m].0 == label);
            }
        }
    } else {
        // The label is new, so appending it collides with nothing.
        assert forall|i: int, j: int| 0 <= i < j < out.len()
            implies (#[trigger] out[i]).0 != (#[trigger] out[j]).0 by {
            if j == entries.len() {
                assert(out[i] == entries[i]);
                assert(entries[i].0 != label);
            } else {
                assert(out[i] == entries[i]);
                assert(out[j] == entries[j]);
            }
        }
    }
}

/// Mapping law: the corpus entries of any raw directory listing carry
/// pairwise-distinct labels, as a mapping's keys must.
pub proof fn lemma_corpus_entries_distinct(files: Seq<(Seq<u8>, Seq<u8>)>)
    ensures
        forall|i: int, j: int| 0 <= i < j < spec_corpus_entries(files).len()
            ==> (#[trigger] spec_corpus_entries(files)[i]).0 != (
            #[trigger] spec_corpus_entries(files)[j]).0,
    decreases files.len(),
{
    if files.len() > 0 {
        lemma_corpus_entries_distinct(files.drop_last());
        lemma_insert_entry_distinct(
            spec_corpus_entries(files.drop_last()),
            spec_stem(files.last().0),
            spec_without_cr(files.last().1),
        );
    }
}

/// Turns raw directory entries, each a (file name, file text) pair, into
/// the corpus mapping: one entry per file-name stem, holding that stem's
/// latest text with carriage returns normalized away.  Two files sharing a
/// stem leave exactly one entry, as inserting both into a mapping would.
pub fn read_books(files: &Vec<(Vec<u8>, Vec<u8>)>) -> (r: Vec<(Vec<u8>, Vec<u8>)>)
    ensures
        entries_view(r@) == spec_corpus_entries(entries_view(files@)),
        forall|i: int, j: int| 0 <= i < j < r@.len() ==> (#[trigger] r@[i]).0@ != (
        #[trigger] r@[j]).0@,
{
    let ghost gfiles = entries_view(files@);
    let mut r: Vec<(Vec<u8>, Vec<u8>)> = Vec::new();
    let mut k: usize = 0;
    proof {
        assert(entries_view(r@) =~= spec_corpus_entries(gfiles.take(0)));
    }
    while k < files.len()
        invariant
            k <= files@.len(),
            gfiles == entries_view(files@),
            entries_view(r@) == spec_corpus_entries(gfiles.take(k as int)),
        decreases files@.len() - k,
    {
        let entry = &files[k];
        let label = file_stem(entry.0.as_slice());
        let text = without_cr(entry.1.as_slice());
        let ghost before = entries_view(r@);
        proof {
            assert(gfiles[k as int] == (files@[k as int].0@, files@[k as int].1@));
            lemma_label_index(before, label@);
        }
        // Look for an entry that already carries this label.
        let mut j: usize = 0;
        let mut found = false;
        while j < r.len()
            invariant_except_break
                !found,
            invariant
                j <= r@.len(),
                before == entries_view(r@),
                forall|m: int| 0 <= m < j ==> (#[trigger] before[m]).0 != label@,
            ensures
                before == entries_view(r@),
                forall|m: int| 0 <= m < j ==> (#[trigger] before[m]).0 != label@,
                found ==> j < r@.len() && before[j as int].0 == label@,
                !found ==> j == r@.len(),
            decreases r@.len() - j,
        {
            proof {
                assert(before[j as int] == (r@[j as int].0@, r@[j as int].1@));
            }
            if crate::bytes_util::bytes_eq(r[j].0.as_slice(), label.as_slice()) {
                found = true;
                break;
            }
            j = j + 1;
        }
        if found {
            // Mapping semantics: the new text replaces the old one in place.
            proof {
                assert(label_index(before, label@) == j as int);
            }
            let _old = r.remove(j);
            r.insert(j, (label, text));
            proof {
                assert(entries_view(r@) =~= before.update(j as int, (label@, text@)));
            }
        } else {
            proof {
                assert(label_index(before, label@) == before.len());
            }
            r.push((label, text));
            proof {
                assert(entries_view(r@) =~= before.push((label@, text@)));
            }
        }
        proof {
            assert(gfiles.take(k as int + 1).drop_last() =~= gfiles.take(k as int));
            assert(gfiles.take(k as int + 1).last() == gfiles[k as int]);
            assert(entries_view(r@) == spec_insert_entry(before, label@, text@));
            assert(spec_corpus_entries(gfiles.take(k as int + 1))
                == spec_insert_entry(before, label@, text@));
        }
        k = k + 1;
    }
    proof {
        assert(gfiles.take(gfiles.len() as int) =~= gfiles);
        lemma_corpus_entries_distinct(gfiles);
        assert forall|i: int, j: int| 0 <= i < j < r@.len()
            implies (#[trigger] r@[i]).0@ != (#[trigger] r@[j]).0@ by {
            assert(entries_view(r@)[i] == (r@[i].0@, r@[i].1@));
            assert(entries_view(r@)[j] == (r@[j].0@, r@[j].1@));
        }
    }
    r
}

/// The stem of one file name, as `spec_stem` describes it.
fn file_stem(name: &[u8]) -> (r: Vec<u8>)
    ensures
        r@ == spec_stem(name@),
{
    let ghost s = name@;
    if name.len() == 0 {
        proof {
            assert(spec_stem(s) =~= s);
        }
        return Vec::new();
    }
    let mut i: usize = name.len() - 1;
    while i > 0 && name[i] != 46
        invariant
            0 <= i < name@.len(),
            s == name@,
            last_dot_from(s, name@.len() - 1) == last_dot_from(s, i as int),
        decreases i,
    {
        i = i - 1;
    }
    let p: usize = if i > 0 && name[i] == 46 {
        i
    } else {
        0
    };
    proof {
        assert(p as int == last_dot_from(s, s.len() - 1));
    }
    if p > 0 {
        let stem = vstd::slice::slice_to_vec(vstd::slice::slice_subrange(name, 0, p));
        proof {
            assert(stem@ =~= s.take(p as int));
        }
        stem
    } else {
        vstd::slice::slice_to_vec(name)
    }
}

/// The text with carriage returns removed, as `spec_without_cr` describes.
fn without_cr(text: &[u8]) -> (r: Vec<u8>)
    ensures
        r@ == spec_without_cr(text@),
{
    let mut r: Vec<u8> = Vec::new();
    let mut k: usize = 0;
    while k < text.len()
        invariant
            k <= text@.len(),
            r@ == spec_without_cr(text@.take(k as int)),
        decreases text@.len() - k,
    {
        let b = text[k];
        proof {
            assert(text@.take(k as int + 1).drop_last() =~= text@.take(k as int));
            assert(text@.take(k as int + 1).last() == text@[k as int]);
        }
        if b != 13 {
            r.push(b);
        }
        k = k + 1;
    }
    proof {
        assert(text@.take(text@.len() as int) =~= text@);
    }
    r
}

} // verus!
