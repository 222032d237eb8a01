//! The output builder: accumulates the generated token sequence into one
//! space-joined byte string and collects the set of contributing source
//! labels, without duplicates, in order of first contribution.

use vstd::prelude::*;

use crate::bytes_util::{bytes_eq, push_bytes};

verus! {

/// `acc` extended by one token, with a single-space separator whenever the
/// accumulated string is non-empty.
pub open spec fn spec_append_sep(acc: Seq<u8>, tok: Seq<u8>) -> Seq<u8> {
    if acc.len() == 0 {
        tok
    } else {
        acc + seq![32u8] + tok
    }
}

/// The tokens joined into one byte string with single-space separators.
pub open spec fn spec_joined(toks: Seq<Seq<u8>>) -> Seq<u8>
    decreases toks.len(),
{
    if toks.len() == 0 {
        Seq::empty()
    } else {
        spec_append_sep(spec_joined(toks.drop_last()), toks.last())
    }
}

/// A label collection extended by one label, ignoring labels already held.
pub open spec fn spec_add_label(d: Seq<Seq<u8>>, label: Seq<u8>) -> Seq<Seq<u8>> {
    if d.contains(label) {
        d
    } else {
        d.push(label)
    }
}

/// The distinct labels of `labels`, in order of first appearance.
pub open spec fn spec_contributors(labels: Seq<Seq<u8>>) -> Seq<Seq<u8>>
    decreases labels.len(),
{
    if labels.len() == 0 {
        Seq::empty()
    } else {
        spec_add_label(spec_contributors(labels.drop_last()), labels.last())
    }
}

/// The joined string continued: `acc` with each further token appended
/// behind a separator.
pub open spec fn spec_join_onto(acc: Seq<u8>, toks: Seq<Seq<u8>>) -> Seq<u8>
    decreases toks.len(),
{
    if toks.len() == 0 {
        acc
    } else {
        spec_join_onto(spec_append_sep(acc, toks.first()), toks.drop_first())
    }
}

/// The label collection continued: `d` with each further label added
/// unless already present.
pub open spec fn spec_collect_onto(d: Seq<Seq<u8>>, labels: Seq<Seq<u8>>) -> Seq<Seq<u8>>
    decreases labels.len(),
{
    if labels.len() == 0 {
        d
    } else {
        spec_collect_onto(spec_add_label(d, labels.first()), labels.drop_first())
    }
}

/// Continuing a join by one more token appends it behind a separator.
pub proof fn lemma_join_onto_push(acc: Seq<u8>, toks: Seq<Seq<u8>>, t: Seq<u8>)
    ensures
        spec_join_onto(acc, toks.push(t)) == spec_append_sep(spec_join_onto(acc, toks), t),
    decreases toks.len(),
{
    if toks.len() == 0 {
        assert(toks.push(t).first() == t);
        assert(toks.push(t).drop_first() =~= Seq::<Seq<u8>>::empty());
        assert(spec_join_onto(acc, toks.push(t))
            == spec_join_onto(spec_append_sep(acc, t), Seq::<Seq<u8>>::empty()));
    } else {
        assert(toks.push(t).first() == toks.first());
        assert(toks.push(t).drop_first() =~= toks.drop_first().push(t));
        assert(spec_join_onto(acc, toks.push(t))
            == spec_join_onto(spec_append_sep(acc, toks.first()), toks.drop_first().push(t)));
        lemma_join_onto_push(spec_append_sep(acc, toks.first()), toks.drop_first(), t);
        assert(spec_join_onto(acc, toks)
            == spec_join_onto(spec_append_sep(acc, toks.first()), toks.drop_first()));
    }
}

/// A join continued from the empty string is the plain join.
pub proof fn lemma_join_onto_is_joined(toks: Seq<Seq<u8>>)
    ensures
        spec_join_onto(Seq::empty(), toks) == spec_joined(toks),
    decreases toks.len(),
{
    if toks.len() > 0 {
        lemma_join_onto_is_joined(toks.drop_last());
        lemma_join_onto_push(Seq::empty(), toks.drop_last(), toks.last());
        assert(toks.drop_last().push(toks.last()) =~= toks);
    }
}

/// Continuing a collection by one more label adds it unless present.
pub proof fn lemma_collect_onto_push(d: Seq<Seq<u8>>, labels: Seq<Seq<u8>>, l: Seq<u8>)
    ensures
        spec_collect_onto(d, labels.push(l)) == spec_add_label(spec_collect_onto(d, labels), l),
    decreases labels.len(),
{
    if labels.len() == 0 {
        assert(labels.push(l).first() == l);
        assert(labels.push(l).drop_first() =~= Seq::<Seq<u8>>::empty());
        assert(spec_collect_onto(d, labels.push(l))
            == spec_collect_onto(spec_add_label(d, l), Seq::<Seq<u8>>::empty()));
    } else {
        assert(labels.push(l).first() == labels.first());
        assert(labels.push(l).drop_first() =~= labels.drop_first().push(l));
        assert(spec_collect_onto(d, labels.push(l))
            == spec_collect_onto(spec_add_label(d, labels.first()), labels.drop_first().push(l)));
        lemma_collect_onto_push(spec_add_label(d, labels.first()), labels.drop_first(), l);
        assert(spec_collect_onto(d, labels)
            == spec_collect_onto(spec_add_label(d, labels.first()), labels.drop_first()));
    }
}

/// A collection continued from the empty one is the plain contributor set.
pub proof fn lemma_collect_onto_is_contributors(labels: Seq<Seq<u8>>)
    ensures
        spec_collect_onto(Seq::empty(), labels) == spec_contributors(labels),
    decreases labels.len(),
{
    if labels.len() > 0 {
        lemma_collect_onto_is_contributors(labels.drop_last());
        lemma_collect_onto_push(Seq::empty(), labels.drop_last(), labels.last());
        assert(labels.drop_last().push(labels.last()) =~= labels);
    }
}

/// The result of one generation run: the rendered token sequence and the
/// distinct labels of the sources that contributed at least one token.
#[derive(Debug)]
pub struct Output {
    pub books: Vec<Vec<u8>>,
    pub string: Vec<u8>,
}

impl Output {
    /// An empty output: no text, no contributors.
    pub fn new() -> (r: Output)
        ensures
            r.string@ == Seq::<u8>::empty(),
            r.books.deep_view() == Seq::<Seq<u8>>::empty(),
    {
        let r = Output { books: Vec::new(), string: Vec::new() };
        proof {
            assert(r.books.deep_view() =~= Seq::<Seq<u8>>::empty());
        }
        r
    }

    /// Appends one generated token, separating it from earlier text by a
    /// single space, and records its source label as a contributor; a label
    /// already present is not added again.
    pub fn append_entry(&mut self, book: &[u8], word: &[u8])
        ensures
            final(self).string@ == spec_append_sep(old(self).string@, word@),
            final(self).books.deep_view() == spec_add_label(old(self).books.deep_view(), book@),
    {
        self.add_book(book);
        if self.string.len() > 0 {
            self.string.push(32);
        }
        push_bytes(&mut self.string, word);
    }

    /// Records a contributing label, keeping the collection duplicate-free.
    fn add_book(&mut self, book: &[u8])
        ensures
            final(self).string == old(self).string,
            final(self).books.deep_view() == spec_add_label(old(self).books.deep_view(), book@),
    {
        let ghost dv = self.books.deep_view();
        let mut k: usize = 0;
        while k < self.books.len()
            invariant
                k <= self.books@.len(),
                dv == self.books.deep_view(),
                dv == old(self).books.deep_view(),
                self.string == old(self).string,
                forall|m: int| 0 <= m < k ==> self.books@[m]@ != book@,
            decreases self.books@.len() - k,
        {
            let hit = bytes_eq(self.books[k].as_slice(), book);
            if hit {
                proof {
                    assert(self.books.deep_view()[k as int] == self.books@[k as int]@);
                    assert(self.books.deep_view().contains(book@));
                }
                return;
            }
            k = k + 1;
        }
        proof {
            assert forall|m: int| 0 <= m < self.books.deep_view().len()
                implies self.books.deep_view()[m] != book@ by {
                assert(self.books.deep_view()[m] == self.books@[m]@);
            }
            assert(!self.books.deep_view().contains(book@));
        }
        self.books.push(vstd::slice::slice_to_vec(book));
        proof {
            crate::bytes_util::lemma_vec_u8_deep_view(self.books@[self.books@.len() - 1]);
            assert(self.books.deep_view() =~= dv.push(book@));
        }
    }
}

} // verus!
