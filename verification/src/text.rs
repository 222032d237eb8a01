//! Whitespace tokenization over byte buffers.
//!
//! A line is a maximal newline-free range of the buffer; a token is a maximal
//! run of non-whitespace bytes inside a line.  The spec functions here define
//! both, and the scanners are proved to produce exactly what the spec
//! functions describe.

use vstd::prelude::*;

verus! {

/// Whether a byte separates tokens: the ASCII whitespace bytes, that is
/// space, tab, line feed, vertical tab, form feed and carriage return.
pub open spec fn spec_is_space(b: u8) -> bool {
    b == 32 || (9 <= b && b <= 13)
}

/// Executable form of `spec_is_space`.
pub fn is_space(b: u8) -> (r: bool)
    ensures
        r == spec_is_space(b),
{
    b == 32 || (9 <= b && b <= 13)
}

/// The end of the token that starts at `i`: the first position in `[i, le]`
/// that is `le` itself or holds a whitespace byte.
pub open spec fn token_end(s: Seq<u8>, i: int, le: int) -> int
    decreases le - i,
{
    if i >= le {
        le
    } else if spec_is_space(s[i]) {
        i
    } else {
        token_end(s, i + 1, le)
    }
}

/// `token_end` stays within `[i, le]`, and moves strictly forward when it
/// starts on a non-whitespace byte.
pub proof fn lemma_token_end_bounds(s: Seq<u8>, i: int, le: int)
    requires
        i <= le,
    ensures
        i <= token_end(s, i, le) <= le,
        i < le && !spec_is_space(s[i]) ==> token_end(s, i, le) > i,
        token_end(s, i, le) < le ==> spec_is_space(s[token_end(s, i, le)]),
    decreases le - i,
{
    if i >= le {
    } else if spec_is_space(s[i]) {
    } else {
        lemma_token_end_bounds(s, i + 1, le);
    }
}

/// The (start, length) pairs of the whitespace-separated tokens of
/// `s[i .. le]`, in order of appearance.
pub open spec fn spec_tokens(s: Seq<u8>, i: int, le: int) -> Seq<(int, int)>
    decreases le - i,
    via spec_tokens_decreases
{
    if i >= le {
        Seq::empty()
    } else if spec_is_space(s[i]) {
        spec_tokens(s, i + 1, le)
    } else {
        seq![(i, token_end(s, i, le) - i)] + spec_tokens(s, token_end(s, i, le), le)
    }
}

#[via_fn]
proof fn spec_tokens_decreases(s: Seq<u8>, i: int, le: int) {
    if i < le && !spec_is_space(s[i]) {
        lemma_token_end_bounds(s, i, le);
    }
}

/// Every token of `s[i .. le]` is a non-empty range inside `[i, le]`, and
/// there are at most `le - i` of them.
pub proof fn lemma_tokens_in_range(s: Seq<u8>, i: int, le: int)
    requires
        i <= le,
    ensures
        2 * spec_tokens(s, i, le).len() <= le - i + 1,
        forall|k: int| 0 <= k < spec_tokens(s, i, le).len()
            ==> i <= (#[trigger] spec_tokens(s, i, le)[k]).0
                && spec_tokens(s, i, le)[k].0 + spec_tokens(s, i, le)[k].1 <= le
                && spec_tokens(s, i, le)[k].1 >= 1,
    decreases le - i,
{
    if i >= le {
    } else if spec_is_space(s[i]) {
        lemma_tokens_in_range(s, i + 1, le);
    } else {
        lemma_token_end_bounds(s, i, le);
        let te = token_end(s, i, le);
        let toks = spec_tokens(s, i, le);
        let rest = spec_tokens(s, te, le);
        if te < le {
            // The token is followed by a separator byte, so the remaining
            // tokens all live in the shorter range past it.
            lemma_tokens_in_range(s, te + 1, le);
            assert(rest == spec_tokens(s, te + 1, le));
        } else {
            lemma_tokens_in_range(s, te, le);
        }
        assert forall|k: int| 0 <= k < toks.len()
            implies i <= (#[trigger] toks[k]).0 && toks[k].0 + toks[k].1 <= le && toks[k].1 >= 1 by {
            if k > 0 {
                assert(toks[k] == rest[k - 1]);
                if te < le {
                    lemma_tokens_in_range(s, te + 1, le);
                } else {
                    lemma_tokens_in_range(s, te, le);
                }
            }
        }
    }
}

/// The integer view of a vector of (start, length) pairs.
pub open spec fn pairs_view(v: Seq<(usize, usize)>) -> Seq<(int, int)> {
    Seq::new(v.len(), |k: int| (v[k].0 as int, v[k].1 as int))
}

/// Collects the whitespace-separated tokens of `content[ls .. le]` as
/// (start, length) pairs, exactly as `spec_tokens` lists them.
pub fn scan_tokens(content: &[u8], ls: usize, le: usize) -> (r: Vec<(usize, usize)>)
    requires
        ls <= le <= content@.len(),
    ensures
        pairs_view(r@) == spec_tokens(content@, ls as int, le as int),
{
    let ghost s = content@;
    let ghost full = spec_tokens(s, ls as int, le as int);
    let mut r: Vec<(usize, usize)> = Vec::new();
    let mut i: usize = ls;
    while i < le
        invariant
            ls <= i <= le <= content@.len(),
            s == content@,
            full == spec_tokens(s, ls as int, le as int),
            full == pairs_view(r@) + spec_tokens(s, i as int, le as int),
        decreases le - i,
    {
        if is_space(content[i]) {
            i = i + 1;
        } else {
            let start: usize = i;
            let mut j: usize = i;
            while j < le && !is_space(content[j])
                invariant
                    ls <= i <= j <= le <= content@.len(),
                    s == content@,
                    token_end(s, i as int, le as int) == token_end(s, j as int, le as int),
                decreases le - j,
            {
                j = j + 1;
            }
            proof {
                assert(token_end(s, j as int, le as int) == j);
                lemma_token_end_bounds(s, i as int, le as int);
            }
            r.push((start, j - start));
            proof {
                let te = j as int;
                assert(spec_tokens(s, i as int, le as int)
                    == seq![(i as int, te - i)] + spec_tokens(s, te, le as int));
                assert(pairs_view(r@) =~= pairs_view(r@.drop_last()) + seq![(i as int, te - i)]);
                assert(full =~= pairs_view(r@) + spec_tokens(s, te, le as int));
            }
            i = j;
        }
    }
    proof {
        assert(spec_tokens(s, i as int, le as int) =~= Seq::<(int, int)>::empty());
        assert(full =~= pairs_view(r@));
    }
    r
}

/// The end of the line that starts at `i`: the first position at or after
/// `i` holding a line-feed byte, or the end of the buffer.
pub open spec fn line_end(s: Seq<u8>, i: int) -> int
    decreases s.len() - i,
{
    if i >= s.len() {
        s.len() as int
    } else if s[i] == 10 {
        i
    } else {
        line_end(s, i + 1)
    }
}

/// `line_end` stays within `[i, s.len()]`, is the first line feed at or
/// after `i`, and nothing before it in the line is a line feed.
pub proof fn lemma_line_end_bounds(s: Seq<u8>, i: int)
    requires
        i <= s.len(),
    ensures
        i <= line_end(s, i) <= s.len(),
        line_end(s, i) < s.len() ==> s[line_end(s, i)] == 10,
        forall|j: int| i <= j < line_end(s, i) ==> s[j] != 10,
    decreases s.len() - i,
{
    if i >= s.len() {
    } else if s[i] == 10 {
    } else {
        lemma_line_end_bounds(s, i + 1);
    }
}

/// Finds the end of the line starting at `i`, exactly as `line_end`
/// describes it.
pub fn find_line_end(content: &[u8], i: usize) -> (r: usize)
    requires
        i <= content@.len(),
    ensures
        r == line_end(content@, i as int),
        i <= r <= content@.len(),
{
    let ghost s = content@;
    let mut j: usize = i;
    while j < content.len() && content[j] != 10
        invariant
            i <= j <= content@.len(),
            s == content@,
            line_end(s, i as int) == line_end(s, j as int),
        decreases content@.len() - j,
    {
        j = j + 1;
    }
    proof {
        lemma_line_end_bounds(s, i as int);
    }
    j
}

} // verus!
