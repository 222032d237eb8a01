use ngram_gen::corpus::BookNgrams;
use ngram_gen::ngram::BookNgram;
use ngram_gen::span::EncodingOverflow;

fn corpus(entries: &[(&str, &str)]) -> Vec<(Vec<u8>, Vec<u8>)> {
    entries
        .iter()
        .map(|(label, text)| (label.as_bytes().to_vec(), text.as_bytes().to_vec()))
        .collect()
}

#[test]
fn scenario_single_book_records() {
    let books = corpus(&[("book1", "the cat sat")]);
    let model = BookNgrams::from_books(&books).unwrap();
    assert_eq!(model.0.len(), 1);
    let b = &model.0[0];
    assert_eq!(b.book, b"book1".to_vec());
    let c = b.content.as_slice();
    // One record per window position: three real tokens give four records.
    assert_eq!(b.data.len(), 4);
    // Context (sentinel, sentinel, sentinel) predicting "the".
    let d = &b.data[0];
    assert_eq!(d.pp_prev(c), b"" as &[u8]);
    assert_eq!(d.p_prev(c), b"" as &[u8]);
    assert_eq!(d.prev(c), b"" as &[u8]);
    assert_eq!(d.current(c), b"the" as &[u8]);
    // Context (sentinel, sentinel, "the") predicting "cat".
    let d = &b.data[1];
    assert_eq!(d.pp_prev(c), b"" as &[u8]);
    assert_eq!(d.p_prev(c), b"" as &[u8]);
    assert_eq!(d.prev(c), b"the" as &[u8]);
    assert_eq!(d.current(c), b"cat" as &[u8]);
    // Context (sentinel, "the", "cat") predicting "sat".
    let d = &b.data[2];
    assert_eq!(d.prev(c), b"cat" as &[u8]);
    assert_eq!(d.current(c), b"sat" as &[u8]);
    // Final record predicts the end-of-sequence sentinel.
    let d = &b.data[3];
    assert_eq!(d.pp_prev(c), b"the" as &[u8]);
    assert_eq!(d.p_prev(c), b"cat" as &[u8]);
    assert_eq!(d.prev(c), b"sat" as &[u8]);
    assert_eq!(d.current(c), b"" as &[u8]);
}

#[test]
fn scenario_two_books_search() {
    let books = corpus(&[("book1", "the cat sat"), ("book2", "the dog ran")]);
    let model = BookNgrams::from_books(&books).unwrap();
    let hits = model.search(b"", b"", b"the");
    assert_eq!(hits.len(), 2);
    let c1 = model.0[hits[0].book].content.as_slice();
    let c2 = model.0[hits[1].book].content.as_slice();
    assert_eq!(hits[0].book, 0);
    assert_eq!(hits[0].ngram.current(c1), b"cat" as &[u8]);
    assert_eq!(hits[1].book, 1);
    assert_eq!(hits[1].ngram.current(c2), b"dog" as &[u8]);
}

#[test]
fn search_is_exact_no_prefix_match() {
    let books = corpus(&[("b", "them the")]);
    let model = BookNgrams::from_books(&books).unwrap();
    // "the" must not match the longer token "them": the only context whose
    // last token is "the" also carries "them" before it, so this query has
    // no hit at all.
    let hits = model.search(b"", b"", b"the");
    assert_eq!(hits.len(), 0);
    // The record after "them" predicts "the".
    let hits = model.search(b"", b"", b"them");
    assert_eq!(hits.len(), 1);
    let c = model.0[hits[0].book].content.as_slice();
    assert_eq!(hits[0].ngram.current(c), b"the" as &[u8]);
    // The full context ("", "them", "the") closes the line with a sentinel.
    let hits = model.search(b"", b"them", b"the");
    assert_eq!(hits.len(), 1);
    let c = model.0[hits[0].book].content.as_slice();
    assert_eq!(hits[0].ngram.current(c), b"" as &[u8]);
}

#[test]
fn blank_lines_and_spacing_yield_no_records() {
    let books = corpus(&[("a", "   \n\n x \n")]);
    let model = BookNgrams::from_books(&books).unwrap();
    let b = &model.0[0];
    // Only the line holding "x" produces records: one predicting "x" from
    // the all-sentinel context and one predicting the end sentinel.
    assert_eq!(b.data.len(), 2);
    let c = b.content.as_slice();
    assert_eq!(b.data[0].current(c), b"x" as &[u8]);
    assert_eq!(b.data[1].current(c), b"" as &[u8]);
}

#[test]
fn vertical_tab_and_form_feed_separate_tokens() {
    // All six ASCII whitespace bytes split tokens; here a vertical tab and
    // a form feed stand between three one-byte tokens.
    let books = vec![(b"w".to_vec(), b"x\x0by\x0cz".to_vec())];
    let model = BookNgrams::from_books(&books).unwrap();
    let b = &model.0[0];
    // Three tokens give four records.
    assert_eq!(b.data.len(), 4);
    let c = b.content.as_slice();
    assert_eq!(b.data[0].current(c), b"x" as &[u8]);
    assert_eq!(b.data[1].current(c), b"y" as &[u8]);
    assert_eq!(b.data[2].current(c), b"z" as &[u8]);
    assert_eq!(b.data[3].current(c), b"" as &[u8]);
}

#[test]
fn oversized_token_fails_construction() {
    let long = "y".repeat(256);
    let r = BookNgram::new(long.as_bytes(), b"big");
    assert_eq!(r.err(), Some(EncodingOverflow));
    // A 255-byte token is still representable.
    let ok = "y".repeat(255);
    assert!(BookNgram::new(ok.as_bytes(), b"ok").is_ok());
}

#[test]
fn oversized_token_fails_corpus_build() {
    let long = format!("small words {}", "z".repeat(300));
    let books = corpus(&[("good", "a b"), ("bad", &long)]);
    assert_eq!(BookNgrams::from_books(&books).err(), Some(EncodingOverflow));
}

#[test]
fn empty_corpus_builds_and_is_flagged() {
    let books: Vec<(Vec<u8>, Vec<u8>)> = Vec::new();
    let model = BookNgrams::from_books(&books).unwrap();
    assert!(model.is_empty());
    let model2 = BookNgrams::new();
    assert!(model2.is_empty());
    let small = corpus(&[("a", "x")]);
    assert!(!BookNgrams::from_books(&small).unwrap().is_empty());
}
