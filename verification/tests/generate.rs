use ngram_gen::corpus::BookNgrams;
use ngram_gen::output::Output;
use ngram_gen::rng::{fresh_walk_rng, WalkRng};

fn corpus(entries: &[(&str, &str)]) -> Vec<(Vec<u8>, Vec<u8>)> {
    entries
        .iter()
        .map(|(label, text)| (label.as_bytes().to_vec(), text.as_bytes().to_vec()))
        .collect()
}

#[test]
fn empty_corpus_generates_empty_output() {
    let books: Vec<(Vec<u8>, Vec<u8>)> = Vec::new();
    let model = BookNgrams::from_books(&books).unwrap();
    let mut rng = WalkRng::new(7);
    let out = model.generate(&mut rng, 1000);
    assert_eq!(out.string, Vec::<u8>::new());
    assert_eq!(out.books, Vec::<Vec<u8>>::new());
}

#[test]
fn single_token_corpus_walks_it() {
    // The only walk is: start context picks "x", then the end sentinel.
    let books = corpus(&[("b", "x")]);
    let model = BookNgrams::from_books(&books).unwrap();
    let mut rng = WalkRng::new(123456789);
    let out = model.generate(&mut rng, 1000);
    assert_eq!(out.string, b"x".to_vec());
    assert_eq!(out.books, vec![b"b".to_vec()]);
}

#[test]
fn single_line_corpus_reproduces_the_line() {
    // With one source line every context has exactly one candidate, so any
    // seed must walk the whole line in order.
    let books = corpus(&[("b", "one two three")]);
    let model = BookNgrams::from_books(&books).unwrap();
    for seed in [0u64, 1, 99, u64::MAX] {
        let mut rng = WalkRng::new(seed);
        let out = model.generate(&mut rng, 1000);
        assert_eq!(out.string, b"one two three".to_vec());
        assert_eq!(out.books, vec![b"b".to_vec()]);
    }
}

#[test]
fn fixed_seed_is_deterministic() {
    let books = corpus(&[
        ("book1", "the cat sat on the mat\nthe cat ran"),
        ("book2", "the dog sat on the rug\nthe dog slept"),
    ]);
    let model = BookNgrams::from_books(&books).unwrap();
    for seed in [0u64, 42, 0xDEADBEEF, u64::MAX] {
        let mut r1 = WalkRng::new(seed);
        let mut r2 = WalkRng::new(seed);
        let out1 = model.generate(&mut r1, 10_000);
        let out2 = model.generate(&mut r2, 10_000);
        assert_eq!(out1.string, out2.string);
        assert_eq!(out1.books, out2.books);
        assert_eq!(r1, r2);
    }
}

#[test]
fn generation_terminates_on_cyclic_corpus() {
    // "x x x x" lets the context (x, x, x) choose "x" again and again; the
    // step budget still bounds the walk.
    let books = corpus(&[("loop", "x x x x")]);
    let model = BookNgrams::from_books(&books).unwrap();
    let mut rng = WalkRng::new(5);
    let out = model.generate(&mut rng, 50);
    assert!(out.string.len() <= 2 * 50);
}

#[test]
fn contributors_are_collected_without_duplicates() {
    let books = corpus(&[("only", "a b c d e")]);
    let model = BookNgrams::from_books(&books).unwrap();
    let mut rng = WalkRng::new(11);
    let out = model.generate(&mut rng, 1000);
    // Five tokens all come from the same source, recorded once.
    assert_eq!(out.string, b"a b c d e".to_vec());
    assert_eq!(out.books, vec![b"only".to_vec()]);
}

#[test]
fn output_builder_joins_with_single_spaces() {
    let mut out = Output::new();
    out.append_entry(b"b1", b"hello");
    assert_eq!(out.string, b"hello".to_vec());
    out.append_entry(b"b2", b"world");
    assert_eq!(out.string, b"hello world".to_vec());
    out.append_entry(b"b1", b"again");
    assert_eq!(out.string, b"hello world again".to_vec());
    assert_eq!(out.books, vec![b"b1".to_vec(), b"b2".to_vec()]);
}

#[test]
fn walk_rng_draws_below_bound() {
    let mut rng = WalkRng::new(987654321);
    for bound in [1usize, 2, 3, 17, 1000] {
        for _ in 0..50 {
            let v = rng.next_below(bound);
            assert!(v < bound);
        }
    }
}

#[test]
fn fresh_rng_drives_a_generation() {
    // Exercises the ambient-randomness seeding end to end: whatever seed
    // comes out, the single-candidate walk below is forced.
    let books = corpus(&[("b", "w")]);
    let model = BookNgrams::from_books(&books).unwrap();
    let mut rng = fresh_walk_rng();
    let out = model.generate(&mut rng, 100);
    assert_eq!(out.string, b"w".to_vec());
}
