use ngram_gen::corpus::read_books;

#[test]
fn labels_come_from_file_stems() {
    let files = vec![
        (b"alice.sen".to_vec(), b"a b c".to_vec()),
        (b"tale.of.two".to_vec(), b"d e".to_vec()),
        (b"plain".to_vec(), b"f".to_vec()),
        (b".hidden".to_vec(), b"g".to_vec()),
    ];
    let entries = read_books(&files);
    assert_eq!(entries.len(), 4);
    assert_eq!(entries[0].0, b"alice".to_vec());
    assert_eq!(entries[1].0, b"tale.of".to_vec());
    assert_eq!(entries[2].0, b"plain".to_vec());
    assert_eq!(entries[3].0, b".hidden".to_vec());
}

#[test]
fn duplicate_stems_keep_one_entry() {
    // Two files sharing the stem "a": mapping semantics keep one entry, the
    // later file's text winning, at the stem's first position.
    let files = vec![
        (b"a.one".to_vec(), b"first text".to_vec()),
        (b"b.sen".to_vec(), b"bee".to_vec()),
        (b"a.two".to_vec(), b"second text".to_vec()),
    ];
    let entries = read_books(&files);
    assert_eq!(entries.len(), 2);
    assert_eq!(entries[0].0, b"a".to_vec());
    assert_eq!(entries[0].1, b"second text".to_vec());
    assert_eq!(entries[1].0, b"b".to_vec());
    assert_eq!(entries[1].1, b"bee".to_vec());
}

#[test]
fn carriage_returns_are_normalized_away() {
    let files = vec![(b"w.sen".to_vec(), b"one\r\ntwo\rthree\n".to_vec())];
    let entries = read_books(&files);
    assert_eq!(entries[0].1, b"one\ntwothree\n".to_vec());
}
