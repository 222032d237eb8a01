use ngram_gen::corpus::BookNgrams;
use ngram_gen::rng::WalkRng;

fn corpus(entries: &[(&str, &str)]) -> Vec<(Vec<u8>, Vec<u8>)> {
    entries
        .iter()
        .map(|(label, text)| (label.as_bytes().to_vec(), text.as_bytes().to_vec()))
        .collect()
}

#[test]
fn snapshot_round_trips_model_content() {
    let books = corpus(&[
        ("book1", "the cat sat on the mat"),
        ("book2", "the dog ran\nthe dog slept"),
    ]);
    let model = BookNgrams::from_books(&books).unwrap();
    let blob = model.serialize();
    let restored = BookNgrams::deserialize(blob.as_slice()).unwrap();
    assert_eq!(restored.0.len(), model.0.len());
    for (a, b) in model.0.iter().zip(restored.0.iter()) {
        assert_eq!(a.book, b.book);
        assert_eq!(a.content, b.content);
        assert_eq!(a.data.len(), b.data.len());
        for (x, y) in a.data.iter().zip(b.data.iter()) {
            assert_eq!(x, y);
        }
    }
}

#[test]
fn restored_model_generates_identically() {
    let books = corpus(&[
        ("book1", "the cat sat on the mat\nthe cat ran"),
        ("book2", "the dog sat on the rug"),
    ]);
    let model = BookNgrams::from_books(&books).unwrap();
    let blob = model.serialize();
    let restored = BookNgrams::deserialize(blob.as_slice()).unwrap();
    for seed in [0u64, 7, 1234567, u64::MAX] {
        let mut r1 = WalkRng::new(seed);
        let mut r2 = WalkRng::new(seed);
        let out1 = model.generate(&mut r1, 10_000);
        let out2 = restored.generate(&mut r2, 10_000);
        assert_eq!(out1.string, out2.string);
        assert_eq!(out1.books, out2.books);
    }
}

#[test]
fn empty_model_round_trips() {
    let model = BookNgrams::new();
    let blob = model.serialize();
    assert_eq!(blob.len(), 8);
    let restored = BookNgrams::deserialize(blob.as_slice()).unwrap();
    assert!(restored.is_empty());
}

#[test]
fn corrupt_blob_is_rejected() {
    // Too short for a count.
    assert!(BookNgrams::deserialize(&[1, 2, 3]).is_err());
    // Count with no sources behind it.
    let blob = 5u64.to_le_bytes().to_vec();
    assert!(BookNgrams::deserialize(blob.as_slice()).is_err());
    // Trailing garbage after a valid model.
    let model = BookNgrams::from_books(&corpus(&[("b", "x y")])).unwrap();
    let mut blob = model.serialize();
    blob.push(0);
    assert!(BookNgrams::deserialize(blob.as_slice()).is_err());
    // A record span pointing past the text is refused.
    let mut blob2: Vec<u8> = Vec::new();
    blob2.extend_from_slice(&1u64.to_le_bytes()); // one source
    blob2.extend_from_slice(&1u64.to_le_bytes()); // label "b"
    blob2.push(b'b');
    blob2.extend_from_slice(&1u64.to_le_bytes()); // text "x"
    blob2.push(b'x');
    blob2.extend_from_slice(&1u64.to_le_bytes()); // one record
    let bad_span = 0x0200_0005u32; // length 2 at offset 5, outside "x"
    for raw in [bad_span, 0, 0, 0] {
        blob2.extend_from_slice(&raw.to_le_bytes());
    }
    assert!(BookNgrams::deserialize(blob2.as_slice()).is_err());
}
