use diloco::CharTokenizer;

#[test]
fn vocabulary_is_sorted_and_without_repetition() {
    let tokenizer = CharTokenizer::from_text("hello world");
    assert_eq!(tokenizer.vocab_size(), 8);
    let ids: Vec<u32> = (0..8).collect();
    assert_eq!(tokenizer.decode(&ids), " dehlorw");
}

#[test]
fn corpus_round_trips() {
    let text = "Down, down, down.\nWould the fall never come to an end? \u{e9}\u{1f600}";
    let tokenizer = CharTokenizer::from_text(text);
    let ids = tokenizer.encode(text);
    assert_eq!(ids.len(), text.chars().count());
    assert_eq!(tokenizer.decode(&ids), text);
    assert!(ids.iter().all(|&id| (id as usize) < tokenizer.vocab_size()));
    assert_eq!(tokenizer.encode(&tokenizer.decode(&ids)), ids);
}

#[test]
fn ids_are_places_in_the_vocabulary() {
    let tokenizer = CharTokenizer::from_text("cab");
    assert_eq!(tokenizer.encode("abcba"), vec![0, 1, 2, 1, 0]);
}

#[test]
fn unknown_characters_and_ids_are_left_out() {
    let tokenizer = CharTokenizer::from_text("abc");
    assert_eq!(tokenizer.encode("axbyc"), vec![0, 1, 2]);
    assert_eq!(tokenizer.decode(&[0, 7, 2, u32::MAX]), "ac");
}

#[test]
fn same_characters_give_the_same_vocabulary() {
    let a = CharTokenizer::from_text("banana");
    let b = CharTokenizer::from_text("nab");
    assert_eq!(a.vocab_size(), b.vocab_size());
    assert_eq!(a.encode("ban"), b.encode("ban"));
}

#[test]
fn empty_text_has_no_vocabulary() {
    let tokenizer = CharTokenizer::from_text("");
    assert_eq!(tokenizer.vocab_size(), 0);
    assert_eq!(tokenizer.encode("abc"), Vec::<u32>::new());
    assert_eq!(tokenizer.decode(&[0]), "");
}
