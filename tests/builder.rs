use saku::{CharTable, ControlFlow, SentenceTokenizerBuilder};

#[test]
fn builder_it_works() {
    let tokenizer = SentenceTokenizerBuilder::new()
        .eos('。')
        .patterns(&[['（', '）'], ['「', '」']])
        .build();
    assert_eq!('。', tokenizer.eos);
}

#[test]
fn builder_custom_eos_and_patterns() {
    let tokenizer = SentenceTokenizerBuilder::new()
        .eos('.')
        .patterns(&[['(', ')']])
        .build();
    assert_eq!('.', tokenizer.eos);
    let actual = tokenizer.tokenize("Hi. (a. b) c. Bye");
    assert_eq!(vec!["Hi.", " (a. b) c.", " Bye"], actual);
}

#[test]
fn builder_patterns_replace_defaults() {
    let tokenizer = SentenceTokenizerBuilder::new().patterns(&[['(', ')']]).build();
    // The corner brackets no longer delimit anything.
    let actual = tokenizer.tokenize("「a。b」c。");
    assert_eq!(vec!["「a。", "b」c。"], actual);
}

#[test]
fn builder_no_patterns() {
    let tokenizer = SentenceTokenizerBuilder::new().patterns(&[]).build();
    let actual = tokenizer.tokenize("（a。b）。");
    assert_eq!(vec!["（a。", "b）。"], actual);
}

#[test]
fn builder_eos_colliding_with_pattern_is_a_delimiter() {
    // The opening bracket is assigned after the end-of-sentence character.
    let tokenizer = SentenceTokenizerBuilder::new().eos('「').build();
    let actual = tokenizer.tokenize("a「b」c");
    assert_eq!(vec!["a「b」c"], actual);
}

#[test]
fn builder_shared_endpoint_last_pair_wins() {
    // '|' opens pair 0 and pair 1; the later pair wins, so it opens pair 1,
    // which only ']' closes.
    let tokenizer = SentenceTokenizerBuilder::new()
        .eos('.')
        .patterns(&[['|', ')'], ['|', ']']])
        .build();
    assert_eq!(vec!["|a) b. c]."], tokenizer.tokenize("|a) b. c]."));
}

#[test]
fn from_options_defaults() {
    let builder = SentenceTokenizerBuilder::from_options(None, None).unwrap();
    let tokenizer = builder.build();
    assert_eq!('。', tokenizer.eos);
    assert_eq!(vec!["「a。」b。", "c。"], tokenizer.tokenize("「a。」b。c。"));
}

#[test]
fn from_options_reads_first_characters() {
    let patterns = vec![String::from("()"), String::from("[]xyz")];
    let builder = SentenceTokenizerBuilder::from_options(Some("!?"), Some(&patterns)).unwrap();
    let tokenizer = builder.build();
    assert_eq!('!', tokenizer.eos);
    assert_eq!(vec!["a!", "(b!)[c!]d!", "?"], tokenizer.tokenize("a!(b!)[c!]d!?"));
}

#[test]
fn from_options_rejects_empty_eos() {
    assert!(SentenceTokenizerBuilder::from_options(Some(""), None).is_none());
}

#[test]
fn from_options_rejects_short_pattern() {
    let patterns = vec![String::from("()"), String::from("[")];
    assert!(SentenceTokenizerBuilder::from_options(None, Some(&patterns)).is_none());
    let empty = vec![String::new()];
    assert!(SentenceTokenizerBuilder::from_options(Some("."), Some(&empty)).is_none());
}

#[test]
fn char_table_insert_and_get() {
    let mut table = CharTable::default();
    assert!(table.get('a').is_none());
    table.insert('。', ControlFlow::Eos);
    table.insert('a', ControlFlow::LeftParens(3));
    assert_eq!(Some(&ControlFlow::Eos), table.get('。'));
    assert_eq!(Some(&ControlFlow::LeftParens(3)), table.get('a'));
    assert!(table.get('b').is_none());
    assert!(table.get('\u{10FFFF}').is_none());
    table.insert('a', ControlFlow::RightParens(1));
    assert_eq!(Some(&ControlFlow::RightParens(1)), table.get('a'));
    table.insert('\u{10FFFF}', ControlFlow::LineBreaks);
    assert_eq!(Some(&ControlFlow::LineBreaks), table.get('\u{10FFFF}'));
    assert_eq!(Some(&ControlFlow::Eos), table.get('。'));
}
