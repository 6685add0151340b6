use std::borrow::Cow;

use saku::{SentenceTokenizer, SentenceTokenizerBuilder};

#[test]
fn merged_concatenation_gives_back_trimmed_input() {
    let document = "  どうもこんにちは。「どーも。」で囲んでいます。終わり \n";
    let tokenizer = SentenceTokenizer::default();
    let joined: String = tokenizer.tokenize(document).concat();
    assert_eq!(document.trim(), joined);
}

#[test]
fn merged_concatenation_drops_line_breaks() {
    let document = "a。b\nc。d\r\ne";
    let tokenizer = SentenceTokenizer::default();
    let actual = tokenizer.tokenize(document);
    assert_eq!(vec!["a。", "bc。", "de"], actual);
    assert_eq!("a。bc。de", actual.concat());
}

#[test]
fn merged_borrows_unless_lines_were_joined() {
    let tokenizer = SentenceTokenizer::default();
    let actual = tokenizer.tokenize("a。b\nc。d");
    assert!(matches!(actual[0], Cow::Borrowed("a。")));
    assert!(matches!(&actual[1], Cow::Owned(s) if s == "bc。"));
    assert!(matches!(actual[2], Cow::Borrowed("d")));
}

#[test]
fn eos_inside_brackets_does_not_split() {
    let tokenizer = SentenceTokenizer::default();
    assert_eq!(vec!["「a。b」c。"], tokenizer.tokenize("「a。b」c。"));
    assert_eq!(vec!["（a『b。』c。）d。"], tokenizer.tokenize("（a『b。』c。）d。"));
    assert_eq!(vec!["「a。b」c。"], tokenizer.tokenize_raw("「a。b」c。"));
}

#[test]
fn unterminated_bracket_keeps_rest_as_one_sentence() {
    let tokenizer = SentenceTokenizer::default();
    assert_eq!(vec!["a。", "「b。c。"], tokenizer.tokenize("a。「b。c。"));
}

#[test]
fn unmatched_closing_brackets_change_nothing() {
    let tokenizer = SentenceTokenizer::default();
    assert_eq!(vec!["」』a。", "b。"], tokenizer.tokenize("」』a。b。"));
    // Closing another pair does not close the open one.
    assert_eq!(vec!["「a）。b」。"], tokenizer.tokenize("「a）。b」。"));
    // After extra closes, an open bracket still nests.
    assert_eq!(vec!["」」「a。」。"], tokenizer.tokenize("」」「a。」。"));
}

#[test]
fn pair_order_does_not_matter() {
    let a = SentenceTokenizerBuilder::new()
        .patterns(&[['（', '）'], ['「', '」']])
        .build();
    let b = SentenceTokenizerBuilder::new()
        .patterns(&[['「', '」'], ['（', '）']])
        .build();
    let document = "x（a。「b。）c。」d。e「f。（g。」h。）i。j\n「k。l";
    assert_eq!(a.tokenize(document), b.tokenize(document));
    assert_eq!(a.tokenize_raw(document), b.tokenize_raw(document));
    assert_eq!(
        vec!["x（a。「b。）c。」d。", "e「f。（g。」h。）i。", "j「k。l"],
        a.tokenize(document)
    );
}

#[test]
fn raw_spans_point_into_the_input() {
    let document = String::from(" 吾輩は猫である。名前は\nまだない。「a\nb」。 ");
    let tokenizer = SentenceTokenizer::default();
    let actual = tokenizer.tokenize_raw(&document);
    assert_eq!(vec!["吾輩は猫である。", "名前は", "まだない。", "「a", "b」。"], actual);
    let begin = document.as_ptr() as usize;
    let end = begin + document.len();
    let mut previous_end = begin;
    for s in &actual {
        let p = s.as_ptr() as usize;
        assert!(previous_end <= p && p + s.len() <= end);
        assert_eq!(&document[p - begin..p - begin + s.len()], *s);
        previous_end = p + s.len();
    }
}

#[test]
fn raw_and_merged_differ_on_line_breaks() {
    let document = "吾輩は猫である。名前は\nまだない。";
    let tokenizer = SentenceTokenizer::default();
    assert_eq!(vec!["吾輩は猫である。", "名前は", "まだない。"], tokenizer.tokenize_raw(document));
    assert_eq!(vec!["吾輩は猫である。", "名前はまだない。"], tokenizer.tokenize(document));
}

#[test]
fn raw_drops_empty_fragments() {
    let tokenizer = SentenceTokenizer::default();
    assert_eq!(vec!["a。", "b", "c"], tokenizer.tokenize_raw("a。\n\nb\r\n\nc"));
}

#[test]
fn raw_line_break_closes_open_brackets() {
    let tokenizer = SentenceTokenizer::default();
    assert_eq!(vec!["「a", "b。", "c"], tokenizer.tokenize_raw("「a\nb。c"));
    // A closing bracket after the break finds nothing open.
    assert_eq!(vec!["「a", "」b。", "c。"], tokenizer.tokenize_raw("「a\n」b。c。"));
}

#[test]
fn merged_line_break_keeps_brackets_open() {
    let tokenizer = SentenceTokenizer::default();
    assert_eq!(vec!["「ab。c」。"], tokenizer.tokenize("「a\nb。c」。"));
}

#[test]
fn empty_and_blank_input() {
    let tokenizer = SentenceTokenizer::default();
    assert!(tokenizer.tokenize("").is_empty());
    assert!(tokenizer.tokenize(" \n\t　").is_empty());
    assert!(tokenizer.tokenize_raw("").is_empty());
    assert!(tokenizer.tokenize_raw("\r\n ").is_empty());
}

#[test]
fn surrounding_white_space_is_trimmed() {
    let tokenizer = SentenceTokenizer::default();
    assert_eq!(vec!["a。", "b c"], tokenizer.tokenize("\n  a。b c \t"));
    assert_eq!(vec!["a。", "b c"], tokenizer.tokenize_raw("\n  a。b c \t"));
}

#[test]
fn eos_alone_and_repeated() {
    let tokenizer = SentenceTokenizer::default();
    assert_eq!(vec!["。", "。", "a"], tokenizer.tokenize("。。a"));
    assert_eq!(vec!["。", "。", "a"], tokenizer.tokenize_raw("。。a"));
}

#[test]
fn scans_work_on_untrimmed_text() {
    let tokenizer = SentenceTokenizer::default();
    assert_eq!(vec![" a。", " b "], tokenizer.scan_merged(" a。 b "));
    assert_eq!(vec![" a。", " b "], tokenizer.scan_raw(" a。 b "));
}

#[test]
fn mixed_widths_are_sliced_on_character_boundaries() {
    let tokenizer = SentenceTokenizerBuilder::new().eos('😀').build();
    assert_eq!(vec!["aé😀", "「x😀」😀", "ü"], tokenizer.tokenize("aé😀「x😀」😀ü"));
}
