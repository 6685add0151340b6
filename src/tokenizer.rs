//! The tokenizer: a character table built once, and the two scans over it.
use vstd::prelude::*;
use vstd::std_specs::iter::IteratorSpec;
use vstd::utf8::encode_scalar;

use std::borrow::Cow;

use crate::builder::SentenceTokenizerBuilder;
use crate::config::{default_config, is_line_break, lemma_tag_facts, Config};
use crate::nesting::{
    close_pair, depths_of, lemma_counter_le_total, lemma_total_update, lemma_total_zeros,
    open_pair, total, zeros,
};
use crate::scan::{
    concat_all, lemma_merged_round_trip, lemma_without_line_breaks_id, lemma_span_texts_push, merge_scan, merge_step,
    lemma_raw_spans_in_text, merged_sentences, raw_scan, raw_sentences, raw_spans, raw_step,
    span_texts, spans_ordered, without_line_breaks,
};
use crate::text::{
    byte_len, byte_length, lemma_byte_len_step, lemma_byte_len_strict, slice_between, trim,
    trimmed, utf8_width,
};
use crate::{CharTable, ControlFlow};

verus! {

/// Splits text into sentences at an end-of-sentence character, except inside
/// delimiter pairs.
#[derive(Clone)]
pub struct SentenceTokenizer {
    /// The end-of-sentence character.
    pub eos: char,
    pub(crate) eos_size: usize,
    pub(crate) num_parens: usize,
    pub(crate) char_table: CharTable,
    pub(crate) config: Ghost<Config>,
}

impl View for SentenceTokenizer {
    type V = Config;

    closed spec fn view(&self) -> Config {
        self.config@
    }
}

impl SentenceTokenizer {
    /// The table classifies every character as the configuration does.
    pub closed spec fn wf(&self) -> bool {
        &&& self.config@.wf()
        &&& self.char_table.wf()
        &&& forall|c: char| #[trigger] self.char_table.lookup(c) == self.config@.tag(c)
        &&& self.eos == self.config@.eos
        &&& self.eos_size == encode_scalar(self.eos as u32).len()
        &&& self.num_parens == self.config@.num_pairs()
    }

    /// A tokenizer over `char_table`, which classifies characters as `cfg` does.
    pub(crate) fn from_table(
        eos: char,
        num_parens: usize,
        char_table: CharTable,
        Ghost(cfg): Ghost<Config>,
    ) -> (r: SentenceTokenizer)
        requires
            cfg.wf(),
            char_table.wf(),
            forall|c: char| #[trigger] char_table.lookup(c) == cfg.tag(c),
            eos == cfg.eos,
            num_parens == cfg.num_pairs(),
        ensures
            r.wf(),
            r@ == cfg,
    {
        let eos_size = utf8_width(eos);
        SentenceTokenizer { eos, eos_size, num_parens, char_table, config: Ghost(cfg) }
    }

    fn char_to_control_flow(&self, ch: &char) -> (r: Option<&ControlFlow>)
        requires
            self.wf(),
        ensures
            r is Some <==> self@.tag(*ch) is Some,
            r is Some ==> *r->0 == self@.tag(*ch)->0,
    {
        self.char_table.get(*ch)
    }

    /// Appends the text between the byte offsets `*start` and `i` (character
    /// positions `cs` and `ci`) to `sentence`, and moves `*start` past the
    /// line break at `i`.
    pub fn process_line_breaks<'a>(
        &self,
        sentence: &mut String,
        start: &mut usize,
        i: usize,
        document: &'a str,
        Ghost(cs): Ghost<int>,
        Ghost(ci): Ghost<int>,
    )
        requires
            0 <= cs <= ci < document@.len(),
            *old(start) == byte_len(document@.take(cs)),
            i == byte_len(document@.take(ci)),
            is_line_break(document@[ci]),
        ensures
            final(sentence)@ == old(sentence)@ + document@.subrange(cs, ci),
            *final(start) == byte_len(document@.take(ci + 1)),
    {
        let len = byte_length(document);
        proof {
            lemma_byte_len_step(document@, ci);
            assert(i + 1 <= len);
        }
        let piece = slice_between(document, *start, i, Ghost(cs), Ghost(ci));
        sentence.append(piece);
        *start = i + 1;
    }

    /// Opens delimiter pair `flag_id`.
    pub fn process_left_parens(
        &self,
        flags: &mut Vec<usize>,
        nest_count: &mut usize,
        flag_id: usize,
    )
        requires
            flag_id < old(flags)@.len(),
            *old(nest_count) == total(depths_of(old(flags)@)),
            *old(nest_count) < usize::MAX,
        ensures
            final(flags)@.len() == old(flags)@.len(),
            depths_of(final(flags)@) == open_pair(depths_of(old(flags)@), flag_id as int),
            *final(nest_count) == *old(nest_count) + 1,
            *final(nest_count) == total(depths_of(final(flags)@)),
    {
        proof {
            lemma_counter_le_total(depths_of(flags@), flag_id as int);
            lemma_total_update(
                depths_of(flags@),
                flag_id as int,
                (flags@[flag_id as int] + 1) as nat,
            );
        }
        let depth = flags[flag_id];
        flags.set(flag_id, depth + 1);
        *nest_count += 1;
        assert(depths_of(flags@) =~= open_pair(depths_of(old(flags)@), flag_id as int));
    }

    /// Closes delimiter pair `flag_id` where it is open; where it is not,
    /// nothing changes.
    pub fn process_right_parens(
        &self,
        flags: &mut Vec<usize>,
        nest_count: &mut usize,
        flag_id: usize,
    )
        requires
            flag_id < old(flags)@.len(),
            *old(nest_count) == total(depths_of(old(flags)@)),
        ensures
            final(flags)@.len() == old(flags)@.len(),
            depths_of(final(flags)@) == close_pair(depths_of(old(flags)@), flag_id as int),
            *final(nest_count) == total(depths_of(final(flags)@)),
            *final(nest_count) <= *old(nest_count),
    {
        let depth = flags[flag_id];
        if depth > 0 {
            proof {
                lemma_counter_le_total(depths_of(flags@), flag_id as int);
                lemma_total_update(depths_of(flags@), flag_id as int, (depth - 1) as nat);
            }
            flags.set(flag_id, depth - 1);
            *nest_count -= 1;
            assert(depths_of(flags@) =~= close_pair(depths_of(old(flags)@), flag_id as int));
        }
    }
}

impl Default for SentenceTokenizer {
    /// The tokenizer of the default configuration.
    fn default() -> (r: SentenceTokenizer)
        ensures
            r.wf(),
            r@ == default_config(),
    {
        SentenceTokenizerBuilder::new().build()
    }
}

impl SentenceTokenizer {
    /// The sentences of `document` without its surrounding white space, in the
    /// merging mode (see [`SentenceTokenizer::scan_merged`]). Joined, they give
    /// back that text without its line breaks, and so exactly where it has none.
    pub fn tokenize<'a>(&self, document: &'a str) -> (r: Vec<Cow<'a, str>>)
        requires
            self.wf(),
        ensures
            r@.map_values(|x: Cow<'a, str>| x@) == merged_sentences(self@, trimmed(document@)),
            concat_all(r@.map_values(|x: Cow<'a, str>| x@)) == without_line_breaks(
                trimmed(document@),
            ),
            (forall|i: int|
                0 <= i < trimmed(document@).len() ==> !is_line_break(#[trigger] trimmed(document@)[i]))
                ==> concat_all(r@.map_values(|x: Cow<'a, str>| x@)) == trimmed(document@),
    {
        self.tokenize_ignore_line_breaks(document)
    }

    /// The sentences of `document` without its surrounding white space, in the
    /// merging mode (see [`SentenceTokenizer::scan_merged`]). Joined, they give
    /// back that text without its line breaks, and so exactly where it has none.
    pub fn tokenize_ignore_line_breaks<'a>(&self, document: &'a str) -> (r: Vec<Cow<'a, str>>)
        requires
            self.wf(),
        ensures
            r@.map_values(|x: Cow<'a, str>| x@) == merged_sentences(self@, trimmed(document@)),
            concat_all(r@.map_values(|x: Cow<'a, str>| x@)) == without_line_breaks(
                trimmed(document@),
            ),
            (forall|i: int|
                0 <= i < trimmed(document@).len() ==> !is_line_break(#[trigger] trimmed(document@)[i]))
                ==> concat_all(r@.map_values(|x: Cow<'a, str>| x@)) == trimmed(document@),
    {
        let document: &'a str = trim(document);
        proof {
            lemma_merged_round_trip(self@, document@);
            if forall|i: int| 0 <= i < document@.len() ==> !is_line_break(#[trigger] document@[i]) {
                lemma_without_line_breaks_id(document@);
            }
        }
        self.scan_merged(document)
    }

    /// The sentences of `document` without its surrounding white space, in the
    /// raw mode (see [`SentenceTokenizer::scan_raw`]).
    pub fn tokenize_raw<'a>(&self, document: &'a str) -> (r: Vec<&'a str>)
        requires
            self.wf(),
        ensures
            r@.map_values(|x: &'a str| x@) == raw_sentences(self@, trimmed(document@)),
            spans_ordered(raw_spans(self@, trimmed(document@)), trimmed(document@).len() as int),
    {
        let document: &'a str = trim(document);
        self.scan_raw(document)
    }

    /// The sentences of `text` in the merging mode: a line break is dropped and
    /// the lines on either side of it are joined. A sentence that needed no
    /// joining refers to `text`; a joined one owns its text.
    pub fn scan_merged<'a>(&self, text: &'a str) -> (r: Vec<Cow<'a, str>>)
        requires
            self.wf(),
        ensures
            r@.map_values(|x: Cow<'a, str>| x@) == merged_sentences(self@, text@),
    {
        let ghost cfg = self@;
        let ghost t = text@;
        let len: usize = byte_length(text);
        let mut start: usize = 0;
        let mut sentences: Vec<Cow<'a, str>> = Vec::new();
        let mut sentence: String = String::new();
        let mut flags: Vec<usize> = vec![0; self.num_parens];
        let mut nest_count: usize = 0;
        let mut i: usize = 0;
        let ghost mut k: int = 0;
        let ghost mut ks: int = 0;
        let mut chars = text.chars();
        proof {
            assert(t.take(0) =~= Seq::<char>::empty());
            assert(depths_of(flags@) =~= zeros(cfg.num_pairs()));
            lemma_total_zeros(cfg.num_pairs());
            assert(t.skip(0) =~= t);
        }
        loop
            invariant
                self.wf(),
                cfg == self@,
                t == text@,
                len == byte_len(t),
                0 <= ks <= k <= t.len(),
                k <= i,
                i == byte_len(t.take(k)),
                start == byte_len(t.take(ks)),
                chars.remaining() == t.skip(k),
                flags@.len() == cfg.num_pairs(),
                depths_of(flags@) == merge_scan(cfg, t.take(k)).depths,
                nest_count == total(depths_of(flags@)),
                nest_count <= k,
                sentence@ == merge_scan(cfg, t.take(k)).buf,
                t.subrange(ks, k) == merge_scan(cfg, t.take(k)).cur,
                sentences@.map_values(|x: Cow<'a, str>| x@) == merge_scan(cfg, t.take(k)).out,
            ensures
                k == t.len(),
            decreases t.len() - k,
        {
            let next = chars.next();
            let ch = match next {
                None => break,
                Some(ch) => ch,
            };
            let ghost before = merge_scan(cfg, t.take(k));
            proof {
                assert(ch == t[k]);
                lemma_byte_len_step(t, k);
                lemma_tag_facts(cfg, ch);
                assert(t.take(k + 1).drop_last() =~= t.take(k));
                assert(merge_scan(cfg, t.take(k + 1)) == merge_step(cfg, before, ch));
                assert(t.subrange(ks, k + 1) =~= before.cur.push(ch));
            }
            let w = utf8_width(ch);
            if let Some(flow) = self.char_to_control_flow(&ch) {
                match *flow {
                    ControlFlow::LineBreaks => {
                        self.process_line_breaks(
                            &mut sentence,
                            &mut start,
                            i,
                            text,
                            Ghost(ks),
                            Ghost(k),
                        );
                        proof {
                            ks = k + 1;
                        }
                    },
                    ControlFlow::LeftParens(flag_id) => {
                        self.process_left_parens(&mut flags, &mut nest_count, flag_id);
                    },
                    ControlFlow::RightParens(flag_id) => {
                        self.process_right_parens(&mut flags, &mut nest_count, flag_id);
                    },
                    ControlFlow::Eos => {
                        if nest_count == 0 {
                            let piece = slice_between(
                                text,
                                start,
                                i + self.eos_size,
                                Ghost(ks),
                                Ghost(k + 1),
                            );
                            let ghost emitted = before.buf + before.cur.push(ch);
                            if sentence.as_str().is_empty() {
                                assert(emitted =~= piece@);
                                sentences.push(Cow::Borrowed(piece));
                            } else {
                                sentence.append(piece);
                                assert(sentence@ =~= emitted);
                                sentences.push(Cow::Owned(sentence));
                                sentence = String::new();
                            }
                            assert(sentences@.map_values(|x: Cow<'a, str>| x@) =~= before.out.push(
                                emitted,
                            ));
                            start = i + self.eos_size;
                            proof {
                                ks = k + 1;
                            }
                        }
                    },
                }
            }
            i = i + w;
            proof {
                k = k + 1;
            }
            assert(sentences@.map_values(|x: Cow<'a, str>| x@) =~= merge_scan(cfg, t.take(k)).out);
            assert(t.subrange(ks, k) =~= merge_scan(cfg, t.take(k)).cur);
        }
        assert(t.take(k) =~= t);
        let ghost last = merge_scan(cfg, t);
        if start < i {
            let piece = slice_between(text, start, i, Ghost(ks), Ghost(k));
            if sentence.as_str().is_empty() {
                assert(last.buf + last.cur =~= piece@);
                sentences.push(Cow::Borrowed(piece));
            } else {
                sentence.append(piece);
                sentences.push(Cow::Owned(sentence));
            }
        } else {
            proof {
                if ks < k {
                    lemma_byte_len_strict(t, ks, k);
                }
            }
        }
        assert(sentences@.map_values(|x: Cow<'a, str>| x@) =~= merged_sentences(cfg, t));
        sentences
    }

    /// The sentences of `text` in the raw mode: every line break also ends a
    /// sentence and closes every delimiter pair, and empty sentences are left
    /// out. Each sentence refers to `text`.
    pub fn scan_raw<'a>(&self, text: &'a str) -> (r: Vec<&'a str>)
        requires
            self.wf(),
        ensures
            r@.map_values(|x: &'a str| x@) == raw_sentences(self@, text@),
            spans_ordered(raw_spans(self@, text@), text@.len() as int),
    {
        proof {
            lemma_raw_spans_in_text(self@, text@);
        }
        let ghost cfg = self@;
        let ghost t = text@;
        let len: usize = byte_length(text);
        let mut start: usize = 0;
        let mut sentences: Vec<&'a str> = Vec::new();
        let mut flags: Vec<usize> = vec![0; self.num_parens];
        let mut nest_count: usize = 0;
        let mut i: usize = 0;
        let ghost mut k: int = 0;
        let mut chars = text.chars();
        proof {
            assert(t.take(0) =~= Seq::<char>::empty());
            assert(depths_of(flags@) =~= zeros(cfg.num_pairs()));
            lemma_total_zeros(cfg.num_pairs());
            assert(t.skip(0) =~= t);
            assert(sentences@.map_values(|x: &'a str| x@) =~= span_texts(t, Seq::empty()));
        }
        loop
            invariant
                self.wf(),
                cfg == self@,
                t == text@,
                len == byte_len(t),
                0 <= raw_scan(cfg, t.take(k)).start <= k <= t.len(),
                k <= i,
                i == byte_len(t.take(k)),
                start == byte_len(t.take(raw_scan(cfg, t.take(k)).start)),
                chars.remaining() == t.skip(k),
                flags@.len() == cfg.num_pairs(),
                depths_of(flags@) == raw_scan(cfg, t.take(k)).depths,
                nest_count == total(depths_of(flags@)),
                nest_count <= k,
                sentences@.map_values(|x: &'a str| x@) == span_texts(
                    t,
                    raw_scan(cfg, t.take(k)).out,
                ),
            ensures
                k == t.len(),
            decreases t.len() - k,
        {
            let next = chars.next();
            let ch = match next {
                None => break,
                Some(ch) => ch,
            };
            let ghost before = raw_scan(cfg, t.take(k));
            proof {
                assert(ch == t[k]);
                lemma_byte_len_step(t, k);
                lemma_tag_facts(cfg, ch);
                assert(t.take(k + 1).drop_last() =~= t.take(k));
                assert(raw_scan(cfg, t.take(k + 1)) == raw_step(cfg, before, k, ch));
                if before.start < k {
                    lemma_byte_len_strict(t, before.start, k);
                }
            }
            let w = utf8_width(ch);
            if let Some(flow) = self.char_to_control_flow(&ch) {
                match *flow {
                    ControlFlow::LineBreaks => {
                        if i != start {
                            let piece = slice_between(
                                text,
                                start,
                                i,
                                Ghost(before.start),
                                Ghost(k),
                            );
                            let ghost prev = sentences@;
                            sentences.push(piece);
                            proof {
                                lemma_span_texts_push(t, before.out, (before.start, k));
                            }
                            assert(sentences@.map_values(|x: &'a str| x@) =~= prev.map_values(
                                |x: &'a str| x@,
                            ).push(piece@));
                        }
                        clear_depths(&mut flags);
                        nest_count = 0;
                        proof {
                            lemma_total_zeros(cfg.num_pairs());
                        }
                        start = i + 1;
                    },
                    ControlFlow::LeftParens(flag_id) => {
                        self.process_left_parens(&mut flags, &mut nest_count, flag_id);
                    },
                    ControlFlow::RightParens(flag_id) => {
                        self.process_right_parens(&mut flags, &mut nest_count, flag_id);
                    },
                    ControlFlow::Eos => {
                        if nest_count == 0 {
                            let piece = slice_between(
                                text,
                                start,
                                i + self.eos_size,
                                Ghost(before.start),
                                Ghost(k + 1),
                            );
                            let ghost prev = sentences@;
                            sentences.push(piece);
                            proof {
                                lemma_span_texts_push(t, before.out, (before.start, k + 1));
                            }
                            assert(sentences@.map_values(|x: &'a str| x@) =~= prev.map_values(
                                |x: &'a str| x@,
                            ).push(piece@));
                            start = i + self.eos_size;
                        }
                    },
                }
            }
            i = i + w;
            proof {
                k = k + 1;
            }
        }
        assert(t.take(k) =~= t);
        let ghost last = raw_scan(cfg, t);
        if start < i {
            let piece = slice_between(text, start, i, Ghost(last.start), Ghost(k));
            let ghost prev = sentences@;
            sentences.push(piece);
            proof {
                lemma_span_texts_push(t, last.out, (last.start, k));
            }
            assert(sentences@.map_values(|x: &'a str| x@) =~= prev.map_values(|x: &'a str| x@).push(
                piece@,
            ));
        } else {
            proof {
                if last.start < k {
                    lemma_byte_len_strict(t, last.start, k);
                }
            }
        }
        sentences
    }
}

/// Sets every counter to zero.
fn clear_depths(flags: &mut Vec<usize>)
    ensures
        final(flags)@.len() == old(flags)@.len(),
        depths_of(final(flags)@) == zeros(old(flags)@.len()),
{
    let mut j: usize = 0;
    while j < flags.len()
        invariant
            j <= flags@.len() == old(flags)@.len(),
            forall|i: int| 0 <= i < j ==> flags@[i] == 0,
        decreases flags@.len() - j,
    {
        flags.set(j, 0);
        j = j + 1;
    }
    assert(depths_of(flags@) =~= zeros(old(flags)@.len()));
}

} // verus!
