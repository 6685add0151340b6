//! Building a tokenizer from an end-of-sentence character and delimiter pairs.
use vstd::prelude::*;

use crate::config::{default_config, is_line_break, last_index_of, lemma_last_index_of_take, Config};
use crate::{CharTable, ControlFlow, SentenceTokenizer};

verus! {

/// The configuration of a [`SentenceTokenizer`] under construction.
#[derive(Clone, Debug)]
pub struct SentenceTokenizerBuilder {
    pub(crate) eos: char,
    pub(crate) left_patterns: Vec<char>,
    pub(crate) right_patterns: Vec<char>,
}

impl View for SentenceTokenizerBuilder {
    type V = Config;

    closed spec fn view(&self) -> Config {
        Config { eos: self.eos, lefts: self.left_patterns@, rights: self.right_patterns@ }
    }
}

/// The tags of the table while the opening characters of the first `j` pairs
/// are in it.
spec fn tag_with_lefts(cfg: Config, j: int, c: char) -> Option<ControlFlow> {
    if last_index_of(cfg.lefts.take(j), c) >= 0 {
        Some(ControlFlow::LeftParens(last_index_of(cfg.lefts.take(j), c) as usize))
    } else if c == cfg.eos {
        Some(ControlFlow::Eos)
    } else {
        None
    }
}

/// The tags of the table while all opening characters, and the closing
/// characters of the first `j` pairs, are in it.
spec fn tag_with_rights(cfg: Config, j: int, c: char) -> Option<ControlFlow> {
    if last_index_of(cfg.rights.take(j), c) >= 0 {
        Some(ControlFlow::RightParens(last_index_of(cfg.rights.take(j), c) as usize))
    } else {
        tag_with_lefts(cfg, cfg.lefts.len() as int, c)
    }
}

impl SentenceTokenizerBuilder {
    /// The default configuration.
    pub fn new() -> (r: SentenceTokenizerBuilder)
        ensures
            r@ == default_config(),
    {
        let r = SentenceTokenizerBuilder {
            eos: '。',
            left_patterns: vec!['（', '「', '『'],
            right_patterns: vec!['）', '」', '』'],
        };
        assert(r@.lefts =~= default_config().lefts);
        assert(r@.rights =~= default_config().rights);
        r
    }

    /// The same configuration with `eos` as the end-of-sentence character.
    pub fn eos(self, eos: char) -> (r: SentenceTokenizerBuilder)
        ensures
            r@ == (Config { eos, ..self@ }),
    {
        SentenceTokenizerBuilder {
            eos,
            left_patterns: self.left_patterns,
            right_patterns: self.right_patterns,
        }
    }

    /// The same configuration with `patterns` as the delimiter pairs, in order:
    /// `[open, close]` each.
    pub fn patterns(self, patterns: &[[char; 2]]) -> (r: SentenceTokenizerBuilder)
        ensures
            r@.eos == self@.eos,
            r@.lefts == patterns@.map_values(|p: [char; 2]| p@[0]),
            r@.rights == patterns@.map_values(|p: [char; 2]| p@[1]),
    {
        let mut left_patterns: Vec<char> = Vec::new();
        let mut right_patterns: Vec<char> = Vec::new();
        let mut j: usize = 0;
        while j < patterns.len()
            invariant
                j <= patterns@.len(),
                left_patterns@ =~= patterns@.take(j as int).map_values(|p: [char; 2]| p@[0]),
                right_patterns@ =~= patterns@.take(j as int).map_values(|p: [char; 2]| p@[1]),
            decreases patterns@.len() - j,
        {
            let p: [char; 2] = patterns[j];
            left_patterns.push(p[0]);
            right_patterns.push(p[1]);
            j = j + 1;
            assert(patterns@.take(j as int).drop_last() =~= patterns@.take(j - 1));
        }
        assert(patterns@.take(j as int) =~= patterns@);
        SentenceTokenizerBuilder { eos: self.eos, left_patterns, right_patterns }
    }

    /// The configuration that textual options describe, starting from the
    /// default one: `eos` gives the end-of-sentence character as its first
    /// character, and each of `patterns` gives a pair as its first two
    /// characters. `None` where `eos` is empty or a pattern has fewer than two
    /// characters.
    pub fn from_options(eos: Option<&str>, patterns: Option<&Vec<String>>) -> (r: Option<
        SentenceTokenizerBuilder,
    >)
        ensures
            r is Some <==> (eos matches Some(e) ==> e@.len() > 0) && (patterns matches Some(ps)
                ==> forall|i: int| 0 <= i < ps@.len() ==> (#[trigger] ps@[i])@.len() >= 2),
            r matches Some(b) ==> b@ == (Config {
                eos: if eos is Some {
                    eos->0@[0]
                } else {
                    default_config().eos
                },
                lefts: if patterns is Some {
                    patterns->0@.map_values(|s: String| s@[0])
                } else {
                    default_config().lefts
                },
                rights: if patterns is Some {
                    patterns->0@.map_values(|s: String| s@[1])
                } else {
                    default_config().rights
                },
            }),
    {
        let mut builder = SentenceTokenizerBuilder::new();
        if let Some(eos) = eos {
            let mut chars = eos.chars();
            match chars.next() {
                Some(ch) => {
                    builder = builder.eos(ch);
                },
                None => {
                    return None;
                },
            }
        }
        if let Some(ps) = patterns {
            let mut pairs: Vec<[char; 2]> = Vec::new();
            let mut j: usize = 0;
            while j < ps.len()
                invariant
                    patterns == Some(ps),
                    eos matches Some(e) ==> e@.len() > 0,
                    j <= ps@.len(),
                    pairs@.len() == j,
                    forall|i: int| 0 <= i < j ==> (#[trigger] ps@[i])@.len() >= 2,
                    forall|i: int|
                        0 <= i < j ==> (#[trigger] pairs@[i])@ == seq![
                            ps@[i]@[0],
                            ps@[i]@[1],
                        ],
                decreases ps@.len() - j,
            {
                let pattern: &str = ps[j].as_str();
                let mut chars = pattern.chars();
                let l = chars.next();
                let r = chars.next();
                match (l, r) {
                    (Some(l), Some(r)) => {
                        pairs.push([l, r]);
                    },
                    _ => {
                        assert(patterns->0@[j as int]@.len() < 2);
                        return None;
                    },
                }
                j = j + 1;
            }
            builder = builder.patterns(pairs.as_slice());
            assert(builder@.lefts =~= ps@.map_values(|s: String| s@[0]));
            assert(builder@.rights =~= ps@.map_values(|s: String| s@[1]));
        }
        Some(builder)
    }

    /// A tokenizer that classifies characters as this configuration does.
    pub fn build(&self) -> (r: SentenceTokenizer)
        requires
            self@.wf(),
        ensures
            r.wf(),
            r@ == self@,
    {
        let ghost cfg = self@;
        let eos = self.eos;
        let num_parens: usize = self.left_patterns.len();

        let mut char_table: CharTable = CharTable::default();
        char_table.insert(eos, ControlFlow::Eos);
        let mut flag_id: usize = 0;
        while flag_id < self.left_patterns.len()
            invariant
                cfg == self@,
                flag_id <= cfg.lefts.len(),
                char_table.wf(),
                forall|c: char|
                    #[trigger] char_table.lookup(c) == tag_with_lefts(cfg, flag_id as int, c),
            decreases cfg.lefts.len() - flag_id,
        {
            let l = self.left_patterns[flag_id];
            char_table.insert(l, ControlFlow::LeftParens(flag_id));
            proof {
                assert forall|c: char|
                    #[trigger] char_table.lookup(c) == tag_with_lefts(cfg, flag_id + 1, c) by {
                    lemma_last_index_of_take(cfg.lefts, flag_id as int, c);
                }
            }
            flag_id = flag_id + 1;
        }
        assert(cfg.lefts.take(cfg.lefts.len() as int) =~= cfg.lefts);
        let mut flag_id: usize = 0;
        while flag_id < self.right_patterns.len()
            invariant
                cfg == self@,
                flag_id <= cfg.rights.len(),
                char_table.wf(),
                forall|c: char|
                    #[trigger] char_table.lookup(c) == tag_with_rights(cfg, flag_id as int, c),
            decreases cfg.rights.len() - flag_id,
        {
            let r = self.right_patterns[flag_id];
            char_table.insert(r, ControlFlow::RightParens(flag_id));
            proof {
                assert forall|c: char|
                    #[trigger] char_table.lookup(c) == tag_with_rights(cfg, flag_id + 1, c) by {
                    lemma_last_index_of_take(cfg.rights, flag_id as int, c);
                }
            }
            flag_id = flag_id + 1;
        }
        assert(cfg.rights.take(cfg.rights.len() as int) =~= cfg.rights);
        char_table.insert('\n', ControlFlow::LineBreaks);
        char_table.insert('\r', ControlFlow::LineBreaks);
        assert forall|c: char| #[trigger] char_table.lookup(c) == cfg.tag(c) by {
            if !is_line_break(c) {
                assert(char_table.lookup(c) == tag_with_rights(cfg, cfg.rights.len() as int, c));
            }
        }
        SentenceTokenizer::from_table(eos, num_parens, char_table, Ghost(cfg))
    }
}

} // verus!
