//! The mathematical model of a tokenizer's configuration and of the tag it
//! gives each character.
use vstd::prelude::*;

use crate::ControlFlow;

verus! {

/// An end-of-sentence character and an ordered list of delimiter pairs:
/// pair `j` opens with `lefts[j]` and closes with `rights[j]`.
pub struct Config {
    pub eos: char,
    pub lefts: Seq<char>,
    pub rights: Seq<char>,
}

/// The largest index at which `c` occurs in `s`, or -1 where it does not occur.
pub open spec fn last_index_of(s: Seq<char>, c: char) -> int
    decreases s.len(),
{
    if s.len() == 0 {
        -1
    } else if s.last() == c {
        s.len() - 1
    } else {
        last_index_of(s.drop_last(), c)
    }
}

/// `\n` and `\r`, the two line-break characters.
pub open spec fn is_line_break(c: char) -> bool {
    c == '\n' || c == '\r'
}

impl Config {
    /// Every pair has both of its characters.
    pub open spec fn wf(self) -> bool {
        self.lefts.len() == self.rights.len()
    }

    /// The number of delimiter pairs.
    pub open spec fn num_pairs(self) -> nat {
        self.lefts.len()
    }

    /// The tag of `c`. Where one character is given several roles, the last one
    /// assigned wins, in this order: the end-of-sentence marker, the opening
    /// characters in pair order, the closing characters in pair order, and the
    /// line breaks.
    pub open spec fn tag(self, c: char) -> Option<ControlFlow> {
        if is_line_break(c) {
            Some(ControlFlow::LineBreaks)
        } else if last_index_of(self.rights, c) >= 0 {
            Some(ControlFlow::RightParens(last_index_of(self.rights, c) as usize))
        } else if last_index_of(self.lefts, c) >= 0 {
            Some(ControlFlow::LeftParens(last_index_of(self.lefts, c) as usize))
        } else if c == self.eos {
            Some(ControlFlow::Eos)
        } else {
            None
        }
    }
}

/// The default configuration: the ideographic full stop ends a sentence, and
/// the fullwidth parentheses, the corner brackets and the white corner brackets
/// delimit nested text.
pub open spec fn default_config() -> Config {
    Config {
        eos: '。',
        lefts: seq!['（', '「', '『'],
        rights: seq!['）', '」', '』'],
    }
}

/// `last_index_of` is -1 or an index at which `c` occurs.
pub proof fn lemma_last_index_of_bounds(s: Seq<char>, c: char)
    ensures
        -1 <= last_index_of(s, c) < s.len(),
        last_index_of(s, c) >= 0 ==> s[last_index_of(s, c)] == c,
        last_index_of(s, c) == -1 ==> !s.contains(c),
    decreases s.len(),
{
    if s.len() > 0 {
        lemma_last_index_of_bounds(s.drop_last(), c);
        if s.last() != c && last_index_of(s, c) == -1 {
            assert forall|i: int| 0 <= i < s.len() implies s[i] != c by {
                if i < s.len() - 1 {
                    assert(s.drop_last()[i] == s[i]);
                }
            }
        }
    }
}

/// Looking one element further: the last index of `c` in `s.take(j + 1)`.
pub proof fn lemma_last_index_of_take(s: Seq<char>, j: int, c: char)
    requires
        0 <= j < s.len(),
    ensures
        last_index_of(s.take(j + 1), c) == if s[j] == c {
            j
        } else {
            last_index_of(s.take(j), c)
        },
{
    assert(s.take(j + 1).drop_last() =~= s.take(j));
}

/// Under a well-formed configuration, each tag is one the scanner can act on:
/// the end-of-sentence tag marks the configured character, a line-break tag
/// marks `\n` or `\r`, and a pair index is below the number of pairs.
pub proof fn lemma_tag_facts(cfg: Config, c: char)
    requires
        cfg.wf(),
    ensures
        cfg.tag(c) == Some(ControlFlow::Eos) ==> c == cfg.eos,
        cfg.tag(c) == Some(ControlFlow::LineBreaks) ==> is_line_break(c),
        cfg.tag(c) matches Some(ControlFlow::LeftParens(j)) ==> j < cfg.num_pairs(),
        cfg.tag(c) matches Some(ControlFlow::RightParens(j)) ==> j < cfg.num_pairs(),
{
    lemma_last_index_of_bounds(cfg.lefts, c);
    lemma_last_index_of_bounds(cfg.rights, c);
}

} // verus!
