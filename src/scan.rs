//! What a scan returns, stated as state machines over the characters of the
//! text: one for the merging mode, which joins lines, and one for the raw mode,
//! which splits at every line break.
use vstd::prelude::*;

use crate::config::{is_line_break, last_index_of, lemma_tag_facts, Config};
use crate::nesting::{close_pair, lemma_total_positive, open_pair, total, zeros};
use crate::ControlFlow;

verus! {

/// The state of a merging scan after a prefix of the text: the nesting
/// depths, the text kept from earlier lines of the pending sentence (`buf`),
/// the pending sentence's text on the current line (`cur`), and the sentences
/// emitted so far.
pub struct MergeScan {
    pub depths: Seq<nat>,
    pub buf: Seq<char>,
    pub cur: Seq<char>,
    pub out: Seq<Seq<char>>,
}

/// One character of a merging scan. A line break is dropped and joins the two
/// lines; an end-of-sentence character outside every delimiter pair ends the
/// pending sentence, itself included.
pub open spec fn merge_step(cfg: Config, s: MergeScan, c: char) -> MergeScan {
    match cfg.tag(c) {
        Some(ControlFlow::LineBreaks) => MergeScan {
            depths: s.depths,
            buf: s.buf + s.cur,
            cur: Seq::empty(),
            out: s.out,
        },
        Some(ControlFlow::LeftParens(j)) => MergeScan {
            depths: open_pair(s.depths, j as int),
            buf: s.buf,
            cur: s.cur.push(c),
            out: s.out,
        },
        Some(ControlFlow::RightParens(j)) => MergeScan {
            depths: close_pair(s.depths, j as int),
            buf: s.buf,
            cur: s.cur.push(c),
            out: s.out,
        },
        Some(ControlFlow::Eos) => if total(s.depths) > 0 {
            MergeScan { depths: s.depths, buf: s.buf, cur: s.cur.push(c), out: s.out }
        } else {
            MergeScan {
                depths: s.depths,
                buf: Seq::empty(),
                cur: Seq::empty(),
                out: s.out.push(s.buf + s.cur.push(c)),
            }
        },
        None => MergeScan { depths: s.depths, buf: s.buf, cur: s.cur.push(c), out: s.out },
    }
}

/// The state of a merging scan after all of `text`.
pub open spec fn merge_scan(cfg: Config, text: Seq<char>) -> MergeScan
    decreases text.len(),
{
    if text.len() == 0 {
        MergeScan {
            depths: zeros(cfg.num_pairs()),
            buf: Seq::empty(),
            cur: Seq::empty(),
            out: Seq::empty(),
        }
    } else {
        merge_step(cfg, merge_scan(cfg, text.drop_last()), text.last())
    }
}

/// The sentences of `text` in the merging mode: those the scan emitted, then
/// the unfinished one, where text follows the last boundary or line break.
pub open spec fn merged_sentences(cfg: Config, text: Seq<char>) -> Seq<Seq<char>> {
    let s = merge_scan(cfg, text);
    if s.cur.len() > 0 {
        s.out.push(s.buf + s.cur)
    } else {
        s.out
    }
}

/// The state of a raw scan after a prefix of the text: the nesting depths, the
/// position where the pending sentence starts, and the spans `[start, end)`
/// of the sentences emitted so far.
pub struct RawScan {
    pub depths: Seq<nat>,
    pub start: int,
    pub out: Seq<(int, int)>,
}

/// The character `c` at position `k` of a raw scan. A line break ends the
/// pending sentence, itself excluded and unless it is empty, and closes every
/// delimiter pair; an end-of-sentence character outside every pair ends the
/// pending sentence, itself included.
pub open spec fn raw_step(cfg: Config, s: RawScan, k: int, c: char) -> RawScan {
    match cfg.tag(c) {
        Some(ControlFlow::LineBreaks) => RawScan {
            depths: zeros(cfg.num_pairs()),
            start: k + 1,
            out: if s.start < k {
                s.out.push((s.start, k))
            } else {
                s.out
            },
        },
        Some(ControlFlow::LeftParens(j)) => RawScan {
            depths: open_pair(s.depths, j as int),
            start: s.start,
            out: s.out,
        },
        Some(ControlFlow::RightParens(j)) => RawScan {
            depths: close_pair(s.depths, j as int),
            start: s.start,
            out: s.out,
        },
        Some(ControlFlow::Eos) => if total(s.depths) > 0 {
            s
        } else {
            RawScan { depths: s.depths, start: k + 1, out: s.out.push((s.start, k + 1)) }
        },
        None => s,
    }
}

/// The state of a raw scan after all of `text`.
pub open spec fn raw_scan(cfg: Config, text: Seq<char>) -> RawScan
    decreases text.len(),
{
    if text.len() == 0 {
        RawScan { depths: zeros(cfg.num_pairs()), start: 0, out: Seq::empty() }
    } else {
        raw_step(cfg, raw_scan(cfg, text.drop_last()), text.len() - 1, text.last())
    }
}

/// The spans of the sentences of `text` in the raw mode: those the scan
/// emitted, then the unfinished one, where it is not empty.
pub open spec fn raw_spans(cfg: Config, text: Seq<char>) -> Seq<(int, int)> {
    let s = raw_scan(cfg, text);
    if s.start < text.len() {
        s.out.push((s.start, text.len() as int))
    } else {
        s.out
    }
}

/// The text of each span.
pub open spec fn span_texts(text: Seq<char>, spans: Seq<(int, int)>) -> Seq<Seq<char>> {
    spans.map_values(|p: (int, int)| text.subrange(p.0, p.1))
}

/// One more span adds its text.
pub proof fn lemma_span_texts_push(text: Seq<char>, spans: Seq<(int, int)>, p: (int, int))
    ensures
        span_texts(text, spans.push(p)) == span_texts(text, spans).push(text.subrange(p.0, p.1)),
{
    let pushed = span_texts(text, spans).push(text.subrange(p.0, p.1));
    assert(span_texts(text, spans.push(p)) =~= pushed);
}

/// The sentences of `text` in the raw mode.
pub open spec fn raw_sentences(cfg: Config, text: Seq<char>) -> Seq<Seq<char>> {
    span_texts(text, raw_spans(cfg, text))
}

/// The sentences one after another.
pub open spec fn concat_all(ss: Seq<Seq<char>>) -> Seq<char>
    decreases ss.len(),
{
    if ss.len() == 0 {
        Seq::empty()
    } else {
        concat_all(ss.drop_last()) + ss.last()
    }
}

/// `s` with every line break removed.
pub open spec fn without_line_breaks(s: Seq<char>) -> Seq<char>
    decreases s.len(),
{
    if s.len() == 0 {
        s
    } else if is_line_break(s.last()) {
        without_line_breaks(s.drop_last())
    } else {
        without_line_breaks(s.drop_last()).push(s.last())
    }
}

proof fn lemma_concat_all_push(ss: Seq<Seq<char>>, x: Seq<char>)
    ensures
        concat_all(ss.push(x)) == concat_all(ss) + x,
{
    assert(ss.push(x).drop_last() =~= ss);
}

/// After any prefix, the emitted sentences, the kept text and the pending text
/// together are the prefix without its line breaks; and text is kept without
/// pending text only right after a line break.
proof fn lemma_merge_scan_keeps_text(cfg: Config, text: Seq<char>)
    ensures
        ({
            let s = merge_scan(cfg, text);
            concat_all(s.out) + s.buf + s.cur
        }) == without_line_breaks(text),
        merge_scan(cfg, text).cur.len() == 0 && merge_scan(cfg, text).buf.len() > 0 ==> text.len()
            > 0 && is_line_break(text.last()),
    decreases text.len(),
{
    if text.len() > 0 {
        let prev = text.drop_last();
        let c = text.last();
        let s = merge_scan(cfg, prev);
        lemma_merge_scan_keeps_text(cfg, prev);
        let n = merge_scan(cfg, text);
        if is_line_break(c) {
            assert(concat_all(n.out) + n.buf + n.cur =~= concat_all(s.out) + s.buf + s.cur);
        } else if n.out.len() > s.out.len() {
            lemma_concat_all_push(s.out, s.buf + s.cur.push(c));
            assert(concat_all(n.out) + n.buf + n.cur =~= (concat_all(s.out) + s.buf + s.cur).push(
                c,
            ));
        } else {
            assert(concat_all(n.out) + n.buf + n.cur =~= (concat_all(s.out) + s.buf + s.cur).push(
                c,
            ));
        }
    }
}

/// Joining the sentences of the merging mode gives back the text without its
/// line breaks, wherever the text does not end with a line break.
pub proof fn lemma_merged_round_trip(cfg: Config, text: Seq<char>)
    requires
        text.len() > 0 ==> !is_line_break(text.last()),
    ensures
        concat_all(merged_sentences(cfg, text)) == without_line_breaks(text),
{
    let s = merge_scan(cfg, text);
    lemma_merge_scan_keeps_text(cfg, text);
    if s.cur.len() > 0 {
        lemma_concat_all_push(s.out, s.buf + s.cur);
        assert(concat_all(s.out) + s.buf + s.cur =~= concat_all(s.out) + (s.buf + s.cur));
    } else {
        assert(concat_all(s.out) + s.buf + s.cur =~= concat_all(s.out));
    }
}

/// Text without line breaks is its own line-break-free form.
pub proof fn lemma_without_line_breaks_id(text: Seq<char>)
    requires
        forall|i: int| 0 <= i < text.len() ==> !is_line_break(#[trigger] text[i]),
    ensures
        without_line_breaks(text) == text,
    decreases text.len(),
{
    if text.len() > 0 {
        lemma_without_line_breaks_id(text.drop_last());
        assert(text.drop_last().push(text.last()) =~= text);
    }
}

/// Joining the sentences of the merging mode gives back a text without line
/// breaks exactly: no character is lost or repeated.
pub proof fn lemma_merged_round_trip_exact(cfg: Config, text: Seq<char>)
    requires
        forall|i: int| 0 <= i < text.len() ==> !is_line_break(#[trigger] text[i]),
    ensures
        concat_all(merged_sentences(cfg, text)) == text,
{
    lemma_without_line_breaks_id(text);
    lemma_merged_round_trip(cfg, text);
}

/// An end-of-sentence character read while some delimiter pair `j` is open
/// ends no sentence, in either mode: the scan emits nothing for it.
pub proof fn lemma_no_split_when_nested(cfg: Config, text: Seq<char>, c: char, j: int)
    requires
        cfg.wf(),
        cfg.tag(c) == Some(ControlFlow::Eos),
        0 <= j < cfg.num_pairs(),
    ensures
        merge_scan(cfg, text).depths[j] > 0 ==> merge_scan(cfg, text.push(c)).out == merge_scan(
            cfg,
            text,
        ).out,
        raw_scan(cfg, text).depths[j] > 0 ==> raw_scan(cfg, text.push(c)) == raw_scan(cfg, text),
{
    lemma_merge_scan_depths_len(cfg, text);
    lemma_raw_scan_depths_len(cfg, text);
    lemma_total_positive(merge_scan(cfg, text).depths);
    lemma_total_positive(raw_scan(cfg, text).depths);
    assert(text.push(c).drop_last() =~= text);
}

/// A merging scan keeps one counter per pair.
pub proof fn lemma_merge_scan_depths_len(cfg: Config, text: Seq<char>)
    requires
        cfg.wf(),
    ensures
        merge_scan(cfg, text).depths.len() == cfg.num_pairs(),
    decreases text.len(),
{
    if text.len() > 0 {
        lemma_merge_scan_depths_len(cfg, text.drop_last());
        lemma_tag_facts(cfg, text.last());
    }
}

/// A raw scan keeps one counter per pair.
pub proof fn lemma_raw_scan_depths_len(cfg: Config, text: Seq<char>)
    requires
        cfg.wf(),
    ensures
        raw_scan(cfg, text).depths.len() == cfg.num_pairs(),
    decreases text.len(),
{
    if text.len() > 0 {
        lemma_raw_scan_depths_len(cfg, text.drop_last());
        lemma_tag_facts(cfg, text.last());
    }
}

/// The spans of a raw scan of a prefix are non-empty, in order, do not
/// overlap, and end at or before the pending sentence's start, which lies
/// within the prefix.
proof fn lemma_raw_scan_spans(cfg: Config, text: Seq<char>)
    ensures
        0 <= raw_scan(cfg, text).start <= text.len(),
        spans_ordered(raw_scan(cfg, text).out, raw_scan(cfg, text).start),
    decreases text.len(),
{
    if text.len() > 0 {
        lemma_raw_scan_spans(cfg, text.drop_last());
    }
}

/// Each span is non-empty and starts at or after the end of the one before;
/// all lie within `[0, end)`.
pub open spec fn spans_ordered(spans: Seq<(int, int)>, end: int) -> bool {
    &&& forall|j: int| 0 <= j < spans.len() ==> 0 <= (#[trigger] spans[j]).0 < spans[j].1 <= end
    &&& forall|j: int, l: int| 0 <= j < l < spans.len() ==> (#[trigger] spans[j]).1 <= (
    #[trigger] spans[l]).0
}

/// The sentences of the raw mode are non-empty, non-overlapping parts of the
/// text, in order: each is the text of a span of it.
pub proof fn lemma_raw_spans_in_text(cfg: Config, text: Seq<char>)
    ensures
        spans_ordered(raw_spans(cfg, text), text.len() as int),
        raw_sentences(cfg, text).len() == raw_spans(cfg, text).len(),
        forall|j: int|
            0 <= j < raw_spans(cfg, text).len() ==> #[trigger] raw_sentences(cfg, text)[j]
                == text.subrange(raw_spans(cfg, text)[j].0, raw_spans(cfg, text)[j].1),
{
    lemma_raw_scan_spans(cfg, text);
}

/// A configuration of two delimiter pairs, `first` before `second`.
pub open spec fn two_pairs(eos: char, first: (char, char), second: (char, char)) -> Config {
    Config { eos, lefts: seq![first.0, second.0], rights: seq![first.1, second.1] }
}

/// The two counters of a two-pair configuration, exchanged.
spec fn swap_pairs(d: Seq<nat>) -> Seq<nat> {
    seq![d[1], d[0]]
}

/// A tag with the pair indices 0 and 1 exchanged.
spec fn swap_tag(t: Option<ControlFlow>) -> Option<ControlFlow> {
    match t {
        Some(ControlFlow::LeftParens(j)) => Some(ControlFlow::LeftParens((1 - j) as usize)),
        Some(ControlFlow::RightParens(j)) => Some(ControlFlow::RightParens((1 - j) as usize)),
        _ => t,
    }
}

proof fn lemma_last_index_of_two(x: char, y: char, c: char)
    ensures
        last_index_of(seq![x, y], c) == if y == c {
            1int
        } else if x == c {
            0int
        } else {
            -1int
        },
{
    reveal_with_fuel(last_index_of, 3);
    assert(seq![x, y].drop_last() =~= seq![x]);
    assert(seq![x].drop_last() =~= Seq::<char>::empty());
}

proof fn lemma_total_two(d: Seq<nat>)
    requires
        d.len() == 2,
    ensures
        total(d) == d[0] + d[1],
{
    reveal_with_fuel(total, 3);
    assert(d.drop_last().drop_last() =~= Seq::<nat>::empty());
}

/// Exchanging two pairs with four distinct characters exchanges their indices
/// in every tag.
proof fn lemma_swapped_tags(eos: char, p: (char, char), q: (char, char), c: char)
    requires
        p.0 != p.1 && p.0 != q.0 && p.0 != q.1 && p.1 != q.0 && p.1 != q.1 && q.0 != q.1,
    ensures
        two_pairs(eos, q, p).tag(c) == swap_tag(two_pairs(eos, p, q).tag(c)),
{
    lemma_last_index_of_two(p.0, q.0, c);
    lemma_last_index_of_two(p.1, q.1, c);
    lemma_last_index_of_two(q.0, p.0, c);
    lemma_last_index_of_two(q.1, p.1, c);
}

/// Scanning with the pairs exchanged reaches the same states, with the two
/// counters exchanged.
proof fn lemma_swapped_scans(eos: char, p: (char, char), q: (char, char), text: Seq<char>)
    requires
        p.0 != p.1 && p.0 != q.0 && p.0 != q.1 && p.1 != q.0 && p.1 != q.1 && q.0 != q.1,
    ensures
        merge_scan(two_pairs(eos, p, q), text).depths.len() == 2,
        raw_scan(two_pairs(eos, p, q), text).depths.len() == 2,
        merge_scan(two_pairs(eos, q, p), text) == (MergeScan {
            depths: swap_pairs(merge_scan(two_pairs(eos, p, q), text).depths),
            ..merge_scan(two_pairs(eos, p, q), text)
        }),
        raw_scan(two_pairs(eos, q, p), text) == (RawScan {
            depths: swap_pairs(raw_scan(two_pairs(eos, p, q), text).depths),
            ..raw_scan(two_pairs(eos, p, q), text)
        }),
    decreases text.len(),
{
    let cfg1 = two_pairs(eos, p, q);
    let cfg2 = two_pairs(eos, q, p);
    if text.len() == 0 {
        assert(swap_pairs(zeros(2)) =~= zeros(2));
    } else {
        let prev = text.drop_last();
        let c = text.last();
        lemma_swapped_scans(eos, p, q, prev);
        lemma_swapped_tags(eos, p, q, c);
        lemma_tag_facts(cfg1, c);
        let m = merge_scan(cfg1, prev);
        let r = raw_scan(cfg1, prev);
        lemma_total_two(m.depths);
        lemma_total_two(swap_pairs(m.depths));
        lemma_total_two(r.depths);
        lemma_total_two(swap_pairs(r.depths));
        assert(swap_pairs(zeros(2)) =~= zeros(2));
        match cfg1.tag(c) {
            Some(ControlFlow::LeftParens(j)) => {
                let (dm, dr) = (m.depths, r.depths);
                assert(open_pair(swap_pairs(dm), 1 - j) =~= swap_pairs(open_pair(dm, j as int)));
                assert(open_pair(swap_pairs(dr), 1 - j) =~= swap_pairs(open_pair(dr, j as int)));
            },
            Some(ControlFlow::RightParens(j)) => {
                let (dm, dr) = (m.depths, r.depths);
                assert(close_pair(swap_pairs(dm), 1 - j) =~= swap_pairs(close_pair(dm, j as int)));
                assert(close_pair(swap_pairs(dr), 1 - j) =~= swap_pairs(close_pair(dr, j as int)));
            },
            _ => {},
        }
    }
}

/// Declaring two delimiter pairs in either order gives the same sentences in
/// both modes, where the four characters of the pairs are distinct.
pub proof fn lemma_pair_order_irrelevant(
    eos: char,
    p: (char, char),
    q: (char, char),
    text: Seq<char>,
)
    requires
        p.0 != p.1 && p.0 != q.0 && p.0 != q.1 && p.1 != q.0 && p.1 != q.1 && q.0 != q.1,
    ensures
        merged_sentences(two_pairs(eos, p, q), text) == merged_sentences(
            two_pairs(eos, q, p),
            text,
        ),
        raw_sentences(two_pairs(eos, p, q), text) == raw_sentences(two_pairs(eos, q, p), text),
{
    lemma_swapped_scans(eos, p, q, text);
}

} // verus!
