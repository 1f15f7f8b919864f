use crate::document::{offset_at_spec, Document};
use crate::lex::PosM;
use crate::parser::{stats_of, PValM, PValue, PropM, Property, Source, Stat, StatM};
use vstd::prelude::*;

verus! {

// ---------------------------------------------------------------------------
// Offsets of statements
// ---------------------------------------------------------------------------

pub open spec fn stat_start(s: StatM) -> PosM {
    match s {
        StatM::Text { start, .. } => start,
        StatM::Tag { start, .. } => start,
    }
}

pub open spec fn stat_end(s: StatM) -> PosM {
    match s {
        StatM::Text { end, .. } => end,
        StatM::Tag { end, .. } => end,
    }
}

pub open spec fn stat_start_off(text: Seq<char>, s: StatM) -> int {
    offset_at_spec(text, stat_start(s))
}

pub open spec fn stat_end_off(text: Seq<char>, s: StatM) -> int {
    offset_at_spec(text, stat_end(s))
}

/// The structural premise of the binary search: every span is non-empty in
/// offset terms, and spans follow one another without overlap. That the
/// parser emits statements in non-decreasing start-offset order is proved
/// (`lemma_parse_statements_ordered`); the strict, non-overlapping span
/// facts are checked by tests, and every statement below is conditional on
/// the whole premise.
pub open spec fn stats_offsets_wf(text: Seq<char>, stats: Seq<StatM>) -> bool {
    &&& forall|i: int|
        0 <= i < stats.len() ==> stat_start_off(text, #[trigger] stats[i]) < stat_end_off(
            text,
            stats[i],
        )
    &&& forall|i: int|
        0 <= i < stats.len() - 1 ==> stat_end_off(text, #[trigger] stats[i]) <= stat_start_off(
            text,
            stats[i + 1],
        )
}

/// The cursor sits in a statement when it is past its start and at most at
/// its end: a cursor just after a character belongs to that character's node.
pub open spec fn stat_contains(text: Seq<char>, s: StatM, off: int) -> bool {
    stat_start_off(text, s) < off && off <= stat_end_off(text, s)
}

proof fn lemma_wf_chain(text: Seq<char>, stats: Seq<StatM>, i: int, j: int)
    requires
        stats_offsets_wf(text, stats),
        0 <= i < j < stats.len(),
    ensures
        stat_end_off(text, stats[i]) <= stat_start_off(text, stats[j]),
    decreases j - i,
{
    if j == i + 1 {
    } else {
        lemma_wf_chain(text, stats, i, j - 1);
    }
}

/// Under the ordering premise at most one statement contains an offset.
proof fn lemma_contains_unique(text: Seq<char>, stats: Seq<StatM>, off: int, i: int, j: int)
    requires
        stats_offsets_wf(text, stats),
        0 <= i < stats.len(),
        0 <= j < stats.len(),
        stat_contains(text, stats[i], off),
        stat_contains(text, stats[j], off),
    ensures
        i == j,
{
    if i < j {
        lemma_wf_chain(text, stats, i, j);
    }
    if j < i {
        lemma_wf_chain(text, stats, j, i);
    }
}

// ---------------------------------------------------------------------------
// The lookup model
// ---------------------------------------------------------------------------

/// Model of a classified node.
pub ghost enum NodeM {
    Text,
    Expression,
    Property(PropM),
}

/// What the cursor rests on: the containing statement, classified. A cursor
/// past a tag's property region (in argument territory) finds nothing:
/// argument lookup is not supported here.
pub open spec fn node_at_spec(text: Seq<char>, stats: Seq<StatM>, off: int) -> Option<NodeM> {
    if exists|i: int| 0 <= i < stats.len() && stat_contains(text, #[trigger] stats[i], off) {
        let i = choose|i: int| 0 <= i < stats.len() && stat_contains(text, #[trigger] stats[i], off);
        classify_spec(text, stats[i], off)
    } else {
        None
    }
}

/// The node classification of one containing statement.
pub open spec fn classify_spec(text: Seq<char>, s: StatM, off: int) -> Option<NodeM> {
    match s {
        StatM::Text { .. } => Some(NodeM::Text),
        StatM::Tag { expr, .. } => match expr.property {
            None => Some(NodeM::Expression),
            Some(PValM::Property(p)) => if off > offset_at_spec(text, p.end) {
                None
            } else {
                Some(NodeM::Property(p))
            },
            Some(_) => None,
        },
    }
}

// ---------------------------------------------------------------------------
// The executable lookup
// ---------------------------------------------------------------------------

/// The classification of the syntax element under a cursor offset.
#[derive(Debug)]
pub enum Node<'a> {
    /// The cursor rests in literal text.
    Text,
    /// The cursor rests in a tag with no property, such as `{}`.
    Expression,
    /// The cursor rests in the property region of a tag.
    Property(&'a Property),
}

impl<'a> View for Node<'a> {
    type V = NodeM;

    open spec fn view(&self) -> NodeM {
        match self {
            Node::Text => NodeM::Text,
            Node::Expression => NodeM::Expression,
            Node::Property(p) => NodeM::Property(p@),
        }
    }
}

/// The rightmost statement whose start offset is before the cursor, if the
/// cursor falls within its span. With ordered spans this is the unique
/// containing statement.
fn child_at_offset(document: &mut Document, offset: u32, children: &Vec<Stat>) -> (r: Option<
    usize,
>)
    requires
        old(document).wf(),
    ensures
        final(document).wf(),
        final(document).text() == old(document).text(),
        ({
            let text = old(document).text();
            let stats = stats_of(children@);
            &&& match r {
                Some(ix) => ix < stats.len() && stat_contains(text, stats[ix as int], offset as int),
                None => true,
            }
            &&& stats_offsets_wf(text, stats) ==> match r {
                Some(ix) => stat_contains(text, stats[ix as int], offset as int),
                None => forall|i: int|
                    0 <= i < stats.len() ==> !stat_contains(text, #[trigger] stats[i], offset as int),
            }
        }),
{
    let ghost text = document.text();
    let ghost stats = stats_of(children@);
    if children.len() == 0 {
        return None;
    }
    let mut min: usize = 0;
    let mut max: usize = children.len() - 1;
    let ghost wf = stats_offsets_wf(text, stats);
    loop
        invariant
            document.wf(),
            document.text() == text,
            text == old(document).text(),
            stats == stats_of(children@),
            stats.len() == children@.len(),
            children@.len() > 0,
            children@.len() <= usize::MAX,
            min <= max < children@.len(),
            wf == stats_offsets_wf(text, stats),
            wf ==> forall|i: int|
                max < i < stats.len() ==> stat_start_off(text, #[trigger] stats[i]) >= offset as int,
            wf ==> (min == 0 || stat_start_off(text, stats[min as int]) < offset as int),
        ensures
            document.wf(),
            document.text() == text,
            min == max,
            min < children@.len(),
            wf ==> forall|i: int|
                max < i < stats.len() ==> stat_start_off(text, #[trigger] stats[i]) >= offset as int,
            wf ==> (min == 0 || stat_start_off(text, stats[min as int]) < offset as int),
        decreases max - min,
    {
        if min >= max {
            break;
        }
        let mid = min + (max - min + 1) / 2;
        let mid_start = match &children[mid] {
            Stat::Tag { start, .. } => *start,
            Stat::Text { start, .. } => *start,
        };
        proof {
            assert(stats[mid as int] == children@[mid as int]@);
            assert(mid_start@ == stat_start(stats[mid as int]));
        }
        let mid_off = document.offset_at(mid_start);
        if mid_off < offset {
            min = mid;
        } else {
            proof {
                if wf {
                    assert forall|i: int|
                        mid - 1 < i < stats.len() implies stat_start_off(
                        text,
                        #[trigger] stats[i],
                    ) >= offset as int by {
                        if i > mid {
                            lemma_wf_chain(text, stats, mid as int, i);
                        }
                    }
                }
            }
            max = mid - 1;
        }
    }
    let found_start = match &children[min] {
        Stat::Tag { start, .. } => *start,
        Stat::Text { start, .. } => *start,
    };
    let found_end = match &children[min] {
        Stat::Tag { end, .. } => *end,
        Stat::Text { end, .. } => *end,
    };
    proof {
        assert(stats[min as int] == children@[min as int]@);
    }
    let s_off = document.offset_at(found_start);
    let e_off = document.offset_at(found_end);
    if offset > s_off && offset <= e_off {
        Some(min)
    } else {
        proof {
            if stats_offsets_wf(text, stats) {
                assert forall|i: int|
                    0 <= i < stats.len() implies !stat_contains(
                    text,
                    #[trigger] stats[i],
                    offset as int,
                ) by {
                    if stat_contains(text, stats[i], offset as int) {
                        if i > min {
                            assert(stat_start_off(text, stats[i]) >= offset as int);
                        } else if i < min {
                            lemma_wf_chain(text, stats, i, min as int);
                        }
                    }
                }
            }
        }
        None
    }
}

/// Classify the statement the cursor rests in.
fn visit_child_node<'c>(document: &mut Document, offset: u32, node: &'c Stat) -> (r: Option<
    Node<'c>,
>)
    requires
        old(document).wf(),
    ensures
        final(document).wf(),
        final(document).text() == old(document).text(),
        ({
            let rv = match r {
                Some(n) => Some(n@),
                None => None,
            };
            rv == classify_spec(old(document).text(), node@, offset as int)
        }),
{
    match node {
        Stat::Text { .. } => Some(Node::Text),
        Stat::Tag { value, .. } => {
            match &value.property {
                None => Some(Node::Expression),
                Some(PValue::Property(property)) => {
                    let pe = property.end;
                    if offset > document.offset_at(pe) {
                        None
                    } else {
                        Some(Node::Property(property))
                    }
                },
                Some(_) => None,
            }
        },
    }
}

/// The node under a cursor offset: binary search over the top-level
/// statements for the containing one, then its classification. With the
/// spans in source order the result is exactly `node_at_spec`.
pub fn get_node_at_offset<'a>(document: &mut Document, offset: u32, program: &'a Source) -> (r:
    Option<Node<'a>>)
    requires
        old(document).wf(),
    ensures
        final(document).wf(),
        final(document).text() == old(document).text(),
        ({
            let text = old(document).text();
            let stats = stats_of(program.body@);
            let rv = match r {
                Some(n) => Some(n@),
                None => None,
            };
            stats_offsets_wf(text, stats) ==> rv == node_at_spec(text, stats, offset as int)
        }),
{
    let ghost text = document.text();
    let ghost stats = stats_of(program.body@);
    let child = child_at_offset(document, offset, &program.body);
    match child {
        None => {
            proof {
                if stats_offsets_wf(text, stats) {
                    assert(!exists|i: int|
                        0 <= i < stats.len() && stat_contains(text, #[trigger] stats[i], offset as int));
                }
            }
            None
        },
        Some(ix) => {
            proof {
                assert(stats[ix as int] == program.body@[ix as int]@);
                if stats_offsets_wf(text, stats) {
                    let w = choose|i: int|
                        0 <= i < stats.len() && stat_contains(text, #[trigger] stats[i], offset as int);
                    lemma_contains_unique(text, stats, offset as int, w, ix as int);
                }
            }
            visit_child_node(document, offset, &program.body[ix])
        },
    }
}

// ---------------------------------------------------------------------------
// Laws of the lookup
// ---------------------------------------------------------------------------

/// An offset strictly past the end of the last top-level statement finds
/// nothing.
pub proof fn lemma_node_at_past_end(text: Seq<char>, stats: Seq<StatM>, off: int)
    requires
        stats_offsets_wf(text, stats),
        stats.len() > 0,
        off > stat_end_off(text, stats[stats.len() - 1]),
    ensures
        node_at_spec(text, stats, off) is None,
{
    if exists|i: int| 0 <= i < stats.len() && stat_contains(text, #[trigger] stats[i], off) {
        let i = choose|i: int| 0 <= i < stats.len() && stat_contains(text, #[trigger] stats[i], off);
        if i < stats.len() - 1 {
            lemma_wf_chain(text, stats, i, stats.len() - 1);
        }
    }
}

/// An offset exactly at a statement's closing position finds that statement,
/// classified.
pub proof fn lemma_node_at_closing(text: Seq<char>, stats: Seq<StatM>, i: int)
    requires
        stats_offsets_wf(text, stats),
        0 <= i < stats.len(),
    ensures
        node_at_spec(text, stats, stat_end_off(text, stats[i])) == classify_spec(
            text,
            stats[i],
            stat_end_off(text, stats[i]),
        ),
{
    let off = stat_end_off(text, stats[i]);
    assert(stat_contains(text, stats[i], off));
    let w = choose|k: int| 0 <= k < stats.len() && stat_contains(text, #[trigger] stats[k], off);
    lemma_contains_unique(text, stats, off, w, i);
}

/// The statements of a parsed tree stand in non-decreasing start-offset
/// order: the parser appends them in strict parse order over tokens whose
/// positions only move forward, and the document's offsets respect that
/// order. This is the sortedness the binary search's premise builds on.
pub proof fn lemma_parse_statements_ordered(text: Seq<char>)
    requires
        crate::lex::scan_spec(text) is Ok,
    ensures
        ({
            let stats = crate::parser::parse_spec(crate::lex::scan_spec(text)->Ok_0).0;
            forall|k1: int, k2: int|
                0 <= k1 <= k2 < stats.len() ==> stat_start_off(text, #[trigger] stats[k1])
                    <= stat_start_off(text, #[trigger] stats[k2])
        }),
{
    let toks = crate::lex::scan_spec(text)->Ok_0;
    let stats = crate::parser::parse_spec(toks).0;
    crate::lex::lemma_scan_from_starts_ordered(text, 0, true);
    crate::parser::lemma_parse_body_starts_ordered(toks, 0);
    assert forall|k1: int, k2: int|
        0 <= k1 <= k2 < stats.len() implies stat_start_off(text, #[trigger] stats[k1])
        <= stat_start_off(text, #[trigger] stats[k2]) by {
        assert(stat_start(stats[k1]) == crate::parser::stat_start_pos(stats[k1]));
        assert(stat_start(stats[k2]) == crate::parser::stat_start_pos(stats[k2]));
        assert(crate::lex::pos_le(
            crate::parser::stat_start_pos(stats[k1]),
            crate::parser::stat_start_pos(stats[k2]),
        ));
        let n1 = choose|n: int|
            0 <= n < toks.len() && crate::parser::stat_start_pos(stats[k1]) == toks[n].start;
        assert(0 <= toks[n1].start.row && 0 <= toks[n1].start.col);
        crate::document::lemma_offset_at_pos_mono(
            text,
            crate::parser::stat_start_pos(stats[k1]),
            crate::parser::stat_start_pos(stats[k2]),
        );
    }
}

} // verus!
