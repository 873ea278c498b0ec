use vstd::prelude::*;
use crate::convert::{nodes_view, NodeKind, NodeModel, SyntaxNode};

verus! {

broadcast use vstd::seq_lib::group_to_multiset_ensures;

/// A half-open character range `[start, end)` into the document text.
#[derive(Clone, Copy, PartialEq, Eq, Structural, Debug)]
pub struct TextRange {
    pub start: usize,
    pub end: usize,
}

/// Whether position `a` lies within `b`, both endpoints included.
pub fn within(a: usize, b: &TextRange) -> (r: bool)
    ensures
        r == (b.start <= a && a <= b.end),
{
    b.start <= a && a <= b.end
}

// ---- which tree nodes hold checkable text ----

pub open spec fn spec_is_text_kind(k: NodeKind) -> bool {
    ||| k == NodeKind::Text
    ||| k == NodeKind::Strong
    ||| k == NodeKind::Emph
    ||| k == NodeKind::Raw
}

/// Nodes of these kinds carry prose worth grammar-checking.
pub fn is_text_kind(node: &SyntaxNode) -> (r: bool)
    ensures
        r == spec_is_text_kind(node@.kind),
{
    match node.kind {
        NodeKind::Text => true,
        NodeKind::Strong => true,
        NodeKind::Emph => true,
        NodeKind::Raw => true,
        _ => false,
    }
}

// ---- gathering raw text ranges from the tree ----

/// The raw ranges the walk gathers from one node: a text leaf contributes
/// its own range; a text node with children contributes the gaps between
/// consecutive children; every child is walked in turn.
pub open spec fn parse_spec(n: NodeModel) -> Seq<TextRange>
    decreases n, 1int,
{
    let own = if n.children.len() == 0 && spec_is_text_kind(n.kind) {
        seq![TextRange { start: n.start, end: n.end }]
    } else {
        Seq::empty()
    };
    own + parse_children_spec(n.children, n.start, spec_is_text_kind(n.kind))
}

pub open spec fn parse_children_spec(s: Seq<NodeModel>, cursor: usize, parent_text: bool) -> Seq<
    TextRange,
>
    decreases s, 0int,
{
    if s.len() == 0 {
        Seq::empty()
    } else {
        let gap = if parent_text {
            seq![TextRange { start: cursor, end: s[0].start }]
        } else {
            Seq::empty()
        };
        gap + parse_spec(s[0]) + parse_children_spec(s.drop_first(), s[0].end, parent_text)
    }
}

/// Walk the tree and return every raw range identified as checkable text;
/// the result still needs cleaning up.
pub fn parse_recursive(node: &SyntaxNode) -> (out: Vec<TextRange>)
    ensures
        out@ == parse_spec(node@),
{
    let mut out: Vec<TextRange> = Vec::new();
    parse_into(node, &mut out);
    proof {
        assert(Seq::<TextRange>::empty() + parse_spec(node@) =~= parse_spec(node@));
    }
    out
}

fn parse_into(node: &SyntaxNode, out: &mut Vec<TextRange>)
    ensures
        final(out)@ == old(out)@ + parse_spec(node@),
    decreases node, 1int,
{
    let text_kind = is_text_kind(node);
    if node.children.len() == 0 && text_kind {
        out.push(TextRange { start: node.start, end: node.end });
    }
    parse_children_into(&node.children, 0, node.start, text_kind, out);
    proof {
        let own = if node@.children.len() == 0 && spec_is_text_kind(node@.kind) {
            seq![TextRange { start: node@.start, end: node@.end }]
        } else {
            Seq::<TextRange>::empty()
        };
        assert(nodes_view(node.children@).skip(0) =~= node@.children);
        assert(final(out)@ =~= old(out)@ + (own + parse_children_spec(
            node@.children,
            node@.start,
            spec_is_text_kind(node@.kind),
        )));
    }
}

fn parse_children_into(
    children: &Vec<SyntaxNode>,
    from: usize,
    cursor: usize,
    parent_text: bool,
    out: &mut Vec<TextRange>,
)
    requires
        from <= children.len(),
    ensures
        final(out)@ == old(out)@ + parse_children_spec(
            nodes_view(children@).skip(from as int),
            cursor,
            parent_text,
        ),
    decreases children, children@.len() - from,
{
    proof {
        crate::convert::lemma_nodes_view_len(children@);
    }
    if from < children.len() {
        proof {
            let s = nodes_view(children@);
            crate::convert::lemma_nodes_view_index(children@, from as int);
            assert(s.skip(from as int)[0] == s[from as int]);
            assert(s.skip(from as int).drop_first() =~= s.skip(from as int + 1));
        }
        if parent_text {
            out.push(TextRange { start: cursor, end: children[from].start });
        }
        parse_into(&children[from], out);
        parse_children_into(children, from + 1, children[from].end, parent_text, out);
        proof {
            let s = nodes_view(children@);
            let gap = if parent_text {
                seq![TextRange { start: cursor, end: s[from as int].start }]
            } else {
                Seq::<TextRange>::empty()
            };
            assert(final(out)@ =~= old(out)@ + (gap + parse_spec(s[from as int])
                + parse_children_spec(s.skip(from as int + 1), s[from as int].end, parent_text)));
        }
    } else {
        proof {
            assert(nodes_view(children@).skip(from as int).len() == 0);
            assert(final(out)@ =~= old(out)@);
        }
    }
}

/// Whether every span in the tree lies within a text of length `len`,
/// each node's start not past its end.
pub open spec fn node_spans_within(n: NodeModel, len: int) -> bool
    decreases n,
{
    &&& n.start <= n.end <= len
    &&& forall|i: int|
        0 <= i < n.children.len() ==> node_spans_within(#[trigger] n.children[i], len)
}

/// Bounded spans yield bounded raw ranges.
pub proof fn lemma_parse_spec_bounded(n: NodeModel, len: int)
    requires
        node_spans_within(n, len),
    ensures
        forall|k: int| 0 <= k < parse_spec(n).len() ==> (#[trigger] parse_spec(n)[k]).end <= len,
    decreases n, 1int,
{
    lemma_parse_children_spec_bounded(n.children, n.start, spec_is_text_kind(n.kind), len);
    let own = if n.children.len() == 0 && spec_is_text_kind(n.kind) {
        seq![TextRange { start: n.start, end: n.end }]
    } else {
        Seq::<TextRange>::empty()
    };
    let rest = parse_children_spec(n.children, n.start, spec_is_text_kind(n.kind));
    assert forall|k: int| 0 <= k < parse_spec(n).len() implies (#[trigger] parse_spec(n)[k]).end
        <= len by {
        if k < own.len() {
            assert(parse_spec(n)[k] == own[0]);
        } else {
            assert(parse_spec(n)[k] == rest[k - own.len()]);
        }
    }
}

proof fn lemma_parse_children_spec_bounded(
    s: Seq<NodeModel>,
    cursor: usize,
    parent_text: bool,
    len: int,
)
    requires
        forall|i: int| 0 <= i < s.len() ==> node_spans_within(#[trigger] s[i], len),
    ensures
        forall|k: int|
            0 <= k < parse_children_spec(s, cursor, parent_text).len() ==> (
            #[trigger] parse_children_spec(s, cursor, parent_text)[k]).end <= len,
    decreases s, 0int,
{
    if s.len() > 0 {
        lemma_parse_spec_bounded(s[0], len);
        assert(forall|i: int|
            0 <= i < s.drop_first().len() ==> node_spans_within(
                #[trigger] s.drop_first()[i],
                len,
            ));
        lemma_parse_children_spec_bounded(s.drop_first(), s[0].end, parent_text, len);
        let gap = if parent_text {
            seq![TextRange { start: cursor, end: s[0].start }]
        } else {
            Seq::<TextRange>::empty()
        };
        let mid = parse_spec(s[0]);
        let rest = parse_children_spec(s.drop_first(), s[0].end, parent_text);
        assert forall|k: int|
            0 <= k < parse_children_spec(s, cursor, parent_text).len() implies (
        #[trigger] parse_children_spec(s, cursor, parent_text)[k]).end <= len by {
            let whole = parse_children_spec(s, cursor, parent_text);
            if k < gap.len() {
                assert(whole[k] == gap[0]);
                assert(gap[0].end == s[0].start <= s[0].end <= len);
            } else if k < gap.len() + mid.len() {
                assert(whole[k] == mid[k - gap.len()]);
            } else {
                assert(whole[k] == rest[k - gap.len() - mid.len()]);
            }
        }
    }
}

// ---- cleaning the gathered ranges up ----

pub open spec fn sorted_by_start(s: Seq<TextRange>) -> bool {
    forall|i: int, j: int|
        0 <= i < j < s.len() ==> (#[trigger] s[i]).start <= (#[trigger] s[j]).start
}

/// Consecutive ranges leave a gap of at least two characters, so none
/// overlap and none could have been merged.
pub open spec fn separated(s: Seq<TextRange>) -> bool {
    forall|i: int| 0 <= i && i + 1 < s.len() ==> (#[trigger] s[i]).end + 2 <= s[i + 1].start
}

pub open spec fn covered_by(r: TextRange, s: Seq<TextRange>) -> bool {
    exists|k: int| 0 <= k < s.len() && (#[trigger] s[k]).start <= r.start && r.end <= s[k].end
}

pub open spec fn start_from(r: TextRange, input: Seq<TextRange>) -> bool {
    exists|j: int| 0 <= j < input.len() && r.start == (#[trigger] input[j]).start
}

pub open spec fn end_from(r: TextRange, input: Seq<TextRange>) -> bool {
    exists|j: int| 0 <= j < input.len() && r.end == (#[trigger] input[j]).end
}

/// Insertion sort by range start.
fn sort_ranges(ranges: Vec<TextRange>) -> (out: Vec<TextRange>)
    ensures
        sorted_by_start(out@),
        out@.to_multiset() == ranges@.to_multiset(),
{
    let mut out: Vec<TextRange> = Vec::new();
    let mut i: usize = 0;
    proof {
        assert(ranges@.take(0) =~= Seq::<TextRange>::empty());
        assert(out@.to_multiset() =~= ranges@.take(0).to_multiset());
    }
    while i < ranges.len()
        invariant
            i <= ranges.len(),
            sorted_by_start(out@),
            out@.to_multiset() == ranges@.take(i as int).to_multiset(),
        decreases ranges.len() - i,
    {
        let r = ranges[i];
        let mut pos: usize = 0;
        while pos < out.len() && out[pos].start <= r.start
            invariant
                pos <= out.len(),
                forall|k: int| 0 <= k < pos ==> (#[trigger] out@[k]).start <= r.start,
            decreases out.len() - pos,
        {
            pos = pos + 1;
        }
        proof {
            let ghost prev = out@;
            assert(ranges@.take(i + 1).drop_last() =~= ranges@.take(i as int));
            assert(ranges@.take(i + 1) =~= ranges@.take(i as int).push(r));
        }
        out.insert(pos, r);
        i = i + 1;
    }
    proof {
        assert(ranges@.take(ranges@.len() as int) =~= ranges@);
    }
    out
}

/// The merge fold on a start-sorted list: the working range absorbs every
/// next range that starts at most one character past its end (overlap,
/// adjacency, or a single-character gap), and is emitted when a larger gap
/// follows. Every run ends in an emitted range.
pub open spec fn merge_acc(s: Seq<TextRange>, working: TextRange) -> Seq<TextRange>
    decreases s.len(),
{
    if s.len() == 0 {
        seq![working]
    } else if s[0].start <= working.end + 1 {
        merge_acc(
            s.drop_first(),
            TextRange {
                start: working.start,
                end: if s[0].end > working.end {
                    s[0].end
                } else {
                    working.end
                },
            },
        )
    } else {
        seq![working] + merge_acc(s.drop_first(), s[0])
    }
}

pub open spec fn merge_spec(s: Seq<TextRange>) -> Seq<TextRange> {
    if s.len() == 0 {
        Seq::empty()
    } else {
        merge_acc(s.drop_first(), s[0])
    }
}

/// The merged ranges of three or more characters, in order.
pub open spec fn retained_spec(s: Seq<TextRange>) -> Seq<TextRange>
    decreases s.len(),
{
    if s.len() == 0 {
        Seq::empty()
    } else {
        let rest = retained_spec(s.drop_last());
        if s.last().end - s.last().start > 2 {
            rest.push(s.last())
        } else {
            rest
        }
    }
}

/// Pushing the working range onto the output keeps every covered range
/// covered.
proof fn lemma_covered_push(rs: Seq<TextRange>, out: Seq<TextRange>, w: TextRange, upto: int)
    requires
        forall|j: int|
            0 <= j < upto <= rs.len() ==> covered_by(#[trigger] rs[j], out) || (w.start
                <= rs[j].start && rs[j].end <= w.end),
    ensures
        forall|j: int| 0 <= j < upto <= rs.len() ==> covered_by(#[trigger] rs[j], out.push(w)),
{
    assert forall|j: int| 0 <= j < upto <= rs.len() implies covered_by(
        #[trigger] rs[j],
        out.push(w),
    ) by {
        if covered_by(rs[j], out) {
            let k = choose|k: int|
                0 <= k < out.len() && (#[trigger] out[k]).start <= rs[j].start && rs[j].end
                    <= out[k].end;
            assert(out.push(w)[k] == out[k]);
        } else {
            assert(out.push(w)[out.len() as int] == w);
        }
    }
}

/// Merge overlapping and adjacent ranges (a gap of one character is bridged
/// as well) in a list sorted by start.
#[verifier::rlimit(100)]
#[verifier::spinoff_prover]
fn merge_range_neighbors(ranges: Vec<TextRange>) -> (out: Vec<TextRange>)
    requires
        sorted_by_start(ranges@),
    ensures
        out@ == merge_spec(ranges@),
        separated(out@),
        sorted_by_start(out@),
        forall|j: int| 0 <= j < ranges@.len() ==> covered_by(#[trigger] ranges@[j], out@),
        forall|k: int|
            0 <= k < out@.len() ==> start_from(#[trigger] out@[k], ranges@) && end_from(
                out@[k],
                ranges@,
            ),
{
    let mut out: Vec<TextRange> = Vec::new();
    if ranges.len() == 0 {
        return out;
    }
    let mut working = ranges[0];
    let mut i: usize = 1;
    proof {
        assert(ranges@.skip(1) =~= ranges@.drop_first());
        assert(out@ + merge_acc(ranges@.skip(1), working) =~= merge_acc(
            ranges@.drop_first(),
            ranges@[0],
        ));
    }
    while i < ranges.len()
        invariant
            1 <= i <= ranges.len(),
            merge_spec(ranges@) == out@ + merge_acc(ranges@.skip(i as int), working),
            sorted_by_start(ranges@),
            separated(out@),
            sorted_by_start(out@),
            out@.len() > 0 ==> out@.last().end + 2 <= working.start,
            forall|k: int| 0 <= k < out@.len() ==> (#[trigger] out@[k]).start <= working.start,
            forall|j: int|
                0 <= j < i ==> covered_by(#[trigger] ranges@[j], out@) || (working.start
                    <= ranges@[j].start && ranges@[j].end <= working.end),
            forall|k: int|
                0 <= k < out@.len() ==> start_from(#[trigger] out@[k], ranges@) && end_from(
                    out@[k],
                    ranges@,
                ),
            start_from(working, ranges@),
            end_from(working, ranges@),
            forall|j: int| i <= j < ranges@.len() ==> working.start <= (#[trigger] ranges@[j]).start,
        decreases ranges.len() - i,
    {
        proof {
            assert(ranges@.skip(i as int)[0] == ranges@[i as int]);
            assert(ranges@.skip(i as int).drop_first() =~= ranges@.skip(i as int + 1));
        }
        let r = ranges[i];
        let mergeable = r.start == 0 || r.start - 1 <= working.end;
        if !mergeable {
            proof {
                lemma_covered_push(ranges@, out@, working, i as int);
                assert(out@ + (seq![working] + merge_acc(ranges@.skip(i as int + 1), r))
                    =~= out@.push(working) + merge_acc(ranges@.skip(i as int + 1), r));
            }
            out.push(working);
            working = r;
        } else {
            if r.end > working.end {
                working.end = r.end;
            }
        }
        i = i + 1;
    }
    proof {
        lemma_covered_push(ranges@, out@, working, ranges@.len() as int);
        assert(ranges@.skip(ranges@.len() as int).len() == 0);
        assert(out@ + seq![working] =~= out@.push(working));
    }
    out.push(working);
    out
}

/// Every retained range keeps its endpoints from the raw input.
proof fn lemma_cleanup_provenance(
    out: Seq<TextRange>,
    merged: Seq<TextRange>,
    sorted_input: Seq<TextRange>,
    input: Seq<TextRange>,
)
    requires
        forall|k: int| 0 <= k < out.len() ==> merged.contains(#[trigger] out[k]),
        forall|k: int|
            0 <= k < merged.len() ==> start_from(#[trigger] merged[k], sorted_input) && end_from(
                merged[k],
                sorted_input,
            ),
        forall|x: TextRange| sorted_input.contains(x) == input.contains(x),
    ensures
        forall|k: int|
            0 <= k < out.len() ==> start_from(#[trigger] out[k], input) && end_from(out[k], input),
{
    assert forall|k: int| 0 <= k < out.len() implies start_from(#[trigger] out[k], input)
        && end_from(out[k], input) by {
        let m = choose|m: int| 0 <= m < merged.len() && merged[m] == out[k];
        assert(start_from(merged[m], sorted_input));
        let j1 = choose|j: int|
            0 <= j < sorted_input.len() && merged[m].start == (#[trigger] sorted_input[j]).start;
        assert(input.contains(sorted_input[j1]));
        let w1 = choose|w: int| 0 <= w < input.len() && input[w] == sorted_input[j1];
        assert(out[k].start == input[w1].start);
        let j2 = choose|j: int|
            0 <= j < sorted_input.len() && merged[m].end == (#[trigger] sorted_input[j]).end;
        assert(input.contains(sorted_input[j2]));
        let w2 = choose|w: int| 0 <= w < input.len() && input[w] == sorted_input[j2];
        assert(out[k].end == input[w2].end);
    }
}

/// Every raw range of three or more characters is covered by a retained
/// range.
proof fn lemma_cleanup_coverage(
    out: Seq<TextRange>,
    merged: Seq<TextRange>,
    sorted_input: Seq<TextRange>,
    input: Seq<TextRange>,
)
    requires
        forall|x: TextRange| sorted_input.contains(x) == input.contains(x),
        forall|j: int| 0 <= j < sorted_input.len() ==> covered_by(#[trigger] sorted_input[j], merged),
        forall|k: int|
            0 <= k < merged.len() && (#[trigger] merged[k]).end - merged[k].start > 2
                ==> out.contains(merged[k]),
    ensures
        forall|j: int|
            0 <= j < input.len() && (#[trigger] input[j]).end - input[j].start > 2 ==> covered_by(
                input[j],
                out,
            ),
{
    assert forall|j: int|
        0 <= j < input.len() && (#[trigger] input[j]).end - input[j].start > 2 implies covered_by(
        input[j],
        out,
    ) by {
        assert(input.contains(input[j])) by {
            assert(input[j] == input[j]);
        }
        assert(sorted_input.contains(input[j]));
        let sj = choose|w: int| 0 <= w < sorted_input.len() && sorted_input[w] == input[j];
        assert(covered_by(sorted_input[sj], merged));
        let m = choose|m: int|
            0 <= m < merged.len() && (#[trigger] merged[m]).start <= sorted_input[sj].start
                && sorted_input[sj].end <= merged[m].end;
        assert(merged[m].end - merged[m].start > 2);
        assert(out.contains(merged[m]));
        let k = choose|k: int| 0 <= k < out.len() && out[k] == merged[m];
        assert(out[k].start <= input[j].start && input[j].end <= out[k].end);
    }
}

/// Keep only the merged ranges of three or more characters.
#[verifier::rlimit(100)]
#[verifier::spinoff_prover]
fn retain_long(merged: Vec<TextRange>) -> (out: Vec<TextRange>)
    requires
        separated(merged@),
        sorted_by_start(merged@),
    ensures
        out@ == retained_spec(merged@),
        separated(out@),
        sorted_by_start(out@),
        forall|k: int|
            0 <= k < out@.len() ==> merged@.contains(#[trigger] out@[k]) && out@[k].end
                - out@[k].start > 2,
        forall|k: int|
            0 <= k < merged@.len() && (#[trigger] merged@[k]).end - merged@[k].start > 2
                ==> out@.contains(merged@[k]),
{
    let mut out: Vec<TextRange> = Vec::new();
    let mut i: usize = 0;
    proof {
        assert(merged@.take(0) =~= Seq::<TextRange>::empty());
    }
    while i < merged.len()
        invariant
            i <= merged.len(),
            out@ == retained_spec(merged@.take(i as int)),
            separated(merged@),
            sorted_by_start(merged@),
            forall|k: int|
                0 <= k < out@.len() ==> merged@.contains(#[trigger] out@[k]) && out@[k].end
                    - out@[k].start > 2,
            forall|k: int|
                0 <= k < merged@.len() && (#[trigger] merged@[k]).end - merged@[k].start > 2 && k
                    < i ==> out@.contains(merged@[k]),
            separated(out@),
            sorted_by_start(out@),
            out@.len() > 0 && i < merged@.len() ==> out@.last().end + 2 <= merged@[i as int].start,
        decreases merged.len() - i,
    {
        proof {
            assert(merged@.take(i + 1).drop_last() =~= merged@.take(i as int));
            assert(merged@.take(i + 1).last() == merged@[i as int]);
        }
        let r = merged[i];
        if r.end > r.start && r.end - r.start > 2 {
            let ghost prev = out@;
            out.push(r);
            proof {
                assert forall|k: int|
                    0 <= k < merged@.len() && (#[trigger] merged@[k]).end - merged@[k].start > 2
                        && k < i + 1 implies out@.contains(merged@[k]) by {
                    if k < i {
                        let w = choose|w: int| 0 <= w < prev.len() && prev[w] == merged@[k];
                        assert(out@[w] == merged@[k]);
                    } else {
                        assert(out@[out@.len() - 1] == merged@[k]);
                    }
                }
            }
        }
        i = i + 1;
    }
    proof {
        assert(merged@.take(merged@.len() as int) =~= merged@);
    }
    out
}

/// Merge the raw ranges and discard anything shorter than three characters:
/// exactly `retained_spec(merge_spec(..))` of a start-sorted permutation of
/// the input, so an output range bridges only gaps of at most one character
/// and every merged run whose union reaches three characters is retained.
pub fn cleanup_range(ranges: Vec<TextRange>) -> (out: Vec<TextRange>)
    ensures
        exists|sorted_input: Seq<TextRange>|
            {
                &&& #[trigger] sorted_input.to_multiset() == ranges@.to_multiset()
                &&& sorted_by_start(sorted_input)
                &&& out@ == retained_spec(merge_spec(sorted_input))
            },
        separated(out@),
        sorted_by_start(out@),
        forall|k: int|
            0 <= k < out@.len() ==> (#[trigger] out@[k]).end - out@[k].start > 2 && start_from(
                out@[k],
                ranges@,
            ) && end_from(out@[k], ranges@),
        forall|j: int|
            0 <= j < ranges@.len() && (#[trigger] ranges@[j]).end - ranges@[j].start > 2
                ==> covered_by(ranges@[j], out@),
{
    let ghost input = ranges@;
    let sorted = sort_ranges(ranges);
    proof {
        assert forall|x: TextRange| sorted@.contains(x) == input.contains(x) by {
            assert(sorted@.to_multiset().contains(x) == input.to_multiset().contains(x));
        }
    }
    let merged = merge_range_neighbors(sorted);
    let out = retain_long(merged);
    proof {
        assert(sorted@.to_multiset() == input.to_multiset());
        lemma_cleanup_provenance(out@, merged@, sorted@, input);
        lemma_cleanup_coverage(out@, merged@, sorted@, input);
    }
    out
}

} // verus!
