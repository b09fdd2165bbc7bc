use crate::node::NodeView;
use vstd::prelude::*;

verus! {

// Positions: record `i` of a document stands at position `i`; the synthetic
// root, which is no record, stands at position -1 and has level -1.

/// The level at a position.
pub open spec fn level_at(levels: Seq<int>, p: int) -> int {
    if 0 <= p < levels.len() {
        levels[p]
    } else {
        -1
    }
}

/// The nearest position before `k` whose record is shallower than `level`, or
/// the root's where no record before `k` is.
pub open spec fn nearest_shallower(levels: Seq<int>, level: int, k: int) -> int
    decreases k,
{
    if k <= 0 {
        -1
    } else if levels[k - 1] < level {
        k - 1
    } else {
        nearest_shallower(levels, level, k - 1)
    }
}

/// The position under which record `i` would nest: that of the nearest
/// earlier record that is shallower than record `i`, or the root's.
pub open spec fn candidate(levels: Seq<int>, i: int) -> int {
    nearest_shallower(levels, levels[i], i)
}

/// Whether record `i` becomes a child of its candidate: it does when it is
/// exactly one level deeper. A record that is deeper than that is a child of
/// nothing.
pub open spec fn attached(levels: Seq<int>, i: int) -> bool {
    levels[i] == level_at(levels, candidate(levels, i)) + 1
}

/// The children of position `p` among the first `upto` records, in document
/// order.
pub open spec fn children_of(levels: Seq<int>, p: int, upto: int) -> Seq<int>
    decreases upto,
{
    if upto <= 0 {
        Seq::empty()
    } else {
        let earlier = children_of(levels, p, upto - 1);
        if candidate(levels, upto - 1) == p && attached(levels, upto - 1) {
            earlier.push(upto - 1)
        } else {
            earlier
        }
    }
}

/// The levels of a run of records.
pub open spec fn levels_of(records: Seq<NodeView>) -> Seq<int> {
    records.map_values(|r: NodeView| r.level)
}

/// Records as a tokenizer gives them: at level 0 or deeper, within the range
/// of the level type, and without children.
pub open spec fn fresh(records: Seq<NodeView>) -> bool {
    forall|i: int|
        0 <= i < records.len() ==> 0 <= (#[trigger] records[i]).level <= i32::MAX
            && records[i].children.len() == 0
}

/// Records whose children all stand behind them in the list.
pub open spec fn well_linked(nodes: Seq<NodeView>) -> bool {
    forall|i: int, k: int|
        0 <= i < nodes.len() && 0 <= k < nodes[i].children.len() ==> i
            < #[trigger] nodes[i].children[k] < nodes.len()
}

/// A record with more children behind those it has.
pub open spec fn adopt(record: NodeView, more: Seq<int>) -> NodeView {
    NodeView { children: record.children + more, ..record }
}

/// The records of a document, each with the children that the document's
/// levels give it.
pub open spec fn nested(records: Seq<NodeView>) -> Seq<NodeView> {
    Seq::new(
        records.len(),
        |i: int| adopt(records[i], children_of(levels_of(records), i, records.len() as int)),
    )
}

/// The root of a document: the given root with the top-level records as its
/// children.
pub open spec fn rooted(root: NodeView, records: Seq<NodeView>) -> NodeView {
    adopt(root, children_of(levels_of(records), -1, records.len() as int))
}

/// What `nearest_shallower` finds is shallower than `level`, and nothing
/// between it and `k` is.
pub proof fn lemma_nearest_shallower(levels: Seq<int>, level: int, k: int)
    requires
        0 <= k <= levels.len(),
    ensures
        -1 <= nearest_shallower(levels, level, k) < k || (k == 0 && nearest_shallower(
            levels,
            level,
            k,
        ) == -1),
        nearest_shallower(levels, level, k) >= 0 ==> levels[nearest_shallower(levels, level, k)]
            < level,
        forall|j: int| nearest_shallower(levels, level, k) < j < k ==> levels[j] >= level,
    decreases k,
{
    if k > 0 && levels[k - 1] >= level {
        lemma_nearest_shallower(levels, level, k - 1);
    }
}

/// Records that are not shallower than `level` do not change what
/// `nearest_shallower` finds.
pub proof fn lemma_nearest_shallower_skips(levels: Seq<int>, level: int, a: int, b: int)
    requires
        0 <= a <= b <= levels.len(),
        forall|j: int| a <= j < b ==> levels[j] >= level,
    ensures
        nearest_shallower(levels, level, b) == nearest_shallower(levels, level, a),
    decreases b - a,
{
    if a < b {
        lemma_nearest_shallower_skips(levels, level, a, b - 1);
    }
}

/// A candidate stands before its record, and every record between the two is
/// at least as deep as the record.
pub proof fn lemma_candidate(levels: Seq<int>, i: int)
    requires
        0 <= i < levels.len(),
    ensures
        -1 <= candidate(levels, i) < i,
        level_at(levels, candidate(levels, i)) < levels[i] || (candidate(levels, i) == -1
            && levels[i] < 0),
        forall|j: int| candidate(levels, i) < j < i ==> levels[j] >= levels[i],
{
    lemma_nearest_shallower(levels, levels[i], i);
}

/// Children stand behind their parent, in ascending order, and are exactly the
/// attached records whose candidate the parent is.
pub proof fn lemma_children_of(levels: Seq<int>, p: int, upto: int)
    requires
        0 <= upto <= levels.len(),
    ensures
        forall|k: int|
            0 <= k < children_of(levels, p, upto).len() ==> {
                let c = #[trigger] children_of(levels, p, upto)[k];
                &&& p < c < upto
                &&& 0 <= c
                &&& candidate(levels, c) == p
                &&& attached(levels, c)
            },
        forall|j: int, k: int|
            0 <= j < k < children_of(levels, p, upto).len() ==> children_of(levels, p, upto)[j]
                < children_of(levels, p, upto)[k],
        forall|c: int|
            0 <= c < upto && candidate(levels, c) == p && attached(levels, c) ==> children_of(
                levels,
                p,
                upto,
            ).contains(c),
    decreases upto,
{
    if upto > 0 {
        lemma_children_of(levels, p, upto - 1);
        lemma_candidate(levels, upto - 1);
        let earlier = children_of(levels, p, upto - 1);
        let all = children_of(levels, p, upto);
        assert forall|c: int|
            0 <= c < upto && candidate(levels, c) == p && attached(levels, c) implies all.contains(
            c,
        ) by {
            if c < upto - 1 {
                let k = choose|k: int| 0 <= k < earlier.len() && earlier[k] == c;
                assert(all[k] == c);
            } else {
                assert(all[all.len() - 1] == c);
            }
        }
    }
}

/// Nesting fresh records gives each record the children that the levels give
/// it, all of them behind the record, and changes nothing else of it.
pub proof fn lemma_nested_links(records: Seq<NodeView>)
    requires
        fresh(records),
    ensures
        well_linked(nested(records)),
        nested(records).len() == records.len(),
        forall|i: int|
            0 <= i < records.len() ==> (#[trigger] nested(records)[i]) == (NodeView {
                children: children_of(levels_of(records), i, records.len() as int),
                ..records[i]
            }),
{
    let levels = levels_of(records);
    let n = records.len() as int;
    assert forall|i: int| 0 <= i < n implies (#[trigger] nested(records)[i]) == (NodeView {
        children: children_of(levels, i, n),
        ..records[i]
    }) by {
        assert(records[i].children + children_of(levels, i, n) =~= children_of(levels, i, n));
    }
    assert forall|i: int, k: int|
        0 <= i < n && 0 <= k < nested(records)[i].children.len() implies i < #[trigger] nested(
        records,
    )[i].children[k] < n by {
        lemma_children_of(levels, i, n);
    }
}

/// A root without children of its own gets the top-level records as its
/// children, and nothing else.
pub proof fn lemma_rooted_links(root: NodeView, records: Seq<NodeView>)
    requires
        root.children.len() == 0,
    ensures
        rooted(root, records).children == children_of(
            levels_of(records),
            -1,
            records.len() as int,
        ),
        forall|k: int|
            0 <= k < rooted(root, records).children.len() ==> 0 <= #[trigger] rooted(
                root,
                records,
            ).children[k] < records.len(),
{
    let levels = levels_of(records);
    let n = records.len() as int;
    lemma_children_of(levels, -1, n);
    assert(root.children + children_of(levels, -1, n) =~= children_of(levels, -1, n));
}

} // verus!
