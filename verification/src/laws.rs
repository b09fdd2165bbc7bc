use crate::forest::{document_forest, forest_of, tree_at, trees_at, TreeView};
use crate::nesting::{
    attached, candidate, children_of, fresh, lemma_candidate, lemma_children_of,
    lemma_nested_links, level_at, levels_of, nested,
};
use crate::node::{Node, NodeView, ParseError};
use crate::pattern::{regex_accepts, regex_captures};
use crate::text::lines_of;
use crate::tokenizer::{
    lemma_tokenize_fresh, matches_in, records_of, records_view, tokenize, LINE_PATTERN,
};
use vstd::prelude::*;

verus! {

// ----------------------------------------------------------------------
// What is stated
// ----------------------------------------------------------------------

/// Levels none of which is negative.
pub open spec fn no_negative(levels: Seq<int>) -> bool {
    forall|j: int| 0 <= j < levels.len() ==> levels[j] >= 0
}

/// Whether position `i` is position `p` or is nested under it: every step
/// from `i` up to `p` goes from a record to the parent it is attached to.
pub open spec fn under(levels: Seq<int>, p: int, i: int) -> bool
    decreases i + 1,
{
    let c = candidate(levels, i);
    if i == p {
        true
    } else if i < 0 || i <= p || c >= i || c < -1 {
        false
    } else {
        attached(levels, i) && under(levels, p, c)
    }
}

/// Whether record `i` is part of the forest: it is nested under the root.
pub open spec fn in_forest(levels: Seq<int>, i: int) -> bool {
    0 <= i < levels.len() && under(levels, -1, i)
}

/// The positions of the records of the forest among the first `upto`, in
/// document order.
pub open spec fn forest_positions(levels: Seq<int>, upto: int) -> Seq<int>
    decreases upto,
{
    if upto <= 0 {
        Seq::empty()
    } else {
        let earlier = forest_positions(levels, upto - 1);
        if in_forest(levels, upto - 1) {
            earlier.push(upto - 1)
        } else {
            earlier
        }
    }
}

/// The positions of the attached records among the first `upto`, in document
/// order.
pub open spec fn attached_positions(levels: Seq<int>, upto: int) -> Seq<int>
    decreases upto,
{
    if upto <= 0 {
        Seq::empty()
    } else {
        let earlier = attached_positions(levels, upto - 1);
        if attached(levels, upto - 1) {
            earlier.push(upto - 1)
        } else {
            earlier
        }
    }
}

/// The tags of the records at the given positions.
pub open spec fn tags_at(records: Seq<NodeView>, at: Seq<int>) -> Seq<Seq<char>> {
    at.map_values(|j: int| records[j].tag)
}

/// The positions that a walk in pre-order visits from record `i` on: the
/// record, then what the walk visits from each of its children, in order.
pub open spec fn walk(levels: Seq<int>, i: int) -> Seq<int>
    decreases levels.len() - i, 1int, 0int,
{
    if 0 <= i < levels.len() {
        seq![i] + walk_list(
            levels,
            i,
            children_of(levels, i, levels.len() as int).len() as int,
        )
    } else {
        Seq::empty()
    }
}

/// The positions that a walk in pre-order visits from the first `k` children
/// of position `p` on.
pub open spec fn walk_list(levels: Seq<int>, p: int, k: int) -> Seq<int>
    decreases levels.len() - p, 0int, k,
{
    let kids = children_of(levels, p, levels.len() as int);
    if k <= 0 || k > kids.len() || p < -1 {
        Seq::empty()
    } else {
        let c = kids[k - 1];
        walk_list(levels, p, k - 1) + (if p < c < levels.len() {
            walk(levels, c)
        } else {
            Seq::empty()
        })
    }
}

/// The tags of a tree in pre-order: its own, then those of each child's tree,
/// from left to right.
pub open spec fn preorder(t: TreeView) -> Seq<Seq<char>>
    decreases t,
{
    seq![t.tag] + preorder_all(t.children)
}

/// The tags of a run of trees in pre-order, from left to right.
pub open spec fn preorder_all(ts: Seq<TreeView>) -> Seq<Seq<char>>
    decreases ts,
{
    if ts.len() == 0 {
        Seq::empty()
    } else {
        preorder_all(ts.drop_last()) + preorder(ts.last())
    }
}

/// Whether every child in a tree, at whatever depth, is exactly one level
/// deeper than its parent.
pub open spec fn one_deeper_throughout(t: TreeView) -> bool
    decreases t,
{
    forall|k: int|
        0 <= k < t.children.len() ==> (#[trigger] t.children[k]).level == t.level + 1
            && one_deeper_throughout(t.children[k])
}

// ----------------------------------------------------------------------
// Sequences in ascending order
// ----------------------------------------------------------------------

spec fn ascending(s: Seq<int>) -> bool {
    forall|a: int, b: int| 0 <= a < b < s.len() ==> s[a] < s[b]
}

proof fn lemma_ascending_concat(x: Seq<int>, y: Seq<int>)
    requires
        ascending(x),
        ascending(y),
        forall|a: int, b: int| 0 <= a < x.len() && 0 <= b < y.len() ==> x[a] < y[b],
    ensures
        ascending(x + y),
        forall|e: int| #[trigger] (x + y).contains(e) <==> x.contains(e) || y.contains(e),
{
    let z = x + y;
    assert forall|a: int, b: int| 0 <= a < b < z.len() implies z[a] < z[b] by {
        if b < x.len() {
        } else if a >= x.len() {
            assert(z[a] == y[a - x.len()]);
            assert(z[b] == y[b - x.len()]);
        } else {
            assert(z[b] == y[b - x.len()]);
        }
    }
    assert forall|e: int| #[trigger] z.contains(e) <==> x.contains(e) || y.contains(e) by {
        if z.contains(e) {
            let i = choose|i: int| 0 <= i < z.len() && z[i] == e;
            if i < x.len() {
                assert(x[i] == e);
            } else {
                assert(y[i - x.len()] == e);
            }
        }
        if x.contains(e) {
            let i = choose|i: int| 0 <= i < x.len() && x[i] == e;
            assert(z[i] == e);
        }
        if y.contains(e) {
            let i = choose|i: int| 0 <= i < y.len() && y[i] == e;
            assert(z[i + x.len()] == e);
        }
    }
}

/// Two ascending sequences that hold the same numbers are one sequence.
proof fn lemma_ascending_unique(s: Seq<int>, t: Seq<int>)
    requires
        ascending(s),
        ascending(t),
        forall|e: int|
            #![trigger s.contains(e)]
            #![trigger t.contains(e)]
            s.contains(e) <==> t.contains(e),
    ensures
        s == t,
    decreases s.len(),
{
    if s.len() == 0 {
        if t.len() > 0 {
            assert(t.contains(t[0]));
            assert(s.contains(t[0]));
        }
        assert(s =~= t);
    } else {
        let a = s.last();
        assert(s.contains(a));
        assert(t.contains(a));
        let b = t.last();
        assert(t.contains(b));
        assert(s.contains(b));
        let ia = choose|i: int| 0 <= i < t.len() && t[i] == a;
        let ib = choose|i: int| 0 <= i < s.len() && s[i] == b;
        assert(a == b);
        let s1 = s.drop_last();
        let t1 = t.drop_last();
        assert forall|e: int|
            #![trigger s1.contains(e)]
            #![trigger t1.contains(e)]
            s1.contains(e) <==> t1.contains(e) by {
            if s1.contains(e) {
                let i = choose|i: int| 0 <= i < s1.len() && s1[i] == e;
                assert(s[i] == e);
                assert(s.contains(e));
                let j = choose|j: int| 0 <= j < t.len() && t[j] == e;
                assert(t1[j] == e);
            }
            if t1.contains(e) {
                let i = choose|i: int| 0 <= i < t1.len() && t1[i] == e;
                assert(t[i] == e);
                assert(t.contains(e));
                let j = choose|j: int| 0 <= j < s.len() && s[j] == e;
                assert(s1[j] == e);
            }
        }
        lemma_ascending_unique(s1, t1);
        assert(s =~= s1.push(a));
        assert(t =~= t1.push(b));
    }
}

// ----------------------------------------------------------------------
// Nesting
// ----------------------------------------------------------------------

spec fn is_child(levels: Seq<int>, p: int, c: int) -> bool {
    0 <= c < levels.len() && candidate(levels, c) == p && attached(levels, c)
}

/// Whether position `e` is one of the first `k` children of `p` or is nested
/// under one of them.
spec fn under_first(levels: Seq<int>, p: int, k: int, e: int) -> bool
    decreases k,
{
    let kids = children_of(levels, p, levels.len() as int);
    if k <= 0 || k > kids.len() {
        false
    } else {
        under_first(levels, p, k - 1, e) || under(levels, kids[k - 1], e)
    }
}

/// Every record from a position down to one nested under it is deeper than
/// the position.
proof fn lemma_under_deeper(levels: Seq<int>, p: int, i: int)
    requires
        no_negative(levels),
        -1 <= p,
        0 <= i < levels.len(),
        under(levels, p, i),
    ensures
        forall|j: int| p < j <= i ==> levels[j] > level_at(levels, p),
    decreases i,
{
    if i != p {
        let q = candidate(levels, i);
        lemma_candidate(levels, i);
        assert(attached(levels, i) && under(levels, p, q));
        if q != p {
            assert(q > p);
            lemma_under_deeper(levels, p, q);
        }
        assert(level_at(levels, q) >= level_at(levels, p));
    }
}

/// What is nested under a child is nested under its parent.
proof fn lemma_under_parent(levels: Seq<int>, p: int, c: int, e: int)
    requires
        is_child(levels, p, c),
        -1 <= p,
        0 <= e < levels.len(),
        under(levels, c, e),
    ensures
        under(levels, p, e),
        p < c <= e,
    decreases e,
{
    lemma_candidate(levels, c);
    if e == c {
        assert(under(levels, p, p));
    } else {
        let q = candidate(levels, e);
        lemma_candidate(levels, e);
        assert(attached(levels, e) && under(levels, c, q));
        assert(q >= c);
        lemma_under_parent(levels, p, c, q);
    }
}

/// What is nested under a position, and is not the position, is a child of
/// it or nested under one.
proof fn lemma_under_child(levels: Seq<int>, p: int, e: int) -> (c: int)
    requires
        -1 <= p,
        0 <= e < levels.len(),
        e != p,
        under(levels, p, e),
    ensures
        is_child(levels, p, c),
        p < c <= e,
        under(levels, c, e),
    decreases e,
{
    let q = candidate(levels, e);
    lemma_candidate(levels, e);
    assert(attached(levels, e) && under(levels, p, q));
    if q == p {
        assert(under(levels, e, e));
        e
    } else {
        assert(q > p);
        let c = lemma_under_child(levels, p, q);
        assert(under(levels, c, e));
        c
    }
}

proof fn lemma_first_intro(levels: Seq<int>, p: int, k: int, m: int, e: int)
    requires
        0 <= m < k <= children_of(levels, p, levels.len() as int).len(),
        under(levels, children_of(levels, p, levels.len() as int)[m], e),
    ensures
        under_first(levels, p, k, e),
    decreases k,
{
    if m < k - 1 {
        lemma_first_intro(levels, p, k - 1, m, e);
    }
}

proof fn lemma_first_elim(levels: Seq<int>, p: int, k: int, e: int)
    requires
        -1 <= p,
        0 <= e < levels.len(),
        under_first(levels, p, k, e),
    ensures
        under(levels, p, e),
        p < e,
    decreases k,
{
    let kids = children_of(levels, p, levels.len() as int);
    if under(levels, kids[k - 1], e) {
        lemma_children_of(levels, p, levels.len() as int);
        lemma_under_parent(levels, p, kids[k - 1], e);
    } else {
        lemma_first_elim(levels, p, k - 1, e);
    }
}

/// What is nested under one of the first `k` children stands before every
/// later child.
proof fn lemma_first_bound(levels: Seq<int>, p: int, k: int, m: int, e: int)
    requires
        no_negative(levels),
        -1 <= p,
        0 <= e < levels.len(),
        0 <= k <= m < children_of(levels, p, levels.len() as int).len(),
        under_first(levels, p, k, e),
    ensures
        e < children_of(levels, p, levels.len() as int)[m],
    decreases k,
{
    let kids = children_of(levels, p, levels.len() as int);
    lemma_children_of(levels, p, levels.len() as int);
    if under(levels, kids[k - 1], e) {
        let c = kids[k - 1];
        let later = kids[m];
        assert(c < later);
        lemma_under_deeper(levels, c, e);
        if e >= later {
            assert(levels[later] > level_at(levels, c));
            assert(false);
        }
    } else {
        lemma_first_bound(levels, p, k - 1, m, e);
    }
}

// ----------------------------------------------------------------------
// The walk
// ----------------------------------------------------------------------

proof fn lemma_walk(levels: Seq<int>, i: int)
    requires
        no_negative(levels),
        0 <= i < levels.len(),
    ensures
        ascending(walk(levels, i)),
        forall|e: int|
            #[trigger] walk(levels, i).contains(e) <==> (0 <= e < levels.len() && under(
                levels,
                i,
                e,
            )),
    decreases levels.len() - i, 1int, 0int,
{
    let n = levels.len() as int;
    let kids = children_of(levels, i, n);
    let m = kids.len() as int;
    lemma_walk_list(levels, i, m);
    lemma_children_of(levels, i, n);
    let first = seq![i];
    let rest = walk_list(levels, i, m);
    assert forall|a: int, b: int| 0 <= a < first.len() && 0 <= b < rest.len() implies first[a]
        < rest[b] by {
        assert(rest.contains(rest[b]));
        lemma_first_elim(levels, i, m, rest[b]);
    }
    lemma_ascending_concat(first, rest);
    assert(walk(levels, i) == first + rest);
    assert forall|e: int| #[trigger]
        walk(levels, i).contains(e) <==> (0 <= e < n && under(levels, i, e)) by {
        if first.contains(e) {
            let a = choose|a: int| 0 <= a < first.len() && first[a] == e;
            assert(e == i);
        }
        if rest.contains(e) {
            lemma_first_elim(levels, i, m, e);
        }
        if 0 <= e < n && under(levels, i, e) {
            if e == i {
                assert(first[0] == e);
            } else {
                let c = lemma_under_child(levels, i, e);
                assert(kids.contains(c));
                let j = choose|j: int| 0 <= j < kids.len() && kids[j] == c;
                lemma_first_intro(levels, i, m, j, e);
            }
        }
    }
}

proof fn lemma_walk_list(levels: Seq<int>, p: int, k: int)
    requires
        no_negative(levels),
        -1 <= p < levels.len(),
        0 <= k <= children_of(levels, p, levels.len() as int).len(),
    ensures
        ascending(walk_list(levels, p, k)),
        forall|e: int|
            #[trigger] walk_list(levels, p, k).contains(e) <==> (0 <= e < levels.len() && under_first(
                levels,
                p,
                k,
                e,
            )),
    decreases levels.len() - p, 0int, k,
{
    let n = levels.len() as int;
    let kids = children_of(levels, p, n);
    if k > 0 {
        lemma_children_of(levels, p, n);
        let c = kids[k - 1];
        lemma_walk_list(levels, p, k - 1);
        lemma_walk(levels, c);
        let x = walk_list(levels, p, k - 1);
        let y = walk(levels, c);
        assert forall|a: int, b: int| 0 <= a < x.len() && 0 <= b < y.len() implies x[a] < y[b] by {
            assert(x.contains(x[a]));
            assert(y.contains(y[b]));
            lemma_first_bound(levels, p, k - 1, k - 1, x[a]);
        }
        lemma_ascending_concat(x, y);
    }
}

proof fn lemma_forest_positions(levels: Seq<int>, upto: int)
    requires
        0 <= upto <= levels.len(),
    ensures
        ascending(forest_positions(levels, upto)),
        forall|e: int|
            #[trigger] forest_positions(levels, upto).contains(e) <==> (0 <= e < upto && in_forest(
                levels,
                e,
            )),
    decreases upto,
{
    if upto > 0 {
        lemma_forest_positions(levels, upto - 1);
        let earlier = forest_positions(levels, upto - 1);
        let all = forest_positions(levels, upto);
        if in_forest(levels, upto - 1) {
            let one = seq![upto - 1];
            assert forall|a: int, b: int| 0 <= a < earlier.len() && 0 <= b < one.len() implies earlier[a]
                < one[b] by {
                assert(earlier.contains(earlier[a]));
            }
            lemma_ascending_concat(earlier, one);
            assert(all =~= earlier + one);
            assert forall|e: int| #[trigger]
                all.contains(e) <==> (0 <= e < upto && in_forest(levels, e)) by {
                if one.contains(e) {
                    let a = choose|a: int| 0 <= a < one.len() && one[a] == e;
                }
                if e == upto - 1 {
                    assert(one[0] == e);
                }
            }
        }
    }
}

/// A walk in pre-order from the top-level records on visits the records of
/// the forest, each once, in document order.
pub proof fn lemma_walk_is_document_order(levels: Seq<int>)
    requires
        no_negative(levels),
    ensures
        walk_list(levels, -1, children_of(levels, -1, levels.len() as int).len() as int)
            == forest_positions(levels, levels.len() as int),
{
    let n = levels.len() as int;
    let kids = children_of(levels, -1, n);
    let m = kids.len() as int;
    let w = walk_list(levels, -1, m);
    let f = forest_positions(levels, n);
    lemma_walk_list(levels, -1, m);
    lemma_forest_positions(levels, n);
    lemma_children_of(levels, -1, n);
    assert forall|e: int|
        #![trigger w.contains(e)]
        #![trigger f.contains(e)]
        w.contains(e) <==> f.contains(e) by {
        if w.contains(e) {
            lemma_first_elim(levels, -1, m, e);
        }
        if f.contains(e) {
            let c = lemma_under_child(levels, -1, e);
            assert(kids.contains(c));
            let j = choose|j: int| 0 <= j < kids.len() && kids[j] == c;
            lemma_first_intro(levels, -1, m, j, e);
        }
    }
    lemma_ascending_unique(w, f);
}

// ----------------------------------------------------------------------
// The forest
// ----------------------------------------------------------------------

proof fn lemma_fresh_levels(records: Seq<NodeView>)
    requires
        fresh(records),
    ensures
        no_negative(levels_of(records)),
        levels_of(records).len() == records.len(),
{
    assert forall|j: int| 0 <= j < levels_of(records).len() implies levels_of(records)[j] >= 0 by {
        assert(levels_of(records)[j] == records[j].level);
    }
}

proof fn lemma_tree_children(records: Seq<NodeView>, i: int)
    requires
        fresh(records),
        0 <= i < records.len(),
    ensures
        tree_at(nested(records), i).children == trees_at(
            nested(records),
            children_of(levels_of(records), i, records.len() as int),
        ),
        tree_at(nested(records), i).tag == records[i].tag,
        tree_at(nested(records), i).level == records[i].level,
{
    lemma_nested_links(records);
    let nodes = nested(records);
    let kids = children_of(levels_of(records), i, records.len() as int);
    assert(nodes[i].children == kids);
    assert(tree_at(nodes, i).children =~= trees_at(nodes, kids)) by {
        assert forall|k: int| 0 <= k < kids.len() implies tree_at(nodes, i).children[k]
            == trees_at(nodes, kids)[k] by {
            assert(i < nodes[i].children[k] < nodes.len());
        }
    }
}

proof fn lemma_preorder_walk(records: Seq<NodeView>, i: int)
    requires
        fresh(records),
        0 <= i < records.len(),
    ensures
        preorder(tree_at(nested(records), i)) == tags_at(records, walk(levels_of(records), i)),
    decreases records.len() - i, 1int, 0int,
{
    let levels = levels_of(records);
    let n = records.len() as int;
    let kids = children_of(levels, i, n);
    let m = kids.len() as int;
    lemma_tree_children(records, i);
    lemma_preorder_walk_list(records, i, m);
    assert(kids.take(m) =~= kids);
    let rest = walk_list(levels, i, m);
    assert(tags_at(records, seq![i] + rest) =~= seq![records[i].tag] + tags_at(records, rest));
}

proof fn lemma_preorder_walk_list(records: Seq<NodeView>, p: int, k: int)
    requires
        fresh(records),
        -1 <= p < records.len(),
        0 <= k <= children_of(levels_of(records), p, records.len() as int).len(),
    ensures
        preorder_all(
            trees_at(
                nested(records),
                children_of(levels_of(records), p, records.len() as int).take(k),
            ),
        ) == tags_at(records, walk_list(levels_of(records), p, k)),
    decreases records.len() - p, 0int, k,
{
    let levels = levels_of(records);
    let n = records.len() as int;
    let nodes = nested(records);
    let kids = children_of(levels, p, n);
    let ts = trees_at(nodes, kids.take(k));
    if k == 0 {
        assert(tags_at(records, walk_list(levels, p, k)) =~= Seq::empty());
    } else {
        lemma_children_of(levels, p, n);
        let c = kids[k - 1];
        lemma_preorder_walk_list(records, p, k - 1);
        lemma_preorder_walk(records, c);
        assert(ts.drop_last() =~= trees_at(nodes, kids.take(k - 1)));
        assert(ts.last() == tree_at(nodes, c));
        let x = walk_list(levels, p, k - 1);
        let y = walk(levels, c);
        assert(tags_at(records, x + y) =~= tags_at(records, x) + tags_at(records, y));
    }
}

proof fn lemma_tree_levels(records: Seq<NodeView>, i: int)
    requires
        fresh(records),
        0 <= i < records.len(),
    ensures
        one_deeper_throughout(tree_at(nested(records), i)),
    decreases records.len() - i,
{
    let levels = levels_of(records);
    let n = records.len() as int;
    let kids = children_of(levels, i, n);
    let t = tree_at(nested(records), i);
    lemma_tree_children(records, i);
    lemma_children_of(levels, i, n);
    assert forall|k: int| 0 <= k < t.children.len() implies (#[trigger] t.children[k]).level
        == t.level + 1 && one_deeper_throughout(t.children[k]) by {
        let c = kids[k];
        lemma_tree_children(records, c);
        lemma_tree_levels(records, c);
        assert(levels[c] == records[c].level);
        assert(levels[i] == records[i].level);
    }
}

// ----------------------------------------------------------------------
// Laws
// ----------------------------------------------------------------------

/// Order is kept: the tags met on a walk in pre-order, from left to right,
/// over the forest of a document are the tags of the records that are part of
/// the forest, in document order.
pub proof fn lemma_preorder_is_document_order(records: Seq<NodeView>)
    requires
        fresh(records),
    ensures
        preorder_all(forest_of(records)) == tags_at(
            records,
            forest_positions(levels_of(records), records.len() as int),
        ),
{
    let levels = levels_of(records);
    let n = records.len() as int;
    let kids = children_of(levels, -1, n);
    lemma_fresh_levels(records);
    lemma_preorder_walk_list(records, -1, kids.len() as int);
    assert(kids.take(kids.len() as int) =~= kids);
    lemma_walk_is_document_order(levels);
}

/// Levels step by one: the trees of a forest stand at level 0, and every
/// child in them is exactly one level deeper than its parent.
pub proof fn lemma_forest_levels(records: Seq<NodeView>)
    requires
        fresh(records),
    ensures
        forall|k: int|
            0 <= k < forest_of(records).len() ==> (#[trigger] forest_of(records)[k]).level == 0
                && one_deeper_throughout(forest_of(records)[k]),
{
    let levels = levels_of(records);
    let n = records.len() as int;
    let kids = children_of(levels, -1, n);
    lemma_children_of(levels, -1, n);
    assert forall|k: int| 0 <= k < forest_of(records).len() implies (#[trigger] forest_of(
        records,
    )[k]).level == 0 && one_deeper_throughout(forest_of(records)[k]) by {
        let c = kids[k];
        lemma_tree_children(records, c);
        lemma_tree_levels(records, c);
        assert(levels[c] == records[c].level);
    }
}

/// Order is kept, said of attached records: where every record that is
/// attached to its candidate is part of the forest, the tags met on a walk in
/// pre-order over the forest are the tags of the attached records, in document
/// order. A document in which a record is attached to one that the forest
/// leaves out is no such document.
pub proof fn lemma_preorder_of_attached(records: Seq<NodeView>)
    requires
        fresh(records),
        forall|i: int|
            0 <= i < records.len() && attached(levels_of(records), i) ==> in_forest(
                levels_of(records),
                i,
            ),
    ensures
        preorder_all(forest_of(records)) == tags_at(
            records,
            attached_positions(levels_of(records), records.len() as int),
        ),
{
    lemma_preorder_is_document_order(records);
    lemma_fresh_levels(records);
    lemma_attached_positions(levels_of(records), records.len() as int);
}

proof fn lemma_attached_positions(levels: Seq<int>, upto: int)
    requires
        0 <= upto <= levels.len(),
        forall|i: int| 0 <= i < levels.len() && attached(levels, i) ==> in_forest(levels, i),
    ensures
        attached_positions(levels, upto) == forest_positions(levels, upto),
    decreases upto,
{
    if upto > 0 {
        lemma_attached_positions(levels, upto - 1);
        if in_forest(levels, upto - 1) {
            lemma_candidate(levels, upto - 1);
        }
    }
}

/// Tokenizing is a function of the text: whatever two runs on one text give,
/// they give the same records in the same order, or the same error.
pub proof fn lemma_tokenize_deterministic(
    text: Seq<char>,
    first: Result<Vec<Node>, ParseError>,
    second: Result<Vec<Node>, ParseError>,
)
    ensures
        records_view(first) == tokenize(text) && records_view(second) == tokenize(text)
            ==> records_view(first) == records_view(second),
{
}

/// Both laws hold of the forest of every document that can be tokenized.
pub proof fn lemma_document_forest(text: Seq<char>)
    ensures
        tokenize(text) matches Ok(records) ==> {
            &&& document_forest(text) == Ok::<Seq<TreeView>, ParseError>(forest_of(records))
            &&& preorder_all(forest_of(records)) == tags_at(
                records,
                forest_positions(levels_of(records), records.len() as int),
            )
            &&& forall|k: int|
                0 <= k < forest_of(records).len() ==> (#[trigger] forest_of(records)[k]).level == 0
                    && one_deeper_throughout(forest_of(records)[k])
        },
{
    if let Ok(records) = tokenize(text) {
        lemma_tokenize_fresh(text);
        lemma_preorder_is_document_order(records);
        lemma_forest_levels(records);
    }
}

/// A child is one level deeper than its parent, and a child of the root is at
/// level 0, whatever the levels of the document are.
pub proof fn lemma_child_one_deeper(levels: Seq<int>, p: int, k: int)
    requires
        0 <= k < children_of(levels, p, levels.len() as int).len(),
    ensures
        levels[children_of(levels, p, levels.len() as int)[k]] == level_at(levels, p) + 1,
{
    lemma_children_of(levels, p, levels.len() as int);
}

/// A document in which no line matches the grammar has an empty forest.
pub proof fn lemma_no_match_no_tree(text: Seq<char>)
    ensures
        regex_accepts(LINE_PATTERN@) && (forall|k: int|
            0 <= k < lines_of(text).len() ==> (#[trigger] regex_captures(
                LINE_PATTERN@,
                lines_of(text)[k],
            )).len() == 0) ==> tokenize(text) == Ok::<Seq<NodeView>, ParseError>(Seq::empty())
            && document_forest(text) == Ok::<Seq<TreeView>, ParseError>(Seq::empty()),
{
    if regex_accepts(LINE_PATTERN@) && (forall|k: int|
        0 <= k < lines_of(text).len() ==> (#[trigger] regex_captures(
            LINE_PATTERN@,
            lines_of(text)[k],
        )).len() == 0) {
        lemma_no_matches(lines_of(text));
        let found = matches_in(lines_of(text));
        assert(found.len() == 0);
        let records = records_of(found)->Ok_0;
        assert(records =~= Seq::empty());
        assert(forest_of(records) =~= Seq::empty());
    }
}

proof fn lemma_no_matches(lines: Seq<Seq<char>>)
    requires
        forall|k: int|
            0 <= k < lines.len() ==> (#[trigger] regex_captures(LINE_PATTERN@, lines[k])).len()
                == 0,
    ensures
        matches_in(lines).len() == 0,
    decreases lines.len(),
{
    let f = |line: Seq<char>| regex_captures(LINE_PATTERN@, line);
    let per_line = lines.map_values(f);
    if lines.len() > 0 {
        let rest = lines.drop_first();
        assert forall|k: int| 0 <= k < rest.len() implies (#[trigger] regex_captures(
            LINE_PATTERN@,
            rest[k],
        )).len() == 0 by {
            assert(rest[k] == lines[k + 1]);
        }
        lemma_no_matches(rest);
        assert(per_line.drop_first() =~= rest.map_values(f));
        assert(per_line.first() == regex_captures(LINE_PATTERN@, lines[0]));
    }
}

} // verus!
