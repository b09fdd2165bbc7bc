use crate::nesting::{
    adopt, attached, candidate, children_of, lemma_candidate, lemma_nearest_shallower_skips,
    level_at, levels_of, nearest_shallower, nested, rooted,
};
use crate::node::{Node, NodeView};
use vstd::prelude::*;

verus! {

/// The position that a stack entry stands for: `None` is the root.
spec fn position(entry: Option<usize>) -> int {
    match entry {
        Some(p) => p as int,
        None => -1,
    }
}

spec fn positions(stack: Seq<Option<usize>>) -> Seq<int> {
    stack.map_values(|entry: Option<usize>| position(entry))
}

/// The open scopes once the record at position `p` has been placed: the root,
/// then each record whose scope is still open, down to `p` itself.
spec fn open_scopes(levels: Seq<int>, p: int) -> Seq<int>
    decreases p + 1,
{
    let c = candidate(levels, p);
    if p < 0 || c >= p || c < -1 {
        seq![-1]
    } else {
        open_scopes(levels, c).push(p)
    }
}

proof fn lemma_open_scopes(levels: Seq<int>, p: int)
    requires
        -1 <= p < levels.len(),
    ensures
        open_scopes(levels, p).len() >= 1,
        open_scopes(levels, p).last() == p,
        p >= 0 ==> open_scopes(levels, p).drop_last() == open_scopes(levels, candidate(levels, p)),
        p >= 0 ==> -1 <= candidate(levels, p) < p,
{
    if p >= 0 {
        lemma_candidate(levels, p);
        let below = open_scopes(levels, candidate(levels, p));
        assert(below.push(p).drop_last() =~= below);
    }
}

fn entry_level(nodes: &Vec<Node>, root: &Node, entry: Option<usize>) -> (level: i32)
    requires
        entry matches Some(p) ==> p < nodes.len(),
    ensures
        level == match entry {
            Some(p) => nodes[p as int].level,
            None => root.level,
        },
{
    match entry {
        Some(p) => nodes[p].level,
        None => root.level,
    }
}

/// Nests the records of a document under one another and under the root.
///
/// The records are taken in document order. Each one is held against the
/// scopes that are still open, the deepest first, until one is found that is
/// shallower than the record; scopes that are passed over are closed. The
/// record becomes a child of that scope's owner if it is exactly one level
/// deeper, and of nothing otherwise; either way it then opens a scope of its
/// own. Children are given as positions in `ordered_nodes`.
pub fn build_tree(ordered_nodes: &mut Vec<Node>, dummy_root: &mut Node)
    requires
        old(dummy_root).level == -1,
        forall|i: int| 0 <= i < old(ordered_nodes).len() ==> old(ordered_nodes)[i].level >= 0,
    ensures
        final(ordered_nodes).len() == old(ordered_nodes).len(),
        final(ordered_nodes).deep_view() == nested(old(ordered_nodes).deep_view()),
        final(dummy_root)@ == rooted(old(dummy_root)@, old(ordered_nodes).deep_view()),
{
    let n = ordered_nodes.len();
    let ghost records = ordered_nodes.deep_view();
    let ghost levels = levels_of(records);
    let ghost root = dummy_root@;
    let mut stack: Vec<Option<usize>> = Vec::new();
    stack.push(None);
    let mut i: usize = 0;
    proof {
        assert(positions(stack@) =~= open_scopes(levels, -1));
        assert(dummy_root@.children + children_of(levels, -1, 0) =~= dummy_root@.children);
        assert forall|j: int| 0 <= j < n implies (#[trigger] ordered_nodes[j])@ == adopt(
            records[j],
            children_of(levels, j, 0),
        ) by {
            assert(records[j].children + children_of(levels, j, 0) =~= records[j].children);
        }
    }
    while i < n
        invariant
            i <= n,
            n == ordered_nodes.len(),
            n == records.len(),
            levels == levels_of(records),
            forall|j: int| 0 <= j < n ==> levels[j] >= 0,
            root.level == -1,
            dummy_root@ == adopt(root, children_of(levels, -1, i as int)),
            forall|j: int|
                0 <= j < n ==> (#[trigger] ordered_nodes[j])@ == adopt(
                    records[j],
                    children_of(levels, j, i as int),
                ),
            positions(stack@) == open_scopes(levels, i - 1),
        decreases n - i,
    {
        let level = ordered_nodes[i].level;
        assert(level == levels[i as int]) by {
            assert(ordered_nodes[i as int]@.level == records[i as int].level);
        }
        proof {
            lemma_open_scopes(levels, i - 1);
        }
        let ghost before = stack@;
        let mut popped = stack.pop().unwrap();
        proof {
            assert(positions(before).last() == position(before.last()));
            assert(positions(stack@) =~= positions(before).drop_last());
        }
        while entry_level(ordered_nodes, dummy_root, popped) >= level
            invariant
                i < n,
                n == ordered_nodes.len(),
                n == records.len(),
                levels == levels_of(records),
                level == levels[i as int],
                forall|j: int| 0 <= j < n ==> levels[j] >= 0,
                forall|j: int| 0 <= j < n ==> (#[trigger] ordered_nodes[j])@.level == levels[j],
                dummy_root.level == -1,
                -1 <= position(popped) < i,
                positions(stack@) == open_scopes(levels, position(popped)).drop_last(),
                candidate(levels, i as int) == nearest_shallower(
                    levels,
                    level as int,
                    position(popped) + 1,
                ),
            decreases position(popped) + 1,
        {
            let ghost p = position(popped);
            assert(p >= 0);
            assert(ordered_nodes[p]@.level == levels[p]);
            proof {
                lemma_open_scopes(levels, p);
                lemma_open_scopes(levels, candidate(levels, p));
                lemma_candidate(levels, p);
                lemma_nearest_shallower_skips(levels, level as int, candidate(levels, p) + 1, p);
            }
            let ghost above = stack@;
            popped = stack.pop().unwrap();
            proof {
                assert(positions(above).last() == position(above.last()));
                assert(positions(stack@) =~= positions(above).drop_last());
            }
        }
        proof {
            let p = position(popped);
            if p >= 0 {
                assert(ordered_nodes[p]@.level == levels[p]);
            }
            assert(candidate(levels, i as int) == p);
            lemma_open_scopes(levels, p);
        }
        let ghost kids = children_of(levels, position(popped), i as int);
        match popped {
            Some(p) => {
                if ordered_nodes[p].level == level - 1 {
                    let ghost parent = ordered_nodes[p as int]@;
                    ordered_nodes[p].children.push(i);
                    proof {
                        assert(ordered_nodes[p as int]@.children =~= parent.children.push(i as int));
                        assert(records[p as int].children + kids.push(i as int) =~= (records[p as int].children
                            + kids).push(i as int));
                    }
                }
            },
            None => {
                if dummy_root.level == level - 1 {
                    let ghost parent = dummy_root@;
                    dummy_root.children.push(i);
                    proof {
                        assert(dummy_root@.children =~= parent.children.push(i as int));
                        assert(root.children + kids.push(i as int) =~= (root.children + kids).push(
                            i as int,
                        ));
                    }
                }
            },
        }
        let ghost unwound = stack@;
        stack.push(popped);
        stack.push(Some(i));
        proof {
            let p = position(popped);
            assert(positions(stack@) =~= positions(unwound).push(p).push(i as int));
            assert(open_scopes(levels, p).drop_last().push(p) =~= open_scopes(levels, p));
            lemma_candidate(levels, i as int);
        }
        i += 1;
    }
    proof {
        assert(ordered_nodes.deep_view() =~= nested(records));
    }
}

} // verus!
