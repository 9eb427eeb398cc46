use vstd::prelude::*;

use crate::engine::node_keyword;
use crate::walk::{
    initial_walk, pending_action, walk_step, walk_wf, EventView, Frame, NodeAction, Phase,
    WalkView, MAX_DEPTH,
};

verus! {

/// What a window's node tree answers, node by node: its labels, whether it
/// and its parent are clickable and whether clicking them succeeds, its child
/// count, and for each child index whether the child can be had (`None`
/// where not; indices past `children` cannot be had either).
pub struct UiNode {
    pub text: Seq<char>,
    pub desc: Seq<char>,
    pub clickable: bool,
    pub click_ok: bool,
    pub parent_clickable: bool,
    pub parent_click_ok: bool,
    pub child_count: i32,
    pub children: Seq<Option<UiNode>>,
}

/// The child with index `i`, where it can be had.
pub open spec fn child_of(n: UiNode, i: int) -> Option<UiNode> {
    if 0 <= i < n.children.len() {
        n.children[i]
    } else {
        None
    }
}

/// The first of the two that is found.
pub open spec fn or_else(a: Option<Seq<char>>, b: Option<Seq<char>>) -> Option<Seq<char>> {
    match a {
        Some(x) => Some(x),
        None => b,
    }
}

/// Whether a node with a matching keyword gets pressed: the node is clickable
/// and its click succeeds, or it is not clickable and its parent is, and the
/// parent's click succeeds.
pub open spec fn presses(n: UiNode) -> bool {
    ||| n.clickable && n.click_ok
    ||| !n.clickable && n.parent_clickable && n.parent_click_ok
}

/// The search for a skip button in the subtree of `n`, at depth `depth`, with
/// keyword patterns `p`: nothing below `MAX_DEPTH`; the node's own keyword
/// where it matches and gets pressed; else the first child, in order, whose
/// subtree yields one.
pub open spec fn search(p: Seq<Seq<char>>, n: UiNode, depth: int) -> Option<Seq<char>>
    decreases n, 1int, 0int,
{
    if depth > MAX_DEPTH {
        None
    } else {
        match node_keyword(p, n.text, n.desc) {
            Some(k) => if presses(n) {
                Some(k)
            } else {
                search_children(p, n, depth, 0)
            },
            None => search_children(p, n, depth, 0),
        }
    }
}

/// The search over the children of `n` from index `i` on.
pub open spec fn search_children(p: Seq<Seq<char>>, n: UiNode, depth: int, i: int) -> Option<
    Seq<char>,
>
    decreases n, 0int, n.child_count - i,
{
    if i < 0 || i >= n.child_count {
        None
    } else {
        let rest = search_children(p, n, depth, i + 1);
        if i < n.children.len() {
            match n.children[i] {
                Some(c) => or_else(search(p, c, depth + 1), rest),
                None => rest,
            }
        } else {
            rest
        }
    }
}

/// The node at depth `k` on the walk's path: the root, then at each level the
/// child last opened.
pub open spec fn node_at(root: UiNode, frames: Seq<Frame>, k: int) -> UiNode
    decreases k,
{
    if k <= 0 {
        root
    } else {
        child_of(node_at(root, frames, k - 1), frames[k - 1].next_child - 1)->Some_0
    }
}

/// The answer that the tree gives to `a` when the walk is in state `w`.
pub open spec fn tree_answer(root: UiNode, w: WalkView, a: NodeAction) -> EventView {
    let n = node_at(root, w.frames, w.frames.len() - 1);
    match a {
        NodeAction::ReadLabels => EventView::Labels(n.text, n.desc),
        NodeAction::CheckClickable => EventView::Answer(n.clickable),
        NodeAction::Click => EventView::Answer(n.click_ok),
        NodeAction::CheckParentClickable => EventView::Answer(n.parent_clickable),
        NodeAction::ClickParent => EventView::Answer(n.parent_click_ok),
        NodeAction::CountChildren => EventView::ChildCount(n.child_count),
        NodeAction::OpenChild(i) => EventView::ChildOpened(child_of(n, i as int) is Some),
        _ => EventView::NodeClosed,
    }
}

/// Whether the walk is over.
pub open spec fn walk_done(w: WalkView) -> bool {
    w.phase == Phase::Found || w.phase == Phase::NotFound
}

/// The walk from `w` with each action answered by the tree, for at most
/// `fuel` steps: its final state, or `None` where it is not over by then.
pub open spec fn run_walk(p: Seq<Seq<char>>, root: UiNode, w: WalkView, fuel: nat) -> Option<WalkView>
    decreases fuel,
{
    if walk_done(w) {
        Some(w)
    } else if fuel == 0 {
        None
    } else {
        run_walk(p, root, walk_step(w, p, tree_answer(root, w, pending_action(w))).0, (fuel - 1) as nat)
    }
}

/// What a finished walk reports: the keyword of the pressed button, if any.
pub open spec fn walk_result(w: WalkView) -> Option<Seq<char>> {
    if w.phase == Phase::Found {
        Some(w.keyword)
    } else {
        None
    }
}

/// What is left of the search at the node the walk stands on.
pub open spec fn top_result(p: Seq<Seq<char>>, root: UiNode, w: WalkView) -> Option<Seq<char>> {
    let d = w.frames.len() - 1;
    let n = node_at(root, w.frames, d);
    match w.phase {
        Phase::AwaitLabels => search(p, n, d),
        Phase::AwaitClickable => if presses(n) {
            Some(w.keyword)
        } else {
            search_children(p, n, d, 0)
        },
        Phase::AwaitClick => if n.click_ok {
            Some(w.keyword)
        } else {
            search_children(p, n, d, 0)
        },
        Phase::AwaitParentClickable => if n.parent_clickable && n.parent_click_ok {
            Some(w.keyword)
        } else {
            search_children(p, n, d, 0)
        },
        Phase::AwaitParentClick => if n.parent_click_ok {
            Some(w.keyword)
        } else {
            search_children(p, n, d, 0)
        },
        Phase::AwaitCount => search_children(p, n, d, 0),
        Phase::AwaitChild => search_children(p, n, d, w.frames.last().next_child - 1),
        Phase::AwaitClose => None,
        Phase::Found => Some(w.keyword),
        Phase::NotFound => None,
    }
}

/// What is left of the search at the levels from `k` up to the root, each
/// going on with its next child.
pub open spec fn unwind(p: Seq<Seq<char>>, root: UiNode, frames: Seq<Frame>, k: int) -> Option<Seq<char>>
    decreases k + 1,
{
    if k < 0 {
        None
    } else {
        or_else(
            search_children(p, node_at(root, frames, k), k, frames[k].next_child as int),
            unwind(p, root, frames, k - 1),
        )
    }
}

/// What the walk will report from state `w`.
pub open spec fn predicted(p: Seq<Seq<char>>, root: UiNode, w: WalkView) -> Option<Seq<char>> {
    or_else(top_result(p, root, w), unwind(p, root, w.frames, w.frames.len() - 2))
}

/// The walk follows the tree: each level above the node it stands on has
/// the tree's child count and has opened a child the tree has; and what it
/// will report is what the search over the whole tree gives.
pub open spec fn follows_tree(p: Seq<Seq<char>>, root: UiNode, w: WalkView) -> bool {
    &&& walk_wf(w)
    &&& forall|k: int|
        #![trigger w.frames[k]]
        0 <= k < w.frames.len() - 1 ==> w.frames[k].child_count == node_at(root, w.frames, k).child_count
            && child_of(node_at(root, w.frames, k), w.frames[k].next_child - 1) is Some
    &&& w.phase == Phase::AwaitChild ==> w.frames.last().child_count == node_at(
        root,
        w.frames,
        w.frames.len() - 1,
    ).child_count
    &&& predicted(p, root, w) == search(p, root, 0)
}

proof fn lemma_node_at_agree(root: UiNode, f: Seq<Frame>, g: Seq<Frame>, k: int)
    requires
        k <= f.len(),
        k <= g.len(),
        forall|j: int| 0 <= j < k ==> f[j] == g[j],
    ensures
        node_at(root, f, k) == node_at(root, g, k),
    decreases k,
{
    if k > 0 {
        lemma_node_at_agree(root, f, g, k - 1);
        assert(f[k - 1] == g[k - 1]);
    }
}

proof fn lemma_unwind_agree(p: Seq<Seq<char>>, root: UiNode, f: Seq<Frame>, g: Seq<Frame>, k: int)
    requires
        k < f.len(),
        k < g.len(),
        forall|j: int| 0 <= j <= k ==> f[j] == g[j],
    ensures
        unwind(p, root, f, k) == unwind(p, root, g, k),
    decreases k + 1,
{
    if k >= 0 {
        lemma_node_at_agree(root, f, g, k);
        lemma_unwind_agree(p, root, f, g, k - 1);
        assert(f[k] == g[k]);
    }
}

proof fn lemma_search_children_past_count(p: Seq<Seq<char>>, n: UiNode, d: int, i: int)
    requires
        i >= n.child_count,
    ensures
        search_children(p, n, d, i) is None,
{
}

proof fn lemma_search_children_step(p: Seq<Seq<char>>, n: UiNode, d: int, i: int)
    requires
        0 <= i < n.child_count,
    ensures
        search_children(p, n, d, i) == or_else(
            match child_of(n, i) {
                Some(c) => search(p, c, d + 1),
                None => None,
            },
            search_children(p, n, d, i + 1),
        ),
{
}

/// One step answered by the tree keeps the walk following the tree.
proof fn lemma_step_follows_tree(p: Seq<Seq<char>>, root: UiNode, w: WalkView)
    requires
        follows_tree(p, root, w),
        !walk_done(w),
    ensures
        follows_tree(p, root, walk_step(w, p, tree_answer(root, w, pending_action(w))).0),
{
    let f = w.frames;
    let m = f.len() as int;
    let d = m - 1;
    let n = node_at(root, f, d);
    let a = pending_action(w);
    let e = tree_answer(root, w, a);
    let w2 = walk_step(w, p, e).0;
    crate::walk::lemma_step_keeps_wf(w, p, e);
    let u = unwind(p, root, f, m - 2);
    match w.phase {
        Phase::AwaitLabels => {
            assert(w2.frames == f);
        },
        Phase::AwaitClickable | Phase::AwaitClick | Phase::AwaitParentClickable
        | Phase::AwaitParentClick => {
            assert(w2.frames == f);
        },
        Phase::AwaitCount => {
            let f2 = f.update(m - 1, Frame { child_count: n.child_count, next_child: 0 });
            lemma_node_at_agree(root, f, f2, d);
            if m >= 2 {
                lemma_unwind_agree(p, root, f, f2, m - 2);
            }
            assert forall|k: int| #![trigger f2[k]] 0 <= k < f2.len() - 1 implies f2[k].child_count
                == node_at(root, f2, k).child_count && child_of(
                node_at(root, f2, k),
                f2[k].next_child - 1,
            ) is Some by {
                assert(f2[k] == f[k]);
                lemma_node_at_agree(root, f, f2, k);
            }
            let top = f2.last();
            if top.next_child < top.child_count {
                let f3 = f2.update(m - 1, Frame { child_count: top.child_count, next_child: 1 });
                assert(w2.frames == f3);
                lemma_node_at_agree(root, f, f3, d);
                if m >= 2 {
                    lemma_unwind_agree(p, root, f, f3, m - 2);
                }
                assert forall|k: int| #![trigger f3[k]] 0 <= k < f3.len() - 1 implies f3[k].child_count
                    == node_at(root, f3, k).child_count && child_of(
                    node_at(root, f3, k),
                    f3[k].next_child - 1,
                ) is Some by {
                    assert(f3[k] == f[k]);
                    lemma_node_at_agree(root, f, f3, k);
                }
            } else {
                lemma_search_children_past_count(p, n, d, 0);
                assert(w2.frames == f2);
            }
        },
        Phase::AwaitChild => {
            let i = f.last().next_child - 1;
            assert(a == NodeAction::OpenChild(i as i32));
            lemma_search_children_step(p, n, d, i);
            match child_of(n, i) {
                Some(c) => {
                    let f2 = f.push(Frame { child_count: 0, next_child: 0 });
                    assert(w2.frames == f2);
                    lemma_node_at_agree(root, f, f2, d);
                    lemma_node_at_agree(root, f, f2, m - 1);
                    assert(f2[m - 1] == f.last());
                    assert(node_at(root, f2, m) == c);
                    if m >= 2 {
                        lemma_unwind_agree(p, root, f, f2, m - 2);
                    }
                    assert forall|k: int| #![trigger f2[k]] 0 <= k < f2.len() - 1 implies f2[k].child_count
                        == node_at(root, f2, k).child_count && child_of(
                        node_at(root, f2, k),
                        f2[k].next_child - 1,
                    ) is Some by {
                        assert(f2[k] == f[k]);
                        lemma_node_at_agree(root, f, f2, k);
                    }
                    assert(unwind(p, root, f2, m - 1) == or_else(
                        search_children(p, n, d, i + 1),
                        u,
                    ));
                },
                None => {
                    let top = f.last();
                    if top.next_child < top.child_count {
                        let f3 = f.update(
                            m - 1,
                            Frame { child_count: top.child_count, next_child: (top.next_child + 1) as i32 },
                        );
                        assert(w2.frames == f3);
                        lemma_node_at_agree(root, f, f3, d);
                        if m >= 2 {
                            lemma_unwind_agree(p, root, f, f3, m - 2);
                        }
                        assert forall|k: int| #![trigger f3[k]] 0 <= k < f3.len() - 1 implies f3[k].child_count
                            == node_at(root, f3, k).child_count && child_of(
                            node_at(root, f3, k),
                            f3[k].next_child - 1,
                        ) is Some by {
                            assert(f3[k] == f[k]);
                            lemma_node_at_agree(root, f, f3, k);
                        }
                    } else {
                        lemma_search_children_past_count(p, n, d, i + 1);
                        assert(w2.frames == f);
                    }
                },
            }
        },
        Phase::AwaitClose => {
            let f1 = f.drop_last();
            let pm = m - 1;
            let parent = node_at(root, f1, pm - 1);
            lemma_node_at_agree(root, f, f1, pm - 1);
            assert(f[pm - 1] == f1[pm - 1]);
            if pm >= 2 {
                lemma_unwind_agree(p, root, f, f1, pm - 2);
            }
            let top = f1.last();
            assert(top == f[m - 2]);
            if top.next_child < top.child_count {
                let f3 = f1.update(
                    pm - 1,
                    Frame { child_count: top.child_count, next_child: (top.next_child + 1) as i32 },
                );
                assert(w2.frames == f3);
                lemma_node_at_agree(root, f1, f3, pm - 1);
                if pm >= 2 {
                    lemma_unwind_agree(p, root, f1, f3, pm - 2);
                }
                assert forall|k: int| #![trigger f3[k]] 0 <= k < f3.len() - 1 implies f3[k].child_count
                    == node_at(root, f3, k).child_count && child_of(
                    node_at(root, f3, k),
                    f3[k].next_child - 1,
                ) is Some by {
                    assert(f3[k] == f[k]);
                    lemma_node_at_agree(root, f, f3, k);
                }
            } else {
                lemma_search_children_past_count(p, parent, pm - 1, top.next_child as int);
                assert(w2.frames == f1);
                assert forall|k: int| #![trigger f1[k]] 0 <= k < f1.len() - 1 implies f1[k].child_count
                    == node_at(root, f1, k).child_count && child_of(
                    node_at(root, f1, k),
                    f1[k].next_child - 1,
                ) is Some by {
                    assert(f1[k] == f[k]);
                    lemma_node_at_agree(root, f, f1, k);
                }
            }
        },
        _ => {},
    }
}

proof fn lemma_run_follows_tree(p: Seq<Seq<char>>, root: UiNode, w: WalkView, fuel: nat)
    requires
        follows_tree(p, root, w),
    ensures
        run_walk(p, root, w, fuel) matches Some(end) ==> walk_result(end) == search(p, root, 0),
    decreases fuel,
{
    if walk_done(w) {
        assert(unwind(p, root, w.frames, w.frames.len() - 2) is None ==> predicted(p, root, w)
            == walk_result(w));
        if w.phase == Phase::NotFound {
            assert(unwind(p, root, w.frames, -1) is None);
        }
    } else if fuel > 0 {
        lemma_step_follows_tree(p, root, w);
        lemma_run_follows_tree(
            p,
            root,
            walk_step(w, p, tree_answer(root, w, pending_action(w))).0,
            (fuel - 1) as nat,
        );
    }
}

/// Law: a walk whose actions are answered by a node tree, once it is over,
/// reports exactly what the depth-first search over that tree gives: the
/// keyword of the first node, in pre-order and no deeper than `MAX_DEPTH`,
/// whose labels match and that (or whose parent) gets pressed.
pub proof fn lemma_walk_reports_search(p: Seq<Seq<char>>, root: UiNode, fuel: nat)
    ensures
        run_walk(p, root, initial_walk(), fuel) matches Some(end) ==> walk_result(end) == search(
            p,
            root,
            0,
        ),
{
    let w = initial_walk();
    assert(node_at(root, w.frames, 0) == root);
    assert(unwind(p, root, w.frames, -1) is None);
    lemma_run_follows_tree(p, root, w, fuel);
}


/// An upper bound on the steps that the walk spends in the subtree of `n`
/// entered at depth `depth`, leaving it included.
pub open spec fn subtree_steps(n: UiNode, depth: int) -> nat
    decreases n, 1int, 0int,
{
    if depth > MAX_DEPTH {
        1
    } else {
        6 + children_steps(n, depth, 0)
    }
}

/// An upper bound on the steps that the walk spends on the children of `n`
/// from index `i` on: one to open each, and the subtree of each it gets.
pub open spec fn children_steps(n: UiNode, depth: int, i: int) -> nat
    decreases n, 0int, n.child_count - i,
{
    if i < 0 || i >= n.child_count {
        0
    } else {
        let rest = children_steps(n, depth, i + 1);
        if i < n.children.len() {
            match n.children[i] {
                Some(c) => 1 + subtree_steps(c, depth + 1) + rest,
                None => 1 + rest,
            }
        } else {
            1 + rest
        }
    }
}

/// One step to leave the node at depth `k`, except the root, which is never left.
pub open spec fn leave_steps(k: int) -> nat {
    if k >= 1 {
        1
    } else {
        0
    }
}

/// An upper bound on the steps left at the node the walk stands on.
pub open spec fn top_steps(root: UiNode, w: WalkView) -> nat {
    let d = w.frames.len() - 1;
    let n = node_at(root, w.frames, d);
    let kids = children_steps(n, d, 0);
    match w.phase {
        Phase::AwaitLabels => 5 + kids + leave_steps(d),
        Phase::AwaitClickable => 4 + kids + leave_steps(d),
        Phase::AwaitClick | Phase::AwaitParentClickable => 3 + kids + leave_steps(d),
        Phase::AwaitParentClick => 2 + kids + leave_steps(d),
        Phase::AwaitCount => 1 + kids + leave_steps(d),
        Phase::AwaitChild => children_steps(n, d, w.frames.last().next_child - 1) + leave_steps(d),
        Phase::AwaitClose => 1,
        Phase::Found | Phase::NotFound => 0,
    }
}

/// An upper bound on the steps left at the levels from `k` up to the root.
pub open spec fn lower_steps(root: UiNode, frames: Seq<Frame>, k: int) -> nat
    decreases k + 1,
{
    if k < 0 {
        0
    } else {
        children_steps(node_at(root, frames, k), k, frames[k].next_child as int) + leave_steps(k)
            + lower_steps(root, frames, k - 1)
    }
}

/// An upper bound on the steps the walk has left when the tree answers it.
pub open spec fn steps_left(root: UiNode, w: WalkView) -> nat {
    top_steps(root, w) + lower_steps(root, w.frames, w.frames.len() - 2)
}

proof fn lemma_lower_steps_agree(root: UiNode, f: Seq<Frame>, g: Seq<Frame>, k: int)
    requires
        k < f.len(),
        k < g.len(),
        forall|j: int| 0 <= j <= k ==> f[j] == g[j],
    ensures
        lower_steps(root, f, k) == lower_steps(root, g, k),
    decreases k + 1,
{
    if k >= 0 {
        lemma_node_at_agree(root, f, g, k);
        lemma_lower_steps_agree(root, f, g, k - 1);
        assert(f[k] == g[k]);
    }
}

/// Each step answered by the tree uses up at least one of the steps left.
#[verifier::rlimit(40)]
proof fn lemma_step_uses_a_step(p: Seq<Seq<char>>, root: UiNode, w: WalkView)
    requires
        follows_tree(p, root, w),
        !walk_done(w),
    ensures
        !walk_done(walk_step(w, p, tree_answer(root, w, pending_action(w))).0) ==> steps_left(
            root,
            walk_step(w, p, tree_answer(root, w, pending_action(w))).0,
        ) + 1 <= steps_left(root, w),
{
    let f = w.frames;
    let m = f.len() as int;
    let d = m - 1;
    let n = node_at(root, f, d);
    let a = pending_action(w);
    let e = tree_answer(root, w, a);
    let w2 = walk_step(w, p, e).0;
    let low = lower_steps(root, f, m - 2);
    match w.phase {
        Phase::AwaitCount => {
            assert(steps_left(root, w) == 1 + children_steps(n, d, 0) + leave_steps(d) + low);
            let f2 = f.update(m - 1, Frame { child_count: n.child_count, next_child: 0 });
            lemma_node_at_agree(root, f, f2, d);
            if m >= 2 {
                lemma_lower_steps_agree(root, f, f2, m - 2);
            }
            let top = f2.last();
            if top.next_child < top.child_count {
                let f3 = f2.update(m - 1, Frame { child_count: top.child_count, next_child: 1 });
                assert(w2.frames == f3);
                lemma_node_at_agree(root, f, f3, d);
                if m >= 2 {
                    lemma_lower_steps_agree(root, f, f3, m - 2);
                }
                assert(top_steps(root, w2) == children_steps(n, d, 0) + leave_steps(d));
                assert(steps_left(root, w2) == top_steps(root, w2) + low);
            } else {
                assert(w2.frames == f2);
                assert(children_steps(n, d, 0) == 0);
                if m == 1 {
                    assert(w2.phase == Phase::NotFound);
                } else {
                    assert(w2.phase == Phase::AwaitClose);
                    assert(leave_steps(d) == 1);
                }
                assert(top_steps(root, w2) == 1 || walk_done(w2));
                assert(steps_left(root, w2) == top_steps(root, w2) + low);
            }
        },
        Phase::AwaitChild => {
            assert(steps_left(root, w) == children_steps(n, d, f.last().next_child - 1) + leave_steps(d) + low);
            let i = f.last().next_child - 1;
            assert(a == NodeAction::OpenChild(i as i32));
            match child_of(n, i) {
                Some(c) => {
                    let f2 = f.push(Frame { child_count: 0, next_child: 0 });
                    assert(w2.frames == f2);
                    lemma_node_at_agree(root, f, f2, d);
                    lemma_node_at_agree(root, f, f2, m - 1);
                    assert(f2[m - 1] == f.last());
                    assert(node_at(root, f2, m) == c);
                    if m >= 2 {
                        lemma_lower_steps_agree(root, f, f2, m - 2);
                    }
                    assert(0 <= i < n.child_count);
                    assert(children_steps(n, d, i) == 1 + subtree_steps(c, d + 1) + children_steps(
                        n,
                        d,
                        i + 1,
                    ));
                    assert(top_steps(root, w2) == subtree_steps(c, d + 1));
                    assert(f2[m - 1].next_child as int == i + 1);
                    assert(node_at(root, f2, m - 1) == n);
                    assert(lower_steps(root, f2, m - 2) == low);
                    assert(lower_steps(root, f2, m - 1) == children_steps(n, d, i + 1) + leave_steps(d)
                        + low);
                    assert(walk_done(w2) || steps_left(root, w2) + 1 <= steps_left(root, w));
                },
                None => {
                    let top = f.last();
                    if top.next_child < top.child_count {
                        let f3 = f.update(
                            m - 1,
                            Frame { child_count: top.child_count, next_child: (top.next_child + 1) as i32 },
                        );
                        assert(w2.frames == f3);
                        lemma_node_at_agree(root, f, f3, d);
                        if m >= 2 {
                            lemma_lower_steps_agree(root, f, f3, m - 2);
                        }
                    } else {
                        assert(w2.frames == f);
                    }
                },
            }
        },
        Phase::AwaitClose => {
            assert(steps_left(root, w) == 1 + low);
            let f1 = f.drop_last();
            let pm = m - 1;
            lemma_node_at_agree(root, f, f1, pm - 1);
            assert(f[pm - 1] == f1[pm - 1]);
            if pm >= 2 {
                lemma_lower_steps_agree(root, f, f1, pm - 2);
            }
            let top = f1.last();
            if top.next_child < top.child_count {
                let f3 = f1.update(
                    pm - 1,
                    Frame { child_count: top.child_count, next_child: (top.next_child + 1) as i32 },
                );
                assert(w2.frames == f3);
                lemma_node_at_agree(root, f1, f3, pm - 1);
                if pm >= 2 {
                    lemma_lower_steps_agree(root, f1, f3, pm - 2);
                }
            } else {
                assert(w2.frames == f1);
            }
        },
        _ => {
            assert(w2.frames == f);
            assert(lower_steps(root, w2.frames, m - 2) == low);
            assert(node_at(root, w2.frames, d) == n);
            assert(top_steps(root, w2) + 1 <= top_steps(root, w) || walk_done(w2));
        },
    }
}

proof fn lemma_run_ends(p: Seq<Seq<char>>, root: UiNode, w: WalkView, fuel: nat)
    requires
        follows_tree(p, root, w),
        fuel >= steps_left(root, w),
    ensures
        run_walk(p, root, w, fuel) is Some,
    decreases fuel,
{
    if !walk_done(w) {
        let w2 = walk_step(w, p, tree_answer(root, w, pending_action(w))).0;
        lemma_step_follows_tree(p, root, w);
        lemma_step_uses_a_step(p, root, w);
        assert(fuel >= 1) by {
            let d = w.frames.len() - 1;
            let n = node_at(root, w.frames, d);
            if w.phase == Phase::AwaitChild {
                assert(children_steps(n, d, w.frames.last().next_child - 1) >= 1);
            }
        }
        if !walk_done(w2) {
            lemma_run_ends(p, root, w2, (fuel - 1) as nat);
        }
    }
}

/// Law: a walk whose actions are answered by a node tree is over after at most
/// `steps_left(root, initial_walk())` steps.
pub proof fn lemma_walk_ends(p: Seq<Seq<char>>, root: UiNode)
    ensures
        run_walk(p, root, initial_walk(), steps_left(root, initial_walk())) is Some,
{
    let w = initial_walk();
    assert(node_at(root, w.frames, 0) == root);
    assert(unwind(p, root, w.frames, -1) is None);
    lemma_run_ends(p, root, w, steps_left(root, w));
}

} // verus!
