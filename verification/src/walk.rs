use vstd::prelude::*;

use crate::engine::{node_keyword, AdEngine};

verus! {

/// Nodes deeper than this (the root is at depth 0) are not searched.
pub const MAX_DEPTH: usize = 50;

/// What the walk asks of the window's node tree next. "The node" is the one
/// the walk stands on: the root at first, then the children it opens.
#[derive(PartialEq, Eq, Structural, Clone, Copy, Debug)]
pub enum NodeAction {
    /// Read the node's text and content description (empty where absent).
    ReadLabels,
    /// Ask whether the node is clickable (false where the question fails).
    CheckClickable,
    /// Click the node; answer whether the click reported success.
    Click,
    /// Ask for the node's parent and whether it is clickable (false where
    /// either fails).
    CheckParentClickable,
    /// Click the node's parent; answer whether the click reported success.
    ClickParent,
    /// Ask how many children the node has (0 where the question fails).
    CountChildren,
    /// Open the child with this index and stand on it; answer whether it could
    /// be had.
    OpenChild(i32),
    /// Leave the node and stand on its parent again.
    CloseNode,
    /// The walk is over: a skip button was pressed; `keyword` says which text.
    Found,
    /// The walk is over without a pressed skip button.
    NotFound,
}

/// The answer to the last `NodeAction`.
pub enum NodeEvent {
    Labels(String, String),
    Answer(bool),
    ChildCount(i32),
    ChildOpened(bool),
    NodeClosed,
}

/// An answer as mathematical values.
pub enum EventView {
    Labels(Seq<char>, Seq<char>),
    Answer(bool),
    ChildCount(i32),
    ChildOpened(bool),
    NodeClosed,
}

impl View for NodeEvent {
    type V = EventView;

    open spec fn view(&self) -> EventView {
        match self {
            NodeEvent::Labels(t, d) => EventView::Labels(t@, d@),
            NodeEvent::Answer(b) => EventView::Answer(*b),
            NodeEvent::ChildCount(n) => EventView::ChildCount(*n),
            NodeEvent::ChildOpened(b) => EventView::ChildOpened(*b),
            NodeEvent::NodeClosed => EventView::NodeClosed,
        }
    }
}

/// Which answer the walk waits for.
#[derive(PartialEq, Eq, Structural, Clone, Copy, Debug)]
pub enum Phase {
    AwaitLabels,
    AwaitClickable,
    AwaitClick,
    AwaitParentClickable,
    AwaitParentClick,
    AwaitCount,
    AwaitChild,
    AwaitClose,
    Found,
    NotFound,
}

/// One node on the path from the root to the node the walk stands on: how
/// many children it has (once asked) and the index of the next child to open.
#[derive(PartialEq, Eq, Structural, Clone, Copy, Debug)]
pub struct Frame {
    pub child_count: i32,
    pub next_child: i32,
}

/// The walk's state as mathematical values.
pub struct WalkView {
    pub frames: Seq<Frame>,
    pub phase: Phase,
    pub keyword: Seq<char>,
}

/// The action that the walk waits to have answered in this state.
pub open spec fn pending_action(w: WalkView) -> NodeAction {
    match w.phase {
        Phase::AwaitLabels => NodeAction::ReadLabels,
        Phase::AwaitClickable => NodeAction::CheckClickable,
        Phase::AwaitClick => NodeAction::Click,
        Phase::AwaitParentClickable => NodeAction::CheckParentClickable,
        Phase::AwaitParentClick => NodeAction::ClickParent,
        Phase::AwaitCount => NodeAction::CountChildren,
        Phase::AwaitChild => NodeAction::OpenChild((w.frames.last().next_child - 1) as i32),
        Phase::AwaitClose => NodeAction::CloseNode,
        Phase::Found => NodeAction::Found,
        Phase::NotFound => NodeAction::NotFound,
    }
}

/// Once the node on top of `frames` has had its children counted: open the
/// next child, or, with none left, leave the node (or end, at the root).
pub open spec fn advance(frames: Seq<Frame>, keyword: Seq<char>) -> (WalkView, NodeAction) {
    let top = frames.last();
    if top.next_child < top.child_count {
        let f = frames.update(
            frames.len() - 1,
            Frame { child_count: top.child_count, next_child: (top.next_child + 1) as i32 },
        );
        (
            WalkView { frames: f, phase: Phase::AwaitChild, keyword },
            NodeAction::OpenChild(top.next_child),
        )
    } else if frames.len() == 1 {
        (WalkView { frames, phase: Phase::NotFound, keyword }, NodeAction::NotFound)
    } else {
        (WalkView { frames, phase: Phase::AwaitClose, keyword }, NodeAction::CloseNode)
    }
}

/// The walk's answer to `event` in state `w`, with keyword patterns `p`: the
/// next state and the next action. An event that does not answer the pending
/// action leaves the state as it is and asks again.
pub open spec fn walk_step(w: WalkView, p: Seq<Seq<char>>, event: EventView) -> (WalkView, NodeAction) {
    let same = (w, pending_action(w));
    let to = |ph: Phase, a: NodeAction| (WalkView { frames: w.frames, phase: ph, keyword: w.keyword }, a);
    match event {
        EventView::Labels(text, desc) => if w.phase == Phase::AwaitLabels {
            match node_keyword(p, text, desc) {
                Some(k) => (
                    WalkView { frames: w.frames, phase: Phase::AwaitClickable, keyword: k },
                    NodeAction::CheckClickable,
                ),
                None => to(Phase::AwaitCount, NodeAction::CountChildren),
            }
        } else {
            same
        },
        EventView::Answer(yes) => match w.phase {
            Phase::AwaitClickable => if yes {
                to(Phase::AwaitClick, NodeAction::Click)
            } else {
                to(Phase::AwaitParentClickable, NodeAction::CheckParentClickable)
            },
            Phase::AwaitParentClickable => if yes {
                to(Phase::AwaitParentClick, NodeAction::ClickParent)
            } else {
                to(Phase::AwaitCount, NodeAction::CountChildren)
            },
            Phase::AwaitClick | Phase::AwaitParentClick => if yes {
                to(Phase::Found, NodeAction::Found)
            } else {
                to(Phase::AwaitCount, NodeAction::CountChildren)
            },
            _ => same,
        },
        EventView::ChildCount(n) => if w.phase == Phase::AwaitCount {
            advance(
                w.frames.update(w.frames.len() - 1, Frame { child_count: n, next_child: 0 }),
                w.keyword,
            )
        } else {
            same
        },
        EventView::ChildOpened(ok) => if w.phase == Phase::AwaitChild {
            if ok {
                let f = w.frames.push(Frame { child_count: 0, next_child: 0 });
                if f.len() - 1 > MAX_DEPTH {
                    (WalkView { frames: f, phase: Phase::AwaitClose, keyword: w.keyword }, NodeAction::CloseNode)
                } else {
                    (WalkView { frames: f, phase: Phase::AwaitLabels, keyword: w.keyword }, NodeAction::ReadLabels)
                }
            } else {
                advance(w.frames, w.keyword)
            }
        } else {
            same
        },
        EventView::NodeClosed => if w.phase == Phase::AwaitClose {
            advance(w.frames.drop_last(), w.keyword)
        } else {
            same
        },
    }
}

/// The states a walk can be in: a path from the root of at most
/// `MAX_DEPTH + 2` nodes, of which only the deepest can be waiting to be left
/// without having been searched; every node above the one the walk stands on
/// has a child open, within its count.
pub open spec fn walk_wf(w: WalkView) -> bool {
    &&& 1 <= w.frames.len() <= MAX_DEPTH + 2
    &&& w.phase != Phase::AwaitClose ==> w.frames.len() <= MAX_DEPTH + 1
    &&& w.phase == Phase::AwaitClose ==> w.frames.len() >= 2
    &&& w.phase == Phase::NotFound ==> w.frames.len() == 1
    &&& forall|k: int|
        0 <= k < w.frames.len() - 1 ==> 1 <= (#[trigger] w.frames[k]).next_child
            <= w.frames[k].child_count
    &&& w.phase == Phase::AwaitChild ==> 1 <= w.frames.last().next_child
        <= w.frames.last().child_count
}

/// The walk's state, as one value.
struct WalkState {
    frames: Vec<Frame>,
    phase: Phase,
    keyword: String,
}

/// A depth-first walk over a window's node tree that looks for a node whose
/// text matches a skip keyword and clicks it (or its parent). The caller
/// performs each `NodeAction` and hands back the answer as a `NodeEvent`.
pub struct NodeWalk {
    state: WalkState,
}

impl View for NodeWalk {
    type V = WalkView;

    closed spec fn view(&self) -> WalkView {
        WalkView {
            frames: self.state.frames@,
            phase: self.state.phase,
            keyword: self.state.keyword@,
        }
    }
}

/// The state in which a walk starts: standing on the root, waiting for its
/// labels.
pub open spec fn initial_walk() -> WalkView {
    WalkView {
        frames: seq![Frame { child_count: 0, next_child: 0 }],
        phase: Phase::AwaitLabels,
        keyword: Seq::empty(),
    }
}

impl NodeWalk {
    #[verifier::type_invariant]
    spec fn well_formed(self) -> bool {
        walk_wf(self@)
    }

    /// A walk that starts at the root; its first action is `ReadLabels`.
    pub fn start() -> (r: (NodeWalk, NodeAction))
        ensures
            r.0@ == initial_walk(),
            r.1 == NodeAction::ReadLabels,
    {
        let mut frames: Vec<Frame> = Vec::new();
        frames.push(Frame { child_count: 0, next_child: 0 });
        let w = NodeWalk {
            state: WalkState { frames, phase: Phase::AwaitLabels, keyword: String::new() },
        };
        assert(w@.frames =~= initial_walk().frames);
        (w, NodeAction::ReadLabels)
    }

    /// Whether the walk is over.
    pub fn is_done(&self) -> (r: bool)
        ensures
            r == (self@.phase == Phase::Found || self@.phase == Phase::NotFound),
    {
        self.state.phase == Phase::Found || self.state.phase == Phase::NotFound
    }

    /// The text of the pressed skip button, once the walk has found one.
    pub fn keyword(&self) -> (r: Option<String>)
        ensures
            self@.phase == Phase::Found ==> (r matches Some(k) && k@ == self@.keyword),
            self@.phase != Phase::Found ==> r is None,
    {
        if self.state.phase == Phase::Found {
            Some(self.state.keyword.clone())
        } else {
            None
        }
    }

    /// The depth of the node the walk stands on (the root is at depth 0).
    pub fn depth(&self) -> (d: usize)
        ensures
            d == self@.frames.len() - 1,
            d <= MAX_DEPTH + 1,
    {
        proof {
            use_type_invariant(self);
        }
        self.state.frames.len() - 1
    }

    fn advance_exec(frames: Vec<Frame>, keyword: String) -> (r: (WalkState, NodeAction))
        requires
            1 <= frames@.len() <= MAX_DEPTH + 2,
        ensures
            (WalkView { frames: r.0.frames@, phase: r.0.phase, keyword: r.0.keyword@ }, r.1)
                == advance(frames@, keyword@),
    {
        let mut frames = frames;
        let last = frames.len() - 1;
        let top = frames[last];
        if top.next_child < top.child_count {
            frames.set(
                last,
                Frame { child_count: top.child_count, next_child: top.next_child + 1 },
            );
            (WalkState { frames, phase: Phase::AwaitChild, keyword }, NodeAction::OpenChild(top.next_child))
        } else if frames.len() == 1 {
            (WalkState { frames, phase: Phase::NotFound, keyword }, NodeAction::NotFound)
        } else {
            (WalkState { frames, phase: Phase::AwaitClose, keyword }, NodeAction::CloseNode)
        }
    }

    /// Takes the answer to the last action and returns the next action, as
    /// `walk_step` says, with the engine's keyword patterns.
    pub fn step(&mut self, engine: &AdEngine, event: NodeEvent) -> (a: NodeAction)
        ensures
            (final(self)@, a) == walk_step(old(self)@, engine.patterns(), event@),
    {
        proof {
            use_type_invariant(&*self);
        }
        let ghost w = self@;
        let frames = self.state.frames.clone();
        assert(frames@ =~= w.frames);
        let keyword = self.state.keyword.clone();
        let phase = self.state.phase;
        let last = frames.len() - 1;
        let (next, action) = match event {
            NodeEvent::Labels(text, desc) => {
                if phase == Phase::AwaitLabels {
                    match engine.match_labels(text.as_str(), desc.as_str()) {
                        Some(k) => (
                            WalkState { frames, phase: Phase::AwaitClickable, keyword: k },
                            NodeAction::CheckClickable,
                        ),
                        None => (
                            WalkState { frames, phase: Phase::AwaitCount, keyword },
                            NodeAction::CountChildren,
                        ),
                    }
                } else {
                    return self.pending();
                }
            },
            NodeEvent::Answer(yes) => {
                let (ph, a) = if phase == Phase::AwaitClickable {
                    if yes {
                        (Phase::AwaitClick, NodeAction::Click)
                    } else {
                        (Phase::AwaitParentClickable, NodeAction::CheckParentClickable)
                    }
                } else if phase == Phase::AwaitParentClickable {
                    if yes {
                        (Phase::AwaitParentClick, NodeAction::ClickParent)
                    } else {
                        (Phase::AwaitCount, NodeAction::CountChildren)
                    }
                } else if phase == Phase::AwaitClick || phase == Phase::AwaitParentClick {
                    if yes {
                        (Phase::Found, NodeAction::Found)
                    } else {
                        (Phase::AwaitCount, NodeAction::CountChildren)
                    }
                } else {
                    return self.pending();
                };
                (WalkState { frames, phase: ph, keyword }, a)
            },
            NodeEvent::ChildCount(n) => {
                if phase == Phase::AwaitCount {
                    let mut frames = frames;
                    frames.set(last, Frame { child_count: n, next_child: 0 });
                    Self::advance_exec(frames, keyword)
                } else {
                    return self.pending();
                }
            },
            NodeEvent::ChildOpened(ok) => {
                if phase == Phase::AwaitChild {
                    if ok {
                        let mut frames = frames;
                        frames.push(Frame { child_count: 0, next_child: 0 });
                        if frames.len() - 1 > MAX_DEPTH {
                            (WalkState { frames, phase: Phase::AwaitClose, keyword }, NodeAction::CloseNode)
                        } else {
                            (WalkState { frames, phase: Phase::AwaitLabels, keyword }, NodeAction::ReadLabels)
                        }
                    } else {
                        Self::advance_exec(frames, keyword)
                    }
                } else {
                    return self.pending();
                }
            },
            NodeEvent::NodeClosed => {
                if phase == Phase::AwaitClose {
                    let mut frames = frames;
                    frames.pop();
                    Self::advance_exec(frames, keyword)
                } else {
                    return self.pending();
                }
            },
        };
        proof {
            let nv = WalkView { frames: next.frames@, phase: next.phase, keyword: next.keyword@ };
            assert((nv, action) == walk_step(w, engine.patterns(), event@));
            lemma_step_keeps_wf(w, engine.patterns(), event@);
        }
        self.state = next;
        action
    }

    /// The action that the walk waits to have answered.
    pub fn pending(&self) -> (a: NodeAction)
        ensures
            a == pending_action(self@),
    {
        proof {
            use_type_invariant(self);
        }
        match self.state.phase {
            Phase::AwaitLabels => NodeAction::ReadLabels,
            Phase::AwaitClickable => NodeAction::CheckClickable,
            Phase::AwaitClick => NodeAction::Click,
            Phase::AwaitParentClickable => NodeAction::CheckParentClickable,
            Phase::AwaitParentClick => NodeAction::ClickParent,
            Phase::AwaitCount => NodeAction::CountChildren,
            Phase::AwaitChild => {
                let last = self.state.frames.len() - 1;
                NodeAction::OpenChild(self.state.frames[last].next_child - 1)
            },
            Phase::AwaitClose => NodeAction::CloseNode,
            Phase::Found => NodeAction::Found,
            Phase::NotFound => NodeAction::NotFound,
        }
    }
}

/// Law: every step keeps the walk in the states that `walk_wf` describes; in
/// particular it never stands deeper than `MAX_DEPTH + 1`, and it reads labels
/// only of nodes at most `MAX_DEPTH` deep.
pub proof fn lemma_step_keeps_wf(w: WalkView, p: Seq<Seq<char>>, event: EventView)
    requires
        walk_wf(w),
    ensures
        walk_wf(walk_step(w, p, event).0),
        walk_step(w, p, event).1 == NodeAction::ReadLabels ==> walk_step(w, p, event).0.frames.len()
            <= MAX_DEPTH + 1,
{
    let r = walk_step(w, p, event);
    match event {
        EventView::ChildCount(n) => {
            if w.phase == Phase::AwaitCount {
                let f = w.frames.update(w.frames.len() - 1, Frame { child_count: n, next_child: 0 });
                assert forall|k: int| 0 <= k < f.len() - 1 implies 1 <= (#[trigger] f[k]).next_child
                    <= f[k].child_count by {
                    assert(f[k] == w.frames[k]);
                }
            }
        },
        EventView::ChildOpened(ok) => {
            if w.phase == Phase::AwaitChild && ok {
                let f = w.frames.push(Frame { child_count: 0, next_child: 0 });
                assert forall|k: int| 0 <= k < f.len() - 1 implies 1 <= (#[trigger] f[k]).next_child
                    <= f[k].child_count by {
                    assert(f[k] == w.frames[k]);
                }
            }
        },
        EventView::NodeClosed => {
            if w.phase == Phase::AwaitClose {
                let f = w.frames.drop_last();
                assert forall|k: int| 0 <= k < f.len() - 1 implies 1 <= (#[trigger] f[k]).next_child
                    <= f[k].child_count by {
                    assert(f[k] == w.frames[k]);
                }
            }
        },
        _ => {},
    }
    let f = r.0.frames;
    if r.0.phase == Phase::AwaitChild && w.phase != Phase::AwaitChild {
        assert forall|k: int| 0 <= k < f.len() - 1 implies 1 <= (#[trigger] f[k]).next_child
            <= f[k].child_count by {
            assert(f[k] == w.frames[k] || f[k] == w.frames.drop_last()[k]);
        }
    }
}

/// Law: the action that a step returns is the one the new state waits to
/// have answered, so asking `pending` again repeats it.
pub proof fn lemma_step_action_is_pending(w: WalkView, p: Seq<Seq<char>>, event: EventView)
    requires
        walk_wf(w),
    ensures
        walk_step(w, p, event).1 == pending_action(walk_step(w, p, event).0),
{
}

} // verus!
