use crate::keys::LinkKey;
use crate::keys::NodeKey;
use vstd::prelude::*;

verus! {

/// What was current before a body was entered, to be put back when it
/// returns.
#[derive(Clone, Copy, Debug)]
pub struct Frame {
    pub prev_sub: Option<NodeKey>,
    pub prev_scope: NodeKey,
}

/// A recomputation that the caller is to carry out: run the node's getter,
/// then report back with this value.
#[derive(Clone, Copy, Debug)]
pub struct Recompute {
    /// The active subscriber to put back afterwards.
    pub prev_sub: Option<NodeKey>,
    /// Whether a changed value is to be announced to the subscribers.
    pub announce: bool,
}

/// What `update` found.
#[derive(Clone, Copy, Debug)]
pub enum UpdateStep {
    /// The node computes its value: the caller runs its getter and then ends
    /// the update, with the active subscriber given here.
    Compute(Option<NodeKey>),
    /// The node holds its value; it counts as changed.
    Settled,
}

/// What happened since the last step of a tracked read of a computed node.
#[derive(Clone, Copy, Debug)]
pub enum TrackEvent {
    /// Nothing yet: the read begins.
    Start,
    /// The check of the dependencies ended, with this verdict.
    Checked(bool),
    /// The getter ran; the flag tells whether the value changed.
    Computed(Recompute, bool),
}

/// What the caller is to do next in a tracked read of a computed node.
#[derive(Clone, Copy, Debug)]
pub enum TrackStep {
    /// Check the dependencies, starting from this link.
    Check(LinkKey),
    /// Run the getter.
    Compute(Recompute),
    /// Nothing: the value may be read.
    Done,
}

/// What happened since the last step of an effect's run.
#[derive(Clone, Copy, Debug)]
pub enum RunEvent {
    /// Nothing yet: the effect was handed out by the queue.
    Start,
    /// The check of the dependencies ended, with this verdict.
    Checked(bool),
    /// The cleanup callbacks were called.
    Cleaned,
    /// The effect's body ran.
    Ran(Frame),
}

/// What the caller is to do next in an effect's run.
#[derive(Debug)]
pub enum RunStep {
    /// Check the dependencies, starting from this link.
    Check(LinkKey),
    /// Call these cleanup callbacks, in this order.
    Cleanup(Vec<u64>),
    /// Call the effect's body.
    Invoke(Frame),
    /// Nothing: the run is over.
    Done,
}

/// Where a walk through the dependencies stands.
#[derive(Clone, Copy, Debug)]
pub enum WalkPhase {
    /// About to look at the dependency behind the link in hand.
    Examine,
    /// The caller was asked to recompute that dependency.
    AwaitDep,
    /// About to leave the level, or the walk when it is the outermost.
    Rise,
    /// The caller was asked to recompute the node whose level is being left.
    /// Holds the first subscriber link of that node, and whether it has more.
    AwaitSub(LinkKey, bool),
}

/// A walk that finds out whether a pending node is dirty. It is made by
/// `DirtyWalk::new` and advanced by `ReactiveSystem::check_dirty`.
#[derive(Debug)]
pub struct DirtyWalk {
    /// The dependency link in hand.
    pub link: LinkKey,
    /// The node whose dependencies are being looked at.
    pub sub: NodeKey,
    /// How many levels below the node that the walk began with.
    pub depth: usize,
    /// Whether a change was found on the level in hand.
    pub dirty: bool,
    /// The links to come back to, one for each level above that was entered
    /// through a dependency with several subscribers.
    pub stack: Vec<LinkKey>,
    pub phase: WalkPhase,
}

/// A walk as a value: the stack is the sequence of its entries.
pub struct WalkView {
    pub link: LinkKey,
    pub sub: NodeKey,
    pub depth: usize,
    pub dirty: bool,
    pub stack: Seq<LinkKey>,
    pub phase: WalkPhase,
}

impl View for DirtyWalk {
    type V = WalkView;

    open spec fn view(&self) -> WalkView {
        WalkView {
            link: self.link,
            sub: self.sub,
            depth: self.depth,
            dirty: self.dirty,
            stack: self.stack@,
            phase: self.phase,
        }
    }
}

/// What the caller is to do next in a walk through the dependencies.
#[derive(Clone, Copy, Debug)]
pub enum CheckStep {
    /// Call again.
    Continue,
    /// Recompute this node, then call again with the outcome.
    Update(NodeKey),
    /// Nothing: the walk is over, with this verdict.
    Done(bool),
}

impl DirtyWalk {
    /// A walk that is to find out whether `sub` is dirty, beginning with its
    /// dependency link `link`.
    pub fn new(link: LinkKey, sub: NodeKey) -> (r: DirtyWalk)
        ensures
            r@ == (WalkView {
                link,
                sub,
                depth: 0,
                dirty: false,
                stack: Seq::empty(),
                phase: WalkPhase::Examine,
            }),
    {
        DirtyWalk { link, sub, depth: 0, dirty: false, stack: Vec::new(), phase: WalkPhase::Examine }
    }
}

} // verus!
