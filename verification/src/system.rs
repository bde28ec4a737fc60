use crate::arena::LinkMap;
use crate::chain::chained;
use crate::chain::first_of;
use crate::chain::last_of;
use crate::arena::NodeMap;
use crate::flags::ReactiveFlags;
use crate::flags::RECURSED;
use crate::keys::LinkKey;
use crate::keys::NodeKey;
use crate::types::Link;
use crate::types::NodeInner;
use crate::types::ReactiveNode;
use vstd::prelude::*;

verus! {

/// The reactive graph and the state of its scheduler.
pub struct ReactiveSystem {
    /// Counts tracking passes; stamped on links as their version.
    pub cycle: usize,
    pub batch_depth: usize,
    /// The next entry of `queued` to drain.
    pub notify_index: usize,
    /// How many entries of `queued` are in use.
    pub queued_length: usize,
    pub queued: Vec<NodeKey>,
    /// Scratch space of `propagate`.
    pub stack: Vec<LinkKey>,
    pub root: NodeKey,
    /// The node whose reads are being tracked, if any.
    pub active_sub: Option<NodeKey>,
    /// The parent of nodes created now.
    pub current_scope: NodeKey,
    pub nodes: NodeMap,
    pub links: LinkMap,
    /// No node lies deeper in the scope tree than this.
    pub depth_bound: Ghost<nat>,
}

impl ReactiveSystem {
    /// The dependency links of `n`, head first.
    pub open spec fn dep_list(&self, n: NodeKey) -> Seq<LinkKey> {
        self.nodes@[n].dep_list@
    }

    /// The subscriber links of `n`, head first.
    pub open spec fn sub_list(&self, n: NodeKey) -> Seq<LinkKey> {
        self.nodes@[n].sub_list@
    }

    /// The children of `n`, newest first.
    pub open spec fn child_list(&self, n: NodeKey) -> Seq<NodeKey> {
        self.nodes@[n].child_list@
    }

    /// The parent of `n`, where `n` is alive and has one.
    pub open spec fn parent_of(&self, n: NodeKey) -> Option<NodeKey> {
        if self.nodes@.contains_key(n) {
            self.nodes@[n].parent
        } else {
            None
        }
    }

    /// For each link, the link before it among its subscriber's dependencies.
    pub open spec fn prev_dep_of(&self) -> spec_fn(LinkKey) -> Option<LinkKey> {
        |l: LinkKey| self.links@[l].prev_dep
    }

    /// For each link, the link after it among its subscriber's dependencies.
    pub open spec fn next_dep_of(&self) -> spec_fn(LinkKey) -> Option<LinkKey> {
        |l: LinkKey| self.links@[l].next_dep
    }

    /// For each link, the link before it among its dependency's subscribers.
    pub open spec fn prev_sub_of(&self) -> spec_fn(LinkKey) -> Option<LinkKey> {
        |l: LinkKey| self.links@[l].prev_sub
    }

    /// For each link, the link after it among its dependency's subscribers.
    pub open spec fn next_sub_of(&self) -> spec_fn(LinkKey) -> Option<LinkKey> {
        |l: LinkKey| self.links@[l].next_sub
    }

    /// For each node, the sibling before it.
    pub open spec fn prev_of(&self) -> spec_fn(NodeKey) -> Option<NodeKey> {
        |n: NodeKey| self.nodes@[n].prev
    }

    /// For each node, the sibling after it.
    pub open spec fn next_of(&self) -> spec_fn(NodeKey) -> Option<NodeKey> {
        |n: NodeKey| self.nodes@[n].next
    }

    /// The dependency list of `n` is threaded through its links, each with
    /// `n` as subscriber, and the cursor lies on it.
    pub open spec fn deps_wf(&self, n: NodeKey) -> bool {
        let node = self.nodes@[n];
        let d = node.dep_list@;
        &&& chained(d, self.prev_dep_of(), self.next_dep_of())
        &&& node.deps == first_of(d)
        &&& (node.deps_tail matches Some(t) ==> d.contains(t))
        &&& forall|i: int|
            0 <= i < d.len() ==> self.links@.contains_key(#[trigger] d[i]) && self.links@[d[i]].sub
                == n
    }

    /// The subscriber list of `n` is threaded through its links, each with
    /// `n` as dependency, from head to tail.
    pub open spec fn subs_wf(&self, n: NodeKey) -> bool {
        let node = self.nodes@[n];
        let s = node.sub_list@;
        &&& chained(s, self.prev_sub_of(), self.next_sub_of())
        &&& node.subs == first_of(s)
        &&& node.subs_tail == last_of(s)
        &&& forall|i: int|
            0 <= i < s.len() ==> self.links@.contains_key(#[trigger] s[i]) && self.links@[s[i]].dep
                == n
    }

    /// The list of children of `n` is threaded through its children, each with
    /// `n` as parent.
    pub open spec fn children_wf(&self, n: NodeKey) -> bool {
        let node = self.nodes@[n];
        let c = node.child_list@;
        &&& chained(c, self.prev_of(), self.next_of())
        &&& node.child == first_of(c)
        &&& forall|i: int|
            0 <= i < c.len() ==> self.nodes@.contains_key(#[trigger] c[i]) && self.nodes@[c[i]].parent
                == Some(n)
    }

    /// `n` is the root, or a child of its parent, one level below it.
    pub open spec fn parent_wf(&self, n: NodeKey) -> bool {
        let node = self.nodes@[n];
        &&& node.depth@ <= self.depth_bound@
        &&& match node.parent {
            Some(p) => {
                &&& n != self.root
                &&& self.nodes@.contains_key(p)
                &&& self.nodes@[p].child_list@.contains(n)
                &&& node.depth@ == self.nodes@[p].depth@ + 1
            },
            None => n == self.root && node.depth@ == 0 && node.prev is None && node.next is None,
        }
    }

    /// `n` is cut out of its parent's list of children, or not yet put in: the
    /// parent is alive and one level up, and does not list `n`.
    pub open spec fn orphan_wf(&self, n: NodeKey) -> bool {
        let node = self.nodes@[n];
        &&& n != self.root
        &&& node.depth@ <= self.depth_bound@
        &&& node.parent matches Some(p)
        &&& self.nodes@.contains_key(p)
        &&& !self.nodes@[p].child_list@.contains(n)
        &&& node.depth@ == self.nodes@[p].depth@ + 1
    }

    /// The three lists of `n` are threaded, `n` has its place in the scope tree,
    /// or is the orphan, and it does not carry the `RECURSED` flag.
    pub open spec fn node_wf(&self, n: NodeKey, orphan: Option<NodeKey>) -> bool {
        &&& self.deps_wf(n)
        &&& self.subs_wf(n)
        &&& self.children_wf(n)
        &&& if orphan == Some(n) {
            self.orphan_wf(n)
        } else {
            self.parent_wf(n)
        }
        &&& !self.nodes@[n].flags.any(RECURSED)
    }

    /// Both ends of `l` are alive and hold `l` in their lists.
    pub open spec fn link_wf(&self, l: LinkKey) -> bool {
        let link = self.links@[l];
        &&& self.nodes@.contains_key(link.dep)
        &&& self.nodes@.contains_key(link.sub)
        &&& self.nodes@[link.sub].dep_list@.contains(l)
        &&& self.nodes@[link.dep].sub_list@.contains(l)
    }

    /// The queue's counters lie within the buffer.
    pub open spec fn queue_wf(&self) -> bool {
        self.notify_index <= self.queued_length <= self.queued@.len()
    }

    /// The graph is consistent but for `orphan`, which is alive and lies in no
    /// list of children.
    pub open spec fn inv(&self, orphan: Option<NodeKey>) -> bool {
        &&& self.nodes@.dom().finite()
        &&& self.links@.dom().finite()
        &&& self.nodes@.contains_key(self.root)
        &&& (orphan matches Some(o) ==> self.nodes@.contains_key(o))
        &&& self.queue_wf()
        &&& forall|n: NodeKey| self.nodes@.contains_key(n) ==> #[trigger] self.node_wf(n, orphan)
        &&& forall|l: LinkKey| self.links@.contains_key(l) ==> #[trigger] self.link_wf(l)
    }

    /// The graph is consistent: every list is threaded as its model says,
    /// every link lies in the lists of both its ends, every node but the root
    /// lies in its parent's list of children, one level below the parent, and
    /// no node carries the `RECURSED` flag. The queue's counters lie within
    /// its buffer. The active subscriber, the current scope and the entries of
    /// the queue may name nodes that exist no more: who uses them looks first.
    pub open spec fn wf(&self) -> bool {
        self.inv(None)
    }

    /// Nodes and links held, as one number.
    pub open spec fn size(&self) -> nat {
        self.nodes@.len() + self.links@.len()
    }

    /// A system that holds the root scope and nothing else.
    pub fn new() -> (r: ReactiveSystem)
        ensures
            r.wf(),
            r.nodes@.dom() == set![r.root],
            r.links@.dom() == Set::<LinkKey>::empty(),
            r.current_scope == r.root,
            r.active_sub is None,
            r.batch_depth == 0,
            r.cycle == 0,
            r.notify_index == 0,
            r.queued_length == 0,
            r.nodes@[r.root].inner is Scope,
            r.nodes@[r.root].flags.0 == 0,
            r.nodes@[r.root].cleanups@.len() == 0,
            r.nodes@[r.root].contexts@.len() == 0,
    {
        let mut nodes = NodeMap::new();
        let links = LinkMap::new();
        assert(nodes@.dom().finite());
        assert(nodes@.len() == 0);
        let root = nodes.insert(ReactiveNode::new(NodeInner::Scope, ReactiveFlags::none(), None));
        let r = ReactiveSystem {
            cycle: 0,
            batch_depth: 0,
            notify_index: 0,
            queued_length: 0,
            queued: Vec::new(),
            stack: Vec::new(),
            root,
            active_sub: None,
            current_scope: root,
            nodes,
            links,
            depth_bound: Ghost(0),
        };
        proof {
            assert(r.nodes@.dom() =~= set![root]);
            assert(r.node_wf(root, None)) by {
                crate::flags::lemma_patterns();
            }
        }
        r
    }

    /// Whether the node is alive.
    pub fn contains(&self, node: NodeKey) -> (r: bool)
        ensures
            r == self.nodes@.contains_key(node),
    {
        self.nodes.contains_key(node)
    }

    /// The flags of a node that is alive.
    pub fn flags_of(&self, node: NodeKey) -> (r: Option<ReactiveFlags>)
        ensures
            r == (if self.nodes@.contains_key(node) {
                Some(self.nodes@[node].flags)
            } else {
                None
            }),
    {
        match self.nodes.get(node) {
            Some(n) => Some(n.flags),
            None => None,
        }
    }

    /// `self` with another subscriber active.
    pub open spec fn with_active(&self, sub: Option<NodeKey>) -> ReactiveSystem {
        ReactiveSystem { active_sub: sub, ..*self }
    }

    /// `self` with another scope current.
    pub open spec fn with_scope(&self, scope: NodeKey) -> ReactiveSystem {
        ReactiveSystem { current_scope: scope, ..*self }
    }

    /// Makes `sub` the active subscriber and returns the one that was.
    pub fn set_active_sub(&mut self, sub: Option<NodeKey>) -> (r: Option<NodeKey>)
        ensures
            r == old(self).active_sub,
            *final(self) == old(self).with_active(sub),
            old(self).wf() ==> final(self).wf(),
    {
        let prev = self.active_sub;
        self.active_sub = sub;
        proof {
            if old(self).wf() {
                self.lemma_keep_wf(old(self));
            }
        }
        prev
    }

    /// The active subscriber.
    pub fn active_sub(&self) -> (r: Option<NodeKey>)
        ensures
            r == self.active_sub,
    {
        self.active_sub
    }

    /// The current scope.
    pub fn current_scope(&self) -> (r: NodeKey)
        ensures
            r == self.current_scope,
    {
        self.current_scope
    }

    /// The root scope.
    pub fn root(&self) -> (r: NodeKey)
        ensures
            r == self.root,
    {
        self.root
    }

    /// Makes `scope` the current scope.
    pub fn set_current_scope(&mut self, scope: NodeKey)
        ensures
            *final(self) == old(self).with_scope(scope),
            old(self).wf() ==> final(self).wf(),
    {
        self.current_scope = scope;
        proof {
            if old(self).wf() {
                self.lemma_keep_wf(old(self));
            }
        }
    }

    /// The node under a key, or nothing where the key names no node that is
    /// alive.
    pub fn node(&self, key: NodeKey) -> (r: Option<&ReactiveNode>)
        ensures
            r == (if self.nodes@.contains_key(key) {
                Some(&self.nodes@[key])
            } else {
                None
            }),
    {
        self.nodes.get(key)
    }

    /// The link under a key, or nothing where the key names no link that is
    /// alive.
    pub fn link_at(&self, key: LinkKey) -> (r: Option<&Link>)
        ensures
            r == (if self.links@.contains_key(key) {
                Some(&self.links@[key])
            } else {
                None
            }),
    {
        self.links.get(key)
    }

    /// The number of nodes and the number of links held.
    pub fn count(&self) -> (r: (usize, usize))
        requires
            self.wf(),
        ensures
            r.0 == self.nodes@.len(),
            r.1 == self.links@.len(),
    {
        (self.nodes.len(), self.links.len())
    }
}

} // verus!
