use crate::keys::LinkKey;
use crate::keys::NodeKey;
use crate::types::Link;
use crate::types::ReactiveNode;
use slotmap::DefaultKey;
use slotmap::SlotMap;
use vstd::prelude::*;

verus! {

/// The most values one arena holds: with that many in it, `SlotMap::insert`
/// has no slot left to give.
pub const ARENA_CAPACITY: usize = 0xffff_fffe;

/// The arena of nodes: a `slotmap::SlotMap`. The verifier does not look
/// inside; `node_slots` names what it holds, and the methods below say, each
/// for one method of `SlotMap`, what that does to it.
#[verifier::external_body]
pub struct NodeMap {
    slots: SlotMap<DefaultKey, ReactiveNode>,
}

/// The arena of links: a `slotmap::SlotMap`. The verifier does not look
/// inside; `link_slots` names what it holds, and the methods below say, each
/// for one method of `SlotMap`, what that does to it.
#[verifier::external_body]
pub struct LinkMap {
    slots: SlotMap<DefaultKey, Link>,
}

/// The nodes that the arena holds, each under its key.
pub uninterp spec fn node_slots(m: NodeMap) -> Map<NodeKey, ReactiveNode>;

/// The links that the arena holds, each under its key.
pub uninterp spec fn link_slots(m: LinkMap) -> Map<LinkKey, Link>;

impl NodeMap {
    /// The nodes held, each under its key.
    pub open spec fn view(&self) -> Map<NodeKey, ReactiveNode> {
        node_slots(*self)
    }

    /// `SlotMap::new`: an arena that holds nothing.
    #[verifier::external_body]
    pub(crate) fn new() -> (r: NodeMap)
        ensures
            node_slots(r).dom() == Set::<NodeKey>::empty(),
    {
        NodeMap { slots: SlotMap::new() }
    }

    /// `SlotMap::len`: the number of values held.
    #[verifier::external_body]
    pub(crate) fn len(&self) -> (r: usize)
        requires
            node_slots(*self).dom().finite(),
        ensures
            r == node_slots(*self).len(),
    {
        self.slots.len()
    }

    /// `SlotMap::get`: the value under `key`, or nothing where the key names
    /// no value held now.
    #[verifier::external_body]
    pub(crate) fn get(&self, key: NodeKey) -> (r: Option<&ReactiveNode>)
        ensures
            r == (if node_slots(*self).contains_key(key) {
                Some(&node_slots(*self)[key])
            } else {
                None
            }),
    {
        self.slots.get(key.0)
    }

    /// `SlotMap::get_mut`, on a key that is held: the value under `key`, to
    /// change in place. Nothing else in the arena changes.
    #[verifier::external_body]
    pub(crate) fn slot_mut(&mut self, key: NodeKey) -> (r: &mut ReactiveNode)
        requires
            node_slots(*old(self)).contains_key(key),
        ensures
            *r == node_slots(*old(self))[key],
            node_slots(*final(self)) == node_slots(*old(self)).insert(key, *final(r)),
    {
        self.slots.get_mut(key.0).unwrap()
    }

    /// `SlotMap::insert`: stores the value under a key that names nothing held
    /// before, and returns that key. A full arena is left out, on which the
    /// call does not return.
    #[verifier::external_body]
    pub(crate) fn insert(&mut self, node: ReactiveNode) -> (r: NodeKey)
        requires
            node_slots(*old(self)).dom().finite(),
            node_slots(*old(self)).len() < ARENA_CAPACITY,
        ensures
            !node_slots(*old(self)).contains_key(r),
            node_slots(*final(self)) == node_slots(*old(self)).insert(r, node),
    {
        NodeKey(self.slots.insert(node))
    }

    /// `SlotMap::remove`: takes the value under `key` out and returns it, or
    /// does nothing where the key names no value held now.
    #[verifier::external_body]
    pub(crate) fn remove(&mut self, key: NodeKey) -> (r: Option<ReactiveNode>)
        ensures
            r == (if node_slots(*old(self)).contains_key(key) {
                Some(node_slots(*old(self))[key])
            } else {
                None
            }),
            node_slots(*final(self)) == node_slots(*old(self)).remove(key),
    {
        self.slots.remove(key.0)
    }

    /// Whether the key names a node held now.
    pub fn contains_key(&self, key: NodeKey) -> (r: bool)
        ensures
            r == self@.contains_key(key),
    {
        self.get(key).is_some()
    }
}

impl LinkMap {
    /// The links held, each under its key.
    pub open spec fn view(&self) -> Map<LinkKey, Link> {
        link_slots(*self)
    }

    /// `SlotMap::new`: an arena that holds nothing.
    #[verifier::external_body]
    pub(crate) fn new() -> (r: LinkMap)
        ensures
            link_slots(r).dom() == Set::<LinkKey>::empty(),
    {
        LinkMap { slots: SlotMap::new() }
    }

    /// `SlotMap::len`: the number of values held.
    #[verifier::external_body]
    pub(crate) fn len(&self) -> (r: usize)
        requires
            link_slots(*self).dom().finite(),
        ensures
            r == link_slots(*self).len(),
    {
        self.slots.len()
    }

    /// `SlotMap::get`: the value under `key`, or nothing where the key names
    /// no value held now.
    #[verifier::external_body]
    pub(crate) fn get(&self, key: LinkKey) -> (r: Option<&Link>)
        ensures
            r == (if link_slots(*self).contains_key(key) {
                Some(&link_slots(*self)[key])
            } else {
                None
            }),
    {
        self.slots.get(key.0)
    }

    /// `SlotMap::get_mut`, on a key that is held: the value under `key`, to
    /// change in place. Nothing else in the arena changes.
    #[verifier::external_body]
    pub(crate) fn slot_mut(&mut self, key: LinkKey) -> (r: &mut Link)
        requires
            link_slots(*old(self)).contains_key(key),
        ensures
            *r == link_slots(*old(self))[key],
            link_slots(*final(self)) == link_slots(*old(self)).insert(key, *final(r)),
    {
        self.slots.get_mut(key.0).unwrap()
    }

    /// `SlotMap::insert`: stores the value under a key that names nothing held
    /// before, and returns that key. A full arena is left out, on which the
    /// call does not return.
    #[verifier::external_body]
    pub(crate) fn insert(&mut self, link: Link) -> (r: LinkKey)
        requires
            link_slots(*old(self)).dom().finite(),
            link_slots(*old(self)).len() < ARENA_CAPACITY,
        ensures
            !link_slots(*old(self)).contains_key(r),
            link_slots(*final(self)) == link_slots(*old(self)).insert(r, link),
    {
        LinkKey(self.slots.insert(link))
    }

    /// `SlotMap::remove`: takes the value under `key` out and returns it, or
    /// does nothing where the key names no value held now.
    #[verifier::external_body]
    pub(crate) fn remove(&mut self, key: LinkKey) -> (r: Option<Link>)
        ensures
            r == (if link_slots(*old(self)).contains_key(key) {
                Some(link_slots(*old(self))[key])
            } else {
                None
            }),
            link_slots(*final(self)) == link_slots(*old(self)).remove(key),
    {
        self.slots.remove(key.0)
    }

    /// Whether the key names a link held now.
    pub fn contains_key(&self, key: LinkKey) -> (r: bool)
        ensures
            r == self@.contains_key(key),
    {
        self.get(key).is_some()
    }
}

} // verus!
