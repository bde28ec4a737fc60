use slotmap::DefaultKey;
use vstd::prelude::*;
use vstd::std_specs::cmp::PartialEqSpecImpl;

verus! {

/// `slotmap::DefaultKey`, carried through as a value that the verifier does
/// not look into.
#[verifier::external_type_specification]
#[verifier::external_body]
pub struct ExDefaultKey(DefaultKey);

/// `slotmap::DefaultKey`'s `==`: two keys are equal exactly when they are the
/// same key, slot index and version alike.
#[verifier::external_body]
fn slot_key_eq(a: &DefaultKey, b: &DefaultKey) -> (r: bool)
    ensures
        r == (*a == *b),
{
    a == b
}

/// Names a node of the arena. The arena makes a key for each node that it
/// takes in; once the node is removed the key names nothing.
#[derive(Clone, Copy, Debug, Hash)]
pub struct NodeKey(pub DefaultKey);

/// Names a link of the arena, as `NodeKey` names a node.
#[derive(Clone, Copy, Debug, Hash)]
pub struct LinkKey(pub DefaultKey);

impl PartialEq for NodeKey {
    fn eq(&self, other: &NodeKey) -> (r: bool) {
        slot_key_eq(&self.0, &other.0)
    }
}

impl PartialEqSpecImpl for NodeKey {
    open spec fn obeys_eq_spec() -> bool {
        true
    }

    open spec fn eq_spec(&self, other: &NodeKey) -> bool {
        self.0 == other.0
    }
}

impl Eq for NodeKey {

}

impl PartialEq for LinkKey {
    fn eq(&self, other: &LinkKey) -> (r: bool) {
        slot_key_eq(&self.0, &other.0)
    }
}

impl PartialEqSpecImpl for LinkKey {
    open spec fn obeys_eq_spec() -> bool {
        true
    }

    open spec fn eq_spec(&self, other: &LinkKey) -> bool {
        self.0 == other.0
    }
}

impl Eq for LinkKey {

}

/// Whether an optional node key holds the given key.
pub fn is_node(slot: Option<NodeKey>, key: NodeKey) -> (r: bool)
    ensures
        r == (slot == Some(key)),
{
    match slot {
        Some(k) => k == key,
        None => false,
    }
}

/// Whether an optional link key holds the given key.
pub fn is_link(slot: Option<LinkKey>, key: LinkKey) -> (r: bool)
    ensures
        r == (slot == Some(key)),
{
    match slot {
        Some(k) => k == key,
        None => false,
    }
}

} // verus!
