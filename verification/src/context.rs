use crate::flags::RECURSED;
use crate::keys::NodeKey;
use crate::system::ReactiveSystem;
use crate::types::ContextEntry;
use crate::types::ReactiveNode;
use vstd::prelude::*;

verus! {

/// The value bound to a type in a list of bindings: that of the first binding
/// for that type.
pub open spec fn lookup(entries: Seq<ContextEntry>, type_id: u64) -> Option<u64>
    decreases entries.len(),
{
    if entries.len() == 0 {
        None
    } else if entries[0].type_id == type_id {
        Some(entries[0].value)
    } else {
        lookup(entries.drop_first(), type_id)
    }
}

/// The place of the first binding for a type, if there is one.
pub open spec fn place(entries: Seq<ContextEntry>, type_id: u64) -> Option<int>
    decreases entries.len(),
{
    if entries.len() == 0 {
        None
    } else if entries[0].type_id == type_id {
        Some(0)
    } else {
        match place(entries.drop_first(), type_id) {
            Some(i) => Some(i + 1),
            None => None,
        }
    }
}

/// What `place` returns is the place of the first binding for the type, and
/// `lookup` returns the value bound there.
pub proof fn lemma_place(entries: Seq<ContextEntry>, type_id: u64)
    ensures
        match place(entries, type_id) {
            Some(i) => 0 <= i < entries.len() && entries[i].type_id == type_id && lookup(
                entries,
                type_id,
            ) == Some(entries[i].value) && forall|j: int|
                0 <= j < i ==> entries[j].type_id != type_id,
            None => lookup(entries, type_id) is None && forall|j: int|
                0 <= j < entries.len() ==> entries[j].type_id != type_id,
        },
    decreases entries.len(),
{
    if entries.len() > 0 && entries[0].type_id != type_id {
        let rest = entries.drop_first();
        lemma_place(rest, type_id);
        match place(rest, type_id) {
            Some(i) => {
                assert forall|j: int| 0 <= j < i + 1 implies entries[j].type_id != type_id by {
                    if j > 0 {
                        assert(rest[j - 1] == entries[j]);
                    }
                }
            },
            None => {
                assert forall|j: int| 0 <= j < entries.len() implies entries[j].type_id
                    != type_id by {
                    if j > 0 {
                        assert(rest[j - 1] == entries[j]);
                    }
                }
            },
        }
    }
}

/// A list of bindings binds a type to the value of the first binding for it.
pub proof fn lemma_lookup_first(entries: Seq<ContextEntry>, type_id: u64, i: int)
    requires
        0 <= i < entries.len(),
        entries[i].type_id == type_id,
        forall|j: int| 0 <= j < i ==> entries[j].type_id != type_id,
    ensures
        lookup(entries, type_id) == Some(entries[i].value),
    decreases entries.len(),
{
    if i > 0 {
        let rest = entries.drop_first();
        assert(rest[i - 1] == entries[i]);
        assert forall|j: int| 0 <= j < i - 1 implies rest[j].type_id != type_id by {
            assert(rest[j] == entries[j + 1]);
        }
        lemma_lookup_first(rest, type_id, i - 1);
    }
}

/// A list without a binding for a type binds it to nothing.
pub proof fn lemma_lookup_none(entries: Seq<ContextEntry>, type_id: u64)
    requires
        forall|j: int| 0 <= j < entries.len() ==> entries[j].type_id != type_id,
    ensures
        lookup(entries, type_id) is None,
    decreases entries.len(),
{
    if entries.len() > 0 {
        let rest = entries.drop_first();
        assert forall|j: int| 0 <= j < rest.len() implies rest[j].type_id != type_id by {
            assert(rest[j] == entries[j + 1]);
        }
        lemma_lookup_none(rest, type_id);
    }
}

/// Finds the first binding for a type.
pub fn find_binding(entries: &Vec<ContextEntry>, type_id: u64) -> (r: Option<usize>)
    ensures
        match r {
            Some(i) => place(entries@, type_id) == Some(i as int),
            None => place(entries@, type_id) is None,
        },
{
    let mut i: usize = 0;
    proof {
        lemma_place(entries@, type_id);
    }
    while i < entries.len()
        invariant
            0 <= i <= entries@.len(),
            forall|j: int| 0 <= j < i ==> entries@[j].type_id != type_id,
        decreases entries@.len() - i,
    {
        if entries[i].type_id == type_id {
            proof {
                lemma_place(entries@, type_id);
            }
            return Some(i);
        }
        i = i + 1;
    }
    proof {
        lemma_place(entries@, type_id);
    }
    None
}

impl ReactiveSystem {
    /// The value that `scope` or the nearest scope above it provides for a
    /// type, looking `fuel` levels up at most.
    pub open spec fn context_from(&self, scope: NodeKey, type_id: u64, fuel: nat) -> Option<u64>
        decreases fuel,
    {
        if !self.nodes@.contains_key(scope) {
            None
        } else {
            match lookup(self.nodes@[scope].contexts@, type_id) {
                Some(v) => Some(v),
                None => match self.nodes@[scope].parent {
                    Some(p) => if fuel > 0 {
                        self.context_from(p, type_id, (fuel - 1) as nat)
                    } else {
                        None
                    },
                    None => None,
                },
            }
        }
    }

    /// The value that the current scope sees for a type: its own, or that of
    /// the nearest scope above it that provides one.
    pub open spec fn context(&self, type_id: u64) -> Option<u64> {
        self.context_from(self.current_scope, type_id, self.nodes@[self.current_scope].depth@)
    }

    /// The nodes differ at most in their context bindings.
    pub open spec fn same_but_contexts(&self, before: &ReactiveSystem) -> bool {
        &&& self.same_but_nodes(before)
        &&& self.nodes@.dom() =~= before.nodes@.dom()
        &&& forall|n: NodeKey| #[trigger]
            self.nodes@.contains_key(n) ==> self.nodes@[n] == (ReactiveNode {
                contexts: self.nodes@[n].contexts,
                ..before.nodes@[n]
            })
    }

    /// Provides a value, by its handle, for a type in the current scope. The
    /// scope and all below it see this value for the type until one of them
    /// provides another. A value that the scope provided for the type before
    /// is replaced.
    pub fn provide_context(&mut self, type_id: u64, value: u64)
        requires
            old(self).wf(),
            old(self).nodes@.contains_key(old(self).current_scope),
        ensures
            final(self).wf(),
            final(self).same_but_contexts(old(self)),
            lookup(final(self).nodes@[old(self).current_scope].contexts@, type_id) == Some(value),
            forall|t: u64|
                t != type_id ==> #[trigger] lookup(
                    final(self).nodes@[old(self).current_scope].contexts@,
                    t,
                ) == lookup(old(self).nodes@[old(self).current_scope].contexts@, t),
            forall|n: NodeKey| #[trigger]
                final(self).nodes@.contains_key(n) && n != old(self).current_scope
                    ==> final(self).nodes@[n].contexts == old(self).nodes@[n].contexts,
            final(self).context(type_id) == Some(value),
    {
        let scope = self.current_scope;
        let ghost before = self.nodes@[scope].contexts@;
        let n = self.nodes.slot_mut(scope);
        let at = find_binding(&n.contexts, type_id);
        proof {
            lemma_place(before, type_id);
        }
        match at {
            Some(i) => {
                n.contexts[i] = ContextEntry { type_id, value };
                proof {
                    let after = n.contexts@;
                    lemma_lookup_first(after, type_id, i as int);
                    assert forall|t: u64| t != type_id implies #[trigger] lookup(after, t)
                        == lookup(before, t) by {
                        lemma_place(before, t);
                        match place(before, t) {
                            Some(k) => {
                                lemma_lookup_first(after, t, k);
                            },
                            None => {
                                lemma_lookup_none(after, t);
                            },
                        }
                    }
                }
            },
            None => {
                n.contexts.push(ContextEntry { type_id, value });
                proof {
                    let after = n.contexts@;
                    lemma_lookup_first(after, type_id, before.len() as int);
                    assert forall|t: u64| t != type_id implies #[trigger] lookup(after, t)
                        == lookup(before, t) by {
                        lemma_place(before, t);
                        match place(before, t) {
                            Some(k) => {
                                lemma_lookup_first(after, t, k);
                            },
                            None => {
                                lemma_lookup_none(after, t);
                            },
                        }
                    }
                }
            },
        }
        proof {
            self.lemma_keep_inv_nodes(old(self), None);
        }
    }

    /// The value that the current scope sees for a type: its own, or that of
    /// the nearest scope above it that provides one, or nothing.
    pub fn use_context(&self, type_id: u64) -> (r: Option<u64>)
        requires
            self.wf(),
        ensures
            r == self.context(type_id),
    {
        let mut cur = self.current_scope;
        let mut found: Option<u64> = None;
        loop
            invariant_except_break
                found is None,
                self.context(type_id) == self.context_from(
                    cur,
                    type_id,
                    self.nodes@[cur].depth@,
                ),
            invariant
                self.wf(),
            ensures
                found == self.context(type_id),
            decreases self.nodes@[cur].depth@,
        {
            let n = match self.nodes.get(cur) {
                Some(n) => n,
                None => {
                    break ;
                },
            };
            proof {
                lemma_place(n.contexts@, type_id);
                assert(self.node_wf(cur, None));
            }
            match find_binding(&n.contexts, type_id) {
                Some(i) => {
                    found = Some(n.contexts[i].value);
                    break ;
                },
                None => {},
            }
            match n.parent {
                Some(p) => {
                    cur = p;
                },
                None => {
                    break ;
                },
            }
        }
        found
    }

    /// Whether the current scope sees a value for a type.
    pub fn has_context(&self, type_id: u64) -> (r: bool)
        requires
            self.wf(),
        ensures
            r == (self.context(type_id) is Some),
    {
        self.use_context(type_id).is_some()
    }
}

} // verus!
