use crate::chain::lemma_chained_at;
use crate::flags::RECURSED_CHECK;
use crate::keys::LinkKey;
use crate::keys::NodeKey;
use crate::system::ReactiveSystem;
use vstd::prelude::*;

verus! {

/// In a consistent graph every link lies in the subscriber list of its
/// dependency and in the dependency list of its subscriber, both of which are
/// alive, and the links next to it in either list point back at it.
pub proof fn law_links_threaded(sys: &ReactiveSystem, l: LinkKey)
    requires
        sys.wf(),
        sys.links@.contains_key(l),
    ensures
        sys.nodes@.contains_key(sys.links@[l].dep),
        sys.nodes@.contains_key(sys.links@[l].sub),
        sys.sub_list(sys.links@[l].dep).contains(l),
        sys.dep_list(sys.links@[l].sub).contains(l),
        match sys.links@[l].next_dep {
            Some(m) => sys.links@.contains_key(m) && sys.links@[m].prev_dep == Some(l)
                && sys.links@[m].sub == sys.links@[l].sub,
            None => true,
        },
        match sys.links@[l].prev_dep {
            Some(m) => sys.links@.contains_key(m) && sys.links@[m].next_dep == Some(l)
                && sys.links@[m].sub == sys.links@[l].sub,
            None => sys.nodes@[sys.links@[l].sub].deps == Some(l),
        },
        match sys.links@[l].next_sub {
            Some(m) => sys.links@.contains_key(m) && sys.links@[m].prev_sub == Some(l)
                && sys.links@[m].dep == sys.links@[l].dep,
            None => sys.nodes@[sys.links@[l].dep].subs_tail == Some(l),
        },
        match sys.links@[l].prev_sub {
            Some(m) => sys.links@.contains_key(m) && sys.links@[m].next_sub == Some(l)
                && sys.links@[m].dep == sys.links@[l].dep,
            None => sys.nodes@[sys.links@[l].dep].subs == Some(l),
        },
{
    let link = sys.links@[l];
    assert(sys.link_wf(l));
    assert(sys.node_wf(link.dep, None));
    assert(sys.node_wf(link.sub, None));
    let d = sys.dep_list(link.sub);
    let i = d.index_of(l);
    assert(d[i] == l);
    lemma_chained_at(d, sys.prev_dep_of(), sys.next_dep_of(), i);
    if i > 0 {
        lemma_chained_at(d, sys.prev_dep_of(), sys.next_dep_of(), i - 1);
        assert(sys.links@.contains_key(d[i - 1]));
    }
    if i + 1 < d.len() {
        lemma_chained_at(d, sys.prev_dep_of(), sys.next_dep_of(), i + 1);
        assert(sys.links@.contains_key(d[i + 1]));
    }
    let s = sys.sub_list(link.dep);
    let j = s.index_of(l);
    assert(s[j] == l);
    lemma_chained_at(s, sys.prev_sub_of(), sys.next_sub_of(), j);
    if j > 0 {
        lemma_chained_at(s, sys.prev_sub_of(), sys.next_sub_of(), j - 1);
        assert(sys.links@.contains_key(s[j - 1]));
    }
    if j + 1 < s.len() {
        lemma_chained_at(s, sys.prev_sub_of(), sys.next_sub_of(), j + 1);
        assert(sys.links@.contains_key(s[j + 1]));
    }
}

/// In a consistent graph every node but the root has a parent that is alive
/// and holds the node in its list of children.
pub proof fn law_child_listed(sys: &ReactiveSystem, n: NodeKey)
    requires
        sys.wf(),
        sys.nodes@.contains_key(n),
        n != sys.root,
    ensures
        sys.nodes@[n].parent is Some,
        sys.nodes@.contains_key(sys.nodes@[n].parent->0),
        sys.child_list(sys.nodes@[n].parent->0).contains(n),
{
    assert(sys.node_wf(n, None));
}

/// Disposing of a scope a second time changes nothing.
pub proof fn law_dispose_twice(
    before: &ReactiveSystem,
    once: &ReactiveSystem,
    twice: &ReactiveSystem,
    node: NodeKey,
)
    requires
        before.wf(),
        node != before.root,
        once.scope_disposed(before, node),
        twice.scope_disposed(once, node),
    ensures
        *twice == *once,
{
}

/// After a cleanup, a second cleanup leaves the graph and the scheduler as
/// they are.
pub proof fn law_cleanup_twice(
    before: &ReactiveSystem,
    once: &ReactiveSystem,
    twice: &ReactiveSystem,
)
    requires
        once.wf(),
        twice.wf(),
        once.cleaned(before),
        twice.cleaned(once),
    ensures
        twice.nodes@ == once.nodes@,
        twice.links@ == once.links@,
        twice.same_but_graph(once),
{
    let root = once.root;
    assert(once.node_wf(root, None));
    assert(twice.node_wf(root, None));
    assert(twice.nodes@.contains_key(root));
    let a = twice.nodes@[root];
    let b = once.nodes@[root];
    assert(once.dep_list(root).len() == 0) by {
        if once.dep_list(root).len() > 0 {
            assert(once.links@.contains_key(once.dep_list(root)[0]));
        }
    }
    assert(once.sub_list(root).len() == 0) by {
        if once.sub_list(root).len() > 0 {
            assert(once.links@.contains_key(once.sub_list(root)[0]));
        }
    }
    assert(once.child_list(root).len() == 0) by {
        if once.child_list(root).len() > 0 {
            let c = once.child_list(root)[0];
            assert(once.nodes@.contains_key(c));
            assert(once.node_wf(c, None));
        }
    }
    assert(a.dep_list@ =~= b.dep_list@);
    assert(a.sub_list@ =~= b.sub_list@);
    assert(a.child_list@ =~= b.child_list@);
    assert(a.deps_tail is None) by {
        if a.deps_tail is Some {
            assert(a.dep_list@.contains(a.deps_tail->0));
        }
    }
    assert(b.deps_tail is None) by {
        if b.deps_tail is Some {
            assert(b.dep_list@.contains(b.deps_tail->0));
        }
    }
    assert(a.cleanups@ =~= b.cleanups@);
    assert(a == b);
    assert(twice.nodes@ =~= once.nodes@);
    assert(twice.links@ =~= once.links@);
}

/// Opening a batch and closing it again leaves everything as it was, and the
/// closing asks for a flush exactly when no other batch is open. A flush of a
/// queue that holds nothing hands out no effect and changes nothing.
pub proof fn law_empty_batch(sys: &ReactiveSystem)
    requires
        sys.batch_depth < usize::MAX,
    ensures
        sys.with_depth((sys.batch_depth + 1) as usize).with_depth(sys.batch_depth) == *sys,
        sys.drained() ==> sys.next_effect() is None && sys.flushed_once() == *sys,
{
}

/// Marking leaves a node that is executing as it is.
pub proof fn law_executing_left_alone(before: &ReactiveSystem, now: &ReactiveSystem, n: NodeKey)
    requires
        now.pending_added(before),
        now.nodes@.contains_key(n),
        before.nodes@[n].flags.has(RECURSED_CHECK),
    ensures
        now.nodes@[n].flags == before.nodes@[n].flags,
{
    let f = before.nodes@[n].flags.0;
    crate::flags::lemma_mark_pending(f);
}

/// A write to a signal that leaves an effect queued is a write to a signal
/// with subscribers: it is then that `signal_notify` asks for a flush, unless
/// a batch is open.
pub proof fn law_write_asks_for_flush(before: &ReactiveSystem, now: &ReactiveSystem, node: NodeKey)
    requires
        before.nodes@.contains_key(node),
        before.drained(),
        now.written(before, node),
    ensures
        !now.drained() ==> before.nodes@[node].subs is Some,
{
}

/// A flush step that hands out nothing leaves the queue drained, whatever it
/// held.
pub proof fn law_flush_ends_drained(sys: &ReactiveSystem)
    ensures
        sys.next_effect() is None ==> sys.flushed_once().drained(),
{
}

/// After a cleanup there is one node and no link.
pub proof fn law_cleanup_leaves_root(before: &ReactiveSystem, now: &ReactiveSystem)
    requires
        now.wf(),
        now.cleaned(before),
    ensures
        now.nodes@.len() == 1,
        now.links@.len() == 0,
        now.nodes@.contains_key(now.root),
{
}

/// While the root has no subscriber, each child of the root is sheltered:
/// tearing down what it holds leaves it alive.
pub proof fn law_root_shelters(sys: &ReactiveSystem, node: NodeKey)
    requires
        sys.wf(),
        sys.nodes@.contains_key(node),
        sys.nodes@[node].parent == Some(sys.root),
        sys.sub_list(sys.root).len() == 0,
    ensures
        sys.sheltered(node),
{
    let up = set![sys.root];
    assert(sys.node_wf(sys.root, None));
    assert(sys.node_wf(node, None));
    assert forall|a: NodeKey| up.contains(a) implies #[trigger] sys.member_ok(up, a) by {
        assert(a == sys.root);
    }
    assert(sys.shelters(up, node));
}

/// Shelter reaches down the scope tree: where a set of nodes shelters `p`,
/// and each subscriber of `p` is `p` itself or a member of the set, the set
/// with `p` added shelters each child of `p`.
pub proof fn law_shelter_grows(sys: &ReactiveSystem, up: Set<NodeKey>, p: NodeKey, node: NodeKey)
    requires
        sys.wf(),
        sys.shelters(up, p),
        forall|l: LinkKey| #[trigger]
            sys.sub_list(p).contains(l) ==> up.contains(sys.links@[l].sub) || sys.links@[l].sub
                == p,
        sys.nodes@.contains_key(node),
        sys.nodes@[node].parent == Some(p),
    ensures
        sys.shelters(up.insert(p), node),
        sys.sheltered(node),
{
    let more = up.insert(p);
    assert(sys.node_wf(node, None));
    assert(sys.node_wf(p, None));
    assert forall|a: NodeKey| more.contains(a) implies #[trigger] sys.member_ok(more, a) by {
        if a != p {
            assert(sys.member_ok(up, a));
        }
    }
    if up.contains(node) {
        assert(sys.member_ok(up, node));
    }
    assert(sys.shelters(more, node));
}

} // verus!
