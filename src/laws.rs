//! Properties of the tree and of rebasing that hold across operations.
use vstd::prelude::*;

use crate::rebase::{carried_id, ServerTreeRebase};
use crate::tree::{key_is, same_key, InnerTreeNode, LanguageServerTree};
use crate::types::LanguageServerId;

verus! {

/// Within one generation no two entries share a (workspace root, detected root, server
/// name) key; every operation on the tree keeps it well formed.
pub proof fn lemma_keys_unique(t: LanguageServerTree, a: int, b: int)
    requires
        t.wf(),
        0 <= a < t.spec_entries().len(),
        0 <= b < t.spec_entries().len(),
        a != b,
    ensures
        !same_key(t.spec_entries()[a].key, t.spec_entries()[b].key),
{
}

/// Identities are written once: what lookups, registration and initialization keep,
/// a run of them keeps too, so a handle that reached identity `x` keeps reaching `x`.
pub proof fn lemma_identities_kept_trans(a: LanguageServerTree, b: LanguageServerTree, c: LanguageServerTree)
    requires
        b.identities_kept(&a),
        c.identities_kept(&b),
    ensures
        c.identities_kept(&a),
{
    assert forall|h| (#[trigger] a.server_id_of(h)).is_some() implies c.server_id_of(h) == a.server_id_of(h) by {
        assert(b.server_id_of(h) == a.server_id_of(h));
    }
}

/// Lookups and registrations only add to a tree, so every identity a handle reached
/// before is reached by it after.
pub proof fn lemma_extends_keeps_identities(a: LanguageServerTree, b: LanguageServerTree)
    requires
        b.extends(&a),
    ensures
        b.identities_kept(&a),
{
    assert forall|h| (#[trigger] a.server_id_of(h)).is_some() implies b.server_id_of(h) == a.server_id_of(h) by {
        assert(b.spec_slots()[h.index as int] == a.spec_slots()[h.index as int]);
    }
}

/// A node whose key held, in the previous generation, a node with the same
/// configuration takes over that node's identity.
pub proof fn lemma_unchanged_configuration_carries(old: LanguageServerTree, n: InnerTreeNode, j: int)
    requires
        old.wf(),
        0 <= j < old.spec_entries().len(),
        key_is(old.spec_entries()[j].key, n.path.worktree_id, n.path.path@, n.name@),
        old.spec_slots()[old.spec_entries()[j].node as int].node.settings.serialized@ == n.settings.serialized@,
    ensures
        carried_id(old, n) == old.spec_slots()[old.spec_entries()[j].node as int].node.id,
{
    let c = choose|c: int| 0 <= c < old.spec_entries().len()
        && key_is((#[trigger] old.spec_entries()[c]).key, n.path.worktree_id, n.path.path@, n.name@);
    if c != j {
        assert(!same_key(old.spec_entries()[c].key, old.spec_entries()[j].key));
    }
}

/// A node whose key held, in the previous generation, a node with another
/// configuration takes over no identity: it starts afresh.
pub proof fn lemma_changed_configuration_restarts(old: LanguageServerTree, n: InnerTreeNode, j: int)
    requires
        old.wf(),
        0 <= j < old.spec_entries().len(),
        key_is(old.spec_entries()[j].key, n.path.worktree_id, n.path.path@, n.name@),
        old.spec_slots()[old.spec_entries()[j].node as int].node.settings.serialized@ != n.settings.serialized@,
    ensures
        carried_id(old, n).is_none(),
{
    let c = choose|c: int| 0 <= c < old.spec_entries().len()
        && key_is((#[trigger] old.spec_entries()[c]).key, n.path.worktree_id, n.path.path@, n.name@);
    if c != j {
        assert(!same_key(old.spec_entries()[c].key, old.spec_entries()[j].key));
    }
}

/// When every identity of the previous generation was carried over, finishing the
/// rebase shuts nothing down.
pub proof fn lemma_all_carried_nothing_shut_down(s: ServerTreeRebase)
    requires
        s.wf(),
        forall|k: int| 0 <= k < s.spec_all().len() ==> s.spec_rebased().contains(#[trigger] s.spec_all()[k].0),
    ensures
        s.shutdown_set().len() == 0,
{
    let pred = |p: (LanguageServerId, String)| !s.spec_rebased().contains(p.0);
    let f = s.spec_all().filter(pred);
    assert(f == s.shutdown_set());
    if f.len() > 0 {
        assert(f.contains(f[0]));
        s.spec_all().lemma_filter_contains_rev(pred, f[0]);
        s.spec_all().lemma_filter_pred(pred, 0);
        let k = choose|k: int| 0 <= k < s.spec_all().len() && s.spec_all()[k] == f[0];
        assert(s.spec_rebased().contains(s.spec_all()[k].0));
    }
}

/// An identity of the previous generation that was not carried over is shut down
/// when the rebase finishes.
pub proof fn lemma_uncarried_shut_down(s: ServerTreeRebase, k: int)
    requires
        s.wf(),
        0 <= k < s.spec_all().len(),
        !s.spec_rebased().contains(s.spec_all()[k].0),
    ensures
        s.shutdown_set().contains(s.spec_all()[k]),
{
    broadcast use vstd::seq_lib::group_filter_ensures;
    assert(s.spec_all().contains(s.spec_all()[k]));
}

/// A carried identity is never shut down.
pub proof fn lemma_carried_not_shut_down(s: ServerTreeRebase, x: LanguageServerId)
    requires
        s.wf(),
        s.spec_rebased().contains(x),
    ensures
        forall|k: int| 0 <= k < s.shutdown_set().len() ==> (#[trigger] s.shutdown_set()[k]).0 != x,
{
    broadcast use vstd::seq_lib::group_filter_ensures;
    assert forall|k: int| 0 <= k < s.shutdown_set().len() implies (#[trigger] s.shutdown_set()[k]).0 != x by {
        assert(s.shutdown_set().contains(s.shutdown_set()[k]));
    }
}

} // verus!
