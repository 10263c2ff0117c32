//! Rebasing: building the next generation of the tree while carrying over the
//! identity of every server whose configuration is unchanged.
use vstd::prelude::*;

use crate::tree::{distinct_names, handed_out, key_is, lemma_empty_lookup_unchanged, lookup_frame, lookup_result, InnerTreeNode, LanguageServerTree, LanguageServerTreeNode};
use crate::adapters::{candidates_for, query_candidates, AdapterQuery, AdapterRegistrySnapshot};
use crate::types::{AdapterCandidate, LanguageServerId, ManifestRoot, ProjectPath, WorktreeId};

verus! {

/// Identities listed in strictly increasing order.
pub open spec fn ids_sorted(v: Seq<(LanguageServerId, String)>) -> bool {
    forall|a: int, b: int| 0 <= a < b < v.len() ==> (#[trigger] v[a]).0.0 < (#[trigger] v[b]).0.0
}

pub open spec fn has_id(v: Seq<(LanguageServerId, String)>, x: LanguageServerId) -> bool {
    exists|k: int| 0 <= k < v.len() && (#[trigger] v[k]).0 == x
}

/// `v` lists, in increasing order and once each, the identities assigned to the nodes
/// that `t` stores, each with the name of a node that carries it.
pub open spec fn universe_of(t: LanguageServerTree, v: Seq<(LanguageServerId, String)>) -> bool {
    &&& ids_sorted(v)
    &&& forall|j: int| 0 <= j < t.spec_entries().len() && (#[trigger] t.spec_entries()[j]).node < t.spec_slots().len()
        && t.spec_slots()[t.spec_entries()[j].node as int].node.id.is_some()
        ==> has_id(v, t.spec_slots()[t.spec_entries()[j].node as int].node.id.unwrap())
    &&& forall|k: int| 0 <= k < v.len() ==> witnessed(t, #[trigger] v[k])
}

/// Some node that `t` stores carries identity `p.0` under name `p.1`.
pub open spec fn witnessed(t: LanguageServerTree, p: (LanguageServerId, String)) -> bool {
    exists|j: int| 0 <= j < t.spec_entries().len()
        && (#[trigger] t.spec_entries()[j]).node < t.spec_slots().len()
        && t.spec_slots()[t.spec_entries()[j].node as int].node.id == Some(p.0)
        && t.spec_slots()[t.spec_entries()[j].node as int].node.name == p.1
}

/// Adds `(x, name)` to the sorted list `v`, unless `v` already lists `x`.
fn insert_sorted(v: &mut Vec<(LanguageServerId, String)>, x: LanguageServerId, name: String)
    requires
        ids_sorted(old(v)@),
    ensures
        ids_sorted(final(v)@),
        has_id(final(v)@, x),
        forall|y: LanguageServerId| has_id(final(v)@, y) == (has_id(old(v)@, y) || y == x),
        has_id(old(v)@, x) ==> final(v)@ == old(v)@,
        !has_id(old(v)@, x) ==> exists|p: int| 0 <= p <= old(v)@.len() && final(v)@ == old(v)@.insert(p, (x, name)),
{
    let mut p: usize = 0;
    while p < v.len() && v[p].0.0 < x.0
        invariant
            p <= v@.len(),
            ids_sorted(v@),
            forall|k: int| 0 <= k < p ==> (#[trigger] v@[k]).0.0 < x.0,
        decreases v@.len() - p,
    {
        p += 1;
    }
    if p < v.len() && v[p].0.0 == x.0 {
        assert(v@[p as int].0 == x);
        return;
    }
    proof {
        assert forall|k: int| 0 <= k < v@.len() implies (#[trigger] v@[k]).0 != x by {
            if k >= p {
                assert(v@[p as int].0.0 <= v@[k].0.0);
            }
        }
    }
    let ghost before = v@;
    v.insert(p, (x, name));
    proof {
        assert(v@[p as int].0 == x);
        assert forall|y: LanguageServerId| has_id(v@, y) == (has_id(before, y) || y == x) by {
            if has_id(v@, y) {
                let k = choose|k: int| 0 <= k < v@.len() && (#[trigger] v@[k]).0 == y;
                if k < p {
                    assert(before[k].0 == y);
                } else if k > p {
                    assert(before[k - 1].0 == y);
                }
            }
            if has_id(before, y) {
                let k = choose|k: int| 0 <= k < before.len() && (#[trigger] before[k]).0 == y;
                if k < p {
                    assert(v@[k].0 == y);
                } else {
                    assert(v@[k + 1].0 == y);
                }
            }
        }
    }
}

/// The identities assigned to the nodes that `t` stores, in increasing order, once each.
fn server_ids_of(t: &LanguageServerTree) -> (r: Vec<(LanguageServerId, String)>)
    requires
        t.wf(),
    ensures
        universe_of(*t, r@),
{
    let mut v: Vec<(LanguageServerId, String)> = Vec::new();
    let mut j: usize = 0;
    let count = t.entry_count();
    while j < count
        invariant
            t.wf(),
            count == t.spec_entries().len(),
            j <= count,
            ids_sorted(v@),
            forall|j2: int| 0 <= j2 < j && (#[trigger] t.spec_entries()[j2]).node < t.spec_slots().len()
                && t.spec_slots()[t.spec_entries()[j2].node as int].node.id.is_some()
                ==> has_id(v@, t.spec_slots()[t.spec_entries()[j2].node as int].node.id.unwrap()),
            forall|k: int| 0 <= k < v@.len() ==> witnessed(*t, #[trigger] v@[k]),
        decreases count - j,
    {
        let i = t.entry_node(j);
        assert(t.spec_entries()[j as int].node < t.spec_slots().len());
        let n = t.node(i);
        match n.id {
            Some(x) => {
                let ghost before = v@;
                let name = n.name.clone();
                insert_sorted(&mut v, x, name);
                proof {
                    assert forall|k: int| 0 <= k < v@.len() implies witnessed(*t, #[trigger] v@[k]) by {
                        if v@ != before {
                            let p = choose|p: int| 0 <= p <= before.len() && v@ == before.insert(p, (x, name));
                            if k < p {
                                assert(v@[k] == before[k]);
                            } else if k > p {
                                assert(v@[k] == before[k - 1]);
                            } else {
                                assert(v@[k] == (x, name));
                                assert(t.spec_entries()[j as int].node == i);
                            }
                        }
                    }
                }
            },
            None => {},
        }
        j += 1;
    }
    assert forall|j2: int| 0 <= j2 < t.spec_entries().len() && (#[trigger] t.spec_entries()[j2]).node < t.spec_slots().len()
        && t.spec_slots()[t.spec_entries()[j2].node as int].node.id.is_some()
        implies has_id(v@, t.spec_slots()[t.spec_entries()[j2].node as int].node.id.unwrap()) by {
        assert(j2 < j);
    }
    v
}

/// The identity that rebasing carries over to node `n`: that of the node stored at
/// `n`'s key in `old`, when its configuration equals `n`'s.
pub open spec fn carried_id(old: LanguageServerTree, n: InnerTreeNode) -> Option<LanguageServerId> {
    if old.has_at(n.path.worktree_id, n.path.path@, n.name@) {
        let j = choose|j: int| 0 <= j < old.spec_entries().len()
            && key_is((#[trigger] old.spec_entries()[j]).key, n.path.worktree_id, n.path.path@, n.name@);
        let m = old.spec_slots()[old.spec_entries()[j].node as int].node;
        if m.settings.serialized@ == n.settings.serialized@ {
            m.id
        } else {
            None
        }
    } else {
        None
    }
}

/// Two nodes that differ at most in their identity.
pub open spec fn same_but_id(a: InnerTreeNode, b: InnerTreeNode) -> bool {
    a.name == b.name && a.path == b.path && a.settings == b.settings
}

proof fn lemma_stored_is_chosen(t: LanguageServerTree, wt: WorktreeId, root: Seq<char>, name: Seq<char>, i: int)
    requires
        t.wf(),
        t.stores_at(wt, root, name, i),
    ensures
        t.has_at(wt, root, name),
        ({
            let j = choose|j: int| 0 <= j < t.spec_entries().len()
                && key_is((#[trigger] t.spec_entries()[j]).key, wt, root, name);
            t.spec_entries()[j].node == i
        }),
{
    let j1 = choose|j: int| 0 <= j < t.spec_entries().len() && key_is((#[trigger] t.spec_entries()[j]).key, wt, root, name)
        && t.spec_entries()[j].node == i;
    assert(t.has_at(wt, root, name));
    let j = choose|j: int| 0 <= j < t.spec_entries().len()
        && key_is((#[trigger] t.spec_entries()[j]).key, wt, root, name);
    if j != j1 {
        assert(!crate::tree::same_key(t.spec_entries()[j].key, t.spec_entries()[j1].key));
    }
}

/// A rebase in progress: the previous generation, the next one being built, the
/// identities of the previous generation, and those carried over so far.
#[derive(Debug)]
pub struct ServerTreeRebase {
    old_contents: LanguageServerTree,
    new_tree: LanguageServerTree,
    all_server_ids: Vec<(LanguageServerId, String)>,
    rebased_server_ids: Vec<LanguageServerId>,
}

impl ServerTreeRebase {
    pub closed spec fn spec_old(&self) -> LanguageServerTree {
        self.old_contents
    }

    pub closed spec fn spec_new(&self) -> LanguageServerTree {
        self.new_tree
    }

    pub closed spec fn spec_all(&self) -> Seq<(LanguageServerId, String)> {
        self.all_server_ids@
    }

    pub closed spec fn spec_rebased(&self) -> Seq<LanguageServerId> {
        self.rebased_server_ids@
    }

    /// Both generations are well formed, the next one is one generation on, `spec_all`
    /// lists the identities of the previous one, and every carried identity is among them.
    pub open spec fn wf(&self) -> bool {
        &&& self.spec_old().wf()
        &&& self.spec_new().wf()
        &&& self.spec_new().spec_generation() == self.spec_old().spec_generation() + 1
        &&& universe_of(self.spec_old(), self.spec_all())
        &&& forall|x: LanguageServerId| #[trigger] self.spec_rebased().contains(x) ==> has_id(self.spec_all(), x)
    }

    /// The previous generation's identities that were not carried over.
    pub open spec fn shutdown_set(&self) -> Seq<(LanguageServerId, String)> {
        self.spec_all().filter(|p: (LanguageServerId, String)| !self.spec_rebased().contains(p.0))
    }

    /// The tree being built.
    pub fn server_tree(&self) -> (r: &LanguageServerTree)
        ensures
            *r == self.spec_new(),
    {
        &self.new_tree
    }

    /// The tree being built, for initializing or registering nodes during the rebase.
    pub fn server_tree_mut(&mut self) -> (r: &mut LanguageServerTree)
        ensures
            *r == old(self).spec_new(),
            final(self).spec_new() == *final(r),
            final(self).spec_old() == old(self).spec_old(),
            final(self).spec_all() == old(self).spec_all(),
            final(self).spec_rebased() == old(self).spec_rebased(),
    {
        &mut self.new_tree
    }

    /// Ends the rebase: hands back the new tree and, in increasing order, every
    /// identity of the previous generation that was not carried over, with its name.
    pub fn finish(self) -> (r: (LanguageServerTree, Vec<(LanguageServerId, String)>))
        requires
            self.wf(),
        ensures
            r.0 == self.spec_new(),
            r.1@ == self.shutdown_set(),
            ids_sorted(r.1@),
    {
        let ghost pred = |p: (LanguageServerId, String)| !self.spec_rebased().contains(p.0);
        let ServerTreeRebase { old_contents: _, new_tree, all_server_ids, rebased_server_ids } = self;
        let ghost all = all_server_ids@;
        let mut out: Vec<(LanguageServerId, String)> = Vec::new();
        let mut rest = all_server_ids;
        let mut j: usize = 0;
        let total = rest.len();
        proof {
            assert(all.take(0) =~= Seq::<(LanguageServerId, String)>::empty());
            reveal(Seq::filter);
        }
        while rest.len() > 0
            invariant
                j <= all.len(),
                all.len() == total,
                rest@ == all.subrange(j as int, all.len() as int),
                pred == (|p: (LanguageServerId, String)| !rebased_server_ids@.contains(p.0)),
                out@ == all.take(j as int).filter(pred),
                ids_sorted(all),
                forall|k: int| 0 <= k < out@.len() ==> exists|a: int| 0 <= a < j && (#[trigger] out@[k]) == #[trigger] all[a],
                forall|k: int| 0 <= k < out@.len() ==> (#[trigger] out@[k]).0.0 < (if j < all.len() { all[j as int].0.0 as int } else { u64::MAX as int + 1 }),
                ids_sorted(out@),
            decreases rest@.len(),
        {
            let e = rest.remove(0);
            proof {
                assert(e == all[j as int]);
                assert(all.take(j as int + 1) =~= all.take(j as int).push(e));
                all.take(j as int).lemma_filter_push(e, pred);
            }
            let carried = crate::tree::contains_id(&rebased_server_ids, e.0);
            if !carried {
                out.push(e);
            }
            proof {
                assert forall|k: int| 0 <= k < out@.len() implies exists|a: int| 0 <= a < j + 1 && (#[trigger] out@[k]) == #[trigger] all[a] by {
                    if k == out@.len() - 1 && !carried {
                        assert(out@[k] == all[j as int]);
                    } else {
                        let a = choose|a: int| 0 <= a < j && (#[trigger] out@[k]) == #[trigger] all[a];
                    }
                }
                assert forall|k: int| 0 <= k < out@.len() implies (#[trigger] out@[k]).0.0 < (if j + 1 < all.len() { all[j + 1].0.0 as int } else { u64::MAX as int + 1 }) by {
                    if j + 1 < all.len() {
                        assert(all[j as int].0.0 < all[j + 1].0.0);
                    }
                }
            }
            j += 1;
        }
        proof {
            assert(all.take(all.len() as int) =~= all);
        }
        (new_tree, out)
    }
}

impl LanguageServerTree {
    /// Starts a rebase: the tree becomes the previous generation of a session whose
    /// new tree is empty and one generation on.
    pub fn rebase(self) -> (r: ServerTreeRebase)
        requires
            self.wf(),
            self.spec_generation() < u64::MAX,
        ensures
            r.wf(),
            r.spec_old() == self,
            r.spec_new().spec_slots().len() == 0,
            r.spec_new().spec_entries().len() == 0,
            r.spec_new().spec_generation() == self.spec_generation() + 1,
            r.spec_rebased().len() == 0,
    {
        ServerTreeRebase::new(self)
    }
}

/// Whether node `i` of `b` already had an identity before a lookup.
pub open spec fn had_id(b: LanguageServerTree, i: int) -> bool {
    i < b.spec_slots().len() && b.spec_slots()[i].node.id.is_some()
}

/// What a lookup of candidate `c` during a rebase handed back as `h`, seen in the
/// session `after` that it left, from the session `before`: `h` reaches the node at
/// `c`'s key, the one stored there before or a fresh one; an identity it had stays,
/// and otherwise it holds the carried identity, which is then recorded as carried.
pub open spec fn rebase_result(
    before: ServerTreeRebase,
    after: ServerTreeRebase,
    c: AdapterCandidate,
    roots: Seq<ManifestRoot>,
    wt: WorktreeId,
    h: LanguageServerTreeNode,
) -> bool {
    let b = before.spec_new();
    let a = after.spec_new();
    let n = a.spec_slots()[h.index as int].node;
    &&& h.generation == b.spec_generation()
    &&& a.resolves(h)
    &&& a.stores_candidate(c, roots, wt, h.index as int)
    &&& a.serves_candidate(c, roots, wt)
    &&& b.has_candidate(c, roots, wt) ==> b.stores_candidate(c, roots, wt, h.index as int)
    &&& !b.has_candidate(c, roots, wt) ==> h.index >= b.spec_slots().len() && fresh_fields(n, c, roots, wt)
    &&& had_id(b, h.index as int) ==> n.id == b.spec_slots()[h.index as int].node.id
    &&& !had_id(b, h.index as int) ==> n.id == carried_id(before.spec_old(), n)
    &&& !had_id(b, h.index as int) && n.id.is_some() ==> after.spec_rebased().contains(n.id.unwrap())
}

/// The fields of a node made for candidate `c`, its identity aside.
pub open spec fn fresh_fields(n: InnerTreeNode, c: AdapterCandidate, roots: Seq<ManifestRoot>, wt: WorktreeId) -> bool {
    &&& n.name@ == c.adapter.name@
    &&& n.settings == c.settings
    &&& n.path.worktree_id == crate::tree::detected_root(c, roots, wt).0
    &&& n.path.path@ == crate::tree::detected_root(c, roots, wt).1
}

/// The tree `a` is `m` with some empty identity slots, each one a handle of `hs`
/// points at, filled by carried identities.
pub open spec fn filled_from(a: LanguageServerTree, m: LanguageServerTree, old: LanguageServerTree, hs: Seq<LanguageServerTreeNode>) -> bool {
    &&& a.spec_generation() == m.spec_generation()
    &&& a.spec_entries() == m.spec_entries()
    &&& a.spec_slots().len() == m.spec_slots().len()
    &&& forall|i: int| 0 <= i < m.spec_slots().len() ==> {
        let x = #[trigger] a.spec_slots()[i];
        let y = m.spec_slots()[i];
        &&& x.live == y.live
        &&& same_but_id(x.node, y.node)
        &&& y.node.id.is_some() ==> x.node.id == y.node.id
        &&& y.node.id.is_none() ==> x.node.id.is_none() || x.node.id == carried_id(old, y.node)
        &&& y.node.id.is_none() && x.node.id.is_some() ==> handed_out(hs, i)
    }
}

impl ServerTreeRebase {
    fn new(tree: LanguageServerTree) -> (r: Self)
        requires
            tree.wf(),
            tree.spec_generation() < u64::MAX,
        ensures
            r.wf(),
            r.spec_old() == tree,
            r.spec_new().spec_slots().len() == 0,
            r.spec_new().spec_entries().len() == 0,
            r.spec_new().spec_generation() == tree.spec_generation() + 1,
            r.spec_rebased().len() == 0,
    {
        let new_tree = tree.next_generation();
        let all_server_ids = server_ids_of(&tree);
        ServerTreeRebase { old_contents: tree, new_tree, all_server_ids, rebased_server_ids: Vec::new() }
    }

    /// Looks the candidates up in the new tree, as `LanguageServerTree::get_with_adapters`
    /// does; each node reached that has no identity yet takes the identity of the node
    /// at the same key in the previous generation, where the two configurations are equal.
    pub fn get_with_adapters(
        &mut self,
        path: &ProjectPath,
        adapters: &Vec<AdapterCandidate>,
        roots: &Vec<ManifestRoot>,
    ) -> (r: Vec<LanguageServerTreeNode>)
        requires
            old(self).wf(),
            distinct_names(adapters@),
        ensures
            final(self).wf(),
            final(self).spec_old() == old(self).spec_old(),
            final(self).spec_all() == old(self).spec_all(),
            final(self).spec_new().identities_kept(&old(self).spec_new()),
            r@.len() == adapters@.len(),
            forall|k: int| 0 <= k < r@.len() ==>
                rebase_result(*old(self), *final(self), adapters@[k], roots@, path.worktree_id, #[trigger] r@[k]),
            forall|x: LanguageServerId| #[trigger] final(self).spec_rebased().contains(x) ==>
                old(self).spec_rebased().contains(x) || exists|k: int| 0 <= k < r@.len()
                    && !had_id(old(self).spec_new(), (#[trigger] r@[k]).index as int)
                    && final(self).spec_new().spec_slots()[r@[k].index as int].node.id == Some(x),
            forall|x: LanguageServerId| #[trigger] old(self).spec_rebased().contains(x) ==> final(self).spec_rebased().contains(x),
            exists|m: LanguageServerTree| lookup_frame(old(self).spec_new(), m, adapters@, roots@, path.worktree_id, r@)
                && #[trigger] filled_from(final(self).spec_new(), m, old(self).spec_old(), r@),
            r@.len() == 0 ==> final(self).spec_new().spec_entries() == old(self).spec_new().spec_entries()
                && final(self).spec_new().spec_slots() == old(self).spec_new().spec_slots()
                && final(self).spec_rebased() == old(self).spec_rebased(),
    {
        let ghost b = self.new_tree;
        let handles = self.new_tree.get_with_adapters(path, adapters, roots);
        let ghost m = self.new_tree;
        let ghost before_rebased = self.rebased_server_ids@;
        let ghost wt = path.worktree_id;
        proof {
            assert forall|x: LanguageServerId| #[trigger] self.rebased_server_ids@.contains(x) implies has_id(self.all_server_ids@, x) by {
                assert(old(self).spec_rebased().contains(x));
            }
            assert(filled_from(m, m, self.old_contents, handles@));
        }
        let mut k: usize = 0;
        while k < handles.len()
            invariant
                k <= handles@.len(),
                handles@.len() == adapters@.len(),
                wt == path.worktree_id,
                b.wf(),
                m.wf(),
                m.extends(&b),
                m.spec_generation() == self.old_contents.spec_generation() + 1,
                self.old_contents == old(self).spec_old(),
                self.all_server_ids@ == old(self).spec_all(),
                b == old(self).spec_new(),
                before_rebased == old(self).spec_rebased(),
                self.old_contents.wf(),
                universe_of(self.old_contents, self.all_server_ids@),
                forall|x: LanguageServerId| #[trigger] self.rebased_server_ids@.contains(x) ==> has_id(self.all_server_ids@, x),
                forall|j: int| 0 <= j < handles@.len() ==> lookup_result(b, m, adapters@[j], roots@, wt, #[trigger] handles@[j]),
                filled_from(self.new_tree, m, self.old_contents, handles@),
                forall|x: LanguageServerId| #[trigger] before_rebased.contains(x) ==> self.rebased_server_ids@.contains(x),
                lookup_frame(b, m, adapters@, roots@, wt, handles@),
                k == 0 ==> self.new_tree == m && self.rebased_server_ids@ == before_rebased,
                forall|ii: int| 0 <= ii < m.spec_slots().len() && m.spec_slots()[ii].node.id.is_none()
                    && (#[trigger] self.new_tree.spec_slots()[ii]).node.id.is_some()
                    ==> self.rebased_server_ids@.contains(self.new_tree.spec_slots()[ii].node.id.unwrap()),
                forall|j: int| 0 <= j < k && (#[trigger] handles@[j]).index < m.spec_slots().len()
                    && m.spec_slots()[handles@[j].index as int].node.id.is_none() ==> {
                    let n = self.new_tree.spec_slots()[handles@[j].index as int].node;
                    &&& n.id == carried_id(self.old_contents, m.spec_slots()[handles@[j].index as int].node)
                    &&& n.id.is_some() ==> self.rebased_server_ids@.contains(n.id.unwrap())
                },
                forall|x: LanguageServerId| #[trigger] self.rebased_server_ids@.contains(x) ==>
                    before_rebased.contains(x) || exists|j: int| 0 <= j < k
                        && m.spec_slots()[(#[trigger] handles@[j]).index as int].node.id.is_none()
                        && self.new_tree.spec_slots()[handles@[j].index as int].node.id == Some(x),
            decreases handles@.len() - k,
        {
            let h = handles[k];
            let i = h.index;
            proof {
                assert(lookup_result(b, m, adapters@[k as int], roots@, wt, handles@[k as int]));
            }
            let ghost cur = self.new_tree;
            let ghost cur_rebased = self.rebased_server_ids@;
            if self.new_tree.node(i).id.is_none() {
                let found = {
                    let n = self.new_tree.node(i);
                    self.old_contents.find_node(n.path.worktree_id, &n.path.path, &n.name)
                };
                match found {
                    Some(oi) => {
                        let same = self.old_contents.node(oi).settings.same_as(&self.new_tree.node(i).settings);
                        let old_id = self.old_contents.node(oi).id;
                        proof {
                            let n = self.new_tree.spec_slots()[i as int].node;
                            lemma_stored_is_chosen(self.old_contents, n.path.worktree_id, n.path.path@, n.name@, oi as int);
                            assert(same_but_id(n, m.spec_slots()[i as int].node));
                            assert(carried_id(self.old_contents, m.spec_slots()[i as int].node) == if same { old_id } else { None });
                        }
                        if same {
                            match old_id {
                                Some(x) => {
                                    proof {
                                        // the old node is stored, so its identity is listed
                                        let j = choose|j: int| 0 <= j < self.old_contents.spec_entries().len()
                                            && key_is((#[trigger] self.old_contents.spec_entries()[j]).key,
                                                self.new_tree.spec_slots()[i as int].node.path.worktree_id,
                                                self.new_tree.spec_slots()[i as int].node.path.path@,
                                                self.new_tree.spec_slots()[i as int].node.name@);
                                        assert(self.old_contents.spec_entries()[j].node < self.old_contents.spec_slots().len());
                                    }
                                    self.rebased_server_ids.push(x);
                                    self.new_tree.assign_id(i, x);
                                    assert(self.rebased_server_ids@[self.rebased_server_ids@.len() - 1] == x);
                                },
                                None => {},
                            }
                        }
                    },
                    None => {
                        proof {
                            assert(same_but_id(self.new_tree.spec_slots()[i as int].node, m.spec_slots()[i as int].node));
                            assert(carried_id(self.old_contents, m.spec_slots()[i as int].node).is_none());
                        }
                    },
                }
                assert(self.new_tree.spec_slots()[i as int].node.id == carried_id(self.old_contents, m.spec_slots()[i as int].node));
            }
            proof {
                let a = self.new_tree;
                assert(self.rebased_server_ids@ == cur_rebased || self.rebased_server_ids@ == cur_rebased.push(
                    a.spec_slots()[i as int].node.id.unwrap()));
                assert forall|y: LanguageServerId| cur_rebased.contains(y) implies #[trigger] self.rebased_server_ids@.contains(y) by {
                    let w = choose|w: int| 0 <= w < cur_rebased.len() && cur_rebased[w] == y;
                    assert(self.rebased_server_ids@[w] == y);
                }
                assert forall|ii: int| 0 <= ii < m.spec_slots().len() && m.spec_slots()[ii].node.id.is_none()
                    && (#[trigger] a.spec_slots()[ii]).node.id.is_some()
                    implies self.rebased_server_ids@.contains(a.spec_slots()[ii].node.id.unwrap()) by {
                    assert(cur.spec_slots()[ii] == cur.spec_slots()[ii]);
                    if cur.spec_slots()[ii].node.id.is_some() {
                        assert(cur_rebased.contains(cur.spec_slots()[ii].node.id.unwrap()));
                    }
                }
                assert forall|ii: int| 0 <= ii < m.spec_slots().len() implies {
                    let x = #[trigger] a.spec_slots()[ii];
                    let y = m.spec_slots()[ii];
                    &&& x.live == y.live
                    &&& same_but_id(x.node, y.node)
                    &&& y.node.id.is_some() ==> x.node.id == y.node.id
                    &&& y.node.id.is_none() ==> x.node.id.is_none() || x.node.id == carried_id(self.old_contents, y.node)
                    &&& y.node.id.is_none() && x.node.id.is_some() ==> handed_out(handles@, ii)
                } by {
                    assert(cur.spec_slots()[ii] == cur.spec_slots()[ii]);
                    if ii == i {
                        assert(handles@[k as int].index == i);
                    }
                }
                assert forall|x: LanguageServerId| #[trigger] before_rebased.contains(x) implies self.rebased_server_ids@.contains(x) by {
                    assert(cur_rebased.contains(x));
                }
                assert forall|x: LanguageServerId| #[trigger] self.rebased_server_ids@.contains(x) implies has_id(self.all_server_ids@, x) by {
                    if !cur_rebased.contains(x) {
                        assert(self.rebased_server_ids@ == cur_rebased.push(x) || self.rebased_server_ids@ == cur_rebased);
                    }
                }
                assert forall|j: int| 0 <= j < k + 1 && (#[trigger] handles@[j]).index < m.spec_slots().len()
                    && m.spec_slots()[handles@[j].index as int].node.id.is_none() implies {
                    let n = self.new_tree.spec_slots()[handles@[j].index as int].node;
                    &&& n.id == carried_id(self.old_contents, m.spec_slots()[handles@[j].index as int].node)
                    &&& n.id.is_some() ==> self.rebased_server_ids@.contains(n.id.unwrap())
                } by {
                    assert(cur.spec_slots()[handles@[j].index as int] == cur.spec_slots()[handles@[j].index as int]);
                }
                assert forall|x: LanguageServerId| #[trigger] self.rebased_server_ids@.contains(x) implies
                    before_rebased.contains(x) || exists|j: int| 0 <= j < k + 1
                        && m.spec_slots()[(#[trigger] handles@[j]).index as int].node.id.is_none()
                        && self.new_tree.spec_slots()[handles@[j].index as int].node.id == Some(x) by {
                    if cur_rebased.contains(x) {
                        if !before_rebased.contains(x) {
                            let j = choose|j: int| 0 <= j < k
                                && m.spec_slots()[(#[trigger] handles@[j]).index as int].node.id.is_none()
                                && cur.spec_slots()[handles@[j].index as int].node.id == Some(x);
                            assert(cur.spec_slots()[handles@[j].index as int] == cur.spec_slots()[handles@[j].index as int]);
                        }
                    } else {
                        assert(handles@[k as int].index == i);
                    }
                }
            }
            k += 1;
        }
        proof {
            let a = self.new_tree;
            assert forall|j: int| 0 <= j < handles@.len() implies
                rebase_result(*old(self), *self, adapters@[j], roots@, path.worktree_id, #[trigger] handles@[j]) by {
                let h = handles@[j];
                assert(lookup_result(b, m, adapters@[j], roots@, wt, h));
                assert(a.spec_slots()[h.index as int] == a.spec_slots()[h.index as int]);
                assert(had_id(b, h.index as int) == m.spec_slots()[h.index as int].node.id.is_some()) by {
                    if h.index < b.spec_slots().len() {
                        assert(m.spec_slots()[h.index as int] == b.spec_slots()[h.index as int]);
                    }
                }
            }
            assert forall|hh: LanguageServerTreeNode| (#[trigger] b.server_id_of(hh)).is_some() implies
                a.server_id_of(hh) == b.server_id_of(hh) by {
                assert(m.spec_slots()[hh.index as int] == b.spec_slots()[hh.index as int]);
                assert(a.spec_slots()[hh.index as int] == a.spec_slots()[hh.index as int]);
            }
            assert forall|x: LanguageServerId| #[trigger] self.spec_rebased().contains(x) implies
                old(self).spec_rebased().contains(x) || exists|j: int| 0 <= j < handles@.len()
                    && !had_id(old(self).spec_new(), (#[trigger] handles@[j]).index as int)
                    && self.spec_new().spec_slots()[handles@[j].index as int].node.id == Some(x) by {
                if !before_rebased.contains(x) {
                    let j = choose|j: int| 0 <= j < k
                        && m.spec_slots()[(#[trigger] handles@[j]).index as int].node.id.is_none()
                        && a.spec_slots()[handles@[j].index as int].node.id == Some(x);
                    let h = handles@[j];
                    assert(lookup_result(b, m, adapters@[j], roots@, wt, h));
                    if h.index < b.spec_slots().len() {
                        assert(m.spec_slots()[h.index as int] == b.spec_slots()[h.index as int]);
                    }
                }
            }
        }
        proof {
            assert(lookup_frame(b, m, adapters@, roots@, wt, handles@) && filled_from(self.new_tree, m, self.old_contents, handles@));
            if handles@.len() == 0 {
                lemma_empty_lookup_unchanged(b, m, adapters@, roots@, wt, handles@);
            }
        }
        handles
    }
}

impl ServerTreeRebase {
    /// The handles for `path` under `query` in the new tree, as `LanguageServerTree::get`
    /// gives them, with identities carried over from the previous generation.
    pub fn get(
        &mut self,
        path: &ProjectPath,
        query: &AdapterQuery,
        registry: &AdapterRegistrySnapshot,
        roots: &Vec<ManifestRoot>,
    ) -> (r: Vec<LanguageServerTreeNode>)
        requires
            old(self).wf(),
        ensures
            final(self).wf(),
            final(self).spec_old() == old(self).spec_old(),
            final(self).spec_all() == old(self).spec_all(),
            final(self).spec_new().identities_kept(&old(self).spec_new()),
            exists|cs: Seq<AdapterCandidate>| #[trigger] query_candidates(cs, *query, *registry) && cs.len() == r@.len()
                && (exists|m: LanguageServerTree| lookup_frame(old(self).spec_new(), m, cs, roots@, path.worktree_id, r@)
                    && #[trigger] filled_from(final(self).spec_new(), m, old(self).spec_old(), r@))
                && forall|k: int| 0 <= k < r@.len() ==>
                    rebase_result(*old(self), *final(self), cs[k], roots@, path.worktree_id, #[trigger] r@[k]),
            forall|x: LanguageServerId| #[trigger] old(self).spec_rebased().contains(x) ==> final(self).spec_rebased().contains(x),
            r@.len() == 0 ==> final(self).spec_new().spec_entries() == old(self).spec_new().spec_entries()
                && final(self).spec_new().spec_slots() == old(self).spec_new().spec_slots()
                && final(self).spec_rebased() == old(self).spec_rebased(),
            forall|x: LanguageServerId| #[trigger] final(self).spec_rebased().contains(x) ==>
                old(self).spec_rebased().contains(x) || exists|k: int| 0 <= k < r@.len()
                    && !had_id(old(self).spec_new(), (#[trigger] r@[k]).index as int)
                    && final(self).spec_new().spec_slots()[r@[k].index as int].node.id == Some(x),
            query matches AdapterQuery::Language(_) && !registry.language_settings.enable_language_server ==> r@.len() == 0,
    {
        let cs = candidates_for(query, registry);
        let r = self.get_with_adapters(path, &cs, roots);
        assert(query_candidates(cs@, *query, *registry));
        r
    }
}

} // verus!
