//! The resolution tree: one node per (workspace root, detected root, server name),
//! kept in an arena and reached by handles that expire cleanly.
use vstd::prelude::*;

use crate::adapters::{candidates_for, query_candidates, AdapterQuery, AdapterRegistrySnapshot};
use crate::types::{AdapterCandidate, LanguageServerId, LspSettings, ManifestRoot, ProjectPath, WorktreeId};

verus! {

/// A language server that has been started for a location, or is about to be.
#[derive(Debug)]
pub struct InnerTreeNode {
    pub id: Option<LanguageServerId>,
    pub name: String,
    pub path: ProjectPath,
    pub settings: LspSettings,
}

/// Where a node sits: workspace root, detected root inside it, server name.
#[derive(Debug)]
pub struct NodeKey {
    pub worktree_id: WorktreeId,
    pub root: String,
    pub name: String,
}

impl Clone for NodeKey {
    fn clone(&self) -> (r: Self)
        ensures
            r == *self,
    {
        NodeKey { worktree_id: self.worktree_id, root: self.root.clone(), name: self.name.clone() }
    }
}

pub open spec fn same_key(a: NodeKey, b: NodeKey) -> bool {
    a.worktree_id == b.worktree_id && a.root@ == b.root@ && a.name@ == b.name@
}

pub open spec fn key_is(k: NodeKey, wt: WorktreeId, root: Seq<char>, name: Seq<char>) -> bool {
    k.worktree_id == wt && k.root@ == root && k.name@ == name
}

/// The set of names held by a list of strings.
pub open spec fn name_set(v: Seq<String>) -> Set<Seq<char>> {
    Set::new(|s: Seq<char>| exists|i: int| 0 <= i < v.len() && #[trigger] v[i]@ == s)
}

/// A key of the tree, the node stored there and the languages it serves.
#[derive(Debug)]
pub struct TreeEntry {
    pub key: NodeKey,
    pub node: usize,
    pub languages: Vec<String>,
}

/// An arena cell; `live` turns false when the node is pruned.
#[derive(Debug)]
pub struct NodeSlot {
    pub node: InnerTreeNode,
    pub live: bool,
}

/// A non-owning reference to a node: the generation it was made in and the node's
/// place in that generation's arena. It expires when the node is pruned or the tree
/// is rebased.
#[derive(Clone, Copy, Debug, PartialEq, Eq, Structural)]
pub struct LanguageServerTreeNode {
    pub generation: u64,
    pub index: usize,
}

/// What an initializer learns of the node it starts a server for.
#[derive(Debug)]
pub struct LaunchDisposition {
    pub server_name: String,
    pub path: ProjectPath,
    pub settings: LspSettings,
}

pub open spec fn disposition_of(n: InnerTreeNode) -> LaunchDisposition {
    LaunchDisposition { server_name: n.name, path: n.path, settings: n.settings }
}

impl LaunchDisposition {
    pub fn from_node(node: &InnerTreeNode) -> (r: Self)
        ensures
            r == disposition_of(*node),
    {
        LaunchDisposition {
            server_name: node.name.clone(),
            path: node.path.clone(),
            settings: node.settings.clone(),
        }
    }
}

/// The mapping from keys to nodes for one generation.
#[derive(Debug)]
pub struct LanguageServerTree {
    slots: Vec<NodeSlot>,
    entries: Vec<TreeEntry>,
    generation: u64,
}

/// The detected root for a manifest kind: the first root reported for that kind, from
/// position `i` on.
pub open spec fn root_index_from(m: Seq<char>, roots: Seq<ManifestRoot>, i: int) -> Option<int>
    decreases roots.len() - i,
{
    if i < 0 || i >= roots.len() {
        None
    } else if roots[i].manifest_name@ == m {
        Some(i)
    } else {
        root_index_from(m, roots, i + 1)
    }
}

/// Where a candidate is rooted: the detected root of its manifest kind, or else the
/// workspace root of the looked-up path.
pub open spec fn detected_root(c: AdapterCandidate, roots: Seq<ManifestRoot>, wt: WorktreeId) -> (WorktreeId, Seq<char>) {
    match c.adapter.manifest_name {
        Some(m) => match root_index_from(m@, roots, 0) {
            Some(i) => (roots[i].root.worktree_id, roots[i].root.path@),
            None => (wt, Seq::<char>::empty()),
        },
        None => (wt, Seq::<char>::empty()),
    }
}

/// The key at which a candidate's node lives.
pub open spec fn candidate_key_is(k: NodeKey, c: AdapterCandidate, roots: Seq<ManifestRoot>, wt: WorktreeId) -> bool {
    k.worktree_id == detected_root(c, roots, wt).0 && k.root@ == detected_root(c, roots, wt).1
        && k.name@ == c.adapter.name@
}

/// Adapter names in a candidate list are pairwise distinct.
pub open spec fn distinct_names(cs: Seq<AdapterCandidate>) -> bool {
    forall|a: int, b: int| 0 <= a < cs.len() && 0 <= b < cs.len() && a != b ==> cs[a].adapter.name@ != cs[b].adapter.name@
}

impl LanguageServerTree {
    pub closed spec fn spec_slots(&self) -> Seq<NodeSlot> {
        self.slots@
    }

    pub closed spec fn spec_entries(&self) -> Seq<TreeEntry> {
        self.entries@
    }

    pub closed spec fn spec_generation(&self) -> u64 {
        self.generation
    }

    /// Every entry points at a live node of its key's name, and no two entries share a key.
    pub open spec fn wf(&self) -> bool {
        &&& forall|j: int| 0 <= j < self.spec_entries().len() ==>
            (#[trigger] self.spec_entries()[j]).node < self.spec_slots().len()
            && self.spec_slots()[self.spec_entries()[j].node as int].live
            && self.spec_slots()[self.spec_entries()[j].node as int].node.name@ == self.spec_entries()[j].key.name@
        &&& forall|j: int, k: int| 0 <= j < self.spec_entries().len() && 0 <= k < self.spec_entries().len() && j != k
            ==> !same_key(#[trigger] self.spec_entries()[j].key, #[trigger] self.spec_entries()[k].key)
    }

    /// The node that a handle reaches, if it has not expired.
    pub open spec fn resolves(&self, h: LanguageServerTreeNode) -> bool {
        h.generation == self.spec_generation() && h.index < self.spec_slots().len()
            && self.spec_slots()[h.index as int].live
    }

    pub open spec fn server_id_of(&self, h: LanguageServerTreeNode) -> Option<LanguageServerId> {
        if self.resolves(h) {
            self.spec_slots()[h.index as int].node.id
        } else {
            None
        }
    }

    /// Some entry of the tree stores node `i` under the key (`wt`, `root`, `name`).
    pub open spec fn stores_at(&self, wt: WorktreeId, root: Seq<char>, name: Seq<char>, i: int) -> bool {
        exists|j: int| 0 <= j < self.spec_entries().len() && key_is((#[trigger] self.spec_entries()[j]).key, wt, root, name)
            && self.spec_entries()[j].node == i
    }

    /// Some entry of the tree has the key (`wt`, `root`, `name`).
    pub open spec fn has_at(&self, wt: WorktreeId, root: Seq<char>, name: Seq<char>) -> bool {
        exists|j: int| 0 <= j < self.spec_entries().len() && key_is((#[trigger] self.spec_entries()[j]).key, wt, root, name)
    }

    /// `self` is `old` with nodes and entries only added: every node, every key and
    /// every live flag of `old` is kept, and languages only grow.
    pub open spec fn extends(&self, old: &LanguageServerTree) -> bool {
        &&& self.spec_generation() == old.spec_generation()
        &&& self.spec_slots().len() >= old.spec_slots().len()
        &&& forall|i: int| 0 <= i < old.spec_slots().len() ==> #[trigger] self.spec_slots()[i] == old.spec_slots()[i]
        &&& self.spec_entries().len() >= old.spec_entries().len()
        &&& forall|j: int| 0 <= j < old.spec_entries().len() ==> {
            &&& (#[trigger] self.spec_entries()[j]).key == old.spec_entries()[j].key
            &&& self.spec_entries()[j].node == old.spec_entries()[j].node
            &&& name_set(old.spec_entries()[j].languages@).subset_of(name_set(self.spec_entries()[j].languages@))
        }
    }

    /// Every identity that a handle reached in `old` is reached by it in `self`.
    pub open spec fn identities_kept(&self, old: &LanguageServerTree) -> bool {
        forall|h: LanguageServerTreeNode| (#[trigger] old.server_id_of(h)).is_some() ==> self.server_id_of(h) == old.server_id_of(h)
    }

    pub fn new() -> (r: Self)
        ensures
            r.wf(),
            r.spec_slots().len() == 0,
            r.spec_entries().len() == 0,
            r.spec_generation() == 0,
    {
        LanguageServerTree { slots: Vec::new(), entries: Vec::new(), generation: 0 }
    }

    /// Position of the entry with key `k`, if any.
    fn find_entry(&self, k: &NodeKey) -> (r: Option<usize>)
        ensures
            match r {
                Some(j) => j < self.spec_entries().len() && same_key(self.spec_entries()[j as int].key, *k),
                None => !self.has_at(k.worktree_id, k.root@, k.name@),
            },
    {
        let mut j: usize = 0;
        while j < self.entries.len()
            invariant
                j <= self.entries@.len(),
                forall|i: int| 0 <= i < j ==> !key_is(#[trigger] self.entries@[i].key, k.worktree_id, k.root@, k.name@),
            decreases self.entries@.len() - j,
        {
            let e = &self.entries[j];
            if e.key.worktree_id == k.worktree_id && e.key.root == k.root && e.key.name == k.name {
                return Some(j);
            }
            j += 1;
        }
        None
    }
}

/// A node freshly made for candidate `c`: no identity yet, the candidate's name and
/// settings, rooted where the candidate is rooted.
pub open spec fn fresh_node_for(n: NodeSlot, c: AdapterCandidate, roots: Seq<ManifestRoot>, wt: WorktreeId) -> bool {
    &&& n.live
    &&& n.node.id.is_none()
    &&& n.node.name@ == c.adapter.name@
    &&& n.node.settings == c.settings
    &&& n.node.path.worktree_id == detected_root(c, roots, wt).0
    &&& n.node.path.path@ == detected_root(c, roots, wt).1
}

impl LanguageServerTree {
    /// Some entry holds candidate `c`'s key.
    pub open spec fn has_candidate(&self, c: AdapterCandidate, roots: Seq<ManifestRoot>, wt: WorktreeId) -> bool {
        exists|j: int| 0 <= j < self.spec_entries().len() && candidate_key_is((#[trigger] self.spec_entries()[j]).key, c, roots, wt)
    }

    /// The entry at candidate `c`'s key stores node `i`.
    pub open spec fn stores_candidate(&self, c: AdapterCandidate, roots: Seq<ManifestRoot>, wt: WorktreeId, i: int) -> bool {
        exists|j: int| 0 <= j < self.spec_entries().len() && candidate_key_is((#[trigger] self.spec_entries()[j]).key, c, roots, wt)
            && self.spec_entries()[j].node == i
    }

    /// The entry at candidate `c`'s key serves all of `c`'s languages.
    pub open spec fn serves_candidate(&self, c: AdapterCandidate, roots: Seq<ManifestRoot>, wt: WorktreeId) -> bool {
        exists|j: int| 0 <= j < self.spec_entries().len() && candidate_key_is((#[trigger] self.spec_entries()[j]).key, c, roots, wt)
            && name_set(c.languages@).subset_of(name_set(self.spec_entries()[j].languages@))
    }

    /// The node for candidate `c`: the one stored under its key, or a new one made
    /// with its settings. `c`'s languages are added to the entry.
    fn node_for(&mut self, c: &AdapterCandidate, roots: &Vec<ManifestRoot>, wt: WorktreeId) -> (r: usize)
        requires
            old(self).wf(),
        ensures
            final(self).wf(),
            final(self).extends(old(self)),
            final(self).resolves(LanguageServerTreeNode { generation: old(self).spec_generation(), index: r }),
            final(self).stores_candidate(*c, roots@, wt, r as int),
            final(self).serves_candidate(*c, roots@, wt),
            old(self).has_candidate(*c, roots@, wt) ==> old(self).stores_candidate(*c, roots@, wt, r as int)
                && final(self).spec_slots().len() == old(self).spec_slots().len()
                && final(self).spec_entries().len() == old(self).spec_entries().len(),
            !old(self).has_candidate(*c, roots@, wt) ==> r == old(self).spec_slots().len()
                && final(self).spec_slots().len() == old(self).spec_slots().len() + 1
                && fresh_node_for(final(self).spec_slots()[r as int], *c, roots@, wt)
                && final(self).spec_entries().len() == old(self).spec_entries().len() + 1
                && candidate_key_is(final(self).spec_entries()[old(self).spec_entries().len() as int].key, *c, roots@, wt),
            forall|j: int| 0 <= j < old(self).spec_entries().len()
                && !candidate_key_is(old(self).spec_entries()[j].key, *c, roots@, wt)
                ==> #[trigger] final(self).spec_entries()[j] == old(self).spec_entries()[j],
            forall|j: int| 0 <= j < old(self).spec_entries().len()
                && candidate_key_is(old(self).spec_entries()[j].key, *c, roots@, wt)
                ==> name_set((#[trigger] final(self).spec_entries()[j]).languages@)
                    == name_set(old(self).spec_entries()[j].languages@).union(name_set(c.languages@)),
            !old(self).has_candidate(*c, roots@, wt) ==> name_set(final(self).spec_entries()[old(self).spec_entries().len() as int].languages@)
                == name_set(c.languages@),
    {
        let root = root_for(c, roots, wt);
        let key = NodeKey { worktree_id: root.worktree_id, root: root.path.clone(), name: c.adapter.name.clone() };
        match self.find_entry(&key) {
            Some(j) => {
                let mut langs = self.entries[j].languages.clone();
                assert(langs@ =~= self.entries@[j as int].languages@);
                add_languages(&mut langs, &c.languages);
                let node = self.entries[j].node;
                let e = TreeEntry { key: self.entries[j].key.clone(), node, languages: langs };
                let ghost before = self.entries@;
                self.entries.set(j, e);
                proof {
                    assert(name_set(before[j as int].languages@).subset_of(name_set(self.entries@[j as int].languages@)));
                    assert(name_set(c.languages@).subset_of(name_set(self.spec_entries()[j as int].languages@)));
                    assert(self.spec_entries()[j as int].node == node);
                    assert(old(self).spec_entries()[j as int].node == node);
                }
                node
            },
            None => {
                let node = InnerTreeNode {
                    id: None,
                    name: c.adapter.name.clone(),
                    path: root,
                    settings: c.settings.clone(),
                };
                let index = self.slots.len();
                self.slots.push(NodeSlot { node, live: true });
                let mut langs: Vec<String> = Vec::new();
                add_languages(&mut langs, &c.languages);
                assert(name_set(Seq::<String>::empty()) =~= Set::<Seq<char>>::empty());
                assert(name_set(langs@) =~= name_set(c.languages@));
                self.entries.push(TreeEntry { key, node: index, languages: langs });
                proof {
                    let n = self.entries@.len() - 1;
                    assert(candidate_key_is(self.spec_entries()[n].key, *c, roots@, wt));
                    assert(self.spec_entries()[n].node == index);
                    assert(name_set(c.languages@).subset_of(name_set(self.spec_entries()[n].languages@)));
                }
                index
            },
        }
    }
}

/// What a lookup of candidate `c` in `old` handed back as `h`, seen in the tree `new`
/// that the lookup left: `h` reaches the node stored at `c`'s key, which serves `c`'s
/// languages; it is the node that `old` stored there, or a fresh one if `old` had none.
pub open spec fn lookup_result(
    old: LanguageServerTree,
    new: LanguageServerTree,
    c: AdapterCandidate,
    roots: Seq<ManifestRoot>,
    wt: WorktreeId,
    h: LanguageServerTreeNode,
) -> bool {
    &&& h.generation == old.spec_generation()
    &&& new.resolves(h)
    &&& new.stores_candidate(c, roots, wt, h.index as int)
    &&& new.serves_candidate(c, roots, wt)
    &&& old.has_candidate(c, roots, wt) ==> old.stores_candidate(c, roots, wt, h.index as int)
    &&& !old.has_candidate(c, roots, wt) ==> h.index >= old.spec_slots().len()
        && fresh_node_for(new.spec_slots()[h.index as int], c, roots, wt)
}

pub proof fn lemma_extends_trans(a: LanguageServerTree, b: LanguageServerTree, c: LanguageServerTree)
    requires
        b.extends(&a),
        c.extends(&b),
    ensures
        c.extends(&a),
{
    assert forall|j: int| 0 <= j < a.spec_entries().len() implies
        name_set(a.spec_entries()[j].languages@).subset_of(name_set(c.spec_entries()[j].languages@)) by {
        assert(b.spec_entries()[j] == b.spec_entries()[j]);
        assert(c.spec_entries()[j] == c.spec_entries()[j]);
    }
}

proof fn lemma_lookup_result_kept(
    old: LanguageServerTree,
    cur: LanguageServerTree,
    new: LanguageServerTree,
    c: AdapterCandidate,
    roots: Seq<ManifestRoot>,
    wt: WorktreeId,
    h: LanguageServerTreeNode,
)
    requires
        lookup_result(old, cur, c, roots, wt, h),
        new.extends(&cur),
    ensures
        lookup_result(old, new, c, roots, wt, h),
{
    let j = choose|j: int| 0 <= j < cur.spec_entries().len() && candidate_key_is((#[trigger] cur.spec_entries()[j]).key, c, roots, wt)
        && cur.spec_entries()[j].node == h.index as int;
    assert(new.spec_entries()[j] == new.spec_entries()[j]);
    let j2 = choose|j: int| 0 <= j < cur.spec_entries().len() && candidate_key_is((#[trigger] cur.spec_entries()[j]).key, c, roots, wt)
        && name_set(c.languages@).subset_of(name_set(cur.spec_entries()[j].languages@));
    assert(new.spec_entries()[j2] == new.spec_entries()[j2]);
    assert(new.spec_slots()[h.index as int] == cur.spec_slots()[h.index as int]);
    assert(new.resolves(h));
    assert(new.spec_entries()[j].key == cur.spec_entries()[j].key);
    assert(new.spec_entries()[j].node == cur.spec_entries()[j].node);
    assert(candidate_key_is(new.spec_entries()[j].key, c, roots, wt));
    assert(new.stores_candidate(c, roots, wt, h.index as int));
    assert(name_set(c.languages@).subset_of(name_set(new.spec_entries()[j2].languages@)));
    assert(new.serves_candidate(c, roots, wt));
}

/// Some candidate of `cs` is keyed at `k`.
pub open spec fn some_candidate_key(k: NodeKey, cs: Seq<AdapterCandidate>, roots: Seq<ManifestRoot>, wt: WorktreeId) -> bool {
    exists|c: int| 0 <= c < cs.len() && candidate_key_is(k, #[trigger] cs[c], roots, wt)
}

/// The languages that the candidates keyed at `k` bring to it.
pub open spec fn langs_added(k: NodeKey, cs: Seq<AdapterCandidate>, roots: Seq<ManifestRoot>, wt: WorktreeId) -> Set<Seq<char>> {
    Set::new(|s: Seq<char>| exists|c: int| 0 <= c < cs.len() && candidate_key_is(k, #[trigger] cs[c], roots, wt)
        && name_set(cs[c].languages@).contains(s))
}

/// Some handle of `r` points at arena cell `i`.
pub open spec fn handed_out(r: Seq<LanguageServerTreeNode>, i: int) -> bool {
    exists|k: int| 0 <= k < r.len() && (#[trigger] r[k]).index == i
}

/// `new` is `old` after looking up `cs` and nothing else: every entry keeps its key
/// and node; an entry's languages grow by exactly those of the candidates keyed at
/// it, and an entry no candidate is keyed at is untouched; each added entry is the
/// key of a candidate that `old` did not hold, serving exactly that candidate's
/// languages; each added node is one a handle of `r` points at.
pub open spec fn lookup_frame(
    old: LanguageServerTree,
    new: LanguageServerTree,
    cs: Seq<AdapterCandidate>,
    roots: Seq<ManifestRoot>,
    wt: WorktreeId,
    r: Seq<LanguageServerTreeNode>,
) -> bool {
    &&& new.extends(&old)
    &&& forall|j: int| 0 <= j < old.spec_entries().len() ==>
        name_set((#[trigger] new.spec_entries()[j]).languages@)
            == name_set(old.spec_entries()[j].languages@).union(langs_added(old.spec_entries()[j].key, cs, roots, wt))
    &&& forall|j: int| 0 <= j < old.spec_entries().len() && !some_candidate_key(old.spec_entries()[j].key, cs, roots, wt)
        ==> #[trigger] new.spec_entries()[j] == old.spec_entries()[j]
    &&& forall|j: int| old.spec_entries().len() <= j < new.spec_entries().len() ==> {
        let k = (#[trigger] new.spec_entries()[j]).key;
        &&& some_candidate_key(k, cs, roots, wt)
        &&& !old.has_at(k.worktree_id, k.root@, k.name@)
        &&& name_set(new.spec_entries()[j].languages@) == langs_added(k, cs, roots, wt)
    }
    &&& forall|i: int| old.spec_slots().len() <= i < new.spec_slots().len() ==> #[trigger] handed_out(r, i)
}

/// A lookup with no candidate leaves the tree as it was.
pub proof fn lemma_empty_lookup_unchanged(
    old: LanguageServerTree,
    new: LanguageServerTree,
    cs: Seq<AdapterCandidate>,
    roots: Seq<ManifestRoot>,
    wt: WorktreeId,
    r: Seq<LanguageServerTreeNode>,
)
    requires
        lookup_frame(old, new, cs, roots, wt, r),
        cs.len() == 0,
        r.len() == 0,
    ensures
        new.spec_entries() == old.spec_entries(),
        new.spec_slots() == old.spec_slots(),
        new.spec_generation() == old.spec_generation(),
{
    if new.spec_entries().len() > old.spec_entries().len() {
        let j = old.spec_entries().len() as int;
        assert(some_candidate_key(new.spec_entries()[j].key, cs, roots, wt));
    }
    if new.spec_slots().len() > old.spec_slots().len() {
        assert(handed_out(r, old.spec_slots().len() as int));
    }
    assert forall|j: int| 0 <= j < old.spec_entries().len() implies new.spec_entries()[j] == old.spec_entries()[j] by {
        assert(!some_candidate_key(old.spec_entries()[j].key, cs, roots, wt));
    }
    assert(new.spec_entries() =~= old.spec_entries());
    assert forall|i: int| 0 <= i < old.spec_slots().len() implies new.spec_slots()[i] == old.spec_slots()[i] by {}
    assert(new.spec_slots() =~= old.spec_slots());
}

proof fn lemma_langs_added_step(k: NodeKey, cs: Seq<AdapterCandidate>, i: int, roots: Seq<ManifestRoot>, wt: WorktreeId)
    requires
        0 <= i < cs.len(),
    ensures
        langs_added(k, cs.take(i + 1), roots, wt) == langs_added(k, cs.take(i), roots, wt).union(
            if candidate_key_is(k, cs[i], roots, wt) { name_set(cs[i].languages@) } else { Set::empty() },
        ),
        some_candidate_key(k, cs.take(i + 1), roots, wt) == (some_candidate_key(k, cs.take(i), roots, wt)
            || candidate_key_is(k, cs[i], roots, wt)),
{
    let a = cs.take(i + 1);
    let b = cs.take(i);
    assert forall|c: int| 0 <= c < i implies #[trigger] a[c] == b[c] by {}
    assert(a[i] == cs[i]);
    assert forall|s: Seq<char>| langs_added(k, a, roots, wt).contains(s) == langs_added(k, b, roots, wt).union(
        if candidate_key_is(k, cs[i], roots, wt) { name_set(cs[i].languages@) } else { Set::empty() }).contains(s) by {
        if langs_added(k, a, roots, wt).contains(s) {
            let c = choose|c: int| 0 <= c < a.len() && candidate_key_is(k, #[trigger] a[c], roots, wt)
                && name_set(a[c].languages@).contains(s);
            if c < i {
                assert(a[c] == b[c]);
            }
        }
        if langs_added(k, b, roots, wt).contains(s) {
            let c = choose|c: int| 0 <= c < b.len() && candidate_key_is(k, #[trigger] b[c], roots, wt)
                && name_set(b[c].languages@).contains(s);
            assert(a[c] == b[c]);
        }
    }
    assert(langs_added(k, a, roots, wt) =~= langs_added(k, b, roots, wt).union(
        if candidate_key_is(k, cs[i], roots, wt) { name_set(cs[i].languages@) } else { Set::empty() }));
    if some_candidate_key(k, a, roots, wt) {
        let c = choose|c: int| 0 <= c < a.len() && candidate_key_is(k, #[trigger] a[c], roots, wt);
        if c < i {
            assert(a[c] == b[c]);
        }
    }
    if some_candidate_key(k, b, roots, wt) {
        let c = choose|c: int| 0 <= c < b.len() && candidate_key_is(k, #[trigger] b[c], roots, wt);
        assert(a[c] == b[c]);
    }
}

impl LanguageServerTree {
    /// Fetches or creates the node of each candidate, in order, and hands back one
    /// handle per candidate.
    pub fn get_with_adapters(
        &mut self,
        path: &ProjectPath,
        adapters: &Vec<AdapterCandidate>,
        roots: &Vec<ManifestRoot>,
    ) -> (r: Vec<LanguageServerTreeNode>)
        requires
            old(self).wf(),
            distinct_names(adapters@),
        ensures
            final(self).wf(),
            final(self).extends(old(self)),
            r@.len() == adapters@.len(),
            forall|k: int| 0 <= k < r@.len() ==>
                lookup_result(*old(self), *final(self), adapters@[k], roots@, path.worktree_id, #[trigger] r@[k]),
            lookup_frame(*old(self), *final(self), adapters@, roots@, path.worktree_id, r@),
    {
        let ghost start = *self;
        proof {
            assert forall|j: int| 0 <= j < start.spec_entries().len() implies
                name_set((#[trigger] self.spec_entries()[j]).languages@)
                    == name_set(start.spec_entries()[j].languages@).union(langs_added(start.spec_entries()[j].key, adapters@.take(0), roots@, path.worktree_id)) by {
                assert(langs_added(start.spec_entries()[j].key, adapters@.take(0), roots@, path.worktree_id) =~= Set::empty());
                assert(name_set(start.spec_entries()[j].languages@).union(Set::empty()) =~= name_set(start.spec_entries()[j].languages@));
            }
        }
        let wt = path.worktree_id;
        let mut res: Vec<LanguageServerTreeNode> = Vec::new();
        let mut i: usize = 0;
        while i < adapters.len()
            invariant
                i <= adapters@.len(),
                distinct_names(adapters@),
                wt == path.worktree_id,
                self.wf(),
                self.extends(&start),
                start.wf(),
                res@.len() == i,
                forall|k: int| 0 <= k < i ==> lookup_result(start, *self, adapters@[k], roots@, wt, #[trigger] res@[k]),
                forall|j: int, k: int| start.spec_entries().len() <= j < self.spec_entries().len() && i <= k < adapters@.len()
                    ==> (#[trigger] self.spec_entries()[j]).key.name@ != (#[trigger] adapters@[k]).adapter.name@,
                lookup_frame(start, *self, adapters@.take(i as int), roots@, wt, res@),
            decreases adapters@.len() - i,
        {
            let ghost cur = *self;
            let c = &adapters[i];
            let index = self.node_for(c, roots, wt);
            let h = LanguageServerTreeNode { generation: self.generation, index };
            proof {
                lemma_extends_trans(start, cur, *self);
                assert forall|k: int| 0 <= k < i implies lookup_result(start, *self, adapters@[k], roots@, wt, #[trigger] res@[k]) by {
                    lemma_lookup_result_kept(start, cur, *self, adapters@[k], roots@, wt, res@[k]);
                }
                // entries added since `start` belong to earlier candidates, whose names differ
                assert forall|j: int| start.spec_entries().len() <= j < cur.spec_entries().len() implies
                    !candidate_key_is(#[trigger] cur.spec_entries()[j].key, *c, roots@, wt) by {
                    assert(cur.spec_entries()[j].key.name@ != adapters@[i as int].adapter.name@);
                }
                if cur.has_candidate(*c, roots@, wt) {
                    let j = choose|j: int| 0 <= j < cur.spec_entries().len() && candidate_key_is((#[trigger] cur.spec_entries()[j]).key, *c, roots@, wt);
                    assert(start.spec_entries()[j] == start.spec_entries()[j]);
                    assert(start.has_candidate(*c, roots@, wt));
                    let j2 = choose|j: int| 0 <= j < cur.spec_entries().len() && candidate_key_is((#[trigger] cur.spec_entries()[j]).key, *c, roots@, wt)
                        && cur.spec_entries()[j].node == index as int;
                    assert(j2 < start.spec_entries().len());
                    assert(start.spec_entries()[j2].key == cur.spec_entries()[j2].key);
                    assert(start.spec_entries()[j2].node == cur.spec_entries()[j2].node);
                    assert(candidate_key_is(start.spec_entries()[j2].key, *c, roots@, wt));
                    assert(start.stores_candidate(*c, roots@, wt, h.index as int));
                } else {
                    if start.has_candidate(*c, roots@, wt) {
                        let j = choose|j: int| 0 <= j < start.spec_entries().len() && candidate_key_is((#[trigger] start.spec_entries()[j]).key, *c, roots@, wt);
                        assert(cur.spec_entries()[j].key == start.spec_entries()[j].key);
                        assert(candidate_key_is(cur.spec_entries()[j].key, *c, roots@, wt));
                        assert(cur.has_candidate(*c, roots@, wt));
                    }
                }
                assert(h.generation == start.spec_generation());
                assert(self.resolves(h));
                assert(start.has_candidate(*c, roots@, wt) ==> start.stores_candidate(*c, roots@, wt, h.index as int));
                assert(!start.has_candidate(*c, roots@, wt) ==> h.index >= start.spec_slots().len()
                    && fresh_node_for(self.spec_slots()[h.index as int], *c, roots@, wt));
                assert(lookup_result(start, *self, *c, roots@, wt, h));
                assert forall|j: int, k: int| start.spec_entries().len() <= j < self.spec_entries().len() && i + 1 <= k < adapters@.len()
                    implies (#[trigger] self.spec_entries()[j]).key.name@ != (#[trigger] adapters@[k]).adapter.name@ by {
                    if j < cur.spec_entries().len() {
                        assert(cur.spec_entries()[j].key.name@ != adapters@[k].adapter.name@);
                    } else {
                        assert(self.spec_entries()[j].key.name@ == adapters@[i as int].adapter.name@);
                    }
                }
            }
            let ghost prev_res = res@;
            res.push(h);
            proof {
                let cs0 = adapters@.take(i as int);
                let cs1 = adapters@.take(i as int + 1);
                let new = *self;
                assert forall|j: int| 0 <= j < start.spec_entries().len() implies
                    name_set((#[trigger] new.spec_entries()[j]).languages@)
                        == name_set(start.spec_entries()[j].languages@).union(langs_added(start.spec_entries()[j].key, cs1, roots@, wt)) by {
                    let k = start.spec_entries()[j].key;
                    lemma_langs_added_step(k, adapters@, i as int, roots@, wt);
                    assert(cur.spec_entries()[j].key == k);
                    assert(name_set(cur.spec_entries()[j].languages@)
                        == name_set(start.spec_entries()[j].languages@).union(langs_added(k, cs0, roots@, wt)));
                    if candidate_key_is(k, *c, roots@, wt) {
                        assert(name_set(new.spec_entries()[j].languages@)
                            =~= name_set(start.spec_entries()[j].languages@).union(langs_added(k, cs1, roots@, wt)));
                    } else {
                        assert(new.spec_entries()[j] == cur.spec_entries()[j]);
                        assert(name_set(new.spec_entries()[j].languages@)
                            =~= name_set(start.spec_entries()[j].languages@).union(langs_added(k, cs1, roots@, wt)));
                    }
                }
                assert forall|j: int| 0 <= j < start.spec_entries().len() && !some_candidate_key(start.spec_entries()[j].key, cs1, roots@, wt)
                    implies #[trigger] new.spec_entries()[j] == start.spec_entries()[j] by {
                    let k = start.spec_entries()[j].key;
                    lemma_langs_added_step(k, adapters@, i as int, roots@, wt);
                    assert(cur.spec_entries()[j].key == k);
                    assert(cur.spec_entries()[j] == start.spec_entries()[j]);
                }
                assert forall|j: int| start.spec_entries().len() <= j < new.spec_entries().len() implies {
                    let k = (#[trigger] new.spec_entries()[j]).key;
                    &&& some_candidate_key(k, cs1, roots@, wt)
                    &&& !start.has_at(k.worktree_id, k.root@, k.name@)
                    &&& name_set(new.spec_entries()[j].languages@) == langs_added(k, cs1, roots@, wt)
                } by {
                    let k = new.spec_entries()[j].key;
                    lemma_langs_added_step(k, adapters@, i as int, roots@, wt);
                    if j < cur.spec_entries().len() {
                        assert(cur.spec_entries()[j].key.name@ != adapters@[i as int].adapter.name@);
                        assert(new.spec_entries()[j] == cur.spec_entries()[j]);
                        assert(langs_added(k, cs1, roots@, wt) =~= langs_added(k, cs0, roots@, wt));
                    } else {
                        assert(candidate_key_is(k, *c, roots@, wt));
                        assert(!cur.has_candidate(*c, roots@, wt));
                        if start.has_at(k.worktree_id, k.root@, k.name@) {
                            let w = choose|w: int| 0 <= w < start.spec_entries().len()
                                && key_is((#[trigger] start.spec_entries()[w]).key, k.worktree_id, k.root@, k.name@);
                            assert(cur.spec_entries()[w].key == start.spec_entries()[w].key);
                            assert(candidate_key_is(cur.spec_entries()[w].key, *c, roots@, wt));
                        }
                        assert(langs_added(k, cs0, roots@, wt) =~= Set::empty()) by {
                            assert forall|cc: int| 0 <= cc < cs0.len() implies !candidate_key_is(k, #[trigger] cs0[cc], roots@, wt) by {
                                assert(cs0[cc] == adapters@[cc]);
                                assert(adapters@[cc].adapter.name@ != adapters@[i as int].adapter.name@);
                            }
                        }
                        assert(langs_added(k, cs1, roots@, wt) =~= name_set(c.languages@));
                    }
                }
                assert forall|ii: int| start.spec_slots().len() <= ii < new.spec_slots().len() implies #[trigger] handed_out(res@, ii) by {
                    if ii < cur.spec_slots().len() {
                        assert(handed_out(prev_res, ii));
                        let w = choose|w: int| 0 <= w < prev_res.len() && (#[trigger] prev_res[w]).index == ii;
                        assert(res@[w] == prev_res[w]);
                    } else {
                        assert(res@[i as int].index == ii);
                    }
                }
                assert(lookup_frame(start, *self, cs1, roots@, wt, res@));
            }
            i += 1;
        }
        assert(adapters@.take(adapters@.len() as int) =~= adapters@);
        res
    }
}

/// Adds to `langs` each name of `more` that it does not hold yet.
fn add_languages(langs: &mut Vec<String>, more: &Vec<String>)
    ensures
        name_set(final(langs)@) == name_set(old(langs)@).union(name_set(more@)),
        final(langs)@.len() >= old(langs)@.len(),
        forall|i: int| 0 <= i < old(langs)@.len() ==> #[trigger] final(langs)@[i] == old(langs)@[i],
{
    let ghost start = langs@;
    let mut i: usize = 0;
    while i < more.len()
        invariant
            i <= more@.len(),
            name_set(langs@) == name_set(start).union(name_set(more@.take(i as int))),
            langs@.len() >= start.len(),
            forall|k: int| 0 <= k < start.len() ==> #[trigger] langs@[k] == start[k],
        decreases more@.len() - i,
    {
        let l = &more[i];
        let mut found = false;
        let mut k: usize = 0;
        while k < langs.len()
            invariant
                k <= langs@.len(),
                found ==> name_set(langs@).contains(l@),
            decreases langs@.len() - k,
        {
            if langs[k] == *l {
                found = true;
                assert(langs@[k as int]@ == l@);
            }
            k += 1;
        }
        let ghost before = langs@;
        if !found {
            langs.push(l.clone());
            assert(langs@[before.len() as int]@ == l@);
        }
        proof {
            assert(more@.take(i as int + 1) == more@.take(i as int).push(*l));
            assert forall|s: Seq<char>| name_set(langs@).contains(s) == (name_set(before).contains(s) || s == l@) by {
                if name_set(langs@).contains(s) {
                    let w = choose|w: int| 0 <= w < langs@.len() && #[trigger] langs@[w]@ == s;
                    if w < before.len() {
                        assert(before[w]@ == s);
                    }
                }
                if name_set(before).contains(s) {
                    let w = choose|w: int| 0 <= w < before.len() && #[trigger] before[w]@ == s;
                    assert(langs@[w]@ == s);
                }
            }
            assert forall|s: Seq<char>| name_set(more@.take(i as int + 1)).contains(s) == (name_set(more@.take(i as int)).contains(s) || s == l@) by {
                let t = more@.take(i as int + 1);
                if name_set(t).contains(s) {
                    let w = choose|w: int| 0 <= w < t.len() && #[trigger] t[w]@ == s;
                    if w < i {
                        assert(more@.take(i as int)[w]@ == s);
                    }
                }
                if name_set(more@.take(i as int)).contains(s) {
                    let w = choose|w: int| 0 <= w < i && #[trigger] more@.take(i as int)[w]@ == s;
                    assert(t[w]@ == s);
                }
                assert(t[i as int]@ == l@);
            }
            assert forall|s: Seq<char>| name_set(langs@).contains(s) == name_set(start).union(name_set(more@.take(i as int + 1))).contains(s) by {
                assert(name_set(before).contains(s) == name_set(start).union(name_set(more@.take(i as int))).contains(s));
            }
            assert(name_set(langs@) =~= name_set(start).union(name_set(more@.take(i as int + 1))));
        }
        i += 1;
    }
    assert(more@.take(more@.len() as int) =~= more@);
}

/// Finds the root that the manifest resolver reported for a candidate's manifest kind,
/// falling back to the workspace root.
fn root_for(c: &AdapterCandidate, roots: &Vec<ManifestRoot>, wt: WorktreeId) -> (r: ProjectPath)
    ensures
        r.worktree_id == detected_root(*c, roots@, wt).0,
        r.path@ == detected_root(*c, roots@, wt).1,
{
    match c.adapter.manifest_name.as_ref() {
        None => ProjectPath::worktree_root(wt),
        Some(m) => {
            let mut i: usize = 0;
            while i < roots.len()
                invariant
                    i <= roots@.len(),
                    c.adapter.manifest_name == Some(*m),
                    root_index_from(m@, roots@, 0) == root_index_from(m@, roots@, i as int),
                decreases roots@.len() - i,
            {
                if roots[i].manifest_name == *m {
                    assert(root_index_from(m@, roots@, i as int) == Some(i as int));
                    return roots[i].root.clone();
                }
                i += 1;
            }
            ProjectPath::worktree_root(wt)
        },
    }
}

} // verus!

verus! {

impl Clone for InnerTreeNode {
    fn clone(&self) -> (r: Self)
        ensures
            r == *self,
    {
        InnerTreeNode { id: self.id, name: self.name.clone(), path: self.path.clone(), settings: self.settings.clone() }
    }
}

/// `n` with its identity slot set to `id`.
pub open spec fn with_id(n: InnerTreeNode, id: LanguageServerId) -> InnerTreeNode {
    InnerTreeNode { id: Some(id), ..n }
}

impl LanguageServerTree {
    /// Whether `h` has not expired.
    pub fn reaches(&self, h: &LanguageServerTreeNode) -> (r: bool)
        ensures
            r == self.resolves(*h),
    {
        h.generation == self.generation && h.index < self.slots.len() && self.slots[h.index].live
    }

    /// The node in arena cell `i`.
    pub fn node(&self, i: usize) -> (r: &InnerTreeNode)
        requires
            i < self.spec_slots().len(),
        ensures
            *r == self.spec_slots()[i as int].node,
    {
        &self.slots[i].node
    }

    /// Fills the identity slot of node `i`, which must still be empty.
    pub fn assign_id(&mut self, i: usize, id: LanguageServerId)
        requires
            i < old(self).spec_slots().len(),
            old(self).spec_slots()[i as int].node.id.is_none(),
        ensures
            final(self).spec_generation() == old(self).spec_generation(),
            final(self).spec_entries() == old(self).spec_entries(),
            final(self).spec_slots() == old(self).spec_slots().update(
                i as int,
                NodeSlot { node: with_id(old(self).spec_slots()[i as int].node, id), live: old(self).spec_slots()[i as int].live },
            ),
    {
        let n = &self.slots[i].node;
        let node = InnerTreeNode { id: Some(id), name: n.name.clone(), path: n.path.clone(), settings: n.settings.clone() };
        let live = self.slots[i].live;
        self.slots.set(i, NodeSlot { node, live });
    }

    /// Arena cell of the node stored under (`worktree_id`, `root`, `name`), if any.
    pub fn find_node(&self, worktree_id: WorktreeId, root: &String, name: &String) -> (r: Option<usize>)
        requires
            self.wf(),
        ensures
            match r {
                Some(i) => self.stores_at(worktree_id, root@, name@, i as int)
                    && i < self.spec_slots().len() && self.spec_slots()[i as int].live,
                None => !self.has_at(worktree_id, root@, name@),
            },
    {
        let key = NodeKey { worktree_id, root: root.clone(), name: name.clone() };
        match self.find_entry(&key) {
            Some(j) => {
                assert(self.spec_entries()[j as int] == self.entries@[j as int]);
                Some(self.entries[j].node)
            },
            None => None,
        }
    }

    /// Registers a node that a handle reaches under the root of `worktree_id`, serving
    /// `language_name`. Where that key already stores a node, the stored node is kept
    /// and only the language is added. An expired handle changes nothing.
    pub fn register_reused(&mut self, worktree_id: WorktreeId, language_name: String, reused: LanguageServerTreeNode)
        requires
            old(self).wf(),
        ensures
            final(self).wf(),
            final(self).extends(old(self)),
            !old(self).resolves(reused) ==> *final(self) == *old(self),
            old(self).resolves(reused) ==> {
                let name = old(self).spec_slots()[reused.index as int].node.name@;
                &&& exists|j: int| 0 <= j < final(self).spec_entries().len()
                    && key_is((#[trigger] final(self).spec_entries()[j]).key, worktree_id, Seq::empty(), name)
                    && name_set(final(self).spec_entries()[j].languages@).contains(language_name@)
                &&& final(self).spec_slots() == old(self).spec_slots()
                &&& forall|j: int| 0 <= j < old(self).spec_entries().len()
                    && !key_is(old(self).spec_entries()[j].key, worktree_id, Seq::empty(), name)
                    ==> #[trigger] final(self).spec_entries()[j] == old(self).spec_entries()[j]
                &&& forall|j: int| 0 <= j < old(self).spec_entries().len()
                    && key_is(old(self).spec_entries()[j].key, worktree_id, Seq::empty(), name)
                    ==> name_set((#[trigger] final(self).spec_entries()[j]).languages@)
                        == name_set(old(self).spec_entries()[j].languages@).insert(language_name@)
                &&& old(self).has_at(worktree_id, Seq::empty(), name) ==> final(self).spec_entries().len() == old(self).spec_entries().len()
                &&& !old(self).has_at(worktree_id, Seq::empty(), name) ==> {
                    let e = final(self).spec_entries()[old(self).spec_entries().len() as int];
                    &&& final(self).spec_entries().len() == old(self).spec_entries().len() + 1
                    &&& key_is(e.key, worktree_id, Seq::empty(), name)
                    &&& e.node == reused.index
                    &&& name_set(e.languages@) == Set::<Seq<char>>::empty().insert(language_name@)
                }
            },
    {
        if !self.reaches(&reused) {
            return;
        }
        let key = NodeKey { worktree_id, root: String::new(), name: self.slots[reused.index].node.name.clone() };
        let mut more: Vec<String> = Vec::new();
        more.push(language_name);
        assert(name_set(more@) =~= Set::<Seq<char>>::empty().insert(language_name@)) by {
            assert(more@[0]@ == language_name@);
        }
        match self.find_entry(&key) {
            Some(j) => {
                let mut langs = self.entries[j].languages.clone();
                assert(langs@ =~= self.entries@[j as int].languages@);
                add_languages(&mut langs, &more);
                let e = TreeEntry { key: self.entries[j].key.clone(), node: self.entries[j].node, languages: langs };
                self.entries.set(j, e);
                assert(key_is(self.spec_entries()[j as int].key, worktree_id, Seq::empty(), key.name@));
                assert(name_set(self.spec_entries()[j as int].languages@)
                    =~= name_set(old(self).spec_entries()[j as int].languages@).insert(language_name@));
            },
            None => {
                let mut langs: Vec<String> = Vec::new();
                add_languages(&mut langs, &more);
                assert(name_set(Seq::<String>::empty()) =~= Set::<Seq<char>>::empty());
                assert(name_set(langs@) =~= Set::<Seq<char>>::empty().insert(language_name@));
                self.entries.push(TreeEntry { key, node: reused.index, languages: langs });
                let ghost n = self.entries@.len() - 1;
                assert(key_is(self.spec_entries()[n].key, worktree_id, Seq::empty(), key.name@));
                assert(name_set(self.spec_entries()[n].languages@).contains(language_name@));
            },
        }
    }
}

impl LanguageServerTreeNode {
    /// The identity of the node, or `None` when none is assigned yet or the handle
    /// has expired.
    pub fn server_id(&self, tree: &LanguageServerTree) -> (r: Option<LanguageServerId>)
        ensures
            r == tree.server_id_of(*self),
    {
        if tree.reaches(self) {
            tree.node(self.index).id
        } else {
            None
        }
    }

    /// The server name of the node, or `None` when the handle has expired.
    pub fn name(&self, tree: &LanguageServerTree) -> (r: Option<String>)
        ensures
            tree.resolves(*self) ==> r == Some(tree.spec_slots()[self.index as int].node.name),
            !tree.resolves(*self) ==> r.is_none(),
    {
        if tree.reaches(self) {
            Some(tree.node(self.index).name.clone())
        } else {
            None
        }
    }

    /// The identity of the node; when none is assigned yet, `init` is called once with
    /// the node's launch disposition and its result is stored. An expired handle gives
    /// `None` and calls nothing.
    pub fn server_id_or_init<F: FnOnce(LaunchDisposition) -> LanguageServerId>(
        &self,
        tree: &mut LanguageServerTree,
        init: F,
    ) -> (r: Option<LanguageServerId>)
        requires
            old(tree).wf(),
            forall|d: LaunchDisposition| init.requires((d,)),
        ensures
            final(tree).wf(),
            final(tree).identities_kept(old(tree)),
            final(tree).spec_generation() == old(tree).spec_generation(),
            final(tree).spec_entries() == old(tree).spec_entries(),
            final(tree).server_id_of(*self) == r,
            !old(tree).resolves(*self) ==> r.is_none() && *final(tree) == *old(tree),
            old(tree).server_id_of(*self).is_some() ==> r == old(tree).server_id_of(*self) && *final(tree) == *old(tree),
            old(tree).resolves(*self) && old(tree).server_id_of(*self).is_none() ==> {
                let n = old(tree).spec_slots()[self.index as int].node;
                &&& r.is_some()
                &&& init.ensures((disposition_of(n),), r.unwrap())
                &&& final(tree).spec_slots() == old(tree).spec_slots().update(
                    self.index as int,
                    NodeSlot { node: with_id(n, r.unwrap()), live: true },
                )
            },
    {
        if !tree.reaches(self) {
            return None;
        }
        match tree.node(self.index).id {
            Some(id) => Some(id),
            None => {
                let d = LaunchDisposition::from_node(tree.node(self.index));
                let id = init(d);
                tree.assign_id(self.index, id);
                proof {
                    assert forall|h: LanguageServerTreeNode| (#[trigger] old(tree).server_id_of(h)).is_some() implies
                        tree.server_id_of(h) == old(tree).server_id_of(h) by {
                        if h.index != self.index {
                            assert(tree.spec_slots()[h.index as int] == old(tree).spec_slots()[h.index as int]);
                        }
                    }
                }
                Some(id)
            },
        }
    }
}

/// Whether `ids` holds `x`.
pub fn contains_id(ids: &Vec<LanguageServerId>, x: LanguageServerId) -> (r: bool)
    ensures
        r == ids@.contains(x),
{
    let mut i: usize = 0;
    while i < ids.len()
        invariant
            i <= ids@.len(),
            forall|k: int| 0 <= k < i ==> ids@[k] != x,
        decreases ids@.len() - i,
    {
        if ids[i] == x {
            return true;
        }
        i += 1;
    }
    false
}

/// A node that pruning by `ids` removes: one whose identity is in `ids`, and also one
/// with no identity yet, which no running server stands behind.
pub open spec fn pruned_by(n: InnerTreeNode, ids: Seq<LanguageServerId>) -> bool {
    match n.id {
        None => true,
        Some(x) => ids.contains(x),
    }
}

/// The entries that pruning by `ids` keeps, given the arena `slots`.
pub open spec fn keeps(slots: Seq<NodeSlot>, ids: Seq<LanguageServerId>) -> spec_fn(TreeEntry) -> bool {
    |e: TreeEntry| !pruned_by(slots[e.node as int].node, ids)
}

impl LanguageServerTree {
    /// Removes every node whose identity is in `ids`, and every node with no identity
    /// yet, from every root of every workspace root. Handles to them expire.
    pub fn remove_nodes(&mut self, ids: &Vec<LanguageServerId>)
        requires
            old(self).wf(),
        ensures
            final(self).wf(),
            final(self).spec_generation() == old(self).spec_generation(),
            final(self).spec_slots().len() == old(self).spec_slots().len(),
            forall|i: int| 0 <= i < old(self).spec_slots().len() ==> {
                &&& (#[trigger] final(self).spec_slots()[i]).node == old(self).spec_slots()[i].node
                &&& final(self).spec_slots()[i].live == (old(self).spec_slots()[i].live && !pruned_by(old(self).spec_slots()[i].node, ids@))
            },
            final(self).spec_entries() == old(self).spec_entries().filter(keeps(old(self).spec_slots(), ids@)),
    {
        let ghost orig_slots = self.slots@;
        let mut i: usize = 0;
        while i < self.slots.len()
            invariant
                self.slots@.len() == orig_slots.len(),
                self.entries@ == old(self).entries@,
                self.generation == old(self).generation,
                orig_slots == old(self).slots@,
                i <= orig_slots.len(),
                forall|k: int| 0 <= k < i ==> {
                    &&& (#[trigger] self.slots@[k]).node == orig_slots[k].node
                    &&& self.slots@[k].live == (orig_slots[k].live && !pruned_by(orig_slots[k].node, ids@))
                },
                forall|k: int| i <= k < orig_slots.len() ==> #[trigger] self.slots@[k] == orig_slots[k],
            decreases orig_slots.len() - i,
        {
            let prune = match self.slots[i].node.id {
                None => true,
                Some(x) => contains_id(ids, x),
            };
            if self.slots[i].live && prune {
                let node = self.slots[i].node.clone();
                self.slots.set(i, NodeSlot { node, live: false });
            }
            i += 1;
        }
        let ghost pred = keeps(orig_slots, ids@);
        let mut rest: Vec<TreeEntry> = Vec::new();
        std::mem::swap(&mut rest, &mut self.entries);
        let ghost orig = rest@;
        let total = rest.len();
        proof {
            assert forall|k: int| 0 <= k < orig.len() implies (#[trigger] orig[k]).node < orig_slots.len() && orig_slots[orig[k].node as int].live
                && orig_slots[orig[k].node as int].node.name@ == orig[k].key.name@ by {
                assert(old(self).spec_entries()[k] == orig[k]);
            }
            assert forall|a: int, b: int| 0 <= a < orig.len() && 0 <= b < orig.len() && a != b
                implies !same_key(#[trigger] orig[a].key, #[trigger] orig[b].key) by {
                assert(old(self).spec_entries()[a] == orig[a]);
                assert(old(self).spec_entries()[b] == orig[b]);
            }
            assert(orig.take(0) =~= Seq::<TreeEntry>::empty());
            reveal(Seq::filter);
        }
        let ghost mut src: Seq<int> = Seq::empty();
        let mut j: usize = 0;
        while rest.len() > 0
            invariant
                j <= orig.len(),
                pred == keeps(orig_slots, ids@),
                orig.len() == total,
                self.generation == old(self).generation,
                rest@ == orig.subrange(j as int, orig.len() as int),
                self.entries@ == orig.take(j as int).filter(pred),
                self.slots@.len() == orig_slots.len(),
                forall|k: int| 0 <= k < orig_slots.len() ==> {
                    &&& (#[trigger] self.slots@[k]).node == orig_slots[k].node
                    &&& self.slots@[k].live == (orig_slots[k].live && !pruned_by(orig_slots[k].node, ids@))
                },
                src.len() == self.entries@.len(),
                forall|k: int| 0 <= k < src.len() ==> 0 <= #[trigger] src[k] < j && self.entries@[k] == orig[src[k]],
                forall|a: int, b: int| 0 <= a < b < src.len() ==> #[trigger] src[a] < #[trigger] src[b],
                forall|k: int| 0 <= k < orig.len() ==> (#[trigger] orig[k]).node < orig_slots.len() && orig_slots[orig[k].node as int].live
                && orig_slots[orig[k].node as int].node.name@ == orig[k].key.name@,
                forall|a: int, b: int| 0 <= a < orig.len() && 0 <= b < orig.len() && a != b
                    ==> !same_key(#[trigger] orig[a].key, #[trigger] orig[b].key),
            decreases rest@.len(),
        {
            let e = rest.remove(0);
            proof {
                assert(e == orig[j as int]);
                assert(orig.take(j as int + 1) =~= orig.take(j as int).push(e));
                orig.take(j as int).lemma_filter_push(e, pred);
            }
            let prune = match self.slots[e.node].node.id {
                None => true,
                Some(x) => contains_id(ids, x),
            };
            assert(e.node < orig_slots.len());
            assert(self.slots@[e.node as int].node == orig_slots[e.node as int].node);
            assert(pruned_by(orig_slots[e.node as int].node, ids@) == prune);
            assert(pred(e) == !prune);
            if !prune {
                self.entries.push(e);
                proof {
                    src = src.push(j as int);
                }
            }
            j += 1;
        }
        proof {
            assert(orig.take(orig.len() as int) =~= orig);
            assert forall|a: int, b: int| 0 <= a < self.entries@.len() && 0 <= b < self.entries@.len() && a != b
                implies !same_key(#[trigger] self.entries@[a].key, #[trigger] self.entries@[b].key) by {
                assert(src[a] != src[b]) by {
                    if a < b { assert(src[a] < src[b]); } else { assert(src[b] < src[a]); }
                }
            }
            assert forall|k: int| 0 <= k < self.entries@.len() implies
                (#[trigger] self.entries@[k]).node < self.slots@.len() && self.slots@[self.entries@[k].node as int].live
                && self.slots@[self.entries@[k].node as int].node.name@ == self.entries@[k].key.name@ by {
                assert(self.entries@[k] == orig[src[k]]);
                assert(orig.take(orig.len() as int).filter(pred).contains(self.entries@[k]));
                assert(pred(self.entries@[k])) by {
                    broadcast use vstd::seq_lib::group_filter_ensures;
                }
            }
        }
    }
}

impl LanguageServerTree {
    /// An empty tree of the next generation: no handle of `self` reaches into it.
    pub fn next_generation(&self) -> (r: Self)
        requires
            self.spec_generation() < u64::MAX,
        ensures
            r.wf(),
            r.spec_slots().len() == 0,
            r.spec_entries().len() == 0,
            r.spec_generation() == self.spec_generation() + 1,
    {
        LanguageServerTree { slots: Vec::new(), entries: Vec::new(), generation: self.generation + 1 }
    }

    pub fn entry_count(&self) -> (r: usize)
        ensures
            r == self.spec_entries().len(),
    {
        self.entries.len()
    }

    /// The arena cell of the node stored by entry `j`.
    pub fn entry_node(&self, j: usize) -> (r: usize)
        requires
            j < self.spec_entries().len(),
        ensures
            r == self.spec_entries()[j as int].node,
    {
        self.entries[j].node
    }
}

impl LanguageServerTree {
    /// The handles for `path` under `query`: the candidates that the registry reports
    /// for the query are looked up in order, one handle each. A language whose servers
    /// are disabled gives none.
    pub fn get(
        &mut self,
        path: &ProjectPath,
        query: &AdapterQuery,
        registry: &AdapterRegistrySnapshot,
        roots: &Vec<ManifestRoot>,
    ) -> (r: Vec<LanguageServerTreeNode>)
        requires
            old(self).wf(),
        ensures
            final(self).wf(),
            final(self).extends(old(self)),
            exists|cs: Seq<AdapterCandidate>| #[trigger] query_candidates(cs, *query, *registry) && cs.len() == r@.len()
                && lookup_frame(*old(self), *final(self), cs, roots@, path.worktree_id, r@)
                && forall|k: int| 0 <= k < r@.len() ==>
                    lookup_result(*old(self), *final(self), cs[k], roots@, path.worktree_id, #[trigger] r@[k]),
            query matches AdapterQuery::Language(_) && !registry.language_settings.enable_language_server ==> r@.len() == 0,
            r@.len() == 0 ==> final(self).spec_entries() == old(self).spec_entries()
                && final(self).spec_slots() == old(self).spec_slots(),
    {
        let cs = candidates_for(query, registry);
        let r = self.get_with_adapters(path, &cs, roots);
        assert(query_candidates(cs@, *query, *registry));
        proof {
            if r@.len() == 0 {
                lemma_empty_lookup_unchanged(*old(self), *self, cs@, roots@, path.worktree_id, r@);
            }
        }
        r
    }
}

} // verus!
