use server_tree::adapters::{
    adapter_for_name, adapters_for_language, candidates_for, manifest_names, reorder_request, AdapterQuery,
    AdapterRegistrySnapshot,
    LanguageSettingsSnapshot, ServerSettingsEntry,
};
use server_tree::tree::{LanguageServerTree, LanguageServerTreeNode};
use server_tree::types::{AdapterCandidate, AdapterInfo, LanguageServerId, LspSettings, ManifestRoot, ProjectPath, WorktreeId};

fn s(x: &str) -> String {
    x.to_string()
}

fn adapter(name: &str, manifest: Option<&str>) -> AdapterInfo {
    AdapterInfo { name: s(name), manifest_name: manifest.map(s) }
}

fn settings(text: &str) -> LspSettings {
    LspSettings { serialized: s(text) }
}

fn typescript_registry(enabled: bool, linter_settings: &str) -> AdapterRegistrySnapshot {
    AdapterRegistrySnapshot {
        language_settings: LanguageSettingsSnapshot {
            enable_language_server: enabled,
            desired_servers: vec![s("ts-server"), s("linter")],
        },
        available: vec![adapter("ts-server", Some("package.json")), adapter("linter", None)],
        loadable: vec![],
        registered: vec![adapter("ts-server", Some("package.json")), adapter("linter", None)],
        server_settings: vec![
            ServerSettingsEntry { name: s("ts-server"), settings: settings("{\"tsdk\":\"a\"}") },
            ServerSettingsEntry { name: s("linter"), settings: settings(linter_settings) },
        ],
    }
}

fn w() -> WorktreeId {
    WorktreeId(1)
}

fn ts_path() -> ProjectPath {
    ProjectPath { worktree_id: w(), path: s("src/a.ts") }
}

fn roots() -> Vec<ManifestRoot> {
    vec![ManifestRoot { manifest_name: s("package.json"), root: ProjectPath { worktree_id: w(), path: s("") } }]
}

fn typescript() -> AdapterQuery {
    AdapterQuery::Language(s("typescript"))
}

fn init_counter(tree: &mut LanguageServerTree, handles: &[LanguageServerTreeNode], next: &mut u64) -> Vec<Option<LanguageServerId>> {
    let mut out = Vec::new();
    for h in handles {
        let id = h.server_id_or_init(tree, |_| {
            *next += 1;
            LanguageServerId(*next)
        });
        out.push(id);
    }
    out
}

#[test]
fn scenario_two_adapters_rebased_twice() {
    let mut tree = LanguageServerTree::new();
    let handles = tree.get(&ts_path(), &typescript(), &typescript_registry(true, "{}"), &roots());
    assert_eq!(handles.len(), 2);
    assert_eq!(handles[0].name(&tree), Some(s("ts-server")));
    assert_eq!(handles[1].name(&tree), Some(s("linter")));
    assert_eq!(tree.node(handles[0].index).path.path, s(""));
    assert_eq!(tree.node(handles[1].index).path.path, s(""));
    let mut next = 0;
    let ids = init_counter(&mut tree, &handles, &mut next);
    assert_eq!(ids, vec![Some(LanguageServerId(1)), Some(LanguageServerId(2))]);

    // identical settings: both identities carried over
    let mut session = tree.rebase();
    let again = session.get(&ts_path(), &typescript(), &typescript_registry(true, "{}"), &roots());
    assert_eq!(again[0].server_id(session.server_tree()), Some(LanguageServerId(1)));
    assert_eq!(again[1].server_id(session.server_tree()), Some(LanguageServerId(2)));
    let (tree, shutdown) = session.finish();
    assert!(shutdown.is_empty());
    assert_eq!(handles[0].server_id(&tree), None);

    // the linter's settings changed: it restarts
    let mut session = tree.rebase();
    let third = session.get(&ts_path(), &typescript(), &typescript_registry(true, "{\"strict\":true}"), &roots());
    assert_eq!(third[0].server_id(session.server_tree()), Some(LanguageServerId(1)));
    assert_eq!(third[1].server_id(session.server_tree()), None);
    let (mut tree, shutdown) = session.finish();
    assert_eq!(shutdown, vec![(LanguageServerId(2), s("linter"))]);
    let id = third[1].server_id_or_init(&mut tree, |d| {
        assert_eq!(d.server_name, s("linter"));
        assert_eq!(d.settings.serialized, s("{\"strict\":true}"));
        LanguageServerId(3)
    });
    assert_eq!(id, Some(LanguageServerId(3)));
}

#[test]
fn disabled_language_yields_nothing() {
    let mut tree = LanguageServerTree::new();
    for _ in 0..3 {
        let handles = tree.get(&ts_path(), &typescript(), &typescript_registry(false, "{}"), &roots());
        assert!(handles.is_empty());
    }
    assert_eq!(tree.entry_count(), 0);
}

#[test]
fn same_key_same_node() {
    let mut tree = LanguageServerTree::new();
    let a = tree.get(&ts_path(), &typescript(), &typescript_registry(true, "{}"), &roots());
    let other = ProjectPath { worktree_id: w(), path: s("src/b.ts") };
    let b = tree.get(&other, &typescript(), &typescript_registry(true, "{}"), &roots());
    assert_eq!(a, b);
    assert_eq!(tree.entry_count(), 2);
}

#[test]
fn initializer_runs_once() {
    let mut tree = LanguageServerTree::new();
    let handles = tree.get(&ts_path(), &typescript(), &typescript_registry(true, "{}"), &roots());
    let mut calls = 0;
    let first = handles[0].server_id_or_init(&mut tree, |_| {
        calls += 1;
        LanguageServerId(7)
    });
    let second = handles[0].server_id_or_init(&mut tree, |_| {
        calls += 1;
        LanguageServerId(8)
    });
    assert_eq!(first, Some(LanguageServerId(7)));
    assert_eq!(second, Some(LanguageServerId(7)));
    assert_eq!(calls, 1);
    assert_eq!(handles[0].server_id(&tree), Some(LanguageServerId(7)));
}

#[test]
fn identity_survives_later_lookups() {
    let mut tree = LanguageServerTree::new();
    let handles = tree.get(&ts_path(), &typescript(), &typescript_registry(true, "{}"), &roots());
    handles[0].server_id_or_init(&mut tree, |_| LanguageServerId(5));
    let by_name = tree.get(&ts_path(), &AdapterQuery::Adapter(s("ts-server")), &typescript_registry(true, "{}"), &roots());
    assert_eq!(by_name, vec![handles[0]]);
    tree.register_reused(WorktreeId(2), s("typescript"), handles[0]);
    assert_eq!(handles[0].server_id(&tree), Some(LanguageServerId(5)));
}

#[test]
fn unknown_adapter_name_yields_nothing() {
    let mut tree = LanguageServerTree::new();
    let r = tree.get(&ts_path(), &AdapterQuery::Adapter(s("nope")), &typescript_registry(true, "{}"), &roots());
    assert!(r.is_empty());
}

#[test]
fn manifest_root_missing_falls_back_to_workspace_root() {
    let mut tree = LanguageServerTree::new();
    let handles = tree.get(&ts_path(), &typescript(), &typescript_registry(true, "{}"), &vec![]);
    assert_eq!(tree.node(handles[0].index).path, ProjectPath { worktree_id: w(), path: s("") });
    let nested = vec![ManifestRoot { manifest_name: s("package.json"), root: ProjectPath { worktree_id: w(), path: s("src") } }];
    let deeper = tree.get(&ts_path(), &typescript(), &typescript_registry(true, "{}"), &nested);
    assert_eq!(tree.node(deeper[0].index).path.path, s("src"));
    assert_ne!(deeper[0], handles[0]);
    assert_eq!(deeper[1], handles[1]);
}

#[test]
fn remove_nodes_prunes_listed_and_unassigned() {
    let mut tree = LanguageServerTree::new();
    let reg = AdapterRegistrySnapshot {
        language_settings: LanguageSettingsSnapshot {
            enable_language_server: true,
            desired_servers: vec![s("a"), s("b"), s("c")],
        },
        available: vec![adapter("a", None), adapter("b", None), adapter("c", None)],
        loadable: vec![],
        registered: vec![],
        server_settings: vec![],
    };
    let h = tree.get(&ts_path(), &typescript(), &reg, &roots());
    h[0].server_id_or_init(&mut tree, |_| LanguageServerId(10));
    h[1].server_id_or_init(&mut tree, |_| LanguageServerId(11));
    tree.remove_nodes(&vec![LanguageServerId(10)]);
    assert_eq!(h[0].server_id(&tree), None);
    assert_eq!(h[0].name(&tree), None);
    assert_eq!(h[1].server_id(&tree), Some(LanguageServerId(11)));
    assert_eq!(h[2].name(&tree), None);
    assert_eq!(tree.entry_count(), 1);
}

#[test]
fn register_reused_adds_root_entry() {
    let mut tree = LanguageServerTree::new();
    let h = tree.get(&ts_path(), &typescript(), &typescript_registry(true, "{}"), &roots());
    h[1].server_id_or_init(&mut tree, |_| LanguageServerId(4));
    tree.register_reused(WorktreeId(9), s("javascript"), h[1]);
    assert_eq!(tree.entry_count(), 3);
    let found = tree.find_node(WorktreeId(9), &s(""), &s("linter"));
    assert_eq!(found, Some(h[1].index));
    let expired = LanguageServerTreeNode { generation: 5, index: 0 };
    tree.register_reused(WorktreeId(9), s("javascript"), expired);
    assert_eq!(tree.entry_count(), 3);
}

#[test]
fn rebase_drops_unvisited_keys() {
    let mut tree = LanguageServerTree::new();
    let h = tree.get(&ts_path(), &typescript(), &typescript_registry(true, "{}"), &roots());
    h[0].server_id_or_init(&mut tree, |_| LanguageServerId(1));
    h[1].server_id_or_init(&mut tree, |_| LanguageServerId(2));
    let session = tree.rebase();
    let (tree, shutdown) = session.finish();
    assert_eq!(shutdown, vec![(LanguageServerId(1), s("ts-server")), (LanguageServerId(2), s("linter"))]);
    assert_eq!(h[0].server_id(&tree), None);
    assert_eq!(tree.entry_count(), 0);
}

#[test]
fn language_candidates_follow_settings_order() {
    let desired = LanguageSettingsSnapshot {
        enable_language_server: true,
        desired_servers: vec![s("b"), s("missing"), s("ext"), s("a"), s("b")],
    };
    let available = vec![adapter("a", None), adapter("b", Some("Cargo.toml"))];
    let loadable = vec![adapter("ext", None)];
    let server_settings = vec![ServerSettingsEntry { name: s("a"), settings: settings("x") }];
    let r = adapters_for_language(&s("rust"), &desired, &available, &loadable, &server_settings);
    let names: Vec<String> = r.iter().map(|c| c.adapter.name.clone()).collect();
    assert_eq!(names, vec![s("b"), s("ext"), s("a")]);
    assert_eq!(r[2].settings.serialized, s("x"));
    assert_eq!(r[0].settings.serialized, s(""));
    assert_eq!(r[0].languages, vec![s("rust")]);
}

#[test]
fn adapter_by_name_lookup() {
    let registered = vec![adapter("a", None), adapter("b", Some("go.mod"))];
    let configured = vec![ServerSettingsEntry { name: s("b"), settings: settings("{\"gopls\":1}") }];
    let r = adapter_for_name(&registered, &s("b"), &configured);
    assert_eq!(r.len(), 1);
    assert_eq!(r[0].adapter.manifest_name, Some(s("go.mod")));
    assert_eq!(r[0].settings.serialized, s("{\"gopls\":1}"));
    assert!(r[0].languages.is_empty());
    assert!(adapter_for_name(&registered, &s("c"), &configured).is_empty());
    assert_eq!(adapter_for_name(&registered, &s("a"), &configured)[0].settings.serialized, s(""));
}

#[test]
fn manifest_names_once_each() {
    let cs: Vec<AdapterCandidate> = ["package.json", "", "package.json", "tsconfig.json"]
        .iter()
        .map(|m| AdapterCandidate {
            adapter: adapter("x", if m.is_empty() { None } else { Some(m) }),
            settings: settings(""),
            languages: vec![],
        })
        .collect();
    assert_eq!(manifest_names(&cs), vec![s("package.json"), s("tsconfig.json")]);
}

#[test]
fn candidates_for_disabled_language_is_empty() {
    assert!(candidates_for(&typescript(), &typescript_registry(false, "{}")).is_empty());
    assert_eq!(candidates_for(&typescript(), &typescript_registry(true, "{}")).len(), 2);
}

#[test]
fn same_settings_text_compares_equal() {
    assert!(settings("{}").same_as(&settings("{}")));
    assert!(!settings("{}").same_as(&settings("{ }")));
}

#[test]
fn rebase_lookup_of_disabled_language_is_empty() {
    let mut tree = LanguageServerTree::new();
    let h = tree.get(&ts_path(), &typescript(), &typescript_registry(true, "{}"), &roots());
    h[0].server_id_or_init(&mut tree, |_| LanguageServerId(1));
    let mut session = tree.rebase();
    assert!(session.get(&ts_path(), &typescript(), &typescript_registry(false, "{}"), &roots()).is_empty());
    let (_, shutdown) = session.finish();
    assert_eq!(shutdown, vec![(LanguageServerId(1), s("ts-server"))]);
}

#[test]
fn rebase_lookup_by_name_keeps_identity() {
    let mut tree = LanguageServerTree::new();
    let h = tree.get(&ts_path(), &typescript(), &typescript_registry(true, "{}"), &roots());
    h[1].server_id_or_init(&mut tree, |_| LanguageServerId(6));
    let mut session = tree.rebase();
    let by_name = session.get(&ts_path(), &AdapterQuery::Adapter(s("linter")), &typescript_registry(true, "{}"), &roots());
    // a query by name carries the server's configured settings, which are unchanged
    assert_eq!(by_name[0].server_id(session.server_tree()), Some(LanguageServerId(6)));
    let again = session.get(&ts_path(), &typescript(), &typescript_registry(true, "{}"), &roots());
    assert_eq!(again[1], by_name[0]);
    let (_, shutdown) = session.finish();
    assert!(shutdown.is_empty());
}

#[test]
fn initialize_during_rebase_through_session_tree() {
    let mut tree = LanguageServerTree::new();
    tree.get(&ts_path(), &typescript(), &typescript_registry(true, "{}"), &roots());
    let mut session = tree.rebase();
    let h = session.get(&ts_path(), &typescript(), &typescript_registry(true, "{}"), &roots());
    let id = h[0].server_id_or_init(session.server_tree_mut(), |_| LanguageServerId(42));
    assert_eq!(id, Some(LanguageServerId(42)));
    let (tree, shutdown) = session.finish();
    assert!(shutdown.is_empty());
    assert_eq!(h[0].server_id(&tree), Some(LanguageServerId(42)));
}

#[test]
fn reorder_request_lists_names_in_order() {
    let r = candidates_for(&typescript(), &typescript_registry(true, "{}"));
    assert_eq!(reorder_request(&r), vec![s("ts-server"), s("linter")]);
}

#[test]
fn register_reused_existing_key_adds_language_only() {
    let mut tree = LanguageServerTree::new();
    let h = tree.get(&ts_path(), &typescript(), &typescript_registry(true, "{}"), &roots());
    tree.register_reused(w(), s("javascript"), h[0]);
    assert_eq!(tree.entry_count(), 2);
    assert_eq!(tree.find_node(w(), &s(""), &s("ts-server")), Some(h[0].index));
}
