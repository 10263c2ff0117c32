//! Choosing the adapters that a lookup considers, from what the adapter registry and
//! the settings report.
use vstd::prelude::*;

use crate::types::{AdapterCandidate, AdapterInfo, LspSettings};

verus! {

/// The settings of one language at one location: whether its servers are enabled, and
/// the server names it asks for, in order.
#[derive(Debug)]
pub struct LanguageSettingsSnapshot {
    pub enable_language_server: bool,
    pub desired_servers: Vec<String>,
}

/// The settings snapshot of one server at one location.
#[derive(Debug)]
pub struct ServerSettingsEntry {
    pub name: String,
    pub settings: LspSettings,
}

/// Which adapters a lookup considers.
#[derive(Debug)]
pub enum AdapterQuery {
    /// Every adapter enabled for the named language.
    Language(String),
    /// The one adapter of the given server name.
    Adapter(String),
}

/// The first adapter in `v`, from position `i` on, with the given name.
pub open spec fn find_adapter_from(v: Seq<AdapterInfo>, name: Seq<char>, i: int) -> Option<AdapterInfo>
    decreases v.len() - i,
{
    if i < 0 || i >= v.len() {
        None
    } else if v[i].name@ == name {
        Some(v[i])
    } else {
        find_adapter_from(v, name, i + 1)
    }
}

/// The adapter a desired name stands for: an available one, else one that could be loaded.
pub open spec fn resolve_adapter(name: Seq<char>, available: Seq<AdapterInfo>, loadable: Seq<AdapterInfo>) -> Option<AdapterInfo> {
    match find_adapter_from(available, name, 0) {
        Some(a) => Some(a),
        None => find_adapter_from(loadable, name, 0),
    }
}

pub open spec fn names_hold(v: Seq<AdapterInfo>, name: Seq<char>) -> bool {
    exists|k: int| 0 <= k < v.len() && (#[trigger] v[k]).name@ == name
}

/// The adapters chosen for the desired names, in their order, each once; names that
/// stand for no adapter are passed over.
pub open spec fn selection(desired: Seq<String>, available: Seq<AdapterInfo>, loadable: Seq<AdapterInfo>) -> Seq<AdapterInfo>
    decreases desired.len(),
{
    if desired.len() == 0 {
        Seq::empty()
    } else {
        let prev = selection(desired.drop_last(), available, loadable);
        match resolve_adapter(desired.last()@, available, loadable) {
            Some(a) => if names_hold(prev, a.name@) {
                prev
            } else {
                prev.push(a)
            },
            None => prev,
        }
    }
}

/// The settings text configured for server `name`: the first entry for it, else the default.
pub open spec fn settings_text_from(entries: Seq<ServerSettingsEntry>, name: Seq<char>, i: int) -> Seq<char>
    decreases entries.len() - i,
{
    if i < 0 || i >= entries.len() {
        Seq::empty()
    } else if entries[i].name@ == name {
        entries[i].settings.serialized@
    } else {
        settings_text_from(entries, name, i + 1)
    }
}

fn find_adapter(v: &Vec<AdapterInfo>, name: &String) -> (r: Option<AdapterInfo>)
    ensures
        r == find_adapter_from(v@, name@, 0),
{
    let mut i: usize = 0;
    while i < v.len()
        invariant
            i <= v@.len(),
            find_adapter_from(v@, name@, 0) == find_adapter_from(v@, name@, i as int),
        decreases v@.len() - i,
    {
        if v[i].name == *name {
            return Some(v[i].clone());
        }
        i += 1;
    }
    None
}

fn settings_for(entries: &Vec<ServerSettingsEntry>, name: &String) -> (r: LspSettings)
    ensures
        r.serialized@ == settings_text_from(entries@, name@, 0),
{
    let mut i: usize = 0;
    while i < entries.len()
        invariant
            i <= entries@.len(),
            settings_text_from(entries@, name@, 0) == settings_text_from(entries@, name@, i as int),
        decreases entries@.len() - i,
    {
        if entries[i].name == *name {
            return entries[i].settings.clone();
        }
        i += 1;
    }
    LspSettings::default()
}

fn holds_name(v: &Vec<AdapterCandidate>, name: &String) -> (r: bool)
    ensures
        r == exists|k: int| 0 <= k < v@.len() && (#[trigger] v@[k]).adapter.name@ == name@,
{
    let mut i: usize = 0;
    while i < v.len()
        invariant
            i <= v@.len(),
            forall|k: int| 0 <= k < i ==> (#[trigger] v@[k]).adapter.name@ != name@,
        decreases v@.len() - i,
    {
        if v[i].adapter.name == *name {
            return true;
        }
        i += 1;
    }
    false
}

/// A candidate for adapter `a`, chosen on behalf of `language`.
pub open spec fn candidate_for_language(
    c: AdapterCandidate,
    a: AdapterInfo,
    language: Seq<char>,
    server_settings: Seq<ServerSettingsEntry>,
) -> bool {
    &&& c.adapter == a
    &&& c.settings.serialized@ == settings_text_from(server_settings, a.name@, 0)
    &&& c.languages@.len() == 1
    &&& c.languages@[0]@ == language
}

/// The candidates for `language`: none where its servers are disabled; otherwise, in
/// the order the settings ask for them, each desired server that is available or can
/// be loaded, once, with its settings snapshot.
pub fn adapters_for_language(
    language: &String,
    settings: &LanguageSettingsSnapshot,
    available: &Vec<AdapterInfo>,
    loadable: &Vec<AdapterInfo>,
    server_settings: &Vec<ServerSettingsEntry>,
) -> (r: Vec<AdapterCandidate>)
    ensures
        !settings.enable_language_server ==> r@.len() == 0,
        settings.enable_language_server ==> {
            let sel = selection(settings.desired_servers@, available@, loadable@);
            &&& r@.len() == sel.len()
            &&& forall|k: int| 0 <= k < r@.len() ==>
                candidate_for_language(#[trigger] r@[k], sel[k], language@, server_settings@)
        },
        crate::tree::distinct_names(r@),
{
    let mut out: Vec<AdapterCandidate> = Vec::new();
    if !settings.enable_language_server {
        return out;
    }
    let desired = &settings.desired_servers;
    let mut i: usize = 0;
    while i < desired.len()
        invariant
            i <= desired@.len(),
            out@.len() == selection(desired@.take(i as int), available@, loadable@).len(),
            forall|k: int| 0 <= k < out@.len() ==>
                candidate_for_language(#[trigger] out@[k], selection(desired@.take(i as int), available@, loadable@)[k], language@, server_settings@),
            crate::tree::distinct_names(out@),
        decreases desired@.len() - i,
    {
        let ghost prev = selection(desired@.take(i as int), available@, loadable@);
        proof {
            assert(desired@.take(i as int + 1).drop_last() =~= desired@.take(i as int));
            assert(desired@.take(i as int + 1).last() == desired@[i as int]);
        }
        let d = &desired[i];
        let found = match find_adapter(available, d) {
            Some(a) => Some(a),
            None => find_adapter(loadable, d),
        };
        match found {
            Some(a) => {
                proof {
                    lemma_found_named(available@, d@, 0);
                    lemma_found_named(loadable@, d@, 0);
                }
                if !holds_name(&out, &a.name) {
                    let s = settings_for(server_settings, &a.name);
                    let mut languages: Vec<String> = Vec::new();
                    languages.push(language.clone());
                    out.push(AdapterCandidate { adapter: a, settings: s, languages });
                    proof {
                        assert(!names_hold(prev, a.name@)) by {
                            if names_hold(prev, a.name@) {
                                let k = choose|k: int| 0 <= k < prev.len() && (#[trigger] prev[k]).name@ == a.name@;
                                assert(out@[k].adapter.name@ == a.name@);
                            }
                        }
                    }
                } else {
                    proof {
                        let k = choose|k: int| 0 <= k < out@.len() && (#[trigger] out@[k]).adapter.name@ == a.name@;
                        assert(prev[k].name@ == a.name@);
                    }
                }
            },
            None => {},
        }
        i += 1;
    }
    proof {
        assert(desired@.take(desired@.len() as int) =~= desired@);
    }
    out
}

proof fn lemma_found_named(v: Seq<AdapterInfo>, name: Seq<char>, i: int)
    ensures
        find_adapter_from(v, name, i) matches Some(a) ==> a.name@ == name,
    decreases v.len() - i,
{
    if 0 <= i < v.len() && v[i].name@ != name {
        lemma_found_named(v, name, i + 1);
    }
}

/// The candidates of a query by server name: the adapter registered under that name,
/// with its settings snapshot and no languages, or none.
pub fn adapter_for_name(
    registered: &Vec<AdapterInfo>,
    name: &String,
    server_settings: &Vec<ServerSettingsEntry>,
) -> (r: Vec<AdapterCandidate>)
    ensures
        by_name_candidates(r@, registered@, name@, server_settings@),
{
    let mut out: Vec<AdapterCandidate> = Vec::new();
    match find_adapter(registered, name) {
        Some(a) => {
            let settings = settings_for(server_settings, &a.name);
            out.push(AdapterCandidate { adapter: a, settings, languages: Vec::new() });
        },
        None => {},
    }
    out
}

pub open spec fn by_name_candidates(
    cs: Seq<AdapterCandidate>,
    registered: Seq<AdapterInfo>,
    name: Seq<char>,
    server_settings: Seq<ServerSettingsEntry>,
) -> bool {
    match find_adapter_from(registered, name, 0) {
        None => cs.len() == 0,
        Some(a) => cs.len() == 1 && cs[0].adapter == a
            && cs[0].settings.serialized@ == settings_text_from(server_settings, a.name@, 0)
            && cs[0].languages@.len() == 0,
    }
}

/// What the adapter registry and the settings report for one lookup location.
#[derive(Debug)]
pub struct AdapterRegistrySnapshot {
    /// The settings of the queried language at the location.
    pub language_settings: LanguageSettingsSnapshot,
    /// The adapters registered for the queried language.
    pub available: Vec<AdapterInfo>,
    /// The adapters that can be loaded on demand.
    pub loadable: Vec<AdapterInfo>,
    /// Every registered adapter.
    pub registered: Vec<AdapterInfo>,
    /// The settings snapshot of each configured server at the location.
    pub server_settings: Vec<ServerSettingsEntry>,
}

/// `cs` are the candidates of `query` as the registry `reg` reports them.
pub open spec fn query_candidates(cs: Seq<AdapterCandidate>, query: AdapterQuery, reg: AdapterRegistrySnapshot) -> bool {
    &&& crate::tree::distinct_names(cs)
    &&& match query {
        AdapterQuery::Language(language) => if !reg.language_settings.enable_language_server {
            cs.len() == 0
        } else {
            let sel = selection(reg.language_settings.desired_servers@, reg.available@, reg.loadable@);
            &&& cs.len() == sel.len()
            &&& forall|k: int| 0 <= k < cs.len() ==>
                candidate_for_language(#[trigger] cs[k], sel[k], language@, reg.server_settings@)
        },
        AdapterQuery::Adapter(name) => by_name_candidates(cs, reg.registered@, name@, reg.server_settings@),
    }
}

/// The candidates of a query.
pub fn candidates_for(query: &AdapterQuery, reg: &AdapterRegistrySnapshot) -> (r: Vec<AdapterCandidate>)
    ensures
        query_candidates(r@, *query, *reg),
{
    match query {
        AdapterQuery::Language(language) => adapters_for_language(
            language,
            &reg.language_settings,
            &reg.available,
            &reg.loadable,
            &reg.server_settings,
        ),
        AdapterQuery::Adapter(name) => {
            let r = adapter_for_name(&reg.registered, name, &reg.server_settings);
            assert(crate::tree::distinct_names(r@));
            r
        },
    }
}

/// Some candidate anchors its root on manifest kind `m`.
pub open spec fn some_candidate_names(cs: Seq<AdapterCandidate>, m: String) -> bool {
    exists|k: int| 0 <= k < cs.len() && (#[trigger] cs[k]).adapter.manifest_name == Some(m)
}

/// The manifest kinds that the candidates anchor their roots on, each once, in the
/// order the candidates name them: what the manifest resolver is asked about.
pub fn manifest_names(cs: &Vec<AdapterCandidate>) -> (r: Vec<String>)
    ensures
        forall|k: int| 0 <= k < cs@.len() && (#[trigger] cs@[k]).adapter.manifest_name.is_some() ==>
            exists|m: int| 0 <= m < r@.len() && (#[trigger] r@[m])@ == cs@[k].adapter.manifest_name.unwrap()@,
        forall|m: int| 0 <= m < r@.len() ==> some_candidate_names(cs@, #[trigger] r@[m]),
        forall|a: int, b: int| 0 <= a < b < r@.len() ==> (#[trigger] r@[a])@ != (#[trigger] r@[b])@,
{
    let mut out: Vec<String> = Vec::new();
    let mut i: usize = 0;
    while i < cs.len()
        invariant
            i <= cs@.len(),
            forall|k: int| 0 <= k < i && (#[trigger] cs@[k]).adapter.manifest_name.is_some() ==>
                exists|m: int| 0 <= m < out@.len() && (#[trigger] out@[m])@ == cs@[k].adapter.manifest_name.unwrap()@,
            forall|m: int| 0 <= m < out@.len() ==> some_candidate_names(cs@, #[trigger] out@[m]),
            forall|a: int, b: int| 0 <= a < b < out@.len() ==> (#[trigger] out@[a])@ != (#[trigger] out@[b])@,
        decreases cs@.len() - i,
    {
        match &cs[i].adapter.manifest_name {
            Some(m) => {
                let mut seen = false;
                let mut j: usize = 0;
                while j < out.len()
                    invariant
                        j <= out@.len(),
                        seen ==> exists|w: int| 0 <= w < out@.len() && (#[trigger] out@[w])@ == m@,
                        !seen ==> forall|w: int| 0 <= w < j ==> (#[trigger] out@[w])@ != m@,
                    decreases out@.len() - j,
                {
                    if out[j] == *m {
                        seen = true;
                    }
                    j += 1;
                }
                if !seen {
                    let ghost before = out@;
                    out.push(m.clone());
                    proof {
                        assert(cs@[i as int].adapter.manifest_name == Some(out@[before.len() as int]));
                        assert forall|k: int| 0 <= k < i + 1 && (#[trigger] cs@[k]).adapter.manifest_name.is_some() implies
                            exists|w: int| 0 <= w < out@.len() && (#[trigger] out@[w])@ == cs@[k].adapter.manifest_name.unwrap()@ by {
                            if k < i {
                                let w = choose|w: int| 0 <= w < before.len() && (#[trigger] before[w])@ == cs@[k].adapter.manifest_name.unwrap()@;
                                assert(out@[w] == before[w]);
                            } else {
                                assert(out@[before.len() as int]@ == m@);
                            }
                        }
                        assert forall|mm: int| 0 <= mm < out@.len() implies some_candidate_names(cs@, #[trigger] out@[mm]) by {
                            if mm < before.len() {
                                assert(out@[mm] == before[mm]);
                            }
                        }
                    }
                } else {
                    proof {
                        assert forall|k: int| 0 <= k < i + 1 && (#[trigger] cs@[k]).adapter.manifest_name.is_some() implies
                            exists|w: int| 0 <= w < out@.len() && (#[trigger] out@[w])@ == cs@[k].adapter.manifest_name.unwrap()@ by {
                            if k == i {
                                assert(cs@[k].adapter.manifest_name.unwrap() == *m);
                            }
                        }
                    }
                }
            },
            None => {},
        }
        i += 1;
    }
    out
}

/// The server names of the candidates, in their order: the order the registry is
/// asked to keep for the language, so that adapters loaded at different times still
/// line up as the settings ask.
pub fn reorder_request(cs: &Vec<AdapterCandidate>) -> (r: Vec<String>)
    ensures
        r@.len() == cs@.len(),
        forall|k: int| 0 <= k < r@.len() ==> (#[trigger] r@[k])@ == cs@[k].adapter.name@,
{
    let mut out: Vec<String> = Vec::new();
    let mut i: usize = 0;
    while i < cs.len()
        invariant
            i <= cs@.len(),
            out@.len() == i,
            forall|k: int| 0 <= k < i ==> (#[trigger] out@[k])@ == cs@[k].adapter.name@,
        decreases cs@.len() - i,
    {
        out.push(cs[i].adapter.name.clone());
        i += 1;
    }
    out
}

} // verus!
