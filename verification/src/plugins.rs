//! The plugin layer: plugin descriptions, a manager that keeps plugins by
//! name in three kinds (circuit breakers, queues, auditors), the loader that
//! sets up the built-in plugins, and the plugin configuration.

use vstd::prelude::*;
use vstd::string::StringExecFns;
use crate::table::KeyedTable;
use crate::backoff::{ExponentialBackoffBreaker, backoff_plugin_name, backoff_description};

verus! {

/// Describes a plugin.
#[derive(Debug)]
pub struct PluginMetadata {
    pub name: String,
    pub version: String,
    pub description: String,
    pub author: String,
    pub capabilities: Vec<String>,
}

/// A plugin description as a mathematical value.
pub struct MetadataView {
    pub name: Seq<char>,
    pub version: Seq<char>,
    pub description: Seq<char>,
    pub author: Seq<char>,
    pub capabilities: Seq<Seq<char>>,
}

impl DeepView for PluginMetadata {
    type V = MetadataView;

    open spec fn deep_view(&self) -> MetadataView {
        MetadataView {
            name: self.name@,
            version: self.version@,
            description: self.description@,
            author: self.author@,
            capabilities: self.capabilities.deep_view(),
        }
    }
}

/// A copy of a list of strings.
pub fn copy_strings(v: &Vec<String>) -> (r: Vec<String>)
    ensures
        r.deep_view() == v.deep_view(),
{
    let mut r: Vec<String> = Vec::new();
    let mut i: usize = 0;
    while i < v.len()
        invariant
            i <= v@.len(),
            r.deep_view() == v.deep_view().take(i as int),
        decreases v@.len() - i,
    {
        let ghost prev = r.deep_view();
        let s = v[i].clone();
        r.push(s);
        proof {
            assert(r.deep_view() =~= prev.push(v@[i as int]@));
            assert(v.deep_view().take(i + 1) =~= v.deep_view().take(i as int).push(v@[i as int]@));
        }
        i = i + 1;
    }
    proof {
        assert(v.deep_view().take(i as int) =~= v.deep_view());
    }
    r
}

impl Clone for PluginMetadata {
    fn clone(&self) -> (r: Self)
        ensures
            r.deep_view() == self.deep_view(),
    {
        PluginMetadata {
            name: self.name.clone(),
            version: self.version.clone(),
            description: self.description.clone(),
            author: self.author.clone(),
            capabilities: copy_strings(&self.capabilities),
        }
    }
}

/// Keeps plugins by name, in three kinds: circuit breakers, queues and
/// auditors. Registering a plugin under a name that its kind already holds
/// replaces the earlier plugin.
pub struct PluginManager<C, Q, A> {
    circuit_breakers: KeyedTable<String, C>,
    queues: KeyedTable<String, Q>,
    auditors: KeyedTable<String, A>,
}

impl<C, Q, A> PluginManager<C, Q, A> {
    /// The circuit breaker plugins by name.
    pub closed spec fn circuit_breakers(&self) -> Map<Seq<char>, C> {
        self.circuit_breakers.view()
    }

    /// The queue plugins by name.
    pub closed spec fn queues(&self) -> Map<Seq<char>, Q> {
        self.queues.view()
    }

    /// The auditor plugins by name.
    pub closed spec fn auditors(&self) -> Map<Seq<char>, A> {
        self.auditors.view()
    }

    /// The three tables are well formed.
    pub closed spec fn wf(&self) -> bool {
        self.circuit_breakers.wf() && self.queues.wf() && self.auditors.wf()
    }

    /// A manager with no plugins.
    pub fn new() -> (m: Self)
        ensures
            m.wf(),
            m.circuit_breakers() == Map::<Seq<char>, C>::empty(),
            m.queues() == Map::<Seq<char>, Q>::empty(),
            m.auditors() == Map::<Seq<char>, A>::empty(),
    {
        PluginManager {
            circuit_breakers: KeyedTable::new(),
            queues: KeyedTable::new(),
            auditors: KeyedTable::new(),
        }
    }

    /// Registers a circuit breaker plugin under `name`, the name its
    /// description gives.
    pub fn register_circuit_breaker(&mut self, name: String, plugin: C)
        requires
            old(self).wf(),
        ensures
            final(self).wf(),
            final(self).circuit_breakers() == old(self).circuit_breakers().insert(name@, plugin),
            final(self).queues() == old(self).queues(),
            final(self).auditors() == old(self).auditors(),
    {
        self.circuit_breakers.insert(name, plugin);
    }

    /// Registers a queue plugin under `name`, the name its description gives.
    pub fn register_queue(&mut self, name: String, plugin: Q)
        requires
            old(self).wf(),
        ensures
            final(self).wf(),
            final(self).circuit_breakers() == old(self).circuit_breakers(),
            final(self).queues() == old(self).queues().insert(name@, plugin),
            final(self).auditors() == old(self).auditors(),
    {
        self.queues.insert(name, plugin);
    }

    /// Registers an auditor plugin under `name`, the name its description
    /// gives.
    pub fn register_auditor(&mut self, name: String, plugin: A)
        requires
            old(self).wf(),
        ensures
            final(self).wf(),
            final(self).circuit_breakers() == old(self).circuit_breakers(),
            final(self).queues() == old(self).queues(),
            final(self).auditors() == old(self).auditors().insert(name@, plugin),
    {
        self.auditors.insert(name, plugin);
    }

    /// The circuit breaker plugin registered under `name`.
    pub fn get_circuit_breaker(&self, name: &str) -> (r: Option<&C>)
        requires
            self.wf(),
        ensures
            match r {
                Some(p) => self.circuit_breakers().contains_key(name@) && *p
                    == self.circuit_breakers()[name@],
                None => !self.circuit_breakers().contains_key(name@),
            },
    {
        self.circuit_breakers.get(&String::from_str(name))
    }

    /// The queue plugin registered under `name`.
    pub fn get_queue(&self, name: &str) -> (r: Option<&Q>)
        requires
            self.wf(),
        ensures
            match r {
                Some(p) => self.queues().contains_key(name@) && *p == self.queues()[name@],
                None => !self.queues().contains_key(name@),
            },
    {
        self.queues.get(&String::from_str(name))
    }

    /// The auditor plugin registered under `name`.
    pub fn get_auditor(&self, name: &str) -> (r: Option<&A>)
        requires
            self.wf(),
        ensures
            match r {
                Some(p) => self.auditors().contains_key(name@) && *p == self.auditors()[name@],
                None => !self.auditors().contains_key(name@),
            },
    {
        self.auditors.get(&String::from_str(name))
    }

    /// The registered circuit breaker plugins, each name once.
    pub fn circuit_breaker_entries(&self) -> (r: &Vec<(String, C)>)
        requires
            self.wf(),
        ensures
            r.len() == self.circuit_breakers().len(),
            forall|i: int|
                0 <= i < r.len() ==> self.circuit_breakers().contains_key(#[trigger] r[i].0@) && r[i].1
                    == self.circuit_breakers()[r[i].0@],
            forall|i: int, j: int| 0 <= i < j < r.len() ==> #[trigger] r[i].0@ != #[trigger] r[j].0@,
            forall|k: Seq<char>| #[trigger]
                self.circuit_breakers().contains_key(k) ==> exists|i: int| 0 <= i < r.len() && r[i].0@ == k,
    {
        self.circuit_breakers.entries()
    }

    /// The registered queue plugins, each name once.
    pub fn queue_entries(&self) -> (r: &Vec<(String, Q)>)
        requires
            self.wf(),
        ensures
            r.len() == self.queues().len(),
            forall|i: int|
                0 <= i < r.len() ==> self.queues().contains_key(#[trigger] r[i].0@) && r[i].1
                    == self.queues()[r[i].0@],
            forall|i: int, j: int| 0 <= i < j < r.len() ==> #[trigger] r[i].0@ != #[trigger] r[j].0@,
            forall|k: Seq<char>| #[trigger]
                self.queues().contains_key(k) ==> exists|i: int| 0 <= i < r.len() && r[i].0@ == k,
    {
        self.queues.entries()
    }

    /// The registered auditor plugins, each name once.
    pub fn auditor_entries(&self) -> (r: &Vec<(String, A)>)
        requires
            self.wf(),
        ensures
            r.len() == self.auditors().len(),
            forall|i: int|
                0 <= i < r.len() ==> self.auditors().contains_key(#[trigger] r[i].0@) && r[i].1
                    == self.auditors()[r[i].0@],
            forall|i: int, j: int| 0 <= i < j < r.len() ==> #[trigger] r[i].0@ != #[trigger] r[j].0@,
            forall|k: Seq<char>| #[trigger]
                self.auditors().contains_key(k) ==> exists|i: int| 0 <= i < r.len() && r[i].0@ == k,
    {
        self.auditors.entries()
    }
}

/// The descriptions of the registered plugins, by kind.
pub struct PluginList {
    pub circuit_breakers: Vec<PluginMetadata>,
    pub queues: Vec<PluginMetadata>,
    pub auditors: Vec<PluginMetadata>,
}

/// `list` holds one description for each plugin of `plugins`, in some
/// order: the description that `describe` gives of it.
pub open spec fn describes_each<P, F: Fn(&P) -> PluginMetadata>(
    plugins: Map<Seq<char>, P>,
    list: Seq<PluginMetadata>,
    describe: F,
) -> bool {
    exists|names: Seq<Seq<char>>| #[trigger] lists_names_in_order(plugins, list, describe, names)
}

/// `names` lists each name of `plugins` once, and `list[i]` is what
/// `describe` gives of the plugin named `names[i]`.
pub open spec fn lists_names_in_order<P, F: Fn(&P) -> PluginMetadata>(
    plugins: Map<Seq<char>, P>,
    list: Seq<PluginMetadata>,
    describe: F,
    names: Seq<Seq<char>>,
) -> bool {
    &&& names.len() == list.len()
    &&& names.no_duplicates()
    &&& forall|k: Seq<char>| #[trigger] plugins.contains_key(k) <==> names.contains(k)
    &&& forall|i: int|
        0 <= i < list.len() ==> call_ensures(describe, (&plugins[names[i]],), #[trigger] list[i])
}

/// The descriptions of the plugins in `entries`, in their order.
fn describe_entries<P, F: Fn(&P) -> PluginMetadata>(entries: &Vec<(String, P)>, describe: &F) -> (r: Vec<
    PluginMetadata,
>)
    requires
        forall|p: &P| #[trigger] call_requires(*describe, (p,)),
    ensures
        r.len() == entries.len(),
        forall|i: int| 0 <= i < r.len() ==> call_ensures(*describe, (&entries[i].1,), #[trigger] r[i]),
{
    let mut r: Vec<PluginMetadata> = Vec::new();
    let mut i: usize = 0;
    while i < entries.len()
        invariant
            i <= entries.len(),
            r.len() == i,
            forall|p: &P| #[trigger] call_requires(*describe, (p,)),
            forall|j: int| 0 <= j < i ==> call_ensures(*describe, (&entries[j].1,), #[trigger] r[j]),
        decreases entries.len() - i,
    {
        let d = describe(&entries[i].1);
        r.push(d);
        i = i + 1;
    }
    r
}

/// The names of the entries, in their order, describe the table's plugins.
proof fn lemma_entries_describe<P, F: Fn(&P) -> PluginMetadata>(
    plugins: Map<Seq<char>, P>,
    entries: Seq<(String, P)>,
    list: Seq<PluginMetadata>,
    describe: F,
)
    requires
        entries.len() == list.len(),
        forall|i: int|
            0 <= i < entries.len() ==> plugins.contains_key(#[trigger] entries[i].0@) && entries[i].1
                == plugins[entries[i].0@],
        forall|i: int, j: int| 0 <= i < j < entries.len() ==> #[trigger] entries[i].0@ != #[trigger] entries[j].0@,
        forall|k: Seq<char>| #[trigger]
            plugins.contains_key(k) ==> exists|i: int| 0 <= i < entries.len() && entries[i].0@ == k,
        forall|i: int| 0 <= i < list.len() ==> call_ensures(describe, (&entries[i].1,), #[trigger] list[i]),
    ensures
        describes_each(plugins, list, describe),
{
    let names = Seq::new(entries.len(), |i: int| entries[i].0@);
    assert forall|k: Seq<char>| #[trigger] plugins.contains_key(k) <==> names.contains(k) by {
        if plugins.contains_key(k) {
            let i = choose|i: int| 0 <= i < entries.len() && entries[i].0@ == k;
            assert(names[i] == k);
        }
        if names.contains(k) {
            let i = choose|i: int| 0 <= i < names.len() && names[i] == k;
            assert(plugins.contains_key(entries[i].0@));
        }
    }
    assert forall|i: int| 0 <= i < list.len() implies call_ensures(describe, (&plugins[names[i]],), #[trigger] list[i]) by {
        assert(plugins.contains_key(entries[i].0@));
    }
    assert(names.no_duplicates()) by {
        assert forall|i: int, j: int| 0 <= i < names.len() && 0 <= j < names.len() && i != j implies names[i] != names[j] by {
            if i < j {
                assert(entries[i].0@ != entries[j].0@);
            } else {
                assert(entries[j].0@ != entries[i].0@);
            }
        }
    }
    assert(lists_names_in_order(plugins, list, describe, names));
}

impl<C, Q, A> PluginManager<C, Q, A> {
    /// The descriptions of all registered plugins, by kind, as `describe_breaker`,
    /// `describe_queue` and `describe_auditor` give them; within a kind in no
    /// particular order.
    pub fn list_plugins<FC: Fn(&C) -> PluginMetadata, FQ: Fn(&Q) -> PluginMetadata, FA: Fn(&A) -> PluginMetadata>(
        &self,
        describe_breaker: FC,
        describe_queue: FQ,
        describe_auditor: FA,
    ) -> (r: PluginList)
        requires
            self.wf(),
            forall|p: &C| #[trigger] call_requires(describe_breaker, (p,)),
            forall|p: &Q| #[trigger] call_requires(describe_queue, (p,)),
            forall|p: &A| #[trigger] call_requires(describe_auditor, (p,)),
        ensures
            describes_each(self.circuit_breakers(), r.circuit_breakers@, describe_breaker),
            describes_each(self.queues(), r.queues@, describe_queue),
            describes_each(self.auditors(), r.auditors@, describe_auditor),
    {
        let breaker_entries = self.circuit_breaker_entries();
        let queue_entries = self.queue_entries();
        let auditor_entries = self.auditor_entries();
        let breakers = describe_entries(breaker_entries, &describe_breaker);
        let queues = describe_entries(queue_entries, &describe_queue);
        let auditors = describe_entries(auditor_entries, &describe_auditor);
        proof {
            lemma_entries_describe(self.circuit_breakers(), breaker_entries@, breakers@, describe_breaker);
            lemma_entries_describe(self.queues(), queue_entries@, queues@, describe_queue);
            lemma_entries_describe(self.auditors(), auditor_entries@, auditors@, describe_auditor);
        }
        PluginList { circuit_breakers: breakers, queues, auditors }
    }
}

/// Sets up a plugin manager with the built-in plugins.
pub struct PluginLoader;

impl PluginLoader {
    /// A manager with the built-in plugins: a fresh exponential-backoff
    /// breaker, turned into a plugin handle by `into_plugin` and registered
    /// under the name its description gives. Plugin libraries in `dir` are
    /// not read.
    pub fn load_from_directory<C, Q, A, F: FnOnce(ExponentialBackoffBreaker) -> C>(
        dir: &str,
        into_plugin: F,
    ) -> (r: Result<PluginManager<C, Q, A>, String>)
        requires
            forall|b: ExponentialBackoffBreaker| #[trigger] call_requires(into_plugin, (b,)),
        ensures
            r matches Ok(m) && {
                &&& m.wf()
                &&& m.queues() == Map::<Seq<char>, Q>::empty()
                &&& m.auditors() == Map::<Seq<char>, A>::empty()
                &&& m.circuit_breakers().dom() == set![backoff_plugin_name()]
                &&& exists|b: ExponentialBackoffBreaker|
                    {
                        &&& b.wf()
                        &&& b.counts().is_empty()
                        &&& b.trips().is_empty()
                        &&& b.description() == backoff_description()
                        &&& #[trigger] call_ensures(
                            into_plugin,
                            (b,),
                            m.circuit_breakers()[backoff_plugin_name()],
                        )
                    }
            },
    {
        let breaker = ExponentialBackoffBreaker::new();
        let name = breaker.metadata().name;
        let ghost b = breaker;
        let plugin = into_plugin(breaker);
        let ghost p = plugin;
        let mut manager: PluginManager<C, Q, A> = PluginManager::new();
        manager.register_circuit_breaker(name, plugin);
        proof {
            assert(manager.circuit_breakers().dom() =~= set![backoff_plugin_name()]);
            assert(manager.circuit_breakers()[backoff_plugin_name()] == p);
            assert(call_ensures(into_plugin, (b,), manager.circuit_breakers()[backoff_plugin_name()]));
        }
        Ok(manager)
    }
}

/// Registering a plugin and then asking for its name gives that plugin back,
/// whatever the kind held before under that name.
pub proof fn lemma_register_then_get<P>(before: Map<Seq<char>, P>, name: Seq<char>, plugin: P)
    ensures
        before.insert(name, plugin).contains_key(name),
        before.insert(name, plugin)[name] == plugin,
{
}

/// `serde_json::Value`, a JSON value, carried as is.
#[verifier::external_type_specification]
#[verifier::external_body]
pub struct ExJsonValue(serde_json::Value);

/// Which plugins to enable, where plugin libraries live, and settings for
/// each plugin by name.
pub struct PluginConfig {
    pub enabled_plugins: Vec<String>,
    pub plugin_directory: Option<String>,
    pub plugin_settings: KeyedTable<String, serde_json::Value>,
}

impl Default for PluginConfig {
    /// The built-in breaker enabled, plugins under `./plugins`, no settings.
    fn default() -> (c: Self)
        ensures
            c.enabled_plugins.deep_view() == seq![backoff_plugin_name()],
            c.plugin_directory matches Some(d) && d@ == "./plugins"@,
            c.plugin_settings.wf(),
            c.plugin_settings.view() == Map::<Seq<char>, serde_json::Value>::empty(),
    {
        let mut enabled_plugins: Vec<String> = Vec::new();
        enabled_plugins.push(String::from_str("exponential_backoff"));
        assert(enabled_plugins.deep_view() =~= seq![backoff_plugin_name()]);
        PluginConfig {
            enabled_plugins,
            plugin_directory: Some(String::from_str("./plugins")),
            plugin_settings: KeyedTable::new(),
        }
    }
}

} // verus!
