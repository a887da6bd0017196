//! Configuration types for the gateway: providers, cache bounds, server
//! address and logging level, with their defaults.

use vstd::prelude::*;

use crate::text::str_eq;

verus! {

/// Configuration errors reported at startup.
#[derive(Debug)]
pub enum ConfigError {
    /// The named database provider kind is not known.
    InvalidDatabaseProvider(String),
    /// Any other configuration fault.
    Other(String),
}

impl ConfigError {
    /// Renders the error for startup logs.
    pub fn message(&self) -> (r: String)
        ensures
            match self {
                ConfigError::InvalidDatabaseProvider(m) => r@ == "Database provider error: "@
                    + m@,
                ConfigError::Other(m) => r@ == "Configuration error: "@ + m@,
            },
    {
        match self {
            ConfigError::InvalidDatabaseProvider(m) => String::from_str(
                "Database provider error: ",
            ).concat(m.as_str()),
            ConfigError::Other(m) => String::from_str("Configuration error: ").concat(m.as_str()),
        }
    }
}

/// The backend kinds an adapter can be built for; fixed at build time.
#[derive(Clone, Copy, PartialEq, Eq, Structural, Debug)]
pub enum DatabaseProvider {
    Mock,
    Postgres,
    AzDelta,
}

/// A string-to-string settings table, keyed uniquely.
pub struct SettingsMap {
    items: Vec<(String, String)>,
}

/// The model of a settings table: its (key, value) pairs in order.
pub type SettingsModel = Seq<(Seq<char>, Seq<char>)>;

impl View for SettingsMap {
    type V = SettingsModel;

    closed spec fn view(&self) -> SettingsModel {
        Seq::new(
            self.items@.len(),
            |i: int|
                if 0 <= i < self.items@.len() {
                    (self.items@[i].0@, self.items@[i].1@)
                } else {
                    (Seq::empty(), Seq::empty())
                },
        )
    }
}

/// The value under the first key equal to `k`, if any.
pub open spec fn settings_get(s: SettingsModel, k: Seq<char>) -> Option<Seq<char>>
    decreases s.len(),
{
    if s.len() == 0 {
        None
    } else if s[0].0 == k {
        Some(s[0].1)
    } else {
        settings_get(s.drop_first(), k)
    }
}

/// The table with `k` set to `v`: the first entry under `k` is replaced in
/// place, else a new entry is appended.
pub open spec fn settings_set(s: SettingsModel, k: Seq<char>, v: Seq<char>) -> SettingsModel
    decreases s.len(),
{
    if s.len() == 0 {
        seq![(k, v)]
    } else if s[0].0 == k {
        seq![(k, v)] + s.drop_first()
    } else {
        seq![s[0]] + settings_set(s.drop_first(), k, v)
    }
}

proof fn lemma_settings_get_found(s: SettingsModel, k: Seq<char>, i: int)
    requires
        0 <= i < s.len(),
        s[i].0 == k,
        forall|j: int| 0 <= j < i ==> (#[trigger] s[j]).0 != k,
    ensures
        settings_get(s, k) == Some(s[i].1),
    decreases i,
{
    if i > 0 {
        assert forall|j: int| 0 <= j < i - 1 implies (#[trigger] s.drop_first()[j]).0 != k by {
            assert(s.drop_first()[j] == s[j + 1]);
        }
        assert(s.drop_first()[i - 1] == s[i]);
        lemma_settings_get_found(s.drop_first(), k, i - 1);
    }
}

proof fn lemma_settings_get_absent(s: SettingsModel, k: Seq<char>)
    requires
        forall|j: int| 0 <= j < s.len() ==> (#[trigger] s[j]).0 != k,
    ensures
        settings_get(s, k) is None,
    decreases s.len(),
{
    if s.len() > 0 {
        assert forall|j: int| 0 <= j < s.drop_first().len() implies (#[trigger] s.drop_first()[j]).0
            != k by {
            assert(s.drop_first()[j] == s[j + 1]);
        }
        lemma_settings_get_absent(s.drop_first(), k);
    }
}

proof fn lemma_settings_set_found(s: SettingsModel, k: Seq<char>, v: Seq<char>, i: int)
    requires
        0 <= i < s.len(),
        s[i].0 == k,
        forall|j: int| 0 <= j < i ==> (#[trigger] s[j]).0 != k,
    ensures
        settings_set(s, k, v) == s.update(i, (k, v)),
    decreases i,
{
    if i == 0 {
        assert(seq![(k, v)] + s.drop_first() =~= s.update(0, (k, v)));
    } else {
        assert forall|j: int| 0 <= j < i - 1 implies (#[trigger] s.drop_first()[j]).0 != k by {
            assert(s.drop_first()[j] == s[j + 1]);
        }
        assert(s.drop_first()[i - 1] == s[i]);
        lemma_settings_set_found(s.drop_first(), k, v, i - 1);
        assert(seq![s[0]] + s.drop_first().update(i - 1, (k, v)) =~= s.update(i, (k, v)));
    }
}

proof fn lemma_settings_set_absent(s: SettingsModel, k: Seq<char>, v: Seq<char>)
    requires
        forall|j: int| 0 <= j < s.len() ==> (#[trigger] s[j]).0 != k,
    ensures
        settings_set(s, k, v) == s.push((k, v)),
    decreases s.len(),
{
    if s.len() == 0 {
        assert(seq![(k, v)] =~= s.push((k, v)));
    } else {
        assert forall|j: int| 0 <= j < s.drop_first().len() implies (#[trigger] s.drop_first()[j]).0
            != k by {
            assert(s.drop_first()[j] == s[j + 1]);
        }
        lemma_settings_set_absent(s.drop_first(), k, v);
        assert(seq![s[0]] + s.drop_first().push((k, v)) =~= s.push((k, v)));
    }
}

impl Clone for SettingsMap {
    fn clone(&self) -> (r: Self)
        ensures
            r@ == self@,
    {
        let mut items: Vec<(String, String)> = Vec::new();
        let mut i: usize = 0;
        while i < self.items.len()
            invariant
                i <= self.items.len(),
                items@.len() == i,
                forall|k: int|
                    0 <= k < i ==> (#[trigger] items@[k]).0@ == self.items@[k].0@ && items@[k].1@
                        == self.items@[k].1@,
            decreases self.items.len() - i,
        {
            let pair = &self.items[i];
            items.push((pair.0.clone(), pair.1.clone()));
            i = i + 1;
        }
        let r = SettingsMap { items };
        proof {
            assert(r@ =~= self@);
        }
        r
    }
}

impl SettingsMap {
    /// An empty settings table.
    pub fn new() -> (r: Self)
        ensures
            r@ == Seq::<(Seq<char>, Seq<char>)>::empty(),
    {
        let r = SettingsMap { items: Vec::new() };
        proof {
            assert(r@ =~= Seq::<(Seq<char>, Seq<char>)>::empty());
        }
        r
    }

    /// Sets `key` to `value`, replacing any earlier value under that key.
    #[verifier::loop_isolation(false)]
    pub fn insert(&mut self, key: String, value: String)
        ensures
            final(self)@ == settings_set(old(self)@, key@, value@),
    {
        let ghost old_model = self@;
        let mut i: usize = 0;
        while i < self.items.len()
            invariant
                i <= self.items.len(),
                self@ == old_model,
                old_model.len() == self.items@.len(),
                forall|k: int| 0 <= k < i ==> (#[trigger] old_model[k]).0 != key@,
            decreases self.items.len() - i,
        {
            if self.items[i].0 == key {
                proof {
                    lemma_settings_set_found(old_model, key@, value@, i as int);
                }
                self.items.remove(i);
                self.items.insert(i, (key, value));
                proof {
                    assert(self@ =~= old_model.update(i as int, (key@, value@)));
                }
                return ;
            }
            i = i + 1;
        }
        proof {
            lemma_settings_set_absent(old_model, key@, value@);
        }
        self.items.push((key, value));
        proof {
            assert(self@ =~= old_model.push((key@, value@)));
        }
    }

    /// The value stored under `key`, if any.
    #[verifier::loop_isolation(false)]
    pub fn get(&self, key: &str) -> (r: Option<&String>)
        ensures
            match r {
                Some(v) => settings_get(self@, key@) == Some(v@),
                None => settings_get(self@, key@) is None,
            },
    {
        let mut i: usize = 0;
        while i < self.items.len()
            invariant
                i <= self.items.len(),
                self@.len() == self.items@.len(),
                forall|k: int| 0 <= k < i ==> (#[trigger] self@[k]).0 != key@,
            decreases self.items.len() - i,
        {
            if str_eq(self.items[i].0.as_str(), key) {
                proof {
                    lemma_settings_get_found(self@, key@, i as int);
                }
                return Some(&self.items[i].1);
            }
            i = i + 1;
        }
        proof {
            lemma_settings_get_absent(self@, key@);
        }
        None
    }

    /// True when some entry is stored under `key`.
    pub fn contains_key(&self, key: &str) -> (r: bool)
        ensures
            r == (settings_get(self@, key@) is Some),
    {
        match self.get(key) {
            Some(_) => true,
            None => false,
        }
    }
}

/// Configuration of one data provider: its registry name, its adapter kind,
/// and the adapter's settings.
pub struct DataProviderConfig {
    pub name: String,
    pub provider: DatabaseProvider,
    pub settings: SettingsMap,
}

impl Clone for DataProviderConfig {
    fn clone(&self) -> (r: Self)
        ensures
            r.name@ == self.name@,
            r.provider == self.provider,
            r.settings@ == self.settings@,
    {
        DataProviderConfig {
            name: self.name.clone(),
            provider: self.provider,
            settings: self.settings.clone(),
        }
    }
}

/// Database configuration: the list of providers to register.
pub struct DatabaseConfig {
    pub providers: Vec<DataProviderConfig>,
}

/// Cache configuration: the capacity bound and the entry time-to-live.
#[derive(Clone, Copy)]
pub struct CacheConfig {
    pub max_entries: usize,
    pub ttl_seconds: u64,
}

/// Server configuration: the address the listener binds.
pub struct ServerConfig {
    pub bind_address: String,
}

impl Clone for ServerConfig {
    fn clone(&self) -> (r: Self)
        ensures
            r.bind_address@ == self.bind_address@,
    {
        ServerConfig { bind_address: self.bind_address.clone() }
    }
}

/// Logging configuration: the log level name.
pub struct LoggingConfig {
    pub level: String,
}

/// The whole application configuration.
pub struct AppConfig {
    pub database: DatabaseConfig,
    pub cache: CacheConfig,
    pub server: ServerConfig,
    pub logging: LoggingConfig,
}

impl Default for DatabaseConfig {
    /// One mock provider named `users`, with no settings.
    fn default() -> (r: Self)
        ensures
            r.providers@.len() == 1,
            r.providers@[0].name@ == "users"@,
            r.providers@[0].provider == DatabaseProvider::Mock,
            r.providers@[0].settings@ == Seq::<(Seq<char>, Seq<char>)>::empty(),
    {
        let mut providers: Vec<DataProviderConfig> = Vec::new();
        providers.push(
            DataProviderConfig {
                name: String::from_str("users"),
                provider: DatabaseProvider::Mock,
                settings: SettingsMap::new(),
            },
        );
        DatabaseConfig { providers }
    }
}

impl Default for CacheConfig {
    fn default() -> (r: Self)
        ensures
            r.max_entries == 10000,
            r.ttl_seconds == 300,
    {
        CacheConfig { max_entries: 10000, ttl_seconds: 300 }
    }
}

impl Default for ServerConfig {
    fn default() -> (r: Self)
        ensures
            r.bind_address@ == "127.0.0.1:6379"@,
    {
        ServerConfig { bind_address: String::from_str("127.0.0.1:6379") }
    }
}

impl Default for LoggingConfig {
    fn default() -> (r: Self)
        ensures
            r.level@ == "info"@,
    {
        LoggingConfig { level: String::from_str("info") }
    }
}

impl Default for AppConfig {
    fn default() -> (r: Self)
        ensures
            r.database.providers@.len() == 1,
            r.database.providers@[0].name@ == "users"@,
            r.database.providers@[0].provider == DatabaseProvider::Mock,
            r.cache.max_entries == 10000,
            r.cache.ttl_seconds == 300,
            r.server.bind_address@ == "127.0.0.1:6379"@,
            r.logging.level@ == "info"@,
    {
        AppConfig {
            database: DatabaseConfig::default(),
            cache: CacheConfig::default(),
            server: ServerConfig::default(),
            logging: LoggingConfig::default(),
        }
    }
}

} // verus!
