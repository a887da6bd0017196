//! The read-through storage service: a cache lookup, then on a miss the
//! named provider's adapter, with the fetched record written back to the
//! cache. Settings validation helpers for adapters live here too.

use vstd::prelude::*;

use crate::cache::Cache;
use crate::cache::CacheModel;
use crate::cache::cache_after_set;
use crate::cache::cache_keys_unique;
use crate::cache::find_key;
use crate::cache::keep_fresh;
use crate::config::AppConfig;
use crate::config::SettingsMap;
use crate::config::SettingsModel;
use crate::config::DatabaseProvider;
use crate::config::settings_get;
use crate::database::AdapterModel;
use crate::database::AdapterStep;
use crate::database::DatabaseType;
use crate::database::create_database;
use crate::database::built_adapter;
use crate::database::mock_lookup;
use crate::database::subst_braces;
use crate::record::Record;
use crate::record::RecordModel;
use crate::text::str_eq;

verus! {

/// Errors of the storage layer.
#[derive(Debug)]
pub enum StorageError {
    /// The backend failed or is unreachable.
    DatabaseError(String),
    /// The backend answered: no record under this id.
    RecordNotInDatabase(String),
    /// The cache failed internally.
    CacheError(String),
    /// The cache has no live entry under this key.
    RecordNotFoundInCache(String),
    /// The named entity does not exist.
    EntityNotFound(String),
    /// The named field does not exist.
    FieldNotFound(String),
    /// A required setting is missing or malformed.
    ConfigError(String),
    /// No provider is registered under this name.
    ProviderNotFound(String),
}

/// The views of a key list.
pub open spec fn key_views(keys: Seq<&str>) -> Seq<Seq<char>> {
    keys.map_values(|k: &str| k@)
}

/// The required keys that the settings table lacks, in the order given.
pub open spec fn missing_list(s: SettingsModel, keys: Seq<Seq<char>>) -> Seq<Seq<char>>
    decreases keys.len(),
{
    if keys.len() == 0 {
        Seq::empty()
    } else {
        let rest = missing_list(s, keys.drop_first());
        if settings_get(s, keys[0]) is None {
            seq![keys[0]] + rest
        } else {
            rest
        }
    }
}

/// The tail of a comma-separated list: `, x` for each element.
pub open spec fn join_rest(xs: Seq<Seq<char>>) -> Seq<char>
    decreases xs.len(),
{
    if xs.len() == 0 {
        Seq::empty()
    } else {
        ", "@ + xs[0] + join_rest(xs.drop_first())
    }
}

/// The elements joined with `, `.
pub open spec fn join_comma(xs: Seq<Seq<char>>) -> Seq<char> {
    if xs.len() == 0 {
        Seq::empty()
    } else {
        xs[0] + join_rest(xs.drop_first())
    }
}

/// An empty missing list means every key is present; a non-empty one means
/// some key is absent.
pub proof fn lemma_missing_list_presence(s: SettingsModel, keys: Seq<Seq<char>>)
    ensures
        missing_list(s, keys).len() == 0 ==> forall|i: int|
            0 <= i < keys.len() ==> settings_get(s, #[trigger] keys[i]) is Some,
        missing_list(s, keys).len() > 0 ==> exists|i: int|
            0 <= i < keys.len() && settings_get(s, #[trigger] keys[i]) is None,
    decreases keys.len(),
{
    if keys.len() > 0 {
        lemma_missing_list_presence(s, keys.drop_first());
        if missing_list(s, keys).len() == 0 {
            assert forall|i: int| 0 <= i < keys.len() implies settings_get(
                s,
                #[trigger] keys[i],
            ) is Some by {
                if i > 0 {
                    assert(keys.drop_first()[i - 1] == keys[i]);
                }
            }
        } else {
            if settings_get(s, keys[0]) is None {
            } else {
                let i = choose|i: int|
                    0 <= i < keys.drop_first().len() && settings_get(
                        s,
                        #[trigger] keys.drop_first()[i],
                    ) is None;
                assert(keys.drop_first()[i] == keys[i + 1]);
                assert(settings_get(s, keys[i + 1]) is None);
            }
        }
    }
}

/// Checks that every required key is present, and reports the missing ones
/// by name in one configuration error.
#[verifier::loop_isolation(false)]
pub fn assert_required_settings(settings: &SettingsMap, required_keys: &[&str]) -> (r: Result<
    (),
    StorageError,
>)
    ensures
        ({
            let missing = missing_list(settings@, key_views(required_keys@));
            match r {
                Ok(_) => missing.len() == 0,
                Err(e) => missing.len() > 0 && (e matches StorageError::ConfigError(m) && m@
                    == "Missing required settings: "@ + join_comma(missing)),
            }
        }),
{
    let ghost kv = key_views(required_keys@);
    let mut missing: Vec<&str> = Vec::new();
    let mut i: usize = 0;
    proof {
        assert(kv.skip(0) =~= kv);
        assert(key_views(missing@) =~= Seq::<Seq<char>>::empty());
        assert(Seq::<Seq<char>>::empty() + missing_list(settings@, kv) =~= missing_list(
            settings@,
            kv,
        ));
    }
    while i < required_keys.len()
        invariant
            i <= required_keys@.len(),
            kv.len() == required_keys@.len(),
            missing_list(settings@, kv) =~= key_views(missing@) + missing_list(
                settings@,
                kv.skip(i as int),
            ),
        decreases required_keys@.len() - i,
    {
        let key = required_keys[i];
        proof {
            assert(kv.skip(i as int)[0] == kv[i as int]);
            assert(kv[i as int] == key@);
            assert(kv.skip(i as int).drop_first() =~= kv.skip(i + 1));
        }
        if !settings.contains_key(key) {
            let ghost before = missing@;
            missing.push(key);
            proof {
                assert(key_views(missing@) =~= key_views(before).push(key@));
                assert(key_views(before).push(key@) + missing_list(settings@, kv.skip(i + 1)) =~=
                key_views(before) + (seq![key@] + missing_list(settings@, kv.skip(i + 1))));
            }
        }
        i = i + 1;
    }
    proof {
        assert(kv.skip(i as int) =~= Seq::<Seq<char>>::empty());
        assert(key_views(missing@) + Seq::<Seq<char>>::empty() =~= key_views(missing@));
        assert(missing_list(settings@, kv) == key_views(missing@));
    }
    if missing.len() == 0 {
        return Ok(());
    }
    let mut msg = String::from_str("Missing required settings: ");
    msg.append(missing[0]);
    proof {
        assert(key_views(missing@)[0] == missing@[0]@);
    }
    let mut j: usize = 1;
    while j < missing.len()
        invariant
            1 <= j <= missing@.len(),
            msg@ =~= "Missing required settings: "@ + key_views(missing@)[0] + join_rest(
                key_views(missing@).subrange(1, j as int),
            ),
        decreases missing@.len() - j,
    {
        msg.append(", ");
        msg.append(missing[j]);
        proof {
            let mv = key_views(missing@);
            assert(mv[j as int] == missing@[j as int]@);
            lemma_join_rest_take_succ(mv, j as int);
        }
        j = j + 1;
    }
    proof {
        let mv = key_views(missing@);
        assert(mv.subrange(1, j as int) =~= mv.drop_first());
        assert(msg@ =~= "Missing required settings: "@ + join_comma(mv));
    }
    Err(StorageError::ConfigError(msg))
}

proof fn lemma_join_rest_take_succ(mv: Seq<Seq<char>>, j: int)
    requires
        1 <= j < mv.len(),
    ensures
        join_rest(mv.subrange(1, j + 1)) == join_rest(mv.subrange(1, j)) + (", "@ + mv[j]),
    decreases j,
{
    if j == 1 {
        assert(mv.subrange(1, 2)[0] == mv[1]);
        assert(mv.subrange(1, 2).drop_first() =~= Seq::<Seq<char>>::empty());
        assert(mv.subrange(1, 1) =~= Seq::<Seq<char>>::empty());
        assert(join_rest(mv.subrange(1, 2)) == ", "@ + mv[1] + join_rest(
            Seq::<Seq<char>>::empty(),
        ));
        assert((", "@ + mv[1]) + Seq::<char>::empty() =~= ", "@ + mv[1]);
        assert(Seq::<char>::empty() + (", "@ + mv[1]) =~= (", "@ + mv[1]) + Seq::<char>::empty());
    } else {
        let ys = mv.drop_first();
        lemma_join_rest_take_succ(ys, j - 1);
        assert(mv.subrange(1, j + 1) =~= ys.subrange(0, j));
        assert(mv.subrange(1, j) =~= ys.subrange(0, j - 1));
        assert(ys.subrange(0, j) =~= ys.subrange(1, j).insert(0, ys[0]));
        assert(ys.subrange(0, j)[0] == ys[0]);
        assert(ys.subrange(0, j).drop_first() =~= ys.subrange(1, j));
        assert(ys.subrange(0, j - 1)[0] == ys[0]);
        assert(ys.subrange(0, j - 1).drop_first() =~= ys.subrange(1, j - 1));
        assert(join_rest(ys.subrange(0, j)) == ", "@ + ys[0] + join_rest(ys.subrange(1, j)));
        assert(join_rest(ys.subrange(0, j - 1)) == ", "@ + ys[0] + join_rest(
            ys.subrange(1, j - 1),
        ));
        assert(ys[j - 1] == mv[j]);
        assert((", "@ + ys[0] + (join_rest(ys.subrange(1, j - 1)) + (", "@ + mv[j]))) =~= ((", "@
            + ys[0] + join_rest(ys.subrange(1, j - 1))) + (", "@ + mv[j])));
    }
}

/// The decimal value of `s` read as a port number, unless a non-digit
/// appears or the value tops 65535.
pub open spec fn port_value(s: Seq<char>, acc: int) -> Option<int>
    decreases s.len(),
        when 0 <= acc <= 65535
{
    if s.len() == 0 {
        Some(acc)
    } else if !('0' <= s[0] <= '9') {
        None
    } else if acc * 10 + (s[0] as int - 48) > 65535 {
        None
    } else {
        port_value(s.drop_first(), acc * 10 + (s[0] as int - 48))
    }
}

/// A non-empty all-digit port text whose value fits 16 bits.
pub open spec fn is_valid_port(s: Seq<char>) -> bool {
    s.len() > 0 && port_value(s, 0) is Some
}

/// Checks the port text; digits only, value at most 65535.
#[verifier::loop_isolation(false)]
fn port_ok(s: &str) -> (r: bool)
    ensures
        r == is_valid_port(s@),
{
    let n = s.unicode_len();
    if n == 0 {
        return false;
    }
    let mut acc: u32 = 0;
    let mut i: usize = 0;
    proof {
        assert(s@.skip(0) =~= s@);
    }
    while i < n
        invariant
            i <= n,
            n == s@.len(),
            0 <= acc <= 65535,
            port_value(s@, 0) == port_value(s@.skip(i as int), acc as int),
        decreases n - i,
    {
        let c = s.get_char(i);
        proof {
            assert(s@.skip(i as int)[0] == c);
            assert(s@.skip(i as int).drop_first() =~= s@.skip(i + 1));
        }
        if c < '0' || c > '9' {
            return false;
        }
        let d = (c as u32) - 48;
        if acc * 10 + d > 65535 {
            return false;
        }
        acc = acc * 10 + d;
        i = i + 1;
    }
    proof {
        assert(s@.skip(n as int) =~= Seq::<char>::empty());
    }
    true
}

/// Validates a database connection settings table: `host`, `port`, `user`,
/// `password` and `database` must be present, and the port text must be a
/// decimal number of at most 65535.
pub fn validate_connection_settings(settings: &SettingsMap) -> (r: Result<(), StorageError>)
    ensures
        ({
            let keys = seq!["host"@, "port"@, "user"@, "password"@, "database"@];
            match r {
                Ok(_) => missing_list(settings@, keys).len() == 0 && (settings_get(
                    settings@,
                    "port"@,
                ) matches Some(p) && is_valid_port(p)),
                Err(e) => e is ConfigError && (missing_list(settings@, keys).len() > 0 || !(
                settings_get(settings@, "port"@) matches Some(p) && is_valid_port(p))),
            }
        }),
{
    let required_keys: Vec<&str> = {
        let mut v: Vec<&str> = Vec::new();
        v.push("host");
        v.push("port");
        v.push("user");
        v.push("password");
        v.push("database");
        v
    };
    proof {
        assert(key_views(required_keys@) =~= seq![
            "host"@,
            "port"@,
            "user"@,
            "password"@,
            "database"@,
        ]);
    }
    match assert_required_settings(settings, required_keys.as_slice()) {
        Err(e) => {
            return Err(e);
        },
        Ok(_) => {},
    }
    proof {
        let keys = seq!["host"@, "port"@, "user"@, "password"@, "database"@];
        assert(settings_get(settings@, "port"@) is Some) by {
            if settings_get(settings@, "port"@) is None {
                assert(keys.drop_first()[0] == "port"@);
                assert(missing_list(settings@, keys.drop_first()).len() > 0);
                assert(missing_list(settings@, keys).len() > 0);
            }
        }
    }
    match settings.get("port") {
        Some(port) => {
            if port_ok(port.as_str()) {
                Ok(())
            } else {
                Err(
                    StorageError::ConfigError(
                        String::from_str("Port must be a valid number between 0 and 65535"),
                    ),
                )
            }
        },
        None => Err(StorageError::ConfigError(String::from_str("port setting missing"))),
    }
}

/// The adapter registered under `name`, if any.
pub open spec fn provider_lookup(ps: Seq<(Seq<char>, AdapterModel)>, name: Seq<char>) -> Option<
    AdapterModel,
>
    decreases ps.len(),
{
    if ps.len() == 0 {
        None
    } else if ps[0].0 == name {
        Some(ps[0].1)
    } else {
        provider_lookup(ps.drop_first(), name)
    }
}

/// A query that a remote engine must run to finish a lookup.
pub struct BackendQuery {
    /// The provider whose adapter asked for the query.
    pub provider: String,
    /// The record id being fetched.
    pub id: String,
    /// The SQL text to run.
    pub query: String,
}

/// What one `fetch_record` call produces.
pub enum FetchStep {
    /// The lookup finished locally: the record, or why there is none.
    Done(Result<Record, StorageError>),
    /// A remote engine must run this query; `complete_fetch` finishes the
    /// lookup from its rows.
    Backend(BackendQuery),
}

/// The model of a fetch outcome. A cache hit and a mock answer carry the
/// record; the two distinguish whether the adapter was consulted.
pub ghost enum FetchModel {
    Hit(RecordModel),
    MissOk(RecordModel),
    NoProvider,
    NoRecord,
    Remote(Seq<char>),
}

/// The outcome and the cache left behind by one fetch of `(p, id)` at time
/// `now`, over the service's model: a fresh cache hit answers directly and
/// refreshes recency; otherwise the provider's adapter decides, and a
/// record it returns is written back to the cache.
pub open spec fn svc_fetch(
    providers: Seq<(Seq<char>, AdapterModel)>,
    cache: CacheModel,
    cap: int,
    ttl: int,
    p: Seq<char>,
    id: Seq<char>,
    now: int,
) -> (FetchModel, CacheModel) {
    let kf = keep_fresh(cache, now);
    match find_key(kf, p, id) {
        Some(j) => (FetchModel::Hit(kf[j].record), kf.remove(j).push(kf[j])),
        None => match provider_lookup(providers, p) {
            None => (FetchModel::NoProvider, kf),
            Some(am) => match am {
                AdapterModel::MockM(data) => match mock_lookup(data, p, id) {
                    Some(rm) => (FetchModel::MissOk(rm), cache_after_set(kf, p, id, rm, now, ttl, cap)),
                    None => (FetchModel::NoRecord, kf),
                },
                AdapterModel::PostgresM => (FetchModel::NoRecord, kf),
                AdapterModel::AzDeltaM { record_query } => (
                    FetchModel::Remote(subst_braces(record_query, id)),
                    kf,
                ),
            },
        },
    }
}

/// The exec fetch result that a fetch model calls for.
pub open spec fn fetch_matches(r: &FetchStep, fm: FetchModel, p: Seq<char>, id: Seq<char>) -> bool {
    match fm {
        FetchModel::Hit(rm) => r matches FetchStep::Done(Ok(rec)) && rec@ == rm,
        FetchModel::MissOk(rm) => r matches FetchStep::Done(Ok(rec)) && rec@ == rm,
        FetchModel::NoProvider => r matches FetchStep::Done(Err(e)) && e is ProviderNotFound,
        FetchModel::NoRecord => r matches FetchStep::Done(Err(e)) && e is RecordNotInDatabase,
        FetchModel::Remote(q) => r matches FetchStep::Backend(b) && b.query@ == q && b.provider@
            == p && b.id@ == id,
    }
}

/// The storage service: the provider registry in front of the record cache.
pub struct StorageService {
    providers: Vec<(String, DatabaseType)>,
    cache: Cache,
}

impl StorageService {
    /// The registered providers, in registration order.
    pub closed spec fn providers(&self) -> Seq<(Seq<char>, AdapterModel)> {
        Seq::new(
            self.providers@.len(),
            |i: int|
                if 0 <= i < self.providers@.len() {
                    (self.providers@[i].0@, self.providers@[i].1@)
                } else {
                    (Seq::empty(), AdapterModel::PostgresM)
                },
        )
    }

    /// The cache contents, in recency order.
    pub closed spec fn cache_entries(&self) -> CacheModel {
        self.cache.entries()
    }

    /// The cache capacity bound.
    pub closed spec fn cache_cap(&self) -> int {
        self.cache.cap()
    }

    /// The cache time-to-live, in seconds.
    pub closed spec fn cache_ttl(&self) -> int {
        self.cache.ttl()
    }

    /// Service sanity: the cache is well formed.
    pub closed spec fn wf(&self) -> bool {
        self.cache.wf()
    }

    /// Builds one adapter per configured provider and an empty cache.
    /// Construction fails exactly when some provider's settings are
    /// incomplete for its adapter kind.
    #[verifier::loop_isolation(false)]
    pub fn new(config: &AppConfig) -> (r: Result<Self, StorageError>)
        ensures
            match r {
                Ok(svc) => svc.wf() && svc.cache_entries() == Seq::<
                    crate::cache::CacheEntryModel,
                >::empty() && svc.cache_cap() == config.cache.max_entries as int && svc.cache_ttl()
                    == config.cache.ttl_seconds as int && svc.providers().len()
                    == config.database.providers@.len() && (forall|i: int|
                    0 <= i < config.database.providers@.len() ==> built_adapter(
                        config.database.providers@[i].provider,
                        config.database.providers@[i].settings@,
                    ) == Some((#[trigger] svc.providers()[i]).1) && svc.providers()[i].0
                        == config.database.providers@[i].name@),
                Err(e) => e is ConfigError && exists|i: int|
                    0 <= i < config.database.providers@.len() && built_adapter(
                        (#[trigger] config.database.providers@[i]).provider,
                        config.database.providers@[i].settings@,
                    ) is None,
            },
    {
        let mut providers: Vec<(String, DatabaseType)> = Vec::new();
        let mut i: usize = 0;
        while i < config.database.providers.len()
            invariant
                i <= config.database.providers@.len(),
                providers@.len() == i,
                forall|k: int|
                    0 <= k < i ==> built_adapter(
                        config.database.providers@[k].provider,
                        config.database.providers@[k].settings@,
                    ) == Some((#[trigger] providers@[k]).1@) && providers@[k].0@
                        == config.database.providers@[k].name@,
            decreases config.database.providers@.len() - i,
        {
            let cfg = &config.database.providers[i];
            match create_database(&cfg.provider, cfg.settings.clone()) {
                Ok(db) => {
                    providers.push((cfg.name.clone(), db));
                },
                Err(e) => {
                    return Err(e);
                },
            }
            i = i + 1;
        }
        let svc = StorageService { providers, cache: Cache::new(config.cache) };
        proof {
            assert(svc.cache_entries() =~= Seq::<crate::cache::CacheEntryModel>::empty());
            assert forall|k: int| 0 <= k < config.database.providers@.len() implies built_adapter(
                config.database.providers@[k].provider,
                config.database.providers@[k].settings@,
            ) == Some((#[trigger] svc.providers()[k]).1) && svc.providers()[k].0
                == config.database.providers@[k].name@ by {
                assert(svc.providers()[k] == (svc.providers@[k].0@, svc.providers@[k].1@));
            }
        }
        Ok(svc)
    }

    /// The adapter registered under `name`, if any.
    #[verifier::loop_isolation(false)]
    fn find_provider(&self, name: &str) -> (r: Option<&DatabaseType>)
        ensures
            match r {
                Some(db) => provider_lookup(self.providers(), name@) == Some(db@),
                None => provider_lookup(self.providers(), name@) is None,
            },
    {
        let mut i: usize = 0;
        while i < self.providers.len()
            invariant
                i <= self.providers@.len(),
                self.providers().len() == self.providers@.len(),
                forall|k: int| 0 <= k < i ==> (#[trigger] self.providers()[k]).0 != name@,
            decreases self.providers@.len() - i,
        {
            if str_eq(self.providers[i].0.as_str(), name) {
                proof {
                    lemma_provider_lookup_found(self.providers(), name@, i as int);
                }
                return Some(&self.providers[i].1);
            }
            i = i + 1;
        }
        proof {
            lemma_provider_lookup_absent(self.providers(), name@);
        }
        None
    }

    /// One read-through fetch of `(provider_name, id)` at time `now`: the
    /// cache answers a fresh hit; otherwise the provider's adapter answers
    /// or hands back the query a remote engine must run. A record fetched
    /// from an adapter is written back to the cache.
    pub fn fetch_record(&mut self, provider_name: &str, id: &str, now: u64) -> (r: FetchStep)
        requires
            old(self).wf(),
        ensures
            final(self).wf(),
            final(self).providers() == old(self).providers(),
            final(self).cache_cap() == old(self).cache_cap(),
            final(self).cache_ttl() == old(self).cache_ttl(),
            ({
                let (fm, c2) = svc_fetch(
                    old(self).providers(),
                    old(self).cache_entries(),
                    old(self).cache_cap(),
                    old(self).cache_ttl(),
                    provider_name@,
                    id@,
                    now as int,
                );
                fetch_matches(&r, fm, provider_name@, id@) && final(self).cache_entries() == c2
            }),
    {
        let ghost old_cache = self.cache.entries();
        let ghost t = now as int;
        proof {
            crate::cache::lemma_keep_fresh_props(old_cache, t);
        }
        let ghost kf = keep_fresh(old_cache, t);
        match self.cache.get(provider_name, id, now) {
            Some(rec) => {
                return FetchStep::Done(Ok(rec));
            },
            None => {},
        }
        proof {
            assert forall|i: int| 0 <= i < kf.len() implies (#[trigger] kf[i]).expires_at > t by {
                assert(keep_fresh(old_cache, t)[i].expires_at > t);
            }
            crate::cache::lemma_keep_fresh_idempotent(kf, t);
        }
        let step = match self.find_provider(provider_name) {
            None => {
                return FetchStep::Done(
                    Err(
                        StorageError::ProviderNotFound(
                            String::from_str("No provider registered under this name"),
                        ),
                    ),
                );
            },
            Some(db) => db.fetch_record(provider_name, id),
        };
        match step {
            AdapterStep::RemoteQuery(query) => FetchStep::Backend(
                BackendQuery {
                    provider: String::from_str(provider_name),
                    id: String::from_str(id),
                    query,
                },
            ),
            AdapterStep::NoRecord => FetchStep::Done(
                Err(StorageError::RecordNotInDatabase(String::from_str("Record not found"))),
            ),
            AdapterStep::Rows(rows) => {
                if rows.len() == 0 {
                    FetchStep::Done(
                        Err(
                            StorageError::RecordNotInDatabase(
                                String::from_str("Record not found"),
                            ),
                        ),
                    )
                } else {
                    let rec = rows[0].clone();
                    self.cache.set(provider_name, id, &rec, now);
                    FetchStep::Done(Ok(rec))
                }
            },
        }
    }

    /// Finishes a remote lookup from the rows the engine returned: an engine
    /// error surfaces as a backend error, no rows as the missing record, and
    /// the first row is cached and returned.
    pub fn complete_fetch(
        &mut self,
        provider_name: &str,
        id: &str,
        rows: Result<Vec<Record>, String>,
        now: u64,
    ) -> (r: Result<Record, StorageError>)
        requires
            old(self).wf(),
        ensures
            final(self).wf(),
            final(self).providers() == old(self).providers(),
            final(self).cache_cap() == old(self).cache_cap(),
            final(self).cache_ttl() == old(self).cache_ttl(),
            match rows {
                Err(msg) => r matches Err(StorageError::DatabaseError(m)) && m@ == msg@
                    && final(self).cache_entries() == old(self).cache_entries(),
                Ok(v) => {
                    if v@.len() == 0 {
                        r matches Err(e) && e is RecordNotInDatabase && final(self).cache_entries()
                            == old(self).cache_entries()
                    } else {
                        r matches Ok(rec) && rec@ == v@[0]@ && final(self).cache_entries()
                            == cache_after_set(
                            keep_fresh(old(self).cache_entries(), now as int),
                            provider_name@,
                            id@,
                            v@[0]@,
                            now as int,
                            old(self).cache_ttl(),
                            old(self).cache_cap(),
                        )
                    }
                },
            },
    {
        match rows {
            Err(msg) => Err(StorageError::DatabaseError(msg)),
            Ok(v) => {
                if v.len() == 0 {
                    Err(
                        StorageError::RecordNotInDatabase(
                            String::from_str("Remote query returned no rows"),
                        ),
                    )
                } else {
                    let rec = v[0].clone();
                    self.cache.set(provider_name, id, &rec, now);
                    Ok(rec)
                }
            },
        }
    }
}

proof fn lemma_provider_lookup_found(ps: Seq<(Seq<char>, AdapterModel)>, name: Seq<char>, i: int)
    requires
        0 <= i < ps.len(),
        ps[i].0 == name,
        forall|j: int| 0 <= j < i ==> (#[trigger] ps[j]).0 != name,
    ensures
        provider_lookup(ps, name) == Some(ps[i].1),
    decreases i,
{
    if i > 0 {
        assert forall|j: int| 0 <= j < i - 1 implies (#[trigger] ps.drop_first()[j]).0 != name by {
            assert(ps.drop_first()[j] == ps[j + 1]);
        }
        assert(ps.drop_first()[i - 1] == ps[i]);
        lemma_provider_lookup_found(ps.drop_first(), name, i - 1);
    }
}

proof fn lemma_provider_lookup_absent(ps: Seq<(Seq<char>, AdapterModel)>, name: Seq<char>)
    requires
        forall|j: int| 0 <= j < ps.len() ==> (#[trigger] ps[j]).0 != name,
    ensures
        provider_lookup(ps, name) is None,
    decreases ps.len(),
{
    if ps.len() > 0 {
        assert forall|j: int| 0 <= j < ps.drop_first().len() implies (#[trigger] ps.drop_first()[j]).0
            != name by {
            assert(ps.drop_first()[j] == ps[j + 1]);
        }
        lemma_provider_lookup_absent(ps.drop_first(), name);
    }
}

} // verus!

verus! {

/// After a record is written over fresh entries that lacked its key, any
/// fetch of that key before the entry expires is a cache hit on exactly
/// that record.
pub proof fn lemma_write_then_hit(
    providers: Seq<(Seq<char>, AdapterModel)>,
    kf: CacheModel,
    cap: int,
    ttl: int,
    p: Seq<char>,
    id: Seq<char>,
    rm: RecordModel,
    now1: int,
    now2: int,
)
    requires
        cache_keys_unique(kf),
        kf.len() <= cap,
        cap >= 1,
        find_key(kf, p, id) is None,
        now1 <= now2,
        now2 < now1 + ttl,
        now2 < u64::MAX,
    ensures
        svc_fetch(
            providers,
            cache_after_set(kf, p, id, rm, now1, ttl, cap),
            cap,
            ttl,
            p,
            id,
            now2,
        ).0 == FetchModel::Hit(rm),
{
    let exp: int = if now1 + ttl > u64::MAX {
        u64::MAX as int
    } else {
        now1 + ttl
    };
    assert(exp > now2);
    let entry = crate::cache::CacheEntryModel { provider: p, id: id, record: rm, expires_at: exp };
    let appended = kf.push(entry);
    let c1 = cache_after_set(kf, p, id, rm, now1, ttl, cap);
    crate::cache::lemma_find_key_props(kf, p, id);
    assert(c1.len() >= 1 && c1.last() == entry && cache_keys_unique(c1)) by {
        if appended.len() > cap {
            assert(c1 == appended.subrange(appended.len() - cap, appended.len() as int));
            assert(c1.last() == appended.last());
            let off = appended.len() - c1.len();
            assert forall|a: int, b: int| 0 <= a < b < c1.len() implies !((
            #[trigger] c1[a]).provider == (#[trigger] c1[b]).provider && c1[a].id == c1[b].id) by {
                assert(c1[a] == appended[a + off] && c1[b] == appended[b + off]);
                lemma_appended_unique(kf, entry, p, id);
            }
        } else {
            assert(c1 == appended);
            lemma_appended_unique(kf, entry, p, id);
        }
    }
    let kf2 = keep_fresh(c1, now2);
    crate::cache::lemma_keep_fresh_props(c1, now2);
    lemma_keep_fresh_last(c1, now2);
    assert(kf2.len() >= 1 && kf2.last() == entry);
    crate::cache::lemma_find_key_props(kf2, p, id);
    match find_key(kf2, p, id) {
        None => {
            assert(!(kf2[kf2.len() - 1].provider == p && kf2[kf2.len() - 1].id == id));
            assert(false);
        },
        Some(j) => {
            assert(kf2[j].provider == p && kf2[j].id == id);
            if j != kf2.len() - 1 {
                assert(!((kf2[j]).provider == (kf2[kf2.len() - 1]).provider && kf2[j].id
                    == kf2[kf2.len() - 1].id));
                assert(false);
            }
            assert(kf2[j].record == rm);
        },
    }
}

proof fn lemma_appended_unique(
    kf: CacheModel,
    entry: crate::cache::CacheEntryModel,
    p: Seq<char>,
    id: Seq<char>,
)
    requires
        cache_keys_unique(kf),
        find_key(kf, p, id) is None,
        entry.provider == p,
        entry.id == id,
    ensures
        cache_keys_unique(kf.push(entry)),
{
    crate::cache::lemma_find_key_props(kf, p, id);
    let appended = kf.push(entry);
    assert forall|a: int, b: int| 0 <= a < b < appended.len() implies !((
    #[trigger] appended[a]).provider == (#[trigger] appended[b]).provider && appended[a].id
        == appended[b].id) by {
        if b == appended.len() - 1 {
            assert(appended[a] == kf[a]);
            assert(!(kf[a].provider == p && kf[a].id == id));
        } else {
            assert(appended[a] == kf[a] && appended[b] == kf[b]);
        }
    }
}

/// The last entry survives the freshness scan when it is fresh.
proof fn lemma_keep_fresh_last(s: CacheModel, now: int)
    requires
        s.len() > 0,
        s.last().expires_at > now,
    ensures
        keep_fresh(s, now).len() > 0,
        keep_fresh(s, now).last() == s.last(),
    decreases s.len(),
{
    if s.len() == 1 {
        assert(keep_fresh(s, now) == seq![s[0]] + keep_fresh(s.drop_first(), now));
        assert(s.drop_first().len() == 0);
        assert(keep_fresh(s, now) =~= seq![s[0]]);
    } else {
        let ys = s.drop_first();
        assert(ys.last() == s.last());
        lemma_keep_fresh_last(ys, now);
        if s[0].expires_at > now {
            assert(keep_fresh(s, now) == seq![s[0]] + keep_fresh(ys, now));
            assert(keep_fresh(s, now).last() == keep_fresh(ys, now).last());
        }
    }
}

/// Read-through law: when the cache has no live entry for `(p, id)` and the
/// provider's mock data holds the record, the first fetch consults the
/// adapter (a miss answered by the backend) and writes the record back; a
/// second fetch of the same key before the entry expires is answered by the
/// cache alone, so two consecutive fetches within the time-to-live make
/// exactly one adapter call.
pub proof fn lemma_read_through(
    providers: Seq<(Seq<char>, AdapterModel)>,
    cache: CacheModel,
    cap: int,
    ttl: int,
    p: Seq<char>,
    id: Seq<char>,
    data: crate::database::MockModel,
    rm: RecordModel,
    now1: int,
    now2: int,
)
    requires
        cache_keys_unique(cache),
        cache.len() <= cap,
        cap >= 1,
        find_key(keep_fresh(cache, now1), p, id) is None,
        provider_lookup(providers, p) == Some(AdapterModel::MockM(data)),
        mock_lookup(data, p, id) == Some(rm),
        now1 <= now2,
        now2 < now1 + ttl,
        now2 < u64::MAX,
    ensures
        svc_fetch(providers, cache, cap, ttl, p, id, now1).0 == FetchModel::MissOk(rm),
        svc_fetch(
            providers,
            svc_fetch(providers, cache, cap, ttl, p, id, now1).1,
            cap,
            ttl,
            p,
            id,
            now2,
        ).0 == FetchModel::Hit(rm),
{
    let kf = keep_fresh(cache, now1);
    crate::cache::lemma_keep_fresh_props(cache, now1);
    let (f1, c1) = svc_fetch(providers, cache, cap, ttl, p, id, now1);
    assert(f1 == FetchModel::MissOk(rm));
    assert(c1 == cache_after_set(kf, p, id, rm, now1, ttl, cap));
    lemma_write_then_hit(providers, kf, cap, ttl, p, id, rm, now1, now2);
}

/// Read-through law for a remote provider: when the cache has no live entry
/// for `(p, id)` and the provider is remote-backed, the first fetch hands
/// back exactly one query; once its row completes the lookup, a second
/// fetch of the same key before the entry expires is answered by the cache
/// alone, with no further query.
pub proof fn lemma_read_through_remote(
    providers: Seq<(Seq<char>, AdapterModel)>,
    cache: CacheModel,
    cap: int,
    ttl: int,
    p: Seq<char>,
    id: Seq<char>,
    template: Seq<char>,
    rm: RecordModel,
    now1: int,
    now2: int,
)
    requires
        cache_keys_unique(cache),
        cache.len() <= cap,
        cap >= 1,
        find_key(keep_fresh(cache, now1), p, id) is None,
        provider_lookup(providers, p) == Some(AdapterModel::AzDeltaM { record_query: template }),
        now1 <= now2,
        now2 < now1 + ttl,
        now2 < u64::MAX,
    ensures
        svc_fetch(providers, cache, cap, ttl, p, id, now1).0 == FetchModel::Remote(
            subst_braces(template, id),
        ),
        svc_fetch(
            providers,
            cache_after_set(
                keep_fresh(svc_fetch(providers, cache, cap, ttl, p, id, now1).1, now1),
                p,
                id,
                rm,
                now1,
                ttl,
                cap,
            ),
            cap,
            ttl,
            p,
            id,
            now2,
        ).0 == FetchModel::Hit(rm),
{
    let kf = keep_fresh(cache, now1);
    crate::cache::lemma_keep_fresh_props(cache, now1);
    let (f1, c1) = svc_fetch(providers, cache, cap, ttl, p, id, now1);
    assert(c1 == kf);
    assert forall|i: int| 0 <= i < kf.len() implies (#[trigger] kf[i]).expires_at > now1 by {
        assert(keep_fresh(cache, now1)[i].expires_at > now1);
    }
    crate::cache::lemma_keep_fresh_idempotent(kf, now1);
    lemma_write_then_hit(providers, kf, cap, ttl, p, id, rm, now1, now2);
}

} // verus!
