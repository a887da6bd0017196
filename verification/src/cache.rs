//! The in-process record cache: capacity-bounded, time-to-live expiry, and
//! least-recently-used eviction. Entries live in recency order, least
//! recently used first; time is a caller-supplied clock in seconds.

use vstd::prelude::*;

use crate::config::CacheConfig;
use crate::record::Record;
use crate::record::RecordModel;
use crate::text::str_eq;

verus! {

/// One cached record under its composite key, with its expiry instant.
struct CacheEntry {
    provider: String,
    id: String,
    record: Record,
    expires_at: u64,
}

/// The model of a cache entry.
pub ghost struct CacheEntryModel {
    pub provider: Seq<char>,
    pub id: Seq<char>,
    pub record: RecordModel,
    pub expires_at: int,
}

/// The model of the cache: entries in recency order, least recent first.
pub type CacheModel = Seq<CacheEntryModel>;

/// The index of the entry under key `(p, id)`, if one is present.
pub open spec fn find_key(s: CacheModel, p: Seq<char>, id: Seq<char>) -> Option<int>
    decreases s.len(),
{
    if s.len() == 0 {
        None
    } else if s[0].provider == p && s[0].id == id {
        Some(0int)
    } else {
        match find_key(s.drop_first(), p, id) {
            Some(j) => Some(j + 1),
            None => None,
        }
    }
}

/// No two entries share a key.
pub open spec fn cache_keys_unique(s: CacheModel) -> bool {
    forall|i: int, j: int|
        0 <= i < j < s.len() ==> !((#[trigger] s[i]).provider == (#[trigger] s[j]).provider
            && s[i].id == s[j].id)
}

/// The entries still fresh at `now`, in order.
pub open spec fn keep_fresh(s: CacheModel, now: int) -> CacheModel
    decreases s.len(),
{
    if s.len() == 0 {
        Seq::empty()
    } else if s[0].expires_at > now {
        seq![s[0]] + keep_fresh(s.drop_first(), now)
    } else {
        keep_fresh(s.drop_first(), now)
    }
}

proof fn lemma_find_key_found(s: CacheModel, p: Seq<char>, id: Seq<char>, i: int)
    requires
        0 <= i < s.len(),
        s[i].provider == p && s[i].id == id,
        forall|j: int| 0 <= j < i ==> !((#[trigger] s[j]).provider == p && s[j].id == id),
    ensures
        find_key(s, p, id) == Some(i),
    decreases i,
{
    if i > 0 {
        assert(!(s[0].provider == p && s[0].id == id));
        assert forall|j: int| 0 <= j < i - 1 implies !((#[trigger] s.drop_first()[j]).provider == p
            && s.drop_first()[j].id == id) by {
            assert(s.drop_first()[j] == s[j + 1]);
        }
        assert(s.drop_first()[i - 1] == s[i]);
        lemma_find_key_found(s.drop_first(), p, id, i - 1);
    }
}

proof fn lemma_find_key_absent(s: CacheModel, p: Seq<char>, id: Seq<char>)
    requires
        forall|j: int| 0 <= j < s.len() ==> !((#[trigger] s[j]).provider == p && s[j].id == id),
    ensures
        find_key(s, p, id) is None,
    decreases s.len(),
{
    if s.len() > 0 {
        assert forall|j: int| 0 <= j < s.drop_first().len() implies !((#[trigger] s.drop_first()[j]).provider
            == p && s.drop_first()[j].id == id) by {
            assert(s.drop_first()[j] == s[j + 1]);
        }
        lemma_find_key_absent(s.drop_first(), p, id);
    }
}

/// What `find_key` returns points at the key, and nothing else matches it.
pub proof fn lemma_find_key_props(s: CacheModel, p: Seq<char>, id: Seq<char>)
    ensures
        match find_key(s, p, id) {
            Some(j) => 0 <= j < s.len() && s[j].provider == p && s[j].id == id,
            None => forall|i: int|
                0 <= i < s.len() ==> !((#[trigger] s[i]).provider == p && s[i].id == id),
        },
    decreases s.len(),
{
    if s.len() > 0 {
        lemma_find_key_props(s.drop_first(), p, id);
        if !(s[0].provider == p && s[0].id == id) {
            match find_key(s.drop_first(), p, id) {
                Some(j) => {
                    assert(s.drop_first()[j] == s[j + 1]);
                },
                None => {
                    assert forall|i: int| 0 <= i < s.len() implies !((#[trigger] s[i]).provider
                        == p && s[i].id == id) by {
                        if i > 0 {
                            assert(s.drop_first()[i - 1] == s[i]);
                        }
                    }
                },
            }
        }
    }
}

/// Peeling one entry off the end of a processed prefix of `keep_fresh`.
proof fn lemma_keep_fresh_take_succ(s: CacheModel, now: int, i: int)
    requires
        0 <= i < s.len(),
    ensures
        keep_fresh(s.take(i + 1), now) == if s[i].expires_at > now {
            keep_fresh(s.take(i), now).push(s[i])
        } else {
            keep_fresh(s.take(i), now)
        },
    decreases i,
{
    if i == 0 {
        assert(s.take(1)[0] == s[0]);
        assert(s.take(1).drop_first() =~= Seq::<CacheEntryModel>::empty());
        assert(s.take(0) =~= Seq::<CacheEntryModel>::empty());
        if s[0].expires_at > now {
            assert(seq![s[0]] + Seq::<CacheEntryModel>::empty() =~= Seq::<
                CacheEntryModel,
            >::empty().push(s[0]));
        }
    } else {
        let ys = s.drop_first();
        lemma_keep_fresh_take_succ(ys, now, i - 1);
        assert(s.take(i + 1)[0] == s[0]);
        assert(s.take(i)[0] == s[0]);
        assert(s.take(i + 1).drop_first() =~= ys.take(i));
        assert(s.take(i).drop_first() =~= ys.take(i - 1));
        assert(ys[i - 1] == s[i]);
        if s[0].expires_at > now {
            if s[i].expires_at > now {
                assert(seq![s[0]] + keep_fresh(ys.take(i - 1), now).push(s[i]) =~= (seq![s[0]]
                    + keep_fresh(ys.take(i - 1), now)).push(s[i]));
            }
        }
    }
}

/// Every entry kept by `keep_fresh` is fresh and comes from the source, in
/// source order; distinct keys stay distinct.
pub proof fn lemma_keep_fresh_props(s: CacheModel, now: int)
    ensures
        forall|i: int|
            0 <= i < keep_fresh(s, now).len() ==> (#[trigger] keep_fresh(s, now)[i]).expires_at
                > now,
        forall|i: int|
            0 <= i < keep_fresh(s, now).len() ==> exists|j: int|
                0 <= j < s.len() && s[j] == #[trigger] keep_fresh(s, now)[i],
        cache_keys_unique(s) ==> cache_keys_unique(keep_fresh(s, now)),
        keep_fresh(s, now).len() <= s.len(),
    decreases s.len(),
{
    if s.len() > 0 {
        let ys = s.drop_first();
        lemma_keep_fresh_props(ys, now);
        let kf = keep_fresh(s, now);
        let kfy = keep_fresh(ys, now);
        assert forall|i: int| 0 <= i < kfy.len() implies exists|j: int|
            0 <= j < s.len() && s[j] == #[trigger] kfy[i] by {
            let j = choose|j: int| 0 <= j < ys.len() && ys[j] == kfy[i];
            assert(ys[j] == s[j + 1]);
            assert(s[j + 1] == kfy[i]);
        }
        if cache_keys_unique(s) {
            assert(cache_keys_unique(ys)) by {
                assert forall|a: int, b: int| 0 <= a < b < ys.len() implies !((
                #[trigger] ys[a]).provider == (#[trigger] ys[b]).provider && ys[a].id
                    == ys[b].id) by {
                    assert(ys[a] == s[a + 1]);
                    assert(ys[b] == s[b + 1]);
                }
            }
        }
        if s[0].expires_at > now {
            assert(kf == seq![s[0]] + kfy);
            assert forall|i: int| 0 <= i < kf.len() implies (#[trigger] kf[i]).expires_at > now by {
                if i > 0 {
                    assert(kf[i] == kfy[i - 1]);
                }
            }
            assert forall|i: int| 0 <= i < kf.len() implies exists|j: int|
                0 <= j < s.len() && s[j] == #[trigger] kf[i] by {
                if i == 0 {
                    assert(s[0] == kf[0]);
                } else {
                    assert(kf[i] == kfy[i - 1]);
                    let j = choose|j: int| 0 <= j < s.len() && s[j] == kfy[i - 1];
                    assert(s[j] == kf[i]);
                }
            }
            if cache_keys_unique(s) {
                assert forall|a: int, b: int| 0 <= a < b < kf.len() implies !((
                #[trigger] kf[a]).provider == (#[trigger] kf[b]).provider && kf[a].id
                    == kf[b].id) by {
                    if a == 0 {
                        assert(kf[b] == kfy[b - 1]);
                        let j = choose|j: int| 0 <= j < ys.len() && ys[j] == kfy[b - 1];
                        assert(ys[j] == s[j + 1]);
                        assert(!(s[0].provider == s[j + 1].provider && s[0].id == s[j + 1].id));
                    } else {
                        assert(kf[a] == kfy[a - 1]);
                        assert(kf[b] == kfy[b - 1]);
                        assert(cache_keys_unique(kfy));
                    }
                }
            }
        }
    }
}

/// Fresh entries pass the freshness scan unchanged.
pub proof fn lemma_keep_fresh_idempotent(s: CacheModel, now: int)
    requires
        forall|i: int| 0 <= i < s.len() ==> (#[trigger] s[i]).expires_at > now,
    ensures
        keep_fresh(s, now) == s,
    decreases s.len(),
{
    if s.len() > 0 {
        assert(s[0].expires_at > now);
        assert forall|i: int| 0 <= i < s.drop_first().len() implies (
        #[trigger] s.drop_first()[i]).expires_at > now by {
            assert(s.drop_first()[i] == s[i + 1]);
        }
        lemma_keep_fresh_idempotent(s.drop_first(), now);
        assert(seq![s[0]] + s.drop_first() =~= s);
    }
}

/// The cache contents after a write of `(p, id) -> rec` at `now` onto the
/// fresh entries `kf`: any old entry under the key leaves, the new entry
/// becomes most recent with expiry `now + ttl` (saturating), and the least
/// recent entries leave while the capacity is exceeded.
pub open spec fn cache_after_set(
    kf: CacheModel,
    p: Seq<char>,
    id: Seq<char>,
    rec: crate::record::RecordModel,
    now: int,
    ttl: int,
    cap: int,
) -> CacheModel {
    let exp = if now + ttl > u64::MAX {
        u64::MAX as int
    } else {
        now + ttl
    };
    let cleaned = match find_key(kf, p, id) {
        None => kf,
        Some(j) => kf.remove(j),
    };
    let appended = cleaned.push(
        CacheEntryModel { provider: p, id: id, record: rec, expires_at: exp },
    );
    if appended.len() > cap {
        appended.subrange(appended.len() - cap, appended.len() as int)
    } else {
        appended
    }
}

/// TTL law: an entry written at time `t` expires no later than `t + ttl`,
/// so at any time `now >= t + ttl` the lookup path, which keeps only
/// entries with `expires_at > now`, cannot return it as a hit.
pub proof fn lemma_ttl_eviction(s: CacheModel, p: Seq<char>, id: Seq<char>, t: int, ttl: int, now: int)
    requires
        cache_keys_unique(s),
        match find_key(s, p, id) {
            Some(j) => s[j].expires_at <= t + ttl,
            None => true,
        },
        now >= t + ttl,
    ensures
        find_key(keep_fresh(s, now), p, id) is None,
{
    lemma_keep_fresh_props(s, now);
    lemma_find_key_props(s, p, id);
    let kf = keep_fresh(s, now);
    assert forall|i: int| 0 <= i < kf.len() implies !((#[trigger] kf[i]).provider == p && kf[i].id
        == id) by {
        let j = choose|j: int| 0 <= j < s.len() && s[j] == kf[i];
        match find_key(s, p, id) {
            Some(jj) => {
                if j == jj {
                    assert(kf[i].expires_at > now);
                } else {
                    if j < jj {
                        assert(!(s[j].provider == s[jj].provider && s[j].id == s[jj].id));
                    } else {
                        assert(!(s[jj].provider == s[j].provider && s[jj].id == s[j].id));
                    }
                }
            },
            None => {},
        }
    }
    lemma_find_key_absent(kf, p, id);
}

/// Capacity law: the cache's well-formedness, which `new` establishes and
/// `get`, `set` and `evict_entries` each preserve, bounds the number of
/// live entries by the configured capacity after any sequence of writes.
pub proof fn lemma_capacity_bound(c: &Cache)
    requires
        c.wf(),
    ensures
        c.entries().len() <= c.cap(),
{
}

/// The read-through record cache.
pub struct Cache {
    entries: Vec<CacheEntry>,
    max_entries: usize,
    ttl_seconds: u64,
}

impl Cache {
    /// The entries, in recency order, least recently used first.
    pub closed spec fn entries(&self) -> CacheModel {
        Seq::new(
            self.entries@.len(),
            |i: int|
                if 0 <= i < self.entries@.len() {
                    CacheEntryModel {
                        provider: self.entries@[i].provider@,
                        id: self.entries@[i].id@,
                        record: self.entries@[i].record@,
                        expires_at: self.entries@[i].expires_at as int,
                    }
                } else {
                    CacheEntryModel {
                        provider: Seq::empty(),
                        id: Seq::empty(),
                        record: Seq::empty(),
                        expires_at: 0,
                    }
                },
        )
    }

    /// The capacity bound.
    pub closed spec fn cap(&self) -> int {
        self.max_entries as int
    }

    /// The time-to-live of an entry, in seconds from its last write.
    pub closed spec fn ttl(&self) -> int {
        self.ttl_seconds as int
    }

    /// Cache sanity: keys are unique and the capacity bound holds.
    pub open spec fn wf(&self) -> bool {
        cache_keys_unique(self.entries()) && self.entries().len() <= self.cap()
    }

    /// An empty cache with the configured capacity and time-to-live.
    pub fn new(config: CacheConfig) -> (r: Self)
        ensures
            r.entries() == Seq::<CacheEntryModel>::empty(),
            r.cap() == config.max_entries as int,
            r.ttl() == config.ttl_seconds as int,
            r.wf(),
    {
        let r = Cache {
            entries: Vec::new(),
            max_entries: config.max_entries,
            ttl_seconds: config.ttl_seconds,
        };
        proof {
            assert(r.entries() =~= Seq::<CacheEntryModel>::empty());
        }
        r
    }

    /// Drops every entry whose time-to-live has passed at `now`.
    #[verifier::loop_isolation(false)]
    pub fn evict_entries(&mut self, now: u64)
        ensures
            final(self).entries() == keep_fresh(old(self).entries(), now as int),
            final(self).cap() == old(self).cap(),
            final(self).ttl() == old(self).ttl(),
            old(self).wf() ==> final(self).wf(),
    {
        let ghost old_model = self.entries();
        let ghost t = now as int;
        let mut i: usize = 0;
        let ghost k: int = 0;
        while i < self.entries.len()
            invariant
                0 <= i as int <= self.entries@.len(),
                i as int <= k <= old_model.len(),
                self.cap() == old(self).cap(),
                self.ttl() == old(self).ttl(),
                self.entries().len() == self.entries@.len(),
                self.entries() =~= keep_fresh(old_model.take(k), t) + old_model.skip(k),
                i as int == keep_fresh(old_model.take(k), t).len(),
            decreases self.entries@.len() - i,
        {
            proof {
                assert(self.entries()[i as int] == old_model.skip(k)[0]);
                assert(old_model.skip(k)[0] == old_model[k]);
                lemma_keep_fresh_take_succ(old_model, t, k);
            }
            if self.entries[i].expires_at > now {
                proof {
                    assert(self.entries()[i as int].expires_at > t);
                    assert(keep_fresh(old_model.take(k + 1), t) == keep_fresh(
                        old_model.take(k),
                        t,
                    ).push(old_model[k]));
                    assert((keep_fresh(old_model.take(k), t) + old_model.skip(k)) =~= (keep_fresh(
                        old_model.take(k + 1),
                        t,
                    ) + old_model.skip(k + 1)));
                }
                i = i + 1;
            } else {
                let ghost before = self.entries();
                let ghost beforev = self.entries@;
                self.entries.remove(i);
                proof {
                    assert(self.entries@ == beforev.remove(i as int));
                    assert forall|x: int| 0 <= x < self.entries@.len() implies #[trigger] self.entries()[x]
                        == before.remove(i as int)[x] by {
                        assert(self.entries@[x] == beforev.remove(i as int)[x]);
                    }
                    assert(self.entries() =~= before.remove(i as int));
                    assert(before.remove(i as int) =~= keep_fresh(old_model.take(k + 1), t)
                        + old_model.skip(k + 1));
                }
            }
            proof {
                k = k + 1;
            }
        }
        proof {
            assert(k == old_model.len());
            assert(old_model.take(k) =~= old_model);
            assert(old_model.skip(k) =~= Seq::<CacheEntryModel>::empty());
            assert(self.entries() =~= keep_fresh(old_model, t));
            lemma_keep_fresh_props(old_model, t);
        }
    }

    /// The index of the live entry under `(provider, id)`, if one exists.
    #[verifier::loop_isolation(false)]
    fn find_index(&self, provider: &str, id: &str) -> (r: Option<usize>)
        ensures
            match r {
                Some(i) => find_key(self.entries(), provider@, id@) == Some(i as int) && (i as int)
                    < self.entries().len(),
                None => find_key(self.entries(), provider@, id@) is None,
            },
    {
        let mut i: usize = 0;
        while i < self.entries.len()
            invariant
                i as int <= self.entries@.len(),
                self.entries().len() == self.entries@.len(),
                forall|j: int|
                    0 <= j < i ==> !((#[trigger] self.entries()[j]).provider == provider@
                        && self.entries()[j].id == id@),
            decreases self.entries@.len() - i,
        {
            if str_eq(self.entries[i].provider.as_str(), provider) && str_eq(
                self.entries[i].id.as_str(),
                id,
            ) {
                proof {
                    lemma_find_key_found(self.entries(), provider@, id@, i as int);
                }
                return Some(i);
            }
            i = i + 1;
        }
        proof {
            lemma_find_key_absent(self.entries(), provider@, id@);
        }
        None
    }

    /// Looks up `(provider, id)` at time `now`: expired entries are dropped,
    /// a hit refreshes the entry's recency and returns a copy of the record.
    pub fn get(&mut self, provider: &str, id: &str, now: u64) -> (r: Option<Record>)
        requires
            old(self).wf(),
        ensures
            final(self).wf(),
            final(self).cap() == old(self).cap(),
            final(self).ttl() == old(self).ttl(),
            ({
                let kf = keep_fresh(old(self).entries(), now as int);
                match find_key(kf, provider@, id@) {
                    None => r is None && final(self).entries() == kf,
                    Some(j) => r matches Some(rec) && rec@ == kf[j].record && final(self).entries()
                        == kf.remove(j).push(kf[j]),
                }
            }),
    {
        self.evict_entries(now);
        let ghost kf = self.entries();
        match self.find_index(provider, id) {
            None => None,
            Some(i) => {
                let rec = self.entries[i].record.clone();
                let entry = self.entries.remove(i);
                self.entries.push(entry);
                proof {
                    assert(self.entries() =~= kf.remove(i as int).push(kf[i as int]));
                    assert(cache_keys_unique(self.entries())) by {
                        let moved = kf.remove(i as int).push(kf[i as int]);
                        assert forall|a: int, b: int| 0 <= a < b < moved.len() implies !((
                        #[trigger] moved[a]).provider == (#[trigger] moved[b]).provider && moved[a].id
                            == moved[b].id) by {
                            let last = moved.len() - 1;
                            if b < last {
                                let oa = if a < i as int {
                                    a
                                } else {
                                    a + 1
                                };
                                let ob = if b < i as int {
                                    b
                                } else {
                                    b + 1
                                };
                                assert(moved[a] == kf[oa] && moved[b] == kf[ob]);
                            } else {
                                let oa = if a < i as int {
                                    a
                                } else {
                                    a + 1
                                };
                                assert(moved[a] == kf[oa] && moved[b] == kf[i as int]);
                            }
                        }
                    }
                }
                Some(rec)
            },
        }
    }

    /// Writes `(provider, id) -> record` at time `now`: the entry becomes
    /// the most recent, its expiry is `now` plus the time-to-live, and the
    /// least recently used entry leaves when the capacity would be exceeded.
    pub fn set(&mut self, provider: &str, id: &str, record: &Record, now: u64)
        requires
            old(self).wf(),
        ensures
            final(self).wf(),
            final(self).cap() == old(self).cap(),
            final(self).ttl() == old(self).ttl(),
            final(self).entries() == cache_after_set(
                keep_fresh(old(self).entries(), now as int),
                provider@,
                id@,
                record@,
                now as int,
                old(self).ttl(),
                old(self).cap(),
            ),
    {
        self.evict_entries(now);
        let ghost kf = self.entries();
        match self.find_index(provider, id) {
            None => {},
            Some(i) => {
                let ghost before = self.entries();
                let ghost beforev = self.entries@;
                self.entries.remove(i);
                proof {
                    lemma_find_key_props(kf, provider@, id@);
                    assert(self.entries@ == beforev.remove(i as int));
                    assert forall|x: int| 0 <= x < self.entries@.len() implies #[trigger] self.entries()[x]
                        == before.remove(i as int)[x] by {
                        assert(self.entries@[x] == beforev.remove(i as int)[x]);
                    }
                    assert(self.entries() =~= before.remove(i as int));
                }
            },
        }
        let ghost cleaned = self.entries();
        proof {
            assert(cache_keys_unique(cleaned)) by {
                match find_key(kf, provider@, id@) {
                    None => {},
                    Some(j) => {
                        assert forall|a: int, b: int| 0 <= a < b < cleaned.len() implies !((
                        #[trigger] cleaned[a]).provider == (#[trigger] cleaned[b]).provider
                            && cleaned[a].id == cleaned[b].id) by {
                            let oa = if a < j {
                                a
                            } else {
                                a + 1
                            };
                            let ob = if b < j {
                                b
                            } else {
                                b + 1
                            };
                            assert(cleaned[a] == kf[oa] && cleaned[b] == kf[ob]);
                        }
                    },
                }
            }
            assert(forall|t: int|
                0 <= t < cleaned.len() ==> !((#[trigger] cleaned[t]).provider == provider@
                    && cleaned[t].id == id@)) by {
                lemma_find_key_props(kf, provider@, id@);
                match find_key(kf, provider@, id@) {
                    None => {},
                    Some(j) => {
                        assert forall|t: int| 0 <= t < cleaned.len() implies !((
                        #[trigger] cleaned[t]).provider == provider@ && cleaned[t].id == id@) by {
                            let ot = if t < j {
                                t
                            } else {
                                t + 1
                            };
                            assert(cleaned[t] == kf[ot]);
                            assert(cache_keys_unique(kf));
                            if ot < j {
                                assert(!(kf[ot].provider == kf[j].provider && kf[ot].id
                                    == kf[j].id));
                            } else {
                                assert(!(kf[j].provider == kf[ot].provider && kf[j].id
                                    == kf[ot].id));
                            }
                        }
                    },
                }
            }
        }
        let expires_at = if now > u64::MAX - self.ttl_seconds {
            u64::MAX
        } else {
            now + self.ttl_seconds
        };
        self.entries.push(
            CacheEntry {
                provider: String::from_str(provider),
                id: String::from_str(id),
                record: record.clone(),
                expires_at,
            },
        );
        let ghost appended = self.entries();
        proof {
            assert(appended =~= cleaned.push(
                CacheEntryModel {
                    provider: provider@,
                    id: id@,
                    record: record@,
                    expires_at: expires_at as int,
                },
            ));
            assert(cache_keys_unique(appended)) by {
                assert forall|a: int, b: int| 0 <= a < b < appended.len() implies !((
                #[trigger] appended[a]).provider == (#[trigger] appended[b]).provider
                    && appended[a].id == appended[b].id) by {
                    if b == appended.len() - 1 {
                        assert(appended[a] == cleaned[a]);
                    } else {
                        assert(appended[a] == cleaned[a] && appended[b] == cleaned[b]);
                    }
                }
            }
        }
        proof {
            assert(self.entries() =~= appended.subrange(0, appended.len() as int));
        }
        while self.entries.len() > self.max_entries
            invariant
                self.cap() == old(self).cap(),
                self.ttl() == old(self).ttl(),
                self.entries().len() == self.entries@.len(),
                appended.len() <= old(self).cap() + 1,
                self.entries@.len() <= appended.len(),
                appended.len() > old(self).cap() ==> self.entries@.len() >= old(self).cap(),
                appended.len() <= old(self).cap() ==> self.entries@.len() == appended.len(),
                self.entries() =~= appended.subrange(
                    appended.len() - self.entries@.len(),
                    appended.len() as int,
                ),
            decreases self.entries@.len(),
        {
            let ghost before = self.entries();
            let ghost beforev = self.entries@;
            self.entries.remove(0);
            proof {
                assert(self.entries@ == beforev.remove(0));
                assert forall|x: int| 0 <= x < self.entries@.len() implies #[trigger] self.entries()[x]
                    == before[x + 1] by {
                    assert(self.entries@[x] == beforev.remove(0)[x]);
                }
                assert(self.entries() =~= appended.subrange(
                    appended.len() - self.entries@.len(),
                    appended.len() as int,
                ));
            }
        }
        proof {
            assert(cache_keys_unique(self.entries())) by {
                let fin = self.entries();
                let off = appended.len() - fin.len();
                assert forall|a: int, b: int| 0 <= a < b < fin.len() implies !((
                #[trigger] fin[a]).provider == (#[trigger] fin[b]).provider && fin[a].id
                    == fin[b].id) by {
                    assert(fin[a] == appended[a + off] && fin[b] == appended[b + off]);
                }
            }
            if appended.len() <= old(self).cap() {
                assert(self.entries@.len() == appended.len());
                assert(appended.subrange(0, appended.len() as int) =~= appended);
                assert(self.entries() =~= appended);
            }
        }
    }

    /// True when a live entry sits under `(provider, id)` at time `now`.
    pub fn has_entry(&self, provider: &str, id: &str, now: u64) -> (r: bool)
        ensures
            r == match find_key(self.entries(), provider@, id@) {
                Some(j) => self.entries()[j].expires_at > now,
                None => false,
            },
    {
        match self.find_index(provider, id) {
            Some(i) => self.entries[i].expires_at > now,
            None => false,
        }
    }
}

} // verus!
