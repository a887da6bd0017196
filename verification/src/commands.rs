//! The command dispatcher: maps one decoded frame to a storage call and
//! builds the reply frame. `PING` answers directly, `SET` is acknowledged
//! without storing, `GET` returns a record's JSON text, and `HGET` projects
//! record fields. A remote-backed lookup is handed back as a pending
//! command that `finish_command` completes.

use vstd::prelude::*;

use crate::cache::CacheModel;
use crate::cache::cache_after_set;
use crate::cache::keep_fresh;
use crate::database::AdapterModel;
use crate::record::Record;
use crate::record::RecordModel;
use crate::record::ValueModel;
use crate::record::record_get;
use crate::record::render_record;
use crate::record::value_text;
use crate::redis_protocol::FrameModel;
use crate::redis_protocol::RedisError;
use crate::redis_protocol::RedisFrame;
use crate::redis_protocol::encode;
use crate::storage::BackendQuery;
use crate::storage::FetchModel;
use crate::storage::FetchStep;
use crate::storage::StorageError;
use crate::storage::StorageService;
use crate::storage::svc_fetch;
use crate::text::str_eq;
use crate::text::to_ascii_upper;
use crate::text::upper_of;

verus! {

/// Maps a storage error to the protocol error shown to a client.
pub fn map_error(err: StorageError) -> (r: RedisError)
    ensures
        match err {
            StorageError::EntityNotFound(m) => r matches RedisError::NotFound(s) && s@ == m@,
            StorageError::RecordNotInDatabase(m) => r matches RedisError::NotFound(s) && s@ == m@,
            StorageError::RecordNotFoundInCache(m) => r matches RedisError::NotFound(s) && s@
                == m@,
            StorageError::FieldNotFound(m) => r matches RedisError::NotFound(s) && s@ == m@,
            StorageError::ProviderNotFound(m) => r matches RedisError::NotFound(s) && s@ == m@,
            StorageError::DatabaseError(m) => r matches RedisError::Internal(s) && s@ == m@,
            StorageError::CacheError(m) => r matches RedisError::Internal(s) && s@ == m@,
            StorageError::ConfigError(m) => r matches RedisError::Internal(s) && s@ == m@,
        },
{
    match err {
        StorageError::EntityNotFound(m) => RedisError::NotFound(m),
        StorageError::RecordNotInDatabase(m) => RedisError::NotFound(m),
        StorageError::RecordNotFoundInCache(m) => RedisError::NotFound(m),
        StorageError::FieldNotFound(m) => RedisError::NotFound(m),
        StorageError::ProviderNotFound(m) => RedisError::NotFound(m),
        StorageError::DatabaseError(m) => RedisError::Internal(m),
        StorageError::CacheError(m) => RedisError::Internal(m),
        StorageError::ConfigError(m) => RedisError::Internal(m),
    }
}

/// The position of the first colon in `k` at or after `i`, if any.
pub open spec fn find_colon(k: Seq<char>, i: int) -> Option<int>
    decreases k.len() - i,
        when 0 <= i <= k.len()
{
    if i >= k.len() {
        None
    } else if k[i] == ':' {
        Some(i)
    } else {
        find_colon(k, i + 1)
    }
}

/// A logical key split at its first colon: the provider name and the id,
/// which may itself contain colons.
pub open spec fn split_key(k: Seq<char>) -> Option<(Seq<char>, Seq<char>)> {
    match find_colon(k, 0) {
        None => None,
        Some(i) => Some((k.take(i), k.skip(i + 1))),
    }
}

proof fn lemma_find_colon_found(k: Seq<char>, i: int)
    requires
        0 <= i < k.len(),
        k[i] == ':',
        forall|j: int| 0 <= j < i ==> k[j] != ':',
    ensures
        find_colon(k, 0) == Some(i),
{
    lemma_find_colon_step(k, 0, i);
}

proof fn lemma_find_colon_step(k: Seq<char>, a: int, i: int)
    requires
        0 <= a <= i < k.len(),
        k[i] == ':',
        forall|j: int| a <= j < i ==> k[j] != ':',
    ensures
        find_colon(k, a) == Some(i),
    decreases i - a,
{
    if a < i {
        lemma_find_colon_step(k, a + 1, i);
    }
}

proof fn lemma_find_colon_none(k: Seq<char>, a: int)
    requires
        0 <= a <= k.len(),
        forall|j: int| a <= j < k.len() ==> k[j] != ':',
    ensures
        find_colon(k, a) is None,
    decreases k.len() - a,
{
    if a < k.len() {
        lemma_find_colon_none(k, a + 1);
    }
}

/// Key-splitting law: a key without a colon does not split; one with a
/// colon splits at the first, so the id keeps any further colons:
/// the key is exactly `provider`, one colon, then `id`, and the provider
/// part holds no colon.
pub proof fn lemma_split_key_first_colon(k: Seq<char>)
    ensures
        match split_key(k) {
            None => forall|j: int| 0 <= j < k.len() ==> k[j] != ':',
            Some(pi) => k =~= pi.0 + seq![':'] + pi.1 && (forall|j: int|
                0 <= j < pi.0.len() ==> pi.0[j] != ':'),
        },
{
    lemma_find_colon_props(k, 0);
    match find_colon(k, 0) {
        None => {},
        Some(i) => {
            assert(k =~= k.take(i) + seq![':'] + k.skip(i + 1));
            assert forall|j: int| 0 <= j < k.take(i).len() implies k.take(i)[j] != ':' by {
                assert(k.take(i)[j] == k[j]);
            }
        },
    }
}

proof fn lemma_find_colon_props(k: Seq<char>, a: int)
    requires
        0 <= a <= k.len(),
    ensures
        match find_colon(k, a) {
            None => forall|j: int| a <= j < k.len() ==> k[j] != ':',
            Some(i) => a <= i < k.len() && k[i] == ':' && (forall|j: int|
                a <= j < i ==> k[j] != ':'),
        },
    decreases k.len() - a,
{
    if a < k.len() && k[a] != ':' {
        lemma_find_colon_props(k, a + 1);
    }
}

/// Splits a key at its first colon.
#[verifier::loop_isolation(false)]
fn split_first_colon(k: &str) -> (r: Option<(String, String)>)
    ensures
        match r {
            Some(pi) => split_key(k@) == Some((pi.0@, pi.1@)),
            None => split_key(k@) is None,
        },
{
    let n = k.unicode_len();
    let mut i: usize = 0;
    while i < n
        invariant
            i <= n,
            n == k@.len(),
            forall|j: int| 0 <= j < i ==> k@[j] != ':',
        decreases n - i,
    {
        if k.get_char(i) == ':' {
            proof {
                lemma_find_colon_found(k@, i as int);
            }
            let provider = k.substring_char(0, i).to_owned();
            let id = k.substring_char(i + 1, n).to_owned();
            return Some((provider, id));
        }
        i = i + 1;
    }
    proof {
        lemma_find_colon_none(k@, 0);
    }
    None
}

/// What remains of a remote-backed command: the query to run and how to
/// shape the reply from the record.
pub struct PendingCommand {
    /// The query the remote engine must run.
    pub query: BackendQuery,
    /// How the reply is built from the fetched record.
    pub kind: PendingKind,
}

/// The reply shape of a pending command.
pub enum PendingKind {
    /// Reply with the record's JSON text as one bulk string.
    Get,
    /// Reply with the named fields projected from the record.
    Hget(Vec<String>),
}

/// What one dispatched command produces.
pub enum CommandStep {
    /// The full response bytes.
    Reply(Vec<u8>),
    /// A remote query must run first.
    Pending(PendingCommand),
}

/// The model of a protocol error a handler reports.
pub ghost enum RedisErrorModel {
    ProtocolM(Seq<char>),
    UnknownM(Seq<char>),
    ArityM(Seq<char>),
    NotFoundM(Seq<char>),
    InternalM(Seq<char>),
}

/// The exec error a handler error model calls for.
pub open spec fn err_matches(e: &RedisError, em: RedisErrorModel) -> bool {
    match em {
        RedisErrorModel::ProtocolM(m) => e matches RedisError::Protocol(s) && s@ == m,
        RedisErrorModel::UnknownM(m) => e matches RedisError::UnknownCommand(s) && s@ == m,
        RedisErrorModel::ArityM(m) => e matches RedisError::WrongArity(s) && s@ == m,
        RedisErrorModel::NotFoundM(m) => e matches RedisError::NotFound(s) && s@ == m,
        RedisErrorModel::InternalM(m) => e matches RedisError::Internal(s) && s@ == m,
    }
}

/// The error text a handler error model renders to, after `ERR `.
pub open spec fn err_model_text(em: RedisErrorModel) -> Seq<char> {
    match em {
        RedisErrorModel::ProtocolM(m) => "Protocol error: "@ + m,
        RedisErrorModel::UnknownM(m) => "unknown command '"@ + m + "'"@,
        RedisErrorModel::ArityM(m) => "wrong number of arguments for '"@ + m + "'"@,
        RedisErrorModel::NotFoundM(m) => "Not found: "@ + m,
        RedisErrorModel::InternalM(m) => "Internal: "@ + m,
    }
}

/// What one dispatched command must produce.
pub ghost enum HandleModel {
    Reply(FrameModel),
    PendingGet(Seq<char>, Seq<char>, Seq<char>),
    PendingHget(Seq<char>, Seq<char>, Seq<char>, Seq<Seq<char>>),
    Bad(RedisErrorModel),
}

/// The frame that projects one field of a record: the field's JSON text as
/// a bulk string, or null when the field is absent or JSON `null`.
pub open spec fn project_field(rm: RecordModel, f: Seq<char>) -> FrameModel {
    match record_get(rm, f) {
        Some(v) => if v is VNull {
            FrameModel::Nil
        } else {
            FrameModel::Bulk(value_text(v))
        },
        None => FrameModel::Nil,
    }
}

/// The reply for a fetched record under a pending kind: the whole record's
/// JSON text for a get; one projected field, or an array of them, for an
/// hget.
pub open spec fn record_reply(rm: RecordModel, fields: Option<Seq<Seq<char>>>) -> FrameModel {
    match fields {
        None => FrameModel::Bulk(render_record(rm)),
        Some(fs) => if fs.len() == 1 {
            project_field(rm, fs[0])
        } else {
            FrameModel::Arr(
                Seq::new(
                    fs.len(),
                    |j: int|
                        if 0 <= j < fs.len() {
                            project_field(rm, fs[j])
                        } else {
                            FrameModel::Nil
                        },
                ),
            )
        },
    }
}

/// The bulk payloads of the argument frames from `from` on; meaningful when
/// they are all bulk strings.
pub open spec fn bulk_args(items: Seq<FrameModel>, from: int) -> Seq<Seq<char>> {
    Seq::new(
        (items.len() - from) as nat,
        |j: int|
            if 0 <= j < items.len() - from {
                items[from + j]->Bulk_0
            } else {
                Seq::empty()
            },
    )
}

/// Whether every argument frame from `from` on is a bulk string.
pub open spec fn all_bulk(items: Seq<FrameModel>, from: int) -> bool {
    forall|j: int| from <= j < items.len() ==> (#[trigger] items[j]) is Bulk
}

/// The outcome and cache left behind by dispatching one frame at time
/// `now`: the reply frame, a pending remote lookup, or the protocol error.
pub open spec fn handle_model(
    fm: FrameModel,
    providers: Seq<(Seq<char>, AdapterModel)>,
    cache: CacheModel,
    cap: int,
    ttl: int,
    now: int,
) -> (HandleModel, CacheModel) {
    match fm {
        FrameModel::Arr(items) => if items.len() == 0 {
            (HandleModel::Bad(RedisErrorModel::ProtocolM("Empty command"@)), cache)
        } else {
            match items[0] {
                FrameModel::Bulk(name0) => {
                    let name = upper_of(name0);
                    if name == "PING"@ {
                        (HandleModel::Reply(FrameModel::Simple("PONG"@)), cache)
                    } else if name == "SET"@ {
                        if items.len() != 3 {
                            (HandleModel::Bad(RedisErrorModel::ArityM("SET"@)), cache)
                        } else if !(items[1] is Bulk) || !(items[2] is Bulk) {
                            (
                                HandleModel::Bad(
                                    RedisErrorModel::ProtocolM("Expected bulk string argument"@),
                                ),
                                cache,
                            )
                        } else {
                            (HandleModel::Reply(FrameModel::Simple("OK"@)), cache)
                        }
                    } else if name == "GET"@ {
                        if items.len() != 2 {
                            (HandleModel::Bad(RedisErrorModel::ArityM("GET"@)), cache)
                        } else {
                            match items[1] {
                                FrameModel::Bulk(key) => match split_key(key) {
                                    None => (
                                        HandleModel::Bad(
                                            RedisErrorModel::ProtocolM(
                                                "Expected provider:id format"@,
                                            ),
                                        ),
                                        cache,
                                    ),
                                    Some(pi) => {
                                        let (f, c2) = svc_fetch(
                                            providers,
                                            cache,
                                            cap,
                                            ttl,
                                            pi.0,
                                            pi.1,
                                            now,
                                        );
                                        match f {
                                            FetchModel::Hit(rm) => (
                                                HandleModel::Reply(record_reply(rm, None)),
                                                c2,
                                            ),
                                            FetchModel::MissOk(rm) => (
                                                HandleModel::Reply(record_reply(rm, None)),
                                                c2,
                                            ),
                                            FetchModel::NoProvider => (
                                                HandleModel::Reply(FrameModel::Nil),
                                                c2,
                                            ),
                                            FetchModel::NoRecord => (
                                                HandleModel::Reply(FrameModel::Nil),
                                                c2,
                                            ),
                                            FetchModel::Remote(q) => (
                                                HandleModel::PendingGet(pi.0, pi.1, q),
                                                c2,
                                            ),
                                        }
                                    },
                                },
                                _ => (
                                    HandleModel::Bad(
                                        RedisErrorModel::ProtocolM("Expected bulk string key"@),
                                    ),
                                    cache,
                                ),
                            }
                        }
                    } else if name == "HGET"@ {
                        if items.len() < 3 {
                            (HandleModel::Bad(RedisErrorModel::ArityM("HGET"@)), cache)
                        } else if !all_bulk(items, 1) {
                            (
                                HandleModel::Bad(
                                    RedisErrorModel::ProtocolM("Expected bulk string argument"@),
                                ),
                                cache,
                            )
                        } else {
                            let key = items[1]->Bulk_0;
                            let fields = bulk_args(items, 2);
                            match split_key(key) {
                                None => (
                                    HandleModel::Bad(
                                        RedisErrorModel::ProtocolM("Expected provider:id format"@),
                                    ),
                                    cache,
                                ),
                                Some(pi) => {
                                    let (f, c2) = svc_fetch(
                                        providers,
                                        cache,
                                        cap,
                                        ttl,
                                        pi.0,
                                        pi.1,
                                        now,
                                    );
                                    match f {
                                        FetchModel::Hit(rm) => (
                                            HandleModel::Reply(record_reply(rm, Some(fields))),
                                            c2,
                                        ),
                                        FetchModel::MissOk(rm) => (
                                            HandleModel::Reply(record_reply(rm, Some(fields))),
                                            c2,
                                        ),
                                        FetchModel::NoProvider => (
                                            HandleModel::Reply(FrameModel::Nil),
                                            c2,
                                        ),
                                        FetchModel::NoRecord => (
                                            HandleModel::Reply(FrameModel::Nil),
                                            c2,
                                        ),
                                        FetchModel::Remote(q) => (
                                            HandleModel::PendingHget(pi.0, pi.1, q, fields),
                                            c2,
                                        ),
                                    }
                                },
                            }
                        }
                    } else {
                        (HandleModel::Bad(RedisErrorModel::UnknownM(name)), cache)
                    }
                },
                _ => (
                    HandleModel::Bad(
                        RedisErrorModel::ProtocolM("Expected bulk string for command"@),
                    ),
                    cache,
                ),
            }
        },
        _ => (HandleModel::Bad(RedisErrorModel::ProtocolM("Expected array"@)), cache),
    }
}

/// The exec outcome a handle model calls for.
pub open spec fn handle_matches(r: &Result<CommandStep, RedisError>, hm: HandleModel) -> bool {
    match hm {
        HandleModel::Reply(f) => r matches Ok(CommandStep::Reply(b)) && b@ == encode(f),
        HandleModel::PendingGet(p, id, q) => r matches Ok(CommandStep::Pending(pc)) && pc.kind
            is Get && pc.query.provider@ == p && pc.query.id@ == id && pc.query.query@ == q,
        HandleModel::PendingHget(p, id, q, fs) => r matches Ok(CommandStep::Pending(pc)) && (
        pc.kind matches PendingKind::Hget(v) && v@.len() == fs.len() && (forall|j: int|
            0 <= j < fs.len() ==> (#[trigger] v@[j])@ == fs[j])) && pc.query.provider@ == p
            && pc.query.id@ == id && pc.query.query@ == q,
        HandleModel::Bad(em) => r matches Err(e) && err_matches(&e, em),
    }
}

/// Builds the reply bytes for a fetched record: the record's JSON text for
/// a get, the projected fields for an hget.
fn render_record_reply(rec: &Record, fields: Option<&Vec<String>>) -> (r: Vec<u8>)
    ensures
        match fields {
            None => r@ == encode(record_reply(rec@, None)),
            Some(fs) => r@ == encode(record_reply(rec@, Some(fs.deep_view()))),
        },
{
    match fields {
        None => {
            let f = RedisFrame::BulkString(rec.to_json_text());
            f.to_bytes()
        },
        Some(fs) => {
            if fs.len() == 1 {
                let f = project_field_frame(rec, &fs[0]);
                proof {
                    assert(fs.deep_view()[0] == fs@[0]@);
                }
                f.to_bytes()
            } else {
                let mut elems: Vec<RedisFrame> = Vec::new();
                let mut j: usize = 0;
                while j < fs.len()
                    invariant
                        j <= fs@.len(),
                        elems@.len() == j,
                        forall|t: int|
                            0 <= t < j ==> (#[trigger] elems@[t])@ == project_field(
                                rec@,
                                fs@[t]@,
                            ),
                    decreases fs@.len() - j,
                {
                    let f = project_field_frame(rec, &fs[j]);
                    elems.push(f);
                    j = j + 1;
                }
                let arr = RedisFrame::Array(elems);
                proof {
                    assert(arr@->Arr_0 =~= record_reply(rec@, Some(fs.deep_view()))->Arr_0) by {
                        assert forall|t: int| 0 <= t < fs@.len() implies arr@->Arr_0[t]
                            == record_reply(rec@, Some(fs.deep_view()))->Arr_0[t] by {
                            assert(fs.deep_view()[t] == fs@[t]@);
                        }
                    }
                }
                arr.to_bytes()
            }
        },
    }
}

/// The frame projecting one field of a record.
fn project_field_frame(rec: &Record, field: &String) -> (r: RedisFrame)
    ensures
        r@ == project_field(rec@, field@),
{
    match rec.get(field) {
        Some(v) => {
            if v.is_null() {
                RedisFrame::Null
            } else {
                RedisFrame::BulkString(v.to_text())
            }
        },
        None => RedisFrame::Null,
    }
}

/// Dispatches one decoded frame at time `now`: answers `PING` and `SET`
/// directly, runs `GET` and `HGET` through the read-through service, and
/// reports malformed or unknown commands as errors.
#[verifier::loop_isolation(false)]
pub fn handle_command(frame: RedisFrame, storage: &mut StorageService, now: u64) -> (r: Result<
    CommandStep,
    RedisError,
>)
    requires
        old(storage).wf(),
    ensures
        final(storage).wf(),
        final(storage).providers() == old(storage).providers(),
        final(storage).cache_cap() == old(storage).cache_cap(),
        final(storage).cache_ttl() == old(storage).cache_ttl(),
        ({
            let (hm, c2) = handle_model(
                frame@,
                old(storage).providers(),
                old(storage).cache_entries(),
                old(storage).cache_cap(),
                old(storage).cache_ttl(),
                now as int,
            );
            handle_matches(&r, hm) && final(storage).cache_entries() == c2
        }),
{
    let ghost fm = frame@;
    let items = match frame {
        RedisFrame::Array(items) => items,
        _ => {
            return Err(RedisError::Protocol(String::from_str("Expected array")));
        },
    };
    proof {
        assert(fm->Arr_0 =~= seq_frame_models(items@));
    }
    if items.len() == 0 {
        return Err(RedisError::Protocol(String::from_str("Empty command")));
    }
    let name = match &items[0] {
        RedisFrame::BulkString(s) => to_ascii_upper(s.as_str()),
        _ => {
            return Err(RedisError::Protocol(String::from_str("Expected bulk string for command")));
        },
    };
    if str_eq(name.as_str(), "PING") {
        let f = RedisFrame::SimpleString(String::from_str("PONG"));
        return Ok(CommandStep::Reply(f.to_bytes()));
    }
    if str_eq(name.as_str(), "SET") {
        if items.len() != 3 {
            return Err(RedisError::WrongArity(String::from_str("SET")));
        }
        let key_ok = match &items[1] {
            RedisFrame::BulkString(_) => true,
            _ => false,
        };
        let val_ok = match &items[2] {
            RedisFrame::BulkString(_) => true,
            _ => false,
        };
        if !key_ok || !val_ok {
            return Err(RedisError::Protocol(String::from_str("Expected bulk string argument")));
        }
        let f = RedisFrame::SimpleString(String::from_str("OK"));
        return Ok(CommandStep::Reply(f.to_bytes()));
    }
    if str_eq(name.as_str(), "GET") {
        if items.len() != 2 {
            return Err(RedisError::WrongArity(String::from_str("GET")));
        }
        let key = match &items[1] {
            RedisFrame::BulkString(k) => k,
            _ => {
                return Err(RedisError::Protocol(String::from_str("Expected bulk string key")));
            },
        };
        let (provider, id) = match split_first_colon(key.as_str()) {
            Some(pi) => pi,
            None => {
                return Err(
                    RedisError::Protocol(String::from_str("Expected provider:id format")),
                );
            },
        };
        match storage.fetch_record(provider.as_str(), id.as_str(), now) {
            FetchStep::Done(Ok(rec)) => {
                return Ok(CommandStep::Reply(render_record_reply(&rec, None)));
            },
            FetchStep::Done(Err(e)) => {
                match e {
                    StorageError::ProviderNotFound(_) => {
                        return Ok(CommandStep::Reply(RedisFrame::Null.to_bytes()));
                    },
                    StorageError::RecordNotInDatabase(_) => {
                        return Ok(CommandStep::Reply(RedisFrame::Null.to_bytes()));
                    },
                    other => {
                        return Err(map_error(other));
                    },
                }
            },
            FetchStep::Backend(q) => {
                return Ok(CommandStep::Pending(PendingCommand { query: q, kind: PendingKind::Get }));
            },
        }
    }
    if str_eq(name.as_str(), "HGET") {
        if items.len() < 3 {
            return Err(RedisError::WrongArity(String::from_str("HGET")));
        }
        let ghost items_model = seq_frame_models(items@);
        let mut j: usize = 1;
        while j < items.len()
            invariant
                1 <= j <= items@.len(),
                items_model == seq_frame_models(items@),
                items_model.len() == items@.len(),
                forall|t: int| 0 <= t < items@.len() ==> items_model[t] == #[trigger] items@[t]@,
                forall|t: int| 1 <= t < j ==> (#[trigger] items_model[t]) is Bulk,
            decreases items@.len() - j,
        {
            match &items[j] {
                RedisFrame::BulkString(_) => {},
                _ => {
                    proof {
                        assert(items_model[j as int] == items@[j as int]@);
                        assert(!(items_model[j as int] is Bulk));
                        assert(!all_bulk(items_model, 1));
                    }
                    return Err(
                        RedisError::Protocol(String::from_str("Expected bulk string argument")),
                    );
                },
            }
            proof {
                assert(items_model[j as int] is Bulk);
            }
            j = j + 1;
        }
        let key = match &items[1] {
            RedisFrame::BulkString(k) => k,
            _ => {
                return Err(RedisError::Protocol(String::from_str("Expected bulk string argument")));
            },
        };
        let (provider, id) = match split_first_colon(key.as_str()) {
            Some(pi) => pi,
            None => {
                return Err(
                    RedisError::Protocol(String::from_str("Expected provider:id format")),
                );
            },
        };
        let mut fields: Vec<String> = Vec::new();
        let mut t: usize = 2;
        while t < items.len()
            invariant
                2 <= t <= items@.len(),
                items_model == seq_frame_models(items@),
                items_model.len() == items@.len(),
                forall|x: int| 0 <= x < items@.len() ==> items_model[x] == #[trigger] items@[x]@,
                forall|x: int| 1 <= x < items@.len() ==> (#[trigger] items_model[x]) is Bulk,
                fields@.len() == t - 2,
                forall|x: int|
                    0 <= x < t - 2 ==> (#[trigger] fields@[x])@ == items_model[x + 2]->Bulk_0,
            decreases items@.len() - t,
        {
            match &items[t] {
                RedisFrame::BulkString(f) => {
                    fields.push(f.clone());
                },
                _ => {
                    proof {
                        assert(items_model[t as int] is Bulk);
                        assert(items_model[t as int] == items@[t as int]@);
                        assert(false);
                    }
                    return Err(
                        RedisError::Protocol(String::from_str("Expected bulk string argument")),
                    );
                },
            }
            t = t + 1;
        }
        match storage.fetch_record(provider.as_str(), id.as_str(), now) {
            FetchStep::Done(Ok(rec)) => {
                let b = render_record_reply(&rec, Some(&fields));
                proof {
                    assert(fields.deep_view() =~= bulk_args(items_model, 2)) by {
                        assert forall|x: int| 0 <= x < fields@.len() implies fields.deep_view()[x]
                            == bulk_args(items_model, 2)[x] by {
                            assert(fields.deep_view()[x] == fields@[x]@);
                        }
                    }
                }
                return Ok(CommandStep::Reply(b));
            },
            FetchStep::Done(Err(e)) => {
                match e {
                    StorageError::ProviderNotFound(_) => {
                        return Ok(CommandStep::Reply(RedisFrame::Null.to_bytes()));
                    },
                    StorageError::RecordNotInDatabase(_) => {
                        return Ok(CommandStep::Reply(RedisFrame::Null.to_bytes()));
                    },
                    other => {
                        return Err(map_error(other));
                    },
                }
            },
            FetchStep::Backend(q) => {
                proof {
                    assert(fields.deep_view() =~= bulk_args(items_model, 2)) by {
                        assert forall|x: int| 0 <= x < fields@.len() implies fields.deep_view()[x]
                            == bulk_args(items_model, 2)[x] by {
                            assert(fields.deep_view()[x] == fields@[x]@);
                        }
                    }
                }
                return Ok(
                    CommandStep::Pending(
                        PendingCommand { query: q, kind: PendingKind::Hget(fields) },
                    ),
                );
            },
        }
    }
    Err(RedisError::UnknownCommand(name))
}

/// The models of a sequence of frames, elementwise.
pub open spec fn seq_frame_models(s: Seq<RedisFrame>) -> Seq<FrameModel> {
    Seq::new(
        s.len(),
        |i: int|
            if 0 <= i < s.len() {
                s[i]@
            } else {
                FrameModel::Nil
            },
    )
}

/// What finishing a pending command must produce, and the cache it leaves:
/// an engine error surfaces as an internal error, no rows reply null, and
/// the first row is cached and rendered under the pending kind.
pub open spec fn finish_model(
    kind_fields: Option<Seq<Seq<char>>>,
    p: Seq<char>,
    id: Seq<char>,
    rows: &Result<Vec<Record>, String>,
    cache: CacheModel,
    cap: int,
    ttl: int,
    now: int,
) -> (HandleModel, CacheModel) {
    match rows {
        Err(m) => (HandleModel::Bad(RedisErrorModel::InternalM(m@)), cache),
        Ok(v) => if v@.len() == 0 {
            (HandleModel::Reply(FrameModel::Nil), cache)
        } else {
            (
                HandleModel::Reply(record_reply(v@[0]@, kind_fields)),
                cache_after_set(keep_fresh(cache, now), p, id, v@[0]@, now, ttl, cap),
            )
        },
    }
}

/// Finishes a remote-backed command from the rows the engine returned,
/// writing a fetched record back to the cache and rendering the reply the
/// pending kind calls for.
pub fn finish_command(
    pending: PendingCommand,
    rows: Result<Vec<Record>, String>,
    storage: &mut StorageService,
    now: u64,
) -> (r: Result<Vec<u8>, RedisError>)
    requires
        old(storage).wf(),
    ensures
        final(storage).wf(),
        final(storage).providers() == old(storage).providers(),
        final(storage).cache_cap() == old(storage).cache_cap(),
        final(storage).cache_ttl() == old(storage).cache_ttl(),
        ({
            let kind_fields = match pending.kind {
                PendingKind::Get => None,
                PendingKind::Hget(fs) => Some(fs.deep_view()),
            };
            let (hm, c2) = finish_model(
                kind_fields,
                pending.query.provider@,
                pending.query.id@,
                &rows,
                old(storage).cache_entries(),
                old(storage).cache_cap(),
                old(storage).cache_ttl(),
                now as int,
            );
            final(storage).cache_entries() == c2 && match hm {
                HandleModel::Reply(f) => r matches Ok(b) && b@ == encode(f),
                HandleModel::Bad(em) => r matches Err(e) && err_matches(&e, em),
                _ => false,
            }
        }),
{
    match storage.complete_fetch(
        pending.query.provider.as_str(),
        pending.query.id.as_str(),
        rows,
        now,
    ) {
        Ok(rec) => {
            let b = match &pending.kind {
                PendingKind::Get => render_record_reply(&rec, None),
                PendingKind::Hget(fs) => render_record_reply(&rec, Some(fs)),
            };
            Ok(b)
        },
        Err(e) => {
            match e {
                StorageError::RecordNotInDatabase(_) => Ok(RedisFrame::Null.to_bytes()),
                StorageError::DatabaseError(m) => Err(RedisError::Internal(m)),
                other => Err(map_error(other)),
            }
        },
    }
}

} // verus!
