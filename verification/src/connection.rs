//! The per-connection pipeline: a growable read buffer drained one message
//! at a time, each dispatched command answered in order. Responses for every
//! frame already buffered are produced in one step, so pipelined requests
//! are answered in arrival order.

use vstd::prelude::*;

use crate::cache::CacheModel;
use crate::commands::CommandStep;
use crate::commands::HandleModel;
use crate::commands::PendingCommand;
use crate::commands::PendingKind;
use crate::commands::RedisErrorModel;
use crate::commands::err_matches;
use crate::commands::err_model_text;
use crate::commands::finish_command;
use crate::commands::finish_model;
use crate::commands::handle_command;
use crate::commands::handle_model;
use crate::database::AdapterModel;
use crate::record::Record;
use crate::redis_protocol::DecodeStep;
use crate::redis_protocol::Decoded;
use crate::redis_protocol::FrameModel;
use crate::redis_protocol::RedisError;
use crate::redis_protocol::RedisFrame;
use crate::redis_protocol::dec_message;
use crate::redis_protocol::decode_message;
use crate::redis_protocol::encode;
use crate::redis_protocol::message_of;
use crate::storage::StorageService;

verus! {

/// The hard cap on a connection's read buffer: a buffer beyond this size
/// that still holds no complete frame is discarded with an error reply.
pub const MAX_COMMAND_BYTES: usize = 10240;

/// The error frame a handler error renders to.
pub open spec fn err_frame(em: RedisErrorModel) -> FrameModel {
    FrameModel::Fault("ERR "@ + err_model_text(em))
}

/// A suspended remote lookup, as the pipeline model carries it.
pub ghost struct PendModel {
    pub provider: Seq<char>,
    pub id: Seq<char>,
    pub query: Seq<char>,
    pub fields: Option<Seq<Seq<char>>>,
}

/// Where the pipeline stands after draining a buffer.
pub ghost struct PipeState {
    /// The response bytes produced, in request order.
    pub out: Seq<u8>,
    /// What remains in the read buffer.
    pub buf: Seq<u8>,
    /// The cache left behind.
    pub cache: CacheModel,
    /// A remote lookup the caller must run before the buffer can drain on.
    pub pending: Option<PendModel>,
    /// A protocol fault ended the drain: one more error frame follows
    /// `out`, carrying the decoder's reason.
    pub fault: bool,
}

/// Drains one buffer: each complete message is dispatched and answered in
/// order; an incomplete tail waits for more bytes unless it tops the size
/// cap; undecodable bytes are discarded with an error reply; a remote
/// lookup suspends the drain.
pub open spec fn pipeline(
    buf: Seq<u8>,
    providers: Seq<(Seq<char>, AdapterModel)>,
    cache: CacheModel,
    cap: int,
    ttl: int,
    now: int,
) -> PipeState
    decreases buf.len(),
{
    if buf.len() == 0 {
        PipeState { out: Seq::empty(), buf, cache, pending: None, fault: false }
    } else {
        match dec_message(buf) {
            DecodeStep::More => if buf.len() > MAX_COMMAND_BYTES {
                PipeState {
                    out: encode(FrameModel::Fault("ERR Command too large"@)),
                    buf: Seq::empty(),
                    cache,
                    pending: None,
                    fault: false,
                }
            } else {
                PipeState { out: Seq::empty(), buf, cache, pending: None, fault: false }
            },
            DecodeStep::Bad => PipeState {
                out: Seq::empty(),
                buf: Seq::empty(),
                cache,
                pending: None,
                fault: true,
            },
            DecodeStep::Done(f, c) => if c <= 0 || c > buf.len() {
                PipeState { out: Seq::empty(), buf: Seq::empty(), cache, pending: None, fault: true }
            } else {
                let rest = buf.skip(c);
                let (hm, c2) = handle_model(f, providers, cache, cap, ttl, now);
                match hm {
                    HandleModel::Reply(rf) => {
                        let tail = pipeline(rest, providers, c2, cap, ttl, now);
                        PipeState {
                            out: encode(rf) + tail.out,
                            buf: tail.buf,
                            cache: tail.cache,
                            pending: tail.pending,
                            fault: tail.fault,
                        }
                    },
                    HandleModel::Bad(em) => {
                        let tail = pipeline(rest, providers, c2, cap, ttl, now);
                        PipeState {
                            out: encode(err_frame(em)) + tail.out,
                            buf: tail.buf,
                            cache: tail.cache,
                            pending: tail.pending,
                            fault: tail.fault,
                        }
                    },
                    HandleModel::PendingGet(p, id, q) => PipeState {
                        out: Seq::empty(),
                        buf: rest,
                        cache: c2,
                        pending: Some(PendModel { provider: p, id: id, query: q, fields: None }),
                        fault: false,
                    },
                    HandleModel::PendingHget(p, id, q, fs) => PipeState {
                        out: Seq::empty(),
                        buf: rest,
                        cache: c2,
                        pending: Some(
                            PendModel { provider: p, id: id, query: q, fields: Some(fs) },
                        ),
                        fault: false,
                    },
                }
            },
        }
    }
}

/// The exec pending command a pending model calls for.
pub open spec fn pending_matches(pc: &PendingCommand, pm: PendModel) -> bool {
    pc.query.provider@ == pm.provider && pc.query.id@ == pm.id && pc.query.query@ == pm.query
        && match pm.fields {
        None => pc.kind is Get,
        Some(fs) => pc.kind matches PendingKind::Hget(v) && v.deep_view() == fs,
    }
}

/// What one drain step hands back.
pub enum FeedStep {
    /// Every buffered message was answered: the response bytes, in order.
    Responses(Vec<u8>),
    /// The responses so far, then a remote lookup that must run before the
    /// rest of the buffer can drain; `resume` continues.
    Await(Vec<u8>, PendingCommand),
}

/// What a drain result must look like under the pipeline model, given the
/// bytes already emitted before the drain.
pub open spec fn feed_matches(r: &FeedStep, prefix: Seq<u8>, ps: PipeState) -> bool {
    match ps.pending {
        None => r matches FeedStep::Responses(b) && (if ps.fault {
            exists|m: Seq<char>|
                b@ == prefix + ps.out + encode(
                    FrameModel::Fault("ERR "@ + ("Protocol error: "@ + m)),
                )
        } else {
            b@ == prefix + ps.out
        }),
        Some(pm) => r matches FeedStep::Await(b, pc) && b@ == prefix + ps.out && !ps.fault
            && pending_matches(&pc, pm),
    }
}

/// One client connection's read buffer.
pub struct Connection {
    buffer: Vec<u8>,
}

impl Connection {
    /// The buffered bytes not yet decoded.
    pub closed spec fn buf(&self) -> Seq<u8> {
        self.buffer@
    }

    /// A connection with an empty buffer.
    pub fn new() -> (r: Self)
        ensures
            r.buf() == Seq::<u8>::empty(),
    {
        Connection { buffer: Vec::new() }
    }

    /// Drops the first `n` buffered bytes.
    #[verifier::loop_isolation(false)]
    fn drain(&mut self, n: usize)
        requires
            n <= old(self).buffer@.len(),
        ensures
            final(self).buffer@ == old(self).buffer@.skip(n as int),
    {
        let mut rest: Vec<u8> = Vec::new();
        let mut k = n;
        while k < self.buffer.len()
            invariant
                n <= k <= self.buffer@.len(),
                self.buffer@ == old(self).buffer@,
                rest@ =~= self.buffer@.subrange(n as int, k as int),
            decreases self.buffer@.len() - k,
        {
            let b = self.buffer[k];
            rest.push(b);
            k = k + 1;
        }
        proof {
            assert(rest@ =~= old(self).buffer@.skip(n as int));
        }
        self.buffer = rest;
    }

    /// Drains the buffer after `emitted` bytes of responses are already
    /// owed: decodes and dispatches messages until the buffer runs dry,
    /// needs more bytes, or a remote lookup suspends it.
    fn process(&mut self, emitted: Vec<u8>, storage: &mut StorageService, now: u64) -> (r:
        FeedStep)
        requires
            old(storage).wf(),
        ensures
            final(storage).wf(),
            final(storage).providers() == old(storage).providers(),
            final(storage).cache_cap() == old(storage).cache_cap(),
            final(storage).cache_ttl() == old(storage).cache_ttl(),
            ({
                let ps = pipeline(
                    old(self).buf(),
                    old(storage).providers(),
                    old(storage).cache_entries(),
                    old(storage).cache_cap(),
                    old(storage).cache_ttl(),
                    now as int,
                );
                feed_matches(&r, emitted@, ps) && final(self).buf() == ps.buf && final(storage).cache_entries() == ps.cache
            }),
        decreases old(self).buffer@.len(),
    {
        let ghost buf0 = self.buffer@;
        let ghost emitted0 = emitted@;
        let ghost ps = pipeline(
            buf0,
            old(storage).providers(),
            old(storage).cache_entries(),
            old(storage).cache_cap(),
            old(storage).cache_ttl(),
            now as int,
        );
        if self.buffer.len() == 0 {
            proof {
                assert(emitted0 + ps.out =~= emitted0);
            }
            return FeedStep::Responses(emitted);
        }
        match decode_message(self.buffer.as_slice()) {
            Decoded::Incomplete => {
                if self.buffer.len() > MAX_COMMAND_BYTES {
                    let mut out = emitted;
                    let f = RedisFrame::Error(String::from_str("ERR Command too large"));
                    let mut b = f.to_bytes();
                    out.append(&mut b);
                    self.buffer.clear();
                    FeedStep::Responses(out)
                } else {
                    proof {
                        assert(emitted0 + ps.out =~= emitted0);
                    }
                    FeedStep::Responses(emitted)
                }
            },
            Decoded::Corrupt(m) => {
                let mut out = emitted;
                let ghost reason = m@;
                let e = RedisError::Protocol(m);
                let text = String::from_str("ERR ").concat(e.message().as_str());
                let f = RedisFrame::Error(text);
                let mut b = f.to_bytes();
                out.append(&mut b);
                self.buffer.clear();
                proof {
                    assert(ps.out =~= Seq::<u8>::empty());
                    assert(out@ =~= emitted0 + ps.out + encode(
                        FrameModel::Fault("ERR "@ + ("Protocol error: "@ + reason)),
                    ));
                }
                FeedStep::Responses(out)
            },
            Decoded::Frame(f, consumed) => {
                let ghost fmodel = f@;
                self.drain(consumed);
                let ghost rest = self.buffer@;
                proof {
                    assert(rest == buf0.skip(consumed as int));
                }
                match handle_command(f, storage, now) {
                    Ok(CommandStep::Reply(b)) => {
                        let mut out = emitted;
                        let mut b = b;
                        let ghost reply = b@;
                        out.append(&mut b);
                        let ghost tail = pipeline(
                            rest,
                            storage.providers(),
                            storage.cache_entries(),
                            storage.cache_cap(),
                            storage.cache_ttl(),
                            now as int,
                        );
                        let res = self.process(out, storage, now);
                        proof {
                            assert(ps.out == reply + tail.out);
                            assert((emitted0 + reply) + tail.out =~= emitted0 + (reply
                                + tail.out));
                            if tail.pending is None && tail.fault {
                                let m0 = choose|m0: Seq<char>|
                                    (res->Responses_0)@ == (emitted0 + reply) + tail.out + encode(
                                        FrameModel::Fault("ERR "@ + ("Protocol error: "@ + m0)),
                                    );
                                assert((emitted0 + reply) + tail.out + encode(
                                    FrameModel::Fault("ERR "@ + ("Protocol error: "@ + m0)),
                                ) =~= emitted0 + ps.out + encode(
                                    FrameModel::Fault("ERR "@ + ("Protocol error: "@ + m0)),
                                ));
                            }
                        }
                        res
                    },
                    Ok(CommandStep::Pending(pc)) => {
                        proof {
                            assert(emitted0 + ps.out =~= emitted0);
                            let (hm, c2) = handle_model(
                                fmodel,
                                old(storage).providers(),
                                old(storage).cache_entries(),
                                old(storage).cache_cap(),
                                old(storage).cache_ttl(),
                                now as int,
                            );
                            match hm {
                                HandleModel::PendingHget(p, id, q, fs) => {
                                    match &pc.kind {
                                        PendingKind::Hget(v) => {
                                            assert(v.deep_view() =~= fs) by {
                                                assert forall|j: int| 0 <= j < fs.len() implies v.deep_view()[j]
                                                    == fs[j] by {
                                                    assert(v.deep_view()[j] == v@[j]@);
                                                }
                                            }
                                        },
                                        _ => {},
                                    }
                                },
                                _ => {},
                            }
                        }
                        FeedStep::Await(emitted, pc)
                    },
                    Err(e) => {
                        let mut out = emitted;
                        let text = String::from_str("ERR ").concat(e.message().as_str());
                        let frame = RedisFrame::Error(text);
                        let mut b = frame.to_bytes();
                        let ghost reply = b@;
                        out.append(&mut b);
                        proof {
                            lemma_err_text(&e);
                        }
                        let ghost tail = pipeline(
                            rest,
                            storage.providers(),
                            storage.cache_entries(),
                            storage.cache_cap(),
                            storage.cache_ttl(),
                            now as int,
                        );
                        let res = self.process(out, storage, now);
                        proof {
                            assert(ps.out == reply + tail.out);
                            assert((emitted0 + reply) + tail.out =~= emitted0 + (reply
                                + tail.out));
                            if tail.pending is None && tail.fault {
                                let m0 = choose|m0: Seq<char>|
                                    (res->Responses_0)@ == (emitted0 + reply) + tail.out + encode(
                                        FrameModel::Fault("ERR "@ + ("Protocol error: "@ + m0)),
                                    );
                                assert((emitted0 + reply) + tail.out + encode(
                                    FrameModel::Fault("ERR "@ + ("Protocol error: "@ + m0)),
                                ) =~= emitted0 + ps.out + encode(
                                    FrameModel::Fault("ERR "@ + ("Protocol error: "@ + m0)),
                                ));
                            }
                        }
                        res
                    },
                }
            },
        }
    }

    /// Feeds newly read bytes into the buffer and answers every complete
    /// message now buffered, in order.
    pub fn feed(&mut self, input: &[u8], storage: &mut StorageService, now: u64) -> (r: FeedStep)
        requires
            old(storage).wf(),
        ensures
            final(storage).wf(),
            final(storage).providers() == old(storage).providers(),
            final(storage).cache_cap() == old(storage).cache_cap(),
            final(storage).cache_ttl() == old(storage).cache_ttl(),
            ({
                let ps = pipeline(
                    old(self).buf() + input@,
                    old(storage).providers(),
                    old(storage).cache_entries(),
                    old(storage).cache_cap(),
                    old(storage).cache_ttl(),
                    now as int,
                );
                feed_matches(&r, Seq::empty(), ps) && final(self).buf() == ps.buf && final(storage).cache_entries() == ps.cache
            }),
    {
        let ghost buf0 = self.buffer@;
        let mut k: usize = 0;
        while k < input.len()
            invariant
                k <= input@.len(),
                self.buffer@ =~= buf0 + input@.take(k as int),
            decreases input@.len() - k,
        {
            let b = input[k];
            self.buffer.push(b);
            proof {
                assert(self.buffer@ =~= buf0 + input@.take(k + 1));
            }
            k = k + 1;
        }
        proof {
            assert(input@.take(input@.len() as int) =~= input@);
        }
        self.process(Vec::new(), storage, now)
    }

    /// Resumes after a remote lookup: the pending command's reply comes
    /// first, then the rest of the buffer drains as `feed` would.
    pub fn resume(
        &mut self,
        pending: PendingCommand,
        rows: Result<Vec<Record>, String>,
        storage: &mut StorageService,
        now: u64,
    ) -> (r: FeedStep)
        requires
            old(storage).wf(),
        ensures
            final(storage).wf(),
            final(storage).providers() == old(storage).providers(),
            final(storage).cache_cap() == old(storage).cache_cap(),
            final(storage).cache_ttl() == old(storage).cache_ttl(),
            ({
                let kind_fields = match pending.kind {
                    PendingKind::Get => None,
                    PendingKind::Hget(fs) => Some(fs.deep_view()),
                };
                let (hm, c2) = finish_model(
                    kind_fields,
                    pending.query.provider@,
                    pending.query.id@,
                    &rows,
                    old(storage).cache_entries(),
                    old(storage).cache_cap(),
                    old(storage).cache_ttl(),
                    now as int,
                );
                let first = match hm {
                    HandleModel::Reply(f) => encode(f),
                    HandleModel::Bad(em) => encode(err_frame(em)),
                    _ => Seq::empty(),
                };
                let ps = pipeline(
                    old(self).buf(),
                    old(storage).providers(),
                    c2,
                    old(storage).cache_cap(),
                    old(storage).cache_ttl(),
                    now as int,
                );
                feed_matches(&r, first, ps) && final(self).buf() == ps.buf && final(storage).cache_entries() == ps.cache
            }),
    {
        let mut out: Vec<u8> = Vec::new();
        match finish_command(pending, rows, storage, now) {
            Ok(b) => {
                let mut b = b;
                out.append(&mut b);
            },
            Err(e) => {
                let text = String::from_str("ERR ").concat(e.message().as_str());
                let frame = RedisFrame::Error(text);
                let mut b = frame.to_bytes();
                out.append(&mut b);
                proof {
                    lemma_err_text(&e);
                }
            },
        }
        self.process(out, storage, now)
    }
}

/// A handler error's rendered text equals its model's text, variant by
/// variant.
proof fn lemma_err_text(e: &RedisError)
    ensures
        forall|em: RedisErrorModel| err_matches(e, em) ==> message_of(*e) == err_model_text(em),
{
}

} // verus!

verus! {

/// Every frame in the sequence is answered directly when dispatched in
/// order: no remote lookup and no handler error interrupts the run.
pub open spec fn all_replies(
    frames: Seq<FrameModel>,
    providers: Seq<(Seq<char>, AdapterModel)>,
    cache: CacheModel,
    cap: int,
    ttl: int,
    now: int,
) -> bool
    decreases frames.len(),
{
    if frames.len() == 0 {
        true
    } else {
        let (hm, c2) = handle_model(frames[0], providers, cache, cap, ttl, now);
        (hm is Reply) && all_replies(frames.drop_first(), providers, c2, cap, ttl, now)
    }
}

/// The concatenated reply encodings, and the final cache, of dispatching
/// the frames in order.
pub open spec fn run_commands(
    frames: Seq<FrameModel>,
    providers: Seq<(Seq<char>, AdapterModel)>,
    cache: CacheModel,
    cap: int,
    ttl: int,
    now: int,
) -> (Seq<u8>, CacheModel)
    decreases frames.len(),
{
    if frames.len() == 0 {
        (Seq::empty(), cache)
    } else {
        let (hm, c2) = handle_model(frames[0], providers, cache, cap, ttl, now);
        let first = match hm {
            HandleModel::Reply(f) => encode(f),
            HandleModel::Bad(em) => encode(err_frame(em)),
            _ => Seq::empty(),
        };
        let (rest, cf) = run_commands(frames.drop_first(), providers, c2, cap, ttl, now);
        (first + rest, cf)
    }
}

/// Pipelining law: a buffer holding the concatenated encodings of `N`
/// well-formed request frames, each answered directly, drains to exactly
/// the `N` reply frames' encodings, in request order, leaving an empty
/// buffer and no suspension.
pub proof fn lemma_pipelining(
    frames: Seq<FrameModel>,
    providers: Seq<(Seq<char>, AdapterModel)>,
    cache: CacheModel,
    cap: int,
    ttl: int,
    now: int,
)
    requires
        forall|i: int| 0 <= i < frames.len() ==> crate::redis_protocol::wf(#[trigger] frames[i]),
        all_replies(frames, providers, cache, cap, ttl, now),
    ensures
        ({
            let (out, cf) = run_commands(frames, providers, cache, cap, ttl, now);
            pipeline(crate::redis_protocol::encode_seq(frames), providers, cache, cap, ttl, now)
                == (PipeState { out, buf: Seq::<u8>::empty(), cache: cf, pending: None, fault: false })
        }),
    decreases frames.len(),
{
    let buf = crate::redis_protocol::encode_seq(frames);
    if frames.len() == 0 {
        assert(buf.len() == 0);
        let ps = pipeline(buf, providers, cache, cap, ttl, now);
        assert(ps.buf =~= Seq::<u8>::empty());
        assert(ps == (PipeState {
            out: Seq::<u8>::empty(),
            buf: Seq::<u8>::empty(),
            cache,
            pending: None,
            fault: false,
        }));
    } else {
        let m0 = frames[0];
        let rest_frames = frames.drop_first();
        let e0 = crate::redis_protocol::encode(m0);
        let er = crate::redis_protocol::encode_seq(rest_frames);
        assert(buf == e0 + er) by {
            assert(frames.subrange(1, frames.len() as int) =~= rest_frames);
        }
        crate::redis_protocol::lemma_codec_round_trip(m0, er);
        crate::redis_protocol::lemma_encode_len(m0);
        assert(dec_message(buf) == DecodeStep::Done(m0, e0.len() as int));
        assert(buf.skip(e0.len() as int) =~= er);
        let (hm, c2) = handle_model(m0, providers, cache, cap, ttl, now);
        assert(hm is Reply);
        assert forall|i: int| 0 <= i < rest_frames.len() implies crate::redis_protocol::wf(
            #[trigger] rest_frames[i],
        ) by {
            assert(rest_frames[i] == frames[i + 1]);
        }
        lemma_pipelining(rest_frames, providers, c2, cap, ttl, now);
    }
}

} // verus!
