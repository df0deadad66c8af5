//! The per-frame connection logic: reading one decoded frame in the
//! `Ready` state and turning it into a reply, state changes, and
//! forwarding work; the replica-side handshake steps; and the
//! resolution of pending WAIT and blocking stream reads. All socket
//! work stays with the event loop, which only carries bytes.

use vstd::prelude::*;

use crate::command::{
    spec_command_of, spec_execute_map, spec_execute_reply, spec_err_matches,
    spec_xread_fold, CmdView, ExecErr, RedisCommand,
};
use crate::db::{
    same_control, spec_count_uptodate, spec_forward_tokens, spec_sat_add, ConnectionState,
    PendingStreamXread, RedisDb, Replica, txn_tokens_unique,
};
use crate::digits::{spec_udigits, u64_to_string};
use crate::error::Error;
use crate::parser::{
    spec_encode, spec_seq_view, lemma_seq_view_props, RedisValue, RespView,
};

verus! {

/// What the event loop must do after one frame: write a reply to this
/// connection, push bytes to replicas, hand the connection over as a
/// replica after sending the snapshot, or drop it.
pub struct StepResult {
    pub reply: Option<String>,
    pub forward: Option<String>,
    pub forward_tokens: Vec<usize>,
    pub register_replica: bool,
    pub send_rdb: bool,
    pub close: bool,
}

/// The first queued transaction slot of `token`, or the length.
pub open spec fn spec_txn_pos(s: Seq<(usize, Vec<RedisCommand>)>, token: usize, pos: int) -> int
    decreases s.len() - pos,
{
    if pos < 0 || pos >= s.len() {
        s.len() as int
    } else if s[pos].0 == token {
        pos
    } else {
        spec_txn_pos(s, token, pos + 1)
    }
}

/// Whether `token` has an open transaction.
pub open spec fn spec_has_txn(s: Seq<(usize, Vec<RedisCommand>)>, token: usize) -> bool {
    spec_txn_pos(s, token, 0) < s.len()
}

/// Finds the open transaction of `token`, if any.
fn find_txn(db: &RedisDb, token: usize) -> (r: Option<usize>)
    ensures
        match r {
            Some(i) => i as int == spec_txn_pos(db.ongoing_transactions@, token, 0) && i
                < db.ongoing_transactions@.len() && db.ongoing_transactions@[i as int].0
                == token,
            None => !spec_has_txn(db.ongoing_transactions@, token),
        },
{
    let mut i: usize = 0;
    while i < db.ongoing_transactions.len()
        invariant
            i <= db.ongoing_transactions@.len(),
            spec_txn_pos(db.ongoing_transactions@, token, 0) == spec_txn_pos(
                db.ongoing_transactions@,
                token,
                i as int,
            ),
        decreases db.ongoing_transactions@.len() - i,
    {
        if db.ongoing_transactions[i].0 == token {
            proof {
                assert(spec_txn_pos(db.ongoing_transactions@, token, i as int)
                    == i as int);
            }
            return Some(i);
        }
        proof {
            assert(spec_txn_pos(db.ongoing_transactions@, token, i as int)
                == spec_txn_pos(db.ongoing_transactions@, token, i as int + 1));
        }
        i += 1;
    }
    proof {
        assert(spec_txn_pos(db.ongoing_transactions@, token, i as int)
            == db.ongoing_transactions@.len() as int);
    }
    None
}

/// Everything except the open transaction queues agrees between two
/// server states.
pub open spec fn same_engine(a: RedisDb, b: RedisDb) -> bool {
    &&& a.inner == b.inner
    &&& a.info == b.info
    &&& a.state == b.state
    &&& a.replicas == b.replicas
    &&& a.processed_bytes == b.processed_bytes
    &&& a.token_track == b.token_track
    &&& a.pending_stream_xread == b.pending_stream_xread
}

/// One committed step of a transaction: the command's reply and the
/// new mapping are exactly the engine's, and the bookkeeping is
/// untouched.
pub open spec fn spec_txn_step(
    d1: RedisDb,
    c: CmdView,
    v: RespView,
    d2: RedisDb,
    now_ms: u64,
) -> bool {
    &&& spec_execute_reply(c, d1, now_ms) == Ok::<RespView, ExecErr>(v)
    &&& d2.store_map() == spec_execute_map(c, d1, now_ms)
    &&& same_control(d1, d2)
    &&& d2.wf()
}

/// `elems` are the replies of running `cmds` in order: there is a
/// thread of intermediate states from one engine-equal to `pre` to one
/// engine-equal to `post`, each step the engine's own reply and
/// effect, with no interleaving.
pub open spec fn spec_txn_run(
    pre: RedisDb,
    cmds: Seq<CmdView>,
    elems: Seq<RespView>,
    post: RedisDb,
    now_ms: u64,
) -> bool {
    exists|dbs: Seq<RedisDb>|
        #![auto]
        {
            &&& dbs.len() == cmds.len() + 1
            &&& same_engine(dbs[0], pre)
            &&& same_engine(dbs[cmds.len() as int], post)
            &&& elems.len() == cmds.len()
            &&& (forall|i: int| 0 <= i < cmds.len() ==> spec_txn_step(
                dbs[i],
                cmds[i],
                elems[i],
                dbs[i + 1],
                now_ms,
            ))
        }
}

/// The models of a run of commands.
pub open spec fn cmd_views(s: Seq<RedisCommand>) -> Seq<CmdView> {
    Seq::new(s.len(), |i: int| s[i]@)
}

/// A run witnessed from one starting state is witnessed from any
/// engine-equal one.
pub proof fn lemma_txn_run_repre(
    pre1: RedisDb,
    pre2: RedisDb,
    cmds: Seq<CmdView>,
    elems: Seq<RespView>,
    post: RedisDb,
    now_ms: u64,
)
    requires
        spec_txn_run(pre1, cmds, elems, post, now_ms),
        same_engine(pre1, pre2),
    ensures
        spec_txn_run(pre2, cmds, elems, post, now_ms),
{
    let dbs = choose|dbs: Seq<RedisDb>|
        #![auto]
        {
            &&& dbs.len() == cmds.len() + 1
            &&& same_engine(dbs[0], pre1)
            &&& same_engine(dbs[cmds.len() as int], post)
            &&& elems.len() == cmds.len()
            &&& (forall|i: int| 0 <= i < cmds.len() ==> spec_txn_step(
                dbs[i],
                cmds[i],
                elems[i],
                dbs[i + 1],
                now_ms,
            ))
        };
    assert(same_engine(dbs[0], pre2));
}

/// Runs the queued commands of a transaction in order, collecting one
/// reply per command into a single array: the i-th element is the
/// engine's reply to the i-th command against the state the earlier
/// commands left. On the first refused command the run stops with its
/// error and the state reflects the executed prefix.
pub fn run_transaction(db: &mut RedisDb, cmds: Vec<RedisCommand>, now_ms: u64) -> (r:
    Result<RedisValue, Error>)
    requires
        old(db).wf(),
    ensures
        final(db).wf(),
        same_control(*old(db), *final(db)),
        match r {
            Ok(v) => v@ matches RespView::Array(n, elems) && n == cmds@.len()
                && elems.len() == cmds@.len() && spec_txn_run(
                *old(db),
                cmd_views(cmds@),
                elems,
                *final(db),
                now_ms,
            ),
            Err(e) => exists|k: int, elems: Seq<RespView>, dmid: RedisDb|
                #![auto]
                {
                    &&& 0 <= k < cmds@.len()
                    &&& spec_txn_run(
                        *old(db),
                        cmd_views(cmds@).subrange(0, k),
                        elems,
                        dmid,
                        now_ms,
                    )
                    &&& (spec_execute_reply(cmd_views(cmds@)[k], dmid, now_ms) matches Err(
                        kind,
                    ) && spec_err_matches(kind, e))
                    &&& final(db).store_map() == spec_execute_map(
                        cmd_views(cmds@)[k],
                        dmid,
                        now_ms,
                    )
                },
        },
{
    let mut results: Vec<RedisValue> = Vec::new();
    let ghost mut trace: Seq<RedisDb> = seq![*old(db)];
    let ghost mut elemsg: Seq<RespView> = Seq::empty();
    let mut i: usize = 0;
    while i < cmds.len()
        invariant
            db.wf(),
            i <= cmds@.len(),
            results@.len() == i,
            same_control(*old(db), *db),
            trace.len() == i + 1,
            trace[0] == *old(db),
            trace[i as int] == *db,
            elemsg.len() == i,
            forall|j: int| 0 <= j < i ==> spec_txn_step(
                trace[j],
                cmds@[j]@,
                elemsg[j],
                trace[j + 1],
                now_ms,
            ),
            forall|j: int| 0 <= j < i ==> (#[trigger] results@[j])@ == elemsg[j],
        decreases cmds@.len() - i,
    {
        let ghost dpre = *db;
        match cmds[i].execute(db, now_ms) {
            Ok(v) => {
                proof {
                    elemsg = elemsg.push(v@);
                    trace = trace.push(*db);
                }
                results.push(v);
            },
            Err(e) => {
                proof {
                    let sub = cmd_views(cmds@).subrange(0, i as int);
                    assert(sub.len() == i);
                    assert(forall|q: int| 0 <= q < i ==> sub[q] == (
                    #[trigger] cmds@[q])@);
                    assert(forall|q: int| 0 <= q < i ==> spec_txn_step(
                        trace[q],
                        sub[q],
                        elemsg[q],
                        trace[q + 1],
                        now_ms,
                    ));
                    assert(same_engine(trace[0], *old(db)));
                    assert(same_engine(trace[i as int], dpre));
                    assert(spec_txn_run(*old(db), sub, elemsg, dpre, now_ms));
                    assert(cmd_views(cmds@)[i as int] == cmds@[i as int]@);
                }
                return Err(e);
            },
        }
        i += 1;
    }
    let n = results.len();
    proof {
        lemma_seq_view_props(results@);
        let elems = spec_seq_view(results@);
        assert forall|q: int| 0 <= q < elems.len() implies elems[q] == elemsg[q] by {
            assert(elems[q] == results@[q]@);
        }
        assert(elems =~= elemsg);
        assert(same_engine(trace[0], *old(db)));
        assert(same_engine(trace[cmds@.len() as int], *db));
        assert(cmd_views(cmds@).len() == cmds@.len());
        assert(forall|q: int| 0 <= q < cmds@.len() ==> spec_txn_step(
            trace[q],
            cmd_views(cmds@)[q],
            elems[q],
            trace[q + 1],
            now_ms,
        )) by {
            assert(forall|q: int| 0 <= q < cmds@.len() ==> cmd_views(cmds@)[q] == (
            #[trigger] cmds@[q])@);
        }
        assert(spec_txn_run(*old(db), cmd_views(cmds@), elems, *db, now_ms));
    }
    Ok(RedisValue::Array(n, results))
}

/// Encodes a simple string reply.
fn simple_reply(text: &str) -> (r: String)
    ensures
        r@ == spec_encode(RespView::SimpleString(text@)),
{
    let v = RedisValue::SimpleString(String::from_str(text));
    v.encode()
}

/// Encodes a simple error reply.
fn error_reply(text: &str) -> (r: String)
    ensures
        r@ == spec_encode(RespView::SimpleError(text@)),
{
    let v = RedisValue::SimpleError(String::from_str(text));
    v.encode()
}

/// Builds the `REPLCONF GETACK *` probe as wire bytes.
fn getack_probe() -> (r: String)
    ensures
        r@ == spec_encode(
            RespView::Array(
                3,
                seq![
                    RespView::BulkString(8, "REPLCONF"@),
                    RespView::BulkString(6, "GETACK"@),
                    RespView::BulkString(1, "*"@),
                ],
            ),
        ),
{
    let mut parts: Vec<RedisValue> = Vec::new();
    parts.push(RedisValue::bulkstring_from("REPLCONF"));
    parts.push(RedisValue::bulkstring_from("GETACK"));
    parts.push(RedisValue::bulkstring_from("*"));
    proof {
        lemma_seq_view_props(parts@);
        reveal_strlit("REPLCONF");
        reveal_strlit("GETACK");
        reveal_strlit("*");
        assert(spec_seq_view(parts@)[0] == parts@[0]@);
        assert(spec_seq_view(parts@)[1] == parts@[1]@);
        assert(spec_seq_view(parts@)[2] == parts@[2]@);
        assert(spec_seq_view(parts@) =~= seq![
            RespView::BulkString(8, "REPLCONF"@),
            RespView::BulkString(6, "GETACK"@),
            RespView::BulkString(1, "*"@),
        ]);
    }
    let v = RedisValue::Array(3, parts);
    v.encode()
}

/// Handles one decoded frame on a connection in the ready state.
///
/// The frame is read as a command; a frame that means none is answered
/// with an error and the connection is closed. MULTI opens a queue for
/// the connection; inside a queue, EXEC runs everything at once and
/// answers with one array holding each queued command's reply, DISCARD
/// throws the queue away, and any other command is queued. WAIT and a
/// blocking stream read install their global condition and answer
/// nothing yet. Every other command is executed: the reply is the
/// engine's own, an operation against the wrong kind of value is
/// answered with the named error and the connection stays open, and a
/// write that must reach the replicas is handed back verbatim together
/// with every replica's token, all replicas marked as lagging.
#[verifier::loop_isolation(false)]
pub fn process_ready_frame(
    db: &mut RedisDb,
    token: usize,
    value: &RedisValue,
    silent: bool,
    now_ms: u64,
) -> (r: StepResult)
    requires
        old(db).wf(),
    ensures
        final(db).wf(),
        ({
            let cmd = spec_command_of(value@);
            let had_txn = spec_has_txn(old(db).ongoing_transactions@, token);
            &&& (cmd matches Some(c) && c is SetKv && !had_txn ==> (
            r.forward matches Some(s) && s@ == spec_encode(value@) && r.forward_tokens@
                == spec_forward_tokens(final(db).replicas@, false, 0))
                && final(db).replicas@.len() == old(db).replicas@.len() && (forall|i: int|
                0 <= i < old(db).replicas@.len() ==> (#[trigger] final(db).replicas@[i])
                    == Replica { token: old(db).replicas@[i].token, up_to_date: false }))
            &&& (!(cmd matches Some(c) && c is SetKv) ==> !(r.forward matches Some(_)
                && r.forward_tokens@.len() > 0) || (cmd matches Some(c) && c is Wait))
            &&& (cmd is None ==> r.close && (r.reply matches Some(s) && s@ == spec_encode(
                RespView::SimpleError("ERR protocol error"@),
            )) && *final(db) == *old(db))
            &&& (cmd matches Some(c) && c is Multi ==> (r.reply matches Some(s) && s@
                == spec_encode(RespView::SimpleString("OK"@))) && spec_has_txn(
                final(db).ongoing_transactions@,
                token,
            ) && same_engine(*final(db), *old(db)) && !r.close)
            &&& (cmd matches Some(c) && c is Exec && had_txn ==> !spec_has_txn(
                final(db).ongoing_transactions@,
                token,
            ) && ({
                let q = cmd_views(
                    old(db).ongoing_transactions@[spec_txn_pos(
                        old(db).ongoing_transactions@,
                        token,
                        0,
                    )].1@,
                );
                &&& (!r.close ==> (r.reply matches Some(s) && exists|elems: Seq<RespView>|
                    #![auto]
                    {
                        &&& elems.len() == q.len()
                        &&& s@ == spec_encode(RespView::Array(q.len() as int, elems))
                        &&& spec_txn_run(*old(db), q, elems, *final(db), now_ms)
                    }))
                &&& (r.close ==> r.reply is None)
            }))
            &&& (cmd matches Some(c) && c is Discard && had_txn ==> !spec_has_txn(
                final(db).ongoing_transactions@,
                token,
            ) && (r.reply matches Some(s) && s@ == spec_encode(
                RespView::SimpleString("OK"@),
            )) && same_engine(*final(db), *old(db)) && !r.close)
            &&& (cmd is Some && !((cmd->0) is Multi) && !((cmd->0) is Exec) && !((
            cmd->0) is Discard) && had_txn ==> ({
                let pos = spec_txn_pos(old(db).ongoing_transactions@, token, 0);
                let oldq = old(db).ongoing_transactions@;
                let newq = final(db).ongoing_transactions@;
                &&& !r.close
                &&& (r.reply matches Some(s) && s@ == spec_encode(
                    RespView::SimpleString("QUEUED"@),
                ))
                &&& same_engine(*final(db), *old(db))
                &&& newq.len() == oldq.len()
                &&& (forall|j: int| 0 <= j < oldq.len() && j != pos ==> #[trigger] newq[j]
                    == oldq[j])
                &&& newq[pos].0 == token
                &&& newq[pos].1@.len() == oldq[pos].1@.len() + 1
                &&& (forall|j: int| 0 <= j < oldq[pos].1@.len()
                    ==> (#[trigger] newq[pos].1@[j])@ == oldq[pos].1@[j]@)
                &&& newq[pos].1@.last()@ == cmd->0
            }))
            &&& (cmd matches Some(c) && c is Exec && !had_txn ==> (r.reply matches Some(
                s,
            ) && s@ == spec_encode(RespView::SimpleError("ERR EXEC without MULTI"@)))
                && *final(db) == *old(db) && !r.close)
            &&& (cmd matches Some(c) && c is Discard && !had_txn ==> (r.reply matches
            Some(s) && s@ == spec_encode(RespView::SimpleError(
                "ERR DISCARD without MULTI"@,
            ))) && *final(db) == *old(db) && !r.close)
            &&& (cmd matches Some(c) && c is Wait && !had_txn ==> r.reply is None
                && final(db).state == ConnectionState::Waiting(
                now_ms,
                cmd->0->Wait_1,
                cmd->0->Wait_0,
                spec_count_uptodate(old(db).replicas@) as u64,
            ) && (r.forward matches Some(s) && s@ == spec_encode(
                RespView::Array(
                    3,
                    seq![
                        RespView::BulkString(8, "REPLCONF"@),
                        RespView::BulkString(6, "GETACK"@),
                        RespView::BulkString(1, "*"@),
                    ],
                ),
            )) && r.forward_tokens@ == spec_forward_tokens(old(db).replicas@, true, 0))
            &&& (cmd matches Some(c) && c is Psync && !had_txn && !r.close
                ==> r.register_replica && r.send_rdb)
            &&& (cmd is Some && (cmd->0) is Xread && (cmd->0).arrow_Xread_block()
                is Some && !had_txn && !r.close ==> r.reply is None && (final(db).state
                matches ConnectionState::BlockingStreams(t0, tmo, _) && t0 == now_ms
                && tmo == (cmd->0).arrow_Xread_block()->0) && (final(db).pending_stream_xread matches Some(p) && p.connection_token == token
                && p.initial_time_ms == now_ms && p.timeout_ms
                == (cmd->0).arrow_Xread_block()->0) && final(db).processed_bytes as int
                == (if old(db).processed_bytes + spec_encode(value@).len() > usize::MAX {
                usize::MAX as int
            } else {
                old(db).processed_bytes + spec_encode(value@).len()
            }))
            &&& (cmd is Some && !((cmd->0) is Multi) && !((cmd->0) is Exec) && !((
            cmd->0) is Discard) && !((cmd->0) is Wait) && !((cmd->0) is Xread
                && (cmd->0).arrow_Xread_block() is Some) && !had_txn ==> final(db).store_map() == spec_execute_map(cmd->0, *old(db), now_ms) && (match
            spec_execute_reply(cmd->0, *old(db), now_ms) {
                Ok(v) => !r.close && (if !silent || (cmd->0) is ReplConfGetAck {
                    r.reply matches Some(s) && s@ == spec_encode(v)
                } else {
                    r.reply is None
                }) && final(db).processed_bytes as int == (if old(db).processed_bytes
                    + spec_encode(value@).len() > usize::MAX {
                    usize::MAX as int
                } else {
                    old(db).processed_bytes + spec_encode(value@).len()
                }),
                Err(ExecErr::WrongKind) => !r.close && (if !silent {
                    r.reply matches Some(s) && s@ == spec_encode(
                        RespView::SimpleError(
                            "WRONGTYPE Operation against a key holding the wrong kind of value"@,
                        ),
                    )
                } else {
                    r.reply is None
                }) && final(db).processed_bytes as int == (if old(db).processed_bytes
                    + spec_encode(value@).len() > usize::MAX {
                    usize::MAX as int
                } else {
                    old(db).processed_bytes + spec_encode(value@).len()
                }),
                Err(_) => r.close && r.reply is None && final(db).processed_bytes == old(
                    db,
                ).processed_bytes,
            }))
        }),
{
    let cmd = match RedisCommand::try_from(value) {
        Ok(c) => c,
        Err(_) => {
            return StepResult {
                reply: Some(error_reply("ERR protocol error")),
                forward: None,
                forward_tokens: Vec::new(),
                register_replica: false,
                send_rdb: false,
                close: true,
            };
        },
    };
    if matches!(cmd, RedisCommand::Multi) {
        match find_txn(db, token) {
            Some(i) => {
                let empty: Vec<RedisCommand> = Vec::new();
                db.ongoing_transactions[i] = (token, empty);
                proof {
                    assert(spec_txn_pos(db.ongoing_transactions@, token, 0) <= i as int)
                        by {
                        lemma_txn_pos_le(db.ongoing_transactions@, token, i as int);
                    }
                }
            },
            None => {
                let empty: Vec<RedisCommand> = Vec::new();
                let ghost pre = db.ongoing_transactions@;
                db.ongoing_transactions.push((token, empty));
                proof {
                    lemma_txn_pos_le(
                        db.ongoing_transactions@,
                        token,
                        db.ongoing_transactions@.len() - 1,
                    );
                    assert(txn_tokens_unique(db.ongoing_transactions@)) by {
                        assert(forall|a: int| 0 <= a < pre.len()
                            ==> (#[trigger] db.ongoing_transactions@[a]) == pre[a]);
                        assert(!spec_has_txn(pre, token));
                        assert(forall|a: int| 0 <= a < pre.len() ==> (#[trigger] pre[a]).0
                            != token) by {
                            lemma_txn_pos_no_match(pre, token);
                        }
                    }
                }
            },
        }
        return StepResult {
            reply: Some(simple_reply("OK")),
            forward: None,
            forward_tokens: Vec::new(),
            register_replica: false,
            send_rdb: false,
            close: false,
        };
    }
    match find_txn(db, token) {
        Some(i) => {
            match cmd {
                RedisCommand::Discard => {
                    let ghost pre = db.ongoing_transactions@;
                    db.ongoing_transactions.remove(i);
                    proof {
                        lemma_txn_remove(pre, token, i as int);
                    }
                    StepResult {
                        reply: Some(simple_reply("OK")),
                        forward: None,
                        forward_tokens: Vec::new(),
                        register_replica: false,
                        send_rdb: false,
                        close: false,
                    }
                },
                RedisCommand::Exec => {
                    let ghost pre = db.ongoing_transactions@;
                    let entry = db.ongoing_transactions.remove(i);
                    proof {
                        lemma_txn_remove(pre, token, i as int);
                    }
                    let ghost dafter = *db;
                    match run_transaction(db, entry.1, now_ms) {
                        Ok(v) => {
                            let enc = v.encode();
                            proof {
                                let q = cmd_views(pre[i as int].1@);
                                assert(same_engine(dafter, *old(db)));
                                let elems = v@.arrow_Array_1();
                                lemma_txn_run_repre(
                                    dafter,
                                    *old(db),
                                    q,
                                    elems,
                                    *db,
                                    now_ms,
                                );
                                assert(elems.len() == q.len() && enc@ == spec_encode(
                                    RespView::Array(q.len() as int, elems),
                                ) && spec_txn_run(*old(db), q, elems, *db, now_ms));
                            }
                            StepResult {
                                reply: Some(enc),
                                forward: None,
                                forward_tokens: Vec::new(),
                                register_replica: false,
                                send_rdb: false,
                                close: false,
                            }
                        },
                        Err(_) => StepResult {
                            reply: None,
                            forward: None,
                            forward_tokens: Vec::new(),
                            register_replica: false,
                            send_rdb: false,
                            close: true,
                        },
                    }
                },
                other => {
                    let ghost pre = db.ongoing_transactions@;
                    let mut entry = db.ongoing_transactions.remove(i);
                    entry.1.push(other);
                    db.ongoing_transactions.insert(i, entry);
                    proof {
                        assert(db.ongoing_transactions@ =~= pre.update(
                            i as int,
                            db.ongoing_transactions@[i as int],
                        ));
                        assert(db.ongoing_transactions@[i as int].0 == token);
                        assert(txn_tokens_unique(db.ongoing_transactions@)) by {
                            assert(forall|a: int| 0 <= a < db.ongoing_transactions@.len()
                                ==> (#[trigger] db.ongoing_transactions@[a]).0
                                == pre[a].0);
                        }
                        lemma_txn_pos_update_same(
                            pre,
                            db.ongoing_transactions@,
                            token,
                            0,
                        );
                    }
                    StepResult {
                        reply: Some(simple_reply("QUEUED")),
                        forward: None,
                        forward_tokens: Vec::new(),
                        register_replica: false,
                        send_rdb: false,
                        close: false,
                    }
                },
            }
        },
        None => {
            match cmd {
                RedisCommand::Exec => StepResult {
                    reply: Some(error_reply("ERR EXEC without MULTI")),
                    forward: None,
                    forward_tokens: Vec::new(),
                    register_replica: false,
                    send_rdb: false,
                    close: false,
                },
                RedisCommand::Discard => StepResult {
                    reply: Some(error_reply("ERR DISCARD without MULTI")),
                    forward: None,
                    forward_tokens: Vec::new(),
                    register_replica: false,
                    send_rdb: false,
                    close: false,
                },
                RedisCommand::Wait(nb_replicas, timeout) => {
                    let obtained = db.get_nb_uptodate_replicas();
                    db.state = ConnectionState::Waiting(
                        now_ms,
                        timeout,
                        nb_replicas,
                        obtained as u64,
                    );
                    let probe = getack_probe();
                    let stale = db.replicas_to_forward(true);
                    StepResult {
                        reply: None,
                        forward: Some(probe),
                        forward_tokens: stale,
                        register_replica: false,
                        send_rdb: false,
                        close: false,
                    }
                },
                RedisCommand::Xread { block: Some(block), key_offset_pairs } => {
                    let mut resolved: Vec<(String, String)> = Vec::new();
                    let mut i: usize = 0;
                    let enc = value.encode();
                    let frame_len = enc.as_str().unicode_len();
                    while i < key_offset_pairs.len()
                        invariant
                            db.wf(),
                            i <= key_offset_pairs@.len(),
                            resolved@.len() == i,
                            same_control(*old(db), *db),
                        decreases key_offset_pairs@.len() - i,
                    {
                        let k = key_offset_pairs[i].0.clone();
                        let sid = key_offset_pairs[i].1.clone();
                        if crate::str_eq(sid.as_str(), "$") {
                            match db.get_last_stream_id(k.as_str()) {
                                Ok(last) => {
                                    resolved.push((k, last));
                                },
                                Err(_) => {
                                    return StepResult {
                                        reply: None,
                                        forward: None,
                                        forward_tokens: Vec::new(),
                                        register_replica: false,
                                        send_rdb: false,
                                        close: true,
                                    };
                                },
                            }
                        } else {
                            resolved.push((k, sid));
                        }
                        i += 1;
                    }
                    let pairs2 = crate::stream::clone_pairs(&resolved);
                    db.state = ConnectionState::BlockingStreams(now_ms, block, resolved);
                    db.pending_stream_xread = Some(
                        PendingStreamXread {
                            connection_token: token,
                            initial_time_ms: now_ms,
                            timeout_ms: block,
                            key_offset_pairs: pairs2,
                        },
                    );
                    if db.processed_bytes <= usize::MAX - frame_len {
                        db.processed_bytes = db.processed_bytes + frame_len;
                    } else {
                        db.processed_bytes = usize::MAX;
                    }
                    StepResult {
                        reply: None,
                        forward: None,
                        forward_tokens: Vec::new(),
                        register_replica: false,
                        send_rdb: false,
                        close: false,
                    }
                },
                cmd => {
                    let enc = value.encode();
                    let frame_len = enc.as_str().unicode_len();
                    let is_getack = matches!(cmd, RedisCommand::ReplConfGetAck);
                    let is_psync = matches!(cmd, RedisCommand::Psync);
                    let should_forward = cmd.should_forward_to_replicas();
                    match cmd.execute(db, now_ms) {
                        Ok(response) => {
                            if db.processed_bytes <= usize::MAX - frame_len {
                                db.processed_bytes = db.processed_bytes + frame_len;
                            } else {
                                db.processed_bytes = usize::MAX;
                            }
                            let reply: Option<String> = if !silent || is_getack {
                                Some(response.encode())
                            } else {
                                None
                            };
                            let (forward, forward_tokens): (Option<String>, Vec<usize>) =
                                if should_forward {
                                db.mark_replicas_as_outdated();
                                let all = db.replicas_to_forward(false);
                                (Some(enc), all)
                            } else {
                                (None, Vec::new())
                            };
                            StepResult {
                                reply,
                                forward,
                                forward_tokens,
                                register_replica: is_psync,
                                send_rdb: is_psync,
                                close: false,
                            }
                        },
                        Err(Error::WrongTypeOperation) => {
                            if db.processed_bytes <= usize::MAX - frame_len {
                                db.processed_bytes = db.processed_bytes + frame_len;
                            } else {
                                db.processed_bytes = usize::MAX;
                            }
                            let reply: Option<String> = if !silent {
                                Some(
                                    error_reply(
                                        "WRONGTYPE Operation against a key holding the wrong kind of value",
                                    ),
                                )
                            } else {
                                None
                            };
                            StepResult {
                                reply,
                                forward: None,
                                forward_tokens: Vec::new(),
                                register_replica: false,
                                send_rdb: false,
                                close: false,
                            }
                        },
                        Err(_) => {
                            proof {
                                if cmd@ is SetKv {
                                    assert(false);
                                }
                            }
                            StepResult {
                                reply: None,
                                forward: None,
                                forward_tokens: Vec::new(),
                                register_replica: false,
                                send_rdb: false,
                                close: true,
                            }
                        },
                    }
                },
            }
        },
    }
}

proof fn lemma_txn_pos_le(s: Seq<(usize, Vec<RedisCommand>)>, token: usize, j: int)
    requires
        0 <= j < s.len(),
        s[j].0 == token,
    ensures
        spec_txn_pos(s, token, 0) <= j,
        spec_txn_pos(s, token, 0) < s.len(),
        s[spec_txn_pos(s, token, 0)].0 == token,
    decreases s.len(),
{
    lemma_txn_pos_from(s, token, 0, j);
}

proof fn lemma_txn_pos_from(s: Seq<(usize, Vec<RedisCommand>)>, token: usize, pos: int, j: int)
    requires
        0 <= pos <= j < s.len(),
        s[j].0 == token,
    ensures
        spec_txn_pos(s, token, pos) <= j,
        s[spec_txn_pos(s, token, pos)].0 == token,
    decreases j - pos,
{
    if s[pos].0 != token {
        lemma_txn_pos_from(s, token, pos + 1, j);
    }
}

proof fn lemma_txn_pos_no_match(s: Seq<(usize, Vec<RedisCommand>)>, token: usize)
    requires
        !spec_has_txn(s, token),
    ensures
        forall|a: int| 0 <= a < s.len() ==> (#[trigger] s[a]).0 != token,
{
    assert forall|a: int| 0 <= a < s.len() implies (#[trigger] s[a]).0 != token by {
        if s[a].0 == token {
            lemma_txn_pos_le(s, token, a);
        }
    }
}

proof fn lemma_txn_remove(s: Seq<(usize, Vec<RedisCommand>)>, token: usize, i: int)
    requires
        txn_tokens_unique(s),
        0 <= i < s.len(),
        s[i].0 == token,
        spec_txn_pos(s, token, 0) == i,
    ensures
        !spec_has_txn(s.remove(i), token),
        txn_tokens_unique(s.remove(i)),
{
    let sr = s.remove(i);
    assert(forall|a: int| 0 <= a < i ==> (#[trigger] sr[a]) == s[a]);
    assert(forall|a: int| i <= a < sr.len() ==> (#[trigger] sr[a]) == s[a + 1]);
    assert(txn_tokens_unique(sr));
    assert forall|a: int| 0 <= a < sr.len() implies (#[trigger] sr[a]).0 != token by {
        if a < i {
            if sr[a].0 == token {
                lemma_txn_pos_le(s, token, a);
            }
        } else {
            assert(sr[a] == s[a + 1]);
        }
    }
    if spec_has_txn(sr, token) {
        let p = spec_txn_pos(sr, token, 0);
        lemma_txn_pos_bounds(sr, token, 0);
        lemma_txn_pos_hit(sr, token, 0);
        assert(sr[p].0 == token);
        assert(false);
    }
}

proof fn lemma_txn_pos_bounds(s: Seq<(usize, Vec<RedisCommand>)>, token: usize, pos: int)
    requires
        0 <= pos <= s.len(),
    ensures
        pos <= spec_txn_pos(s, token, pos) <= s.len(),
    decreases s.len() - pos,
{
    if pos < s.len() && s[pos].0 != token {
        lemma_txn_pos_bounds(s, token, pos + 1);
    }
}

proof fn lemma_txn_pos_hit(s: Seq<(usize, Vec<RedisCommand>)>, token: usize, pos: int)
    requires
        0 <= pos,
        spec_txn_pos(s, token, pos) < s.len(),
    ensures
        s[spec_txn_pos(s, token, pos)].0 == token,
    decreases s.len() - pos,
{
    if pos < s.len() && s[pos].0 != token {
        lemma_txn_pos_hit(s, token, pos + 1);
    }
}

proof fn lemma_txn_pos_update_same(
    pre: Seq<(usize, Vec<RedisCommand>)>,
    post: Seq<(usize, Vec<RedisCommand>)>,
    token: usize,
    pos: int,
)
    requires
        pre.len() == post.len(),
        forall|a: int| 0 <= a < pre.len() ==> (#[trigger] post[a]).0 == pre[a].0,
        0 <= pos,
    ensures
        spec_txn_pos(post, token, pos) == spec_txn_pos(pre, token, pos),
    decreases pre.len() - pos,
{
    if pos < pre.len() {
        lemma_txn_pos_update_same(pre, post, token, pos + 1);
    }
}

/// One step of the replica-side handshake: what to answer the master
/// and which state to move to. `PONG` answers the opening ping; each
/// `OK` advances the configuration exchange; after the sync request,
/// any frame moves the connection to expecting the snapshot.
pub fn handshake_step(
    state: &ConnectionState,
    value: &RedisValue,
    port: u16,
) -> (r: Result<(ConnectionState, Option<String>), Error>)
    ensures
        match *state {
            ConnectionState::BeforePing => {
                if value@ matches RespView::SimpleString(t) && t == "PONG"@ {
                    r matches Ok((s2, out)) && s2 is BeforeReplConf1 && (out matches Some(
                        o,
                    ) && o@ == spec_encode(
                        RespView::Array(
                            3,
                            seq![
                                RespView::BulkString(8, "REPLCONF"@),
                                RespView::BulkString(14, "listening-port"@),
                                RespView::BulkString(
                                    spec_udigits(port as nat).len() as int,
                                    spec_udigits(port as nat),
                                ),
                            ],
                        ),
                    ))
                } else {
                    r matches Err(e) && e matches Error::InvalidAnswerDuringHandshake(_)
                }
            },
            ConnectionState::BeforeReplConf1 => {
                if value@ matches RespView::SimpleString(t) && t == "OK"@ {
                    r matches Ok((s2, out)) && s2 is BeforeReplConf2 && (out matches Some(
                        o,
                    ) && o@ == spec_encode(
                        RespView::Array(
                            3,
                            seq![
                                RespView::BulkString(8, "REPLCONF"@),
                                RespView::BulkString(4, "capa"@),
                                RespView::BulkString(6, "psync2"@),
                            ],
                        ),
                    ))
                } else {
                    r matches Err(e) && e matches Error::InvalidAnswerDuringHandshake(_)
                }
            },
            ConnectionState::BeforeReplConf2 => {
                if value@ matches RespView::SimpleString(t) && t == "OK"@ {
                    r matches Ok((s2, out)) && s2 is BeforePsync && (out matches Some(o)
                        && o@ == spec_encode(
                        RespView::Array(
                            3,
                            seq![
                                RespView::BulkString(5, "PSYNC"@),
                                RespView::BulkString(1, "?"@),
                                RespView::BulkString(2, "-1"@),
                            ],
                        ),
                    ))
                } else {
                    r matches Err(e) && e matches Error::InvalidAnswerDuringHandshake(_)
                }
            },
            ConnectionState::BeforePsync => r matches Ok((s2, out)) && s2
                is BeforeRdbFile && out is None,
            _ => r matches Err(e) && e matches Error::InvalidAnswerDuringHandshake(_),
        },
{
    match state {
        ConnectionState::BeforePing => {
            let ok = match value {
                RedisValue::SimpleString(x) => crate::str_eq(x.as_str(), "PONG"),
                _ => false,
            };
            if ok {
                let mut parts: Vec<RedisValue> = Vec::new();
                parts.push(RedisValue::bulkstring_from("REPLCONF"));
                parts.push(RedisValue::bulkstring_from("listening-port"));
                let digits = u64_to_string(port as u64);
                let dn = digits.as_str().unicode_len();
                parts.push(RedisValue::BulkString(dn, digits));
                proof {
                    lemma_seq_view_props(parts@);
                    reveal_strlit("REPLCONF");
                    reveal_strlit("listening-port");
                    assert(spec_seq_view(parts@)[0] == parts@[0]@);
                    assert(spec_seq_view(parts@)[1] == parts@[1]@);
                    assert(spec_seq_view(parts@)[2] == parts@[2]@);
                    assert(spec_seq_view(parts@) =~= seq![
                        RespView::BulkString(8, "REPLCONF"@),
                        RespView::BulkString(14, "listening-port"@),
                        RespView::BulkString(
                            spec_udigits(port as nat).len() as int,
                            spec_udigits(port as nat),
                        ),
                    ]);
                }
                let v = RedisValue::Array(3, parts);
                Ok((ConnectionState::BeforeReplConf1, Some(v.encode())))
            } else {
                Err(Error::InvalidAnswerDuringHandshake(value.clone()))
            }
        },
        ConnectionState::BeforeReplConf1 => {
            let ok = match value {
                RedisValue::SimpleString(x) => crate::str_eq(x.as_str(), "OK"),
                _ => false,
            };
            if ok {
                let mut parts: Vec<RedisValue> = Vec::new();
                parts.push(RedisValue::bulkstring_from("REPLCONF"));
                parts.push(RedisValue::bulkstring_from("capa"));
                parts.push(RedisValue::bulkstring_from("psync2"));
                proof {
                    lemma_seq_view_props(parts@);
                    reveal_strlit("REPLCONF");
                    reveal_strlit("capa");
                    reveal_strlit("psync2");
                    assert(spec_seq_view(parts@)[0] == parts@[0]@);
                    assert(spec_seq_view(parts@)[1] == parts@[1]@);
                    assert(spec_seq_view(parts@)[2] == parts@[2]@);
                    assert(spec_seq_view(parts@) =~= seq![
                        RespView::BulkString(8, "REPLCONF"@),
                        RespView::BulkString(4, "capa"@),
                        RespView::BulkString(6, "psync2"@),
                    ]);
                }
                let v = RedisValue::Array(3, parts);
                Ok((ConnectionState::BeforeReplConf2, Some(v.encode())))
            } else {
                Err(Error::InvalidAnswerDuringHandshake(value.clone()))
            }
        },
        ConnectionState::BeforeReplConf2 => {
            let ok = match value {
                RedisValue::SimpleString(x) => crate::str_eq(x.as_str(), "OK"),
                _ => false,
            };
            if ok {
                let mut parts: Vec<RedisValue> = Vec::new();
                parts.push(RedisValue::bulkstring_from("PSYNC"));
                parts.push(RedisValue::bulkstring_from("?"));
                parts.push(RedisValue::bulkstring_from("-1"));
                proof {
                    lemma_seq_view_props(parts@);
                    reveal_strlit("PSYNC");
                    reveal_strlit("?");
                    reveal_strlit("-1");
                    assert(spec_seq_view(parts@)[0] == parts@[0]@);
                    assert(spec_seq_view(parts@)[1] == parts@[1]@);
                    assert(spec_seq_view(parts@)[2] == parts@[2]@);
                    assert(spec_seq_view(parts@) =~= seq![
                        RespView::BulkString(5, "PSYNC"@),
                        RespView::BulkString(1, "?"@),
                        RespView::BulkString(2, "-1"@),
                    ]);
                }
                let v = RedisValue::Array(3, parts);
                Ok((ConnectionState::BeforePsync, Some(v.encode())))
            } else {
                Err(Error::InvalidAnswerDuringHandshake(value.clone()))
            }
        },
        ConnectionState::BeforePsync => Ok((ConnectionState::BeforeRdbFile, None)),
        _ => Err(Error::InvalidAnswerDuringHandshake(value.clone())),
    }
}

/// Resolves an in-flight WAIT, if due: once enough acknowledgements
/// arrived or the deadline passed, the waiting client gets the count
/// and the server returns to the ready state; otherwise nothing
/// changes. This resolves exactly when acknowledgements or the clock
/// demand it, so a WAIT never outlives its deadline by more than one
/// poll of the loop that calls this.
pub fn resolve_pending_wait(db: &mut RedisDb, now_ms: u64) -> (r: Option<String>)
    requires
        old(db).wf(),
    ensures
        final(db).wf(),
        match old(db).state {
            ConnectionState::Waiting(t0, timeout, requested, obtained) => {
                if obtained >= requested || now_ms >= spec_sat_add(t0, timeout) {
                    (r matches Some(s) && s@ == spec_encode(
                        RespView::Integer(
                            if obtained > i64::MAX as u64 {
                                i64::MAX as int
                            } else {
                                obtained as int
                            },
                        ),
                    )) && final(db).state is Ready && *final(db) == (RedisDb {
                        state: final(db).state,
                        ..*old(db)
                    })
                } else {
                    r is None && *final(db) == *old(db)
                }
            },
            _ => r is None && *final(db) == *old(db),
        },
{
    let (t0, timeout, requested, obtained): (u64, u64, u64, u64) = match &db.state {
        ConnectionState::Waiting(a, b, c, d) => (*a, *b, *c, *d),
        _ => {
            return None;
        },
    };
    let deadline: u64 = if t0 <= u64::MAX - timeout {
        t0 + timeout
    } else {
        u64::MAX
    };
    if obtained >= requested || now_ms >= deadline {
        db.state = ConnectionState::Ready;
        let count: i64 = if obtained > 9223372036854775807u64 {
            i64::MAX
        } else {
            obtained as i64
        };
        let v = RedisValue::Integer(count);
        Some(v.encode())
    } else {
        None
    }
}

/// Counts an acknowledgement from the replica carrying `ack_token`
/// while a WAIT is in flight: the count grows by one and that replica
/// is up to date again.
pub fn note_replica_ack(db: &mut RedisDb, ack_token: usize)
    requires
        old(db).wf(),
        old(db).state matches ConnectionState::Waiting(_, _, _, obtained) && obtained
            < u64::MAX,
        exists|i: int| 0 <= i < old(db).replicas@.len() && (#[trigger] old(
            db,
        ).replicas@[i]).token == ack_token,
    ensures
        final(db).wf(),
        final(db).state matches ConnectionState::Waiting(t0, tmo, req, obt)
            && old(db).state matches ConnectionState::Waiting(pt0, ptmo, preq, pobt)
            && t0 == pt0 && tmo == ptmo && req == preq && obt == pobt + 1,
{
    let (t0, timeout, requested, obtained): (u64, u64, u64, u64) = match &db.state {
        ConnectionState::Waiting(a, b, c, d) => (*a, *b, *c, *d),
        _ => {
            proof {
                assert(false);
            }
            (0, 0, 0, 0)
        },
    };
    db.state = ConnectionState::Waiting(t0, timeout, requested, obtained + 1);
    proof {
        assert(db.replicas@ == old(db).replicas@);
    }
    db.mark_replica_as_uptodate(ack_token);
}

/// Resolves the pending blocking stream read, if due: once its
/// deadline has passed (an endless wait has no deadline until an
/// append to a watched key sets one), the requester gets the tail
/// entries of the watched streams — or the null bulk string when
/// nothing arrived — and the server returns to the ready state.
pub fn resolve_pending_xread(db: &mut RedisDb, now_ms: u64) -> (r: Option<(usize, String)>)
    requires
        old(db).wf(),
    ensures
        final(db).wf(),
        match old(db).pending_stream_xread {
            Some(p) => {
                if p.timeout_ms != 0 && now_ms >= spec_sat_add(
                    p.initial_time_ms,
                    p.timeout_ms,
                ) {
                    &&& final(db).pending_stream_xread is None
                    &&& final(db).state is Ready
                    &&& ({
                        let folded = spec_xread_fold(
                            old(db).store_map(),
                            crate::stream::pairs_view(p.key_offset_pairs@),
                            now_ms,
                        );
                        final(db).store_map() == folded.1 && (r matches Some((tok, s))
                            && tok == p.connection_token && (if (forall|i: int|
                            0 <= i < folded.0.len() ==> ((#[trigger] folded.0[i]) matches
                            RespView::Array(cnt, _) && cnt == 1)) {
                            s@ == spec_encode(RespView::NullBulkString)
                        } else {
                            s@ == spec_encode(
                                RespView::Array(folded.0.len() as int, folded.0),
                            )
                        }))
                    })
                } else {
                    r is None && *final(db) == *old(db)
                }
            },
            None => r is None && *final(db) == *old(db),
        },
{
    let due: bool = match &db.pending_stream_xread {
        Some(p) => {
            let deadline: u64 = if p.initial_time_ms <= u64::MAX - p.timeout_ms {
                p.initial_time_ms + p.timeout_ms
            } else {
                u64::MAX
            };
            p.timeout_ms != 0 && now_ms >= deadline
        },
        None => false,
    };
    if !due {
        return None;
    }
    let taken = db.pending_stream_xread.take();
    let p = match taken {
        Some(p) => p,
        None => {
            proof {
                assert(false);
            }
            return None;
        },
    };
    let cmd = RedisCommand::Xread { block: None, key_offset_pairs: p.key_offset_pairs };
    let reply = match cmd.execute(db, now_ms) {
        Ok(v) => v,
        Err(_) => {
            proof {
                assert(false);
            }
            return None;
        },
    };
    db.state = ConnectionState::Ready;
    Some((p.connection_token, reply.encode()))
}

/// The position of the first CRLF byte pair at or after `pos`.
pub open spec fn spec_find_crlf_bytes(s: Seq<u8>, pos: int) -> Option<int>
    decreases s.len() - pos,
{
    if pos < 0 || pos + 2 > s.len() {
        None
    } else if s[pos] == 13 && s[pos + 1] == 10 {
        Some(pos)
    } else {
        spec_find_crlf_bytes(s, pos + 1)
    }
}

/// Finds the first CRLF byte pair in a buffer.
pub fn find_crlf_position(buffer: &[u8]) -> (r: Option<usize>)
    ensures
        match r {
            Some(j) => spec_find_crlf_bytes(buffer@, 0) == Some(j as int) && j + 2
                <= buffer@.len(),
            None => spec_find_crlf_bytes(buffer@, 0) == None::<int>,
        },
{
    let n = buffer.len();
    let mut i: usize = 0;
    while n >= 2 && i <= n - 2
        invariant
            i <= n,
            n == buffer@.len(),
            spec_find_crlf_bytes(buffer@, 0) == spec_find_crlf_bytes(buffer@, i as int),
        decreases n - i,
    {
        let b0 = *vstd::slice::slice_index_get(buffer, i);
        if b0 == 13 {
            let b1 = *vstd::slice::slice_index_get(buffer, i + 1);
            if b1 == 10 {
                proof {
                    assert(spec_find_crlf_bytes(buffer@, i as int) == Some(i as int));
                }
                return Some(i);
            }
        }
        proof {
            assert(spec_find_crlf_bytes(buffer@, i as int) == spec_find_crlf_bytes(
                buffer@,
                i as int + 1,
            ));
        }
        i += 1;
    }
    proof {
        assert(spec_find_crlf_bytes(buffer@, i as int) == None::<int>);
    }
    None
}

/// What one read pass over a socket produced: how many bytes arrived,
/// the buffer holding them, and whether the peer closed. The reading
/// itself happens at the event loop; this is the record it fills.
#[derive(Debug)]
pub struct ConnectionData {
    pub bytes_read: usize,
    pub received_data: Vec<u8>,
    pub connection_closed: bool,
}

impl ConnectionData {
    /// The bytes that actually arrived: the filled prefix of the
    /// buffer.
    pub fn get_received_data(&self) -> (r: Vec<u8>)
        requires
            self.bytes_read <= self.received_data@.len(),
        ensures
            r@ == self.received_data@.subrange(0, self.bytes_read as int),
    {
        let mut out: Vec<u8> = Vec::new();
        let mut i: usize = 0;
        while i < self.bytes_read
            invariant
                i <= self.bytes_read <= self.received_data@.len(),
                out@.len() == i,
                forall|j: int| 0 <= j < i ==> #[trigger] out@[j]
                    == self.received_data@[j],
            decreases self.bytes_read - i,
        {
            out.push(self.received_data[i]);
            i += 1;
        }
        proof {
            assert(out@ =~= self.received_data@.subrange(0, self.bytes_read as int));
        }
        out
    }
}

} // verus!
