use redis_core::command::{get_strings_from_bulkstrings, RedisCommand};
use redis_core::db::{ConnectionState, DbInfo, RedisDb};
use redis_core::error::Error;
use redis_core::handler::{
    handshake_step, process_ready_frame, resolve_pending_wait, resolve_pending_xread,
    StepResult,
};
use redis_core::parser::{parse_redis_value, DecodeResult, RedisValue};

const NOW: u64 = 1_700_000_000_000;
const CLIENT: usize = 20;

fn master_db() -> RedisDb {
    let info = DbInfo::build("master", 6379, "/tmp/redis-files", "dump.rdb");
    RedisDb::build(info, ConnectionState::Ready)
}

fn frame(bytes: &str) -> RedisValue {
    match parse_redis_value(bytes) {
        DecodeResult::Value(v, n) => {
            assert_eq!(n, bytes.len());
            v
        }
        _ => panic!("test frame does not parse"),
    }
}

fn run(db: &mut RedisDb, bytes: &str, now: u64) -> StepResult {
    let value = frame(bytes);
    process_ready_frame(db, CLIENT, &value, false, now)
}

fn reply_of(db: &mut RedisDb, bytes: &str, now: u64) -> String {
    run(db, bytes, now).reply.expect("a reply was owed")
}

#[test]
fn test_ping_answers_pong() {
    let mut db = master_db();
    assert_eq!(reply_of(&mut db, "*1\r\n$4\r\nPING\r\n", NOW), "+PONG\r\n");
}

#[test]
fn test_set_then_get() {
    let mut db = master_db();
    assert_eq!(
        reply_of(&mut db, "*3\r\n$3\r\nSET\r\n$3\r\nfoo\r\n$3\r\nbar\r\n", NOW),
        "+OK\r\n"
    );
    assert_eq!(
        reply_of(&mut db, "*2\r\n$3\r\nGET\r\n$3\r\nfoo\r\n", NOW),
        "+bar\r\n"
    );
    assert_eq!(
        reply_of(&mut db, "*2\r\n$3\r\nGET\r\n$3\r\nnop\r\n", NOW),
        "$-1\r\n"
    );
}

#[test]
fn test_ttl_expiry() {
    let mut db = master_db();
    assert_eq!(
        reply_of(
            &mut db,
            "*5\r\n$3\r\nSET\r\n$1\r\nk\r\n$1\r\nv\r\n$2\r\nPX\r\n$3\r\n100\r\n",
            NOW
        ),
        "+OK\r\n"
    );
    assert_eq!(
        reply_of(&mut db, "*2\r\n$3\r\nGET\r\n$1\r\nk\r\n", NOW + 50),
        "+v\r\n"
    );
    assert_eq!(
        reply_of(&mut db, "*2\r\n$3\r\nGET\r\n$1\r\nk\r\n", NOW + 200),
        "$-1\r\n"
    );
}

#[test]
fn test_incr_new_existing_and_error() {
    let mut db = master_db();
    assert_eq!(reply_of(&mut db, "*2\r\n$4\r\nINCR\r\n$1\r\nc\r\n", NOW), ":1\r\n");
    assert_eq!(reply_of(&mut db, "*2\r\n$4\r\nINCR\r\n$1\r\nc\r\n", NOW), ":2\r\n");
    assert_eq!(
        reply_of(&mut db, "*3\r\n$3\r\nSET\r\n$1\r\ns\r\n$3\r\nabc\r\n", NOW),
        "+OK\r\n"
    );
    assert_eq!(
        reply_of(&mut db, "*2\r\n$4\r\nINCR\r\n$1\r\ns\r\n", NOW),
        "-ERR value is not an integer or out of range\r\n"
    );
}

#[test]
fn test_xadd_then_xrange() {
    let mut db = master_db();
    assert_eq!(
        reply_of(
            &mut db,
            "*5\r\n$4\r\nXADD\r\n$1\r\ns\r\n$3\r\n1-1\r\n$1\r\nf\r\n$1\r\nv\r\n",
            NOW
        ),
        "$3\r\n1-1\r\n"
    );
    assert_eq!(
        reply_of(
            &mut db,
            "*5\r\n$4\r\nXADD\r\n$1\r\ns\r\n$3\r\n1-1\r\n$1\r\nf\r\n$2\r\nv2\r\n",
            NOW
        ),
        "-ERR The ID specified in XADD is equal or smaller than the target stream top item\r\n"
    );
    assert_eq!(
        reply_of(
            &mut db,
            "*4\r\n$6\r\nXRANGE\r\n$1\r\ns\r\n$1\r\n-\r\n$1\r\n+\r\n",
            NOW
        ),
        "*1\r\n*2\r\n$3\r\n1-1\r\n*2\r\n$1\r\nf\r\n$1\r\nv\r\n"
    );
}

#[test]
fn test_xadd_zero_id_is_refused() {
    let mut db = master_db();
    assert_eq!(
        reply_of(
            &mut db,
            "*5\r\n$4\r\nXADD\r\n$1\r\ns\r\n$3\r\n0-0\r\n$1\r\nf\r\n$1\r\nv\r\n",
            NOW
        ),
        "-ERR The ID specified in XADD must be greater than 0-0\r\n"
    );
}

#[test]
fn test_transaction_atomic_reply() {
    let mut db = master_db();
    assert_eq!(reply_of(&mut db, "*1\r\n$5\r\nMULTI\r\n", NOW), "+OK\r\n");
    assert_eq!(
        reply_of(&mut db, "*2\r\n$4\r\nINCR\r\n$1\r\nk\r\n", NOW),
        "+QUEUED\r\n"
    );
    assert_eq!(
        reply_of(&mut db, "*2\r\n$4\r\nINCR\r\n$1\r\nk\r\n", NOW),
        "+QUEUED\r\n"
    );
    assert_eq!(reply_of(&mut db, "*1\r\n$4\r\nEXEC\r\n", NOW), "*2\r\n:1\r\n:2\r\n");
}

#[test]
fn test_discard_throws_the_queue_away() {
    let mut db = master_db();
    assert_eq!(reply_of(&mut db, "*1\r\n$5\r\nMULTI\r\n", NOW), "+OK\r\n");
    assert_eq!(
        reply_of(&mut db, "*2\r\n$4\r\nINCR\r\n$1\r\nk\r\n", NOW),
        "+QUEUED\r\n"
    );
    assert_eq!(reply_of(&mut db, "*1\r\n$7\r\nDISCARD\r\n", NOW), "+OK\r\n");
    assert_eq!(reply_of(&mut db, "*2\r\n$4\r\nINCR\r\n$1\r\nk\r\n", NOW), ":1\r\n");
}

#[test]
fn test_exec_and_discard_without_multi() {
    let mut db = master_db();
    assert_eq!(
        reply_of(&mut db, "*1\r\n$4\r\nEXEC\r\n", NOW),
        "-ERR EXEC without MULTI\r\n"
    );
    assert_eq!(
        reply_of(&mut db, "*1\r\n$7\r\nDISCARD\r\n", NOW),
        "-ERR DISCARD without MULTI\r\n"
    );
}

#[test]
fn test_set_is_forwarded_verbatim_to_replicas() {
    let mut db = master_db();
    db.register_replica(2);
    db.register_replica(3);
    let bytes = "*3\r\n$3\r\nSET\r\n$3\r\nfoo\r\n$3\r\nbar\r\n";
    let step = run(&mut db, bytes, NOW);
    assert_eq!(step.forward.as_deref(), Some(bytes));
    assert_eq!(step.forward_tokens, vec![2, 3]);
    assert_eq!(db.get_nb_uptodate_replicas(), 0);
    let step2 = run(&mut db, "*2\r\n$3\r\nGET\r\n$3\r\nfoo\r\n", NOW);
    assert!(step2.forward.is_none());
}

#[test]
fn test_wait_installs_and_resolves() {
    let mut db = master_db();
    db.register_replica(2);
    let step = run(&mut db, "*3\r\n$4\r\nWAIT\r\n$1\r\n1\r\n$3\r\n500\r\n", NOW);
    assert!(step.reply.is_none());
    assert!(matches!(db.state, ConnectionState::Waiting(_, 500, 1, 1)));
    // one replica was already up to date, so the wait is due at once
    let reply = resolve_pending_wait(&mut db, NOW);
    assert_eq!(reply.as_deref(), Some(":1\r\n"));
    assert!(matches!(db.state, ConnectionState::Ready));
}

#[test]
fn test_wait_resolves_at_the_deadline() {
    let mut db = master_db();
    db.register_replica(2);
    db.mark_replicas_as_outdated();
    let step = run(&mut db, "*3\r\n$4\r\nWAIT\r\n$1\r\n1\r\n$3\r\n500\r\n", NOW);
    assert_eq!(step.forward.as_deref(), Some("*3\r\n$8\r\nREPLCONF\r\n$6\r\nGETACK\r\n$1\r\n*\r\n"));
    assert_eq!(step.forward_tokens, vec![2]);
    assert!(resolve_pending_wait(&mut db, NOW + 400).is_none());
    let reply = resolve_pending_wait(&mut db, NOW + 500);
    assert_eq!(reply.as_deref(), Some(":0\r\n"));
}

#[test]
fn test_blocking_xread_resolves_after_append() {
    let mut db = master_db();
    let step = run(
        &mut db,
        "*6\r\n$5\r\nXREAD\r\n$5\r\nBLOCK\r\n$1\r\n0\r\n$7\r\nstreams\r\n$1\r\ns\r\n$1\r\n$\r\n",
        NOW,
    );
    assert!(step.reply.is_none());
    // no deadline yet: nothing resolves
    assert!(resolve_pending_xread(&mut db, NOW + 10_000).is_none());
    // an append to the watched key nudges the deadline to one tick
    let xadd = RedisCommand::Xadd {
        key: "s".to_string(),
        stream_id: "9-9".to_string(),
        store: vec![("f".to_string(), "v".to_string())],
    };
    xadd.execute(&mut db, NOW + 10).unwrap();
    let (token, reply) = resolve_pending_xread(&mut db, NOW + 20).expect("due");
    assert_eq!(token, CLIENT);
    assert_eq!(
        reply,
        "*1\r\n*2\r\n$1\r\ns\r\n*1\r\n*2\r\n$3\r\n9-9\r\n*2\r\n$1\r\nf\r\n$1\r\nv\r\n"
    );
}

#[test]
fn test_info_replication() {
    let mut db = master_db();
    let reply = reply_of(&mut db, "*2\r\n$4\r\nINFO\r\n$11\r\nreplication\r\n", NOW);
    let expected_body =
        "role:master\r\nmaster_replid:8371b4fb1155b71f4a04d3e1bc3e18c4a990aeeb\r\nmaster_repl_offset:0\r\n";
    assert_eq!(reply, format!("${}\r\n{}\r\n", expected_body.len(), expected_body));
}

#[test]
fn test_config_get_and_keys_and_type() {
    let mut db = master_db();
    assert_eq!(
        reply_of(&mut db, "*3\r\n$6\r\nCONFIG\r\n$3\r\nGET\r\n$3\r\ndir\r\n", NOW),
        "*2\r\n$3\r\ndir\r\n$16\r\n/tmp/redis-files\r\n"
    );
    assert_eq!(
        reply_of(&mut db, "*3\r\n$3\r\nSET\r\n$1\r\na\r\n$1\r\nb\r\n", NOW),
        "+OK\r\n"
    );
    assert_eq!(
        reply_of(&mut db, "*2\r\n$4\r\nKEYS\r\n$1\r\n*\r\n", NOW),
        "*1\r\n$1\r\na\r\n"
    );
    assert_eq!(
        reply_of(&mut db, "*2\r\n$4\r\nTYPE\r\n$1\r\na\r\n", NOW),
        "+string\r\n"
    );
    assert_eq!(
        reply_of(&mut db, "*2\r\n$4\r\nTYPE\r\n$1\r\nz\r\n", NOW),
        "+none\r\n"
    );
}

#[test]
fn test_echo_and_protocol_error() {
    let mut db = master_db();
    assert_eq!(
        reply_of(&mut db, "*2\r\n$4\r\nECHO\r\n$7\r\nbonjour\r\n", NOW),
        "+bonjour\r\n"
    );
    let bad = frame("*1\r\n$7\r\nNOTHING\r\n");
    let step = process_ready_frame(&mut db, CLIENT, &bad, false, NOW);
    assert!(step.close);
    assert_eq!(step.reply.as_deref(), Some("-ERR protocol error\r\n"));
}

#[test]
fn test_replica_handshake_steps() {
    let port = 6380;
    let pong = frame("+PONG\r\n");
    let (s1, out1) = handshake_step(&ConnectionState::BeforePing, &pong, port).unwrap();
    assert!(matches!(s1, ConnectionState::BeforeReplConf1));
    assert_eq!(
        out1.as_deref(),
        Some("*3\r\n$8\r\nREPLCONF\r\n$14\r\nlistening-port\r\n$4\r\n6380\r\n")
    );
    let ok = frame("+OK\r\n");
    let (s2, out2) = handshake_step(&s1, &ok, port).unwrap();
    assert!(matches!(s2, ConnectionState::BeforeReplConf2));
    assert_eq!(out2.as_deref(), Some("*3\r\n$8\r\nREPLCONF\r\n$4\r\ncapa\r\n$6\r\npsync2\r\n"));
    let (s3, out3) = handshake_step(&s2, &ok, port).unwrap();
    assert!(matches!(s3, ConnectionState::BeforePsync));
    assert_eq!(out3.as_deref(), Some("*3\r\n$5\r\nPSYNC\r\n$1\r\n?\r\n$2\r\n-1\r\n"));
    let fullresync = frame("+FULLRESYNC 8371b4fb1155b71f4a04d3e1bc3e18c4a990aeeb 0\r\n");
    let (s4, out4) = handshake_step(&s3, &fullresync, port).unwrap();
    assert!(matches!(s4, ConnectionState::BeforeRdbFile));
    assert!(out4.is_none());
    // a wrong answer mid-handshake is refused
    assert!(handshake_step(&ConnectionState::BeforePing, &ok, port).is_err());
}

#[test]
fn test_psync_marks_the_connection_for_registration() {
    let mut db = master_db();
    let step = run(&mut db, "*3\r\n$5\r\nPSYNC\r\n$1\r\n?\r\n$2\r\n-1\r\n", NOW);
    assert!(step.register_replica);
    assert!(step.send_rdb);
    assert_eq!(
        step.reply.as_deref(),
        Some("+FULLRESYNC 8371b4fb1155b71f4a04d3e1bc3e18c4a990aeeb 0\r\n")
    );
}

#[test]
fn test_silent_replica_only_answers_getack() {
    let mut db = master_db();
    let set = frame("*3\r\n$3\r\nSET\r\n$3\r\nfoo\r\n$3\r\nbar\r\n");
    let step = process_ready_frame(&mut db, CLIENT, &set, true, NOW);
    assert!(step.reply.is_none());
    let getack = frame("*3\r\n$8\r\nREPLCONF\r\n$6\r\nGETACK\r\n$1\r\n*\r\n");
    let step2 = process_ready_frame(&mut db, CLIENT, &getack, true, NOW);
    let reply = step2.reply.expect("acks are always answered");
    assert!(reply.starts_with("*3\r\n$8\r\nREPLCONF\r\n$3\r\nACK\r\n$"));
}

#[test]
fn test_load_rdb_fills_the_keyspace() {
    let mut db = master_db();
    let mut bytes: Vec<u8> = Vec::new();
    bytes.extend_from_slice(b"REDIS0003");
    bytes.push(0xFE);
    bytes.push(0);
    bytes.push(0xFB);
    bytes.push(2);
    bytes.push(0);
    bytes.push(0);
    bytes.push(3);
    bytes.extend_from_slice(b"foo");
    bytes.push(3);
    bytes.extend_from_slice(b"bar");
    bytes.push(0xFC);
    bytes.extend_from_slice(&[2, 0, 0, 0, 0, 0, 0, 0]);
    bytes.push(0);
    bytes.push(3);
    bytes.extend_from_slice(b"tmp");
    bytes.push(4);
    bytes.extend_from_slice(b"gone");
    bytes.push(0xFF);
    bytes.extend_from_slice(&[0, 0, 0, 0, 0, 0, 0, 0]);
    let (rdb, _) = redis_core::rdb::Rdb::parse(&bytes).unwrap();
    db.load_rdb(&rdb, NOW);
    assert_eq!(
        reply_of(&mut db, "*2\r\n$3\r\nGET\r\n$3\r\nfoo\r\n", NOW),
        "+bar\r\n"
    );
    // the stamped key expired long before the load
    assert_eq!(
        reply_of(&mut db, "*2\r\n$3\r\nGET\r\n$3\r\ntmp\r\n", NOW),
        "$-1\r\n"
    );
}

#[test]
fn test_error_variants_for_bad_commands() {
    // an empty array means no command at all
    let empty = frame("*0\r\n");
    assert!(matches!(
        RedisCommand::try_from(&empty),
        Err(Error::EmptyCommand)
    ));
    // an argument that carries no text cannot name a replconf option
    let nested = frame("*3\r\n$8\r\nREPLCONF\r\n*0\r\n$1\r\n*\r\n");
    assert!(matches!(
        RedisCommand::try_from(&nested),
        Err(Error::CantConvertToString(_))
    ));
    // reading a stream key as text is an operation against the wrong kind
    let mut db = master_db();
    reply_of(
        &mut db,
        "*5\r\n$4\r\nXADD\r\n$1\r\ns\r\n$3\r\n1-1\r\n$1\r\nf\r\n$1\r\nv\r\n",
        NOW,
    );
    let get = RedisCommand::Get("s".to_string());
    assert!(matches!(
        get.execute(&mut db, NOW),
        Err(Error::WrongTypeOperation)
    ));
    // an unknown info section is refused
    let info = RedisCommand::Info("nope".to_string());
    assert!(matches!(
        info.execute(&mut db, NOW),
        Err(Error::InvalidRedisCommand(_))
    ));
}

#[test]
fn test_wrong_kind_gets_the_named_reply() {
    let mut db = master_db();
    reply_of(
        &mut db,
        "*5\r\n$4\r\nXADD\r\n$1\r\ns\r\n$3\r\n1-1\r\n$1\r\nf\r\n$1\r\nv\r\n",
        NOW,
    );
    let step = run(&mut db, "*2\r\n$3\r\nGET\r\n$1\r\ns\r\n", NOW);
    assert!(!step.close);
    assert_eq!(
        step.reply.as_deref(),
        Some("-WRONGTYPE Operation against a key holding the wrong kind of value\r\n")
    );
}

#[test]
fn test_bulkstring_extractor_names_the_first_offender() {
    let args = vec![
        RedisValue::BulkString(2, "ok".to_string()),
        RedisValue::Integer(1),
        RedisValue::Integer(2),
    ];
    match get_strings_from_bulkstrings(&args) {
        Err(Error::InvalidRedisValue(RedisValue::Integer(1))) => {}
        other => panic!("expected the first non-bulk element, got {:?}", other),
    }
    let good = vec![RedisValue::BulkString(1, "a".to_string())];
    assert_eq!(get_strings_from_bulkstrings(&good).unwrap(), vec!["a"]);
}

#[test]
fn test_xread_streams_keyword_is_case_insensitive() {
    let mut db = master_db();
    let step = run(
        &mut db,
        "*6\r\n$5\r\nXREAD\r\n$5\r\nBLOCK\r\n$1\r\n5\r\n$7\r\nSTREAMS\r\n$1\r\ns\r\n$1\r\n$\r\n",
        NOW,
    );
    assert!(step.reply.is_none());
    assert!(matches!(db.state, ConnectionState::BlockingStreams(_, 5, _)));
}
