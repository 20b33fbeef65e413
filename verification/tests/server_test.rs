use std::cell::RefCell;
use std::collections::HashMap;

use fluxdb::proto::codec::CommandParser;
use fluxdb::proto::command::Command;
use fluxdb::server::http;
use fluxdb::server::outside::Outside;
use fluxdb::server::tcp;
use fluxdb::storage::bloom_filter::BloomFilter;
use fluxdb::storage::cache::BlockCache;
use fluxdb::storage::engine::WorkerStep;
use fluxdb::storage::sstable::{read_slice, CompressionType};
use fluxdb::storage::wal::{WalConfig, WalWriter};
use fluxdb::table::manager::{DynamicServerConfig, TableManager};
use fluxdb::table::names;
use fluxdb::types::{DbError, PlayerId};

struct Db {
    manager: TableManager,
    session: tcp::Session,
    files: RefCell<HashMap<(String, u64), Vec<u8>>>,
    logs: HashMap<String, Vec<u8>>,
    log_fails: bool,
    now_ms: u64,
}

fn near(a: u64, b: u64) -> Option<bool> {
    let d = (f64::from_bits(a) - f64::from_bits(b)).abs();
    if d.is_nan() {
        None
    } else {
        Some(d < 1e-9)
    }
}

fn open_db() -> Db {
    Db {
        manager: TableManager::init("data", 1 << 20, 4, WalConfig::default(), 2),
        session: tcp::Session::new(None),
        files: RefCell::new(HashMap::new()),
        logs: HashMap::new(),
        log_fails: false,
        now_ms: 1_000_000,
    }
}

fn read_file(
    files: &RefCell<HashMap<(String, u64), Vec<u8>>>,
    table: &str,
    id: u64,
    offset: u64,
    len: u64,
) -> Result<Vec<u8>, DbError> {
    match files.borrow().get(&(table.to_string(), id)) {
        Some(data) => read_slice(data, offset, len),
        None => Err(DbError::Io("no such file".to_string())),
    }
}

fn begin(db: &mut Db, line: &str) -> tcp::Step {
    let cmd = match db.session.on_line(line) {
        tcp::LineStep::Skip => return tcp::Step::Reply(Vec::new()),
        tcp::LineStep::Reply(b) => return tcp::Step::Reply(b),
        tcp::LineStep::Close(b) => {
            return tcp::Step::Reply(format!("closed {}", String::from_utf8(b).unwrap()).into())
        }
        tcp::LineStep::Run(cmd) => cmd,
    };
    resume(db, cmd, &CommandParser::written_keys(line))
}

fn resume(db: &mut Db, cmd: Command, keys: &Vec<(PlayerId, String)>) -> tcp::Step {
    let files = &db.files;
    let out = Outside {
        read: |t: &str, id: u64, offset: u64, len: u64| read_file(files, t, id, offset, len),
        disk: |t: &str| t.len() as u64 * 100,
        near,
        human: |n: u64| format!("{} B", n),
    };
    tcp::run(&mut db.manager, cmd, keys, db.now_ms, &out)
}

fn log(db: &mut Db, pending: tcp::PendingWrite) -> tcp::Step {
    let logged = WalWriter::outcome(!db.log_fails);
    let log = db.logs.entry(pending.table.clone()).or_default();
    let mut pending = pending;
    let records = std::mem::take(&mut pending.records);
    if !db.log_fails {
        log.extend_from_slice(&WalWriter::group_bytes(&vec![records]));
    }
    tcp::on_logged(&mut db.manager, pending, logged, db.now_ms)
}

fn send(db: &mut Db, line: &str) -> String {
    let mut step = begin(db, line);
    loop {
        step = match step {
            tcp::Step::Reply(b) => return String::from_utf8(b).unwrap(),
            tcp::Step::Create(name) => {
                let opened =
                    db.manager.create_table(&name, &vec![], None, &|_: u64, _: u64, _: u64| {
                        Ok(Vec::new())
                    });
                tcp::Step::Reply(tcp::created_reply(&name, &opened))
            }
            tcp::Step::Backup(dir) => {
                let path = db.manager.backup_path(dir.as_deref(), db.now_ms / 1000);
                tcp::Step::Reply(tcp::backup_reply(&Ok(path)))
            }
            tcp::Step::Log(pending) => log(db, pending),
            tcp::Step::Wait(cmd) => panic!("waits: {:?}", cmd),
        };
    }
}

fn pending(step: tcp::Step) -> tcp::PendingWrite {
    match step {
        tcp::Step::Log(pending) => pending,
        _ => panic!("nothing to log"),
    }
}

fn waiting(step: tcp::Step) -> Command {
    match step {
        tcp::Step::Wait(cmd) => cmd,
        _ => panic!("does not wait"),
    }
}

fn body(reply: &str) -> &str {
    assert!(reply.starts_with('$'), "{}", reply);
    let (head, rest) = reply.split_once("\r\n").unwrap();
    let n: usize = head[1..].parse().unwrap();
    assert_eq!(&rest[n..], "\r\n");
    &rest[..n]
}

fn uuid(name: &str) -> String {
    PlayerId::parse(name).unwrap().to_text()
}

fn row(rank: usize, score: &str, name: &str) -> String {
    format!("{{\"rank\":{},\"score\":{},\"uuid\":\"{}\"}}", rank, score, name)
}

fn get(db: &mut Db, target: &str, pass: Option<&str>) -> (String, String) {
    let files = &db.files;
    let out = Outside {
        read: |t: &str, id: u64, offset: u64, len: u64| read_file(files, t, id, offset, len),
        disk: |t: &str| t.len() as u64 * 100,
        near,
        human: |n: u64| format!("{} B", n),
    };
    let req = http::read_request(format!("GET {} HTTP/1.1\r\nHost: x\r\n\r\n", target).as_bytes());
    let pass = pass.map(|p| p.to_string());
    match http::handle(&mut db.manager, &req, &pass, db.now_ms, &out) {
        http::HttpStep::Respond(r) => (r.status.to_string(), r.body),
        http::HttpStep::Page => ("page".to_string(), String::new()),
        http::HttpStep::Create(name) => ("create".to_string(), name),
        http::HttpStep::Backup => ("backup".to_string(), String::new()),
    }
}

#[test]
fn tutorial_session() {
    let mut db = open_db();
    assert_eq!(send(&mut db, "PING"), "+PONG\r\n");
    assert_eq!(send(&mut db, "CREATE TABLE players"), "+TABLE CREATED players\r\n");
    assert_eq!(send(&mut db, "TABLES"), "$11\r\n[\"players\"]\r\n");
    let doc = r#"{"name":"Steve","level":75,"stats":{"kills":1420,"coins":50000}}"#;
    assert_eq!(send(&mut db, &format!("SET players steve {}", doc)), "+OK\r\n");
    assert_eq!(body(&send(&mut db, "GET players steve")), doc);

    assert_eq!(send(&mut db, "JSON.SET players steve stats.kills 1421"), "+OK\r\n");
    assert_eq!(
        body(&send(&mut db, "GET players steve")),
        r#"{"level":75,"name":"Steve","stats":{"coins":50000,"kills":1421}}"#
    );

    assert_eq!(
        send(&mut db, "INDEX CREATE players stats.kills"),
        "+INDEX CREATED players:stats.kills\r\n"
    );
    for (name, kills) in [("alex", 2100), ("herobrine", 9999), ("notch", 500)] {
        let line = format!("SET players {} {{\"stats\":{{\"kills\":{}}}}}", name, kills);
        assert_eq!(send(&mut db, &line), "+OK\r\n");
    }
    assert_eq!(
        body(&send(&mut db, "TOP players stats.kills 3")),
        format!(
            "[{},{},{}]",
            row(1, "9999.0", "herobrine"),
            row(2, "2100.0", "alex"),
            row(3, "1421.0", "steve")
        )
    );
    assert_eq!(
        body(&send(&mut db, "RANK players stats.kills steve")),
        format!(
            "{{\"rank\":3,\"score\":1421.0,\"table\":\"players\",\"total_ranked\":4,\"uuid\":\"{}\"}}",
            "steve"
        )
    );
    assert_eq!(
        body(&send(&mut db, "RANK.KEY players stats.kills steve 3")),
        format!(
            "[{},{},{}]",
            row(2, "2100.0", "alex"),
            row(3, "1421.0", "steve"),
            row(4, "500.0", "notch")
        )
    );
    let two = format!("[{},{}]", row(2, "2100.0", "alex"), row(3, "1421.0", "steve"));
    assert_eq!(body(&send(&mut db, "RANK.SCORE players stats.kills 2000 2")), two);
    assert_eq!(body(&send(&mut db, "RANK.RANGE_SCORE players stats.kills 1000 3000")), two);
    assert_eq!(body(&send(&mut db, "RANK.RANGE players stats.kills 2 3")), two);

    assert_eq!(
        body(&send(
            &mut db,
            "FILTER players \"stats.kills > 1000 AND stats.coins >= 50000\""
        )),
        format!(
            "[{{\"data\":{{\"level\":75,\"name\":\"Steve\",\"stats\":{{\"coins\":50000,\"kills\":1421}}}},\"uuid\":\"{}\"}}]",
            "steve"
        )
    );
    assert_eq!(send(&mut db, "COUNT players \"stats.kills > 1000\""), ":3\r\n");
    assert_eq!(send(&mut db, "COUNT players"), ":4\r\n");
    assert_eq!(send(&mut db, "QUIT"), "closed +OK\r\n");
}

#[test]
fn batches_and_expiry() {
    let mut db = open_db();
    send(&mut db, "CREATE TABLE players");
    assert_eq!(send(&mut db, "MSET players k1 {\"a\":1} k2 {\"a\":2}"), "+OK\r\n");
    assert_eq!(
        send(&mut db, "MGET players k1 nobody k2"),
        "*3\r\n$7\r\n{\"a\":1}\r\n$-1\r\n$7\r\n{\"a\":2}\r\n"
    );
    assert_eq!(send(&mut db, "EXISTS players k1 k2 nobody"), ":2\r\n");
    assert_eq!(send(&mut db, "TTL players k1"), ":-1\r\n");
    assert_eq!(send(&mut db, "TTL players nobody"), ":-2\r\n");
    assert_eq!(send(&mut db, "EXPIRE players nobody 5"), ":0\r\n");
    assert_eq!(send(&mut db, "EXPIRE players k1 300"), ":1\r\n");
    assert_eq!(send(&mut db, "TTL players k1"), ":300\r\n");
    db.now_ms += 299_000;
    assert_eq!(send(&mut db, "TTL players k1"), ":1\r\n");
    assert_eq!(send(&mut db, "EXISTS players k1"), ":1\r\n");
    db.now_ms += 1_000;
    assert_eq!(send(&mut db, "TTL players k1"), ":-2\r\n");
    assert_eq!(send(&mut db, "GET players k1"), "$-1\r\n");
    assert_eq!(
        body(&send(&mut db, "SCAN players - + 50")),
        "[{\"data\":{\"a\":2},\"uuid\":\"k2\"}]"
    );
    assert_eq!(send(&mut db, "DEL players k2"), ":1\r\n");
    assert_eq!(send(&mut db, "GET players k2"), "$-1\r\n");
    assert_eq!(body(&send(&mut db, "SCAN players - + 50")), "[]");
}

#[test]
fn errors_of_commands() {
    let mut db = open_db();
    assert_eq!(
        send(&mut db, "SET players steve {}"),
        "-ERR Table 'players' does not exist. Use 'CREATE TABLE players'\r\n"
    );
    assert_eq!(send(&mut db, "GET players steve"), "-ERR Table 'players' does not exist\r\n");
    assert_eq!(send(&mut db, "DEL players steve"), "-ERR Table 'players' does not exist\r\n");
    assert_eq!(send(&mut db, "TOP players x"), "-ERR Index 'players:x' not found.\r\n");
    assert_eq!(send(&mut db, "STATS players"), "-ERR Table not found\r\n");
    assert_eq!(send(&mut db, "INDEX LIST players"), "$2\r\n[]\r\n");
    assert_eq!(send(&mut db, "BACKUP"), "+BACKUP COMPLETED data/backups/backup_1000\r\n");
    assert_eq!(send(&mut db, "BACKUP /tmp/x"), "+BACKUP COMPLETED /tmp/x\r\n");
    assert!(send(&mut db, "NONSENSE").starts_with("-ERR Invalid command: "));
    assert_eq!(send(&mut db, "   "), "");

    send(&mut db, "CREATE TABLE players");
    db.log_fails = true;
    assert_eq!(
        send(&mut db, "SET players steve {}"),
        "-ERR WAL corruption detected: Failed to write to WAL\r\n"
    );
    assert_eq!(send(&mut db, "GET players steve"), "$-1\r\n");
    assert_eq!(send(&mut db, "DEL players steve"), ":1\r\n");
    assert_eq!(
        send(&mut db, "MSET players k1 1 k2 2"),
        "-ERR WAL corruption detected: Failed to write to WAL\r\n"
    );
}

#[test]
fn passwords() {
    let mut db = open_db();
    db.session = tcp::Session::new(Some("secret123".to_string()));
    assert_eq!(send(&mut db, "TABLES"), "-ERR NOAUTH Authentication required.\r\n");
    assert_eq!(send(&mut db, "PING"), "+PONG\r\n");
    assert_eq!(send(&mut db, "AUTH wrong"), "-ERR invalid password\r\n");
    assert_eq!(send(&mut db, "TABLES"), "-ERR NOAUTH Authentication required.\r\n");
    assert_eq!(send(&mut db, "AUTH secret123"), "+OK\r\n");
    assert_eq!(send(&mut db, "TABLES"), "$2\r\n[]\r\n");
    assert_eq!(send(&mut db, "AUTH wrong"), "+OK\r\n");
    assert_eq!(send(&mut db, "TABLES"), "$2\r\n[]\r\n");

    let (status, text) = get(&mut db, "/api/tables?token=wrong", Some("secret123"));
    assert_eq!(status, "401 Unauthorized");
    assert_eq!(text, "{\"error\":\"Unauthorized. Provide ?token=password\"}");
    assert_eq!(get(&mut db, "/api/tables?token=secret123", Some("secret123")).0, "200 OK");
    assert_eq!(get(&mut db, "/", Some("secret123")).0, "page");
}

#[test]
fn flushed_tables_are_read_and_recovered() {
    let mut db = open_db();
    send(&mut db, "CREATE TABLE players");
    send(&mut db, "SET players steve {\"level\":75}");
    send(&mut db, "SET players alex {\"level\":10}");
    send(&mut db, "DEL players alex");
    assert_eq!(send(&mut db, "FLUSH"), "+OK\r\n");
    {
        let files = &db.files;
        let i = db.manager.find_table("players").unwrap();
        let engine = &mut db.manager.table_at_mut(i).engine;
        assert_eq!(engine.worker_step(WorkerStep::Wait), WorkerStep::Flush);
        engine
            .flush_memtable_to_sstable(BloomFilter::with_size(64, 7), |path, image| {
                assert_eq!(path, "data/tables/players/000001.sst");
                files.borrow_mut().insert(("players".to_string(), 1), image.to_vec());
                Ok(())
            })
            .unwrap();
        assert_eq!(engine.worker_step(WorkerStep::Flush), WorkerStep::Wait);
        assert_eq!(engine.stats(), (0, 0, 1));
    }
    assert_eq!(body(&send(&mut db, "GET players steve")), "{\"level\":75}");
    assert_eq!(send(&mut db, "GET players alex"), "$-1\r\n");
    assert_eq!(
        body(&send(&mut db, "STATS players")),
        "{\n  \"active_memtable_entries\": 0,\n  \"disk_size_bytes\": 700,\n  \"immutable_memtables\": 0,\n  \"indexed_fields\": [],\n  \"sstable_count\": 1,\n  \"table\": \"players\",\n  \"total_records\": 1\n}"
    );
    assert_eq!(
        body(&send(&mut db, "STATS")),
        "{\n  \"tables\": [\n    \"players\"\n  ],\n  \"total_disk_size_bytes\": 700\n}"
    );
    let index_reply = send(&mut db, "INDEX CREATE players level");
    assert_eq!(index_reply, "+INDEX CREATED players:level\r\n");
    assert_eq!(
        body(&send(&mut db, "TOP players level")),
        format!("[{}]", row(1, "75.0", "steve"))
    );

    let log = db.logs["players"].clone();
    let mut again = TableManager::init("data", 1 << 20, 4, WalConfig::default(), 2);
    again
        .create_table("players", &vec![], Some(&log), &|_: u64, _: u64, _: u64| Ok(Vec::new()))
        .unwrap();
    let engine = &again.get_table("players").unwrap().engine;
    assert_eq!(engine.next_seq(), 4);
    let read = |_: u64, _: u64, _: u64| Ok(Vec::new());
    let steve = PlayerId::parse("steve").unwrap();
    let alex = PlayerId::parse("alex").unwrap();
    assert_eq!(&engine.get(&steve, 0, &read).unwrap().unwrap()[..], b"{\"level\":75}");
    assert_eq!(engine.get(&alex, 0, &read).unwrap(), None);
}

#[test]
fn unreadable_files_are_reported() {
    let mut db = open_db();
    send(&mut db, "CREATE TABLE players");
    send(&mut db, "SET players steve {\"level\":75}");
    send(&mut db, "FLUSH players");
    let i = db.manager.find_table("players").unwrap();
    db.manager
        .table_at_mut(i)
        .engine
        .flush_memtable_to_sstable(BloomFilter::with_size(64, 7), |_, _| Ok(()))
        .unwrap();
    assert_eq!(send(&mut db, "GET players steve"), "-ERR I/O error: no such file\r\n");
    assert_eq!(send(&mut db, "MGET players steve"), "*1\r\n$-1\r\n");
    assert_eq!(send(&mut db, "INDEX CREATE players level"), "-ERR I/O error: no such file\r\n");
    assert_eq!(send(&mut db, "INDEX LIST players"), "$2\r\n[]\r\n");
    let (status, text) = get(&mut db, "/api/get?table=players&uuid=steve", None);
    assert_eq!(status, "500 Internal Error");
    assert_eq!(text, "{\"error\":\"I/O error: no such file\"}");
}

#[test]
fn http_requests() {
    let mut db = open_db();
    assert_eq!(get(&mut db, "/index.html", None).0, "page");
    assert_eq!(
        get(&mut db, "/api/table/create?name=Players", None),
        ("create".to_string(), "players".to_string())
    );
    assert_eq!(
        get(&mut db, "/api/table/create", None),
        ("400 Bad Request".to_string(), "{\"error\":\"Missing table name\"}".to_string())
    );
    assert_eq!(get(&mut db, "/api/backup", None).0, "backup");
    assert_eq!(
        get(&mut db, "/api/nothing", None),
        ("404 Not Found".to_string(), "{\"error\":\"Endpoint not found\"}".to_string())
    );
    assert_eq!(
        get(&mut db, "/api/get?table=players&uuid=steve", None),
        ("404 Not Found".to_string(), "{\"error\":\"Table not found\"}".to_string())
    );
    send(&mut db, "CREATE TABLE players");
    send(&mut db, "SET players steve {\"level\":75}");
    send(&mut db, "SET players bob plain");
    assert_eq!(
        get(&mut db, "/api/tables", None).1,
        "{\"tables\":[\"players\"],\"total_disk_size_bytes\":700,\"total_disk_size_human\":\"700 B\"}"
    );
    assert_eq!(
        get(&mut db, "/api/get?table=players&uuid=steve", None).1,
        format!(
            "{{\"data\":{{\"level\":75}},\"found\":true,\"table\":\"players\",\"ttl_seconds\":-1,\"uuid\":\"{}\"}}",
            uuid("steve")
        )
    );
    assert_eq!(
        get(&mut db, "/api/get?table=players&uuid=bob", None).1,
        format!(
            "{{\"data\":\"plain\",\"found\":true,\"table\":\"players\",\"ttl_seconds\":-1,\"uuid\":\"{}\"}}",
            uuid("bob")
        )
    );
    assert_eq!(
        get(&mut db, "/api/get?table=players&uuid=nobody", None),
        (
            "404 Not Found".to_string(),
            "{\"error\":\"UUID not found or expired\",\"found\":false}".to_string()
        )
    );
    assert_eq!(
        get(&mut db, "/api/exists?table=players&uuid=steve", None).1,
        format!("{{\"exists\":true,\"uuid\":\"{}\"}}", uuid("steve"))
    );
    assert_eq!(
        get(&mut db, "/api/expire?table=players&uuid=steve", None).1,
        format!("{{\"expires_in_seconds\":60,\"success\":true,\"uuid\":\"{}\"}}", uuid("steve"))
    );
    assert_eq!(send(&mut db, "TTL players steve"), ":60\r\n");
    assert_eq!(
        get(&mut db, "/api/index/create?table=players&field=level", None).1,
        "{\"created\":\"level\",\"success\":true,\"table\":\"players\"}"
    );
    assert_eq!(
        get(&mut db, "/api/index/create?table=players", None),
        ("400 Bad Request".to_string(), "{\"error\":\"Missing field parameter\"}".to_string())
    );
    assert_eq!(
        get(&mut db, "/api/top?table=players&field=level", None).1,
        format!(
            "{{\"count\":1,\"field\":\"level\",\"rankings\":[{}],\"table\":\"players\"}}",
            row(1, "75.0", "steve")
        )
    );
    assert_eq!(
        get(&mut db, "/api/top?table=players&field=x", None),
        ("404 Not Found".to_string(), "{\"error\":\"Index 'x' is not registered\"}".to_string())
    );
    assert_eq!(
        get(&mut db, "/api/stats?table=players", None).1,
        "{\"active_memtable_entries\":2,\"disk_size_bytes\":700,\"disk_size_human\":\"700 B\",\"immutable_memtables\":0,\"registered_indices\":[\"level\"],\"sstable_count\":0,\"status\":\"online\",\"table\":\"players\",\"total_records\":2}"
    );
    assert_eq!(
        get(&mut db, "/api/flush?table=players", None).1,
        "{\"message\":\"Flush completed\",\"success\":true,\"table\":\"players\"}"
    );
    assert_eq!(
        get(&mut db, "/metrics", None).1,
        "fluxdb_up 1\nfluxdb_total_disk_bytes 700\nfluxdb_block_cache_capacity_bytes 0\nfluxdb_table_records{table=\"players\"} 2\nfluxdb_table_sstable_count{table=\"players\"} 0\nfluxdb_table_memtable_records{table=\"players\"} 0\n"
    );
}

#[test]
fn responses_are_framed() {
    let r = http::created_response("guilds", &Ok(()));
    assert_eq!(
        String::from_utf8(r.to_bytes()).unwrap(),
        "HTTP/1.1 200 OK\r\nContent-Type: application/json\r\nContent-Length: 33\r\nAccess-Control-Allow-Origin: *\r\nConnection: close\r\n\r\n{\"success\":true,\"table\":\"guilds\"}"
    );
    let r = http::created_response("guilds", &Err(DbError::KeyNotFound));
    assert_eq!((r.status, r.body.as_str()), ("500 Internal Error", "{\"error\":\"Key not found\"}"));
    let r = http::backup_response(&Err(DbError::Io("full".to_string())));
    assert_eq!(r.body, "{\"error\":\"Backup failed: I/O error: full\"}");
    let r = http::backup_response(&Ok("b".to_string()));
    assert_eq!(r.body, "{\"backup_path\":\"b\",\"success\":true}");
    assert_eq!(
        String::from_utf8(tcp::backup_reply(&Err(DbError::Io("full".to_string())))).unwrap(),
        "-ERR Backup failed: I/O error: full\r\n"
    );
    assert_eq!(http::extract_query_param("a=1&b=2=3&c", "b"), Some("2=3".to_string()));
    assert_eq!(http::extract_query_param("a=1&b=2=3&c", "c"), None);
    let req = http::read_request(b"");
    assert_eq!((req.path.as_str(), req.query.as_str()), ("/", ""));
    let req = http::read_request(b"GET /a\xff?x=1 HTTP/1.1\r\n");
    assert_eq!((req.path.as_str(), req.query.as_str()), ("/a\u{fffd}", "x=1"));
}

#[test]
fn settings_and_tables() {
    let mut m = TableManager::init("base", 4096, 3, WalConfig::default(), 2);
    let read = |_: u64, _: u64, _: u64| Ok(Vec::new());
    for name in ["users", "guilds", "players"] {
        m.create_table(name, &vec![], None, &read).unwrap();
        m.create_table(name, &vec![], None, &read).unwrap();
    }
    assert_eq!(m.list_tables(), vec!["guilds", "players", "users"]);
    assert!(m.drop_table("players"));
    assert!(!m.drop_table("players"));
    assert!(m.get_table("players").is_none());
    assert_eq!(m.list_tables(), vec!["guilds", "users"]);
    assert_eq!(m.truncate_table("players"), None);
    assert_eq!(m.truncate_table("users"), Some(vec![]));

    let config = m.get_config();
    assert_eq!((config.memtable_size_bytes, config.compaction_trigger), (4096, 3));
    assert_eq!((config.worker_threads, config.block_cache_mb), (2, 0));
    assert_eq!(m.get_auth_password(), None);
    m.set_auth_password(Some("p".to_string()));
    assert_eq!(m.get_auth_password(), Some("p".to_string()));
    let mut cache = BlockCache::new(0);
    let mut changed = DynamicServerConfig::with_threads(2);
    changed.block_cache_mb = 1;
    m.update_config(changed, &mut cache);
    assert_eq!(cache.current_usage(), (0, 1048576));
    assert!(cache.is_enabled());
    assert_eq!(m.get_config().memtable_size_bytes, 268435456);
    assert_eq!(DynamicServerConfig::default().worker_threads, 4);
    assert_eq!(m.engine_config("users").db_path, "base/tables/users");

    let damaged = m.create_table("bad", &vec![], Some(&[0; 8]), &read);
    assert_eq!(damaged, Err(DbError::WalCorruption("Corrupt WAL payload length".to_string())));
    assert!(m.get_table("bad").is_none());
    let i = m.find_table("users").unwrap();
    m.table_at_mut(i).engine.set_compression_type(CompressionType::Zstd);
    let out = Outside {
        read: |_: &str, _: u64, _: u64, _: u64| Ok(Vec::new()),
        disk: |_: &str| 5,
        near,
        human: |n: u64| n.to_string(),
    };
    assert_eq!(
        tcp::table_info_list(&m, &out).to_text(),
        "[{\"compression\":\"LZ4\",\"disk_size_bytes\":5,\"imm_memtable_records\":0,\"indexes\":[],\"memtable_records\":0,\"name\":\"guilds\",\"sstable_count\":0,\"total_records\":0},{\"compression\":\"ZSTD\",\"disk_size_bytes\":5,\"imm_memtable_records\":0,\"indexes\":[],\"memtable_records\":0,\"name\":\"users\",\"sstable_count\":0,\"total_records\":0}]"
    );
    assert_eq!(tcp::total_disk_size_bytes(&m, &out), 10);
}

#[test]
fn keys_are_shown_as_written() {
    let mut db = open_db();
    send(&mut db, "CREATE TABLE players");
    send(&mut db, "INDEX CREATE players a");
    let plain = "069a79f4-44e9-4726-a5be-fca90e38aaf5";
    send(&mut db, &format!("MSET players steve {{\"a\":1}} {} {{\"a\":2}}", plain));
    send(&mut db, "JSON.SET players Alex a 3");
    let shown = |name: &str, a: u32| format!("{{\"data\":{{\"a\":{}}},\"uuid\":\"{}\"}}", a, name);
    assert_eq!(
        body(&send(&mut db, "TOP players a")),
        format!("[{},{},{}]", row(1, "3.0", "Alex"), row(2, "2.0", plain), row(3, "1.0", "steve"))
    );
    assert_eq!(body(&send(&mut db, "FILTER players \"a = 3\"")), format!("[{}]", shown("Alex", 3)));
    let mut rows = vec![(uuid("steve"), shown("steve", 1)), (uuid("Alex"), shown("Alex", 3))];
    rows.push((plain.to_string(), shown(plain, 2)));
    rows.sort();
    let listed: Vec<String> = rows.into_iter().map(|r| r.1).collect();
    assert_eq!(body(&send(&mut db, "SCAN players")), format!("[{}]", listed.join(",")));

    // The last text counts, and one that is the UUID itself takes no place.
    send(&mut db, &format!("SET players {} {{\"a\":1}}", uuid("steve").to_uppercase()));
    let upper = uuid("steve").to_uppercase();
    assert_eq!(body(&send(&mut db, "FILTER players \"a = 1\"")), format!("[{}]", shown(&upper, 1)));
    send(&mut db, &format!("SET players {} {{\"a\":1}}", uuid("steve")));
    assert_eq!(
        body(&send(&mut db, "FILTER players \"a = 1\"")),
        format!("[{}]", shown(&uuid("steve"), 1))
    );
}

#[test]
fn texts_of_keys_are_kept_in_lines() {
    let keys = CommandParser::written_keys("MSET t steve {\"a\":\"} x\"}  Alex 5 bob");
    let steve = PlayerId::parse("steve").unwrap();
    let alex = PlayerId::parse("Alex").unwrap();
    assert_eq!(keys, vec![(steve, "steve".to_string()), (alex, "Alex".to_string())]);
    assert_eq!(CommandParser::written_keys("set t steve 1"), vec![(steve, "steve".to_string())]);
    assert_eq!(
        CommandParser::written_keys("JSON.SET t steve a.b 1"),
        vec![(steve, "steve".to_string())]
    );
    assert_eq!(CommandParser::written_keys("GET t steve"), vec![]);
    assert_eq!(CommandParser::written_keys(""), vec![]);
    let lines = names::write_lines(&keys);
    assert_eq!(lines, "steve\nAlex\n");
    assert_eq!(names::read_lines(&lines), keys);
    let mut texts = names::KeyNames::new();
    assert_eq!(texts.shown(&steve), steve.to_text());
    texts.note_all(&names::read_lines(&lines));
    assert_eq!(texts.shown(&steve), "steve");
    texts.note(&steve, &steve.to_text());
    assert_eq!(texts.shown(&steve), steve.to_text());
    assert_eq!(texts.shown(&alex), "Alex");

    // Only texts that change what is shown are to be kept.
    let told = vec![
        (alex, "Alex".to_string()),
        (steve, "steve".to_string()),
        (steve, "steve".to_string()),
        (steve, steve.to_text()),
    ];
    let kept = vec![told[1].clone(), told[3].clone()];
    assert_eq!(texts.note_fresh(&told), kept);
    assert_eq!(texts.shown(&steve), steve.to_text());
    assert_eq!(texts.note_fresh(&kept[1..].to_vec()), vec![]);
}

#[test]
fn writes_of_a_key_take_turns() {
    let mut db = open_db();
    send(&mut db, "CREATE TABLE players");
    send(&mut db, "SET players steve {\"a\":1,\"b\":1}");
    let first = pending(begin(&mut db, "JSON.SET players steve a 2"));
    let second = waiting(begin(&mut db, "JSON.SET players steve b 3"));
    for line in ["SET players steve {}", "DEL players steve", "MSET players steve 1 alex 2"] {
        waiting(begin(&mut db, line));
    }
    assert_eq!(send(&mut db, "SET players alex {}"), "+OK\r\n");
    assert_eq!(body(&send(&mut db, "GET players steve")), "{\"a\":1,\"b\":1}");
    let rest = waiting(begin(&mut db, "MSET players steve {\"a\":2} bob {}"));
    assert!(matches!(log(&mut db, first), tcp::Step::Reply(_)));
    let third = pending(resume(&mut db, second, &vec![]));
    assert!(matches!(log(&mut db, third), tcp::Step::Reply(_)));
    assert_eq!(body(&send(&mut db, "GET players steve")), "{\"a\":2,\"b\":3}");

    // A list of puts goes on where it had to wait; a write that failed holds nothing.
    let bob = pending(begin(&mut db, "SET players bob 1"));
    let one = pending(resume(&mut db, rest, &vec![]));
    let rest = waiting(log(&mut db, one));
    db.log_fails = true;
    log(&mut db, bob);
    db.log_fails = false;
    let two = pending(resume(&mut db, rest, &vec![]));
    assert!(matches!(log(&mut db, two), tcp::Step::Reply(_)));
    assert_eq!(body(&send(&mut db, "GET players bob")), "{}");
}

#[test]
fn records_are_counted_once() {
    let mut db = open_db();
    send(&mut db, "CREATE TABLE players");
    send(&mut db, "SET players steve 1");
    send(&mut db, "SET players steve 2");
    send(&mut db, "SET players alex 1");
    assert!(get(&mut db, "/metrics", None).1.contains("fluxdb_table_records{table=\"players\"} 2\n"));
    send(&mut db, "DEL players steve");
    send(&mut db, "DEL players alex");
    assert!(get(&mut db, "/metrics", None).1.contains("fluxdb_table_records{table=\"players\"} 0\n"));
    assert!(body(&send(&mut db, "STATS players")).contains("\"total_records\": 0"));
}

#[test]
fn new_tables_are_kept_as_told() {
    let config = WalConfig { commit_delay_us: 4, async_fsync: true };
    let mut manager = TableManager::init("base", 1 << 10, 5, config, 2);
    let read = |_: u64, _: u64, _: u64| Ok(vec![]);
    for name in ["default", "players"] {
        manager.create_table(name, &vec![], None, &read).unwrap();
        let kept = manager.get_table(name).unwrap().engine.config();
        assert_eq!(kept.db_path, format!("base/tables/{}", name));
        assert_eq!(kept.memtable_max_bytes, 1 << 10);
        assert_eq!(kept.l0_compaction_trigger, 5);
        assert_eq!(kept.wal_config, config);
    }
}

#[test]
fn fields_of_an_expiring_document_both_stand() {
    let mut db = open_db();
    send(&mut db, "CREATE TABLE players");
    send(&mut db, "SET players steve {\"a\":{\"x\":1}}");
    assert_eq!(send(&mut db, "EXPIRE players steve 100"), ":1\r\n");
    send(&mut db, "JSON.SET players steve a.x 2");
    send(&mut db, "JSON.SET players steve a.y 3");
    assert_eq!(body(&send(&mut db, "GET players steve")), "{\"a\":{\"x\":2,\"y\":3}}");
    db.now_ms += 100_000;
    assert_eq!(send(&mut db, "GET players steve"), "$-1\r\n");
}
