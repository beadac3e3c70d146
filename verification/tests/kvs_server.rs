use kvs_broadcast::kvs::client::{read_change, read_get, read_ping, Reply};
use kvs_broadcast::kvs::engines::{check_engine, Engine, KvsEngine};
use kvs_broadcast::kvs::error::ErrorKind;
use kvs_broadcast::kvs::log::{tombstone, LogEntry};
use kvs_broadcast::kvs::requests::{Request, Response};
use kvs_broadcast::kvs::server::{answer_change, answer_get, serve, KvsServer};
use kvs_broadcast::kvs::store::KvStore;

fn text(s: &str) -> String {
    s.to_string()
}

#[test]
fn set_remove_remove_over_the_server() {
    let mut server = KvsServer::new(KvStore::open(Vec::new()).unwrap());
    let first = server.handle_request(Request::Put { key: text("k"), value: text("v") });
    assert!(matches!(first, Response::Success));
    let second = server.handle_request(Request::Remove { key: text("k") });
    assert!(matches!(second, Response::Success));
    match server.handle_request(Request::Remove { key: text("k") }) {
        Response::Error(message) => assert_eq!(message, "Key not found"),
        other => panic!("unexpected {:?}", other),
    }
}

#[test]
fn server_answers_ping_and_get() {
    let mut server = KvsServer::new(KvStore::open(Vec::new()).unwrap());
    assert!(matches!(server.handle_request(Request::Ping), Response::Pong));
    assert!(matches!(server.handle_request(Request::Get { key: text("a") }), Response::Value(None)));
    server.handle_request(Request::Put { key: text("a"), value: text("1") });
    match server.handle_request(Request::Get { key: text("a") }) {
        Response::Value(Some(v)) => assert_eq!(v, "1"),
        other => panic!("unexpected {:?}", other),
    }
    assert_eq!(server.engine().len(), 1);
}

#[test]
fn answers_carry_the_text_of_an_error() {
    match answer_change(Err(ErrorKind::Io(text("disk full")))) {
        Response::Error(m) => assert_eq!(m, "disk full"),
        other => panic!("unexpected {:?}", other),
    }
    match answer_get(Err(ErrorKind::ConversionError(text("bad bytes")))) {
        Response::Error(m) => assert_eq!(m, "ConversionError: bad bytes"),
        other => panic!("unexpected {:?}", other),
    }
    assert!(matches!(answer_change(Ok(())), Response::Success));
    assert!(matches!(answer_get(Ok(None)), Response::Value(None)));
}

#[test]
fn error_texts() {
    assert_eq!(ErrorKind::KeyNotFound.message(), "Key not found");
    assert_eq!(ErrorKind::WrongEngineUsed.message(), "Wrong engine used");
    assert_eq!(ErrorKind::Serialization(text("eof")).message(), "eof");
    assert_eq!(ErrorKind::DatabaseEngine(text("sled")).message(), "sled");
}

#[test]
fn client_reads_answers() {
    assert!(matches!(read_ping(Response::Pong), Reply::Done));
    assert!(matches!(read_ping(Response::Success), Reply::Fail(m) if m == "Unexpected response"));
    assert!(matches!(read_ping(Response::Error(text("no"))), Reply::Fail(m) if m == "no"));
    assert!(matches!(read_get(Response::Value(Some(text("v")))), Reply::Print(m) if m == "v"));
    assert!(matches!(read_get(Response::Value(None)), Reply::Print(m) if m == "Key not found"));
    assert!(matches!(read_get(Response::Pong), Reply::Fail(m) if m == "Unexpected response"));
    assert!(matches!(read_get(Response::Error(text("e"))), Reply::Fail(m) if m == "e"));
    assert!(matches!(read_change(Response::Success), Reply::Done));
    assert!(matches!(read_change(Response::Error(text("Key not found"))), Reply::Fail(m) if m == "Key not found"));
    assert!(matches!(read_change(Response::Value(None)), Reply::Fail(m) if m == "Unexpected response"));
}

#[test]
fn a_directory_keeps_its_engine() {
    assert!(check_engine(None, Engine::kvs).is_ok());
    assert!(check_engine(None, Engine::sled).is_ok());
    assert!(check_engine(Some(Engine::kvs), Engine::kvs).is_ok());
    assert!(matches!(check_engine(Some(Engine::kvs), Engine::sled), Err(ErrorKind::WrongEngineUsed)));
    assert!(matches!(check_engine(Some(Engine::sled), Engine::kvs), Err(ErrorKind::WrongEngineUsed)));
}

#[test]
fn engine_names() {
    assert_eq!(Engine::kvs.name(), "kvs");
    assert_eq!(Engine::sled.name(), "sled");
    assert_eq!(Engine::from_name("kvs"), Some(Engine::kvs));
    assert_eq!(Engine::from_name("sled"), Some(Engine::sled));
    assert_eq!(Engine::from_name("Kvs"), None);
    assert_eq!(Engine::from_name(""), None);
}

#[test]
fn the_store_is_an_engine() {
    fn exercise<E: KvsEngine>(engine: &mut E) -> Engine {
        engine.set(text("a"), text("1")).unwrap();
        assert_eq!(engine.get(text("a")).unwrap(), Some(text("1")));
        engine.remove(text("a")).unwrap();
        assert!(matches!(engine.remove(text("a")), Err(ErrorKind::KeyNotFound)));
        engine.as_type()
    }
    let mut store = KvStore::open(Vec::new()).unwrap();
    assert_eq!(exercise(&mut store), Engine::kvs);
}

#[test]
fn any_engine_can_be_served() {
    let mut store = KvStore::open(Vec::new()).unwrap();
    assert!(matches!(serve(&mut store, Request::Ping), Response::Pong));
    assert!(matches!(
        serve(&mut store, Request::Put { key: text("k"), value: text("v") }),
        Response::Success
    ));
    assert!(matches!(serve(&mut store, Request::Get { key: text("k") }), Response::Value(Some(v)) if v == "v"));
    assert!(matches!(serve(&mut store, Request::Remove { key: text("k") }), Response::Success));
    assert!(matches!(serve(&mut store, Request::Remove { key: text("k") }), Response::Error(m) if m == "Key not found"));
}

#[test]
fn log_entries() {
    let set = LogEntry::add(text("k"), text("v"));
    assert!(!set.is_tombstone());
    assert_eq!((set.key.as_str(), set.value.as_str()), ("k", "v"));
    let gone = LogEntry::remove(text("k"));
    assert!(gone.is_tombstone());
    assert_eq!(gone.value, "__tombstone__");
    assert_eq!(tombstone(), "__tombstone__");
}
