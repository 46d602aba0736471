use kvs::{
    check_engine, get_response, handle_request, log_path, parse_log_name, parse_response,
    sort_gen_list, unit_response, KvsEngine, KvsError, KvsRequest, KvsResponse, KvsServer,
    ThreadPool,
};
use std::collections::HashMap;
use std::sync::{Arc, Mutex};

#[derive(Clone)]
struct MapEngine(Arc<Mutex<HashMap<String, String>>>);

impl KvsEngine for MapEngine {
    fn set(&self, key: String, value: String) -> Result<(), KvsError> {
        self.0.lock().unwrap().insert(key, value);
        Ok(())
    }

    fn get(&self, key: String) -> Result<Option<String>, KvsError> {
        Ok(self.0.lock().unwrap().get(&key).cloned())
    }

    fn remove(&self, key: String) -> Result<(), KvsError> {
        match self.0.lock().unwrap().remove(&key) {
            Some(_) => Ok(()),
            None => Err(KvsError::KeyNotFound),
        }
    }
}

struct InlinePool;

impl ThreadPool for InlinePool {
    fn new(_threads: u32) -> Result<Self, KvsError> {
        Ok(InlinePool)
    }

    fn spawn<F>(&self, job: F)
    where
        F: FnOnce() + Send + 'static,
    {
        job()
    }
}

#[test]
fn requests_round_trip_through_engine() {
    let engine = MapEngine(Arc::new(Mutex::new(HashMap::new())));
    let server = KvsServer::new(engine, InlinePool::new(1).unwrap());
    let e = server.engine();
    assert_eq!(
        handle_request(e, KvsRequest::Put { key: "foo".to_owned(), value: "bar".to_owned() }),
        KvsResponse::Value(None)
    );
    assert_eq!(
        handle_request(e, KvsRequest::Get { key: "foo".to_owned() }),
        KvsResponse::Value(Some("bar".to_owned()))
    );
    assert_eq!(handle_request(e, KvsRequest::Remove { key: "foo".to_owned() }), KvsResponse::Value(None));
    assert_eq!(handle_request(e, KvsRequest::Get { key: "foo".to_owned() }), KvsResponse::Value(None));
    assert_eq!(
        handle_request(e, KvsRequest::Remove { key: "foo".to_owned() }),
        KvsResponse::Failure("Key not found".to_owned())
    );
}

#[test]
fn responses_carry_error_messages() {
    assert_eq!(get_response(Ok(None)), KvsResponse::Value(None));
    assert_eq!(get_response(Err(KvsError::CorruptRecord)), KvsResponse::Failure("Corrupt record".to_owned()));
    assert_eq!(unit_response(Err(KvsError::KeyNotFound)), KvsResponse::Failure("Key not found".to_owned()));
    assert_eq!(unit_response(Err(KvsError::Io("disk full".to_owned()))), KvsResponse::Failure("disk full".to_owned()));
    assert_eq!(unit_response(Ok(())), KvsResponse::Value(None));
    assert_eq!(KvsError::InvalidCommand.message(), "Invalid command");
    assert_eq!(KvsError::Internal.message(), "Internal error");
    assert_eq!(KvsError::EngineMismatch.message(), "Wrong engine");
}

#[test]
fn client_reads_responses() {
    assert_eq!(parse_response(KvsResponse::Value(Some("bar".to_owned()))), Ok(Some("bar".to_owned())));
    assert_eq!(parse_response(KvsResponse::Value(None)), Ok(None));
    assert_eq!(
        parse_response(KvsResponse::Failure("Key not found".to_owned())),
        Err(KvsError::Server("Key not found".to_owned()))
    );
}

#[test]
fn engine_marker_mismatch() {
    assert_eq!(check_engine(&"kvs".to_owned(), &"sled".to_owned()), Err(KvsError::EngineMismatch));
    assert_eq!(check_engine(&"sled".to_owned(), &"kvs".to_owned()), Err(KvsError::EngineMismatch));
    assert_eq!(check_engine(&"kvs".to_owned(), &"kvs".to_owned()), Ok(false));
    assert_eq!(check_engine(&String::new(), &"sled".to_owned()), Ok(true));
}

#[test]
fn segment_names() {
    assert_eq!(log_path(0), "0.log");
    assert_eq!(log_path(42), "42.log");
    assert_eq!(log_path(u64::MAX), "18446744073709551615.log");
    assert_eq!(parse_log_name("42.log"), Some(42));
    assert_eq!(parse_log_name("18446744073709551615.log"), Some(u64::MAX));
    assert_eq!(parse_log_name("18446744073709551616.log"), None);
    assert_eq!(parse_log_name(".log"), None);
    assert_eq!(parse_log_name("4a.log"), None);
    assert_eq!(parse_log_name("42.txt"), None);
    assert_eq!(parse_log_name("type"), None);
    assert_eq!(parse_log_name(&log_path(123456789)), Some(123456789));
}

#[test]
fn generation_list_sorted() {
    let names: Vec<String> = vec!["10.log", "type", "2.log", "conf", "1.log", "x.log"]
        .into_iter()
        .map(|s| s.to_owned())
        .collect();
    assert_eq!(sort_gen_list(&names), vec![1, 2, 10]);
    assert_eq!(sort_gen_list(&Vec::new()), Vec::<u64>::new());
}

#[test]
fn empty_error_texts_get_a_reason() {
    assert_eq!(KvsError::Io(String::new()).message(), "I/O error");
    assert_eq!(KvsError::Server(String::new()).message(), "Server error");
    assert_eq!(
        unit_response(Err(KvsError::Io(String::new()))),
        KvsResponse::Failure("I/O error".to_owned())
    );
}
