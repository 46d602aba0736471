use vstd::prelude::*;
use crate::error::KvsError;

verus! {

/// A request from a client: one per connection.
#[derive(Debug, Clone, PartialEq, Eq)]
pub enum KvsRequest {
    /// Asks for the value of `key`.
    Get { key: String },
    /// Asks to store `value` under `key`.
    Put { key: String, value: String },
    /// Asks to remove `key`.
    Remove { key: String },
}

/// The answer to one request.
#[derive(Debug, Clone, PartialEq, Eq)]
pub enum KvsResponse {
    /// The request succeeded; a `Get` carries the value, if any.
    Value(Option<String>),
    /// The request failed, for the reason given.
    Failure(String),
}

/// The message that stands for an error on the wire and for the user.
pub open spec fn message_spec(e: KvsError) -> Seq<char> {
    match e {
        KvsError::Io(m) => if m@.len() == 0 {
            "I/O error"@
        } else {
            m@
        },
        KvsError::CorruptRecord => "Corrupt record"@,
        KvsError::EngineMismatch => "Wrong engine"@,
        KvsError::KeyNotFound => "Key not found"@,
        KvsError::InvalidCommand => "Invalid command"@,
        KvsError::Internal => "Internal error"@,
        KvsError::Server(m) => if m@.len() == 0 {
            "Server error"@
        } else {
            m@
        },
    }
}

impl KvsError {
    /// A human-readable message for the error.
    pub fn message(&self) -> (r: String)
        ensures
            r@ == message_spec(*self),
            r@.len() > 0,
    {
        proof {
            reveal_strlit("I/O error");
            reveal_strlit("Corrupt record");
            reveal_strlit("Wrong engine");
            reveal_strlit("Key not found");
            reveal_strlit("Invalid command");
            reveal_strlit("Internal error");
            reveal_strlit("Server error");
        }
        match self {
            KvsError::Io(m) => if m.as_str().is_empty() {
                String::from_str("I/O error")
            } else {
                m.clone()
            },
            KvsError::CorruptRecord => String::from_str("Corrupt record"),
            KvsError::EngineMismatch => String::from_str("Wrong engine"),
            KvsError::KeyNotFound => String::from_str("Key not found"),
            KvsError::InvalidCommand => String::from_str("Invalid command"),
            KvsError::Internal => String::from_str("Internal error"),
            KvsError::Server(m) => if m.as_str().is_empty() {
                String::from_str("Server error")
            } else {
                m.clone()
            },
        }
    }
}

/// The answer to a `Get`, from what the engine returned: the value (or
/// `None` for an absent key), or the error's message.
pub fn get_response(outcome: Result<Option<String>, KvsError>) -> (r: KvsResponse)
    ensures
        match outcome {
            Ok(v) => r == KvsResponse::Value(v),
            Err(e) => r matches KvsResponse::Failure(m) && m@ == message_spec(e),
        },
{
    match outcome {
        Ok(v) => KvsResponse::Value(v),
        Err(e) => KvsResponse::Failure(e.message()),
    }
}

/// The answer to a `Put` or a `Remove`, from what the engine returned:
/// `Value(None)` on success, else the error's message (`"Key not found"`
/// for a remove of an absent key).
pub fn unit_response(outcome: Result<(), KvsError>) -> (r: KvsResponse)
    ensures
        match outcome {
            Ok(_) => r == KvsResponse::Value(None),
            Err(e) => r matches KvsResponse::Failure(m) && m@ == message_spec(e),
        },
{
    match outcome {
        Ok(_) => KvsResponse::Value(None),
        Err(e) => KvsResponse::Failure(e.message()),
    }
}

/// What a client makes of a response: the value, or a `Server` error with
/// the message.
pub fn parse_response(response: KvsResponse) -> (r: Result<Option<String>, KvsError>)
    ensures
        match response {
            KvsResponse::Value(v) => r == Ok::<Option<String>, KvsError>(v),
            KvsResponse::Failure(m) => r matches Err(KvsError::Server(t)) && t@ == m@,
        },
{
    match response {
        KvsResponse::Value(v) => Ok(v),
        KvsResponse::Failure(m) => Err(KvsError::Server(m)),
    }
}

/// A storage engine: the log-structured store and the alternatives share
/// this surface. An engine verified alongside this library names what its
/// answers satisfy; for any other engine nothing is assumed of them.
pub trait KvsEngine: Clone + Send + 'static {
    /// What holds of an answer `r` of `set(key, value)`.
    open spec fn set_post(&self, key: Seq<char>, value: Seq<char>, r: Result<(), KvsError>) -> bool {
        true
    }

    /// What holds of an answer `r` of `get(key)`.
    open spec fn get_post(&self, key: Seq<char>, r: Result<Option<String>, KvsError>) -> bool {
        true
    }

    /// What holds of an answer `r` of `remove(key)`.
    open spec fn remove_post(&self, key: Seq<char>, r: Result<(), KvsError>) -> bool {
        true
    }

    /// Stores `value` under `key`, replacing any earlier value.
    fn set(&self, key: String, value: String) -> (r: Result<(), KvsError>)
        ensures
            self.set_post(key@, value@, r),
    ;

    /// The value of `key`, or `None` where the store does not hold it.
    fn get(&self, key: String) -> (r: Result<Option<String>, KvsError>)
        ensures
            self.get_post(key@, r),
    ;

    /// Removes `key`; `KeyNotFound` where the store does not hold it.
    fn remove(&self, key: String) -> (r: Result<(), KvsError>)
        ensures
            self.remove_post(key@, r),
    ;
}

/// The response for the outcome of a `Put` or a `Remove`.
pub open spec fn unit_response_spec(outcome: Result<(), KvsError>, r: KvsResponse) -> bool {
    match outcome {
        Ok(_) => r == KvsResponse::Value(None),
        Err(e) => r matches KvsResponse::Failure(m) && m@ == message_spec(e),
    }
}

/// The response for the outcome of a `Get`.
pub open spec fn get_response_spec(outcome: Result<Option<String>, KvsError>, r: KvsResponse) -> bool {
    match outcome {
        Ok(v) => r == KvsResponse::Value(v),
        Err(e) => r matches KvsResponse::Failure(m) && m@ == message_spec(e),
    }
}

/// Dispatches one request to the engine, with the request's key and value,
/// and answers with `get_response` or `unit_response` of what the engine
/// returned.
pub fn handle_request<E: KvsEngine>(engine: &E, request: KvsRequest) -> (r: KvsResponse)
    ensures
        request matches KvsRequest::Get { key } ==> exists|res: Result<Option<String>, KvsError>|
            engine.get_post(key@, res) && #[trigger] get_response_spec(res, r),
        request matches KvsRequest::Put { key, value } ==> exists|res: Result<(), KvsError>|
            engine.set_post(key@, value@, res) && #[trigger] unit_response_spec(res, r),
        request matches KvsRequest::Remove { key } ==> exists|res: Result<(), KvsError>|
            engine.remove_post(key@, res) && #[trigger] unit_response_spec(res, r),
{
    match request {
        KvsRequest::Get { key } => {
            let res = engine.get(key);
            let r = get_response(res);
            assert(get_response_spec(res, r));
            r
        },
        KvsRequest::Put { key, value } => {
            let res = engine.set(key, value);
            let r = unit_response(res);
            assert(unit_response_spec(res, r));
            r
        },
        KvsRequest::Remove { key } => {
            let res = engine.remove(key);
            let r = unit_response(res);
            assert(unit_response_spec(res, r));
            r
        },
    }
}

/// A pool of threads that runs jobs.
pub trait ThreadPool: Sized {
    /// A pool of `threads` threads.
    fn new(threads: u32) -> Result<Self, KvsError>;

    /// Runs `job` on the pool.
    fn spawn<F>(&self, job: F) where F: FnOnce() + Send + 'static;
}

/// A server that answers each connection with one job on its pool.
pub struct KvsServer<E: KvsEngine, P: ThreadPool> {
    engine: E,
    pool: P,
}

impl<E: KvsEngine, P: ThreadPool> KvsServer<E, P> {
    /// The engine of the server.
    pub closed spec fn engine_spec(&self) -> E {
        self.engine
    }

    /// The pool of the server.
    pub closed spec fn pool_spec(&self) -> P {
        self.pool
    }

    /// A server over `engine` that runs its jobs on `pool`.
    pub fn new(engine: E, pool: P) -> (r: Self)
        ensures
            r.engine_spec() == engine,
            r.pool_spec() == pool,
    {
        KvsServer { engine, pool }
    }

    /// The engine that requests go to.
    pub fn engine(&self) -> (r: &E)
        ensures
            *r == self.engine_spec(),
    {
        &self.engine
    }

    /// The pool that runs the jobs.
    pub fn pool(&self) -> (r: &P)
        ensures
            *r == self.pool_spec(),
    {
        &self.pool
    }
}

/// Whether a directory may be used by `engine`, given the engine name that
/// its marker holds (empty for a fresh directory): `Ok(true)` where the
/// marker is still to be written, `Ok(false)` where it already names
/// `engine`, `EngineMismatch` where it names another.
pub fn check_engine(stored: &String, engine: &String) -> (r: Result<bool, KvsError>)
    ensures
        stored@.len() == 0 ==> r == Ok::<bool, KvsError>(true),
        stored@.len() != 0 && stored@ == engine@ ==> r == Ok::<bool, KvsError>(false),
        stored@.len() != 0 && stored@ != engine@ ==> r == Err::<bool, KvsError>(KvsError::EngineMismatch),
{
    if stored.as_str().is_empty() {
        Ok(true)
    } else if stored.eq(engine) {
        Ok(false)
    } else {
        Err(KvsError::EngineMismatch)
    }
}

} // verus!
