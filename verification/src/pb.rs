use vstd::prelude::*;

verus! {

/// Asks for the value stored under `key`.
pub struct RequestGet {
    pub key: String,
}

/// Stores `value` under `key`.
pub struct RequestPut {
    pub key: String,
    pub value: Vec<u8>,
}

/// Removes what is stored under `key`.
pub struct RequestDelete {
    pub key: String,
}

/// The command a request carries.
pub enum Command {
    Get(RequestGet),
    Put(RequestPut),
    Delete(RequestDelete),
}

/// A request to the key-value server.
pub struct Request {
    pub command: Option<Command>,
}

/// The server's answer: a status code, the key, and the value.
pub struct Response {
    pub code: u32,
    pub key: String,
    pub value: Vec<u8>,
}

impl Request {
    pub fn new_get(key: &str) -> (r: Self)
        ensures
            r.command matches Some(Command::Get(g)) && g.key@ == key@,
    {
        Self { command: Some(Command::Get(RequestGet { key: key.to_owned() })) }
    }

    pub fn new_put(key: &str, value: &[u8]) -> (r: Self)
        ensures
            r.command matches Some(Command::Put(p)) && p.key@ == key@ && p.value@ == value@,
    {
        Self {
            command: Some(
                Command::Put(
                    RequestPut { key: key.to_owned(), value: vstd::slice::slice_to_vec(value) },
                ),
            ),
        }
    }

    pub fn new_delete(key: &str) -> (r: Self)
        ensures
            r.command matches Some(Command::Delete(d)) && d.key@ == key@,
    {
        Self { command: Some(Command::Delete(RequestDelete { key: key.to_owned() })) }
    }
}

impl Response {
    /// A successful answer (code 0) carrying `key` and `value`.
    pub fn new(key: String, value: Vec<u8>) -> (r: Self)
        ensures
            r.code == 0,
            r.key == key,
            r.value == value,
    {
        Self { code: 0, key, value }
    }

    /// The answer for a missing key: code 404 and no value.
    pub fn not_found(key: String) -> (r: Self)
        ensures
            r.code == 404,
            r.key == key,
            r.value@ == Seq::<u8>::empty(),
    {
        Self { code: 404, key, value: Vec::new() }
    }
}

} // verus!
