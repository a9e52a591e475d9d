use vstd::prelude::*;
use vstd::string::StringExecFns;

use crate::command::{json_str_of, json_string};
use crate::error::Result;

verus! {

/// A request of the wire protocol: `{"Get":{"key":K}}`,
/// `{"Set":{"key":K,"value":V}}` or `{"Remove":{"key":K}}`.
#[derive(Clone, Debug)]
pub enum Request {
    Get { key: String },
    SetValue { key: String, value: String },
    Remove { key: String },
}

/// The reply to a `Get`: `{"Ok":V}` with V a JSON string literal,
/// `{"Ok":null}` where the key has no value, or `{"Err":M}` with the error's
/// message.
pub open spec fn get_reply(r: &Result<Option<String>>) -> Seq<char> {
    match r {
        Ok(Some(v)) => "{\"Ok\":"@ + json_str_of(v@) + "}"@,
        Ok(None) => "{\"Ok\":null}"@,
        Err(e) => "{\"Err\":"@ + json_str_of(e.message@) + "}"@,
    }
}

/// The reply to a `Set` or a `Remove`: `{"Ok":null}` or `{"Err":M}`.
pub open spec fn unit_reply(r: &Result<()>) -> Seq<char> {
    match r {
        Ok(_) => "{\"Ok\":null}"@,
        Err(e) => "{\"Err\":"@ + json_str_of(e.message@) + "}"@,
    }
}

pub fn encode_get_reply(r: &Result<Option<String>>) -> (s: String)
    ensures
        s@ == get_reply(r),
{
    match r {
        Ok(Some(v)) => {
            let mut s = String::from_str("{\"Ok\":");
            s.append(json_string(v.as_str()).as_str());
            s.append("}");
            s
        },
        Ok(None) => String::from_str("{\"Ok\":null}"),
        Err(e) => {
            let mut s = String::from_str("{\"Err\":");
            s.append(json_string(e.message.as_str()).as_str());
            s.append("}");
            s
        },
    }
}

pub fn encode_unit_reply(r: &Result<()>) -> (s: String)
    ensures
        s@ == unit_reply(r),
{
    match r {
        Ok(_) => String::from_str("{\"Ok\":null}"),
        Err(e) => {
            let mut s = String::from_str("{\"Err\":");
            s.append(json_string(e.message.as_str()).as_str());
            s.append("}");
            s
        },
    }
}

/// A server over one engine, chosen once at start-up. Connections are
/// served one at a time; each request gets its reply before the next one
/// is read.
pub struct KvsServer<E> {
    engine: E,
}

impl<E> KvsServer<E> {
    pub closed spec fn engine(&self) -> E {
        self.engine
    }

    pub fn new(engine: E) -> (s: KvsServer<E>)
        ensures
            s.engine() == engine,
    {
        KvsServer { engine }
    }

    /// Hands the engine over to the loop that serves connections.
    pub fn into_engine(self) -> (e: E)
        ensures
            e == self.engine(),
    {
        self.engine
    }
}

} // verus!
