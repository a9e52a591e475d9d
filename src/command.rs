use vstd::prelude::*;
use vstd::string::StringExecFns;

verus! {

/// The JSON string literal that `serde_json` writes for a string: quoted, with
/// its escapes.
pub uninterp spec fn json_str_of(s: Seq<char>) -> Seq<char>;

/// Relies on `serde_json::to_string` on a `str`: it renders the string as a
/// JSON string literal, and the result depends on the characters alone.
/// Serialising a `str` into memory does not fail.
#[verifier::external_body]
pub(crate) fn json_string(s: &str) -> (r: String)
    ensures
        r@ == json_str_of(s@),
{
    match serde_json::to_string(s) {
        Ok(r) => r,
        Err(_) => String::new(),
    }
}

/// A mutation of the store: the only thing ever written to the log.
#[derive(Clone, Debug)]
pub enum Command {
    SetValue { key: String, value: String },
    Remove { key: String },
}

impl Command {
    pub fn set(key: String, value: String) -> (c: Command)
        ensures
            c == (Command::SetValue { key, value }),
    {
        Command::SetValue { key, value }
    }

    pub fn remove(key: String) -> (c: Command)
        ensures
            c == (Command::Remove { key }),
    {
        Command::Remove { key }
    }

    pub open spec fn key_view(&self) -> Seq<char> {
        match self {
            Command::SetValue { key, .. } => key@,
            Command::Remove { key } => key@,
        }
    }

    /// The key the command is about.
    pub fn key(&self) -> (k: &String)
        ensures
            k@ == self.key_view(),
    {
        match self {
            Command::SetValue { key, .. } => key,
            Command::Remove { key } => key,
        }
    }

    /// The log record of the command: `{"Set":{"key":K,"value":V}}` or
    /// `{"Remove":{"key":K}}`, with K and V as JSON string literals.
    pub open spec fn spec_encode(&self) -> Seq<char> {
        match self {
            Command::SetValue { key, value } => "{\"Set\":{\"key\":"@ + json_str_of(key@)
                + ",\"value\":"@ + json_str_of(value@) + "}}"@,
            Command::Remove { key } => "{\"Remove\":{\"key\":"@ + json_str_of(key@) + "}}"@,
        }
    }

    pub fn encode(&self) -> (s: String)
        ensures
            s@ == self.spec_encode(),
    {
        match self {
            Command::SetValue { key, value } => {
                let mut s = String::from_str("{\"Set\":{\"key\":");
                s.append(json_string(key.as_str()).as_str());
                s.append(",\"value\":");
                s.append(json_string(value.as_str()).as_str());
                s.append("}}");
                s
            },
            Command::Remove { key } => {
                let mut s = String::from_str("{\"Remove\":{\"key\":");
                s.append(json_string(key.as_str()).as_str());
                s.append("}}");
                s
            },
        }
    }
}

} // verus!
