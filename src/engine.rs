use vstd::prelude::*;
use vstd::string::StringExecFns;

use crate::error::{ErrorKind, KvsError, Result};

verus! {

/// The storage backends a server can run on.
#[derive(Clone, Copy, Debug, PartialEq, Eq, Structural)]
pub enum EngineKind {
    Kvs,
    Sled,
}

/// The name of a backend, as the marker file and the command line write it.
pub open spec fn engine_name_of(e: EngineKind) -> Seq<char> {
    match e {
        EngineKind::Kvs => "kvs"@,
        EngineKind::Sled => "sled"@,
    }
}

pub fn engine_name(e: EngineKind) -> (s: String)
    ensures
        s@ == engine_name_of(e),
{
    match e {
        EngineKind::Kvs => String::from_str("kvs"),
        EngineKind::Sled => String::from_str("sled"),
    }
}

/// The backend that a name stands for.
pub fn parse_engine(s: &str) -> (r: Option<EngineKind>)
    ensures
        forall|e: EngineKind| (r == Some(e)) <==> s@ == #[trigger] engine_name_of(e),
{
    proof {
        reveal_strlit("kvs");
        reveal_strlit("sled");
        assert("kvs"@.len() != "sled"@.len());
    }
    let name = s.to_owned();
    if name == String::from_str("kvs") {
        Some(EngineKind::Kvs)
    } else if name == String::from_str("sled") {
        Some(EngineKind::Sled)
    } else {
        None
    }
}

/// The backend to start with, from the one the storage directory was made
/// with (if any) and the one asked for (if any). Asking for another backend
/// than the directory's is `EngineMismatch`; with neither, `kvs`.
pub fn select_engine(persisted: Option<EngineKind>, requested: Option<EngineKind>) -> (r: Result<
    EngineKind,
>)
    ensures
        r is Err <==> (persisted is Some && requested is Some && persisted != requested),
        r is Err ==> r->Err_0.kind == ErrorKind::EngineMismatch,
        r matches Ok(e) ==> e == (match (requested, persisted) {
            (Some(q), _) => q,
            (None, Some(p)) => p,
            (None, None) => EngineKind::Kvs,
        }),
{
    match (requested, persisted) {
        (Some(q), Some(p)) => {
            if q == p {
                Ok(q)
            } else {
                Err(
                    KvsError::new(
                        ErrorKind::EngineMismatch,
                        String::from_str("Wrong engine: the directory holds data of another engine"),
                    ),
                )
            }
        },
        (Some(q), None) => Ok(q),
        (None, Some(p)) => Ok(p),
        (None, None) => Ok(EngineKind::Kvs),
    }
}

} // verus!
