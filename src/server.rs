use vstd::prelude::*;

use crate::command::Response;
use crate::error::KvStoreError;

verus! {

/// The engine a server runs: `kvs` where none is named; the names `kvs` and
/// `sled` are accepted as given, and any other name is refused.
pub fn engine_name(engine: Option<String>) -> (r: Option<String>)
    ensures
        engine is None ==> (r matches Some(n) && n@ == "kvs"@),
        engine matches Some(e) ==> (if e@ == "kvs"@ || e@ == "sled"@ {
            (r matches Some(n) && n@ == e@)
        } else {
            r is None
        }),
{
    let kvs = String::from_str("kvs");
    match engine {
        None => Some(kvs),
        Some(name) => {
            let sled = String::from_str("sled");
            if name == kvs || name == sled {
                Some(name)
            } else {
                None
            }
        },
    }
}

/// The answer to a `Get`: the value found, `Key not found` where there is
/// none, or the message of the error that the lookup met.
pub fn get_response(outcome: Result<Option<String>, KvStoreError>) -> (r: Response)
    ensures
        outcome matches Ok(Some(v)) ==> r == Response::GetOk(v),
        outcome matches Ok(None) ==> (r matches Response::Error(m) && m@ == "Key not found"@),
        outcome matches Err(e) ==> (r matches Response::Error(m) && m@ == e.spec_message()),
{
    match outcome {
        Ok(Some(v)) => Response::GetOk(v),
        Ok(None) => Response::Error(KvStoreError::KeyNotFound.message()),
        Err(e) => Response::Error(e.message()),
    }
}

/// The answer to a `Set`: `SetOk`, or the message of the error met.
pub fn set_response(outcome: Result<(), KvStoreError>) -> (r: Response)
    ensures
        outcome is Ok ==> r == Response::SetOk,
        outcome matches Err(e) ==> (r matches Response::Error(m) && m@ == e.spec_message()),
{
    match outcome {
        Ok(()) => Response::SetOk,
        Err(e) => Response::Error(e.message()),
    }
}

/// The answer to an `Rm`: `RmOk`, or the message of the error met
/// (`Key not found` for a key that is not live).
pub fn remove_response(outcome: Result<(), KvStoreError>) -> (r: Response)
    ensures
        outcome is Ok ==> r == Response::RmOk,
        outcome matches Err(e) ==> (r matches Response::Error(m) && m@ == e.spec_message()),
{
    match outcome {
        Ok(()) => Response::RmOk,
        Err(e) => Response::Error(e.message()),
    }
}

/// The answer to an `Open`, which the server does not carry out.
pub fn open_response() -> (r: Response)
    ensures
        (r matches Response::Error(m) && m@ == "not supported"@),
{
    Response::Error(String::from_str("not supported"))
}

} // verus!
