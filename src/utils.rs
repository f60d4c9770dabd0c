//! Error context.
use vstd::prelude::*;
use crate::record_parsing::RailError;

verus! {

/// Gives an error the line of the input it arose on; a success passes unchanged.
pub fn append_err_context<T>(r: Result<T, RailError>, line: usize) -> (out: Result<T, RailError>)
    ensures
        r is Ok ==> out == r,
        r matches Err(e) ==> (out matches Err(o) && o.kind == e.kind && o.reason == e.reason && o.line == line),
{
    match r {
        Ok(x) => Ok(x),
        Err(e) => Err(RailError { kind: e.kind, line, reason: e.reason }),
    }
}

} // verus!
