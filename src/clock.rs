//! The wall clock, read through the `time` crate.
use vstd::prelude::*;
use crate::record::plain_field;

verus! {

/// Relies on `time::now` and `Tm::rfc3339` (time 0.1): the local time now,
/// written as `%Y-%m-%dT%H:%M:%S` followed by `Z` or a `+hh:mm` / `-hh:mm`
/// offset. Those formats print digits and `-T:Z+` only, so the result is
/// never empty and holds no comma and no line break. Which time it shows
/// depends on the moment of the call.
#[verifier::external_body]
pub(crate) fn now_rfc3339() -> (r: String)
    ensures
        r@.len() > 0,
        plain_field(r@),
{
    time::now().rfc3339().to_string()
}

} // verus!
