//! The system clock.

use vstd::prelude::*;

verus! {

/// `SystemTime::now().duration_since(UNIX_EPOCH)`, as whole seconds and the
/// nanoseconds past them; `None` when the clock reads before the epoch. The
/// time itself is not stated (it is the machine's clock); the nanosecond part
/// is below one billion, as `Duration::subsec_nanos` documents.
#[verifier::external_body]
pub(crate) fn unix_time() -> (r: Option<(u64, u32)>)
    ensures
        r matches Some(t) ==> t.1 < 1_000_000_000,
{
    match std::time::SystemTime::now().duration_since(std::time::UNIX_EPOCH) {
        Ok(d) => Some((d.as_secs(), d.subsec_nanos())),
        Err(_) => None,
    }
}

} // verus!
