use vstd::prelude::*;

verus! {

/// Relies on chrono's `Local::now` and `DateTime::timestamp`: the current
/// time, in whole seconds since the Unix epoch. Nothing is promised of the
/// value.
#[verifier::external_body]
pub(crate) fn now_timestamp() -> (r: i64) {
    chrono::Local::now().timestamp()
}

/// The current time with its seconds dropped: the start of the current
/// minute.
pub fn get_now_even() -> (r: i64)
    ensures
        r % 60 == 0,
{
    let now = now_timestamp();
    let into_minute = now.checked_rem_euclid(60).unwrap();
    if now >= i64::MIN + 60 {
        now - into_minute
    } else {
        // A clock this far before the epoch does not occur; go to the next
        // minute rather than below the smallest timestamp.
        now + (60 - into_minute)
    }
}

} // verus!
