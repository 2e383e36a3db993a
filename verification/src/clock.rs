//! Seed source: the current Unix time in whole seconds.
//!
//! The clustering core is agnostic to where its seed comes from; this is the
//! conventional source, read once at startup and handed to `Rng::new`.

use vstd::prelude::*;

verus! {

/// Current Unix time in whole seconds, to seed the generator.
///
/// Relies on `std::time::SystemTime::now` and
/// `SystemTime::duration_since(UNIX_EPOCH)`: the elapsed whole seconds since
/// the Unix epoch. Nothing can be promised of the clock's value; should the
/// system clock stand before the epoch, zero is returned.
#[verifier::external_body]
pub fn get_unix_timestamp() -> u64 {
    match std::time::SystemTime::now().duration_since(std::time::UNIX_EPOCH) {
        Ok(since_epoch) => since_epoch.as_secs(),
        Err(_) => 0,
    }
}

} // verus!
