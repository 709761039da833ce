//! The two calls into the outside world that path resolution needs: the
//! local clock and the home-directory lookup. Everything downstream of
//! them works on the plain values they return.

use vstd::prelude::*;

use chrono::Datelike;

verus! {

/// Today's local date as `(year, month, day)`.
///
/// Relies on `chrono::Local::now` and the `chrono::Datelike` accessors:
/// `month` ranges from 1 to 12 and `day` from 1 to 31, as chrono
/// documents. Nothing more is assumed — the result depends on the clock
/// and the machine's time zone.
#[verifier::external_body]
pub fn today() -> (r: (i32, u32, u32))
    ensures
        1 <= r.1 <= 12,
        1 <= r.2 <= 31,
{
    let now = chrono::Local::now();
    (now.year(), now.month(), now.day())
}

/// The current user's home directory, as raw path bytes.
///
/// Relies on `dirs::home_dir`: `None` when no home directory can be
/// determined. The result depends on the environment, so nothing is
/// assumed about the bytes.
#[verifier::external_body]
pub fn home_dir_bytes() -> (r: Option<Vec<u8>>) {
    dirs::home_dir().map(|p| p.as_os_str().as_encoded_bytes().to_vec())
}

} // verus!
