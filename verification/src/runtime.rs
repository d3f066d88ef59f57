//! The clock, the random source and order identifiers, from outside crates.
use vstd::prelude::*;

use rand::Rng;

verus! {

/// Current time in milliseconds since the Unix epoch.
///
/// Calls `chrono::Utc::now()` and `DateTime::timestamp_millis`. The contract
/// claims only the range that chrono's dates allow after the epoch (years up to
/// about 262 000); the value itself depends on the clock.
#[verifier::external_body]
pub fn now_millis() -> (t: i64)
    ensures
        0 <= t < 9_000_000_000_000_000,
{
    chrono::Utc::now().timestamp_millis()
}

/// A random integer in `[0, n)`.
///
/// Calls `rand::thread_rng().gen_range(0..n)`, which panics on an empty range
/// (hence `n > 0`) and otherwise returns a value inside the range; the value
/// itself depends on chance.
#[verifier::external_body]
pub fn random_below(n: u64) -> (r: u64)
    requires
        n > 0,
    ensures
        r < n,
{
    rand::thread_rng().gen_range(0..n)
}

/// `c` is a lower-case hexadecimal digit.
pub open spec fn is_lower_hex(c: char) -> bool {
    ('0' <= c <= '9') || ('a' <= c <= 'f')
}

/// `s` is the hyphenated lower-case text of a version 4 UUID: 36 characters,
/// hyphens at 8, 13, 18 and 23, hexadecimal digits elsewhere, the version
/// digit `4` at 14 and a variant digit among `8`, `9`, `a`, `b` at 19.
pub open spec fn is_uuid_v4_text(s: Seq<char>) -> bool {
    &&& s.len() == 36
    &&& forall|i: int|
        0 <= i < 36 ==> if i == 8 || i == 13 || i == 18 || i == 23 {
            #[trigger] s[i] == '-'
        } else {
            is_lower_hex(s[i])
        }
    &&& s[14] == '4'
    &&& s[19] == '8' || s[19] == '9' || s[19] == 'a' || s[19] == 'b'
}

/// A fresh random order identifier.
///
/// Calls `uuid::Uuid::new_v4().to_string()`: the hyphenated lower-case form of
/// a random version 4 UUID (the version and variant bits are fixed, the rest
/// are random). Which hexadecimal digits come out depends on chance.
#[verifier::external_body]
pub fn new_order_id() -> (id: String)
    ensures
        is_uuid_v4_text(id@),
{
    uuid::Uuid::new_v4().to_string()
}

} // verus!
