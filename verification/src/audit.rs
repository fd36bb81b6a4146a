//! The audit record: one block of text per anonymized file, naming the
//! original name and time and the new name and time, times rendered in UTC.

use vstd::prelude::*;
use vstd::string::StringExecFns;

verus! {

/// The UTC rendering chrono gives a unix timestamp; a function of the
/// seconds alone.
pub uninterp spec fn utc_display_of(secs: int) -> Seq<char>;

/// The timestamps the record accepts: a range of seconds that chrono's
/// documentation places inside the representable dates.
pub open spec fn displayable_secs(secs: int) -> bool {
    -62135596800 <= secs <= 100000000000
}

/// Relies on chrono's `DateTime::<Utc>::from_timestamp` and the `Debug`
/// rendering of `DateTime<Utc>`: within the documented range the timestamp
/// maps to a date, and the rendering depends on the seconds alone.
#[verifier::external_body]
fn format_utc(secs: i64) -> (r: String)
    requires
        displayable_secs(secs as int),
    ensures
        r@ == utc_display_of(secs as int),
{
    match chrono::DateTime::<chrono::Utc>::from_timestamp(secs, 0) {
        Some(t) => format!("{:?}", t),
        None => String::new(),
    }
}

/// The characters of one audit record.
pub open spec fn audit_chars(
    original_name: Seq<char>,
    original_secs: int,
    new_name: Seq<char>,
    new_secs: int,
) -> Seq<char> {
    "Original file name: "@ + original_name + "\nOriginal file time: "@ + utc_display_of(
        original_secs,
    ) + "\nNew file name: "@ + new_name + "\nNew file time: "@ + utc_display_of(new_secs)
}

/// Builds the audit record for one anonymized file: original name and
/// modification time, new name and modification time, times in UTC.
pub fn audit_record(
    original_name: &str,
    original_secs: i64,
    new_name: &str,
    new_secs: i64,
) -> (r: String)
    requires
        displayable_secs(original_secs as int),
        displayable_secs(new_secs as int),
    ensures
        r@ == audit_chars(original_name@, original_secs as int, new_name@, new_secs as int),
{
    let mut r = String::new();
    r.append("Original file name: ");
    r.append(original_name);
    r.append("\nOriginal file time: ");
    let t0 = format_utc(original_secs);
    r.append(t0.as_str());
    r.append("\nNew file name: ");
    r.append(new_name);
    r.append("\nNew file time: ");
    let t1 = format_utc(new_secs);
    r.append(t1.as_str());
    proof {
        assert(r@ =~= audit_chars(
            original_name@,
            original_secs as int,
            new_name@,
            new_secs as int,
        ));
    }
    r
}

} // verus!
