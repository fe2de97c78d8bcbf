//! Building the table that every frame shows: one row per stored
//! entry, carrying the name, the offset, and the entry's current
//! clock derived from the offset. The widgets that draw the rows
//! live outside the library; only the row contents are computed
//! here.

use vstd::prelude::*;

use std::fmt::Write;

use crate::strutil::{i64_to_string, int_string};

verus! {

/// The text chrono renders for a UTC timestamp under a format
/// string.
pub uninterp spec fn time_string_of(secs: int, fmt: Seq<char>) -> Seq<char>;

/// Relies on chrono's `DateTime::from_timestamp` and
/// `NaiveDateTime::format`: rendering a timestamp under a format
/// string depends on the timestamp and the format alone; `None` when
/// the timestamp is outside chrono's range or the format string is
/// invalid.
#[verifier::external_body]
fn format_utc_timestamp(secs: i64, fmt: &str) -> (r: Option<String>)
    ensures
        r is Some ==> (r->0)@ == time_string_of(secs as int, fmt@),
{
    let dt = chrono::DateTime::<chrono::Utc>::from_timestamp(secs, 0)?;
    let mut out = String::new();
    match write!(&mut out, "{}", dt.naive_utc().format(fmt)) {
        Ok(()) => Some(out),
        Err(_) => None,
    }
}

/// The timestamp whose rendering row `j` shows: the current time
/// displaced by the entry's offset in hours.
pub open spec fn entry_timestamp(now_secs: int, offset: int) -> int {
    now_secs + offset * 3600
}

/// One row per entry: the name, the offset in decimal, and the
/// entry's current clock — rendered by chrono where the displaced
/// timestamp is representable and the format string is sound, a
/// dash otherwise.
pub fn build_rows(snapshot: &Vec<(String, i64)>, now_secs: i64, time_format: &str) -> (r: Vec<
    Vec<String>,
>)
    ensures
        r@.len() == snapshot@.len(),
        forall|j: int| 0 <= j < r@.len() ==> (#[trigger] r@[j])@.len() == 3,
        forall|j: int| 0 <= j < r@.len() ==> (#[trigger] r@[j]@[0])@ == snapshot@[j].0@,
        forall|j: int|
            0 <= j < r@.len() ==> (#[trigger] r@[j]@[1])@ == int_string(snapshot@[j].1 as int),
        forall|j: int|
            0 <= j < r@.len() ==> (#[trigger] r@[j]@[2])@ == time_string_of(
                entry_timestamp(now_secs as int, snapshot@[j].1 as int),
                time_format@,
            ) || (r@[j]@[2])@ == "-"@,
{
    let n = snapshot.len();
    let mut rows: Vec<Vec<String>> = Vec::new();
    let mut j: usize = 0;
    while j < n
        invariant
            n == snapshot@.len(),
            0 <= j <= n,
            rows@.len() == j,
            forall|q: int| 0 <= q < j ==> (#[trigger] rows@[q])@.len() == 3,
            forall|q: int| 0 <= q < j ==> (#[trigger] rows@[q]@[0])@ == snapshot@[q].0@,
            forall|q: int|
                0 <= q < j ==> (#[trigger] rows@[q]@[1])@ == int_string(snapshot@[q].1 as int),
            forall|q: int|
                0 <= q < j ==> (#[trigger] rows@[q]@[2])@ == time_string_of(
                    entry_timestamp(now_secs as int, snapshot@[q].1 as int),
                    time_format@,
                ) || (rows@[q]@[2])@ == "-"@,
        decreases n - j,
    {
        let name = snapshot[j].0.clone();
        let offset = snapshot[j].1;
        let offset_text = i64_to_string(offset);
        let target_wide: i128 = now_secs as i128 + (offset as i128) * 3600;
        let time_text: String;
        if i64::MIN as i128 <= target_wide && target_wide <= i64::MAX as i128 {
            let target = target_wide as i64;
            proof {
                assert(target as int == entry_timestamp(now_secs as int, offset as int));
            }
            match format_utc_timestamp(target, time_format) {
                Some(t) => {
                    time_text = t;
                },
                None => {
                    time_text = "-".to_owned();
                },
            }
        } else {
            time_text = "-".to_owned();
        }
        let mut row: Vec<String> = Vec::new();
        row.push(name);
        row.push(offset_text);
        row.push(time_text);
        rows.push(row);
        j += 1;
    }
    rows
}

/// The table's column titles.
pub fn table_headers() -> (r: Vec<String>)
    ensures
        r@.len() == 3,
        r@[0]@ == "User"@,
        r@[1]@ == "Offset"@,
        r@[2]@ == "Time"@,
{
    let mut headers: Vec<String> = Vec::new();
    headers.push("User".to_owned());
    headers.push("Offset".to_owned());
    headers.push("Time".to_owned());
    headers
}

} // verus!
