//! Reading a table out of a blueprint definition, which is TOML text read by the `toml`
//! crate.

use vstd::prelude::*;
use crate::text::strictly_sorted;

verus! {

/// What the `toml` crate finds in the TOML document `document` under the keys `first`,
/// `second`, `third`: the reader's error message when the text is not TOML, no table when
/// nothing or something other than a table stands there, and otherwise the table's entries,
/// each key with the text of its value when that value is a string.
pub uninterp spec fn toml_table_at(
    document: Seq<char>,
    first: Seq<char>,
    second: Seq<char>,
    third: Seq<char>,
) -> Result<Option<Seq<(Seq<char>, Option<Seq<char>>)>>, Seq<char>>;

/// The texts of a table's entries.
pub open spec fn entry_views(entries: Seq<(String, Option<String>)>) -> Seq<(Seq<char>, Option<Seq<char>>)> {
    entries.map_values(
        |e: (String, Option<String>)|
            (
                e.0@,
                match e.1 {
                    Some(s) => Some(s@),
                    None => None,
                },
            ),
    )
}

pub open spec fn entry_keys(entries: Seq<(String, Option<String>)>) -> Seq<Seq<char>> {
    entries.map_values(|e: (String, Option<String>)| e.0@)
}

/// Reads `document` with `toml::from_str` into a `toml::Value`, descends through the
/// three keys with `toml::Value::get`, takes the table found there with
/// `toml::Value::as_table`, and lists its entries with `toml::Value::as_str` of each value.
/// Claimed: the result is `toml_table_at` of the arguments, and, since a `toml::map::Map`
/// is a `BTreeMap` unless the `preserve_order` feature is on (it is not here), the keys
/// come out once each in ascending order. A reader error becomes its `Display` text.
#[verifier::external_body]
pub(crate) fn table_at(document: &str, first: &str, second: &str, third: &str) -> (r: Result<
    Option<Vec<(String, Option<String>)>>,
    String,
>)
    ensures
        match toml_table_at(document@, first@, second@, third@) {
            Err(m) => r matches Err(e) && e@ == m,
            Ok(None) => r matches Ok(None),
            Ok(Some(entries)) => r matches Ok(Some(v)) && entry_views(v@) == entries,
        },
        r matches Ok(Some(v)) ==> strictly_sorted(entry_keys(v@)),
{
    let value: toml::Value = toml::from_str(document).map_err(|e: toml::de::Error| e.to_string())?;
    let table = value.get(first).and_then(|v| v.get(second)).and_then(|v| v.get(third));
    Ok(table.and_then(toml::Value::as_table).map(|t| t.iter().map(|(k, v)| (k.clone(), v.as_str().map(str::to_owned))).collect()))
}

} // verus!
