//! Tables of either format.
//!
//! A table that starts with the `BWLDB` magic bytes is of that format, any other
//! is native.
use crate::custom::{
    custom_contents, custom_entries, has_table_magic, header_readable, is_custom,
    is_custom_table_bytes, read_custom_table, table_magic,
};
use crate::custom_lookup::{
    all_looked_up, get_custom_table_entries, get_custom_table_entry, looked_up, lookup_view,
    lookups_view,
};
use crate::custom_scan::{
    custom_ref_plan, for_each_custom_table_entry_bytes, for_each_custom_table_entry_ref_bytes,
    for_each_custom_table_key_bytes, for_each_custom_table_prefix_bytes,
    for_each_custom_table_prefix_key_bytes, for_each_custom_table_prefix_ref_bytes,
};
use crate::error::{with_path, with_table_path, ErrorView, LevelDbError};
use crate::gather::{all_contents, all_optional_contents};
use crate::keys::{has_prefix, KeyMap};
use crate::native_lookup::{
    get_native_table_entries_bytes, get_native_table_entry_bytes, native_lookup, native_lookups,
};
use crate::native_scan::{
    borrowed_blocks, everything, table_plan, whole_blocks, with_prefix, within_prefix,
};
use crate::native_table::{
    for_each_native_table_entry_bytes, for_each_native_table_entry_ref_bytes,
    for_each_native_table_key_bytes, for_each_native_table_prefix_bytes,
    for_each_native_table_prefix_key_bytes, for_each_native_table_prefix_ref_bytes, map_view,
    native_contents, read_native_table,
};
use crate::options::ScanOutcome;
use crate::scan::{
    matching_plan, outcome_view, prefix_plan, scans, EntryVisitor, KeyVisitor, ScanPlan,
};
use bytes::Bytes;
use vstd::prelude::*;

verus! {

// ---------------------------------------------------------------------------
// Scans.

/// What an entry scan shows of a table, and what it counts.
pub open spec fn entry_scan_plan(
    path: Seq<char>,
    bytes: Seq<u8>,
    prefix: Seq<u8>,
    paranoid_checks: bool,
) -> ScanPlan {
    if has_prefix(bytes, table_magic()) {
        prefix_plan(custom_entries(path, bytes, paranoid_checks), prefix)
    } else if prefix.len() == 0 {
        table_plan(path, bytes, paranoid_checks, everything(), whole_blocks())
    } else {
        table_plan(path, bytes, paranoid_checks, within_prefix(prefix), whole_blocks())
    }
}

/// What a key scan shows of a table, and what it counts.
pub open spec fn key_scan_plan(
    path: Seq<char>,
    bytes: Seq<u8>,
    prefix: Seq<u8>,
    paranoid_checks: bool,
) -> ScanPlan {
    if has_prefix(bytes, table_magic()) {
        matching_plan(custom_entries(path, bytes, paranoid_checks), prefix)
    } else if prefix.len() == 0 {
        table_plan(path, bytes, paranoid_checks, everything(), whole_blocks())
    } else {
        table_plan(path, bytes, paranoid_checks, within_prefix(prefix), whole_blocks())
    }
}

/// What an entry scan without copies shows of a table, and what it counts.
pub open spec fn ref_scan_plan(
    path: Seq<char>,
    bytes: Seq<u8>,
    prefix: Seq<u8>,
    paranoid_checks: bool,
) -> ScanPlan {
    if is_custom(bytes) {
        custom_ref_plan(path, bytes, prefix, paranoid_checks)
    } else if prefix.len() == 0 {
        table_plan(path, bytes, paranoid_checks, everything(), borrowed_blocks(bytes))
    } else {
        table_plan(path, bytes, paranoid_checks, with_prefix(prefix), borrowed_blocks(bytes))
    }
}

/// Shows a visitor the entries of a table.
pub fn for_each_table_entry_bytes<V: EntryVisitor>(
    path: &str,
    bytes: &[u8],
    paranoid_checks: bool,
    visitor: &mut V,
) -> (r: Result<ScanOutcome, LevelDbError>)
    requires
        has_prefix(bytes@, table_magic()) ==> header_readable(bytes@),
    ensures
        scans(
            *old(visitor),
            entry_scan_plan(path@, bytes@, Seq::empty(), paranoid_checks),
            *final(visitor),
            outcome_view(r),
        ),
{
    if has_table_magic(bytes) {
        return for_each_custom_table_entry_bytes(path, bytes, paranoid_checks, visitor);
    }
    for_each_native_table_entry_bytes(path, bytes, paranoid_checks, visitor)
}

/// Shows a visitor the keys of a table.
pub fn for_each_table_key_bytes<V: KeyVisitor>(
    path: &str,
    bytes: &[u8],
    paranoid_checks: bool,
    visitor: &mut V,
) -> (r: Result<ScanOutcome, LevelDbError>)
    requires
        has_prefix(bytes@, table_magic()) ==> header_readable(bytes@),
    ensures
        scans(
            *old(visitor),
            key_scan_plan(path@, bytes@, Seq::empty(), paranoid_checks),
            *final(visitor),
            outcome_view(r),
        ),
{
    if has_table_magic(bytes) {
        return for_each_custom_table_key_bytes(path, bytes, paranoid_checks, visitor);
    }
    for_each_native_table_key_bytes(path, bytes, paranoid_checks, visitor)
}

/// Shows a visitor the entries of a table whose keys start with `prefix`.
pub fn for_each_table_prefix_bytes<V: EntryVisitor>(
    path: &str,
    bytes: &[u8],
    prefix: &[u8],
    paranoid_checks: bool,
    visitor: &mut V,
) -> (r: Result<ScanOutcome, LevelDbError>)
    requires
        has_prefix(bytes@, table_magic()) ==> header_readable(bytes@),
    ensures
        scans(
            *old(visitor),
            entry_scan_plan(path@, bytes@, prefix@, paranoid_checks),
            *final(visitor),
            outcome_view(r),
        ),
{
    if has_table_magic(bytes) {
        return for_each_custom_table_prefix_bytes(path, bytes, prefix, paranoid_checks, visitor);
    }
    if prefix.is_empty() {
        return for_each_native_table_entry_bytes(path, bytes, paranoid_checks, visitor);
    }
    for_each_native_table_prefix_bytes(path, bytes, prefix, paranoid_checks, visitor)
}

/// Shows a visitor the keys of a table that start with `prefix`.
pub fn for_each_table_prefix_key_bytes<V: KeyVisitor>(
    path: &str,
    bytes: &[u8],
    prefix: &[u8],
    paranoid_checks: bool,
    visitor: &mut V,
) -> (r: Result<ScanOutcome, LevelDbError>)
    requires
        has_prefix(bytes@, table_magic()) ==> header_readable(bytes@),
    ensures
        scans(
            *old(visitor),
            key_scan_plan(path@, bytes@, prefix@, paranoid_checks),
            *final(visitor),
            outcome_view(r),
        ),
{
    if has_table_magic(bytes) {
        return for_each_custom_table_prefix_key_bytes(path, bytes, prefix, paranoid_checks, visitor);
    }
    if prefix.is_empty() {
        return for_each_native_table_key_bytes(path, bytes, paranoid_checks, visitor);
    }
    for_each_native_table_prefix_key_bytes(path, bytes, prefix, paranoid_checks, visitor)
}

/// Shows a visitor the entries of a table, without copying the values that are
/// not compressed.
pub fn for_each_table_entry_ref_bytes<V: EntryVisitor>(
    path: &str,
    bytes: &[u8],
    paranoid_checks: bool,
    visitor: &mut V,
) -> (r: Result<ScanOutcome, LevelDbError>)
    ensures
        scans(
            *old(visitor),
            ref_scan_plan(path@, bytes@, Seq::empty(), paranoid_checks),
            *final(visitor),
            outcome_view(r),
        ),
{
    if is_custom_table_bytes(bytes) {
        return for_each_custom_table_entry_ref_bytes(path, bytes, paranoid_checks, visitor);
    }
    for_each_native_table_entry_ref_bytes(path, bytes, paranoid_checks, visitor)
}

/// Shows a visitor the entries of a table whose keys start with `prefix`,
/// without copying the values that are not compressed.
pub fn for_each_table_prefix_ref_bytes<V: EntryVisitor>(
    path: &str,
    bytes: &[u8],
    prefix: &[u8],
    paranoid_checks: bool,
    visitor: &mut V,
) -> (r: Result<ScanOutcome, LevelDbError>)
    ensures
        scans(
            *old(visitor),
            ref_scan_plan(path@, bytes@, prefix@, paranoid_checks),
            *final(visitor),
            outcome_view(r),
        ),
{
    if is_custom_table_bytes(bytes) {
        return for_each_custom_table_prefix_ref_bytes(path, bytes, prefix, paranoid_checks, visitor);
    }
    if prefix.is_empty() {
        return for_each_native_table_entry_ref_bytes(path, bytes, paranoid_checks, visitor);
    }
    for_each_native_table_prefix_ref_bytes(path, bytes, prefix, paranoid_checks, visitor)
}

// ---------------------------------------------------------------------------
// Reads. Their errors name the table where they can.

/// A result whose corruption errors name the table.
pub open spec fn naming_table<T>(r: Result<T, ErrorView>, path: Seq<char>) -> Result<
    T,
    ErrorView,
> {
    match r {
        Ok(value) => Ok(value),
        Err(error) => Err(with_path(error, path)),
    }
}

/// The map that a table holds.
pub open spec fn table_contents(path: Seq<char>, bytes: Seq<u8>, paranoid_checks: bool) -> Result<
    Map<Seq<u8>, Seq<u8>>,
    ErrorView,
> {
    if is_custom(bytes) {
        naming_table(custom_contents(path, bytes, paranoid_checks), path)
    } else {
        naming_table(native_contents(path, bytes, paranoid_checks), path)
    }
}

/// What a table holds under a key.
pub open spec fn table_lookup(
    path: Seq<char>,
    bytes: Seq<u8>,
    key: Seq<u8>,
    paranoid_checks: bool,
) -> Result<Option<Seq<u8>>, ErrorView> {
    if has_prefix(bytes, table_magic()) {
        naming_table(looked_up(custom_entries(path, bytes, paranoid_checks), key), path)
    } else {
        naming_table(native_lookup(path, bytes, key, paranoid_checks), path)
    }
}

/// What a table holds under some keys. It is not looked at where there are none.
pub open spec fn table_lookups(
    path: Seq<char>,
    bytes: Seq<u8>,
    keys: Seq<Seq<u8>>,
    paranoid_checks: bool,
) -> Result<Seq<Option<Seq<u8>>>, ErrorView> {
    if keys.len() == 0 {
        Ok(Seq::empty())
    } else if has_prefix(bytes, table_magic()) {
        naming_table(all_looked_up(custom_entries(path, bytes, paranoid_checks), keys), path)
    } else {
        naming_table(native_lookups(path, bytes, keys, paranoid_checks), path)
    }
}

/// Reads a table into a map.
pub fn read_table_bytes(path: &str, bytes: &[u8], paranoid_checks: bool) -> (r: Result<
    KeyMap<Bytes>,
    LevelDbError,
>)
    ensures
        map_view(r) == table_contents(path@, bytes@, paranoid_checks),
        r matches Ok(map) ==> map.wf(),
{
    let result = if is_custom_table_bytes(bytes) {
        read_custom_table(path, bytes, paranoid_checks)
    } else {
        read_native_table(path, bytes, paranoid_checks)
    };
    match result {
        Ok(map) => Ok(map),
        Err(error) => Err(with_table_path(error, path)),
    }
}

/// Looks a key up in a table.
pub fn get_table_entry_bytes(path: &str, bytes: &[u8], key: &[u8], paranoid_checks: bool) -> (r:
    Result<Option<Bytes>, LevelDbError>)
    requires
        has_prefix(bytes@, table_magic()) ==> header_readable(bytes@),
    ensures
        lookup_view(r) == table_lookup(path@, bytes@, key@, paranoid_checks),
{
    let result = if has_table_magic(bytes) {
        get_custom_table_entry(path, bytes, key, paranoid_checks)
    } else {
        get_native_table_entry_bytes(path, bytes, key, paranoid_checks)
    };
    match result {
        Ok(value) => Ok(value),
        Err(error) => Err(with_table_path(error, path)),
    }
}

/// Looks several keys up in a table.
pub fn get_table_entries_bytes(
    path: &str,
    bytes: &[u8],
    keys: &[Bytes],
    paranoid_checks: bool,
) -> (r: Result<Vec<Option<Bytes>>, LevelDbError>)
    requires
        keys@.len() > 0 && has_prefix(bytes@, table_magic()) ==> header_readable(bytes@),
    ensures
        lookups_view(r) == table_lookups(path@, bytes@, all_contents(keys@), paranoid_checks),
{
    if keys.len() == 0 {
        let nothing: Vec<Option<Bytes>> = Vec::new();
        assert(all_optional_contents(nothing@) =~= Seq::<Option<Seq<u8>>>::empty());
        return Ok(nothing);
    }
    let result = if has_table_magic(bytes) {
        get_custom_table_entries(path, bytes, keys, paranoid_checks)
    } else {
        get_native_table_entries_bytes(path, bytes, keys, paranoid_checks)
    };
    match result {
        Ok(values) => Ok(values),
        Err(error) => Err(with_table_path(error, path)),
    }
}

} // verus!
