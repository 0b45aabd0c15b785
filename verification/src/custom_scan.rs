//! Scans of `BWLDB` tables.
use crate::blob::{from_vec, BlockValue};
use crate::codec::{decompress_payload, COMPRESSION_NONE};
use crate::custom::{
    counted_entries, custom_entries, get_count, get_entry, header_readable, open_custom_table,
    payload_entries,
};
use crate::error::LevelDbError;
use crate::keys::{has_prefix, starts_with};
use crate::options::{empty_outcome, mark_table_scanned, ScanOutcome};
use crate::scan::{
    lemma_counted_runs, lemma_matching_step, lemma_prefix_step, lemma_scan_ends, lemma_scan_starts,
    lemma_scan_step, lend, matching_plan, open_plan, outcome_view, plan_then, prefix_item,
    prefix_plan, progress_result, runs, scanning, scans, show_entry, show_key, showing,
    EntryVisitor, KeyVisitor, ScanEnd, ScanItem, ScanPlan, ScanProgress, ScanResult, Visitor,
};
use vstd::prelude::*;

verus! {

/// Scans a payload: counts every entry, and shows the visitor those whose keys
/// start with `prefix`. Values are borrowed from a borrowed payload.
pub fn visit_payload_entries<V: EntryVisitor>(
    payload: &BlockValue<'_>,
    prefix: &[u8],
    visitor: &mut V,
) -> (r: Result<ScanOutcome, LevelDbError>)
    ensures
        scans(
            *old(visitor),
            lend(prefix_plan(payload_entries(payload@), prefix@), *payload is Borrowed),
            *final(visitor),
            outcome_view(r),
        ),
{
    let bytes = payload.as_bytes();
    let total: usize = bytes.len();
    let ghost start = *visitor;
    let ghost borrowed = *payload is Borrowed;
    let ghost plan = lend(prefix_plan(payload_entries(payload@), prefix@), borrowed);
    let ghost mut done = open_plan(Seq::empty());
    proof {
        lemma_scan_starts(start, plan, empty_outcome());
    }
    let mut input = bytes;
    let count: u32 = match get_count(&mut input) {
        Ok(count) => count,
        Err(error) => {
            proof {
                lemma_scan_ends(start, plan, empty_outcome(), done, start, empty_outcome(), plan);
            }
            return Err(error);
        },
    };
    let mut outcome = ScanOutcome::empty();
    let mut i: u32 = 0;
    while i < count
        invariant
            i <= count,
            start == *old(visitor),
            bytes@ == payload@,
            total == bytes@.len(),
            borrowed == (*payload is Borrowed),
            plan == lend(prefix_plan(payload_entries(payload@), prefix@), borrowed),
            input@.len() <= total,
            input@ == bytes@.skip(total - input@.len()),
            scanning(
                start,
                plan,
                empty_outcome(),
                done,
                *visitor,
                outcome,
                lend(
                    prefix_plan(counted_entries(input@, (count - i) as nat), prefix@),
                    borrowed,
                ),
            ),
        decreases count - i,
    {
        let ghost before = input@;
        let ghost counted = outcome;
        let ghost mid = *visitor;
        let ghost ahead = lend(
            prefix_plan(counted_entries(input@, (count - i) as nat), prefix@),
            borrowed,
        );
        let (key, value) = match get_entry(&mut input) {
            Ok(entry) => entry,
            Err(error) => {
                proof {
                    lemma_scan_ends(start, plan, empty_outcome(), done, mid, counted, ahead);
                }
                return Err(error);
            },
        };
        let value_len: usize = value.len();
        let value_end: usize = total - input.len();
        let ghost rest = counted_entries(input@, (count - i - 1) as nat);
        let ghost item = ScanItem { borrowed, ..prefix_item((key@, value@), prefix@) };
        proof {
            lemma_prefix_step(key@, value@, rest, prefix@, borrowed);
            assert(input@ =~= bytes@.skip(total - input@.len()));
            assert(value@ =~= bytes@.subrange(value_end - value_len, value_end as int));
        }
        let value_ref = match payload.value_ref(value_end - value_len, value_len) {
            Ok(value_ref) => value_ref,
            Err(error) => {
                assert(false);
                return Err(error);
            },
        };
        let progress = if starts_with(key, prefix) {
            show_entry(key, value_ref, &mut outcome, visitor)
        } else {
            outcome.record(value_len);
            proof {
                lemma_counted_runs(mid, item, counted);
            }
            Ok(ScanProgress::More)
        };
        proof {
            lemma_scan_step(
                start,
                plan,
                empty_outcome(),
                done,
                mid,
                counted,
                open_plan(seq![item]),
                lend(prefix_plan(rest, prefix@), borrowed),
                *visitor,
                progress_result(progress, outcome),
            );
            done = plan_then(done, open_plan(seq![item]));
        }
        match progress {
            Ok(ScanProgress::More) => {},
            Ok(ScanProgress::Done) => return Ok(mark_table_scanned(outcome)),
            Err(error) => return Err(error),
        }
        i = i + 1;
    }
    proof {
        let ahead = lend(prefix_plan(counted_entries(input@, 0), prefix@), borrowed);
        lemma_scan_ends(start, plan, empty_outcome(), done, *visitor, outcome, ahead);
    }
    if !input.is_empty() {
        return Err(LevelDbError::corruption("table contains trailing bytes"));
    }
    Ok(mark_table_scanned(outcome))
}

/// Scans the keys of a payload: counts and shows those that start with
/// `prefix`.
pub fn visit_payload_keys<V: KeyVisitor>(payload: &[u8], prefix: &[u8], visitor: &mut V) -> (r:
    Result<ScanOutcome, LevelDbError>)
    ensures
        scans(
            *old(visitor),
            matching_plan(payload_entries(payload@), prefix@),
            *final(visitor),
            outcome_view(r),
        ),
{
    let ghost start = *visitor;
    let ghost plan = matching_plan(payload_entries(payload@), prefix@);
    let ghost mut done = open_plan(Seq::empty());
    proof {
        lemma_scan_starts(start, plan, empty_outcome());
    }
    let mut input = payload;
    let count: u32 = match get_count(&mut input) {
        Ok(count) => count,
        Err(error) => {
            proof {
                lemma_scan_ends(start, plan, empty_outcome(), done, start, empty_outcome(), plan);
            }
            return Err(error);
        },
    };
    let mut outcome = ScanOutcome::empty();
    let mut i: u32 = 0;
    while i < count
        invariant
            i <= count,
            start == *old(visitor),
            plan == matching_plan(payload_entries(payload@), prefix@),
            scanning(
                start,
                plan,
                empty_outcome(),
                done,
                *visitor,
                outcome,
                matching_plan(counted_entries(input@, (count - i) as nat), prefix@),
            ),
        decreases count - i,
    {
        let ghost counted = outcome;
        let ghost mid = *visitor;
        let ghost ahead = matching_plan(counted_entries(input@, (count - i) as nat), prefix@);
        let (key, value) = match get_entry(&mut input) {
            Ok(entry) => entry,
            Err(error) => {
                proof {
                    lemma_scan_ends(start, plan, empty_outcome(), done, mid, counted, ahead);
                }
                return Err(error);
            },
        };
        let ghost rest = counted_entries(input@, (count - i - 1) as nat);
        proof {
            lemma_matching_step(key@, value@, rest, prefix@);
        }
        if starts_with(key, prefix) {
            let progress = show_key(key, value.len(), &mut outcome, visitor);
            proof {
                lemma_scan_step(
                    start,
                    plan,
                    empty_outcome(),
                    done,
                    mid,
                    counted,
                    showing(key@, value@, false),
                    matching_plan(rest, prefix@),
                    *visitor,
                    progress_result(progress, outcome),
                );
                done = plan_then(done, showing(key@, value@, false));
            }
            match progress {
                Ok(ScanProgress::More) => {},
                Ok(ScanProgress::Done) => return Ok(mark_table_scanned(outcome)),
                Err(error) => return Err(error),
            }
        }
        i = i + 1;
    }
    proof {
        let ahead = matching_plan(counted_entries(input@, 0), prefix@);
        lemma_scan_ends(start, plan, empty_outcome(), done, *visitor, outcome, ahead);
    }
    if !input.is_empty() {
        return Err(LevelDbError::corruption("table contains trailing bytes"));
    }
    Ok(mark_table_scanned(outcome))
}

/// A scan of a table that cannot be opened shows nothing.
proof fn lemma_unreadable_entries<V: Visitor>(visitor: V, plan: ScanPlan, error: LevelDbError)
    requires
        plan.items.len() == 0,
        plan.end == crate::scan::ScanEnd::Failed(error@),
    ensures
        scans(visitor, plan, visitor, Err(error@)),
{
    assert(runs(visitor, plan, empty_outcome(), visitor, ScanResult::Failed(error@)));
}

/// Scans a table: counts every entry and shows it to the visitor, with values
/// that share the decompressed payload.
pub fn for_each_custom_table_entry_bytes<V: EntryVisitor>(
    path: &str,
    bytes: &[u8],
    paranoid_checks: bool,
    visitor: &mut V,
) -> (r: Result<ScanOutcome, LevelDbError>)
    requires
        header_readable(bytes@),
    ensures
        scans(
            *old(visitor),
            prefix_plan(custom_entries(path@, bytes@, paranoid_checks), Seq::empty()),
            *final(visitor),
            outcome_view(r),
        ),
{
    let nothing: Vec<u8> = Vec::new();
    for_each_custom_table_prefix_bytes(path, bytes, nothing.as_slice(), paranoid_checks, visitor)
}

/// Scans a table: counts every entry, and shows the visitor those whose keys
/// start with `prefix`, with values that share the decompressed payload.
pub fn for_each_custom_table_prefix_bytes<V: EntryVisitor>(
    path: &str,
    bytes: &[u8],
    prefix: &[u8],
    paranoid_checks: bool,
    visitor: &mut V,
) -> (r: Result<ScanOutcome, LevelDbError>)
    requires
        header_readable(bytes@),
    ensures
        scans(
            *old(visitor),
            prefix_plan(custom_entries(path@, bytes@, paranoid_checks), prefix@),
            *final(visitor),
            outcome_view(r),
        ),
{
    let ghost plan = prefix_plan(custom_entries(path@, bytes@, paranoid_checks), prefix@);
    let (tag, encoded) = match open_custom_table(path, bytes, paranoid_checks) {
        Ok(opened) => opened,
        Err(error) => {
            proof {
                lemma_unreadable_entries(*visitor, plan, error);
            }
            return Err(error);
        },
    };
    proof {
        assert(lend(plan, false).items =~= plan.items);
    }
    match decompress_payload(tag, encoded) {
        Ok(payload) => visit_payload_entries(
            &BlockValue::Shared(from_vec(payload)),
            prefix,
            visitor,
        ),
        Err(error) => {
            proof {
                lemma_unreadable_entries(*visitor, plan, error);
            }
            Err(error)
        },
    }
}

/// What a scan shows of a table whose values are borrowed where the table is not
/// compressed.
pub open spec fn custom_ref_plan(
    path: Seq<char>,
    bytes: Seq<u8>,
    prefix: Seq<u8>,
    paranoid_checks: bool,
) -> ScanPlan {
    lend(
        prefix_plan(custom_entries(path, bytes, paranoid_checks), prefix),
        bytes[13] == COMPRESSION_NONE,
    )
}

/// Scans a table as [`for_each_custom_table_entry_bytes`] does, with values that
/// are borrowed from an uncompressed table.
pub fn for_each_custom_table_entry_ref_bytes<V: EntryVisitor>(
    path: &str,
    bytes: &[u8],
    paranoid_checks: bool,
    visitor: &mut V,
) -> (r: Result<ScanOutcome, LevelDbError>)
    requires
        header_readable(bytes@),
    ensures
        scans(
            *old(visitor),
            custom_ref_plan(path@, bytes@, Seq::empty(), paranoid_checks),
            *final(visitor),
            outcome_view(r),
        ),
{
    let nothing: Vec<u8> = Vec::new();
    for_each_custom_table_prefix_ref_bytes(path, bytes, nothing.as_slice(), paranoid_checks, visitor)
}

/// Scans a table as [`for_each_custom_table_prefix_bytes`] does, with values
/// that are borrowed from an uncompressed table.
pub fn for_each_custom_table_prefix_ref_bytes<V: EntryVisitor>(
    path: &str,
    bytes: &[u8],
    prefix: &[u8],
    paranoid_checks: bool,
    visitor: &mut V,
) -> (r: Result<ScanOutcome, LevelDbError>)
    requires
        header_readable(bytes@),
    ensures
        scans(
            *old(visitor),
            custom_ref_plan(path@, bytes@, prefix@, paranoid_checks),
            *final(visitor),
            outcome_view(r),
        ),
{
    let ghost plan = custom_ref_plan(path@, bytes@, prefix@, paranoid_checks);
    let (tag, encoded) = match open_custom_table(path, bytes, paranoid_checks) {
        Ok(opened) => opened,
        Err(error) => {
            proof {
                lemma_unreadable_entries(*visitor, plan, error);
            }
            return Err(error);
        },
    };
    if tag == COMPRESSION_NONE {
        return visit_payload_entries(&BlockValue::Borrowed(encoded), prefix, visitor);
    }
    match decompress_payload(tag, encoded) {
        Ok(payload) => visit_payload_entries(
            &BlockValue::Shared(from_vec(payload)),
            prefix,
            visitor,
        ),
        Err(error) => {
            proof {
                lemma_unreadable_entries(*visitor, plan, error);
            }
            Err(error)
        },
    }
}

/// Scans the keys of a table: counts and shows every key.
pub fn for_each_custom_table_key_bytes<V: KeyVisitor>(
    path: &str,
    bytes: &[u8],
    paranoid_checks: bool,
    visitor: &mut V,
) -> (r: Result<ScanOutcome, LevelDbError>)
    requires
        header_readable(bytes@),
    ensures
        scans(
            *old(visitor),
            matching_plan(custom_entries(path@, bytes@, paranoid_checks), Seq::empty()),
            *final(visitor),
            outcome_view(r),
        ),
{
    let nothing: Vec<u8> = Vec::new();
    for_each_custom_table_prefix_key_bytes(
        path,
        bytes,
        nothing.as_slice(),
        paranoid_checks,
        visitor,
    )
}

/// Scans the keys of a table: counts and shows those that start with `prefix`.
pub fn for_each_custom_table_prefix_key_bytes<V: KeyVisitor>(
    path: &str,
    bytes: &[u8],
    prefix: &[u8],
    paranoid_checks: bool,
    visitor: &mut V,
) -> (r: Result<ScanOutcome, LevelDbError>)
    requires
        header_readable(bytes@),
    ensures
        scans(
            *old(visitor),
            matching_plan(custom_entries(path@, bytes@, paranoid_checks), prefix@),
            *final(visitor),
            outcome_view(r),
        ),
{
    let ghost plan = matching_plan(custom_entries(path@, bytes@, paranoid_checks), prefix@);
    let (tag, encoded) = match open_custom_table(path, bytes, paranoid_checks) {
        Ok(opened) => opened,
        Err(error) => {
            proof {
                lemma_unreadable_entries(*visitor, plan, error);
            }
            return Err(error);
        },
    };
    match decompress_payload(tag, encoded) {
        Ok(payload) => visit_payload_keys(payload.as_slice(), prefix, visitor),
        Err(error) => {
            proof {
                lemma_unreadable_entries(*visitor, plan, error);
            }
            Err(error)
        },
    }
}

/// A scan without copies shows what a scan of the list shows, and borrows its
/// values exactly where the tag of the table is 0.
pub proof fn ref_scans_borrow_uncompressed_payloads(
    path: Seq<char>,
    bytes: Seq<u8>,
    prefix: Seq<u8>,
    paranoid_checks: bool,
    i: int,
)
    ensures
        ({
            let list = custom_entries(path, bytes, paranoid_checks);
            let plan = custom_ref_plan(path, bytes, prefix, paranoid_checks);
            &&& plan.items.len() == list.entries.len()
            &&& 0 <= i < list.entries.len() ==> {
                &&& plan.items[i].key == list.entries[i].0
                &&& plan.items[i].value == list.entries[i].1
                &&& plan.items[i].shown == has_prefix(list.entries[i].0, prefix)
                &&& plan.items[i].borrowed == (bytes[13] == 0)
            }
            &&& list.error matches Some(error) ==> plan.end == ScanEnd::Failed(error)
            &&& list.error is None ==> plan.end is Done
        }),
{
}

} // verus!
