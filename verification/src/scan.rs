//! Visitors, and what a scan shows them.
//!
//! A scan is described by its plan: the entries that it counts, in order,
//! whether it shows each of them to the visitor, and how it ends once they are
//! used up. What a visitor answers decides how much of the plan is carried out.
use crate::blob::ValueRef;
use crate::error::{ErrorView, LevelDbError};
use crate::keys::{has_prefix, Entry};
use crate::options::{empty_outcome, halted, recorded, scanned, ScanOutcome, VisitorControl};
use vstd::prelude::*;

verus! {

/// The mathematical value of a visitor's answer.
pub type Answer = Result<VisitorControl, ErrorView>;

/// The mathematical value of a visitor's answer.
pub open spec fn answer_view(r: Result<VisitorControl, LevelDbError>) -> Answer {
    match r {
        Ok(control) => Ok(control),
        Err(error) => Err(error@),
    }
}

/// What may happen when a visitor is shown an entry.
pub trait Visitor: Sized {
    /// Whether being shown `key` and `value`, which may be borrowed from the
    /// table, may turn `before` into `after` and be answered by `answer`. Of a
    /// visitor that does not say, anything may happen.
    open spec fn visits(
        before: Self,
        key: Seq<u8>,
        value: Seq<u8>,
        borrowed: bool,
        after: Self,
        answer: Answer,
    ) -> bool {
        true
    }
}

/// A visitor of entries.
pub trait EntryVisitor: Visitor {
    /// Shows the visitor an entry.
    fn visit(&mut self, key: &[u8], value: ValueRef<'_>) -> (r: Result<
        VisitorControl,
        LevelDbError,
    >)
        ensures
            Self::visits(
                *old(self),
                key@,
                value@,
                value is Borrowed,
                *final(self),
                answer_view(r),
            ),
    ;
}

/// A visitor of keys; what it does cannot depend on values.
pub trait KeyVisitor: Visitor {
    /// Shows the visitor a key.
    fn visit_key(&mut self, key: &[u8]) -> (r: Result<VisitorControl, LevelDbError>)
        ensures
            forall|value: Seq<u8>, borrowed: bool| #[trigger]
                Self::visits(*old(self), key@, value, borrowed, *final(self), answer_view(r)),
    ;
}

/// An entry that a scan counts, whether the visitor is shown it, and whether
/// the value is then borrowed from the table.
#[verifier::ext_equal]
pub struct ScanItem {
    pub key: Seq<u8>,
    pub value: Seq<u8>,
    pub shown: bool,
    pub borrowed: bool,
}

/// How a scan ends once its entries are used up.
#[verifier::ext_equal]
pub enum ScanEnd {
    /// There is more to scan elsewhere.
    More,
    /// There is nothing more to scan.
    Done,
    /// What comes next cannot be read.
    Failed(ErrorView),
}

/// The entries that a scan counts, and how it ends once they are used up.
#[verifier::ext_equal]
pub struct ScanPlan {
    pub items: Seq<ScanItem>,
    pub end: ScanEnd,
}

/// What became of a scan.
#[verifier::ext_equal]
pub enum ScanResult {
    /// The entries were used up, and there is more to scan elsewhere.
    More(ScanOutcome),
    /// The scan is over.
    Done(ScanOutcome),
    /// The scan failed, or the visitor did.
    Failed(ErrorView),
}

/// A plan that fails at once.
pub open spec fn failed_plan(error: ErrorView) -> ScanPlan {
    ScanPlan { items: Seq::empty(), end: ScanEnd::Failed(error) }
}

/// A plan with nothing in it.
pub open spec fn done_plan() -> ScanPlan {
    ScanPlan { items: Seq::empty(), end: ScanEnd::Done }
}

/// A plan of which there is more elsewhere.
pub open spec fn open_plan(items: Seq<ScanItem>) -> ScanPlan {
    ScanPlan { items, end: ScanEnd::More }
}

/// `first`, and then `second` where `first` leaves more to scan.
pub open spec fn plan_then(first: ScanPlan, second: ScanPlan) -> ScanPlan {
    if first.end is More {
        ScanPlan { items: first.items + second.items, end: second.end }
    } else {
        first
    }
}

/// Items whose values are borrowed from the table, or are not.
pub open spec fn lent_items(items: Seq<ScanItem>, borrowed: bool) -> Seq<ScanItem> {
    Seq::new(items.len(), |i: int| ScanItem { borrowed, ..items[i] })
}

/// A plan that shows values which are borrowed from the table, or are not.
pub open spec fn lend(plan: ScanPlan, borrowed: bool) -> ScanPlan {
    ScanPlan { items: lent_items(plan.items, borrowed), end: plan.end }
}

/// Lending two plans in turn.
pub proof fn lemma_lend_then(first: ScanPlan, second: ScanPlan, borrowed: bool)
    ensures
        lend(plan_then(first, second), borrowed) == plan_then(
            lend(first, borrowed),
            lend(second, borrowed),
        ),
{
    assert(lend(plan_then(first, second), borrowed).items =~= plan_then(
        lend(first, borrowed),
        lend(second, borrowed),
    ).items);
}

/// What becomes of a scan whose entries are used up.
pub open spec fn end_result(end: ScanEnd, outcome: ScanOutcome) -> ScanResult {
    match end {
        ScanEnd::More => ScanResult::More(outcome),
        ScanEnd::Done => ScanResult::Done(outcome),
        ScanEnd::Failed(error) => ScanResult::Failed(error),
    }
}

/// Whether carrying out `plan` from `outcome` on may turn the visitor `before`
/// into `after` with the result `result`. Each entry is counted before the
/// visitor is shown it. A visitor that stops, or fails, ends the scan there.
pub open spec fn runs<V: Visitor>(
    before: V,
    plan: ScanPlan,
    outcome: ScanOutcome,
    after: V,
    result: ScanResult,
) -> bool
    decreases plan.items.len(),
{
    if plan.items.len() == 0 {
        after == before && result == end_result(plan.end, outcome)
    } else {
        let item = plan.items[0];
        let rest = ScanPlan { items: plan.items.skip(1), end: plan.end };
        let counted = recorded(outcome, item.value.len());
        if item.shown {
            exists|mid: V, answer: Answer| #[trigger]
                V::visits(before, item.key, item.value, item.borrowed, mid, answer)
                    && match answer {
                    Err(error) => after == mid && result == ScanResult::Failed(error),
                    Ok(VisitorControl::Stop) => after == mid && result == ScanResult::Done(
                        halted(counted),
                    ),
                    Ok(VisitorControl::Continue) => runs(mid, rest, counted, after, result),
                }
        } else {
            runs(before, rest, counted, after, result)
        }
    }
}

/// The mathematical value of what a scan returns.
pub open spec fn outcome_view(r: Result<ScanOutcome, LevelDbError>) -> Result<
    ScanOutcome,
    ErrorView,
> {
    match r {
        Ok(outcome) => Ok(outcome),
        Err(error) => Err(error@),
    }
}

/// What the scan of a table returns, from what became of it.
pub open spec fn table_result(result: ScanResult) -> Result<ScanOutcome, ErrorView> {
    match result {
        ScanResult::More(outcome) => Ok(scanned(outcome)),
        ScanResult::Done(outcome) => Ok(scanned(outcome)),
        ScanResult::Failed(error) => Err(error),
    }
}

/// Whether scanning a table by `plan` may turn the visitor `before` into
/// `after` and return `r`.
pub open spec fn scans<V: Visitor>(
    before: V,
    plan: ScanPlan,
    after: V,
    r: Result<ScanOutcome, ErrorView>,
) -> bool {
    exists|result: ScanResult| #[trigger]
        runs(before, plan, empty_outcome(), after, result) && r == table_result(result)
}

/// Carrying out one plan and then another carries out both in turn.
pub proof fn lemma_runs_then<V: Visitor>(
    before: V,
    first: ScanPlan,
    outcome: ScanOutcome,
    mid: V,
    halfway: ScanOutcome,
    second: ScanPlan,
    after: V,
    result: ScanResult,
)
    requires
        first.end is More,
        runs(before, first, outcome, mid, ScanResult::More(halfway)),
        runs(mid, second, halfway, after, result),
    ensures
        runs(before, plan_then(first, second), outcome, after, result),
    decreases first.items.len(),
{
    let whole = plan_then(first, second);
    if first.items.len() == 0 {
        assert(whole.items =~= second.items);
    } else {
        let item = first.items[0];
        let rest = ScanPlan { items: first.items.skip(1), end: first.end };
        let counted = recorded(outcome, item.value.len());
        assert(whole.items[0] == item);
        assert(whole.items.skip(1) =~= plan_then(rest, second).items);
        if item.shown {
            let (next, answer) = choose|next: V, answer: Answer| #[trigger]
                V::visits(before, item.key, item.value, item.borrowed, next, answer)
                    && match answer {
                    Err(error) => mid == next && ScanResult::More(halfway) == ScanResult::Failed(
                        error,
                    ),
                    Ok(VisitorControl::Stop) => mid == next && ScanResult::More(halfway)
                        == ScanResult::Done(halted(counted)),
                    Ok(VisitorControl::Continue) => runs(
                        next,
                        rest,
                        counted,
                        mid,
                        ScanResult::More(halfway),
                    ),
                };
            lemma_runs_then(next, rest, counted, mid, halfway, second, after, result);
        } else {
            lemma_runs_then(before, rest, counted, mid, halfway, second, after, result);
        }
    }
}

/// A scan that is over does not get to what would come next.
pub proof fn lemma_runs_over<V: Visitor>(
    before: V,
    first: ScanPlan,
    outcome: ScanOutcome,
    after: V,
    result: ScanResult,
    second: ScanPlan,
)
    requires
        runs(before, first, outcome, after, result),
        !(result is More),
    ensures
        runs(before, plan_then(first, second), outcome, after, result),
    decreases first.items.len(),
{
    let whole = plan_then(first, second);
    if first.end is More && first.items.len() > 0 {
        let item = first.items[0];
        let rest = ScanPlan { items: first.items.skip(1), end: first.end };
        let counted = recorded(outcome, item.value.len());
        assert(whole.items[0] == item);
        assert(whole.items.skip(1) =~= plan_then(rest, second).items);
        if item.shown {
            let (next, answer) = choose|next: V, answer: Answer| #[trigger]
                V::visits(before, item.key, item.value, item.borrowed, next, answer)
                    && match answer {
                    Err(error) => after == next && result == ScanResult::Failed(error),
                    Ok(VisitorControl::Stop) => after == next && result == ScanResult::Done(
                        halted(counted),
                    ),
                    Ok(VisitorControl::Continue) => runs(next, rest, counted, after, result),
                };
            if answer == Ok::<VisitorControl, ErrorView>(VisitorControl::Continue) {
                lemma_runs_over(next, rest, counted, after, result, second);
            }
        } else {
            lemma_runs_over(before, rest, counted, after, result, second);
        }
    }
}

/// What becomes of a scan after an answer to its last entry.
pub open spec fn answer_result(answer: Answer, counted: ScanOutcome) -> ScanResult {
    match answer {
        Err(error) => ScanResult::Failed(error),
        Ok(VisitorControl::Stop) => ScanResult::Done(halted(counted)),
        Ok(VisitorControl::Continue) => ScanResult::More(counted),
    }
}

/// A plan that leaves more to scan is open.
pub proof fn lemma_more_is_open<V: Visitor>(
    before: V,
    plan: ScanPlan,
    outcome: ScanOutcome,
    after: V,
    halfway: ScanOutcome,
)
    requires
        runs(before, plan, outcome, after, ScanResult::More(halfway)),
    ensures
        plan.end is More,
    decreases plan.items.len(),
{
    if plan.items.len() > 0 {
        let item = plan.items[0];
        let rest = ScanPlan { items: plan.items.skip(1), end: plan.end };
        let counted = recorded(outcome, item.value.len());
        if item.shown {
            let (next, answer) = choose|next: V, answer: Answer| #[trigger]
                V::visits(before, item.key, item.value, item.borrowed, next, answer)
                    && match answer {
                    Err(error) => after == next && ScanResult::More(halfway) == ScanResult::Failed(
                        error,
                    ),
                    Ok(VisitorControl::Stop) => after == next && ScanResult::More(
                        halfway,
                    ) == ScanResult::Done(halted(counted)),
                    Ok(VisitorControl::Continue) => runs(
                        next,
                        rest,
                        counted,
                        after,
                        ScanResult::More(halfway),
                    ),
                };
            lemma_more_is_open(next, rest, counted, after, halfway);
        } else {
            lemma_more_is_open(before, rest, counted, after, halfway);
        }
    }
}

/// Whether a scan of `plan` has carried out `done` and has `rest` ahead of it.
pub open spec fn scanning<V: Visitor>(
    before: V,
    plan: ScanPlan,
    outcome: ScanOutcome,
    done: ScanPlan,
    mid: V,
    counted: ScanOutcome,
    rest: ScanPlan,
) -> bool {
    &&& done.end is More
    &&& runs(before, done, outcome, mid, ScanResult::More(counted))
    &&& plan == plan_then(done, rest)
}

/// A scan starts with everything ahead of it.
pub proof fn lemma_scan_starts<V: Visitor>(before: V, plan: ScanPlan, outcome: ScanOutcome)
    ensures
        scanning(before, plan, outcome, open_plan(Seq::empty()), before, outcome, plan),
{
    let done = open_plan(Seq::empty());
    assert(plan_then(done, plan).items =~= plan.items);
    assert(runs(before, done, outcome, before, ScanResult::More(outcome)));
}

/// A scan with nothing but its end ahead of it ends there.
pub proof fn lemma_scan_ends<V: Visitor>(
    before: V,
    plan: ScanPlan,
    outcome: ScanOutcome,
    done: ScanPlan,
    mid: V,
    counted: ScanOutcome,
    rest: ScanPlan,
)
    requires
        scanning(before, plan, outcome, done, mid, counted, rest),
        rest.items.len() == 0,
    ensures
        runs(before, plan, outcome, mid, end_result(rest.end, counted)),
{
    let result = end_result(rest.end, counted);
    assert(runs(mid, rest, counted, mid, result));
    lemma_runs_then(before, done, outcome, mid, counted, rest, mid, result);
}

/// Carrying out the first part of what is ahead is a step of the whole scan.
pub proof fn lemma_scan_step<V: Visitor>(
    before: V,
    plan: ScanPlan,
    outcome: ScanOutcome,
    done: ScanPlan,
    mid: V,
    counted: ScanOutcome,
    next: ScanPlan,
    later: ScanPlan,
    after: V,
    result: ScanResult,
)
    requires
        scanning(before, plan, outcome, done, mid, counted, plan_then(next, later)),
        runs(mid, next, counted, after, result),
    ensures
        match result {
            ScanResult::More(now) => scanning(
                before,
                plan,
                outcome,
                plan_then(done, next),
                after,
                now,
                later,
            ),
            _ => runs(before, plan, outcome, after, result),
        },
{
    lemma_runs_then(before, done, outcome, mid, counted, next, after, result);
    if next.end is More {
        assert((done.items + next.items) + later.items =~= done.items + (next.items
            + later.items));
    }
    match result {
        ScanResult::More(now) => {
            lemma_more_is_open(mid, next, counted, after, now);
        },
        _ => {
            lemma_runs_over(
                before,
                plan_then(done, next),
                outcome,
                after,
                result,
                later,
            );
        },
    }
}

/// Showing one entry carries out a plan of that entry alone.
pub proof fn lemma_shown_runs<V: Visitor>(
    before: V,
    item: ScanItem,
    outcome: ScanOutcome,
    after: V,
    answer: Answer,
)
    requires
        item.shown,
        V::visits(before, item.key, item.value, item.borrowed, after, answer),
    ensures
        runs(
            before,
            open_plan(seq![item]),
            outcome,
            after,
            answer_result(answer, recorded(outcome, item.value.len())),
        ),
{
    let one = open_plan(seq![item]);
    let counted = recorded(outcome, item.value.len());
    let rest = ScanPlan { items: one.items.skip(1), end: one.end };
    assert(one.items[0] == item);
    assert(rest.items.len() == 0);
    assert(runs(after, rest, counted, after, ScanResult::More(counted)));
}

/// Counting one entry, without showing it, carries out a plan of that entry
/// alone.
pub proof fn lemma_counted_runs<V: Visitor>(visitor: V, item: ScanItem, outcome: ScanOutcome)
    requires
        !item.shown,
    ensures
        runs(
            visitor,
            open_plan(seq![item]),
            outcome,
            visitor,
            ScanResult::More(recorded(outcome, item.value.len())),
        ),
{
    let one = open_plan(seq![item]);
    let counted = recorded(outcome, item.value.len());
    let rest = ScanPlan { items: one.items.skip(1), end: one.end };
    assert(one.items[0] == item);
    assert(rest.items.len() == 0);
    assert(runs(visitor, rest, counted, visitor, ScanResult::More(counted)));
}

/// How far a scan got.
#[derive(Debug, Clone, Copy, PartialEq, Eq, Structural)]
pub enum ScanProgress {
    /// There is more to scan.
    More,
    /// The scan is over.
    Done,
}

/// What became of a part of a scan, from what it returned and the outcome that
/// it left.
pub open spec fn progress_result(
    r: Result<ScanProgress, LevelDbError>,
    outcome: ScanOutcome,
) -> ScanResult {
    match r {
        Ok(ScanProgress::More) => ScanResult::More(outcome),
        Ok(ScanProgress::Done) => ScanResult::Done(outcome),
        Err(error) => ScanResult::Failed(error@),
    }
}

/// The plan that shows one entry and leaves more to scan.
pub open spec fn showing(key: Seq<u8>, value: Seq<u8>, borrowed: bool) -> ScanPlan {
    open_plan(seq![ScanItem { key, value, shown: true, borrowed }])
}

/// What becomes of a scan after the visitor's answer to an entry.
fn settle(answer: Result<VisitorControl, LevelDbError>, outcome: &mut ScanOutcome) -> (r: Result<
    ScanProgress,
    LevelDbError,
>)
    ensures
        progress_result(r, *final(outcome)) == answer_result(answer_view(answer), *old(outcome)),
{
    match answer {
        Ok(VisitorControl::Continue) => Ok(ScanProgress::More),
        Ok(VisitorControl::Stop) => {
            outcome.stopped = true;
            Ok(ScanProgress::Done)
        },
        Err(error) => Err(error),
    }
}

/// Counts an entry and shows it to a visitor.
pub(crate) fn show_entry<V: EntryVisitor>(
    key: &[u8],
    value: ValueRef<'_>,
    outcome: &mut ScanOutcome,
    visitor: &mut V,
) -> (r: Result<ScanProgress, LevelDbError>)
    ensures
        runs(
            *old(visitor),
            showing(key@, value@, value is Borrowed),
            *old(outcome),
            *final(visitor),
            progress_result(r, *final(outcome)),
        ),
{
    let ghost item = ScanItem {
        key: key@,
        value: value@,
        shown: true,
        borrowed: value is Borrowed,
    };
    let ghost before = *visitor;
    let ghost counted = *outcome;
    outcome.record(value.len());
    let answer = visitor.visit(key, value);
    proof {
        lemma_shown_runs(before, item, counted, *visitor, answer_view(answer));
    }
    settle(answer, outcome)
}

/// Counts an entry whose value has `value_len` bytes, and shows its key to a
/// visitor.
pub(crate) fn show_key<V: KeyVisitor>(
    key: &[u8],
    value_len: usize,
    outcome: &mut ScanOutcome,
    visitor: &mut V,
) -> (r: Result<ScanProgress, LevelDbError>)
    ensures
        forall|value: Seq<u8>, borrowed: bool|
            #![trigger showing(key@, value, borrowed)]
            value.len() == value_len ==> runs(
                *old(visitor),
                showing(key@, value, borrowed),
                *old(outcome),
                *final(visitor),
                progress_result(r, *final(outcome)),
            ),
{
    let ghost before = *visitor;
    let ghost counted = *outcome;
    outcome.record(value_len);
    let answer = visitor.visit_key(key);
    proof {
        assert forall|value: Seq<u8>, borrowed: bool|
            #![trigger showing(key@, value, borrowed)]
            value.len() == value_len implies runs(
            before,
            showing(key@, value, borrowed),
            counted,
            *visitor,
            answer_result(answer_view(answer), recorded(counted, value_len as nat)),
        ) by {
            let item = ScanItem { key: key@, value, shown: true, borrowed };
            assert(V::visits(before, key@, value, borrowed, *visitor, answer_view(answer)));
            lemma_shown_runs(before, item, counted, *visitor, answer_view(answer));
        }
    }
    settle(answer, outcome)
}

/// Whether a visitor never fails.
pub open spec fn never_fails<V: Visitor>() -> bool {
    forall|
        before: V,
        key: Seq<u8>,
        value: Seq<u8>,
        borrowed: bool,
        after: V,
        answer: Answer,
    | #[trigger]
        V::visits(before, key, value, borrowed, after, answer) ==> answer is Ok
}

/// A scan of what can be read, by a visitor that never fails, does not fail: a
/// visitor that ends it early is reported in the outcome.
pub proof fn early_stop_is_no_error<V: Visitor>(
    before: V,
    plan: ScanPlan,
    outcome: ScanOutcome,
    after: V,
    result: ScanResult,
)
    requires
        runs(before, plan, outcome, after, result),
        never_fails::<V>(),
        !(plan.end is Failed),
        !outcome.stopped,
    ensures
        match result {
            ScanResult::More(outcome) => plan.end is More && !outcome.stopped,
            ScanResult::Done(outcome) => plan.end is Done || outcome.stopped,
            ScanResult::Failed(_) => false,
        },
    decreases plan.items.len(),
{
    if plan.items.len() > 0 {
        let item = plan.items[0];
        let rest = ScanPlan { items: plan.items.skip(1), end: plan.end };
        let counted = recorded(outcome, item.value.len());
        if item.shown {
            let (next, answer) = choose|next: V, answer: Answer| #[trigger]
                V::visits(before, item.key, item.value, item.borrowed, next, answer)
                    && match answer {
                    Err(error) => after == next && result == ScanResult::Failed(error),
                    Ok(VisitorControl::Stop) => after == next && result == ScanResult::Done(
                        halted(counted),
                    ),
                    Ok(VisitorControl::Continue) => runs(next, rest, counted, after, result),
                };
            if answer == Ok::<VisitorControl, ErrorView>(VisitorControl::Continue) {
                early_stop_is_no_error(next, rest, counted, after, result);
            }
        } else {
            early_stop_is_no_error(before, rest, counted, after, result);
        }
    }
}

/// Whether a visitor does not care whether a value is borrowed.
pub open spec fn ignores_borrowing<V: Visitor>() -> bool {
    forall|
        before: V,
        key: Seq<u8>,
        value: Seq<u8>,
        one: bool,
        other: bool,
        after: V,
        answer: Answer,
    |
        #![trigger
            V::visits(before, key, value, one, after, answer),
            V::visits(before, key, value, other, after, answer)
        ]
        V::visits(before, key, value, one, after, answer) ==> V::visits(
            before,
            key,
            value,
            other,
            after,
            answer,
        )
}

/// A visitor that does not care whether values are borrowed may do the same with
/// a plan that lends them and with one that does not.
pub proof fn borrowing_is_seen_by_those_who_look<V: Visitor>(
    before: V,
    plan: ScanPlan,
    outcome: ScanOutcome,
    after: V,
    result: ScanResult,
    borrowed: bool,
)
    requires
        ignores_borrowing::<V>(),
        runs(before, plan, outcome, after, result),
    ensures
        runs(before, lend(plan, borrowed), outcome, after, result),
    decreases plan.items.len(),
{
    let lent = lend(plan, borrowed);
    if plan.items.len() > 0 {
        let item = plan.items[0];
        let rest = ScanPlan { items: plan.items.skip(1), end: plan.end };
        let counted = recorded(outcome, item.value.len());
        let lent_rest = ScanPlan { items: lent.items.skip(1), end: lent.end };
        assert(lent_rest =~= lend(rest, borrowed));
        let first = lent.items[0];
        if item.shown {
            let (next, answer) = choose|next: V, answer: Answer| #[trigger]
                V::visits(before, item.key, item.value, item.borrowed, next, answer)
                    && match answer {
                    Err(error) => after == next && result == ScanResult::Failed(error),
                    Ok(VisitorControl::Stop) => after == next && result == ScanResult::Done(
                        halted(counted),
                    ),
                    Ok(VisitorControl::Continue) => runs(next, rest, counted, after, result),
                };
            assert(V::visits(before, first.key, first.value, first.borrowed, next, answer));
            if answer == Ok::<VisitorControl, ErrorView>(VisitorControl::Continue) {
                borrowing_is_seen_by_those_who_look(
                    next,
                    rest,
                    counted,
                    after,
                    result,
                    borrowed,
                );
            }
        } else {
            borrowing_is_seen_by_those_who_look(before, rest, counted, after, result, borrowed);
        }
    }
}

// ---------------------------------------------------------------------------
// Lists of entries that can be read up to an error.

/// Entries in the order in which they are stored, up to the first that cannot
/// be read.
#[verifier::ext_equal]
pub struct EntryList {
    pub entries: Seq<Entry>,
    pub error: Option<ErrorView>,
}

/// A list whose first entry cannot be read.
pub open spec fn unreadable(error: ErrorView) -> EntryList {
    EntryList { entries: Seq::empty(), error: Some(error) }
}

/// `rest` behind one more entry.
pub open spec fn entry_then(key: Seq<u8>, value: Seq<u8>, rest: EntryList) -> EntryList {
    EntryList { entries: seq![(key, value)] + rest.entries, error: rest.error }
}

/// Whether the entries read so far, and those left to read, make the whole list.
pub open spec fn reading(whole: EntryList, done: Seq<Entry>, rest: EntryList) -> bool {
    &&& whole.entries == done + rest.entries
    &&& whole.error == rest.error
}

/// Reading one more entry.
pub proof fn lemma_read_entry(
    whole: EntryList,
    done: Seq<Entry>,
    key: Seq<u8>,
    value: Seq<u8>,
    rest: EntryList,
)
    requires
        reading(whole, done, entry_then(key, value, rest)),
    ensures
        reading(whole, done.push((key, value)), rest),
        done.push((key, value)) == whole.entries.take(done.len() as int + 1),
{
    let next = done.push((key, value));
    assert(done + (seq![(key, value)] + rest.entries) =~= next + rest.entries);
    assert(next =~= whole.entries.take(done.len() as int + 1));
}

/// How a scan of a list ends.
pub open spec fn list_end(list: EntryList) -> ScanEnd {
    match list.error {
        Some(error) => ScanEnd::Failed(error),
        None => ScanEnd::Done,
    }
}

/// The scan item of an entry: it is shown where its key starts with `prefix`.
pub open spec fn prefix_item(entry: Entry, prefix: Seq<u8>) -> ScanItem {
    ScanItem {
        key: entry.0,
        value: entry.1,
        shown: has_prefix(entry.0, prefix),
        borrowed: false,
    }
}

/// Counts every entry, and shows those whose keys start with `prefix`.
pub open spec fn prefix_items(entries: Seq<Entry>, prefix: Seq<u8>) -> Seq<ScanItem> {
    Seq::new(entries.len(), |i: int| prefix_item(entries[i], prefix))
}

/// Counts and shows those entries whose keys start with `prefix`.
pub open spec fn matching_items(entries: Seq<Entry>, prefix: Seq<u8>) -> Seq<ScanItem>
    decreases entries.len(),
{
    if entries.len() == 0 {
        Seq::empty()
    } else if has_prefix(entries.last().0, prefix) {
        matching_items(entries.drop_last(), prefix).push(prefix_item(entries.last(), prefix))
    } else {
        matching_items(entries.drop_last(), prefix)
    }
}

/// A scan that counts every entry of a list and shows those whose keys start
/// with `prefix`.
pub open spec fn prefix_plan(list: EntryList, prefix: Seq<u8>) -> ScanPlan {
    ScanPlan { items: prefix_items(list.entries, prefix), end: list_end(list) }
}

/// A scan that counts and shows the entries of a list whose keys start with
/// `prefix`.
pub open spec fn matching_plan(list: EntryList, prefix: Seq<u8>) -> ScanPlan {
    ScanPlan { items: matching_items(list.entries, prefix), end: list_end(list) }
}

/// The first entry of a list is the first that a scan of it counts.
pub proof fn lemma_prefix_step(
    key: Seq<u8>,
    value: Seq<u8>,
    rest: EntryList,
    prefix: Seq<u8>,
    borrowed: bool,
)
    ensures
        lend(prefix_plan(entry_then(key, value, rest), prefix), borrowed) == plan_then(
            open_plan(seq![ScanItem { borrowed, ..prefix_item((key, value), prefix) }]),
            lend(prefix_plan(rest, prefix), borrowed),
        ),
{
    let whole = lend(prefix_plan(entry_then(key, value, rest), prefix), borrowed);
    let item = ScanItem { borrowed, ..prefix_item((key, value), prefix) };
    assert(whole.items =~= seq![item] + lend(prefix_plan(rest, prefix), borrowed).items);
}

/// The first entry of a list is the first that a scan of its matching entries
/// counts, where it matches.
pub proof fn lemma_matching_step(key: Seq<u8>, value: Seq<u8>, rest: EntryList, prefix: Seq<u8>)
    ensures
        matching_plan(entry_then(key, value, rest), prefix) == if has_prefix(key, prefix) {
            plan_then(showing(key, value, false), matching_plan(rest, prefix))
        } else {
            matching_plan(rest, prefix)
        },
{
    let entry = (key, value);
    let one = seq![entry];
    lemma_matching_split(one, rest.entries, prefix);
    assert(one.drop_last() =~= Seq::<Entry>::empty());
    let front = matching_items(one, prefix);
    let none = matching_items(one.drop_last(), prefix);
    assert(none =~= Seq::<ScanItem>::empty());
    if has_prefix(key, prefix) {
        assert(front =~= seq![prefix_item(entry, prefix)]);
    } else {
        assert(front + matching_items(rest.entries, prefix) =~= matching_items(
            rest.entries,
            prefix,
        ));
    }
}

/// `matching_items` of a longer list starts with that of a shorter one.
pub proof fn lemma_matching_split(front: Seq<Entry>, back: Seq<Entry>, prefix: Seq<u8>)
    ensures
        matching_items(front + back, prefix) == matching_items(front, prefix) + matching_items(
            back,
            prefix,
        ),
    decreases back.len(),
{
    if back.len() == 0 {
        assert(front + back =~= front);
    } else {
        lemma_matching_split(front, back.drop_last(), prefix);
        assert((front + back).drop_last() =~= front + back.drop_last());
        assert((front + back).last() == back.last());
        assert(matching_items(front + back, prefix) =~= matching_items(front, prefix)
            + matching_items(back, prefix));
    }
}

/// A scan of a list counts every entry of it, in order, and shows those that have
/// the prefix; a scan of matching entries counts only those. Both end with the
/// error of the list, where it has one, and are over otherwise. Neither borrows.
pub proof fn list_scans_go_through_the_list(
    entries: Seq<Entry>,
    error: Option<ErrorView>,
    prefix: Seq<u8>,
    last: Entry,
)
    ensures
        ({
            let list = EntryList { entries, error };
            let longer = EntryList { entries: entries.push(last), error };
            let plan = prefix_plan(list, prefix);
            let matching = matching_plan(list, prefix);
            let more = matching_plan(longer, prefix);
            &&& plan.items.len() == entries.len()
            &&& forall|i: int|
                0 <= i < entries.len() ==> {
                    &&& (#[trigger] plan.items[i]).key == entries[i].0
                    &&& plan.items[i].value == entries[i].1
                    &&& plan.items[i].shown == has_prefix(entries[i].0, prefix)
                    &&& !plan.items[i].borrowed
                }
            &&& error matches Some(e) ==> plan.end == ScanEnd::Failed(e) && matching.end
                == ScanEnd::Failed(e)
            &&& error is None ==> plan.end is Done && matching.end is Done
            &&& entries.len() == 0 ==> matching.items.len() == 0
            &&& has_prefix(last.0, prefix) ==> {
                &&& more.items.len() == matching.items.len() + 1
                &&& more.items.drop_last() == matching.items
                &&& more.items.last().key == last.0
                &&& more.items.last().value == last.1
                &&& more.items.last().shown
                &&& !more.items.last().borrowed
            }
            &&& !has_prefix(last.0, prefix) ==> more == matching
        }),
{
    let longer = entries.push(last);
    assert(longer.drop_last() =~= entries);
    if has_prefix(last.0, prefix) {
        assert(matching_items(longer, prefix).drop_last() =~= matching_items(entries, prefix));
    }
}

/// Lending a plan changes nothing but whether its values are borrowed. Two plans
/// in turn are the items of both, where the first leaves more to scan.
pub proof fn lending_changes_only_what_is_borrowed(
    plan: ScanPlan,
    other: ScanPlan,
    borrowed: bool,
    i: int,
)
    ensures
        lend(plan, borrowed).end == plan.end,
        lend(plan, borrowed).items.len() == plan.items.len(),
        0 <= i < plan.items.len() ==> {
            let item = lend(plan, borrowed).items[i];
            &&& item.key == plan.items[i].key
            &&& item.value == plan.items[i].value
            &&& item.shown == plan.items[i].shown
            &&& item.borrowed == borrowed
        },
        plan.end is More ==> plan_then(plan, other).items == plan.items + other.items && plan_then(
            plan,
            other,
        ).end == other.end,
        !(plan.end is More) ==> plan_then(plan, other) == plan,
{
}

/// What a visitor, a scan, or a part of a scan returns is seen as it is.
pub proof fn answers_are_seen_as_they_are(
    answer: Result<VisitorControl, LevelDbError>,
    scan: Result<ScanOutcome, LevelDbError>,
    part: Result<ScanProgress, LevelDbError>,
    outcome: ScanOutcome,
)
    ensures
        match answer {
            Ok(control) => answer_view(answer) == Ok::<VisitorControl, ErrorView>(control),
            Err(error) => answer_view(answer) == Err::<VisitorControl, ErrorView>(error@),
        },
        match scan {
            Ok(found) => outcome_view(scan) == Ok::<ScanOutcome, ErrorView>(found),
            Err(error) => outcome_view(scan) == Err::<ScanOutcome, ErrorView>(error@),
        },
        match part {
            Ok(ScanProgress::More) => progress_result(part, outcome) == ScanResult::More(outcome),
            Ok(ScanProgress::Done) => progress_result(part, outcome) == ScanResult::Done(outcome),
            Err(error) => progress_result(part, outcome) == ScanResult::Failed(error@),
        },
{
}

} // verus!
