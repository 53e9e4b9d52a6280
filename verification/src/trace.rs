//! Logs of attempted operations.
//!
//! A transport can fail at any step, and the driver gives up at the first failure. What
//! a connector or the driver did is therefore stated as a log of attempts: each entry
//! names what was attempted and says whether it completed, and with which error where
//! it did not. An operation that follows a plan leaves either the whole plan, completed,
//! or a part of it that ends at the one attempt that failed.

use vstd::prelude::*;
use crate::registers::DataError;

verus! {

/// One entry of a log: what was attempted, and the error that it ended with, if any.
pub struct Attempt<T> {
    pub what: T,
    pub fault: Option<DataError>,
}

/// The log entry of an attempt at `item` that ended as `outcome`.
pub open spec fn attempt<T>(item: T, outcome: Result<(), DataError>) -> Attempt<T> {
    Attempt {
        what: item,
        fault: match outcome {
            Ok(_) => None,
            Err(fault) => Some(fault),
        },
    }
}

/// The log entry of an attempt at `item` that completed.
pub open spec fn done<T>(item: T) -> Attempt<T> {
    Attempt { what: item, fault: None }
}

/// The log entry of an attempt at `item` that failed with `fault`.
pub open spec fn failed<T>(item: T, fault: DataError) -> Attempt<T> {
    Attempt { what: item, fault: Some(fault) }
}

/// The log entries of `items` attempted in order, each of them completed.
pub open spec fn completed<T>(items: Seq<T>) -> Seq<Attempt<T>> {
    Seq::new(items.len(), |i: int| done(items[i]))
}

/// The log grew from `before` to `after` by a run of `plan` that broke off at item `k`
/// with `fault`: the items before item `k` completed, in order, item `k` was attempted
/// and failed with `fault`, and nothing after it was attempted.
pub open spec fn broke_off_at<T>(
    before: Seq<Attempt<T>>,
    after: Seq<Attempt<T>>,
    plan: Seq<T>,
    k: int,
    fault: DataError,
) -> bool {
    &&& 0 <= k < plan.len()
    &&& after == before + completed(plan.take(k)).push(failed(plan[k], fault))
}

/// The log grew from `before` to `after` by a run of `plan` that broke off with
/// `fault` at one of its items.
pub open spec fn broke_off<T>(
    before: Seq<Attempt<T>>,
    after: Seq<Attempt<T>>,
    plan: Seq<T>,
    fault: DataError,
) -> bool {
    exists|k: int| broke_off_at(before, after, plan, k, fault)
}

/// Completing one more item extends the completed items by it.
pub proof fn lemma_completed_push<T>(items: Seq<T>, item: T)
    ensures
        completed(items).push(done(item)) == completed(items.push(item)),
{
    assert(completed(items).push(done(item)) =~= completed(items.push(item)));
}

/// Completing two plans one after the other completes their concatenation.
pub proof fn lemma_completed_concat<T>(first: Seq<T>, second: Seq<T>)
    ensures
        completed(first) + completed(second) == completed(first + second),
{
    assert(completed(first) + completed(second) =~= completed(first + second));
}

/// A run that broke off at item `k` of a plan broke off at item `k` of every plan that
/// the first one begins.
pub proof fn lemma_broke_off_at_in_longer_plan<T>(
    before: Seq<Attempt<T>>,
    after: Seq<Attempt<T>>,
    plan: Seq<T>,
    rest: Seq<T>,
    k: int,
    fault: DataError,
)
    requires
        broke_off_at(before, after, plan, k, fault),
    ensures
        broke_off_at(before, after, plan + rest, k, fault),
{
    assert((plan + rest).take(k) =~= plan.take(k));
}

/// A run that broke off at item `k` of a plan broke off at item `k` of every plan that
/// begins with the first one.
pub proof fn lemma_broke_off_at_in_prefix<T>(
    before: Seq<Attempt<T>>,
    after: Seq<Attempt<T>>,
    part: Seq<T>,
    plan: Seq<T>,
    k: int,
    fault: DataError,
)
    requires
        part.len() <= plan.len(),
        plan.take(part.len() as int) == part,
        broke_off_at(before, after, part, k, fault),
    ensures
        broke_off_at(before, after, plan, k, fault),
{
    assert(plan =~= part + plan.skip(part.len() as int));
    lemma_broke_off_at_in_longer_plan(
        before,
        after,
        part,
        plan.skip(part.len() as int),
        k,
        fault,
    );
}

/// A completed run of one plan followed by a run of a second plan that broke off at
/// its item `k` is a run of the two plans in a row that broke off `k` items into the
/// second.
pub proof fn lemma_broke_off_at_after_completed<T>(
    before: Seq<Attempt<T>>,
    between: Seq<Attempt<T>>,
    after: Seq<Attempt<T>>,
    first: Seq<T>,
    second: Seq<T>,
    k: int,
    fault: DataError,
)
    requires
        between == before + completed(first),
        broke_off_at(between, after, second, k, fault),
    ensures
        broke_off_at(before, after, first + second, first.len() + k, fault),
{
    let whole = first + second;
    assert(whole.take(first.len() + k) =~= first + second.take(k));
    lemma_completed_concat(first, second.take(k));
    assert(before + completed(whole.take(first.len() + k)).push(
        failed(whole[first.len() + k], fault),
    ) =~= (before + completed(first)) + completed(second.take(k)).push(failed(second[k], fault)));
}

/// Two completed runs in a row are a completed run of the two plans in a row.
pub proof fn lemma_completed_after_completed<T>(
    before: Seq<Attempt<T>>,
    between: Seq<Attempt<T>>,
    after: Seq<Attempt<T>>,
    first: Seq<T>,
    second: Seq<T>,
)
    requires
        between == before + completed(first),
        after == between + completed(second),
    ensures
        after == before + completed(first + second),
{
    lemma_completed_concat(first, second);
    assert(after =~= before + completed(first + second));
}

/// After the first `p` items of a plan completed, an attempt at item `p` either leaves
/// the first `p + 1` items completed or breaks the run off at item `p`, with the error
/// of the attempt.
pub proof fn lemma_next_attempt<T>(
    before: Seq<Attempt<T>>,
    log: Seq<Attempt<T>>,
    plan: Seq<T>,
    p: int,
    outcome: Result<(), DataError>,
)
    requires
        0 <= p < plan.len(),
        log == before + completed(plan.take(p)),
    ensures
        outcome is Ok ==> log.push(attempt(plan[p], outcome)) == before + completed(
            plan.take(p + 1),
        ),
        outcome matches Err(fault) ==> broke_off_at(
            before,
            log.push(attempt(plan[p], outcome)),
            plan,
            p,
            fault,
        ) && broke_off(before, log.push(attempt(plan[p], outcome)), plan, fault),
{
    let after = log.push(attempt(plan[p], outcome));
    match outcome {
        Ok(_) => {
            assert(plan.take(p + 1) =~= plan.take(p).push(plan[p]));
            lemma_completed_push(plan.take(p), plan[p]);
            assert(after =~= before + completed(plan.take(p).push(plan[p])));
        },
        Err(fault) => {
            assert(after =~= before + completed(plan.take(p)).push(failed(plan[p], fault)));
            assert(broke_off_at(before, after, plan, p, fault));
        },
    }
}

/// A log that holds the whole plan completed holds every item of it.
pub proof fn lemma_all_completed<T>(before: Seq<Attempt<T>>, log: Seq<Attempt<T>>, plan: Seq<T>)
    requires
        log == before + completed(plan.take(plan.len() as int)),
    ensures
        log == before + completed(plan),
{
    assert(plan.take(plan.len() as int) =~= plan);
}

/// The plans of a sequence of frames in a row, where `plan_of` gives the plan of one
/// frame.
pub open spec fn plans_of<T>(frames: Seq<Seq<u8>>, plan_of: spec_fn(Seq<u8>) -> Seq<T>) -> Seq<T>
    decreases frames.len(),
{
    if frames.len() == 0 {
        Seq::empty()
    } else {
        plans_of(frames.drop_last(), plan_of) + plan_of(frames.last())
    }
}

/// What one transfer leaves in a log of finer steps: the whole plan of its frame,
/// completed, where the transfer completed, and a run of that plan that broke off with
/// the error of the transfer where it did not.
pub open spec fn accounts_for_one<T>(
    part: Seq<Attempt<T>>,
    transfer: Attempt<Seq<u8>>,
    plan_of: spec_fn(Seq<u8>) -> Seq<T>,
) -> bool {
    match transfer.fault {
        None => part == completed(plan_of(transfer.what)),
        Some(fault) => broke_off(Seq::empty(), part, plan_of(transfer.what), fault),
    }
}

/// A log of finer steps and a log of transfers agree: the steps are those of the
/// transfers, transfer by transfer and in order, with nothing before, between or after
/// them.
pub open spec fn accounts_for<T>(
    log: Seq<Attempt<T>>,
    transfers: Seq<Attempt<Seq<u8>>>,
    plan_of: spec_fn(Seq<u8>) -> Seq<T>,
) -> bool
    decreases transfers.len(),
{
    if transfers.len() == 0 {
        log.len() == 0
    } else {
        exists|cut: int|
            0 <= cut <= log.len() && accounts_for(
                #[trigger] log.take(cut),
                transfers.drop_last(),
                plan_of,
            ) && accounts_for_one(log.skip(cut), transfers.last(), plan_of)
    }
}

/// Two logs that agree still agree after one more transfer that left its steps at the
/// end of the finer log.
pub proof fn lemma_accounts_for_next<T>(
    log: Seq<Attempt<T>>,
    transfers: Seq<Attempt<Seq<u8>>>,
    plan_of: spec_fn(Seq<u8>) -> Seq<T>,
    part: Seq<Attempt<T>>,
    transfer: Attempt<Seq<u8>>,
)
    requires
        accounts_for(log, transfers, plan_of),
        accounts_for_one(part, transfer, plan_of),
    ensures
        accounts_for(log + part, transfers.push(transfer), plan_of),
{
    let cut = log.len() as int;
    assert((log + part).take(cut) =~= log);
    assert((log + part).skip(cut) =~= part);
    assert(transfers.push(transfer).drop_last() =~= transfers);
    assert(accounts_for((log + part).take(cut), transfers.push(transfer).drop_last(), plan_of));
}

/// Two logs that agree still agree after one more transfer that either completed and
/// left the plan of its frame, completed, at the end of the finer log, or failed and
/// left a run of that plan there that broke off with the same error.
pub proof fn lemma_accounts_for_next_transfer<T>(
    log: Seq<Attempt<T>>,
    after: Seq<Attempt<T>>,
    transfers: Seq<Attempt<Seq<u8>>>,
    plan_of: spec_fn(Seq<u8>) -> Seq<T>,
    frame: Seq<u8>,
    outcome: Result<(), DataError>,
)
    requires
        accounts_for(log, transfers, plan_of),
        outcome is Ok ==> after == log + completed(plan_of(frame)),
        outcome matches Err(fault) ==> broke_off(log, after, plan_of(frame), fault),
    ensures
        accounts_for(after, transfers.push(attempt(frame, outcome)), plan_of),
{
    let plan = plan_of(frame);
    match outcome {
        Ok(_) => {
            lemma_accounts_for_next(
                log,
                transfers,
                plan_of,
                completed(plan),
                attempt(frame, outcome),
            );
        },
        Err(fault) => {
            let k = choose|k: int| broke_off_at(log, after, plan, k, fault);
            let part = completed(plan.take(k)).push(failed(plan[k], fault));
            assert(Seq::<Attempt<T>>::empty() + part =~= part);
            assert(broke_off_at(Seq::<Attempt<T>>::empty(), part, plan, k, fault));
            lemma_accounts_for_next(log, transfers, plan_of, part, attempt(frame, outcome));
        },
    }
}

/// Where every transfer completed, the finer log holds the plans of the frames in a
/// row, every step of them completed.
pub proof fn lemma_accounts_for_completed<T>(
    log: Seq<Attempt<T>>,
    frames: Seq<Seq<u8>>,
    plan_of: spec_fn(Seq<u8>) -> Seq<T>,
)
    requires
        accounts_for(log, completed(frames), plan_of),
    ensures
        log == completed(plans_of(frames, plan_of)),
    decreases frames.len(),
{
    let transfers = completed(frames);
    if frames.len() == 0 {
        assert(log =~= completed(plans_of(frames, plan_of)));
    } else {
        assert(transfers.len() == frames.len());
        assert(transfers.last() == done(frames.last()));
        let cut = choose|cut: int|
            0 <= cut <= log.len() && accounts_for(
                #[trigger] log.take(cut),
                transfers.drop_last(),
                plan_of,
            ) && accounts_for_one(log.skip(cut), transfers.last(), plan_of);
        assert(transfers.drop_last() =~= completed(frames.drop_last()));
        lemma_accounts_for_completed(log.take(cut), frames.drop_last(), plan_of);
        lemma_completed_concat(plans_of(frames.drop_last(), plan_of), plan_of(frames.last()));
        assert(log =~= log.take(cut) + log.skip(cut));
    }
}

/// The record that a transport keeps of one kind of request: what was asked, oldest
/// first, each with whether the transport did it.
pub type Record<U> = Seq<(U, bool)>;

/// The entries of `log` that `pick` selects, in order, each as what `pick` makes of it
/// and whether the attempt completed.
pub open spec fn picked<T, U>(log: Seq<Attempt<T>>, pick: spec_fn(T) -> Option<U>) -> Record<U>
    decreases log.len(),
{
    if log.len() == 0 {
        Seq::empty()
    } else {
        let rest = picked(log.drop_last(), pick);
        match pick(log.last().what) {
            Some(asked) => rest.push((asked, log.last().fault is None)),
            None => rest,
        }
    }
}

/// What one more attempt adds to the selected entries: itself, where `pick` selects
/// it, and nothing where it does not.
pub proof fn lemma_picked_push<T, U>(
    log: Seq<Attempt<T>>,
    next: Attempt<T>,
    pick: spec_fn(T) -> Option<U>,
)
    ensures
        picked(log.push(next), pick) == match pick(next.what) {
            Some(asked) => picked(log, pick).push((asked, next.fault is None)),
            None => picked(log, pick),
        },
{
    assert(log.push(next).drop_last() =~= log);
}

/// The selected entries of two logs in a row are those of the first and then those of
/// the second.
pub proof fn lemma_picked_concat<T, U>(
    first: Seq<Attempt<T>>,
    second: Seq<Attempt<T>>,
    pick: spec_fn(T) -> Option<U>,
)
    ensures
        picked(first + second, pick) == picked(first, pick) + picked(second, pick),
    decreases second.len(),
{
    if second.len() == 0 {
        assert(first + second =~= first);
        assert(picked(first, pick) + picked(second, pick) =~= picked(first, pick));
    } else {
        assert((first + second).drop_last() =~= first + second.drop_last());
        assert((first + second).last() == second.last());
        lemma_picked_concat(first, second.drop_last(), pick);
        match pick(second.last().what) {
            Some(asked) => {
                assert(picked(first + second, pick) =~= picked(first, pick) + picked(
                    second,
                    pick,
                ));
            },
            None => {},
        }
    }
}

/// A record grew from `before` to `after` by the entries that `pick` selects among
/// those that a log gained since it had `since` entries.
pub open spec fn grew_by<T, U>(
    before: Record<U>,
    after: Record<U>,
    log: Seq<Attempt<T>>,
    since: int,
    pick: spec_fn(T) -> Option<U>,
) -> bool {
    &&& 0 <= since <= log.len()
    &&& after == before + picked(log.skip(since), pick)
}

/// A record that grew with a log still does after one more attempt, where the record
/// gained that attempt if `pick` selects it and nothing if not.
pub proof fn lemma_grew_by_next<T, U>(
    before: Record<U>,
    after: Record<U>,
    then: Record<U>,
    log: Seq<Attempt<T>>,
    since: int,
    pick: spec_fn(T) -> Option<U>,
    next: Attempt<T>,
)
    requires
        grew_by(before, after, log, since, pick),
        then == match pick(next.what) {
            Some(asked) => after.push((asked, next.fault is None)),
            None => after,
        },
    ensures
        grew_by(before, then, log.push(next), since, pick),
{
    assert(log.push(next).skip(since) =~= log.skip(since).push(next));
    lemma_picked_push(log.skip(since), next, pick);
    match pick(next.what) {
        Some(asked) => {
            assert(then =~= before + picked(log.skip(since), pick).push(
                (asked, next.fault is None),
            ));
        },
        None => {},
    }
}

/// A record that has not changed grew by nothing.
pub proof fn lemma_grew_by_nothing<T, U>(
    record: Record<U>,
    log: Seq<Attempt<T>>,
    pick: spec_fn(T) -> Option<U>,
)
    ensures
        grew_by(record, record, log, log.len() as int, pick),
{
    assert(log.skip(log.len() as int) =~= Seq::<Attempt<T>>::empty());
    assert(record + picked(Seq::<Attempt<T>>::empty(), pick) =~= record);
}

/// A record that grew with a log from its start, and then with the entries that the
/// log gained later, grew with the whole log from its start.
pub proof fn lemma_grew_by_chain<T, U>(
    before: Record<U>,
    between: Record<U>,
    after: Record<U>,
    earlier: Seq<Attempt<T>>,
    log: Seq<Attempt<T>>,
    pick: spec_fn(T) -> Option<U>,
)
    requires
        grew_by(before, between, earlier, 0, pick),
        grew_by(between, after, log, earlier.len() as int, pick),
        earlier.len() <= log.len(),
        log.take(earlier.len() as int) == earlier,
    ensures
        grew_by(before, after, log, 0, pick),
{
    let later = log.skip(earlier.len() as int);
    assert(earlier.skip(0) =~= earlier);
    assert(log.skip(0) =~= log);
    assert(log =~= earlier + later);
    lemma_picked_concat(earlier, later, pick);
    assert(after =~= before + (picked(earlier, pick) + picked(later, pick)));
}

/// A log that grew by a completed plan, or by a run that broke off, begins with what it
/// was before.
pub proof fn lemma_log_begins_as_before<T>(
    before: Seq<Attempt<T>>,
    after: Seq<Attempt<T>>,
    plan: Seq<T>,
    outcome: Result<(), DataError>,
)
    requires
        outcome is Ok ==> after == before + completed(plan),
        outcome matches Err(fault) ==> broke_off(before, after, plan, fault),
    ensures
        before.len() <= after.len(),
        after.take(before.len() as int) == before,
{
    match outcome {
        Ok(_) => {
            assert(after.take(before.len() as int) =~= before);
        },
        Err(fault) => {
            let k = choose|k: int| broke_off_at(before, after, plan, k, fault);
            assert(after.take(before.len() as int) =~= before);
        },
    }
}

/// A run that broke off left a failed attempt at the end of the log, with the error of
/// the run.
pub proof fn lemma_broke_off_ends_failed<T>(
    before: Seq<Attempt<T>>,
    after: Seq<Attempt<T>>,
    plan: Seq<T>,
    fault: DataError,
)
    requires
        broke_off(before, after, plan, fault),
    ensures
        after.len() > 0,
        after.last().fault == Some(fault),
{
    let k = choose|k: int| broke_off_at(before, after, plan, k, fault);
    assert(after.last() == failed(plan[k], fault));
}

/// Where `pick` selects every entry, the selected entries are the entries of the log
/// one for one.
pub proof fn lemma_picked_all<T, U>(log: Seq<Attempt<T>>, pick: spec_fn(T) -> Option<U>)
    requires
        forall|item: T| (#[trigger] pick(item)) is Some,
    ensures
        picked(log, pick).len() == log.len(),
        forall|i: int|
            0 <= i < log.len() ==> #[trigger] picked(log, pick)[i] == (
                pick(log[i].what)->0,
                log[i].fault is None,
            ),
    decreases log.len(),
{
    if log.len() > 0 {
        lemma_picked_all(log.drop_last(), pick);
        assert(pick(log.last().what) is Some);
    }
}

} // verus!
