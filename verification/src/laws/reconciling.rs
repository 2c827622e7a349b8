//! Laws of the row that an account is reconciled into.

use vstd::prelude::*;

use crate::account_id::is_account_id;
use crate::decimal::{digits, law_digits_read_back, read_decimal, signed_digits};
use crate::engine::{Baseline, ReplayOutcome, ReplayStatus, Timeline};
use crate::fallback::{falls_back_to, law_known_state_is_left_alone, Recovered};
use crate::laws::loading::law_load_fails_only_for_a_reason;
use crate::reconcile::{
    comes_of, has_kind, is_concluded, is_prepared, is_prepared_from, is_reconciled,
    is_reconciliation, is_row_of, is_row_of_replay, is_zero_row, law_gap_is_never_ok,
    law_row_is_a_failure_or_a_replay, negated, start_question, truncated, EngineRun, PendingReplay,
    Prepared, ReconError, ReconRow, StatusKind,
};
use crate::snapshot::{BaselineRead, LocalSnapshot, Question, Questions, SnapshotSource};
use crate::text::occurs;
use crate::timeline::{
    claimed_total, is_load, AccountRow, EventRow, LoadError, Migration, UserSlice,
};

verus! {

/// What a message is carried as: whole up to 120 characters, and else the first 120
/// of them with an ellipsis behind them.
pub open spec fn is_carried(shown: Seq<char>, message: Seq<char>) -> bool {
    if message.len() <= 120 {
        shown == message
    } else {
        &&& shown.len() == 121
        &&& forall|k: int| 0 <= k < 120 ==> #[trigger] shown[k] == message[k]
        &&& shown[120] == '\u{2026}'
    }
}

/// A status carries as much of a message as it has room for, from the start.
pub proof fn law_message_is_carried(message: Seq<char>)
    ensures
        is_carried(truncated(message), message),
{
    reveal_strlit("\u{2026}");
}

/// The fraction `ratio` stands for `delta` over `actual`: it has the sign of the
/// delta, and is zero only where the delta is.
pub open spec fn is_share(num: int, den: int, delta: int, actual: int) -> bool {
    &&& den > 0
    &&& num * actual == delta * den
    &&& num > 0 <==> delta > 0
    &&& num < 0 <==> delta < 0
}

/// The row of a replay tells what the replay claimed, what it is held against, the
/// one less the other, and that difference over the actual total, exactly.
pub proof fn law_replayed_row_tells_the_outcome(
    slice: UserSlice,
    actual: u128,
    no_baseline: bool,
    outcome: ReplayOutcome,
    row: ReconRow,
)
    requires
        is_concluded(slice, actual, no_baseline, EngineRun::Finished(outcome), row),
        outcome.total_claimed <= i128::MAX,
        actual <= i128::MAX,
    ensures
        row.account_id == slice.backend_account_id,
        row.near_account_id@ == slice.near_account_id@,
        row.n_claims == outcome.per_claim@.len(),
        read_decimal(row.calculated_total_claim@) == Some(outcome.total_claimed as nat),
        read_decimal(row.actual_total_claim@) == Some(actual as nat),
        row.delta@ == signed_digits(outcome.total_claimed - actual),
        actual > 0 ==> is_share(
            row.rel_delta.num as int,
            row.rel_delta.den as int,
            outcome.total_claimed - actual,
            actual as int,
        ),
        actual == 0 ==> row.rel_delta.num == 0 && row.rel_delta.den > 0,
{
    law_digits_read_back(outcome.total_claimed as nat);
    law_digits_read_back(actual as nat);
    let delta = outcome.total_claimed - actual;
    if actual > 0 {
        assert(row.rel_delta.num == delta);
        assert(row.rel_delta.den == actual);
    }
}

/// The status of a replay tells how it ended: `ok` where it went through, and the
/// contract's own message where it did not. Where the account's state is missing, a
/// replay that went through, or that failed for want of the account or a jar, is
/// told as `no_baseline`.
pub proof fn law_replayed_row_tells_how_it_ended(
    slice: UserSlice,
    actual: u128,
    no_baseline: bool,
    outcome: ReplayOutcome,
    row: ReconRow,
) -> (shown: Seq<char>)
    requires
        is_concluded(slice, actual, no_baseline, EngineRun::Finished(outcome), row),
        outcome.total_claimed <= i128::MAX,
        actual <= i128::MAX,
    ensures
        match outcome.status {
            ReplayStatus::Completed => row.status@ == (if no_baseline {
                "no_baseline"@
            } else {
                "ok"@
            }),
            ReplayStatus::Error(message) => if no_baseline && occurs(
                message@,
                "is not found"@,
            ) {
                row.status@ == "no_baseline"@
            } else {
                row.status@ == "error:"@ + shown && is_carried(shown, message@)
            },
        },
{
    match outcome.status {
        ReplayStatus::Error(message) => {
            law_message_is_carried(message@);
            truncated(message@)
        },
        ReplayStatus::Completed => Seq::empty(),
    }
}

/// A run that gave no outcome, or one that no row can hold, is told as a failure,
/// with what is known of it, and calculates nothing: the whole actual total is
/// missing.
pub proof fn law_run_without_an_outcome_is_a_failure(
    slice: UserSlice,
    actual: u128,
    no_baseline: bool,
    run: EngineRun,
    row: ReconRow,
) -> (shown: Seq<char>)
    requires
        is_concluded(slice, actual, no_baseline, run, row),
        run matches EngineRun::Finished(outcome) ==> outcome.total_claimed > i128::MAX || actual
            > i128::MAX,
    ensures
        tells_nothing(row, slice),
        row.status@ == "failure:"@ + shown,
        match run {
            EngineRun::Escaped(Some(text)) => is_carried(shown, text@),
            EngineRun::Escaped(None) => shown == "engine panic"@,
            EngineRun::Finished(outcome) => shown == (if outcome.total_claimed > i128::MAX {
                "calculated_total_claim exceeds i128"@
            } else {
                "actual_total_claim exceeds i128"@
            }),
        },
{
    lemma_zero_row(row, slice, row.status@);
    reveal_strlit("engine panic");
    reveal_strlit("calculated_total_claim exceeds i128");
    reveal_strlit("actual_total_claim exceeds i128");
    match run {
        EngineRun::Escaped(Some(text)) => {
            law_message_is_carried(text@);
            truncated(text@)
        },
        EngineRun::Escaped(None) => "engine panic"@,
        EngineRun::Finished(outcome) => if outcome.total_claimed > i128::MAX {
            "calculated_total_claim exceeds i128"@
        } else {
            "actual_total_claim exceeds i128"@
        },
    }
}

/// The row is the account's own, with nothing calculated and all of its on-chain
/// total missing.
pub open spec fn tells_nothing(row: ReconRow, slice: UserSlice) -> bool {
    &&& row.account_id == slice.backend_account_id
    &&& row.near_account_id@ == slice.near_account_id@
    &&& row.n_claims == 0
    &&& read_decimal(row.calculated_total_claim@) == Some(0nat)
    &&& read_decimal(row.actual_total_claim@) == Some(slice.onchain_claimed as nat)
    &&& slice.onchain_claimed <= i128::MAX ==> row.delta@ == signed_digits(
        -slice.onchain_claimed,
    )
    &&& 0 < slice.onchain_claimed <= i128::MAX ==> is_share(
        row.rel_delta.num as int,
        row.rel_delta.den as int,
        -slice.onchain_claimed,
        slice.onchain_claimed as int,
    )
    &&& slice.onchain_claimed > i128::MAX ==> row.delta@ == signed_digits(-i128::MAX)
        && is_share(
        row.rel_delta.num as int,
        row.rel_delta.den as int,
        -i128::MAX,
        slice.onchain_claimed as int,
    )
    &&& slice.onchain_claimed == 0 ==> row.rel_delta.num == 0 && row.rel_delta.den > 0
}

proof fn lemma_zero_row(row: ReconRow, slice: UserSlice, status: Seq<char>)
    requires
        is_zero_row(row, slice, status),
    ensures
        tells_nothing(row, slice),
{
    law_digits_read_back(0);
    law_digits_read_back(slice.onchain_claimed as nat);
    let delta = negated(slice.onchain_claimed);
    let actual = slice.onchain_claimed as int;
    if actual > 0 {
        assert(row.rel_delta.num == delta);
        assert(row.rel_delta.den == actual);
    }
}

/// Every row's relative delta is its delta over its actual total: with a denominator
/// above zero, of the delta's sign, and zero only where the delta is.
pub proof fn law_relative_delta_is_delta_over_actual<
    F: FnOnce(Baseline, Timeline) -> EngineRun,
>(
    authoritative: bool,
    slice: UserSlice,
    timeline: Timeline,
    engine: F,
    said: Questions,
    row: ReconRow,
)
    requires
        is_reconciled(authoritative, slice, timeline, engine, said, row),
        slice.onchain_claimed <= i128::MAX,
    ensures
        read_decimal(row.calculated_total_claim@) is Some,
        read_decimal(row.actual_total_claim@) is Some,
        ({
            let calculated = read_decimal(row.calculated_total_claim@)->0;
            let actual = read_decimal(row.actual_total_claim@)->0;
            &&& row.delta@ == signed_digits(calculated - actual)
            &&& row.rel_delta.den > 0
            &&& actual > 0 ==> is_share(
                row.rel_delta.num as int,
                row.rel_delta.den as int,
                calculated - actual,
                actual as int,
            )
            &&& actual == 0 ==> row.rel_delta.num == 0
        }),
{
    law_row_is_a_failure_or_a_replay(authoritative, slice, timeline, engine, said, row);
    if has_kind(row.status@, StatusKind::Failure) && is_zero_row(row, slice, row.status@) {
        lemma_zero_row(row, slice, row.status@);
    } else {
        let (pending, outcome) = choose|pending: PendingReplay, outcome: ReplayOutcome| #[trigger]
            is_row_of_replay(authoritative, slice, engine, row, pending, outcome);
        law_replayed_row_tells_the_outcome(
            slice,
            pending.actual,
            pending.no_baseline,
            outcome,
            row,
        );
    }
}

/// What the engine is given is what was found for the account: its own id and
/// timezone, the baseline and the events that the search for a prior state led to,
/// and its on-chain total less what the search took off. A state of the start of the
/// window is replayed as it is, with every event. Only an account that existed then,
/// of which a source without authority has no state, has no baseline.
pub proof fn law_engine_is_given_what_was_found(
    authoritative: bool,
    slice: UserSlice,
    timeline: Timeline,
    read: BaselineRead,
    said: Questions,
    pending: PendingReplay,
)
    requires
        is_prepared(authoritative, slice, timeline, read, said, Prepared::Replay(pending)),
    ensures
        pending.baseline.account_id@ == slice.near_account_id@,
        pending.baseline.timezone_ms == slice.timezone_ms,
        pending.no_baseline <==> pending.baseline.raw_account is None && !authoritative
            && slice.existed_at_start,
        read matches BaselineRead::Read(raw_account) && {
            &&& exists|off: u128|
                #[trigger] falls_back_to(
                    authoritative,
                    slice,
                    raw_account,
                    timeline,
                    said,
                    (pending.baseline.raw_account, pending.timeline, off),
                ) && pending.actual + off == slice.onchain_claimed
            &&& raw_account is Some || !authoritative ==> {
                &&& said.len() == 0
                &&& pending.baseline.raw_account == raw_account
                &&& pending.timeline == timeline
                &&& pending.actual == slice.onchain_claimed
            }
        },
{
    if let BaselineRead::Read(raw_account) = read {
        let found = choose|found: Recovered|
            falls_back_to(authoritative, slice, raw_account, timeline, said, found)
                && #[trigger] is_prepared_from(
                authoritative,
                slice,
                found,
                Prepared::Replay(pending),
            );
        assert(found == (pending.baseline.raw_account, pending.timeline, found.2));
        assert(falls_back_to(
            authoritative,
            slice,
            raw_account,
            timeline,
            said,
            (pending.baseline.raw_account, pending.timeline, found.2),
        ));
        if raw_account is Some || !authoritative {
            law_known_state_is_left_alone(
                authoritative,
                slice,
                raw_account,
                timeline,
                said,
                found,
            );
        }
    }
}

/// An account is replayed where its state could be read and its id is one of the
/// chain, and only there. Otherwise its row says which of these failed, and nothing
/// was calculated; after a failed read the source is asked nothing more.
pub proof fn law_account_is_replayed_or_told_why_not(
    authoritative: bool,
    slice: UserSlice,
    timeline: Timeline,
    read: BaselineRead,
    said: Questions,
    prepared: Prepared,
) -> (shown: Seq<char>)
    requires
        is_prepared(authoritative, slice, timeline, read, said, prepared),
    ensures
        prepared is Replay <==> read is Read && is_account_id(slice.near_account_id@),
        !(read is Read) ==> said.len() == 0,
        prepared matches Prepared::Row(row) ==> tells_nothing(row, slice) && match read {
            BaselineRead::Panicked => row.status@ == "failure:snapshot panic"@,
            BaselineRead::Failed(message) => row.status@ == "failure:"@ + shown && is_carried(
                shown,
                message@,
            ),
            BaselineRead::Read(_) => row.status@ == "failure:invalid near_account_id"@,
        },
{
    if let Prepared::Row(row) = prepared {
        lemma_zero_row(row, slice, row.status@);
    }
    if let BaselineRead::Failed(message) = read {
        law_message_is_carried(message@);
        truncated(message@)
    } else {
        Seq::empty()
    }
}

/// The row of a loaded account comes of its own states and events alone: the source
/// is asked first for its state at the start of the window, under its own ids, and
/// what the engine is run on follows from the answers.
pub proof fn law_account_is_asked_for_by_its_own_ids<
    F: FnOnce(Baseline, Timeline) -> EngineRun,
>(
    authoritative: bool,
    slice: UserSlice,
    timeline: Timeline,
    engine: F,
    said: Questions,
    row: ReconRow,
)
    requires
        is_reconciled(authoritative, slice, timeline, engine, said, row),
    ensures
        said.len() > 0,
        said[0] matches Question::Start { backend_account_id, near_account_id, read } && {
            &&& backend_account_id == slice.backend_account_id
            &&& near_account_id == slice.near_account_id@
            &&& exists|prepared: Prepared|
                {
                    &&& #[trigger] is_prepared(
                        authoritative,
                        slice,
                        timeline,
                        read,
                        said.skip(1),
                        prepared,
                    )
                    &&& match prepared {
                        Prepared::Row(made) => row == made,
                        Prepared::Replay(pending) => exists|run: EngineRun| #[trigger]
                            call_ensures(engine, (pending.baseline, pending.timeline), run)
                                && is_concluded(
                                slice,
                                pending.actual,
                                pending.no_baseline,
                                run,
                                row,
                            ),
                    }
                }
        },
{
    let (read, rest, prepared) = choose|
        read: BaselineRead,
        rest: Questions,
        prepared: Prepared,
    |
        said == seq![start_question(slice, read)] + rest && #[trigger] comes_of(
            authoritative,
            slice,
            timeline,
            engine,
            read,
            rest,
            prepared,
            row,
        );
    assert(said.skip(1) =~= rest);
    assert(said[0] == start_question(slice, read));
    assert(is_prepared(authoritative, slice, timeline, read, said.skip(1), prepared));
}

/// The local table is no authority: it says nothing of an account that it has no
/// state of. So such an account, where it existed at the start of the window, is never
/// told as `ok`, and nothing more is asked about it.
pub proof fn law_local_table_is_no_authority<F: FnOnce(Baseline, Timeline) -> EngineRun>(
    local: LocalSnapshot,
    slice: UserSlice,
    timeline: Timeline,
    engine: F,
    said: Questions,
    row: ReconRow,
)
    requires
        is_reconciled(local.authoritative(), slice, timeline, engine, said, row),
        said.len() > 0,
        said[0] == start_question(slice, BaselineRead::Read(None)),
    ensures
        said.len() == 1,
        slice.existed_at_start ==> row.status@ != "ok"@,
{
    law_account_is_asked_for_by_its_own_ids(
        local.authoritative(),
        slice,
        timeline,
        engine,
        said,
        row,
    );
    let prepared = choose|prepared: Prepared| #[trigger]
        is_prepared(
            local.authoritative(),
            slice,
            timeline,
            BaselineRead::Read(None),
            said.skip(1),
            prepared,
        );
    let found = choose|found: Recovered|
        falls_back_to(local.authoritative(), slice, None, timeline, said.skip(1), found)
            && #[trigger] is_prepared_from(local.authoritative(), slice, found, prepared);
    law_known_state_is_left_alone(
        local.authoritative(),
        slice,
        None,
        timeline,
        said.skip(1),
        found,
    );
    if slice.existed_at_start {
        law_gap_is_never_ok(local.authoritative(), slice, timeline, engine, said, row);
        assert(!has_kind(row.status@, StatusKind::Clean));
    }
}

/// An account with a payload that does not read has a row that names the time and
/// the event of the first such payload, without a question to the source and without
/// any amount.
pub proof fn law_bad_payload_is_named_in_the_row<F: FnOnce(Baseline, Timeline) -> EngineRun>(
    backend_account_id: i64,
    account: Option<AccountRow>,
    rows: Seq<EventRow>,
    migration: Option<Migration>,
    authoritative: bool,
    engine: F,
    said: Questions,
    row: Result<ReconRow, ReconError>,
    i: int,
) -> (shown: Seq<char>)
    requires
        is_reconciliation(
            backend_account_id,
            account,
            rows,
            migration,
            authoritative,
            engine,
            said,
            row,
        ),
        account is Some,
        0 <= i < rows.len(),
        rows[i].payload is Malformed,
        forall|k: int| 0 <= k < i ==> !((#[trigger] rows[k]).payload is Malformed),
        claimed_total(rows) <= u128::MAX,
    ensures
        said.len() == 0,
        row matches Ok(made) && {
            &&& made.account_id == backend_account_id
            &&& made.near_account_id@ == account->0.near_account_id@
            &&& read_decimal(made.calculated_total_claim@) == Some(0nat)
            &&& read_decimal(made.actual_total_claim@) == Some(0nat)
            &&& made.delta@ == signed_digits(0)
            &&& made.rel_delta.num == 0 && made.rel_delta.den > 0
            &&& made.n_claims == 0
            &&& made.status@ == "failure:"@ + shown
            &&& is_carried(
                shown,
                "account "@ + signed_digits(backend_account_id as int) + " ts "@ + digits(
                    rows[i].ts_ms as nat,
                ) + " event "@ + rows[i].event@,
            )
        },
{
    let loaded = choose|loaded: Result<(UserSlice, Timeline), LoadError>|
        #[trigger] is_load(backend_account_id, account, rows, migration, loaded) && is_row_of(
            backend_account_id,
            account,
            authoritative,
            loaded,
            engine,
            said,
            row,
        );
    law_load_fails_only_for_a_reason(
        backend_account_id,
        account,
        rows,
        migration,
        loaded,
    );
    law_digits_read_back(0);
    assert(!(loaded is Ok));
    let error = loaded->Err_0;
    let message = error.text(backend_account_id);
    law_message_is_carried(message);
    truncated(message)
}

} // verus!
