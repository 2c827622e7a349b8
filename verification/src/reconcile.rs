//! Reconciling one account: replay its timeline, and compare the calculated
//! total claim with the on-chain total.

use vstd::prelude::*;
use vstd::string::StringExecFns;

pub use crate::fallback::apply_block_height_fallback;

use crate::account_id::{is_account_id, is_valid_account_id};
use crate::decimal::{
    digits, law_digits_read_back, read_decimal, signed_digits, write_i128, write_u128,
};
use crate::engine::{is_consistent, Baseline, ReplayOutcome, ReplayStatus, Timeline};
use crate::fallback::{
    falls_back_to, law_known_state_is_left_alone, law_only_the_first_event_is_left_out, Recovered,
};
use crate::snapshot::{asked_since, BaselineRead, Question, Questions, SnapshotSource};
use crate::text::{chars_of, contains, cut, has_prefix, occurs, same, starts_with};
use crate::timeline::{
    is_fault, is_load, load_user, AccountRow, EventRow, LoadError, Migration, UserSlice,
};

verus! {

/// How many characters of a message a status carries.
pub const MAX_MESSAGE_CHARS: usize = 120;

/// An exact fraction.
#[derive(Clone, Copy, Debug, PartialEq, Eq, Structural)]
pub struct Ratio {
    pub num: i128,
    pub den: u128,
}

/// One reconciliation result row.
#[derive(Debug)]
pub struct ReconRow {
    pub account_id: i64,
    pub near_account_id: String,
    pub calculated_total_claim: String,
    pub actual_total_claim: String,
    /// Calculated less actual.
    pub delta: String,
    /// The delta over the actual total; zero where that total is zero.
    pub rel_delta: Ratio,
    pub n_claims: usize,
    /// `ok`, `no_baseline`, `error:<msg>` or `failure:<msg>`.
    pub status: String,
}

/// How a run of the engine ended.
pub enum EngineRun {
    /// A panic got out of it, with a text or without.
    Escaped(Option<String>),
    Finished(ReplayOutcome),
}

/// Why there is no row.
#[derive(Clone, Copy, Debug, PartialEq, Eq, Structural)]
pub enum ReconError {
    /// The account is not in the `accounts` table.
    UnknownAccount,
}

/// `s`, cut after 120 characters with an ellipsis in place of the rest.
pub open spec fn truncated(s: Seq<char>) -> Seq<char> {
    if s.len() <= MAX_MESSAGE_CHARS {
        s
    } else {
        s.take(MAX_MESSAGE_CHARS as int) + "\u{2026}"@
    }
}

/// Cuts a message to the length that a status carries.
pub fn truncate(s: &str) -> (short: String)
    ensures
        short@ == truncated(s@),
{
    let n: usize = chars_of(s).len();
    if n <= MAX_MESSAGE_CHARS {
        s.to_owned()
    } else {
        let mut short = cut(s, 0, MAX_MESSAGE_CHARS);
        short.append("\u{2026}");
        assert(s@.subrange(0, MAX_MESSAGE_CHARS as int) =~= s@.take(MAX_MESSAGE_CHARS as int));
        short
    }
}

/// Cutting a message a second time changes nothing, and a cut message has at
/// most one character over the limit.
pub proof fn law_truncating_again_changes_nothing(s: Seq<char>)
    ensures
        truncated(truncated(s)) == truncated(s),
        truncated(s).len() <= MAX_MESSAGE_CHARS + 1,
{
    reveal_strlit("\u{2026}");
    if s.len() > MAX_MESSAGE_CHARS {
        assert(truncated(s).take(MAX_MESSAGE_CHARS as int) =~= s.take(MAX_MESSAGE_CHARS as int));
    }
}

/// The delta of a row without a calculation: the actual total, negated, as far
/// as a signed number of 128 bits goes.
pub open spec fn negated(actual: u128) -> int {
    if actual <= i128::MAX {
        -(actual as int)
    } else {
        -(i128::MAX as int)
    }
}

/// `delta` over `actual`, or zero.
pub open spec fn ratio(delta: int, actual: u128) -> Ratio {
    if actual == 0 {
        Ratio { num: 0, den: 1 }
    } else {
        Ratio { num: delta as i128, den: actual }
    }
}

/// `row` is the account's row with nothing calculated.
pub open spec fn is_zero_row(row: ReconRow, slice: UserSlice, status: Seq<char>) -> bool {
    &&& row.account_id == slice.backend_account_id
    &&& row.near_account_id@ == slice.near_account_id@
    &&& row.calculated_total_claim@ == digits(0)
    &&& row.actual_total_claim@ == digits(slice.onchain_claimed as nat)
    &&& row.delta@ == signed_digits(negated(slice.onchain_claimed))
    &&& row.rel_delta == ratio(negated(slice.onchain_claimed), slice.onchain_claimed)
    &&& row.n_claims == 0
    &&& row.status@ == status
}

/// A row with `calculated = 0`, for an account that was not replayed.
pub fn zero_calc_row(slice: &UserSlice, status: String) -> (row: ReconRow)
    ensures
        is_zero_row(row, *slice, status@),
{
    let actual: u128 = slice.onchain_claimed;
    let delta: i128 = if actual <= i128::MAX as u128 {
        -(actual as i128)
    } else {
        -i128::MAX
    };
    ReconRow {
        account_id: slice.backend_account_id,
        near_account_id: slice.near_account_id.clone(),
        calculated_total_claim: write_u128(0),
        actual_total_claim: write_u128(actual),
        delta: write_i128(delta),
        rel_delta: if actual == 0 {
            Ratio { num: 0, den: 1 }
        } else {
            Ratio { num: delta, den: actual }
        },
        n_claims: 0,
        status,
    }
}

fn failure(message: &str) -> (status: String)
    ensures
        status@ == failure_status(message@),
{
    let mut status = "failure:".to_owned();
    let short = truncate(message);
    status.append(short.as_str());
    status
}

/// The status of an account of which the tool got no clean read.
pub open spec fn failure_status(message: Seq<char>) -> Seq<char> {
    "failure:"@ + truncated(message)
}

/// The status of an account that the engine replayed.
pub open spec fn replay_status(status: ReplayStatus, no_baseline: bool) -> Seq<char> {
    match status {
        ReplayStatus::Error(message) => if no_baseline && occurs(message@, "is not found"@) {
            "no_baseline"@
        } else {
            "error:"@ + truncated(message@)
        },
        ReplayStatus::Completed => if no_baseline {
            "no_baseline"@
        } else {
            "ok"@
        },
    }
}

/// An account that is ready to replay.
pub struct PendingReplay {
    pub baseline: Baseline,
    pub timeline: Timeline,
    /// The on-chain total that the replay is held against.
    pub actual: u128,
    /// The state at the start of the window is missing.
    pub no_baseline: bool,
}

/// Where an account stands before the engine runs.
pub enum Prepared {
    Row(ReconRow),
    Replay(PendingReplay),
}

/// `prepared` is where the account stands, with what the source was asked and
/// answered. A read that failed takes no question more.
pub open spec fn is_prepared(
    authoritative: bool,
    slice: UserSlice,
    timeline: Timeline,
    read: BaselineRead,
    said: Questions,
    prepared: Prepared,
) -> bool {
    match read {
        BaselineRead::Panicked => said == Seq::<Question>::empty() && (
        prepared matches Prepared::Row(row) && is_zero_row(
            row,
            slice,
            "failure:snapshot panic"@,
        )),
        BaselineRead::Failed(message) => said == Seq::<Question>::empty() && (
        prepared matches Prepared::Row(row) && is_zero_row(
            row,
            slice,
            failure_status(message@),
        )),
        BaselineRead::Read(raw_account) => exists|found: Recovered|
            falls_back_to(authoritative, slice, raw_account, timeline, said, found)
                && #[trigger] is_prepared_from(authoritative, slice, found, prepared),
    }
}

/// `prepared` is where the account stands with the baseline and the events that
/// were found for it.
pub open spec fn is_prepared_from(
    authoritative: bool,
    slice: UserSlice,
    found: Recovered,
    prepared: Prepared,
) -> bool {
    if is_account_id(slice.near_account_id@) {
        &&& prepared matches Prepared::Replay(pending) && {
            &&& pending.baseline.account_id@ == slice.near_account_id@
            &&& pending.baseline.raw_account == found.0
            &&& pending.baseline.timezone_ms == slice.timezone_ms
            &&& pending.timeline == found.1
            &&& pending.actual == slice.onchain_claimed - found.2
            &&& pending.no_baseline == (found.0 is None && !authoritative
                && slice.existed_at_start)
        }
    } else {
        prepared matches Prepared::Row(row) && is_zero_row(
            row,
            slice,
            "failure:invalid near_account_id"@,
        )
    }
}

/// Goes from the state that was read to what the engine is to run, or to the
/// row of an account that cannot be replayed.
pub fn prepare_replay<S: SnapshotSource>(
    snapshot: &mut S,
    slice: &UserSlice,
    timeline: Timeline,
    read: BaselineRead,
) -> (prepared: Prepared)
    requires
        slice.fits(timeline),
    ensures
        final(snapshot).authoritative() == old(snapshot).authoritative(),
        old(snapshot).asked().is_prefix_of(final(snapshot).asked()),
        is_prepared(
            old(snapshot).authoritative(),
            *slice,
            timeline,
            read,
            asked_since(old(snapshot).asked(), final(snapshot).asked()),
            prepared,
        ),
{
    let ghost before = snapshot.asked();
    assert(asked_since(before, before) =~= Seq::<Question>::empty());
    let raw_account: Option<Vec<u8>> = match read {
        BaselineRead::Panicked => {
            return Prepared::Row(zero_calc_row(slice, "failure:snapshot panic".to_owned()));
        },
        BaselineRead::Failed(message) => {
            return Prepared::Row(zero_calc_row(slice, failure(message.as_str())));
        },
        BaselineRead::Read(raw_account) => raw_account,
    };
    let ghost given = raw_account;
    let found = apply_block_height_fallback(snapshot, slice, raw_account, timeline);
    proof {
        law_only_the_first_event_is_left_out(
            old(snapshot).authoritative(),
            *slice,
            given,
            timeline,
            asked_since(before, snapshot.asked()),
            found,
        );
    }
    let ghost all = found;
    let (raw_account, timeline, adjustment): (Option<Vec<u8>>, Timeline, u128) = found;
    let actual: u128 = slice.onchain_claimed - adjustment;
    let authoritative: bool = snapshot.is_authoritative();
    let no_baseline: bool = raw_account.is_none() && !authoritative && slice.existed_at_start;
    if !is_valid_account_id(slice.near_account_id.as_str()) {
        let prepared = Prepared::Row(
            zero_calc_row(slice, "failure:invalid near_account_id".to_owned()),
        );
        assert(is_prepared_from(authoritative, *slice, all, prepared));
        return prepared;
    }
    let prepared = Prepared::Replay(
        PendingReplay {
            baseline: Baseline {
                account_id: slice.near_account_id.clone(),
                raw_account,
                timezone_ms: slice.timezone_ms,
            },
            timeline,
            actual,
            no_baseline,
        },
    );
    assert(is_prepared_from(authoritative, *slice, all, prepared));
    prepared
}

/// `row` compares what the engine calculated with `actual`.
pub open spec fn is_replayed_row(
    row: ReconRow,
    slice: UserSlice,
    actual: u128,
    no_baseline: bool,
    outcome: ReplayOutcome,
) -> bool {
    let delta = outcome.total_claimed - actual;
    &&& row.account_id == slice.backend_account_id
    &&& row.near_account_id@ == slice.near_account_id@
    &&& row.calculated_total_claim@ == digits(outcome.total_claimed as nat)
    &&& row.actual_total_claim@ == digits(actual as nat)
    &&& row.delta@ == signed_digits(delta)
    &&& row.rel_delta == ratio(delta, actual)
    &&& row.n_claims == outcome.per_claim@.len()
    &&& row.status@ == replay_status(outcome.status, no_baseline)
}

/// `row` is what comes of the run.
pub open spec fn is_concluded(
    slice: UserSlice,
    actual: u128,
    no_baseline: bool,
    run: EngineRun,
    row: ReconRow,
) -> bool {
    match run {
        EngineRun::Escaped(text) => is_zero_row(
            row,
            slice,
            failure_status(
                match text {
                    Some(text) => text@,
                    None => "engine panic"@,
                },
            ),
        ),
        EngineRun::Finished(outcome) => if outcome.total_claimed > i128::MAX {
            is_zero_row(row, slice, failure_status("calculated_total_claim exceeds i128"@))
        } else if actual > i128::MAX {
            is_zero_row(row, slice, failure_status("actual_total_claim exceeds i128"@))
        } else {
            is_replayed_row(row, slice, actual, no_baseline, outcome)
        },
    }
}

/// The row of an account that the engine ran. A total that does not fit a signed
/// number of 128 bits is a failure.
pub fn conclude_replay(
    slice: &UserSlice,
    actual: u128,
    no_baseline: bool,
    run: EngineRun,
) -> (row: ReconRow)
    ensures
        is_concluded(*slice, actual, no_baseline, run, row),
{
    let outcome: ReplayOutcome = match run {
        EngineRun::Escaped(text) => {
            let status = match text {
                Some(text) => failure(text.as_str()),
                None => failure("engine panic"),
            };
            return zero_calc_row(slice, status);
        },
        EngineRun::Finished(outcome) => outcome,
    };
    let calculated: u128 = outcome.total_claimed;
    if calculated > i128::MAX as u128 {
        return zero_calc_row(slice, failure("calculated_total_claim exceeds i128"));
    }
    if actual > i128::MAX as u128 {
        return zero_calc_row(slice, failure("actual_total_claim exceeds i128"));
    }
    let delta: i128 = calculated as i128 - actual as i128;
    let status: String = match &outcome.status {
        ReplayStatus::Error(message) => {
            if no_baseline && contains(message.as_str(), "is not found") {
                "no_baseline".to_owned()
            } else {
                let mut status = "error:".to_owned();
                let short = truncate(message.as_str());
                status.append(short.as_str());
                status
            }
        },
        ReplayStatus::Completed => {
            if no_baseline {
                "no_baseline".to_owned()
            } else {
                "ok".to_owned()
            }
        },
    };
    ReconRow {
        account_id: slice.backend_account_id,
        near_account_id: slice.near_account_id.clone(),
        calculated_total_claim: write_u128(calculated),
        actual_total_claim: write_u128(actual),
        delta: write_i128(delta),
        rel_delta: if actual == 0 {
            Ratio { num: 0, den: 1 }
        } else {
            Ratio { num: delta, den: actual }
        },
        n_claims: outcome.per_claim.len(),
        status,
    }
}

/// `row` is what comes of a loaded account whose state at the start of the window
/// was read as `read`, for which the source was asked `rest` after that, and that
/// stood at `prepared` before the engine ran.
pub open spec fn comes_of<F: FnOnce(Baseline, Timeline) -> EngineRun>(
    authoritative: bool,
    slice: UserSlice,
    timeline: Timeline,
    engine: F,
    read: BaselineRead,
    rest: Questions,
    prepared: Prepared,
    row: ReconRow,
) -> bool {
    &&& is_prepared(authoritative, slice, timeline, read, rest, prepared)
    &&& match prepared {
        Prepared::Row(made) => row == made,
        Prepared::Replay(pending) => exists|run: EngineRun| #[trigger]
            call_ensures(engine, (pending.baseline, pending.timeline), run) && is_concluded(
                slice,
                pending.actual,
                pending.no_baseline,
                run,
                row,
            ),
    }
}

/// The question for the account's state at the start of the window.
pub open spec fn start_question(slice: UserSlice, read: BaselineRead) -> Question {
    Question::Start {
        backend_account_id: slice.backend_account_id,
        near_account_id: slice.near_account_id@,
        read,
    }
}

/// `row` is the row of a loaded account, with what the source was asked and
/// answered, and some run of the engine on what that leads to.
pub open spec fn is_reconciled<F: FnOnce(Baseline, Timeline) -> EngineRun>(
    authoritative: bool,
    slice: UserSlice,
    timeline: Timeline,
    engine: F,
    said: Questions,
    row: ReconRow,
) -> bool {
    exists|read: BaselineRead, rest: Questions, prepared: Prepared|
        said == seq![start_question(slice, read)] + rest && #[trigger] comes_of(
            authoritative,
            slice,
            timeline,
            engine,
            read,
            rest,
            prepared,
            row,
        )
}

/// Reconciles one loaded account. `engine` replays a timeline from a baseline.
pub fn reconcile_loaded<S: SnapshotSource, F: FnOnce(Baseline, Timeline) -> EngineRun>(
    snapshot: &mut S,
    slice: &UserSlice,
    timeline: Timeline,
    engine: F,
) -> (row: ReconRow)
    requires
        slice.fits(timeline),
        forall|baseline: Baseline, events: Timeline| #[trigger]
            call_requires(engine, (baseline, events)),
    ensures
        old(snapshot).asked().is_prefix_of(final(snapshot).asked()),
        is_reconciled(
            old(snapshot).authoritative(),
            *slice,
            timeline,
            engine,
            asked_since(old(snapshot).asked(), final(snapshot).asked()),
            row,
        ),
{
    let ghost before = snapshot.asked();
    let ghost authoritative = snapshot.authoritative();
    let id: &str = slice.near_account_id.as_str();
    let read = snapshot.raw_account(slice.backend_account_id, id);
    let ghost given = read;
    let ghost begun = snapshot.asked();
    let ghost events = timeline;
    let prepared = prepare_replay(snapshot, slice, timeline, read);
    let ghost stands = prepared;
    let ghost rest = asked_since(begun, snapshot.asked());
    proof {
        assert(begun == before.push(start_question(*slice, given)));
        assert(snapshot.asked() =~= begun + rest);
        assert(asked_since(before, snapshot.asked()) =~= seq![
            start_question(*slice, given),
        ] + rest);
        assert(before.is_prefix_of(snapshot.asked()));
    }
    match prepared {
        Prepared::Row(row) => {
            assert(comes_of(authoritative, *slice, events, engine, given, rest, stands, row));
            row
        },
        Prepared::Replay(pending) => {
            let ghost ready = pending;
            let PendingReplay { baseline, timeline, actual, no_baseline } = pending;
            let run = engine(baseline, timeline);
            let row = conclude_replay(slice, actual, no_baseline, run);
            assert(call_ensures(engine, (ready.baseline, ready.timeline), run));
            assert(comes_of(authoritative, *slice, events, engine, given, rest, stands, row));
            row
        },
    }
}

/// `row` carries no amounts.
pub open spec fn is_blank_row(
    row: ReconRow,
    account_id: i64,
    near_account_id: Seq<char>,
    status: Seq<char>,
) -> bool {
    &&& row.account_id == account_id
    &&& row.near_account_id@ == near_account_id
    &&& row.calculated_total_claim@ == digits(0)
    &&& row.actual_total_claim@ == digits(0)
    &&& row.delta@ == digits(0)
    &&& row.rel_delta == ratio(0, 0)
    &&& row.n_claims == 0
    &&& row.status@ == status
}

fn blank_row(account_id: i64, near_account_id: String, status: String) -> (row: ReconRow)
    ensures
        is_blank_row(row, account_id, near_account_id@, status@),
{
    ReconRow {
        account_id,
        near_account_id,
        calculated_total_claim: write_u128(0),
        actual_total_claim: write_u128(0),
        delta: write_u128(0),
        rel_delta: Ratio { num: 0, den: 1 },
        n_claims: 0,
        status,
    }
}

/// `row` is the row of an account that gave none: a `failure:` with the whole message.
pub open spec fn is_failure_row(row: ReconRow, account_id: i64, message: Seq<char>) -> bool {
    is_blank_row(row, account_id, Seq::empty(), "failure:"@ + message)
}

/// The row of an account that gave none: a `failure:` with the whole message.
pub fn failure_row(account_id: i64, message: &str) -> (row: ReconRow)
    ensures
        is_failure_row(row, account_id, message@),
{
    let mut status = "failure:".to_owned();
    status.append(message);
    let near_account_id = "".to_owned();
    proof {
        reveal_strlit("");
        assert(near_account_id@ =~= Seq::<char>::empty());
    }
    blank_row(account_id, near_account_id, status)
}

/// `row` is the account's row, from what its rows load as. The source is asked only
/// where they load.
pub open spec fn is_row_of<F: FnOnce(Baseline, Timeline) -> EngineRun>(
    backend_account_id: i64,
    account: Option<AccountRow>,
    authoritative: bool,
    loaded: Result<(UserSlice, Timeline), LoadError>,
    engine: F,
    said: Questions,
    row: Result<ReconRow, ReconError>,
) -> bool {
    match loaded {
        Ok((slice, timeline)) => row matches Ok(made) && is_reconciled(
            authoritative,
            slice,
            timeline,
            engine,
            said,
            made,
        ),
        Err(LoadError::UnknownAccount) => said == Seq::<Question>::empty() && row == Err::<
            ReconRow,
            ReconError,
        >(ReconError::UnknownAccount),
        Err(error) => said == Seq::<Question>::empty() && (row matches Ok(made) && is_blank_row(
            made,
            backend_account_id,
            account->0.near_account_id@,
            failure_status(error.text(backend_account_id)),
        )),
    }
}

/// `row` is the account's row, from what the database holds of it and what the
/// source was asked and answered.
pub open spec fn is_reconciliation<F: FnOnce(Baseline, Timeline) -> EngineRun>(
    backend_account_id: i64,
    account: Option<AccountRow>,
    rows: Seq<EventRow>,
    migration: Option<Migration>,
    authoritative: bool,
    engine: F,
    said: Questions,
    row: Result<ReconRow, ReconError>,
) -> bool {
    exists|loaded: Result<(UserSlice, Timeline), LoadError>|
        #[trigger] is_load(backend_account_id, account, rows, migration, loaded) && is_row_of(
            backend_account_id,
            account,
            authoritative,
            loaded,
            engine,
            said,
            row,
        )
}

/// Reconciles one account from its rows. The source is always asked: what the
/// `accounts` table says of the account's age is not trusted on its own.
///
/// An account of the `accounts` table gives a row, whatever its history:
/// - `ok` or `no_baseline`: the replay went through;
/// - `error:<msg>`: the contract itself panicked on the account's history;
/// - `failure:<msg>`: there was no clean read of the account.
pub fn reconcile_user<S: SnapshotSource, F: FnOnce(Baseline, Timeline) -> EngineRun>(
    backend_account_id: i64,
    account: Option<AccountRow>,
    rows: Vec<EventRow>,
    migration: Option<Migration>,
    snapshot: &mut S,
    engine: F,
) -> (row: Result<ReconRow, ReconError>)
    requires
        forall|baseline: Baseline, events: Timeline| #[trigger]
            call_requires(engine, (baseline, events)),
    ensures
        old(snapshot).asked().is_prefix_of(final(snapshot).asked()),
        is_reconciliation(
            backend_account_id,
            account,
            rows@,
            migration,
            old(snapshot).authoritative(),
            engine,
            asked_since(old(snapshot).asked(), final(snapshot).asked()),
            row,
        ),
        row is Ok <==> account is Some,
{
    let ghost before = snapshot.asked();
    let ghost authoritative = snapshot.authoritative();
    assert(asked_since(before, before) =~= Seq::<Question>::empty());
    let near_account_id: String = match &account {
        Some(account) => account.near_account_id.clone(),
        None => {
            let loaded: Result<(UserSlice, Timeline), LoadError> = Err(LoadError::UnknownAccount);
            assert(is_load(backend_account_id, account, rows@, migration, loaded));
            return Err(ReconError::UnknownAccount);
        },
    };
    let loaded = load_user(backend_account_id, account, rows, migration);
    let ghost found = loaded;
    assert(is_load(backend_account_id, account, rows@, migration, found));
    let row = match loaded {
        Ok((slice, timeline)) => reconcile_loaded(snapshot, &slice, timeline, engine),
        Err(error) => {
            let message = error.describe(backend_account_id);
            blank_row(backend_account_id, near_account_id, failure(message.as_str()))
        },
    };
    assert(is_row_of(
        backend_account_id,
        account,
        authoritative,
        found,
        engine,
        asked_since(before, snapshot.asked()),
        Ok(row),
    ));
    Ok(row)
}

impl ReconError {
    /// Says what went wrong with the account `account_id`.
    pub fn describe(&self, account_id: i64) -> (text: String)
        ensures
            text@ == LoadError::UnknownAccount.text(account_id),
    {
        match self {
            ReconError::UnknownAccount => LoadError::UnknownAccount.describe(account_id),
        }
    }
}

/// The forms that a status has.
#[derive(Clone, Copy, Debug, PartialEq, Eq, Structural)]
pub enum StatusKind {
    Clean,
    NoBaseline,
    Error,
    Failure,
}

/// `status` has the form `kind`.
pub open spec fn has_kind(status: Seq<char>, kind: StatusKind) -> bool {
    match kind {
        StatusKind::Clean => status == "ok"@,
        StatusKind::NoBaseline => status == "no_baseline"@,
        StatusKind::Error => has_prefix(status, "error:"@),
        StatusKind::Failure => has_prefix(status, "failure:"@),
    }
}

/// The form of a status; `None` for a text that no row carries.
pub fn status_kind(status: &str) -> (kind: Option<StatusKind>)
    ensures
        match kind {
            Some(kind) => has_kind(status@, kind),
            None => forall|kind: StatusKind| !#[trigger] has_kind(status@, kind),
        },
{
    if same(status, "ok") {
        Some(StatusKind::Clean)
    } else if same(status, "no_baseline") {
        Some(StatusKind::NoBaseline)
    } else if starts_with(status, "error:") {
        Some(StatusKind::Error)
    } else if starts_with(status, "failure:") {
        Some(StatusKind::Failure)
    } else {
        None
    }
}

/// No status has two forms.
pub proof fn law_status_has_one_form(status: Seq<char>, a: StatusKind, b: StatusKind)
    requires
        has_kind(status, a),
        has_kind(status, b),
    ensures
        a == b,
{
    reveal_strlit("ok");
    reveal_strlit("no_baseline");
    reveal_strlit("error:");
    reveal_strlit("failure:");
    if has_prefix(status, "error:"@) {
        assert(status.subrange(0, 6)[0] == 'e');
        assert(status[0] == 'e');
    }
    if has_prefix(status, "failure:"@) {
        assert(status.subrange(0, 8)[0] == 'f');
        assert(status[0] == 'f');
    }
}

proof fn lemma_prefixed(prefix: Seq<char>, rest: Seq<char>)
    ensures
        has_prefix(prefix + rest, prefix),
{
    assert((prefix + rest).subrange(0, prefix.len() as int) =~= prefix);
}

proof fn lemma_failure_form(message: Seq<char>)
    ensures
        has_kind(failure_status(message), StatusKind::Failure),
{
    lemma_prefixed("failure:"@, truncated(message));
}

/// An account that the engine never ran for has a `failure:` row with nothing
/// calculated.
pub proof fn law_row_without_a_replay_is_a_failure(
    authoritative: bool,
    slice: UserSlice,
    timeline: Timeline,
    read: BaselineRead,
    said: Questions,
    row: ReconRow,
)
    requires
        is_prepared(authoritative, slice, timeline, read, said, Prepared::Row(row)),
    ensures
        has_kind(row.status@, StatusKind::Failure),
        is_zero_row(row, slice, row.status@),
{
    match read {
        BaselineRead::Panicked => {
            reveal_strlit("failure:snapshot panic");
            reveal_strlit("failure:");
            assert("failure:snapshot panic"@.subrange(0, 8) =~= "failure:"@);
        },
        BaselineRead::Failed(message) => {
            lemma_failure_form(message@);
        },
        BaselineRead::Read(_) => {
            reveal_strlit("failure:invalid near_account_id");
            reveal_strlit("failure:");
            assert("failure:invalid near_account_id"@.subrange(0, 8) =~= "failure:"@);
        },
    }
}

/// The form of a status tells how the run ended. A panic of the contract is an
/// `error:`, a panic that got out of the engine a `failure:`, and so is a total
/// past a signed number of 128 bits; without a baseline an account that the
/// contract does not know is no error.
pub proof fn law_status_tells_how_the_run_ended(
    slice: UserSlice,
    actual: u128,
    no_baseline: bool,
    run: EngineRun,
    row: ReconRow,
)
    requires
        is_concluded(slice, actual, no_baseline, run, row),
    ensures
        match run {
            EngineRun::Escaped(_) => has_kind(row.status@, StatusKind::Failure) && is_zero_row(
                row,
                slice,
                row.status@,
            ),
            EngineRun::Finished(outcome) => if outcome.total_claimed > i128::MAX || actual
                > i128::MAX {
                has_kind(row.status@, StatusKind::Failure) && is_zero_row(row, slice, row.status@)
            } else {
                has_kind(
                    row.status@,
                    match outcome.status {
                        ReplayStatus::Completed => if no_baseline {
                            StatusKind::NoBaseline
                        } else {
                            StatusKind::Clean
                        },
                        ReplayStatus::Error(message) => if no_baseline && occurs(
                            message@,
                            "is not found"@,
                        ) {
                            StatusKind::NoBaseline
                        } else {
                            StatusKind::Error
                        },
                    },
                )
            },
        },
{
    match run {
        EngineRun::Escaped(text) => {
            lemma_failure_form(
                match text {
                    Some(text) => text@,
                    None => "engine panic"@,
                },
            );
        },
        EngineRun::Finished(outcome) => {
            lemma_failure_form("calculated_total_claim exceeds i128"@);
            lemma_failure_form("actual_total_claim exceeds i128"@);
            if let ReplayStatus::Error(message) = outcome.status {
                lemma_prefixed("error:"@, truncated(message@));
            }
        },
    }
}

/// `row` compares an outcome of the engine on what the source's answers lead to.
pub open spec fn is_row_of_replay<F: FnOnce(Baseline, Timeline) -> EngineRun>(
    authoritative: bool,
    slice: UserSlice,
    engine: F,
    row: ReconRow,
    pending: PendingReplay,
    outcome: ReplayOutcome,
) -> bool {
    &&& call_ensures(engine, (pending.baseline, pending.timeline), EngineRun::Finished(outcome))
    &&& is_replayed_row(row, slice, pending.actual, pending.no_baseline, outcome)
    &&& outcome.total_claimed <= i128::MAX
    &&& pending.actual <= i128::MAX
    &&& pending.no_baseline == (pending.baseline.raw_account is None && !authoritative
        && slice.existed_at_start)
    &&& pending.baseline.account_id@ == slice.near_account_id@
    &&& pending.baseline.timezone_ms == slice.timezone_ms
}

/// Every row is either a `failure:` with nothing calculated, or compares an
/// outcome of the engine.
pub proof fn law_row_is_a_failure_or_a_replay<F: FnOnce(Baseline, Timeline) -> EngineRun>(
    authoritative: bool,
    slice: UserSlice,
    timeline: Timeline,
    engine: F,
    said: Questions,
    row: ReconRow,
)
    requires
        is_reconciled(authoritative, slice, timeline, engine, said, row),
    ensures
        (has_kind(row.status@, StatusKind::Failure) && is_zero_row(row, slice, row.status@))
            || exists|pending: PendingReplay, outcome: ReplayOutcome| #[trigger]
            is_row_of_replay(authoritative, slice, engine, row, pending, outcome),
{
    let (read, rest, prepared) = choose|
        read: BaselineRead,
        rest: Questions,
        prepared: Prepared,
    |
        said == seq![start_question(slice, read)] + rest && #[trigger] comes_of(
            authoritative,
            slice,
            timeline,
            engine,
            read,
            rest,
            prepared,
            row,
        );
    match prepared {
        Prepared::Row(made) => {
            law_row_without_a_replay_is_a_failure(
                authoritative,
                slice,
                timeline,
                read,
                rest,
                made,
            );
        },
        Prepared::Replay(pending) => {
            let run = choose|run: EngineRun| #[trigger]
                call_ensures(engine, (pending.baseline, pending.timeline), run) && is_concluded(
                    slice,
                    pending.actual,
                    pending.no_baseline,
                    run,
                    row,
                );
            law_status_tells_how_the_run_ended(
                slice,
                pending.actual,
                pending.no_baseline,
                run,
                row,
            );
            if let EngineRun::Finished(outcome) = run {
                assert(outcome.total_claimed <= i128::MAX && pending.actual <= i128::MAX
                    ==> is_row_of_replay(
                    authoritative,
                    slice,
                    engine,
                    row,
                    pending,
                    outcome,
                ));
            }
        },
    }
}

/// Every row that comes of an account has a status of one of the four forms.
pub proof fn law_every_row_has_a_form<F: FnOnce(Baseline, Timeline) -> EngineRun>(
    authoritative: bool,
    slice: UserSlice,
    timeline: Timeline,
    engine: F,
    said: Questions,
    row: ReconRow,
)
    requires
        is_reconciled(authoritative, slice, timeline, engine, said, row),
    ensures
        exists|kind: StatusKind| #[trigger] has_kind(row.status@, kind),
{
    law_row_is_a_failure_or_a_replay(authoritative, slice, timeline, engine, said, row);
    if !has_kind(row.status@, StatusKind::Failure) {
        let (pending, outcome) = choose|pending: PendingReplay, outcome: ReplayOutcome| #[trigger]
            is_row_of_replay(authoritative, slice, engine, row, pending, outcome);
        law_status_tells_how_the_run_ended(
            slice,
            pending.actual,
            pending.no_baseline,
            EngineRun::Finished(outcome),
            row,
        );
    }
}

/// Where the source knows of every account, no account lacks a baseline.
pub proof fn law_authority_leaves_no_gap<F: FnOnce(Baseline, Timeline) -> EngineRun>(
    authoritative: bool,
    slice: UserSlice,
    timeline: Timeline,
    engine: F,
    said: Questions,
    row: ReconRow,
)
    requires
        is_reconciled(authoritative, slice, timeline, engine, said, row),
        authoritative || !slice.existed_at_start,
    ensures
        !has_kind(row.status@, StatusKind::NoBaseline),
{
    law_row_is_a_failure_or_a_replay(authoritative, slice, timeline, engine, said, row);
    if has_kind(row.status@, StatusKind::Failure) {
        if has_kind(row.status@, StatusKind::NoBaseline) {
            law_status_has_one_form(row.status@, StatusKind::Failure, StatusKind::NoBaseline);
        }
    } else {
        let (pending, outcome) = choose|pending: PendingReplay, outcome: ReplayOutcome| #[trigger]
            is_row_of_replay(authoritative, slice, engine, row, pending, outcome);
        law_status_tells_how_the_run_ended(
            slice,
            pending.actual,
            pending.no_baseline,
            EngineRun::Finished(outcome),
            row,
        );
        if has_kind(row.status@, StatusKind::NoBaseline) {
            law_status_has_one_form(
                row.status@,
                StatusKind::NoBaseline,
                if outcome.status is Completed {
                    StatusKind::Clean
                } else {
                    StatusKind::Error
                },
            );
        }
    }
}

/// Where a source that does not know of every account has no state of one that
/// existed at the start of the window, the account's row is never `ok`.
pub proof fn law_gap_is_never_ok<F: FnOnce(Baseline, Timeline) -> EngineRun>(
    authoritative: bool,
    slice: UserSlice,
    timeline: Timeline,
    engine: F,
    said: Questions,
    row: ReconRow,
)
    requires
        is_reconciled(authoritative, slice, timeline, engine, said, row),
        !authoritative,
        slice.existed_at_start,
        said.len() > 0,
        said[0] == start_question(slice, BaselineRead::Read(None)),
    ensures
        !has_kind(row.status@, StatusKind::Clean),
{
    let (read, rest, prepared) = choose|
        read: BaselineRead,
        rest: Questions,
        prepared: Prepared,
    |
        said == seq![start_question(slice, read)] + rest && #[trigger] comes_of(
            authoritative,
            slice,
            timeline,
            engine,
            read,
            rest,
            prepared,
            row,
        );
    assert(said[0] == start_question(slice, read));
    let form = match prepared {
        Prepared::Row(made) => {
            law_row_without_a_replay_is_a_failure(
                authoritative,
                slice,
                timeline,
                read,
                rest,
                made,
            );
            StatusKind::Failure
        },
        Prepared::Replay(pending) => {
            let run = choose|run: EngineRun| #[trigger]
                call_ensures(engine, (pending.baseline, pending.timeline), run) && is_concluded(
                    slice,
                    pending.actual,
                    pending.no_baseline,
                    run,
                    row,
                );
            let found = choose|found: Recovered|
                falls_back_to(authoritative, slice, None, timeline, rest, found)
                    && #[trigger] is_prepared_from(authoritative, slice, found, prepared);
            law_known_state_is_left_alone(authoritative, slice, None, timeline, rest, found);
            assert(pending.no_baseline);
            law_status_tells_how_the_run_ended(
                slice,
                pending.actual,
                pending.no_baseline,
                run,
                row,
            );
            match run {
                EngineRun::Escaped(_) => StatusKind::Failure,
                EngineRun::Finished(_) => if has_kind(row.status@, StatusKind::NoBaseline) {
                    StatusKind::NoBaseline
                } else if has_kind(row.status@, StatusKind::Failure) {
                    StatusKind::Failure
                } else {
                    StatusKind::Error
                },
            }
        },
    };
    if has_kind(row.status@, StatusKind::Clean) {
        law_status_has_one_form(row.status@, form, StatusKind::Clean);
    }
}

/// The delta of every row is its calculated total less its actual total.
pub proof fn law_delta_is_calculated_less_actual<F: FnOnce(Baseline, Timeline) -> EngineRun>(
    authoritative: bool,
    slice: UserSlice,
    timeline: Timeline,
    engine: F,
    said: Questions,
    row: ReconRow,
)
    requires
        is_reconciled(authoritative, slice, timeline, engine, said, row),
        slice.onchain_claimed <= i128::MAX,
    ensures
        read_decimal(row.calculated_total_claim@) is Some,
        read_decimal(row.actual_total_claim@) is Some,
        row.delta@ == signed_digits(
            read_decimal(row.calculated_total_claim@)->0 - read_decimal(
                row.actual_total_claim@,
            )->0,
        ),
{
    law_row_is_a_failure_or_a_replay(authoritative, slice, timeline, engine, said, row);
    if has_kind(row.status@, StatusKind::Failure) && is_zero_row(row, slice, row.status@) {
        law_digits_read_back(0);
        law_digits_read_back(slice.onchain_claimed as nat);
    } else {
        let (pending, outcome) = choose|pending: PendingReplay, outcome: ReplayOutcome| #[trigger]
            is_row_of_replay(authoritative, slice, engine, row, pending, outcome);
        law_digits_read_back(outcome.total_claimed as nat);
        law_digits_read_back(pending.actual as nat);
    }
}

/// The actual total of every row is the account's on-chain total, less at most
/// the claim that its first event is.
pub proof fn law_only_the_first_claim_comes_off<F: FnOnce(Baseline, Timeline) -> EngineRun>(
    authoritative: bool,
    slice: UserSlice,
    timeline: Timeline,
    engine: F,
    said: Questions,
    row: ReconRow,
)
    requires
        is_reconciled(authoritative, slice, timeline, engine, said, row),
        slice.fits(timeline),
    ensures
        row.actual_total_claim@ == digits(slice.onchain_claimed as nat)
            || slice.first_event_claim_amount is Some && row.actual_total_claim@ == digits(
            (slice.onchain_claimed - slice.first_event_claim_amount->0) as nat,
        ),
{
    let (read, rest, prepared) = choose|
        read: BaselineRead,
        rest: Questions,
        prepared: Prepared,
    |
        said == seq![start_question(slice, read)] + rest && #[trigger] comes_of(
            authoritative,
            slice,
            timeline,
            engine,
            read,
            rest,
            prepared,
            row,
        );
    match prepared {
        Prepared::Row(made) => {
            law_row_without_a_replay_is_a_failure(
                authoritative,
                slice,
                timeline,
                read,
                rest,
                made,
            );
        },
        Prepared::Replay(pending) => {
            let raw_account = read->Read_0;
            let found = choose|found: Recovered|
                falls_back_to(authoritative, slice, raw_account, timeline, rest, found)
                    && #[trigger] is_prepared_from(authoritative, slice, found, prepared);
            law_only_the_first_event_is_left_out(
                authoritative,
                slice,
                raw_account,
                timeline,
                rest,
                found,
            );
        },
    }
}

/// An `error:` and a `failure:` row carry nothing calculated, no claims, and the
/// whole actual total as their delta.
pub proof fn law_bad_rows_calculate_nothing<F: FnOnce(Baseline, Timeline) -> EngineRun>(
    authoritative: bool,
    slice: UserSlice,
    timeline: Timeline,
    engine: F,
    said: Questions,
    row: ReconRow,
)
    requires
        is_reconciled(authoritative, slice, timeline, engine, said, row),
        slice.onchain_claimed <= i128::MAX,
        forall|baseline: Baseline, events: Timeline, outcome: ReplayOutcome| #[trigger]
            call_ensures(engine, (baseline, events), EngineRun::Finished(outcome))
                ==> is_consistent(outcome),
        has_kind(row.status@, StatusKind::Error) || has_kind(row.status@, StatusKind::Failure),
    ensures
        row.calculated_total_claim@ == digits(0),
        row.n_claims == 0,
        read_decimal(row.actual_total_claim@) is Some,
        row.delta@ == signed_digits(-(read_decimal(row.actual_total_claim@)->0)),
{
    law_row_is_a_failure_or_a_replay(authoritative, slice, timeline, engine, said, row);
    law_delta_is_calculated_less_actual(authoritative, slice, timeline, engine, said, row);
    law_digits_read_back(0);
    if !(has_kind(row.status@, StatusKind::Failure) && is_zero_row(row, slice, row.status@)) {
        let (pending, outcome) = choose|pending: PendingReplay, outcome: ReplayOutcome| #[trigger]
            is_row_of_replay(authoritative, slice, engine, row, pending, outcome);
        law_status_tells_how_the_run_ended(
            slice,
            pending.actual,
            pending.no_baseline,
            EngineRun::Finished(outcome),
            row,
        );
        if outcome.status is Completed {
            law_status_has_one_form(
                row.status@,
                if has_kind(row.status@, StatusKind::Error) {
                    StatusKind::Error
                } else {
                    StatusKind::Failure
                },
                if pending.no_baseline {
                    StatusKind::NoBaseline
                } else {
                    StatusKind::Clean
                },
            );
        }
        assert(is_consistent(outcome));
    }
}

/// Every account of the `accounts` table gives a row, whatever its history, the
/// source and the engine. The row carries the account's own id and name, and its
/// status has one of the four forms.
pub proof fn law_known_account_gives_a_row<F: FnOnce(Baseline, Timeline) -> EngineRun>(
    backend_account_id: i64,
    account: Option<AccountRow>,
    rows: Seq<EventRow>,
    migration: Option<Migration>,
    authoritative: bool,
    engine: F,
    said: Questions,
    row: Result<ReconRow, ReconError>,
)
    requires
        is_reconciliation(
            backend_account_id,
            account,
            rows,
            migration,
            authoritative,
            engine,
            said,
            row,
        ),
    ensures
        account is Some ==> row is Ok,
        account is None ==> row is Err,
        row matches Ok(made) ==> made.account_id == backend_account_id
            && made.near_account_id@ == account->0.near_account_id@
            && exists|kind: StatusKind| #[trigger] has_kind(made.status@, kind),
{
    let loaded = choose|loaded: Result<(UserSlice, Timeline), LoadError>|
        #[trigger] is_load(backend_account_id, account, rows, migration, loaded) && is_row_of(
            backend_account_id,
            account,
            authoritative,
            loaded,
            engine,
            said,
            row,
        );
    if let Ok((slice, timeline)) = loaded {
        law_row_is_a_failure_or_a_replay(authoritative, slice, timeline, engine, said, row->Ok_0);
        law_every_row_has_a_form(authoritative, slice, timeline, engine, said, row->Ok_0);
        if !is_zero_row(row->Ok_0, slice, row->Ok_0.status@) {
            let (pending, outcome) = choose|pending: PendingReplay, outcome: ReplayOutcome|
                #[trigger]
                is_row_of_replay(authoritative, slice, engine, row->Ok_0, pending, outcome);
            assert(is_replayed_row(
                row->Ok_0,
                slice,
                pending.actual,
                pending.no_baseline,
                outcome,
            ));
        }
    } else if let Err(error) = loaded {
        lemma_failure_form(error.text(backend_account_id));
    }
}

/// An account whose rows do not load gives a `failure:` row.
pub proof fn law_faulty_history_is_a_failure<F: FnOnce(Baseline, Timeline) -> EngineRun>(
    backend_account_id: i64,
    account: Option<AccountRow>,
    rows: Seq<EventRow>,
    migration: Option<Migration>,
    authoritative: bool,
    engine: F,
    said: Questions,
    row: Result<ReconRow, ReconError>,
    i: int,
)
    requires
        is_reconciliation(
            backend_account_id,
            account,
            rows,
            migration,
            authoritative,
            engine,
            said,
            row,
        ),
        account is Some,
        0 <= i < rows.len(),
        is_fault(rows, i),
    ensures
        row is Ok,
        has_kind(row->Ok_0.status@, StatusKind::Failure),
{
    let loaded = choose|loaded: Result<(UserSlice, Timeline), LoadError>|
        #[trigger] is_load(backend_account_id, account, rows, migration, loaded) && is_row_of(
            backend_account_id,
            account,
            authoritative,
            loaded,
            engine,
            said,
            row,
        );
    if let Err(error) = loaded {
        lemma_failure_form(error.text(backend_account_id));
    }
}

/// Appends `n` in decimal to `text`.
fn append_number(text: &mut String, n: i128)
    ensures
        final(text)@ == old(text)@ + signed_digits(n as int),
{
    let number = write_i128(n);
    text.append(number.as_str());
}

/// How long the parts of one reconciliation took, in microseconds.
#[derive(Clone, Copy, Debug, PartialEq, Eq, Structural)]
pub struct Timing {
    pub load_us: u128,
    pub fetch_us: u128,
    pub replay_us: u128,
}

impl Default for Timing {
    fn default() -> (timing: Self)
        ensures
            timing == (Timing { load_us: 0, fetch_us: 0, replay_us: 0 }),
    {
        Timing { load_us: 0, fetch_us: 0, replay_us: 0 }
    }
}

impl Timing {
    /// The parts and their sum can be told in 128 bits.
    pub open spec fn is_sane(&self) -> bool {
        self.load_us + self.fetch_us + self.replay_us <= u128::MAX
    }

    /// The text of the line that tells how long the account took.
    pub open spec fn text(&self, account_id: i64, status: Seq<char>) -> Seq<char> {
        "TIMING account="@ + signed_digits(account_id as int) + " status="@ + status
            + self.parts_text()
    }

    /// How long each part took, and all of them together.
    pub open spec fn parts_text(&self) -> Seq<char> {
        " load_us="@ + digits(self.load_us as nat) + " fetch_us="@ + digits(self.fetch_us as nat)
            + " replay_us="@ + digits(self.replay_us as nat) + " total_us="@ + digits(
            (self.load_us + self.fetch_us + self.replay_us) as nat,
        )
    }

    /// The line that tells how long the account took.
    pub fn line(&self, account_id: i64, status: &str) -> (line: String)
        requires
            self.is_sane(),
        ensures
            line@ == self.text(account_id, status@),
    {
        let total: u128 = self.load_us + self.fetch_us + self.replay_us;
        let mut line = "TIMING account=".to_owned();
        append_number(&mut line, account_id as i128);
        line.append(" status=");
        line.append(status);
        line.append(" load_us=");
        let load = write_u128(self.load_us);
        line.append(load.as_str());
        line.append(" fetch_us=");
        let fetch = write_u128(self.fetch_us);
        line.append(fetch.as_str());
        line.append(" replay_us=");
        let replay = write_u128(self.replay_us);
        line.append(replay.as_str());
        line.append(" total_us=");
        let sum = write_u128(total);
        line.append(sum.as_str());
        assert(line@ =~= self.text(account_id, status@));
        line
    }
}

} // verus!
