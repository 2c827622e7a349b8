//! From the rows of one account to the timeline that is replayed.

use vstd::prelude::*;
use vstd::string::StringExecFns;

use crate::decimal::{digits, signed_digits, write_i128, write_u128};
use crate::engine::{Action, Event, Score, Timeline};
use crate::order::{at_or_before, in_order, is_stable_sort, stable_sort, Position, Positioned};

verus! {

/// An event as its payload tells it.
#[derive(Clone, Debug)]
pub enum ParsedEvent {
    /// `(score, local_ts)` pairs. The time is the account's local time, which
    /// is what the chain puts into its event.
    RecordScore(Vec<(Score, u64)>),
    ApplyBooster { score: Score, timestamp_ms: u64 },
    Deposit { product_id: String, amount: u128 },
    WithdrawAll { product_ids: Vec<String> },
    /// `from` is the set of jars that the restake consumed.
    Restake { into: String, from: Vec<String>, restaked: u128 },
    SetIncreasedScoreCap(bool),
    /// `total` is the sum of the payload's items, `timestamp_ms` the time that
    /// the claim ran at.
    Claim { total: u128, timestamp_ms: u64 },
}

/// What reading a payload gave.
#[derive(Clone, Debug)]
pub enum Payload {
    /// Nothing to replay.
    Skipped,
    Malformed(String),
    Parsed(ParsedEvent),
}

/// One row of the `events` table, its payload read.
#[derive(Clone, Debug)]
pub struct EventRow {
    pub ts_ms: u64,
    pub log_index: u64,
    /// The event's name.
    pub event: String,
    pub block_height: u64,
    pub payload: Payload,
}

/// One row of the `accounts` table.
#[derive(Clone, Debug)]
pub struct AccountRow {
    pub near_account_id: String,
    pub existed_at_start: bool,
    pub timezone_ms: Option<i64>,
}

/// One row of the `migrations` table: the block at which the account was merged
/// into the contract, and the bytes that were written, where they are known.
#[derive(Clone, Debug)]
pub struct Migration {
    pub block_height: u64,
    pub raw_account: Option<Vec<u8>>,
}

/// One account's on-chain summary.
#[derive(Clone, Debug)]
pub struct UserSlice {
    pub backend_account_id: i64,
    pub near_account_id: String,
    pub existed_at_start: bool,
    pub timezone_ms: Option<i64>,
    /// Sum of every `claim` event's payload in the replay window.
    pub onchain_claimed: u128,
    /// Block height of the timeline's first event, if it has any events.
    pub first_event_block_height: Option<u64>,
    /// The on-chain amount of the first event, if it is a `Claim`.
    pub first_event_claim_amount: Option<u128>,
    pub migration: Option<Migration>,
}

impl UserSlice {
    /// The slice tells the truth about the first event of `timeline`.
    pub open spec fn describes(&self, timeline: Timeline) -> bool {
        &&& self.first_event_block_height is Some <==> timeline.events@.len() > 0
        &&& self.first_event_claim_amount is Some <==> timeline.events@.len() > 0
            && timeline.events@[0].action is Claim
        &&& self.first_event_claim_amount matches Some(amount) ==> amount <= self.onchain_claimed
    }

    /// Where the slice knows the block of a first event there is one, and a
    /// leading claim is no more than the on-chain total.
    pub open spec fn fits(&self, timeline: Timeline) -> bool {
        &&& self.first_event_block_height is Some ==> timeline.events@.len() > 0
        &&& timeline.events@.len() > 0 && timeline.events@[0].action is Claim ==> (
        self.first_event_claim_amount matches Some(amount) ==> amount <= self.onchain_claimed)
    }
}

/// Why an account could not be loaded.
#[derive(Debug)]
pub enum LoadError {
    UnknownAccount,
    /// The payload of the event `event` at block time `ts_ms` does not read.
    Payload { ts_ms: u64, event: String, message: String },
    /// The on-chain claims add up to more than 128 bits hold.
    ClaimOverflow,
}

impl LoadError {
    /// What the error says of the account `account_id`.
    pub open spec fn text(&self, account_id: i64) -> Seq<char> {
        match self {
            LoadError::UnknownAccount => "account "@ + signed_digits(account_id as int)
                + " not in accounts table"@,
            LoadError::Payload { ts_ms, event, .. } => "account "@ + signed_digits(
                account_id as int,
            ) + " ts "@ + digits(*ts_ms as nat) + " event "@ + event@,
            LoadError::ClaimOverflow => "onchain_claimed overflow"@,
        }
    }

    /// Says what went wrong with the account `account_id`.
    pub fn describe(&self, account_id: i64) -> (text: String)
        ensures
            text@ == self.text(account_id),
    {
        match self {
            LoadError::UnknownAccount => {
                let mut text = "account ".to_owned();
                let id = write_i128(account_id as i128);
                text.append(id.as_str());
                text.append(" not in accounts table");
                text
            },
            LoadError::Payload { ts_ms, event, .. } => {
                let mut text = "account ".to_owned();
                let id = write_i128(account_id as i128);
                text.append(id.as_str());
                text.append(" ts ");
                let ts = write_u128(*ts_ms as u128);
                text.append(ts.as_str());
                text.append(" event ");
                text.append(event.as_str());
                text
            },
            LoadError::ClaimOverflow => "onchain_claimed overflow".to_owned(),
        }
    }
}

/// An event with the block it ran in and, where it is a claim, what it paid.
pub struct LoadedEvent {
    pub event: Event,
    pub block_height: u64,
    pub claim: Option<u128>,
}

impl Positioned for LoadedEvent {
    open spec fn spec_position(&self) -> Position {
        self.event.spec_position()
    }

    fn position(&self) -> (position: Position) {
        self.event.position()
    }
}

/// The offset to take off a local time; an account without a timezone has none.
pub open spec fn utc_shift(timezone_ms: Option<i64>) -> int {
    match timezone_ms {
        Some(tz) => if tz == i64::MIN {
            0
        } else {
            tz as int
        },
        None => 0,
    }
}

/// The UTC time of an increment: its local time less the timezone, no less than
/// zero and no later than the block that recorded it.
pub open spec fn increment_time(local_ts: u64, timezone_ms: Option<i64>, ts_ms: u64) -> u64 {
    let utc = local_ts - utc_shift(timezone_ms);
    if utc < 0 {
        0
    } else if utc > ts_ms {
        ts_ms
    } else {
        utc as u64
    }
}

/// `increments` are the pairs, each at its UTC time.
pub open spec fn are_increments(
    increments: Seq<(Score, u64)>,
    pairs: Seq<(Score, u64)>,
    timezone_ms: Option<i64>,
    ts_ms: u64,
) -> bool {
    &&& increments.len() == pairs.len()
    &&& forall|i: int|
        0 <= i < pairs.len() ==> #[trigger] increments[i] == (
            pairs[i].0,
            increment_time(pairs[i].1, timezone_ms, ts_ms),
        )
}

/// `action` is what replays `parsed`, which ran at block time `ts_ms`.
pub open spec fn replays_as(
    parsed: ParsedEvent,
    ts_ms: u64,
    timezone_ms: Option<i64>,
    action: Action,
) -> bool {
    match parsed {
        ParsedEvent::RecordScore(pairs) => action matches Action::RecordScore(increments)
            && are_increments(increments@, pairs@, timezone_ms, ts_ms),
        ParsedEvent::ApplyBooster { score, timestamp_ms } => action == (Action::ApplyBooster {
            score,
            timestamp_ms: if timestamp_ms < ts_ms {
                timestamp_ms
            } else {
                ts_ms
            },
        }),
        ParsedEvent::Deposit { product_id, amount } => action == (Action::Deposit {
            product_id,
            amount,
        }),
        ParsedEvent::WithdrawAll { product_ids } => action == (Action::WithdrawAll { product_ids }),
        ParsedEvent::Restake { into, from, restaked } => if from@.len() == 1 {
            action == (Action::Restake { from: from@[0], into, amount: restaked })
        } else {
            action == (Action::RestakeAll { product_id: into, amount: restaked })
        },
        ParsedEvent::SetIncreasedScoreCap(enabled) => action == Action::SetIncreasedScoreCap(
            enabled,
        ),
        ParsedEvent::Claim { total, timestamp_ms } => action == (Action::Claim { timestamp_ms }),
    }
}

/// What a row paid out: the total of a claim, else nothing.
pub open spec fn claim_total(row: EventRow) -> Option<u128> {
    match row.payload {
        Payload::Parsed(ParsedEvent::Claim { total, .. }) => Some(total),
        _ => None,
    }
}

/// `loaded` is the row's event.
pub open spec fn loads_as(row: EventRow, timezone_ms: Option<i64>, loaded: LoadedEvent) -> bool {
    &&& loaded.event.ts_ms == row.ts_ms
    &&& loaded.event.seq == row.log_index
    &&& loaded.block_height == row.block_height
    &&& loaded.claim == claim_total(row)
    &&& row.payload matches Payload::Parsed(parsed) && replays_as(
        parsed,
        row.ts_ms,
        timezone_ms,
        loaded.event.action,
    )
}

/// The rows that have something to replay.
pub open spec fn replayable(rows: Seq<EventRow>) -> Seq<EventRow> {
    rows.filter(|row: EventRow| row.payload is Parsed)
}

/// `loaded` holds the event of each row that has one, in the order of the rows.
pub open spec fn are_loaded(
    rows: Seq<EventRow>,
    timezone_ms: Option<i64>,
    loaded: Seq<LoadedEvent>,
) -> bool {
    &&& loaded.len() == replayable(rows).len()
    &&& forall|i: int|
        0 <= i < loaded.len() ==> loads_as(
            replayable(rows)[i],
            timezone_ms,
            #[trigger] loaded[i],
        )
}

/// The sum of what the rows paid out.
pub open spec fn claimed_total(rows: Seq<EventRow>) -> nat
    decreases rows.len(),
{
    if rows.len() == 0 {
        0
    } else {
        claimed_total(rows.drop_last()) + match claim_total(rows.last()) {
            Some(total) => total as nat,
            None => 0,
        }
    }
}

/// The row at `i` does not read, or its claim takes the sum past 128 bits.
pub open spec fn is_fault(rows: Seq<EventRow>, i: int) -> bool {
    ||| rows[i].payload is Malformed
    ||| claim_total(rows[i]) is Some && claimed_total(rows.take(i + 1)) > u128::MAX
}

/// The row at `i` is the first that stops the load.
pub open spec fn is_first_fault(rows: Seq<EventRow>, i: int) -> bool {
    &&& 0 <= i < rows.len()
    &&& is_fault(rows, i)
    &&& forall|k: int| 0 <= k < i ==> !#[trigger] is_fault(rows, k)
}

/// The last deposit at or before `from` in the block at `height`.
pub open spec fn last_deposit(events: Seq<LoadedEvent>, height: u64, from: int) -> Option<int>
    decreases from + 1,
{
    if from < 0 {
        None
    } else if events[from].event.action is Deposit && events[from].block_height == height {
        Some(from)
    } else {
        last_deposit(events, height, from - 1)
    }
}

/// A deposit and the booster that was applied in its block, as one airdrop at
/// the place of the deposit.
pub open spec fn joined(deposit: LoadedEvent, booster: LoadedEvent) -> LoadedEvent {
    LoadedEvent {
        event: Event {
            ts_ms: deposit.event.ts_ms,
            seq: deposit.event.seq,
            action: Action::AirdropWithBooster {
                product_id: deposit.event.action->Deposit_product_id,
                amount: deposit.event.action->Deposit_amount,
                score: booster.event.action->ApplyBooster_score,
                timestamp_ms: booster.event.action->ApplyBooster_timestamp_ms,
            },
        },
        block_height: deposit.block_height,
        claim: None,
    }
}

/// The events with every booster joined to the last deposit before it in the
/// same block that no booster was joined to yet.
pub open spec fn merged(events: Seq<LoadedEvent>) -> Seq<LoadedEvent>
    decreases events.len(),
{
    if events.len() == 0 {
        Seq::empty()
    } else {
        let done = merged(events.drop_last());
        let next = events.last();
        if next.event.action is ApplyBooster {
            match last_deposit(done, next.block_height, done.len() - 1) {
                Some(at) => done.update(at, joined(done[at], next)),
                None => done.push(next),
            }
        } else {
            done.push(next)
        }
    }
}

/// The events alone.
pub open spec fn events_of(loaded: Seq<LoadedEvent>) -> Seq<Event> {
    loaded.map_values(|l: LoadedEvent| l.event)
}

pub(crate) proof fn lemma_last_deposit(events: Seq<LoadedEvent>, height: u64, from: int)
    requires
        from < events.len(),
    ensures
        match last_deposit(events, height, from) {
            Some(at) => 0 <= at <= from && events[at].event.action is Deposit
                && events[at].block_height == height,
            None => forall|i: int|
                0 <= i <= from ==> !((#[trigger] events[i]).event.action is Deposit
                    && events[i].block_height == height),
        },
    decreases from + 1,
{
    if from >= 0 && !(events[from].event.action is Deposit && events[from].block_height
        == height) {
        lemma_last_deposit(events, height, from - 1);
    }
}

/// The times of a score report, each recovered to UTC and held to the block.
fn increments_of(pairs: Vec<(Score, u64)>, timezone_ms: Option<i64>, ts_ms: u64) -> (increments:
    Vec<(Score, u64)>)
    ensures
        are_increments(increments@, pairs@, timezone_ms, ts_ms),
{
    let shift: i128 = match timezone_ms {
        Some(tz) => if tz == i64::MIN {
            0
        } else {
            tz as i128
        },
        None => 0,
    };
    let mut increments: Vec<(Score, u64)> = Vec::new();
    let mut i: usize = 0;
    while i < pairs.len()
        invariant
            i <= pairs@.len(),
            i64::MIN <= shift <= i64::MAX,
            shift == utc_shift(timezone_ms),
            increments@.len() == i,
            forall|k: int|
                0 <= k < i ==> #[trigger] increments@[k] == (
                    pairs@[k].0,
                    increment_time(pairs@[k].1, timezone_ms, ts_ms),
                ),
        decreases pairs@.len() - i,
    {
        let (score, local_ts): (Score, u64) = pairs[i];
        let utc: i128 = local_ts as i128 - shift;
        let held: u64 = if utc < 0 {
            0
        } else if utc > ts_ms as i128 {
            ts_ms
        } else {
            utc as u64
        };
        increments.push((score, held));
        i = i + 1;
    }
    increments
}

/// The action that replays a parsed event.
fn action_of(parsed: ParsedEvent, ts_ms: u64, timezone_ms: Option<i64>) -> (action: Action)
    ensures
        replays_as(parsed, ts_ms, timezone_ms, action),
{
    match parsed {
        ParsedEvent::RecordScore(pairs) => Action::RecordScore(
            increments_of(pairs, timezone_ms, ts_ms),
        ),
        ParsedEvent::ApplyBooster { score, timestamp_ms } => Action::ApplyBooster {
            score,
            timestamp_ms: if timestamp_ms < ts_ms {
                timestamp_ms
            } else {
                ts_ms
            },
        },
        ParsedEvent::Deposit { product_id, amount } => Action::Deposit { product_id, amount },
        ParsedEvent::WithdrawAll { product_ids } => Action::WithdrawAll { product_ids },
        ParsedEvent::Restake { into, from, restaked } => {
            let mut from = from;
            if from.len() == 1 {
                let single = from.remove(0);
                Action::Restake { from: single, into, amount: restaked }
            } else {
                Action::RestakeAll { product_id: into, amount: restaked }
            }
        },
        ParsedEvent::SetIncreasedScoreCap(enabled) => Action::SetIncreasedScoreCap(enabled),
        ParsedEvent::Claim { total, timestamp_ms } => Action::Claim { timestamp_ms },
    }
}

/// Joins every booster to the deposit that was airdropped with it.
fn merge(events: Vec<LoadedEvent>) -> (out: Vec<LoadedEvent>)
    ensures
        out@ == merged(events@),
{
    let ghost all = events@;
    let mut out: Vec<LoadedEvent> = Vec::new();
    assert(all.take(0) =~= Seq::<LoadedEvent>::empty());
    for next in it: events
        invariant
            it.seq() == all,
            out@ == merged(all.take(it.index() as int)),
    {
        let ghost k = it.index() as int;
        let ghost before = out@;
        assert(all.take(k + 1).drop_last() =~= all.take(k));
        assert(all.take(k + 1).last() == next);
        if let Action::ApplyBooster { score, timestamp_ms } = next.event.action {
            let mut at: usize = out.len();
            while at > 0 && !is_deposit_in(&out[at - 1], next.block_height)
                invariant
                    at <= out@.len(),
                    out@ == before,
                    last_deposit(before, next.block_height, before.len() - 1) == last_deposit(
                        before,
                        next.block_height,
                        at - 1,
                    ),
                decreases at,
            {
                at = at - 1;
            }
            if at > 0 {
                let deposit = out.remove(at - 1);
                let ghost old_deposit = deposit;
                let LoadedEvent { event, block_height, claim } = deposit;
                if let Action::Deposit { product_id, amount } = event.action {
                    let airdrop = LoadedEvent {
                        event: Event {
                            ts_ms: event.ts_ms,
                            seq: event.seq,
                            action: Action::AirdropWithBooster {
                                product_id,
                                amount,
                                score,
                                timestamp_ms,
                            },
                        },
                        block_height,
                        claim: None,
                    };
                    assert(airdrop == joined(old_deposit, next));
                    out.insert(at - 1, airdrop);
                    assert(out@ =~= before.update(at - 1, airdrop));
                }
            } else {
                assert(last_deposit(before, next.block_height, -1) is None);
                out.push(next);
            }
        } else {
            out.push(next);
        }
    }
    assert(all.take(all.len() as int) =~= all);
    out
}

fn is_deposit_in(loaded: &LoadedEvent, height: u64) -> (yes: bool)
    ensures
        yes == (loaded.event.action is Deposit && loaded.block_height == height),
{
    match loaded.event.action {
        Action::Deposit { .. } => loaded.block_height == height,
        _ => false,
    }
}

/// `sorted` holds the events of the rows in replay order.
pub open spec fn is_sorted_load(
    rows: Seq<EventRow>,
    timezone_ms: Option<i64>,
    sorted: Seq<LoadedEvent>,
) -> bool {
    exists|loaded: Seq<LoadedEvent>|
        are_loaded(rows, timezone_ms, loaded) && #[trigger] is_stable_sort(loaded, sorted)
}

/// `m` is one of the events, or a deposit of theirs joined with a later booster
/// of the same block.
pub open spec fn comes_from(events: Seq<LoadedEvent>, m: LoadedEvent) -> bool {
    ||| exists|i: int| 0 <= i < events.len() && m == #[trigger] events[i]
    ||| exists|i: int, j: int|
        0 <= i < j < events.len() && #[trigger] is_airdrop_pair(events[i], events[j]) && m
            == joined(events[i], events[j])
}

/// A deposit and a booster of one block.
pub open spec fn is_airdrop_pair(deposit: LoadedEvent, booster: LoadedEvent) -> bool {
    &&& deposit.event.action is Deposit
    &&& booster.event.action is ApplyBooster
    &&& deposit.block_height == booster.block_height
}

/// Merging makes nothing up: every event of the result is an event of the
/// chain, or a deposit joined with a later booster of its block. The result is
/// no longer than the events.
pub proof fn law_merged_events_come_from_the_chain(events: Seq<LoadedEvent>)
    ensures
        merged(events).len() <= events.len(),
        forall|k: int|
            0 <= k < merged(events).len() ==> comes_from(events, #[trigger] merged(events)[k]),
    decreases events.len(),
{
    if events.len() > 0 {
        let prior = events.drop_last();
        let done = merged(prior);
        let next = events.last();
        let out = merged(events);
        law_merged_events_come_from_the_chain(prior);
        lemma_last_deposit(done, next.block_height, done.len() - 1);
        assert(events[events.len() - 1] == next);
        assert forall|k: int| 0 <= k < out.len() implies comes_from(events, #[trigger] out[k]) by {
            let partner = last_deposit(done, next.block_height, done.len() - 1);
            if next.event.action is ApplyBooster && partner == Some(k) {
                assert(comes_from(prior, done[k]));
                let i = choose|i: int| 0 <= i < prior.len() && done[k] == #[trigger] prior[i];
                assert(events[i] == prior[i]);
                assert(is_airdrop_pair(events[i], events[events.len() - 1]));
            } else if k < done.len() {
                assert(out[k] == done[k]);
                assert(comes_from(prior, done[k]));
                if exists|i: int| 0 <= i < prior.len() && done[k] == #[trigger] prior[i] {
                    let i = choose|i: int| 0 <= i < prior.len() && done[k] == #[trigger] prior[i];
                    assert(events[i] == prior[i]);
                } else {
                    let (i, j) = choose|i: int, j: int|
                        0 <= i < j < prior.len() && #[trigger] is_airdrop_pair(prior[i], prior[j])
                            && done[k] == joined(prior[i], prior[j]);
                    assert(events[i] == prior[i] && events[j] == prior[j]);
                    assert(is_airdrop_pair(events[i], events[j]));
                }
            }
        }
    }
}

/// A deposit and a later booster of the same block never replay apart.
pub proof fn law_no_airdrop_pair_is_left(events: Seq<LoadedEvent>)
    ensures
        forall|i: int, j: int|
            0 <= i < j < merged(events).len() ==> !#[trigger] is_airdrop_pair(
                merged(events)[i],
                merged(events)[j],
            ),
    decreases events.len(),
{
    if events.len() > 0 {
        let done = merged(events.drop_last());
        let next = events.last();
        let out = merged(events);
        law_no_airdrop_pair_is_left(events.drop_last());
        lemma_last_deposit(done, next.block_height, done.len() - 1);
        assert forall|i: int, j: int| 0 <= i < j < out.len() implies !#[trigger] is_airdrop_pair(
            out[i],
            out[j],
        ) by {
            if j < done.len() {
                assert(!is_airdrop_pair(done[i], done[j]));
            }
        }
    }
}

/// Merging leaves the rest alone: the events that are no deposit and no booster
/// keep their places among each other, and none is lost.
pub proof fn law_merging_leaves_other_events_alone(events: Seq<LoadedEvent>)
    requires
        forall|i: int|
            0 <= i < events.len() ==> !((#[trigger] events[i]).event.action is AirdropWithBooster),
    ensures
        merged(events).filter(|e: LoadedEvent| is_other(e)) == events.filter(
            |e: LoadedEvent| is_other(e),
        ),
    decreases events.len(),
{
    reveal_with_fuel(Seq::filter, 3);
    let pred = |e: LoadedEvent| is_other(e);
    if events.len() > 0 {
        let prior = events.drop_last();
        let done = merged(prior);
        let next = events.last();
        assert(events[events.len() - 1] == next);
        assert forall|i: int| 0 <= i < prior.len() implies !((
        #[trigger] prior[i]).event.action is AirdropWithBooster) by {
            assert(prior[i] == events[i]);
        }
        law_merging_leaves_other_events_alone(prior);
        lemma_last_deposit(done, next.block_height, done.len() - 1);
        assert(done.push(next).drop_last() =~= done);
        if next.event.action is ApplyBooster {
            match last_deposit(done, next.block_height, done.len() - 1) {
                Some(at) => {
                    let head = done.take(at);
                    let tail = done.skip(at + 1);
                    let old_one = seq![done[at]];
                    let new_one = seq![joined(done[at], next)];
                    assert(done =~= head + old_one + tail);
                    assert(merged(events) =~= head + new_one + tail);
                    Seq::filter_distributes_over_add(head + old_one, tail, pred);
                    Seq::filter_distributes_over_add(head, old_one, pred);
                    Seq::filter_distributes_over_add(head + new_one, tail, pred);
                    Seq::filter_distributes_over_add(head, new_one, pred);
                    assert(old_one.drop_last() =~= Seq::<LoadedEvent>::empty());
                    assert(new_one.drop_last() =~= Seq::<LoadedEvent>::empty());
                    assert(old_one.filter(pred) =~= Seq::<LoadedEvent>::empty());
                    assert(new_one.filter(pred) =~= Seq::<LoadedEvent>::empty());
                },
                None => {},
            }
        }
    }
}

/// Neither a deposit nor a booster, nor both.
pub open spec fn is_other(e: LoadedEvent) -> bool {
    !(e.event.action is Deposit || e.event.action is ApplyBooster
        || e.event.action is AirdropWithBooster)
}

/// Merging keeps the replay order.
pub proof fn law_merging_keeps_the_order(events: Seq<LoadedEvent>)
    requires
        in_order(events),
    ensures
        in_order(merged(events)),
        in_order(events_of(merged(events))),
{
    lemma_merged_in_order(events);
    let out = merged(events);
    let alone = events_of(out);
    assert forall|i: int, j: int| 0 <= i <= j < alone.len() implies at_or_before(
        (#[trigger] alone[i]).spec_position(),
        (#[trigger] alone[j]).spec_position(),
    ) by {
        assert(alone[i] == out[i].event && alone[j] == out[j].event);
        assert(at_or_before(out[i].spec_position(), out[j].spec_position()));
    }
}

proof fn lemma_merged_in_order(events: Seq<LoadedEvent>)
    requires
        in_order(events),
    ensures
        in_order(merged(events)),
        forall|k: int|
            0 <= k < merged(events).len() ==> at_or_before(
                (#[trigger] merged(events)[k]).spec_position(),
                events.last().spec_position(),
            ),
    decreases events.len(),
{
    if events.len() > 0 {
        let prior = events.drop_last();
        let done = merged(prior);
        let next = events.last();
        let out = merged(events);
        assert forall|i: int, j: int| 0 <= i <= j < prior.len() implies at_or_before(
            (#[trigger] prior[i]).spec_position(),
            (#[trigger] prior[j]).spec_position(),
        ) by {
            assert(prior[i] == events[i] && prior[j] == events[j]);
        }
        lemma_merged_in_order(prior);
        lemma_last_deposit(done, next.block_height, done.len() - 1);
        assert forall|k: int| 0 <= k < done.len() implies at_or_before(
            (#[trigger] done[k]).spec_position(),
            next.spec_position(),
        ) by {
            if prior.len() > 0 {
                assert(prior.last() == events[prior.len() - 1]);
                assert(at_or_before(events[prior.len() - 1].spec_position(), next.spec_position()));
            }
        }
        assert forall|k: int| 0 <= k < out.len() implies (#[trigger] out[k]).spec_position()
            == (if k < done.len() {
            done[k].spec_position()
        } else {
            next.spec_position()
        }) by {
        }
        assert forall|i: int, j: int| 0 <= i <= j < out.len() implies at_or_before(
            (#[trigger] out[i]).spec_position(),
            (#[trigger] out[j]).spec_position(),
        ) by {
            if j < done.len() {
                assert(at_or_before(done[i].spec_position(), done[j].spec_position()));
            }
        }
    }
}

proof fn lemma_claim_within_total(rows: Seq<EventRow>, i: int)
    requires
        0 <= i < rows.len(),
        claim_total(rows[i]) is Some,
    ensures
        claim_total(rows[i])->0 <= claimed_total(rows),
    decreases rows.len(),
{
    if i < rows.len() - 1 {
        assert(rows.drop_last()[i] == rows[i]);
        lemma_claim_within_total(rows.drop_last(), i);
    }
}

proof fn lemma_load_tags(
    rows: Seq<EventRow>,
    timezone_ms: Option<i64>,
    loaded: Seq<LoadedEvent>,
    sorted: Seq<LoadedEvent>,
)
    requires
        are_loaded(rows, timezone_ms, loaded),
        is_stable_sort(loaded, sorted),
    ensures
        forall|k: int|
            0 <= k < merged(sorted).len() ==> {
                let m = #[trigger] merged(sorted)[k];
                &&& m.claim is Some <==> m.event.action is Claim
                &&& m.claim matches Some(amount) ==> amount <= claimed_total(rows)
            },
{
    law_merged_events_come_from_the_chain(sorted);
    loaded.to_multiset_ensures();
    sorted.to_multiset_ensures();
    let pred = |row: EventRow| row.payload is Parsed;
    assert forall|k: int| 0 <= k < merged(sorted).len() implies ({
        let m = #[trigger] merged(sorted)[k];
        &&& m.claim is Some <==> m.event.action is Claim
        &&& m.claim matches Some(amount) ==> amount <= claimed_total(rows)
    }) by {
        let m = merged(sorted)[k];
        assert(comes_from(sorted, m));
        if exists|i: int| 0 <= i < sorted.len() && m == #[trigger] sorted[i] {
            assert(sorted.contains(m));
            assert(sorted.to_multiset().count(m) > 0);
            assert(loaded.to_multiset().count(m) > 0);
            assert(loaded.contains(m));
            let l = choose|l: int| 0 <= l < loaded.len() && #[trigger] loaded[l] == m;
            let row = replayable(rows)[l];
            assert(loads_as(row, timezone_ms, loaded[l]));
            assert(replayable(rows).contains(row));
            rows.lemma_filter_contains_rev(pred, row);
            if m.claim is Some {
                let r = choose|r: int| 0 <= r < rows.len() && #[trigger] rows[r] == row;
                lemma_claim_within_total(rows, r);
            }
        }
    }
}

/// `loaded` is what the rows of one account load as.
pub open spec fn is_load(
    backend_account_id: i64,
    account: Option<AccountRow>,
    rows: Seq<EventRow>,
    migration: Option<Migration>,
    loaded: Result<(UserSlice, Timeline), LoadError>,
) -> bool {
    match loaded {
        Ok((slice, timeline)) => {
            &&& account matches Some(row) && {
                &&& slice.near_account_id == row.near_account_id
                &&& slice.existed_at_start == row.existed_at_start
                &&& slice.timezone_ms == row.timezone_ms
            }
            &&& slice.backend_account_id == backend_account_id
            &&& slice.migration == migration
            &&& forall|i: int| 0 <= i < rows.len() ==> !#[trigger] is_fault(rows, i)
            &&& slice.onchain_claimed == claimed_total(rows)
            &&& slice.describes(timeline)
            &&& in_order(timeline.events@)
            &&& exists|sorted: Seq<LoadedEvent>|
                {
                    let replayed = #[trigger] merged(sorted);
                    &&& is_sorted_load(rows, account->0.timezone_ms, sorted)
                    &&& timeline.events@ == events_of(replayed)
                    &&& slice.first_event_block_height == (if replayed.len() > 0 {
                        Some(replayed[0].block_height)
                    } else {
                        None
                    })
                    &&& slice.first_event_claim_amount == (if replayed.len() > 0 {
                        replayed[0].claim
                    } else {
                        None
                    })
                }
        },
        Err(LoadError::UnknownAccount) => account is None,
        Err(LoadError::Payload { ts_ms, event, message }) => account is Some && exists|i: int|
            #[trigger]
            is_first_fault(rows, i) && rows[i].payload == Payload::Malformed(message)
                && rows[i].ts_ms == ts_ms && rows[i].event == event,
        Err(LoadError::ClaimOverflow) => account is Some && exists|i: int| #[trigger]
            is_first_fault(rows, i) && claim_total(rows[i]) is Some,
    }
}

/// Builds the timeline of one account from its rows: every replayable event in
/// replay order, airdrops joined. `account` is the account's row in the
/// `accounts` table; without one the account is unknown.
pub fn load_user(
    backend_account_id: i64,
    account: Option<AccountRow>,
    rows: Vec<EventRow>,
    migration: Option<Migration>,
) -> (loaded: Result<(UserSlice, Timeline), LoadError>)
    ensures
        is_load(backend_account_id, account, rows@, migration, loaded),
{
    let owner: AccountRow = match account {
        Some(owner) => owner,
        None => {
            return Err(LoadError::UnknownAccount);
        },
    };
    let timezone_ms: Option<i64> = owner.timezone_ms;
    let ghost all = rows@;
    let mut events: Vec<LoadedEvent> = Vec::new();
    let mut onchain_claimed: u128 = 0;
    proof {
        reveal(Seq::filter);
        assert(all.take(0) =~= Seq::<EventRow>::empty());
    }
    for row in it: rows
        invariant
            it.seq() == all,
            all == rows@,
            account is Some,
            are_loaded(all.take(it.index() as int), timezone_ms, events@),
            onchain_claimed == claimed_total(all.take(it.index() as int)),
            forall|k: int| 0 <= k < it.index() ==> !#[trigger] is_fault(all, k),
    {
        let ghost i = it.index() as int;
        let ghost before = events@;
        proof {
            reveal(Seq::filter);
            assert(all.take(i + 1).drop_last() =~= all.take(i));
            assert(all.take(i + 1).last() == row);
            assert(all[i] == row);
        }
        let EventRow { ts_ms, log_index, event, block_height, payload } = row;
        match payload {
            Payload::Skipped => {
                assert(!is_fault(all, i));
            },
            Payload::Malformed(message) => {
                assert(is_first_fault(all, i));
                return Err(LoadError::Payload { ts_ms, event, message });
            },
            Payload::Parsed(parsed) => {
                let claim: Option<u128> = match &parsed {
                    ParsedEvent::Claim { total, .. } => Some(*total),
                    _ => None,
                };
                assert(claim == claim_total(row));
                if let Some(total) = claim {
                    match onchain_claimed.checked_add(total) {
                        Some(sum) => {
                            onchain_claimed = sum;
                        },
                        None => {
                            assert(is_fault(all, i));
                            assert(is_first_fault(all, i));
                            return Err(LoadError::ClaimOverflow);
                        },
                    }
                }
                assert(!is_fault(all, i));
                let action = action_of(parsed, ts_ms, timezone_ms);
                events.push(
                    LoadedEvent { event: Event { ts_ms, seq: log_index, action }, block_height, claim },
                );
                proof {
                    assert(replayable(all.take(i + 1)) =~= replayable(all.take(i)).push(row));
                    assert forall|k: int| 0 <= k < events@.len() implies loads_as(
                        replayable(all.take(i + 1))[k],
                        timezone_ms,
                        #[trigger] events@[k],
                    ) by {
                        if k < before.len() {
                            assert(loads_as(
                                replayable(all.take(i))[k],
                                timezone_ms,
                                before[k],
                            ));
                        }
                    }
                }
            },
        }
    }
    assert(all.take(all.len() as int) =~= all);
    let ghost loaded = events@;
    let sorted = stable_sort(events);
    let ghost in_replay_order = sorted@;
    let replayed = merge(sorted);
    let ghost joined_up = replayed@;
    proof {
        assert(is_sorted_load(all, timezone_ms, in_replay_order));
        lemma_load_tags(all, timezone_ms, loaded, in_replay_order);
        law_merging_keeps_the_order(in_replay_order);
    }
    let (first_event_block_height, first_event_claim_amount): (Option<u64>, Option<u128>) =
        if replayed.len() > 0 {
        (Some(replayed[0].block_height), replayed[0].claim)
    } else {
        (None, None)
    };
    let mut timeline = Timeline { events: Vec::new() };
    for one in it: replayed
        invariant
            it.seq() == joined_up,
            timeline.events@ == events_of(joined_up.take(it.index() as int)),
    {
        let ghost k = it.index() as int;
        timeline.events.push(one.event);
        assert(joined_up.take(k + 1) =~= joined_up.take(k).push(one));
        assert(timeline.events@ =~= events_of(joined_up.take(k + 1)));
    }
    assert(joined_up.take(joined_up.len() as int) =~= joined_up);
    let slice = UserSlice {
        backend_account_id,
        near_account_id: owner.near_account_id,
        existed_at_start: owner.existed_at_start,
        timezone_ms,
        onchain_claimed,
        first_event_block_height,
        first_event_claim_amount,
        migration,
    };
    proof {
        if joined_up.len() > 0 {
            assert(timeline.events@[0] == joined_up[0].event);
        }
        assert(joined_up == merged(in_replay_order));
    }
    Ok((slice, timeline))
}

/// No time that the event carries for the contract to check lies past its block
/// time. A claim carries the time that it ran at, which is no such time.
pub open spec fn is_past(event: Event) -> bool {
    match event.action {
        Action::RecordScore(increments) => forall|i: int|
            0 <= i < increments@.len() ==> (#[trigger] increments@[i]).1 <= event.ts_ms,
        Action::ApplyBooster { timestamp_ms, .. } => timestamp_ms <= event.ts_ms,
        Action::AirdropWithBooster { timestamp_ms, .. } => timestamp_ms <= event.ts_ms,
        _ => true,
    }
}

/// The rows of one block carry one time.
pub open spec fn one_time_per_block(rows: Seq<EventRow>) -> bool {
    forall|i: int, j: int|
        0 <= i < rows.len() && 0 <= j < rows.len() && (#[trigger] rows[i]).block_height == (
        #[trigger] rows[j]).block_height ==> rows[i].ts_ms == rows[j].ts_ms
}

pub(crate) proof fn lemma_sorted_event_has_a_row(
    rows: Seq<EventRow>,
    timezone_ms: Option<i64>,
    sorted: Seq<LoadedEvent>,
    i: int,
) -> (r: int)
    requires
        is_sorted_load(rows, timezone_ms, sorted),
        0 <= i < sorted.len(),
    ensures
        0 <= r < rows.len(),
        loads_as(rows[r], timezone_ms, sorted[i]),
{
    let loaded = choose|loaded: Seq<LoadedEvent>|
        are_loaded(rows, timezone_ms, loaded) && #[trigger] is_stable_sort(loaded, sorted);
    let pred = |row: EventRow| row.payload is Parsed;
    loaded.to_multiset_ensures();
    sorted.to_multiset_ensures();
    assert(sorted.contains(sorted[i]));
    assert(sorted.to_multiset().count(sorted[i]) > 0);
    assert(loaded.to_multiset().count(sorted[i]) > 0);
    let l = choose|l: int| 0 <= l < loaded.len() && #[trigger] loaded[l] == sorted[i];
    let row = replayable(rows)[l];
    assert(loads_as(row, timezone_ms, loaded[l]));
    assert(replayable(rows).contains(row));
    rows.lemma_filter_contains_rev(pred, row);
    choose|r: int| 0 <= r < rows.len() && #[trigger] rows[r] == row
}

/// In a timeline that was loaded, no increment and no booster lies in the future
/// of its event. Of an airdrop this holds where the rows of one block carry one
/// time, as those of the chain do.
pub proof fn law_nothing_comes_from_the_future(
    backend_account_id: i64,
    account: Option<AccountRow>,
    rows: Seq<EventRow>,
    migration: Option<Migration>,
    slice: UserSlice,
    timeline: Timeline,
    k: int,
)
    requires
        is_load(backend_account_id, account, rows, migration, Ok((slice, timeline))),
        0 <= k < timeline.events@.len(),
        one_time_per_block(rows) || !(timeline.events@[k].action is AirdropWithBooster),
    ensures
        is_past(timeline.events@[k]),
{
    let tz = account->0.timezone_ms;
    let sorted = choose|sorted: Seq<LoadedEvent>|
        {
            let replayed = #[trigger] merged(sorted);
            &&& is_sorted_load(rows, tz, sorted)
            &&& timeline.events@ == events_of(replayed)
        };
    law_merged_events_come_from_the_chain(sorted);
    let m = merged(sorted)[k];
    assert(timeline.events@[k] == m.event);
    assert(comes_from(sorted, m));
    if exists|i: int| 0 <= i < sorted.len() && m == #[trigger] sorted[i] {
        let i = choose|i: int| 0 <= i < sorted.len() && m == #[trigger] sorted[i];
        let _ = lemma_sorted_event_has_a_row(rows, tz, sorted, i);
    } else {
        let (i, j) = choose|i: int, j: int|
            0 <= i < j < sorted.len() && #[trigger] is_airdrop_pair(sorted[i], sorted[j]) && m
                == joined(sorted[i], sorted[j]);
        let deposit = lemma_sorted_event_has_a_row(rows, tz, sorted, i);
        let booster = lemma_sorted_event_has_a_row(rows, tz, sorted, j);
        assert(rows[deposit].block_height == rows[booster].block_height);
        assert(rows[deposit].ts_ms == rows[booster].ts_ms);
    }
}

/// A score report is undone exactly: shifting a recovered time by the timezone
/// gives the reported local time back, unless the recovered time was cut off at
/// zero or at the block.
pub proof fn law_local_time_is_recovered(local_ts: u64, timezone_ms: Option<i64>, ts_ms: u64)
    requires
        0 <= local_ts - utc_shift(timezone_ms) <= ts_ms,
    ensures
        increment_time(local_ts, timezone_ms, ts_ms) + utc_shift(timezone_ms) == local_ts,
{
}

} // verus!
