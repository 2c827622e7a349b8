//! Laws of the timeline: what the rows of an account say is what its replay does.

use vstd::prelude::*;

use crate::engine::{Action, Event, Timeline};
use crate::order::{at_or_before, is_stable_sort, Positioned};
use crate::timeline::{
    are_loaded, claim_total, claimed_total, comes_from, events_of, increment_time, is_airdrop_pair,
    is_fault, is_first_fault, is_load, is_sorted_load, joined, last_deposit,
    law_merged_events_come_from_the_chain, lemma_last_deposit, lemma_sorted_event_has_a_row,
    loads_as, merged, replayable, AccountRow, EventRow, LoadError, LoadedEvent, Migration,
    ParsedEvent, Payload, UserSlice,
};

verus! {

/// `time` is the UTC time of `local_ts` as far as the block allows: an account
/// without a timezone lives in UTC, and no time lies before zero or past the block.
pub open spec fn is_held_time(time: u64, local_ts: u64, timezone_ms: Option<i64>, ts_ms: u64) -> bool {
    let offset: int = if timezone_ms is None || timezone_ms == Some(i64::MIN) {
        0
    } else {
        timezone_ms->0 as int
    };
    &&& time <= ts_ms
    &&& time + offset < local_ts ==> time == ts_ms
    &&& time + offset > local_ts ==> time == 0
}

/// A reported score counts at its UTC time: the local time less the timezone, held
/// between zero and the block. No other time meets this, so that two accounts whose
/// timezones differ by a span see the same local time that span apart.
pub proof fn law_increment_time_is_local_time_less_the_timezone(
    local_ts: u64,
    timezone_ms: Option<i64>,
    ts_ms: u64,
    time: u64,
)
    ensures
        is_held_time(time, local_ts, timezone_ms, ts_ms) <==> time == increment_time(
            local_ts,
            timezone_ms,
            ts_ms,
        ),
{
}

/// `action` does what a row's payload says that the chain did, at the block time
/// `ts_ms`.
pub open spec fn does(
    action: Action,
    parsed: ParsedEvent,
    timezone_ms: Option<i64>,
    ts_ms: u64,
) -> bool {
    match (parsed, action) {
        (ParsedEvent::RecordScore(told), Action::RecordScore(done)) => {
            &&& done@.len() == told@.len()
            &&& forall|i: int|
                0 <= i < told@.len() ==> {
                    &&& (#[trigger] done@[i]).0 == told@[i].0
                    &&& is_held_time(done@[i].1, told@[i].1, timezone_ms, ts_ms)
                }
        },
        (
            ParsedEvent::ApplyBooster { score: told, timestamp_ms: at },
            Action::ApplyBooster { score, timestamp_ms },
        ) => {
            &&& score == told
            &&& timestamp_ms <= ts_ms
            &&& timestamp_ms <= at
            &&& timestamp_ms == at || timestamp_ms == ts_ms
        },
        (
            ParsedEvent::Deposit { product_id: told_id, amount: told },
            Action::Deposit { product_id, amount },
        ) => product_id == told_id && amount == told,
        (ParsedEvent::WithdrawAll { product_ids: told }, Action::WithdrawAll { product_ids }) => {
            product_ids == told
        },
        (
            ParsedEvent::Restake { into: told_into, from: told_from, restaked },
            Action::Restake { from, into, amount },
        ) => {
            &&& told_from@ == seq![from]
            &&& into == told_into
            &&& amount == restaked
        },
        (
            ParsedEvent::Restake { into: told_into, from: told_from, restaked },
            Action::RestakeAll { product_id, amount },
        ) => {
            &&& told_from@.len() != 1
            &&& product_id == told_into
            &&& amount == restaked
        },
        (ParsedEvent::SetIncreasedScoreCap(told), Action::SetIncreasedScoreCap(enabled)) => {
            enabled == told
        },
        (ParsedEvent::Claim { timestamp_ms: at, .. }, Action::Claim { timestamp_ms }) => {
            timestamp_ms == at
        },
        _ => false,
    }
}

/// `event` stands at the time and the log index of the row.
pub open spec fn stands_at(event: Event, row: EventRow) -> bool {
    event.ts_ms == row.ts_ms && event.seq == row.log_index
}

/// `event` replays the row by itself: in its place, doing what it says.
pub open spec fn replays(event: Event, row: EventRow, timezone_ms: Option<i64>) -> bool {
    &&& stands_at(event, row)
    &&& row.payload matches Payload::Parsed(parsed) && does(
        event.action,
        parsed,
        timezone_ms,
        row.ts_ms,
    )
}

/// `event` replays a deposit and the booster of the same block as one airdrop, in
/// the place of the deposit.
pub open spec fn replays_both(event: Event, deposit: EventRow, booster: EventRow) -> bool {
    &&& stands_at(event, deposit)
    &&& deposit.block_height == booster.block_height
    &&& event.action matches Action::AirdropWithBooster { product_id, amount, score, timestamp_ms }
        && {
        &&& deposit.payload matches Payload::Parsed(
            ParsedEvent::Deposit { product_id: told_id, amount: told },
        ) && product_id == told_id && amount == told
        &&& booster.payload matches Payload::Parsed(
            ParsedEvent::ApplyBooster { score: told_score, timestamp_ms: at },
        ) && score == told_score && timestamp_ms == (if at <= booster.ts_ms {
            at
        } else {
            booster.ts_ms
        })
    }
}

proof fn lemma_loads(row: EventRow, timezone_ms: Option<i64>, loaded: LoadedEvent)
    requires
        loads_as(row, timezone_ms, loaded),
    ensures
        replays(loaded.event, row, timezone_ms),
        !(loaded.event.action is AirdropWithBooster),
        loaded.block_height == row.block_height,
{
    if let Payload::Parsed(ParsedEvent::Restake { from, .. }) = row.payload {
        if from@.len() == 1 {
            assert(from@ =~= seq![from@[0]]);
        }
    }
}

proof fn lemma_row_is_sorted_in(
    rows: Seq<EventRow>,
    timezone_ms: Option<i64>,
    sorted: Seq<LoadedEvent>,
    r: int,
) -> (i: int)
    requires
        is_sorted_load(rows, timezone_ms, sorted),
        0 <= r < rows.len(),
        rows[r].payload is Parsed,
    ensures
        0 <= i < sorted.len(),
        loads_as(rows[r], timezone_ms, sorted[i]),
{
    let loaded = choose|loaded: Seq<LoadedEvent>|
        are_loaded(rows, timezone_ms, loaded) && #[trigger] is_stable_sort(loaded, sorted);
    let pred = |row: EventRow| row.payload is Parsed;
    rows.lemma_filter_contains(pred, r);
    assert(replayable(rows).contains(rows[r]));
    let l = choose|l: int| 0 <= l < replayable(rows).len() && #[trigger] replayable(rows)[l] == rows[r];
    assert(loads_as(replayable(rows)[l], timezone_ms, loaded[l]));
    loaded.to_multiset_ensures();
    sorted.to_multiset_ensures();
    assert(loaded.contains(loaded[l]));
    assert(loaded.to_multiset().count(loaded[l]) > 0);
    assert(sorted.to_multiset().count(loaded[l]) > 0);
    assert(sorted.contains(loaded[l]));
    choose|i: int| 0 <= i < sorted.len() && #[trigger] sorted[i] == loaded[l]
}

/// `m` is what became of the event at `i`.
spec fn survives_as(events: Seq<LoadedEvent>, i: int, m: LoadedEvent) -> bool {
    ||| m == events[i]
    ||| exists|j: int|
        0 <= j < events.len() && #[trigger] is_airdrop_pair(events[i], events[j]) && m == joined(
            events[i],
            events[j],
        )
    ||| exists|j: int|
        0 <= j < events.len() && #[trigger] is_airdrop_pair(events[j], events[i]) && m == joined(
            events[j],
            events[i],
        )
}

proof fn lemma_survives(events: Seq<LoadedEvent>, i: int) -> (k: int)
    requires
        0 <= i < events.len(),
        forall|n: int|
            0 <= n < events.len() ==> !((#[trigger] events[n]).event.action is AirdropWithBooster),
    ensures
        0 <= k < merged(events).len(),
        survives_as(events, i, merged(events)[k]),
    decreases events.len(),
{
    let prior = events.drop_last();
    let done = merged(prior);
    let next = events.last();
    let end = events.len() - 1;
    assert(events[end] == next);
    let partner = last_deposit(done, next.block_height, done.len() - 1);
    let joins = next.event.action is ApplyBooster && partner is Some;
    lemma_last_deposit(done, next.block_height, done.len() - 1);
    assert forall|n: int| 0 <= n < prior.len() implies !((
    #[trigger] prior[n]).event.action is AirdropWithBooster) by {
        assert(prior[n] == events[n]);
    }
    if i == end {
        if joins {
            let at = partner->0;
            law_merged_events_come_from_the_chain(prior);
            assert(comes_from(prior, done[at]));
            let j = choose|j: int| 0 <= j < prior.len() && done[at] == #[trigger] prior[j];
            assert(events[j] == prior[j]);
            assert(is_airdrop_pair(events[j], events[end]));
            at
        } else {
            done.len() as int
        }
    } else {
        let k = lemma_survives(prior, i);
        assert(prior[i] == events[i]);
        if joins && partner->0 == k {
            assert(done[k] == prior[i]);
            assert(is_airdrop_pair(events[i], events[end]));
        } else {
            assert(merged(events)[k] == done[k]);
            if done[k] != prior[i] {
                if exists|j: int|
                    0 <= j < prior.len() && #[trigger] is_airdrop_pair(prior[i], prior[j])
                        && done[k] == joined(prior[i], prior[j]) {
                    let j = choose|j: int|
                        0 <= j < prior.len() && #[trigger] is_airdrop_pair(prior[i], prior[j])
                            && done[k] == joined(prior[i], prior[j]);
                    assert(prior[j] == events[j]);
                    assert(is_airdrop_pair(events[i], events[j]));
                } else {
                    let j = choose|j: int|
                        0 <= j < prior.len() && #[trigger] is_airdrop_pair(prior[j], prior[i])
                            && done[k] == joined(prior[j], prior[i]);
                    assert(prior[j] == events[j]);
                    assert(is_airdrop_pair(events[j], events[i]));
                }
            }
        }
        k
    }
}

/// Nothing that the chain did is left out of the replay: every row with something
/// to replay has its event in the timeline, at the row's time and log index, doing
/// what the row says; a deposit may replay together with a booster of its block, and
/// a booster with a deposit of its block. So a feature is on in the replay exactly
/// where the chain turned it on.
pub proof fn law_every_row_is_replayed(
    backend_account_id: i64,
    account: Option<AccountRow>,
    rows: Seq<EventRow>,
    migration: Option<Migration>,
    slice: UserSlice,
    timeline: Timeline,
    r: int,
) -> (k: int)
    requires
        is_load(backend_account_id, account, rows, migration, Ok((slice, timeline))),
        0 <= r < rows.len(),
        rows[r].payload is Parsed,
    ensures
        0 <= k < timeline.events@.len(),
        ({
            let event = timeline.events@[k];
            let tz = account->0.timezone_ms;
            match rows[r].payload->Parsed_0 {
                ParsedEvent::SetIncreasedScoreCap(enabled) => {
                    &&& event.ts_ms == rows[r].ts_ms
                    &&& event.seq == rows[r].log_index
                    &&& event.action == Action::SetIncreasedScoreCap(enabled)
                },
                ParsedEvent::Deposit { .. } => {
                    ||| replays(event, rows[r], tz)
                    ||| exists|b: int|
                        0 <= b < rows.len() && replays_both(event, rows[r], #[trigger] rows[b])
                },
                ParsedEvent::ApplyBooster { .. } => {
                    ||| replays(event, rows[r], tz)
                    ||| exists|d: int|
                        0 <= d < rows.len() && replays_both(event, #[trigger] rows[d], rows[r])
                },
                _ => replays(event, rows[r], tz),
            }
        }),
{
    let tz = account->0.timezone_ms;
    let sorted = choose|sorted: Seq<LoadedEvent>|
        {
            let replayed = #[trigger] merged(sorted);
            &&& is_sorted_load(rows, tz, sorted)
            &&& timeline.events@ == events_of(replayed)
        };
    assert forall|n: int| 0 <= n < sorted.len() implies !((
    #[trigger] sorted[n]).event.action is AirdropWithBooster) by {
        let q = lemma_sorted_event_has_a_row(rows, tz, sorted, n);
        lemma_loads(rows[q], tz, sorted[n]);
    }
    let i = lemma_row_is_sorted_in(rows, tz, sorted, r);
    lemma_loads(rows[r], tz, sorted[i]);
    let k = lemma_survives(sorted, i);
    let m = merged(sorted)[k];
    assert(timeline.events@[k] == m.event);
    if m != sorted[i] {
        if exists|j: int|
            0 <= j < sorted.len() && #[trigger] is_airdrop_pair(sorted[i], sorted[j]) && m
                == joined(sorted[i], sorted[j]) {
            let j = choose|j: int|
                0 <= j < sorted.len() && #[trigger] is_airdrop_pair(sorted[i], sorted[j]) && m
                    == joined(sorted[i], sorted[j]);
            let b = lemma_sorted_event_has_a_row(rows, tz, sorted, j);
            lemma_loads(rows[b], tz, sorted[j]);
            assert(replays_both(m.event, rows[r], rows[b]));
        } else {
            let j = choose|j: int|
                0 <= j < sorted.len() && #[trigger] is_airdrop_pair(sorted[j], sorted[i]) && m
                    == joined(sorted[j], sorted[i]);
            let d = lemma_sorted_event_has_a_row(rows, tz, sorted, j);
            lemma_loads(rows[d], tz, sorted[j]);
            assert(replays_both(m.event, rows[d], rows[r]));
        }
    }
    k
}

/// Nothing replays that the chain did not do: every event of the timeline replays a
/// row of its time and log index, or a deposit and a booster of one block.
pub proof fn law_every_event_replays_its_rows(
    backend_account_id: i64,
    account: Option<AccountRow>,
    rows: Seq<EventRow>,
    migration: Option<Migration>,
    slice: UserSlice,
    timeline: Timeline,
    k: int,
)
    requires
        is_load(backend_account_id, account, rows, migration, Ok((slice, timeline))),
        0 <= k < timeline.events@.len(),
    ensures
        ({
            let event = timeline.events@[k];
            if event.action is AirdropWithBooster {
                exists|d: int, b: int|
                    0 <= d < rows.len() && 0 <= b < rows.len() && replays_both(
                        event,
                        #[trigger] rows[d],
                        #[trigger] rows[b],
                    )
            } else {
                exists|r: int|
                    0 <= r < rows.len() && replays(
                        event,
                        #[trigger] rows[r],
                        account->0.timezone_ms,
                    )
            }
        }),
{
    let tz = account->0.timezone_ms;
    let sorted = choose|sorted: Seq<LoadedEvent>|
        {
            let replayed = #[trigger] merged(sorted);
            &&& is_sorted_load(rows, tz, sorted)
            &&& timeline.events@ == events_of(replayed)
        };
    law_merged_events_come_from_the_chain(sorted);
    let m = merged(sorted)[k];
    assert(timeline.events@[k] == m.event);
    assert(comes_from(sorted, m));
    if exists|i: int| 0 <= i < sorted.len() && m == #[trigger] sorted[i] {
        let i = choose|i: int| 0 <= i < sorted.len() && m == #[trigger] sorted[i];
        let r = lemma_sorted_event_has_a_row(rows, tz, sorted, i);
        lemma_loads(rows[r], tz, sorted[i]);
        assert(replays(m.event, rows[r], tz));
    } else {
        let (i, j) = choose|i: int, j: int|
            0 <= i < j < sorted.len() && #[trigger] is_airdrop_pair(sorted[i], sorted[j]) && m
                == joined(sorted[i], sorted[j]);
        let d = lemma_sorted_event_has_a_row(rows, tz, sorted, i);
        let b = lemma_sorted_event_has_a_row(rows, tz, sorted, j);
        lemma_loads(rows[d], tz, sorted[i]);
        lemma_loads(rows[b], tz, sorted[j]);
        assert(replays_both(m.event, rows[d], rows[b]));
    }
}

/// How many of the events are airdrops.
pub open spec fn airdrops(events: Seq<LoadedEvent>) -> nat
    decreases events.len(),
{
    if events.len() == 0 {
        0
    } else {
        airdrops(events.drop_last()) + if events.last().event.action is AirdropWithBooster {
            1nat
        } else {
            0
        }
    }
}

proof fn lemma_airdrops_update(events: Seq<LoadedEvent>, at: int, m: LoadedEvent)
    requires
        0 <= at < events.len(),
        m.event.action is AirdropWithBooster,
        !(events[at].event.action is AirdropWithBooster),
    ensures
        airdrops(events.update(at, m)) == airdrops(events) + 1,
    decreases events.len(),
{
    if at == events.len() - 1 {
        assert(events.update(at, m).drop_last() =~= events.drop_last());
    } else {
        lemma_airdrops_update(events.drop_last(), at, m);
        assert(events.update(at, m).drop_last() =~= events.drop_last().update(at, m));
    }
}

/// Every event is replayed once: an airdrop stands for two events, every other event
/// for itself.
pub proof fn law_every_event_counts_once(events: Seq<LoadedEvent>)
    requires
        forall|n: int|
            0 <= n < events.len() ==> !((#[trigger] events[n]).event.action is AirdropWithBooster),
    ensures
        merged(events).len() + airdrops(merged(events)) == events.len(),
    decreases events.len(),
{
    if events.len() > 0 {
        let prior = events.drop_last();
        let done = merged(prior);
        let next = events.last();
        assert(events[events.len() - 1] == next);
        assert forall|n: int| 0 <= n < prior.len() implies !((
        #[trigger] prior[n]).event.action is AirdropWithBooster) by {
            assert(prior[n] == events[n]);
        }
        law_every_event_counts_once(prior);
        lemma_last_deposit(done, next.block_height, done.len() - 1);
        assert(done.push(next).drop_last() =~= done);
        if next.event.action is ApplyBooster {
            if let Some(at) = last_deposit(done, next.block_height, done.len() - 1) {
                lemma_airdrops_update(done, at, joined(done[at], next));
            }
        }
    }
}

proof fn lemma_airdrops_alone(events: Seq<LoadedEvent>)
    ensures
        airdrops(events) == events_of(events).filter(
            |e: Event| e.action is AirdropWithBooster,
        ).len(),
    decreases events.len(),
{
    reveal(Seq::filter);
    if events.len() > 0 {
        lemma_airdrops_alone(events.drop_last());
        assert(events_of(events).drop_last() =~= events_of(events.drop_last()));
        assert(events_of(events).last() == events.last().event);
    }
}

/// Every row is replayed once: the timeline has an event for each row with something
/// to replay, with one event for the two rows of an airdrop.
pub proof fn law_every_row_counts_once(
    backend_account_id: i64,
    account: Option<AccountRow>,
    rows: Seq<EventRow>,
    migration: Option<Migration>,
    slice: UserSlice,
    timeline: Timeline,
)
    requires
        is_load(backend_account_id, account, rows, migration, Ok((slice, timeline))),
    ensures
        timeline.events@.len() + timeline.events@.filter(
            |e: Event| e.action is AirdropWithBooster,
        ).len() == rows.filter(|row: EventRow| row.payload is Parsed).len(),
{
    let tz = account->0.timezone_ms;
    let sorted = choose|sorted: Seq<LoadedEvent>|
        {
            let replayed = #[trigger] merged(sorted);
            &&& is_sorted_load(rows, tz, sorted)
            &&& timeline.events@ == events_of(replayed)
        };
    assert forall|n: int| 0 <= n < sorted.len() implies !((
    #[trigger] sorted[n]).event.action is AirdropWithBooster) by {
        let q = lemma_sorted_event_has_a_row(rows, tz, sorted, n);
        lemma_loads(rows[q], tz, sorted[n]);
    }
    law_every_event_counts_once(sorted);
    lemma_airdrops_alone(merged(sorted));
    let loaded = choose|loaded: Seq<LoadedEvent>|
        are_loaded(rows, tz, loaded) && #[trigger] is_stable_sort(loaded, sorted);
    loaded.to_multiset_ensures();
    sorted.to_multiset_ensures();
    assert(replayable(rows) == rows.filter(|row: EventRow| row.payload is Parsed));
}

/// A booster joins the last deposit of its block that stands unjoined before it, and
/// makes an airdrop of the two in the deposit's place; without such a deposit it
/// stays by itself. Every other event stays as it is.
pub proof fn law_booster_joins_the_last_deposit_of_its_block(
    events: Seq<LoadedEvent>,
    next: LoadedEvent,
)
    ensures
        ({
            let done = merged(events);
            let out = merged(events.push(next));
            match next.event.action {
                Action::ApplyBooster { score, timestamp_ms } => {
                    ||| out == done.push(next) && forall|k: int|
                        0 <= k < done.len() ==> !((#[trigger] done[k]).event.action is Deposit
                            && done[k].block_height == next.block_height)
                    ||| exists|at: int|
                        {
                            &&& 0 <= at < done.len()
                            &&& out.len() == done.len()
                            &&& forall|k: int|
                                0 <= k < done.len() && k != at ==> #[trigger] out[k] == done[k]
                            &&& done[at].block_height == next.block_height
                            &&& (#[trigger] done[at]).event.action matches Action::Deposit {
                                product_id,
                                amount,
                            } && out[at] == (LoadedEvent {
                                event: Event {
                                    ts_ms: done[at].event.ts_ms,
                                    seq: done[at].event.seq,
                                    action: Action::AirdropWithBooster {
                                        product_id,
                                        amount,
                                        score,
                                        timestamp_ms,
                                    },
                                },
                                block_height: next.block_height,
                                claim: None,
                            })
                            &&& forall|k: int|
                                at < k < done.len() ==> !((
                                #[trigger] done[k]).event.action is Deposit && done[k].block_height
                                    == next.block_height)
                        }
                },
                _ => out == done.push(next),
            }
        }),
        merged(Seq::empty()) == Seq::<LoadedEvent>::empty(),
{
    let done = merged(events);
    assert(events.push(next).drop_last() =~= events);
    let from = done.len() - 1;
    lemma_last_deposit(done, next.block_height, from);
    lemma_none_later(done, next.block_height, from);
    if next.event.action is ApplyBooster {
        if let Some(at) = last_deposit(done, next.block_height, from) {
            assert(done[at].event.action is Deposit);
        }
    }
}

proof fn lemma_none_later(events: Seq<LoadedEvent>, height: u64, from: int)
    requires
        from < events.len(),
    ensures
        last_deposit(events, height, from) matches Some(at) ==> forall|k: int|
            at < k <= from ==> !((#[trigger] events[k]).event.action is Deposit
                && events[k].block_height == height),
    decreases from + 1,
{
    if from >= 0 {
        lemma_none_later(events, height, from - 1);
    }
}

/// A timeline replays in the order of the chain: by block time, within a block by
/// log index, and at one log index scores and boosters first and claims last.
pub proof fn law_timeline_is_in_the_order_of_the_chain(
    backend_account_id: i64,
    account: Option<AccountRow>,
    rows: Seq<EventRow>,
    migration: Option<Migration>,
    slice: UserSlice,
    timeline: Timeline,
    i: int,
    j: int,
)
    requires
        is_load(backend_account_id, account, rows, migration, Ok((slice, timeline))),
        0 <= i < j < timeline.events@.len(),
    ensures
        ({
            let a = timeline.events@[i];
            let b = timeline.events@[j];
            &&& a.ts_ms <= b.ts_ms
            &&& a.ts_ms == b.ts_ms ==> a.seq <= b.seq
            &&& a.ts_ms == b.ts_ms && a.seq == b.seq ==> {
                &&& a.action is Claim ==> b.action is Claim
                &&& b.action is RecordScore || b.action is ApplyBooster ==> a.action is RecordScore
                    || a.action is ApplyBooster
            }
        }),
{
    let a = timeline.events@[i];
    let b = timeline.events@[j];
    assert(at_or_before(a.spec_position(), b.spec_position()));
}

/// What the chain paid adds up over its rows: a claim counts its total, no other row
/// counts.
pub proof fn law_claimed_amounts_add_up(a: Seq<EventRow>, b: Seq<EventRow>, row: EventRow)
    ensures
        claimed_total(a + b) == claimed_total(a) + claimed_total(b),
        claimed_total(seq![row]) == (match row.payload {
            Payload::Parsed(ParsedEvent::Claim { total, .. }) => total as nat,
            _ => 0,
        }),
        claimed_total(Seq::empty()) == 0,
    decreases b.len(),
{
    reveal_with_fuel(claimed_total, 2);
    assert(seq![row].drop_last() =~= Seq::<EventRow>::empty());
    if b.len() == 0 {
        assert(a + b =~= a);
    } else {
        law_claimed_amounts_add_up(a, b.drop_last(), row);
        assert((a + b).drop_last() =~= a + b.drop_last());
    }
}

proof fn lemma_prefix_total(rows: Seq<EventRow>, n: int)
    requires
        0 <= n <= rows.len(),
    ensures
        claimed_total(rows.take(n)) <= claimed_total(rows),
    decreases rows.len() - n,
{
    if n < rows.len() {
        lemma_prefix_total(rows, n + 1);
        assert(rows.take(n + 1).drop_last() =~= rows.take(n));
    } else {
        assert(rows.take(n) =~= rows);
    }
}

/// An account loads where it has a row, all its payloads read and its claims fit in
/// 128 bits, and only there. What is reported of a payload is the first that does
/// not read, under the time and the name of its row.
pub proof fn law_load_fails_only_for_a_reason(
    backend_account_id: i64,
    account: Option<AccountRow>,
    rows: Seq<EventRow>,
    migration: Option<Migration>,
    loaded: Result<(UserSlice, Timeline), LoadError>,
)
    requires
        is_load(backend_account_id, account, rows, migration, loaded),
    ensures
        loaded is Ok <==> {
            &&& account is Some
            &&& forall|i: int| 0 <= i < rows.len() ==> !((#[trigger] rows[i]).payload is Malformed)
            &&& claimed_total(rows) <= u128::MAX
        },
        loaded matches Err(LoadError::UnknownAccount) <==> account is None,
        loaded matches Err(LoadError::Payload { ts_ms, event, message }) ==> exists|i: int|
            {
                &&& 0 <= i < rows.len()
                &&& (#[trigger] rows[i]).payload == Payload::Malformed(message)
                &&& rows[i].ts_ms == ts_ms
                &&& rows[i].event == event
                &&& forall|k: int| 0 <= k < i ==> !((#[trigger] rows[k]).payload is Malformed)
            },
        loaded matches Err(LoadError::ClaimOverflow) ==> claimed_total(rows) > u128::MAX,
{
    match loaded {
        Ok((slice, timeline)) => {
            assert forall|i: int| 0 <= i < rows.len() implies !((
            #[trigger] rows[i]).payload is Malformed) by {
                assert(!is_fault(rows, i));
            }
        },
        Err(LoadError::UnknownAccount) => {},
        Err(LoadError::Payload { ts_ms, event, message }) => {
            let i = choose|i: int| #[trigger]
                is_first_fault(rows, i) && rows[i].payload == Payload::Malformed(message)
                    && rows[i].ts_ms == ts_ms && rows[i].event == event;
            assert forall|k: int| 0 <= k < i implies !((
            #[trigger] rows[k]).payload is Malformed) by {
                assert(!is_fault(rows, k));
            }
        },
        Err(LoadError::ClaimOverflow) => {
            let i = choose|i: int| #[trigger]
                is_first_fault(rows, i) && claim_total(rows[i]) is Some;
            lemma_prefix_total(rows, i + 1);
        },
    }
}

/// What an account's slice says is what its rows say: who it is, what it was paid in
/// all, and of the first event its block and, where it is a claim, what it paid.
pub proof fn law_slice_tells_the_rows(
    backend_account_id: i64,
    account: Option<AccountRow>,
    rows: Seq<EventRow>,
    migration: Option<Migration>,
    slice: UserSlice,
    timeline: Timeline,
)
    requires
        is_load(backend_account_id, account, rows, migration, Ok((slice, timeline))),
    ensures
        account matches Some(owner) && {
            &&& slice.near_account_id == owner.near_account_id
            &&& slice.existed_at_start == owner.existed_at_start
            &&& slice.timezone_ms == owner.timezone_ms
        },
        slice.backend_account_id == backend_account_id,
        slice.migration == migration,
        slice.onchain_claimed == claimed_total(rows),
        if timeline.events@.len() == 0 {
            slice.first_event_block_height is None && slice.first_event_claim_amount is None
        } else {
            exists|r: int|
                {
                    &&& 0 <= r < rows.len()
                    &&& stands_at(timeline.events@[0], #[trigger] rows[r])
                    &&& slice.first_event_block_height == Some(rows[r].block_height)
                    &&& match rows[r].payload {
                        Payload::Parsed(ParsedEvent::Claim { total, .. }) => {
                            &&& timeline.events@[0].action is Claim
                            &&& slice.first_event_claim_amount == Some(total)
                        },
                        _ => {
                            &&& !(timeline.events@[0].action is Claim)
                            &&& slice.first_event_claim_amount is None
                        },
                    }
                }
        },
{
    let tz = account->0.timezone_ms;
    let sorted = choose|sorted: Seq<LoadedEvent>|
        {
            let replayed = #[trigger] merged(sorted);
            &&& is_sorted_load(rows, tz, sorted)
            &&& timeline.events@ == events_of(replayed)
            &&& slice.first_event_block_height == (if replayed.len() > 0 {
                Some(replayed[0].block_height)
            } else {
                None
            })
            &&& slice.first_event_claim_amount == (if replayed.len() > 0 {
                replayed[0].claim
            } else {
                None
            })
        };
    if timeline.events@.len() > 0 {
        law_merged_events_come_from_the_chain(sorted);
        let m = merged(sorted)[0];
        assert(timeline.events@[0] == m.event);
        assert(comes_from(sorted, m));
        if exists|i: int| 0 <= i < sorted.len() && m == #[trigger] sorted[i] {
            let i = choose|i: int| 0 <= i < sorted.len() && m == #[trigger] sorted[i];
            let r = lemma_sorted_event_has_a_row(rows, tz, sorted, i);
            lemma_loads(rows[r], tz, sorted[i]);
            assert(stands_at(timeline.events@[0], rows[r]));
        } else {
            let (i, j) = choose|i: int, j: int|
                0 <= i < j < sorted.len() && #[trigger] is_airdrop_pair(sorted[i], sorted[j]) && m
                    == joined(sorted[i], sorted[j]);
            let r = lemma_sorted_event_has_a_row(rows, tz, sorted, i);
            lemma_loads(rows[r], tz, sorted[i]);
            assert(stands_at(timeline.events@[0], rows[r]));
        }
    }
}

} // verus!
