//! Laws of the replay engine.

use vstd::prelude::*;

use crate::contract::Transcript;
use crate::engine::{
    applied_before, claims_made, event_calls, find_product, goes_on, guest_message, is_exchange,
    is_run, is_score_product, law_log_index_outranks_rank, law_plain_panic_is_kept,
    lemma_applied_before, opening_calls, opens_score_jar, paired, panic_close, panic_open,
    register_calls, replay_calls, reports, step_calls, steps_calls, sum_of_claims, timezone_calls,
    timezone_due, Action, Baseline, ContractCall, DepositTicket, Event, Product, ReplayOutcome,
    ReplayStatus, Reply, Signer,
};
use crate::order::{at_position, is_stable_sort, Positioned};
use crate::text::{find_from, lemma_find_from, lemma_rfind_from, occurs_at, rfind_from};

verus! {

/// The action that the calls of one event carry out, told from the calls alone.
pub open spec fn action_told(calls: Seq<ContractCall>) -> Option<Action> {
    let n = calls.len() as int;
    if n < 3 {
        None
    } else {
        match (calls[n - 2], calls[n - 1]) {
            (_, ContractCall::RecordScore(increments)) => Some(Action::RecordScore(increments)),
            (_, ContractCall::Deposit { ticket, amount }) => Some(
                Action::Deposit { product_id: ticket.product_id, amount },
            ),
            (_, ContractCall::Withdraw { product_id }) => Some(Action::Withdraw { product_id }),
            (_, ContractCall::Restake { from, ticket, amount }) => Some(
                Action::Restake { from, into: ticket.product_id, amount },
            ),
            (_, ContractCall::SetIncreasedScoreCap(enabled)) => Some(
                Action::SetIncreasedScoreCap(enabled),
            ),
            (ContractCall::SetBlockTime(timestamp_ms), ContractCall::ClaimTotal { .. }) => Some(
                Action::Claim { timestamp_ms },
            ),
            (_, ContractCall::ApplyBooster { score, timestamp_ms }) => Some(
                Action::ApplyBooster { score, timestamp_ms },
            ),
            (_, ContractCall::WithdrawAll { product_ids }) => Some(
                Action::WithdrawAll { product_ids },
            ),
            (_, ContractCall::RestakeAll { ticket, amount }) => Some(
                Action::RestakeAll { product_id: ticket.product_id, amount },
            ),
            (
                ContractCall::CreateAirdropDeposit { ticket, amount, .. },
                ContractCall::ApplyAirdropBooster { score, timestamp_ms },
            ) => Some(
                Action::AirdropWithBooster {
                    product_id: ticket.product_id,
                    amount,
                    score,
                    timestamp_ms,
                },
            ),
            _ => None,
        }
    }
}

/// Nothing of an event is lost or made up on the way to the contract: its time and
/// its action can be told from its calls, down to every product, amount, score and
/// time, and a claim is reported under the event's own block time.
pub proof fn law_event_is_told_by_its_calls(
    event: Event,
    applied: bool,
    timezone_ms: Option<i64>,
    products: Seq<Product>,
)
    ensures
        ({
            let calls = event_calls(event, applied, timezone_ms, products);
            &&& calls[0] == ContractCall::SetBlockTime(event.ts_ms)
            &&& action_told(calls) == Some(event.action)
            &&& forall|k: int|
                0 <= k < calls.len() ==> match #[trigger] calls[k] {
                    ContractCall::ClaimTotal { event_ts_ms } => event_ts_ms == event.ts_ms,
                    ContractCall::CreateAirdropDeposit { now_ms, .. } => now_ms == event.ts_ms,
                    ContractCall::SettleInterestBeforeBooster { score } => {
                        event.action matches Action::AirdropWithBooster { score: given, .. }
                            && given == score
                    },
                    _ => true,
                }
        }),
{
    let due = timezone_due(applied, timezone_ms, products, event.action);
    assert(timezone_calls(due).len() == 0 || timezone_calls(due).len() == 2);
}

/// An event acts on the account once, with its last call, and before that only sets
/// the stage. An airdrop acts three times: it settles the interest, opens the jar and
/// applies the booster.
pub proof fn law_event_makes_no_other_calls(
    event: Event,
    applied: bool,
    timezone_ms: Option<i64>,
    products: Seq<Product>,
    k: int,
)
    requires
        0 <= k < event_calls(event, applied, timezone_ms, products).len(),
    ensures
        ({
            let calls = event_calls(event, applied, timezone_ms, products);
            let n = calls.len() as int;
            let acts = if event.action is AirdropWithBooster {
                3int
            } else {
                1int
            };
            &&& k < n - acts <==> calls[k] is SetBlockTime || calls[k] is SwitchTo
                || calls[k] is SetTimezone
            &&& event.action is AirdropWithBooster ==> calls[n - 3] is SettleInterestBeforeBooster
                && calls[n - 2] is CreateAirdropDeposit && calls[n - 1] is ApplyAirdropBooster
            &&& !(event.action is AirdropWithBooster) ==> !(
            calls[n - 1] is SettleInterestBeforeBooster || calls[n - 1] is CreateAirdropDeposit
                || calls[n - 1] is ApplyAirdropBooster || calls[n - 1] is Observe)
        }),
{
    let due = timezone_due(applied, timezone_ms, products, event.action);
    assert(timezone_calls(due).len() == 0 || timezone_calls(due).len() == 2);
}

/// The product in which the action opens a jar.
pub open spec fn jar_product(action: Action) -> Option<String> {
    match action {
        Action::Deposit { product_id, .. } => Some(product_id),
        Action::Restake { into, .. } => Some(into),
        Action::RestakeAll { product_id, .. } => Some(product_id),
        Action::AirdropWithBooster { product_id, .. } => Some(product_id),
        _ => None,
    }
}

/// The deposit ticket that a call carries.
pub open spec fn ticket_in(call: ContractCall) -> Option<DepositTicket> {
    match call {
        ContractCall::Deposit { ticket, .. } => Some(ticket),
        ContractCall::Restake { ticket, .. } => Some(ticket),
        ContractCall::RestakeAll { ticket, .. } => Some(ticket),
        ContractCall::CreateAirdropDeposit { ticket, .. } => Some(ticket),
        _ => None,
    }
}

/// Where the ticket stands among the calls of an event: the deposit of an airdrop is
/// followed by its booster, every other jar is opened last.
pub open spec fn ticket_at(calls: Seq<ContractCall>) -> int {
    if calls.last() is ApplyAirdropBooster {
        calls.len() - 2
    } else {
        calls.len() - 1
    }
}

/// Every jar is opened in the product that the action names: exactly one call of
/// such an event carries a ticket, and it is for that product, without a deadline,
/// with UTC as the timezone to fall back on. Other events open no jar. A restake
/// takes its own amount out of its own source.
pub proof fn law_jar_opens_in_the_named_product(
    event: Event,
    applied: bool,
    timezone_ms: Option<i64>,
    products: Seq<Product>,
)
    ensures
        ({
            let calls = event_calls(event, applied, timezone_ms, products);
            &&& event.action.opens_jar_in() == (match jar_product(event.action) {
                Some(id) => Some(id@),
                None => None,
            })
            &&& forall|k: int|
                0 <= k < calls.len() ==> (#[trigger] ticket_in(calls[k]) is Some <==> jar_product(
                    event.action,
                ) is Some && k == ticket_at(calls))
            &&& jar_product(event.action) matches Some(id) ==> ticket_in(
                calls[ticket_at(calls)],
            ) == Some(
                DepositTicket { product_id: id, valid_until: 0, timezone_ms: Some(0i64) },
            )
            &&& event.action matches Action::Restake { from, amount, .. } ==> (
            calls.last() matches ContractCall::Restake { from: source, amount: taken, .. }
                && source == from && taken == amount)
        }),
{
    let due = timezone_due(applied, timezone_ms, products, event.action);
    assert(timezone_calls(due).len() == 0 || timezone_calls(due).len() == 2);
}

/// Whether a product is score-based is told by the first product with its id.
pub proof fn law_first_product_decides(products: Seq<Product>, id: Seq<char>)
    ensures
        is_score_product(products, id) <==> exists|i: int|
            {
                &&& 0 <= i < products.len()
                &&& (#[trigger] products[i]).id@ == id
                &&& products[i].is_score_based
                &&& forall|j: int| 0 <= j < i ==> (#[trigger] products[j]).id@ != id
            },
    decreases products.len(),
{
    if products.len() > 0 && products[0].id@ != id {
        let rest = products.subrange(1, products.len() as int);
        law_first_product_decides(rest, id);
        if is_score_product(rest, id) {
            let i = choose|i: int|
                {
                    &&& 0 <= i < rest.len()
                    &&& (#[trigger] rest[i]).id@ == id
                    &&& rest[i].is_score_based
                    &&& forall|j: int| 0 <= j < i ==> (#[trigger] rest[j]).id@ != id
                };
            assert(products[i + 1] == rest[i]);
            assert forall|j: int| 0 <= j < i + 1 implies (#[trigger] products[j]).id@ != id by {
                if j > 0 {
                    assert(products[j] == rest[j - 1]);
                }
            }
        }
        if exists|i: int|
            {
                &&& 0 <= i < products.len()
                &&& (#[trigger] products[i]).id@ == id
                &&& products[i].is_score_based
                &&& forall|j: int| 0 <= j < i ==> (#[trigger] products[j]).id@ != id
            } {
            let i = choose|i: int|
                {
                    &&& 0 <= i < products.len()
                    &&& (#[trigger] products[i]).id@ == id
                    &&& products[i].is_score_based
                    &&& forall|j: int| 0 <= j < i ==> (#[trigger] products[j]).id@ != id
                };
            assert(rest[i - 1] == products[i]);
            assert forall|j: int| 0 <= j < i - 1 implies (#[trigger] rest[j]).id@ != id by {
                assert(rest[j] == products[j + 1]);
            }
        }
    } else if products.len() > 0 {
        assert(find_product(products, id) == Some(products[0]));
    }
}

/// The timezone is set right before the jar, and only where it is due: not a second
/// time, not without a timezone, and only for a jar in a score product.
pub proof fn law_timezone_goes_with_a_score_jar(
    event: Event,
    applied: bool,
    timezone_ms: Option<i64>,
    products: Seq<Product>,
)
    ensures
        ({
            let calls = event_calls(event, applied, timezone_ms, products);
            let due = !applied && timezone_ms is Some && timezone_ms->0 != i64::MIN && (
            jar_product(event.action) matches Some(id) && is_score_product(products, id@));
            &&& forall|k: int|
                0 <= k < calls.len() ==> (#[trigger] calls[k] is SetTimezone <==> due && k == 2)
            &&& due ==> calls[2] == ContractCall::SetTimezone(timezone_ms->0) && 2 < ticket_at(
                calls,
            )
        }),
{
    let due = timezone_due(applied, timezone_ms, products, event.action);
    assert(timezone_calls(due).len() == 0 || timezone_calls(due).len() == 2);
}

/// Over a replay the timezone is set with the first jar in a score product, where the
/// account has a timezone: no event before that one sets it, and none after it.
pub proof fn law_timezone_is_set_once(
    events: Seq<Event>,
    timezone_ms: Option<i64>,
    products: Seq<Product>,
    i: int,
    k: int,
)
    requires
        0 <= i < events.len(),
        0 <= k < step_calls(events, timezone_ms, products, i).len(),
    ensures
        step_calls(events, timezone_ms, products, i)[k] is SetTimezone <==> {
            &&& k == 2
            &&& timezone_ms is Some && timezone_ms->0 != i64::MIN
            &&& jar_product(events[i].action) matches Some(id) && is_score_product(products, id@)
            &&& forall|j: int|
                0 <= j < i ==> !(jar_product((#[trigger] events[j]).action) matches Some(id)
                    && is_score_product(products, id@))
        },
{
    let applied = applied_before(events, timezone_ms, products, i);
    lemma_applied_before(events, timezone_ms, products, i);
    law_timezone_goes_with_a_score_jar(events[i], applied, timezone_ms, products);
    let own = event_calls(events[i], applied, timezone_ms, products);
    assert forall|j: int| 0 <= j < i implies (opens_score_jar(
        products,
        (#[trigger] events[j]).action,
    ) <==> (jar_product(events[j].action) matches Some(id) && is_score_product(
        products,
        id@,
    ))) by {
        law_jar_opens_in_the_named_product(events[j], applied, timezone_ms, products);
    }
    if k < own.len() {
        assert(step_calls(events, timezone_ms, products, i)[k] == own[k]);
    }
}

/// Who signs the call at `k`.
pub open spec fn signer_at(calls: Seq<ContractCall>, k: int) -> Option<Signer>
    decreases k,
{
    if k <= 0 {
        None
    } else {
        match calls[k - 1] {
            ContractCall::SwitchTo(signer) => Some(signer),
            _ => signer_at(calls, k - 1),
        }
    }
}

/// The block time that the call at `k` runs at.
pub open spec fn time_at(calls: Seq<ContractCall>, k: int) -> Option<u64>
    decreases k,
{
    if k <= 0 {
        None
    } else {
        match calls[k - 1] {
            ContractCall::SetBlockTime(ts_ms) => Some(ts_ms),
            _ => time_at(calls, k - 1),
        }
    }
}

/// Who has to sign a call: the operator what the oracle does, the token contract a
/// deposit, the account what it asks for itself.
pub open spec fn needed_signer(call: ContractCall) -> Option<Signer> {
    match call {
        ContractCall::SetTimezone(_)
        | ContractCall::RecordScore(_)
        | ContractCall::SetIncreasedScoreCap(_)
        | ContractCall::ApplyBooster { .. }
        | ContractCall::SettleInterestBeforeBooster { .. }
        | ContractCall::CreateAirdropDeposit { .. }
        | ContractCall::ApplyAirdropBooster { .. } => Some(Signer::Operator),
        ContractCall::Deposit { .. } => Some(Signer::FtContract),
        ContractCall::Withdraw { .. }
        | ContractCall::Restake { .. }
        | ContractCall::ClaimTotal { .. }
        | ContractCall::WithdrawAll { .. }
        | ContractCall::RestakeAll { .. } => Some(Signer::Account),
        _ => None,
    }
}

/// Every call of an event is signed by whoever has to sign it, and runs at the block
/// time of the event; a claim runs at its own time.
pub proof fn law_calls_are_signed_and_timed(
    event: Event,
    applied: bool,
    timezone_ms: Option<i64>,
    products: Seq<Product>,
    k: int,
)
    requires
        0 <= k < event_calls(event, applied, timezone_ms, products).len(),
        needed_signer(event_calls(event, applied, timezone_ms, products)[k]) is Some,
    ensures
        ({
            let calls = event_calls(event, applied, timezone_ms, products);
            &&& signer_at(calls, k) == needed_signer(calls[k])
            &&& time_at(calls, k) == Some(
                match event.action {
                    Action::Claim { timestamp_ms } => timestamp_ms,
                    _ => event.ts_ms,
                },
            )
        }),
{
    let calls = event_calls(event, applied, timezone_ms, products);
    let due = timezone_due(applied, timezone_ms, products, event.action);
    reveal_with_fuel(signer_at, 8);
    reveal_with_fuel(time_at, 8);
    assert(timezone_calls(due).len() == 0 || timezone_calls(due).len() == 2);
    assert(calls.len() <= 7);
    if k == 2 {
    } else if k == 3 {
    } else if k == 4 {
    } else if k == 5 {
    } else if k == 6 {
    }
}

/// Between two events of one millisecond and one log index, scores and boosters come
/// first and claims last.
pub proof fn law_scores_come_first_and_claims_last(
    events: Seq<Event>,
    sorted: Seq<Event>,
    i: int,
    j: int,
)
    requires
        is_stable_sort(events, sorted),
        0 <= i < j < sorted.len(),
        sorted[i].ts_ms == sorted[j].ts_ms,
        sorted[i].seq == sorted[j].seq,
    ensures
        sorted[i].action is Claim ==> sorted[j].action is Claim,
        sorted[j].action is RecordScore || sorted[j].action is ApplyBooster
            ==> sorted[i].action is RecordScore || sorted[i].action is ApplyBooster,
{
    law_log_index_outranks_rank(events, sorted, i, j);
}

/// The events that agree with `like` in time, log index and kind, in the order in
/// which they stand.
pub open spec fn alike(events: Seq<Event>, like: Event) -> Seq<Event> {
    events.filter(
        |e: Event|
            e.ts_ms == like.ts_ms && e.seq == like.seq && (e.action is Claim <==> like.action is Claim)
                && (e.action is RecordScore || e.action is ApplyBooster <==> like.action is RecordScore
                || like.action is ApplyBooster),
    )
}

proof fn lemma_alike(events: Seq<Event>, like: Event)
    ensures
        alike(events, like) == at_position(events, like.spec_position()),
    decreases events.len(),
{
    reveal(Seq::filter);
    if events.len() > 0 {
        lemma_alike(events.drop_last(), like);
    }
    assert(alike(events, like) =~= at_position(events, like.spec_position()));
}

/// Sorting loses nothing and makes nothing up, and events that agree in time, log
/// index and kind keep the order they came in.
pub proof fn law_sorting_keeps_the_events(events: Seq<Event>, sorted: Seq<Event>, like: Event)
    requires
        is_stable_sort(events, sorted),
    ensures
        sorted.len() == events.len(),
        sorted.to_multiset() == events.to_multiset(),
        alike(sorted, like) == alike(events, like),
{
    lemma_alike(events, like);
    lemma_alike(sorted, like);
    events.to_multiset_ensures();
    sorted.to_multiset_ensures();
}

/// What is claimed adds up: over two rows of claims, and one claim by itself counts
/// its own amount.
pub proof fn law_claims_add_up(a: Seq<(u64, u128)>, b: Seq<(u64, u128)>, ts_ms: u64, amount: u128)
    ensures
        sum_of_claims(a + b) == sum_of_claims(a) + sum_of_claims(b),
        sum_of_claims(seq![(ts_ms, amount)]) == amount,
        sum_of_claims(Seq::empty()) == 0,
    decreases b.len(),
{
    reveal_with_fuel(sum_of_claims, 2);
    assert(seq![(ts_ms, amount)].drop_last() =~= Seq::<(u64, u128)>::empty());
    if b.len() == 0 {
        assert(a + b =~= a);
    } else {
        law_claims_add_up(a, b.drop_last(), ts_ms, amount);
        assert((a + b).drop_last() =~= a + b.drop_last());
    }
}

/// The call is a claim that paid.
pub open spec fn paid(made: (ContractCall, Reply)) -> bool {
    made.0 is ClaimTotal && made.1 is Claimed
}

/// What a claim that paid is reported as.
pub open spec fn payment(made: (ContractCall, Reply)) -> (u64, u128) {
    (made.0->ClaimTotal_event_ts_ms, made.1->Claimed_0)
}

proof fn lemma_payments(calls: Seq<ContractCall>, replies: Seq<Reply>)
    requires
        replies.len() <= calls.len(),
    ensures
        claims_made(calls, replies) == paired(calls, replies).filter(
            |m: (ContractCall, Reply)| paid(m),
        ).map_values(|m: (ContractCall, Reply)| payment(m)),
    decreases replies.len(),
{
    let pred = |m: (ContractCall, Reply)| paid(m);
    let told = |m: (ContractCall, Reply)| payment(m);
    reveal(Seq::filter);
    let made = paired(calls, replies);
    if replies.len() > 0 {
        lemma_payments(calls, replies.drop_last());
        assert(made.drop_last() =~= paired(calls, replies.drop_last()));
        let before = made.drop_last().filter(pred);
        assert(made.last() == (calls[replies.len() - 1], replies.last()));
        if pred(made.last()) {
            assert(before.push(made.last()).map_values(told) =~= before.map_values(told).push(
                told(made.last()),
            ));
        }
    }
    assert(claims_made(calls, replies) =~= made.filter(pred).map_values(told));
}

/// A replay that completed reports exactly the claims that the contract paid, in
/// order, each under the block time of its event; their sum is the total.
pub proof fn law_outcome_reports_what_was_paid(
    calls: Seq<ContractCall>,
    before: Transcript,
    after: Transcript,
    outcome: ReplayOutcome,
)
    requires
        is_run(calls, before, after, outcome),
        outcome.status is Completed,
    ensures
        outcome.per_claim@ == after.skip(before.len() as int).filter(
            |m: (ContractCall, Reply)| paid(m),
        ).map_values(|m: (ContractCall, Reply)| payment(m)),
        outcome.total_claimed == sum_of_claims(outcome.per_claim@),
{
    let replies = choose|replies: Seq<Reply>|
        {
            &&& #[trigger] is_exchange(calls, replies)
            &&& reports(calls, replies, outcome)
            &&& after == before + paired(calls, replies)
        };
    lemma_payments(calls, replies);
    assert(after.skip(before.len() as int) =~= paired(calls, replies));
}

/// A replay ends at the first panic, and only there or where the claims take more
/// than 128 bits; an error reports no claim. The text of the panic is what the error
/// says, without the wrapping of a guest panic.
pub proof fn law_error_tells_the_panic(
    calls: Seq<ContractCall>,
    before: Transcript,
    after: Transcript,
    outcome: ReplayOutcome,
)
    requires
        is_run(calls, before, after, outcome),
        calls.len() > 0,
    ensures
        after.len() > before.len(),
        forall|k: int|
            before.len() <= k < after.len() - 1 ==> !((#[trigger] after[k]).1 is Panicked),
        match after.last().1 {
            Reply::Panicked(text) => {
                &&& outcome.total_claimed == 0
                &&& outcome.per_claim@.len() == 0
                &&& outcome.status matches ReplayStatus::Error(message) && match text {
                    Some(text) => message@ == guest_message(text@),
                    None => message@ == "unknown panic"@,
                }
            },
            _ => match outcome.status {
                ReplayStatus::Completed => after.len() == before.len() + calls.len(),
                ReplayStatus::Error(message) => {
                    &&& after.last().0 is ClaimTotal
                    &&& after.last().1 is Claimed
                    &&& message@ == "attempt to add with overflow"@
                    &&& sum_of_claims(
                        after.skip(before.len() as int).filter(
                            |m: (ContractCall, Reply)| paid(m),
                        ).map_values(|m: (ContractCall, Reply)| payment(m)),
                    ) > u128::MAX
                    &&& outcome.total_claimed == 0
                    &&& outcome.per_claim@.len() == 0
                },
            },
        },
{
    let replies = choose|replies: Seq<Reply>|
        {
            &&& #[trigger] is_exchange(calls, replies)
            &&& reports(calls, replies, outcome)
            &&& after == before + paired(calls, replies)
        };
    let n = replies.len() as int;
    if n == 0 {
        assert(goes_on(calls, replies));
    }
    assert(after.last() == (calls[n - 1], replies[n - 1]));
    assert(replies.last() == replies[n - 1]);
    assert forall|k: int| before.len() <= k < after.len() - 1 implies !((
    #[trigger] after[k]).1 is Panicked) by {
        let j = k - before.len();
        assert(after[k].1 == replies[j]);
        assert(goes_on(calls, replies.take(j + 1)));
        assert(replies.take(j + 1).last() == replies[j]);
    }
    assert(goes_on(calls, replies.take(n - 1)));
    assert(replies.take(n - 1) =~= replies.drop_last());
    lemma_payments(calls, replies);
    assert(after.skip(before.len() as int) =~= paired(calls, replies));
    reveal_strlit("unknown panic");
    reveal_strlit("panic_msg: \"");
    if let Reply::Panicked(text) = replies.last() {
        match text {
            Some(_) => {},
            None => {
                let raw = "unknown panic"@;
                assert forall|at: int| !occurs_at(raw, panic_open(), at) by {
                    if occurs_at(raw, panic_open(), at) {
                        let part = raw.subrange(at, at + panic_open().len());
                        assert(part[0] == raw[at] && part[5] == raw[at + 5]);
                        assert(panic_open()[5] == '_');
                    }
                }
                law_plain_panic_is_kept(raw);
            },
        }
    }
}

/// The message of a guest panic is all that stands between the first opening mark
/// and the last closing one after it, whatever stands around them.
pub proof fn law_guest_message_stands_between_its_marks(
    head: Seq<char>,
    message: Seq<char>,
    tail: Seq<char>,
)
    requires
        forall|at: int|
            at < head.len() ==> !#[trigger] occurs_at(
                head + panic_open() + message + panic_close() + tail,
                panic_open(),
                at,
            ),
        forall|at: int|
            at > message.len() ==> !#[trigger] occurs_at(
                message + panic_close() + tail,
                panic_close(),
                at,
            ),
    ensures
        guest_message(head + panic_open() + message + panic_close() + tail) == message,
{
    let open = panic_open();
    let close = panic_close();
    let raw = head + open + message + close + tail;
    let at = head.len() as int;
    lemma_find_from(raw, open, 0);
    assert(raw.subrange(at, at + open.len()) =~= open);
    assert(occurs_at(raw, open, at));
    assert(find_from(raw, open, 0) == Some(at));
    let rest = raw.subrange(at + open.len(), raw.len() as int);
    assert(rest =~= message + close + tail);
    let end = message.len() as int;
    let last = rest.len() - close.len();
    lemma_rfind_from(rest, close, last);
    assert(rest.subrange(end, end + close.len()) =~= close);
    assert(occurs_at(rest, close, end));
    assert(rfind_from(rest, close, last) == Some(end));
    assert(rest.subrange(0, end) =~= message);
}

/// A panic without the mark that opens a guest message, or without one that closes
/// it, is told as it is.
pub proof fn law_other_panics_are_told_whole(raw: Seq<char>)
    requires
        forall|i: int, j: int|
            #![trigger occurs_at(raw, panic_open(), i), occurs_at(raw, panic_close(), j)]
            occurs_at(raw, panic_open(), i) && occurs_at(raw, panic_close(), j) ==> j < i
                + panic_open().len(),
    ensures
        guest_message(raw) == raw,
{
    let open = panic_open();
    let close = panic_close();
    lemma_find_from(raw, open, 0);
    if let Some(start) = find_from(raw, open, 0) {
        let cut = start + open.len();
        let rest = raw.subrange(cut, raw.len() as int);
        let last = rest.len() - close.len();
        lemma_rfind_from(rest, close, last);
        if let Some(end) = rfind_from(rest, close, last) {
            assert(rest.subrange(end, end + close.len()) =~= raw.subrange(
                cut + end,
                cut + end + close.len(),
            ));
            assert(occurs_at(raw, close, cut + end));
            assert(occurs_at(raw, open, start));
        }
    }
}

/// Before its first event a replay opens the contract for its account, makes the
/// products known, stores the account's state exactly where there is one, byte for
/// byte, and goes to the start of the window: nothing else, in this order.
pub proof fn law_replay_starts_from_its_baseline(
    baseline: Baseline,
    products: Seq<Product>,
    window_start_ms: u64,
    events: Seq<Event>,
)
    ensures
        ({
            let calls = replay_calls(baseline, products, window_start_ms, events);
            let p = products.len() as int;
            let first = if baseline.raw_account is Some {
                p + 3
            } else {
                p + 2
            };
            &&& first <= calls.len()
            &&& calls[0] == (ContractCall::Open { account_id: baseline.account_id })
            &&& forall|i: int|
                1 <= i <= p ==> #[trigger] calls[i] == ContractCall::Register(products[i - 1])
            &&& baseline.raw_account matches Some(raw) ==> calls[p + 1]
                == ContractCall::StoreAccount(raw)
            &&& calls[first - 1] == ContractCall::SetBlockTime(window_start_ms)
            &&& calls.skip(first) == steps_calls(
                events,
                baseline.timezone_ms,
                products,
                events.len() as int,
            )
            &&& forall|k: int| first <= k < calls.len() ==> !(#[trigger] calls[k] is StoreAccount)
        }),
{
    let calls = replay_calls(baseline, products, window_start_ms, events);
    let opening = opening_calls(
        baseline.account_id,
        products,
        baseline.raw_account,
        window_start_ms,
    );
    let steps = steps_calls(events, baseline.timezone_ms, products, events.len() as int);
    let first = opening.len() as int;
    assert(calls =~= opening + steps);
    assert forall|i: int| 1 <= i <= products.len() implies #[trigger] calls[i]
        == ContractCall::Register(products[i - 1]) by {
        assert(opening[i] == register_calls(products)[i - 1]);
    }
    assert(calls.skip(first) =~= steps);
    lemma_steps_store_nothing(events, baseline.timezone_ms, products, events.len() as int);
    assert forall|k: int| first <= k < calls.len() implies !(
    #[trigger] calls[k] is StoreAccount) by {
        assert(calls[k] == steps[k - first]);
    }
}

proof fn lemma_steps_store_nothing(
    events: Seq<Event>,
    timezone_ms: Option<i64>,
    products: Seq<Product>,
    n: int,
)
    requires
        0 <= n <= events.len(),
    ensures
        forall|k: int|
            0 <= k < steps_calls(events, timezone_ms, products, n).len() ==> !(
            #[trigger] steps_calls(events, timezone_ms, products, n)[k] is StoreAccount),
    decreases n,
{
    if n > 0 {
        lemma_steps_store_nothing(events, timezone_ms, products, n - 1);
        let before = steps_calls(events, timezone_ms, products, n - 1);
        let step = step_calls(events, timezone_ms, products, n - 1);
        let all = steps_calls(events, timezone_ms, products, n);
        assert forall|k: int| 0 <= k < all.len() implies !(
        #[trigger] all[k] is StoreAccount) by {
            if k < before.len() {
                assert(all[k] == before[k]);
            } else {
                assert(all[k] == step[k - before.len()]);
                assert(!(step[k - before.len()] is StoreAccount));
            }
        }
    }
}

/// Where the calls of the event at `i` begin.
pub open spec fn step_start(
    baseline: Baseline,
    products: Seq<Product>,
    events: Seq<Event>,
    i: int,
) -> int {
    products.len() + (if baseline.raw_account is Some {
        3int
    } else {
        2int
    }) + steps_calls(events, baseline.timezone_ms, products, i).len()
}

/// A replay goes through its events one after the other, in the order of the
/// timeline: cut after each observation, its calls tell event by event what the
/// timeline holds.
pub proof fn law_events_replay_in_order(
    baseline: Baseline,
    products: Seq<Product>,
    window_start_ms: u64,
    events: Seq<Event>,
    i: int,
)
    requires
        0 <= i < events.len(),
    ensures
        ({
            let calls = replay_calls(baseline, products, window_start_ms, events);
            let from = step_start(baseline, products, events, i);
            let to = step_start(baseline, products, events, i + 1);
            &&& from + 3 < to <= calls.len()
            &&& calls[from] == ContractCall::SetBlockTime(events[i].ts_ms)
            &&& action_told(calls.subrange(from, to - 1)) == Some(events[i].action)
            &&& calls[to - 1] == (ContractCall::Observe { index: i as usize })
            &&& i == events.len() - 1 ==> to == calls.len()
        }),
{
    let tz = baseline.timezone_ms;
    let calls = replay_calls(baseline, products, window_start_ms, events);
    let from = step_start(baseline, products, events, i);
    let to = step_start(baseline, products, events, i + 1);
    let opening = opening_calls(
        baseline.account_id,
        products,
        baseline.raw_account,
        window_start_ms,
    );
    let n = events.len() as int;
    let applied = applied_before(events, tz, products, i);
    lemma_steps_prefix(events, tz, products, i + 1);
    let whole = steps_calls(events, tz, products, n);
    let next = steps_calls(events, tz, products, i + 1);
    let done = steps_calls(events, tz, products, i);
    let step = step_calls(events, tz, products, i);
    law_event_is_told_by_its_calls(events[i], applied, tz, products);
    let own = event_calls(events[i], applied, tz, products);
    assert(step == own.push(ContractCall::Observe { index: i as usize }));
    assert(calls =~= opening + whole);
    assert forall|k: int| 0 <= k < step.len() implies #[trigger] calls[from + k] == step[k] by {
        assert(calls[from + k] == whole[done.len() + k]);
        assert(whole.take(next.len() as int)[done.len() + k] == next[done.len() + k]);
    }
    assert(calls.subrange(from, to - 1) =~= own) by {
        assert forall|k: int| 0 <= k < own.len() implies calls[from + k] == own[k] by {
            assert(calls[from + k] == step[k]);
        }
    }
    assert(calls[from + 0] == step[0]);
    assert(calls[from + own.len()] == step[own.len() as int]);
}

proof fn lemma_steps_prefix(
    events: Seq<Event>,
    timezone_ms: Option<i64>,
    products: Seq<Product>,
    n: int,
)
    requires
        0 <= n <= events.len(),
    ensures
        ({
            let part = steps_calls(events, timezone_ms, products, n);
            let whole = steps_calls(events, timezone_ms, products, events.len() as int);
            part.len() <= whole.len() && whole.take(part.len() as int) == part
        }),
    decreases events.len() - n,
{
    let part = steps_calls(events, timezone_ms, products, n);
    let whole = steps_calls(events, timezone_ms, products, events.len() as int);
    if n < events.len() {
        lemma_steps_prefix(events, timezone_ms, products, n + 1);
        let next = steps_calls(events, timezone_ms, products, n + 1);
        assert(next.take(part.len() as int) =~= part);
        assert(whole.take(next.len() as int).take(part.len() as int) =~= whole.take(
            part.len() as int,
        ));
    } else {
        assert(whole.take(part.len() as int) =~= part);
    }
}

} // verus!
