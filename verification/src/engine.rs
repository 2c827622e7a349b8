//! The replay engine: runs a timeline on the contract, event by event, and
//! reports what came of it.
//!
//! The contract itself runs outside: [`run_timeline`] is handed one that carries
//! out a [`ContractCall`] at a time.

use vstd::prelude::*;

use crate::contract::{Contract, Transcript};
use crate::order::{is_stable_sort, stable_sort, Position, Positioned};
use crate::text::{
    chars_of, cut, find, find_from, lemma_find_from, lemma_rfind_from, occurs_at, rfind,
    rfind_from, same,
};

verus! {

/// Steps of one day, as the oracle reports them.
pub type Score = u16;

/// A single account interaction to replay.
#[derive(Clone, Debug)]
pub enum Action {
    /// One `record_score` call: `(score, timestamp_ms)` increments, as the
    /// oracle batched them.
    RecordScore(Vec<(Score, u64)>),
    Deposit { product_id: String, amount: u128 },
    Withdraw { product_id: String },
    /// A single-source restake, which may target a different product.
    /// `amount` is the principal restaked on-chain; the rest of the matured
    /// principal is withdrawn.
    Restake { from: String, into: String, amount: u128 },
    SetIncreasedScoreCap(bool),
    /// `claim_total()`, run at block time `timestamp_ms`: the time that the
    /// on-chain call itself put into its event.
    Claim { timestamp_ms: u64 },
    ApplyBooster { score: Score, timestamp_ms: u64 },
    /// `withdraw_all` of the named products.
    WithdrawAll { product_ids: Vec<String> },
    /// `restake_all` into `product_id`.
    RestakeAll { product_id: String, amount: u128 },
    /// One `airdrop()` receiver step. Interest is settled before the jar is
    /// created, and the booster is applied after.
    AirdropWithBooster { product_id: String, amount: u128, score: Score, timestamp_ms: u64 },
}

impl Action {
    pub open spec fn spec_rank(&self) -> u8 {
        match self {
            Action::RecordScore(_) | Action::ApplyBooster { .. } => 0,
            Action::Claim { .. } => 2,
            _ => 1,
        }
    }

    /// Breaks a tie between two events of one millisecond and one log index:
    /// scores land first, then state-changing calls, then claims.
    pub fn rank(&self) -> (rank: u8)
        ensures
            rank == self.spec_rank(),
    {
        match self {
            Action::RecordScore(_) | Action::ApplyBooster { .. } => 0,
            Action::Deposit { .. }
            | Action::Withdraw { .. }
            | Action::Restake { .. }
            | Action::SetIncreasedScoreCap(_)
            | Action::WithdrawAll { .. }
            | Action::RestakeAll { .. }
            | Action::AirdropWithBooster { .. } => 1,
            Action::Claim { .. } => 2,
        }
    }

    /// The product in which the action creates a jar, where it creates one.
    pub open spec fn opens_jar_in(&self) -> Option<Seq<char>> {
        match self {
            Action::Deposit { product_id, .. } => Some(product_id@),
            Action::Restake { into, .. } => Some(into@),
            Action::RestakeAll { product_id, .. } => Some(product_id@),
            Action::AirdropWithBooster { product_id, .. } => Some(product_id@),
            _ => None,
        }
    }
}

/// An action with its block time and its log index.
#[derive(Clone, Debug)]
pub struct Event {
    pub ts_ms: u64,
    pub seq: u64,
    pub action: Action,
}

impl Positioned for Event {
    open spec fn spec_position(&self) -> Position {
        Position { ts_ms: self.ts_ms, seq: self.seq, rank: self.action.spec_rank() }
    }

    fn position(&self) -> (position: Position) {
        Position { ts_ms: self.ts_ms, seq: self.seq, rank: self.action.rank() }
    }
}

/// The events of one account.
pub struct Timeline {
    pub events: Vec<Event>,
}

impl Default for Timeline {
    fn default() -> (timeline: Self)
        ensures
            timeline.events@ == Seq::<Event>::empty(),
    {
        Timeline { events: Vec::new() }
    }
}

impl Timeline {
    /// Sorts the events by `(ts_ms, seq, rank)`. The log index `seq` is the
    /// order of the chain itself, so it outranks the rank.
    pub fn sorted(self) -> (timeline: Self)
        ensures
            is_stable_sort(self.events@, timeline.events@),
    {
        Timeline { events: stable_sort(self.events) }
    }
}

/// In a sorted timeline time never runs back, and within one millisecond the
/// log index never does, whatever the ranks of the actions.
pub proof fn law_log_index_outranks_rank(events: Seq<Event>, sorted: Seq<Event>, i: int, j: int)
    requires
        is_stable_sort(events, sorted),
        0 <= i < j < sorted.len(),
    ensures
        sorted[i].ts_ms <= sorted[j].ts_ms,
        sorted[i].ts_ms == sorted[j].ts_ms ==> sorted[i].seq <= sorted[j].seq,
        sorted[i].ts_ms == sorted[j].ts_ms && sorted[i].seq == sorted[j].seq
            ==> sorted[i].action.spec_rank() <= sorted[j].action.spec_rank(),
{
    assert(crate::order::at_or_before(sorted[i].spec_position(), sorted[j].spec_position()));
}

/// The state that a replay starts from.
pub struct Baseline {
    pub account_id: String,
    /// The encoded account, or `None` for a fresh account.
    pub raw_account: Option<Vec<u8>>,
    /// The account's offset from UTC in milliseconds. `None` or `i64::MIN`: not
    /// set.
    pub timezone_ms: Option<i64>,
}

/// How a replay ended.
#[derive(Debug)]
pub enum ReplayStatus {
    Completed,
    Error(String),
}

/// What a replay reports.
#[derive(Debug)]
pub struct ReplayOutcome {
    pub total_claimed: u128,
    pub per_claim: Vec<(u64, u128)>,
    pub status: ReplayStatus,
}

/// What the engine reads of a product: its id, and whether its interest follows
/// the score.
#[derive(Clone, Debug)]
pub struct Product {
    pub id: String,
    pub is_score_based: bool,
}

/// Who signs a call.
#[derive(Clone, Copy, Debug, PartialEq, Eq, Structural)]
pub enum Signer {
    Operator,
    FtContract,
    Account,
}

/// The ticket of a deposit. Its timezone is a fallback for accounts without
/// one: the contract keeps a timezone that is set.
#[derive(Clone, Debug)]
pub struct DepositTicket {
    pub product_id: String,
    pub valid_until: u64,
    pub timezone_ms: Option<i64>,
}

/// One thing to do with the contract.
#[derive(Clone, Debug)]
pub enum ContractCall {
    /// Start a fresh contract, with nothing left over from an earlier one. What
    /// follows is done for the account `account_id`.
    Open { account_id: String },
    /// Make the product known to the contract, on its own terms.
    Register(Product),
    /// Write the encoded account into storage as it stands.
    StoreAccount(Vec<u8>),
    SetBlockTime(u64),
    SwitchTo(Signer),
    SetTimezone(i64),
    RecordScore(Vec<(Score, u64)>),
    Deposit { ticket: DepositTicket, amount: u128 },
    Withdraw { product_id: String },
    Restake { from: String, ticket: DepositTicket, amount: u128 },
    SetIncreasedScoreCap(bool),
    /// Claim everything. The amount is reported under `event_ts_ms`, the block
    /// time of the event, whatever time the claim runs at.
    ClaimTotal { event_ts_ms: u64 },
    ApplyBooster { score: Score, timestamp_ms: u64 },
    WithdrawAll { product_ids: Vec<String> },
    RestakeAll { ticket: DepositTicket, amount: u128 },
    SettleInterestBeforeBooster { score: Score },
    CreateAirdropDeposit { ticket: DepositTicket, amount: u128, now_ms: u64 },
    ApplyAirdropBooster { score: Score, timestamp_ms: u64 },
    /// Read the account and, where it exists, hand its state to whoever traces
    /// the replay, as the state after the event at `index`.
    Observe { index: usize },
}

/// What came of one call.
#[derive(Clone, Debug)]
pub enum Reply {
    Done,
    /// A claim paid at once.
    Claimed(u128),
    /// The contract panicked, with a text or without.
    Panicked(Option<String>),
}

/// The ticket that the engine hands in for `product_id`.
pub open spec fn ticket_for(product_id: String) -> DepositTicket {
    DepositTicket { product_id, valid_until: 0, timezone_ms: Some(0i64) }
}

fn ticket(product_id: String) -> (ticket: DepositTicket)
    ensures
        ticket == ticket_for(product_id),
{
    DepositTicket { product_id, valid_until: 0, timezone_ms: Some(0) }
}

/// The first product with the id `id`.
pub open spec fn find_product(products: Seq<Product>, id: Seq<char>) -> Option<Product>
    decreases products.len(),
{
    if products.len() == 0 {
        None
    } else if products[0].id@ == id {
        Some(products[0])
    } else {
        find_product(products.subrange(1, products.len() as int), id)
    }
}

/// `id` names a product whose interest follows the score.
pub open spec fn is_score_product(products: Seq<Product>, id: Seq<char>) -> bool {
    find_product(products, id) matches Some(product) && product.is_score_based
}

/// The action creates a jar in a product whose interest follows the score.
pub open spec fn opens_score_jar(products: Seq<Product>, action: Action) -> bool {
    action.opens_jar_in() matches Some(id) && is_score_product(products, id)
}

/// The timezone to set before `action`: the account's own, where it has one,
/// where the action creates a score jar, and where it was not set before.
pub open spec fn timezone_due(
    applied: bool,
    timezone_ms: Option<i64>,
    products: Seq<Product>,
    action: Action,
) -> Option<i64> {
    if !applied && timezone_ms is Some && timezone_ms != Some(i64::MIN) && opens_score_jar(
        products,
        action,
    ) {
        timezone_ms
    } else {
        None
    }
}

/// The calls that set the timezone.
pub open spec fn timezone_calls(due: Option<i64>) -> Seq<ContractCall> {
    match due {
        Some(tz) => seq![ContractCall::SwitchTo(Signer::Operator), ContractCall::SetTimezone(tz)],
        None => Seq::empty(),
    }
}

/// The calls that carry out the event's action.
pub open spec fn action_calls(event: Event) -> Seq<ContractCall> {
    match event.action {
        Action::RecordScore(increments) => seq![
            ContractCall::SwitchTo(Signer::Operator),
            ContractCall::RecordScore(increments),
        ],
        Action::Deposit { product_id, amount } => seq![
            ContractCall::SwitchTo(Signer::FtContract),
            ContractCall::Deposit { ticket: ticket_for(product_id), amount },
        ],
        Action::Withdraw { product_id } => seq![
            ContractCall::SwitchTo(Signer::Account),
            ContractCall::Withdraw { product_id },
        ],
        Action::Restake { from, into, amount } => seq![
            ContractCall::SwitchTo(Signer::Account),
            ContractCall::Restake { from, ticket: ticket_for(into), amount },
        ],
        Action::SetIncreasedScoreCap(enabled) => seq![
            ContractCall::SwitchTo(Signer::Operator),
            ContractCall::SetIncreasedScoreCap(enabled),
        ],
        Action::Claim { timestamp_ms } => seq![
            ContractCall::SwitchTo(Signer::Account),
            ContractCall::SetBlockTime(timestamp_ms),
            ContractCall::ClaimTotal { event_ts_ms: event.ts_ms },
        ],
        Action::ApplyBooster { score, timestamp_ms } => seq![
            ContractCall::SwitchTo(Signer::Operator),
            ContractCall::ApplyBooster { score, timestamp_ms },
        ],
        Action::WithdrawAll { product_ids } => seq![
            ContractCall::SwitchTo(Signer::Account),
            ContractCall::WithdrawAll { product_ids },
        ],
        Action::RestakeAll { product_id, amount } => seq![
            ContractCall::SwitchTo(Signer::Account),
            ContractCall::RestakeAll { ticket: ticket_for(product_id), amount },
        ],
        Action::AirdropWithBooster { product_id, amount, score, timestamp_ms } => seq![
            ContractCall::SwitchTo(Signer::Operator),
            ContractCall::SettleInterestBeforeBooster { score },
            ContractCall::CreateAirdropDeposit {
                ticket: ticket_for(product_id),
                amount,
                now_ms: event.ts_ms,
            },
            ContractCall::ApplyAirdropBooster { score, timestamp_ms },
        ],
    }
}

/// Everything that an event asks of the contract: the block time, the timezone
/// where it is due, then the action.
pub open spec fn event_calls(
    event: Event,
    applied: bool,
    timezone_ms: Option<i64>,
    products: Seq<Product>,
) -> Seq<ContractCall> {
    seq![ContractCall::SetBlockTime(event.ts_ms)] + timezone_calls(
        timezone_due(applied, timezone_ms, products, event.action),
    ) + action_calls(event)
}

/// The sum of the claimed amounts.
pub open spec fn sum_of_claims(claims: Seq<(u64, u128)>) -> nat
    decreases claims.len(),
{
    if claims.len() == 0 {
        0
    } else {
        sum_of_claims(claims.drop_last()) + claims.last().1 as nat
    }
}

/// Whether `id` names a product whose interest follows the score.
fn names_score_product(products: &[Product], id: &str) -> (yes: bool)
    ensures
        yes == is_score_product(products@, id@),
{
    let mut i: usize = 0;
    assert(products@.subrange(0, products@.len() as int) =~= products@);
    while i < products.len()
        invariant
            i <= products@.len(),
            find_product(products@, id@) == find_product(
                products@.subrange(i as int, products@.len() as int),
                id@,
            ),
        decreases products@.len() - i,
    {
        let ghost rest = products@.subrange(i as int, products@.len() as int);
        assert(rest[0] == products@[i as int]);
        assert(rest.subrange(1, rest.len() as int) =~= products@.subrange(
            i + 1,
            products@.len() as int,
        ));
        if same(products[i].id.as_str(), id) {
            return products[i].is_score_based;
        }
        i = i + 1;
    }
    false
}

/// The calls that make the products known, in order.
pub open spec fn register_calls(products: Seq<Product>) -> Seq<ContractCall> {
    products.map_values(|product: Product| ContractCall::Register(product))
}

/// The calls that put a contract into the state a replay starts from.
pub open spec fn opening_calls(
    account_id: String,
    products: Seq<Product>,
    raw_account: Option<Vec<u8>>,
    window_start_ms: u64,
) -> Seq<ContractCall> {
    seq![ContractCall::Open { account_id }] + register_calls(products) + (match raw_account {
        Some(raw) => seq![ContractCall::StoreAccount(raw)],
        None => Seq::empty(),
    }) + seq![ContractCall::SetBlockTime(window_start_ms)]
}

/// The calls that put a contract into the state a replay starts from.
pub fn begin_replay(
    account_id: String,
    products: &[Product],
    raw_account: Option<Vec<u8>>,
    window_start_ms: u64,
) -> (calls: Vec<ContractCall>)
    ensures
        calls@ == opening_calls(account_id, products@, raw_account, window_start_ms),
{
    let mut calls: Vec<ContractCall> = Vec::new();
    calls.push(ContractCall::Open { account_id });
    let ghost open = calls@;
    for i in 0..products.len()
        invariant
            calls@ == open + register_calls(products@.take(i as int)),
    {
        let id: String = products[i].id.clone();
        calls.push(
            ContractCall::Register(Product { id, is_score_based: products[i].is_score_based }),
        );
        assert(products@.take(i + 1) =~= products@.take(i as int).push(products@[i as int]));
        assert(register_calls(products@.take(i + 1)) =~= register_calls(
            products@.take(i as int),
        ).push(ContractCall::Register(products@[i as int])));
    }
    assert(products@.take(products@.len() as int) =~= products@);
    if let Some(raw) = raw_account {
        calls.push(ContractCall::StoreAccount(raw));
    }
    calls.push(ContractCall::SetBlockTime(window_start_ms));
    calls
}

/// A replay under way.
pub struct Replay {
    timezone_applied: bool,
    total_claimed: u128,
    per_claim: Vec<(u64, u128)>,
}

impl Replay {
    /// The timezone was set in this replay.
    pub closed spec fn timezone_applied(&self) -> bool {
        self.timezone_applied
    }

    /// The claims that paid, in order.
    pub closed spec fn claims(&self) -> Seq<(u64, u128)> {
        self.per_claim@
    }

    /// The running total is the sum of the claims.
    pub closed spec fn wf(&self) -> bool {
        self.total_claimed == sum_of_claims(self.per_claim@)
    }

    pub fn new() -> (replay: Self)
        ensures
            replay.wf(),
            !replay.timezone_applied(),
            replay.claims() == Seq::<(u64, u128)>::empty(),
    {
        Replay { timezone_applied: false, total_claimed: 0, per_claim: Vec::new() }
    }

    /// The timezone to set immediately before the account's first jar in a
    /// score product, whose id is `product_id`.
    fn set_timezone_before_score_jar(
        &mut self,
        calls: &mut Vec<ContractCall>,
        timezone_ms: Option<i64>,
        products: &[Product],
        product_id: &str,
    )
        ensures
            ({
                let due = if !old(self).timezone_applied && timezone_ms is Some && timezone_ms
                    != Some(i64::MIN) && is_score_product(products@, product_id@) {
                    timezone_ms
                } else {
                    None
                };
                &&& final(calls)@ == old(calls)@ + timezone_calls(due)
                &&& *final(self) == (Replay {
                    timezone_applied: old(self).timezone_applied || due is Some,
                    ..*old(self)
                })
            }),
    {
        if self.timezone_applied {
            return ;
        }
        let tz: i64 = match timezone_ms {
            Some(tz) => tz,
            None => {
                return ;
            },
        };
        if tz == i64::MIN {
            return ;
        }
        if !names_score_product(products, product_id) {
            return ;
        }
        calls.push(ContractCall::SwitchTo(Signer::Operator));
        calls.push(ContractCall::SetTimezone(tz));
        self.timezone_applied = true;
    }

    /// What to do with the contract for the next event, in order.
    pub fn plan_event(
        &mut self,
        event: Event,
        timezone_ms: Option<i64>,
        products: &[Product],
    ) -> (calls: Vec<ContractCall>)
        requires
            old(self).wf(),
        ensures
            calls@ == event_calls(event, old(self).timezone_applied(), timezone_ms, products@),
            final(self).wf(),
            final(self).timezone_applied() == (old(self).timezone_applied() || timezone_due(
                old(self).timezone_applied(),
                timezone_ms,
                products@,
                event.action,
            ) is Some),
            final(self).claims() == old(self).claims(),
    {
        let ts_ms: u64 = event.ts_ms;
        let mut calls: Vec<ContractCall> = Vec::new();
        calls.push(ContractCall::SetBlockTime(ts_ms));
        match event.action {
            Action::RecordScore(increments) => {
                calls.push(ContractCall::SwitchTo(Signer::Operator));
                calls.push(ContractCall::RecordScore(increments));
            },
            Action::Deposit { product_id, amount } => {
                self.set_timezone_before_score_jar(
                    &mut calls,
                    timezone_ms,
                    products,
                    product_id.as_str(),
                );
                calls.push(ContractCall::SwitchTo(Signer::FtContract));
                calls.push(ContractCall::Deposit { ticket: ticket(product_id), amount });
            },
            Action::Withdraw { product_id } => {
                calls.push(ContractCall::SwitchTo(Signer::Account));
                calls.push(ContractCall::Withdraw { product_id });
            },
            Action::Restake { from, into, amount } => {
                self.set_timezone_before_score_jar(
                    &mut calls,
                    timezone_ms,
                    products,
                    into.as_str(),
                );
                calls.push(ContractCall::SwitchTo(Signer::Account));
                calls.push(ContractCall::Restake { from, ticket: ticket(into), amount });
            },
            Action::SetIncreasedScoreCap(enabled) => {
                calls.push(ContractCall::SwitchTo(Signer::Operator));
                calls.push(ContractCall::SetIncreasedScoreCap(enabled));
            },
            Action::Claim { timestamp_ms } => {
                calls.push(ContractCall::SwitchTo(Signer::Account));
                calls.push(ContractCall::SetBlockTime(timestamp_ms));
                calls.push(ContractCall::ClaimTotal { event_ts_ms: ts_ms });
            },
            Action::ApplyBooster { score, timestamp_ms } => {
                calls.push(ContractCall::SwitchTo(Signer::Operator));
                calls.push(ContractCall::ApplyBooster { score, timestamp_ms });
            },
            Action::WithdrawAll { product_ids } => {
                calls.push(ContractCall::SwitchTo(Signer::Account));
                calls.push(ContractCall::WithdrawAll { product_ids });
            },
            Action::RestakeAll { product_id, amount } => {
                self.set_timezone_before_score_jar(
                    &mut calls,
                    timezone_ms,
                    products,
                    product_id.as_str(),
                );
                calls.push(ContractCall::SwitchTo(Signer::Account));
                calls.push(ContractCall::RestakeAll { ticket: ticket(product_id), amount });
            },
            Action::AirdropWithBooster { product_id, amount, score, timestamp_ms } => {
                self.set_timezone_before_score_jar(
                    &mut calls,
                    timezone_ms,
                    products,
                    product_id.as_str(),
                );
                calls.push(ContractCall::SwitchTo(Signer::Operator));
                calls.push(ContractCall::SettleInterestBeforeBooster { score });
                calls.push(
                    ContractCall::CreateAirdropDeposit {
                        ticket: ticket(product_id),
                        amount,
                        now_ms: ts_ms,
                    },
                );
                calls.push(ContractCall::ApplyAirdropBooster { score, timestamp_ms });
            },
        }
        calls
    }

    /// Takes the amount that a claim paid, under the block time of its event. A
    /// total past 128 bits ends the replay in an error, as it ends the
    /// contract's own sum.
    pub fn record_claim(&mut self, ts_ms: u64, amount: u128) -> (recorded: Result<
        (),
        ReplayOutcome,
    >)
        requires
            old(self).wf(),
        ensures
            final(self).wf(),
            final(self).timezone_applied() == old(self).timezone_applied(),
            recorded is Ok <==> sum_of_claims(old(self).claims()) + amount <= u128::MAX,
            recorded is Ok ==> final(self).claims() == old(self).claims().push((ts_ms, amount)),
            recorded matches Err(outcome) ==> final(self).claims() == old(self).claims()
                && is_error(outcome, "attempt to add with overflow"@) && is_consistent(outcome),
    {
        match self.total_claimed.checked_add(amount) {
            Some(total) => {
                let ghost before = self.per_claim@;
                self.per_claim.push((ts_ms, amount));
                self.total_claimed = total;
                assert(self.per_claim@.drop_last() =~= before);
                Ok(())
            },
            None => {
                Err(
                    ReplayOutcome {
                        total_claimed: 0,
                        per_claim: Vec::new(),
                        status: ReplayStatus::Error("attempt to add with overflow".to_owned()),
                    },
                )
            },
        }
    }

    /// The outcome of a replay that went through every event.
    pub fn finish(self) -> (outcome: ReplayOutcome)
        requires
            self.wf(),
        ensures
            outcome.per_claim@ == self.claims(),
            outcome.total_claimed == sum_of_claims(self.claims()),
            outcome.status is Completed,
            is_consistent(outcome),
    {
        ReplayOutcome {
            total_claimed: self.total_claimed,
            per_claim: self.per_claim,
            status: ReplayStatus::Completed,
        }
    }
}

/// The total of an outcome is the sum of its claims, and an outcome that ended
/// in an error reports no claim.
pub open spec fn is_consistent(outcome: ReplayOutcome) -> bool {
    &&& outcome.total_claimed == sum_of_claims(outcome.per_claim@)
    &&& outcome.status is Error ==> outcome.per_claim@.len() == 0
}

/// The outcome reports `message` and no claim.
pub open spec fn is_error(outcome: ReplayOutcome, message: Seq<char>) -> bool {
    &&& outcome.status matches ReplayStatus::Error(reported) && reported@ == message
    &&& outcome.total_claimed == 0
    &&& outcome.per_claim@ == Seq::<(u64, u128)>::empty()
}

/// What opens the message of a guest panic.
pub open spec fn panic_open() -> Seq<char> {
    "panic_msg: \""@
}

/// What closes the message of a guest panic.
pub open spec fn panic_close() -> Seq<char> {
    "\" }"@
}

/// The message inside a wrapped guest panic: what stands between the first
/// `panic_msg: "` and the last `" }` after it. Any other text is its own
/// message.
pub open spec fn guest_message(raw: Seq<char>) -> Seq<char> {
    match find_from(raw, panic_open(), 0) {
        Some(start) => {
            let rest = raw.subrange(start + panic_open().len(), raw.len() as int);
            match rfind_from(rest, panic_close(), rest.len() - panic_close().len()) {
                Some(end) => rest.subrange(0, end),
                None => raw,
            }
        },
        None => raw,
    }
}

/// The contract's mock reports a guest panic as
/// `… HostError(GuestPanic { panic_msg: "…" })`. This pulls the inner message
/// out, so that error rows carry the reason itself.
pub fn unwrap_guest_panic(raw: &str) -> (message: String)
    ensures
        message@ == guest_message(raw@),
{
    let chars = chars_of(raw);
    let open = chars_of("panic_msg: \"");
    if let Some(start) = find(&chars, &open) {
        assert(chars@.len() == chars.len());
        let rest = cut(raw, start + open.len(), chars.len());
        let tail = chars_of(rest.as_str());
        let close = chars_of("\" }");
        if let Some(end) = rfind(&tail, &close) {
            return cut(rest.as_str(), 0, end);
        }
    }
    raw.to_owned()
}

/// The outcome of a replay that the contract panicked out of; `payload` is the
/// text of the panic, where it has one.
pub fn contract_panicked(payload: Option<&str>) -> (outcome: ReplayOutcome)
    ensures
        is_error(
            outcome,
            guest_message(
                match payload {
                    Some(text) => text@,
                    None => "unknown panic"@,
                },
            ),
        ),
        is_consistent(outcome),
{
    let raw: &str = match payload {
        Some(text) => text,
        None => "unknown panic",
    };
    ReplayOutcome {
        total_claimed: 0,
        per_claim: Vec::new(),
        status: ReplayStatus::Error(unwrap_guest_panic(raw)),
    }
}

/// Before the event at `i`, a replay of `events` has set the timezone.
pub open spec fn applied_before(
    events: Seq<Event>,
    timezone_ms: Option<i64>,
    products: Seq<Product>,
    i: int,
) -> bool
    decreases i,
{
    if i <= 0 {
        false
    } else {
        let earlier = applied_before(events, timezone_ms, products, i - 1);
        earlier || timezone_due(earlier, timezone_ms, products, events[i - 1].action) is Some
    }
}

pub(crate) proof fn lemma_applied_before(
    events: Seq<Event>,
    timezone_ms: Option<i64>,
    products: Seq<Product>,
    i: int,
)
    requires
        0 <= i <= events.len(),
    ensures
        applied_before(events, timezone_ms, products, i) == (timezone_ms is Some && timezone_ms
            != Some(i64::MIN) && exists|k: int|
            0 <= k < i && opens_score_jar(products, (#[trigger] events[k]).action)),
    decreases i,
{
    if i > 0 {
        lemma_applied_before(events, timezone_ms, products, i - 1);
        if timezone_ms is Some && timezone_ms != Some(i64::MIN) {
            if opens_score_jar(products, events[i - 1].action) {
                assert(0 <= i - 1 < i && opens_score_jar(products, events[i - 1].action));
            }
        }
    }
}

/// What the event at `i` asks of the contract in a replay of `events`.
pub open spec fn step_calls(
    events: Seq<Event>,
    timezone_ms: Option<i64>,
    products: Seq<Product>,
    i: int,
) -> Seq<ContractCall> {
    event_calls(
        events[i],
        applied_before(events, timezone_ms, products, i),
        timezone_ms,
        products,
    ).push(ContractCall::Observe { index: i as usize })
}

/// What the first `n` events ask of the contract, one after the other.
pub open spec fn steps_calls(
    events: Seq<Event>,
    timezone_ms: Option<i64>,
    products: Seq<Product>,
    n: int,
) -> Seq<ContractCall>
    decreases n,
{
    if n <= 0 {
        Seq::empty()
    } else {
        steps_calls(events, timezone_ms, products, n - 1) + step_calls(
            events,
            timezone_ms,
            products,
            n - 1,
        )
    }
}

/// Everything that a replay asks of the contract, in order.
pub open spec fn replay_calls(
    baseline: Baseline,
    products: Seq<Product>,
    window_start_ms: u64,
    events: Seq<Event>,
) -> Seq<ContractCall> {
    opening_calls(
        baseline.account_id,
        products,
        baseline.raw_account,
        window_start_ms,
    ) + steps_calls(
        events,
        baseline.timezone_ms,
        products,
        events.len() as int,
    )
}

/// The claims that were paid, under the block times of their events.
pub open spec fn claims_made(calls: Seq<ContractCall>, replies: Seq<Reply>) -> Seq<(u64, u128)>
    decreases replies.len(),
{
    if replies.len() == 0 {
        Seq::empty()
    } else {
        let earlier = claims_made(calls, replies.drop_last());
        match (calls[replies.len() - 1], replies.last()) {
            (ContractCall::ClaimTotal { event_ts_ms }, Reply::Claimed(amount)) => earlier.push(
                (event_ts_ms, amount),
            ),
            _ => earlier,
        }
    }
}

/// A replay that got `replies` so far goes on.
pub open spec fn goes_on(calls: Seq<ContractCall>, replies: Seq<Reply>) -> bool {
    &&& replies.len() == 0 || !(replies.last() is Panicked)
    &&& sum_of_claims(claims_made(calls, replies)) <= u128::MAX
}

/// `outcome` is what a replay reports that ended with `replies`.
pub open spec fn reports(
    calls: Seq<ContractCall>,
    replies: Seq<Reply>,
    outcome: ReplayOutcome,
) -> bool {
    if goes_on(calls, replies) {
        &&& replies.len() == calls.len()
        &&& outcome.status is Completed
        &&& outcome.per_claim@ == claims_made(calls, replies)
        &&& outcome.total_claimed == sum_of_claims(claims_made(calls, replies))
    } else {
        is_error(
            outcome,
            match replies.last() {
                Reply::Panicked(text) => guest_message(
                    match text {
                        Some(text) => text@,
                        None => "unknown panic"@,
                    },
                ),
                _ => "attempt to add with overflow"@,
            },
        )
    }
}

/// `replies` are what a replay got that makes `calls` one after the other and makes
/// none after a reply that ended it.
pub open spec fn is_exchange(calls: Seq<ContractCall>, replies: Seq<Reply>) -> bool {
    &&& replies.len() <= calls.len()
    &&& forall|k: int| 0 <= k < replies.len() ==> goes_on(calls, #[trigger] replies.take(k))
}

/// The first calls, each with its reply.
pub open spec fn paired(calls: Seq<ContractCall>, replies: Seq<Reply>) -> Transcript {
    Seq::new(replies.len(), |k: int| (calls[k], replies[k]))
}

/// A contract on which the calls `before` were made went through a replay that
/// makes `calls`, and `after` are the calls made on it then: those of the replay,
/// in order, up to where it ended, and no others. The replay reported `outcome`.
pub open spec fn is_run(
    calls: Seq<ContractCall>,
    before: Transcript,
    after: Transcript,
    outcome: ReplayOutcome,
) -> bool {
    exists|replies: Seq<Reply>|
        {
            &&& #[trigger] is_exchange(calls, replies)
            &&& reports(calls, replies, outcome)
            &&& after == before + paired(calls, replies)
        }
}

proof fn lemma_exchange_goes_on(
    calls: Seq<ContractCall>,
    replies: Seq<Reply>,
    reply: Reply,
)
    requires
        is_exchange(calls, replies),
        goes_on(calls, replies),
        replies.len() < calls.len(),
    ensures
        is_exchange(calls, replies.push(reply)),
        paired(calls, replies.push(reply)) == paired(calls, replies).push(
            (calls[replies.len() as int], reply),
        ),
        claims_made(calls, replies.push(reply)) == (match (calls[replies.len() as int], reply) {
            (ContractCall::ClaimTotal { event_ts_ms }, Reply::Claimed(amount)) => claims_made(
                calls,
                replies,
            ).push((event_ts_ms, amount)),
            _ => claims_made(calls, replies),
        }),
{
    let longer = replies.push(reply);
    assert(longer.drop_last() =~= replies);
    assert(paired(calls, longer) =~= paired(calls, replies).push(
        (calls[replies.len() as int], reply),
    ));
    assert forall|k: int| 0 <= k < longer.len() implies goes_on(
        calls,
        #[trigger] longer.take(k),
    ) by {
        if k < replies.len() {
            assert(longer.take(k) =~= replies.take(k));
        } else {
            assert(longer.take(k) =~= replies);
        }
    }
}

/// Makes the calls in `calls`, which stand in `all` after those that got
/// `before`; on the contract those came after `start`. Ends early with the outcome
/// of a replay that does not go on.
fn perform<C: Contract>(
    contract: &mut C,
    replay: &mut Replay,
    calls: Vec<ContractCall>,
    Ghost(all): Ghost<Seq<ContractCall>>,
    Ghost(start): Ghost<Transcript>,
    Ghost(before): Ghost<Seq<Reply>>,
) -> (done: (Option<ReplayOutcome>, Ghost<Seq<Reply>>))
    requires
        old(replay).wf(),
        is_exchange(all, before),
        goes_on(all, before),
        old(contract).made() == start + paired(all, before),
        old(replay).claims() == claims_made(all, before),
        before.len() + calls@.len() <= all.len(),
        all.subrange(before.len() as int, (before.len() + calls@.len()) as int) == calls@,
    ensures
        final(replay).wf(),
        final(replay).timezone_applied() == old(replay).timezone_applied(),
        is_exchange(all, done.1@),
        final(contract).made() == start + paired(all, done.1@),
        match done.0 {
            Some(outcome) => reports(all, done.1@, outcome) && !goes_on(all, done.1@)
                && is_consistent(outcome),
            None => {
                &&& goes_on(all, done.1@)
                &&& done.1@.len() == before.len() + calls@.len()
                &&& final(replay).claims() == claims_made(all, done.1@)
            },
        },
{
    let ghost mut replies = before;
    let ghost given = calls@;
    let ghost applied = replay.timezone_applied();
    for call in it: calls
        invariant
            it.seq() == given,
            given == calls@,
            replay.wf(),
            replay.timezone_applied() == applied,
            applied == old(replay).timezone_applied(),
            is_exchange(all, replies),
            goes_on(all, replies),
            contract.made() == start + paired(all, replies),
            replay.claims() == claims_made(all, replies),
            replies.len() == before.len() + it.index(),
            before.len() + given.len() <= all.len(),
            all.subrange(before.len() as int, (before.len() + given.len()) as int) == given,
    {
        let ghost k = it.index() as int;
        let ghost asked = call;
        proof {
            let part = all.subrange(before.len() as int, (before.len() + given.len()) as int);
            assert(part[k] == given[k]);
            assert(all[before.len() + k] == asked);
        }
        let claim: Option<u64> = match &call {
            ContractCall::ClaimTotal { event_ts_ms } => Some(*event_ts_ms),
            _ => None,
        };
        let ghost made = contract.made();
        let reply = contract.carry_out(call);
        let ghost said = reply;
        let ghost earlier = replies;
        proof {
            lemma_exchange_goes_on(all, replies, reply);
            replies = replies.push(reply);
            assert(replies.last() == said);
            assert(contract.made() == made.push((asked, said)));
            assert(contract.made() =~= start + paired(all, replies));
        }
        match reply {
            Reply::Done => {},
            Reply::Claimed(amount) => {
                if let Some(ts_ms) = claim {
                    proof {
                        let claims = claims_made(all, earlier).push((ts_ms, amount));
                        assert(claims.drop_last() =~= claims_made(all, earlier));
                    }
                    if let Err(outcome) = replay.record_claim(ts_ms, amount) {
                        return (Some(outcome), Ghost(replies));
                    }
                }
            },
            Reply::Panicked(text) => {
                let outcome = match &text {
                    Some(text) => contract_panicked(Some(text.as_str())),
                    None => contract_panicked(None),
                };
                return (Some(outcome), Ghost(replies));
            },
        }
    }
    (None, Ghost(replies))
}

/// Runs the timeline on a fresh contract and reports what came of it. A panic
/// of the contract ends the replay and is reported, never passed on.
///
/// After every event the contract is asked to observe the account, with the index
/// of the event in the timeline. A withdrawal takes the whole liquid principal of
/// the jar: the contract has no partial one.
pub fn run_timeline_traced<C: Contract>(
    baseline: Baseline,
    products: &[Product],
    window_start_ms: u64,
    timeline: Timeline,
    contract: &mut C,
) -> (outcome: ReplayOutcome)
    ensures
        is_run(
            replay_calls(baseline, products@, window_start_ms, timeline.events@),
            old(contract).made(),
            final(contract).made(),
            outcome,
        ),
        is_consistent(outcome),
{
    let ghost events = timeline.events@;
    let ghost all = replay_calls(baseline, products@, window_start_ms, events);
    let ghost start = contract.made();
    let timezone_ms: Option<i64> = baseline.timezone_ms;
    let mut replay = Replay::new();
    let calls = begin_replay(
        baseline.account_id,
        products,
        baseline.raw_account,
        window_start_ms,
    );
    let ghost opening = opening_calls(
        baseline.account_id,
        products@,
        baseline.raw_account,
        window_start_ms,
    );
    let ghost none: Seq<Reply> = Seq::empty();
    proof {
        assert(all.subrange(0, opening.len() as int) =~= opening);
        assert(start + paired(all, none) =~= start);
    }
    let (ended, Ghost(replies)): (Option<ReplayOutcome>, Ghost<Seq<Reply>>) = perform(
        contract,
        &mut replay,
        calls,
        Ghost(all),
        Ghost(start),
        Ghost(none),
    );
    if let Some(outcome) = ended {
        return outcome;
    }
    let ghost mut replies = replies;
    let mut index: usize = 0;
    assert(timeline.events.len() == events.len());
    for event in it: timeline.events
        invariant
            it.seq() == events,
            events == timeline.events@,
            index == it.index(),
            events.len() <= usize::MAX,
            all == replay_calls(baseline, products@, window_start_ms, events),
            all == opening + steps_calls(events, timezone_ms, products@, events.len() as int),
            timezone_ms == baseline.timezone_ms,
            start == old(contract).made(),
            replay.wf(),
            replay.timezone_applied() == applied_before(
                events,
                timezone_ms,
                products@,
                it.index() as int,
            ),
            is_exchange(all, replies),
            goes_on(all, replies),
            contract.made() == start + paired(all, replies),
            replay.claims() == claims_made(all, replies),
            replies.len() == opening.len() + steps_calls(
                events,
                timezone_ms,
                products@,
                it.index() as int,
            ).len(),
    {
        let ghost i = it.index() as int;
        assert(events[i] == event);
        let mut calls = replay.plan_event(event, timezone_ms, products);
        calls.push(ContractCall::Observe { index });
        assert(calls@ =~= step_calls(events, timezone_ms, products@, i));
        proof {
            lemma_steps_are_a_prefix(events, timezone_ms, products@, i + 1);
            let whole = steps_calls(events, timezone_ms, products@, events.len() as int);
            let done = steps_calls(events, timezone_ms, products@, i);
            let next = steps_calls(events, timezone_ms, products@, i + 1);
            assert(next == done + calls@);
            assert(whole.take(next.len() as int) == next);
            let at = replies.len() as int;
            assert(all.subrange(at, at + calls@.len()) =~= calls@) by {
                assert forall|k: int| 0 <= k < calls@.len() implies all[at + k] == calls@[k] by {
                    assert(all[at + k] == whole[done.len() + k]);
                    assert(whole.take(next.len() as int)[done.len() + k] == next[done.len() + k]);
                }
            }
        }
        let (ended, Ghost(longer)): (Option<ReplayOutcome>, Ghost<Seq<Reply>>) = perform(
            contract,
            &mut replay,
            calls,
            Ghost(all),
            Ghost(start),
            Ghost(replies),
        );
        if let Some(outcome) = ended {
            return outcome;
        }
        proof {
            replies = longer;
        }
        index = index + 1;
    }
    let outcome = replay.finish();
    assert(reports(all, replies, outcome));
    outcome
}

/// Runs the timeline as [`run_timeline_traced`] does, for a caller that does not
/// follow the states in between.
pub fn run_timeline<C: Contract>(
    baseline: Baseline,
    products: &[Product],
    window_start_ms: u64,
    timeline: Timeline,
    contract: &mut C,
) -> (outcome: ReplayOutcome)
    ensures
        is_run(
            replay_calls(baseline, products@, window_start_ms, timeline.events@),
            old(contract).made(),
            final(contract).made(),
            outcome,
        ),
        is_consistent(outcome),
{
    run_timeline_traced(baseline, products, window_start_ms, timeline, contract)
}

/// The calls of a transcript alone.
pub open spec fn calls_of(made: Transcript) -> Seq<ContractCall> {
    made.map_values(|m: (ContractCall, Reply)| m.0)
}

/// A replay that completed made exactly its calls, in order, and the contract
/// panicked in none.
pub proof fn law_completed_replay_ran_every_event(
    calls: Seq<ContractCall>,
    before: Transcript,
    after: Transcript,
    outcome: ReplayOutcome,
)
    requires
        is_run(calls, before, after, outcome),
        outcome.status is Completed,
    ensures
        before.len() <= after.len(),
        after.take(before.len() as int) == before,
        calls_of(after.skip(before.len() as int)) == calls,
        forall|k: int| before.len() <= k < after.len() ==> !((#[trigger] after[k]).1 is Panicked),
{
    let replies = choose|replies: Seq<Reply>|
        {
            &&& #[trigger] is_exchange(calls, replies)
            &&& reports(calls, replies, outcome)
            &&& after == before + paired(calls, replies)
        };
    assert(after.take(before.len() as int) =~= before);
    assert(calls_of(after.skip(before.len() as int)) =~= calls);
    assert forall|k: int| before.len() <= k < after.len() implies !((
    #[trigger] after[k]).1 is Panicked) by {
        let j = k - before.len();
        assert(after[k].1 == replies[j]);
        if j < replies.len() - 1 {
            assert(goes_on(calls, replies.take(j + 1)));
            assert(replies.take(j + 1).last() == replies[j]);
        } else {
            assert(replies.last() == replies[j]);
        }
    }
}

/// Every replay, however it ended, made a first part of its calls, in order, and
/// no others.
pub proof fn law_replay_makes_no_other_calls(
    calls: Seq<ContractCall>,
    before: Transcript,
    after: Transcript,
    outcome: ReplayOutcome,
)
    requires
        is_run(calls, before, after, outcome),
    ensures
        before.len() <= after.len() <= before.len() + calls.len(),
        after.take(before.len() as int) == before,
        calls_of(after.skip(before.len() as int)) == calls.take(after.len() - before.len()),
{
    let replies = choose|replies: Seq<Reply>|
        {
            &&& #[trigger] is_exchange(calls, replies)
            &&& reports(calls, replies, outcome)
            &&& after == before + paired(calls, replies)
        };
    assert(after.take(before.len() as int) =~= before);
    assert(calls_of(after.skip(before.len() as int)) =~= calls.take(replies.len() as int));
}

/// The observations among the calls.
pub open spec fn observations(calls: Seq<ContractCall>) -> Seq<ContractCall> {
    calls.filter(|call: ContractCall| call is Observe)
}

proof fn lemma_nothing_observed(calls: Seq<ContractCall>)
    requires
        forall|k: int| 0 <= k < calls.len() ==> !(#[trigger] calls[k] is Observe),
    ensures
        observations(calls) == Seq::<ContractCall>::empty(),
    decreases calls.len(),
{
    reveal(Seq::filter);
    if calls.len() > 0 {
        let rest = calls.drop_last();
        assert forall|k: int| 0 <= k < rest.len() implies !(#[trigger] rest[k] is Observe) by {
            assert(rest[k] == calls[k]);
        }
        lemma_nothing_observed(rest);
        assert(!(calls[calls.len() - 1] is Observe));
    }
}

proof fn lemma_steps_observe(
    events: Seq<Event>,
    timezone_ms: Option<i64>,
    products: Seq<Product>,
    n: int,
)
    requires
        0 <= n <= events.len(),
    ensures
        observations(steps_calls(events, timezone_ms, products, n)) == Seq::new(
            n as nat,
            |i: int| ContractCall::Observe { index: i as usize },
        ),
    decreases n,
{
    let pred = |call: ContractCall| call is Observe;
    reveal(Seq::filter);
    if n > 0 {
        lemma_steps_observe(events, timezone_ms, products, n - 1);
        let before = steps_calls(events, timezone_ms, products, n - 1);
        let acts = event_calls(
            events[n - 1],
            applied_before(events, timezone_ms, products, n - 1),
            timezone_ms,
            products,
        );
        let step = step_calls(events, timezone_ms, products, n - 1);
        lemma_event_calls_observe_nothing(
            events[n - 1],
            applied_before(events, timezone_ms, products, n - 1),
            timezone_ms,
            products,
        );
        lemma_nothing_observed(acts);
        assert(step.drop_last() =~= acts);
        assert(step.filter(pred) =~= seq![ContractCall::Observe { index: (n - 1) as usize }]);
        Seq::filter_distributes_over_add(before, step, pred);
        assert(observations(before + step) =~= Seq::new(
            n as nat,
            |i: int| ContractCall::Observe { index: i as usize },
        ));
    } else {
        assert(observations(steps_calls(events, timezone_ms, products, n)) =~= Seq::new(
            n as nat,
            |i: int| ContractCall::Observe { index: i as usize },
        ));
    }
}

proof fn lemma_event_calls_observe_nothing(
    event: Event,
    applied: bool,
    timezone_ms: Option<i64>,
    products: Seq<Product>,
)
    ensures
        forall|k: int|
            0 <= k < event_calls(event, applied, timezone_ms, products).len() ==> !(
            #[trigger] event_calls(event, applied, timezone_ms, products)[k] is Observe),
{
    let calls = event_calls(event, applied, timezone_ms, products);
    let zone = timezone_calls(timezone_due(applied, timezone_ms, products, event.action));
    let acts = action_calls(event);
    assert forall|k: int| 0 <= k < acts.len() implies !(#[trigger] acts[k] is Observe) by {
    }
    assert forall|k: int| 0 <= k < calls.len() implies !(#[trigger] calls[k] is Observe) by {
        if k >= 1 + zone.len() {
            assert(calls[k] == acts[k - 1 - zone.len()]);
        } else if k >= 1 {
            assert(calls[k] == zone[k - 1]);
        }
    }
}

/// A replay that completed observed the account exactly once per event, in order:
/// after event `0`, after event `1`, and so on. The observation of event `i` is the
/// last of that event's calls, so it comes before the first call of event `i + 1`.
pub proof fn law_every_event_is_observed_once(
    baseline: Baseline,
    products: Seq<Product>,
    window_start_ms: u64,
    events: Seq<Event>,
    before: Transcript,
    after: Transcript,
    outcome: ReplayOutcome,
)
    requires
        is_run(
            replay_calls(baseline, products, window_start_ms, events),
            before,
            after,
            outcome,
        ),
        outcome.status is Completed,
    ensures
        observations(calls_of(after.skip(before.len() as int))) == Seq::new(
            events.len(),
            |i: int| ContractCall::Observe { index: i as usize },
        ),
        forall|i: int|
            0 <= i < events.len() ==> (#[trigger] step_calls(
                events,
                baseline.timezone_ms,
                products,
                i,
            )).last() == (ContractCall::Observe { index: i as usize }),
{
    let calls = replay_calls(baseline, products, window_start_ms, events);
    law_completed_replay_ran_every_event(calls, before, after, outcome);
    let opening = opening_calls(
        baseline.account_id,
        products,
        baseline.raw_account,
        window_start_ms,
    );
    let steps = steps_calls(events, baseline.timezone_ms, products, events.len() as int);
    lemma_nothing_observed(opening);
    lemma_steps_observe(events, baseline.timezone_ms, products, events.len() as int);
    Seq::filter_distributes_over_add(opening, steps, |call: ContractCall| call is Observe);
    assert(observations(calls) =~= observations(steps));
}

/// Two outcomes report the same total, the same claims, and the same status down
/// to the text of an error.
pub open spec fn same_outcome(a: ReplayOutcome, b: ReplayOutcome) -> bool {
    &&& a.total_claimed == b.total_claimed
    &&& a.per_claim@ == b.per_claim@
    &&& match (a.status, b.status) {
        (ReplayStatus::Completed, ReplayStatus::Completed) => true,
        (ReplayStatus::Error(x), ReplayStatus::Error(y)) => x@ == y@,
        _ => false,
    }
}

/// The replies are alike as far as both go.
pub open spec fn replies_alike(
    calls: Seq<ContractCall>,
    a: Seq<Reply>,
    b: Seq<Reply>,
) -> bool {
    forall|k: int|
        0 <= k < a.len() && k < b.len() ==> reply_alike(
            calls[k],
            #[trigger] a[k],
            #[trigger] b[k],
        )
}

/// Two replies to one call are the same. Where the call only observes, it is
/// enough that neither is a panic.
pub open spec fn reply_alike(call: ContractCall, a: Reply, b: Reply) -> bool {
    a == b || (call is Observe && !(a is Panicked) && !(b is Panicked))
}

proof fn lemma_alike_claims(calls: Seq<ContractCall>, a: Seq<Reply>, b: Seq<Reply>, n: int)
    requires
        replies_alike(calls, a, b),
        0 <= n <= a.len(),
        n <= b.len(),
    ensures
        claims_made(calls, a.take(n)) == claims_made(calls, b.take(n)),
        goes_on(calls, a.take(n)) == goes_on(calls, b.take(n)),
    decreases n,
{
    if n > 0 {
        lemma_alike_claims(calls, a, b, n - 1);
        assert(a.take(n).drop_last() =~= a.take(n - 1));
        assert(b.take(n).drop_last() =~= b.take(n - 1));
        assert(a.take(n).last() == a[n - 1]);
        assert(b.take(n).last() == b[n - 1]);
        assert(reply_alike(calls[n - 1], a[n - 1], b[n - 1]));
    } else {
        assert(a.take(0) =~= b.take(0));
    }
}

proof fn lemma_alike_end(
    calls: Seq<ContractCall>,
    a: Seq<Reply>,
    b: Seq<Reply>,
    out_a: ReplayOutcome,
)
    requires
        is_exchange(calls, a),
        is_exchange(calls, b),
        reports(calls, a, out_a),
        replies_alike(calls, a, b),
    ensures
        b.len() <= a.len(),
{
    if a.len() < b.len() {
        lemma_alike_claims(calls, a, b, a.len() as int);
        assert(a.take(a.len() as int) =~= a);
        assert(goes_on(calls, b.take(a.len() as int)));
    }
}

/// Equal replies give equal outcomes, and what is said to an observation changes
/// nothing: two replays that make the same calls and get the same replies, but for
/// what they are told where they only observe, end at the same call and report the
/// same.
pub proof fn law_equal_replies_give_equal_outcomes(
    calls: Seq<ContractCall>,
    a: Seq<Reply>,
    b: Seq<Reply>,
    out_a: ReplayOutcome,
    out_b: ReplayOutcome,
)
    requires
        is_exchange(calls, a),
        is_exchange(calls, b),
        reports(calls, a, out_a),
        reports(calls, b, out_b),
        replies_alike(calls, a, b),
    ensures
        a.len() == b.len(),
        same_outcome(out_a, out_b),
{
    lemma_alike_end(calls, a, b, out_a);
    assert(replies_alike(calls, b, a)) by {
        assert forall|k: int| 0 <= k < b.len() && k < a.len() implies reply_alike(
            calls[k],
            #[trigger] b[k],
            #[trigger] a[k],
        ) by {
            assert(reply_alike(calls[k], a[k], b[k]));
        }
    }
    lemma_alike_end(calls, b, a, out_b);
    let n = a.len() as int;
    lemma_alike_claims(calls, a, b, n);
    assert(a.take(n) =~= a);
    assert(b.take(n) =~= b);
    if n > 0 {
        assert(reply_alike(calls[n - 1], a[n - 1], b[n - 1]));
        assert(a.last() == a[n - 1] && b.last() == b[n - 1]);
    } else {
        assert(a =~= b);
    }
}

/// How a contract behaves that keeps nothing from before it was opened: what it
/// replies to the last of the calls that were made on it since.
pub type Behaviour = spec_fn(Seq<ContractCall>) -> Reply;

/// The replies in `made` are those of `behaviour`: each depends on its own call and
/// on all the calls before it. What is said to an observation may differ, as long as
/// neither is a panic: that is where a tracer comes in.
pub open spec fn behaves(made: Transcript, behaviour: Behaviour) -> bool {
    forall|k: int|
        0 <= k < made.len() ==> reply_alike(
            (#[trigger] made[k]).0,
            made[k].1,
            behaviour(calls_of(made).take(k + 1)),
        )
}

/// Equal replays report the same, traced or not, whatever was done before, on one
/// contract or on two: all that is asked of the contract is that its replies are one
/// function of the calls made since the replay began, by opening it.
pub proof fn law_equal_replays_are_equal(
    calls: Seq<ContractCall>,
    behaviour: Behaviour,
    before_a: Transcript,
    after_a: Transcript,
    out_a: ReplayOutcome,
    before_b: Transcript,
    after_b: Transcript,
    out_b: ReplayOutcome,
)
    requires
        is_run(calls, before_a, after_a, out_a),
        is_run(calls, before_b, after_b, out_b),
        behaves(after_a.skip(before_a.len() as int), behaviour),
        behaves(after_b.skip(before_b.len() as int), behaviour),
    ensures
        same_outcome(out_a, out_b),
        calls_of(after_a.skip(before_a.len() as int)) == calls_of(
            after_b.skip(before_b.len() as int),
        ),
{
    let a = lemma_replies_of_run(calls, behaviour, before_a, after_a, out_a);
    let b = lemma_replies_of_run(calls, behaviour, before_b, after_b, out_b);
    assert forall|k: int| 0 <= k < a.len() && k < b.len() implies reply_alike(
        calls[k],
        #[trigger] a[k],
        #[trigger] b[k],
    ) by {
        assert(reply_alike(calls[k], a[k], behaviour(calls.take(k + 1))));
        assert(reply_alike(calls[k], b[k], behaviour(calls.take(k + 1))));
    }
    law_equal_replies_give_equal_outcomes(calls, a, b, out_a, out_b);
    law_replay_makes_no_other_calls(calls, before_a, after_a, out_a);
    law_replay_makes_no_other_calls(calls, before_b, after_b, out_b);
}

proof fn lemma_replies_of_run(
    calls: Seq<ContractCall>,
    behaviour: Behaviour,
    before: Transcript,
    after: Transcript,
    outcome: ReplayOutcome,
) -> (replies: Seq<Reply>)
    requires
        is_run(calls, before, after, outcome),
        behaves(after.skip(before.len() as int), behaviour),
    ensures
        is_exchange(calls, replies),
        reports(calls, replies, outcome),
        after == before + paired(calls, replies),
        forall|k: int|
            0 <= k < replies.len() ==> reply_alike(
                calls[k],
                #[trigger] replies[k],
                behaviour(calls.take(k + 1)),
            ),
{
    let replies = choose|replies: Seq<Reply>|
        {
            &&& #[trigger] is_exchange(calls, replies)
            &&& reports(calls, replies, outcome)
            &&& after == before + paired(calls, replies)
        };
    let made = after.skip(before.len() as int);
    assert(made =~= paired(calls, replies));
    assert forall|k: int| 0 <= k < replies.len() implies reply_alike(
        calls[k],
        #[trigger] replies[k],
        behaviour(calls.take(k + 1)),
    ) by {
        assert(made[k] == (calls[k], replies[k]));
        assert(calls_of(made).take(k + 1) =~= calls.take(k + 1));
    }
    replies
}

proof fn lemma_steps_open_nothing(
    events: Seq<Event>,
    timezone_ms: Option<i64>,
    products: Seq<Product>,
    n: int,
)
    requires
        0 <= n <= events.len(),
    ensures
        forall|k: int|
            0 <= k < steps_calls(events, timezone_ms, products, n).len() ==> !(
            #[trigger] steps_calls(events, timezone_ms, products, n)[k] is Open),
    decreases n,
{
    if n > 0 {
        lemma_steps_open_nothing(events, timezone_ms, products, n - 1);
        let before = steps_calls(events, timezone_ms, products, n - 1);
        let step = step_calls(events, timezone_ms, products, n - 1);
        let applied = applied_before(events, timezone_ms, products, n - 1);
        let zone = timezone_calls(
            timezone_due(applied, timezone_ms, products, events[n - 1].action),
        );
        let acts = action_calls(events[n - 1]);
        assert forall|k: int| 0 <= k < acts.len() implies !(#[trigger] acts[k] is Open) by {
        }
        assert forall|k: int| 0 <= k < step.len() implies !(#[trigger] step[k] is Open) by {
            if 1 + zone.len() <= k < step.len() - 1 {
                assert(step[k] == acts[k - 1 - zone.len()]);
            } else if 1 <= k < 1 + zone.len() {
                assert(step[k] == zone[k - 1]);
            }
        }
        let all = steps_calls(events, timezone_ms, products, n);
        assert forall|k: int| 0 <= k < all.len() implies !(#[trigger] all[k] is Open) by {
            if k < before.len() {
                assert(all[k] == before[k]);
            } else {
                assert(all[k] == step[k - before.len()]);
            }
        }
    }
}

proof fn lemma_calls_open_once(
    baseline: Baseline,
    products: Seq<Product>,
    window_start_ms: u64,
    events: Seq<Event>,
)
    ensures
        ({
            let calls = replay_calls(baseline, products, window_start_ms, events);
            &&& calls.len() > 1 + products.len()
            &&& calls[0] == (ContractCall::Open { account_id: baseline.account_id })
            &&& calls.subrange(1, (1 + products.len()) as int) == register_calls(products)
            &&& forall|k: int| 0 < k < calls.len() ==> !(#[trigger] calls[k] is Open)
        }),
{
    let calls = replay_calls(baseline, products, window_start_ms, events);
    let opening = opening_calls(
        baseline.account_id,
        products,
        baseline.raw_account,
        window_start_ms,
    );
    let steps = steps_calls(events, baseline.timezone_ms, products, events.len() as int);
    lemma_steps_open_nothing(events, baseline.timezone_ms, products, events.len() as int);
    assert(calls.subrange(1, (1 + products.len()) as int) =~= register_calls(products));
    assert forall|k: int| 0 < k < calls.len() implies !(#[trigger] calls[k] is Open) by {
        if k < opening.len() {
            assert(calls[k] == opening[k]);
        } else {
            assert(calls[k] == steps[k - opening.len()]);
        }
    }
}

/// Every replay begins by opening a fresh contract for its own account, and opens no
/// other, however it ends. One that completes makes every product known right after.
pub proof fn law_every_replay_opens_its_own_contract(
    baseline: Baseline,
    products: Seq<Product>,
    window_start_ms: u64,
    events: Seq<Event>,
    before: Transcript,
    after: Transcript,
    outcome: ReplayOutcome,
)
    requires
        is_run(
            replay_calls(baseline, products, window_start_ms, events),
            before,
            after,
            outcome,
        ),
    ensures
        ({
            let made = calls_of(after.skip(before.len() as int));
            &&& made.len() > 0
            &&& made[0] == (ContractCall::Open { account_id: baseline.account_id })
            &&& forall|k: int| 0 < k < made.len() ==> !(#[trigger] made[k] is Open)
            &&& outcome.status is Completed ==> made.len() > 1 + products.len()
                && made.subrange(1, (1 + products.len()) as int) == register_calls(products)
        }),
{
    let calls = replay_calls(baseline, products, window_start_ms, events);
    lemma_calls_open_once(baseline, products, window_start_ms, events);
    law_replay_makes_no_other_calls(calls, before, after, outcome);
    let replies = choose|replies: Seq<Reply>|
        {
            &&& #[trigger] is_exchange(calls, replies)
            &&& reports(calls, replies, outcome)
            &&& after == before + paired(calls, replies)
        };
    assert(replies.len() > 0);
    let made = calls_of(after.skip(before.len() as int));
    assert forall|k: int| 0 < k < made.len() implies !(#[trigger] made[k] is Open) by {
        assert(made[k] == calls[k]);
    }
}

proof fn lemma_steps_agree(
    a: Seq<Event>,
    b: Seq<Event>,
    timezone_ms: Option<i64>,
    products: Seq<Product>,
    n: int,
)
    requires
        0 <= n <= a.len(),
        n <= b.len(),
        forall|k: int| 0 <= k < n ==> #[trigger] a[k] == b[k],
    ensures
        steps_calls(a, timezone_ms, products, n) == steps_calls(b, timezone_ms, products, n),
        applied_before(a, timezone_ms, products, n) == applied_before(
            b,
            timezone_ms,
            products,
            n,
        ),
    decreases n,
{
    if n > 0 {
        lemma_steps_agree(a, b, timezone_ms, products, n - 1);
        assert(a[n - 1] == b[n - 1]);
    }
}

proof fn lemma_claims_agree(
    a: Seq<ContractCall>,
    b: Seq<ContractCall>,
    replies: Seq<Reply>,
    n: int,
)
    requires
        0 <= n <= replies.len(),
        forall|k: int|
            0 <= k < n ==> #[trigger] a[k] == b[k] || !(a[k] is ClaimTotal || b[k] is ClaimTotal),
    ensures
        claims_made(a, replies.take(n)) == claims_made(b, replies.take(n)),
    decreases n,
{
    if n > 0 {
        lemma_claims_agree(a, b, replies, n - 1);
        assert(replies.take(n).drop_last() =~= replies.take(n - 1));
        assert(a[n - 1] == b[n - 1] || !(a[n - 1] is ClaimTotal || b[n - 1] is ClaimTotal));
    }
}

proof fn lemma_moved_claim(
    baseline: Baseline,
    products: Seq<Product>,
    window_start_ms: u64,
    events: Seq<Event>,
    moved_to: u64,
    replies: Seq<Reply>,
    out: ReplayOutcome,
    moved: ReplayOutcome,
)
    requires
        events.len() > 0,
        events.last().action is Claim,
        reports(replay_calls(baseline, products, window_start_ms, events), replies, out),
        reports(
            replay_calls(
                baseline,
                products,
                window_start_ms,
                events.update(events.len() - 1, (Event { ts_ms: moved_to, ..events.last() })),
            ),
            replies,
            moved,
        ),
        out.status is Completed,
        moved.status is Completed,
    ensures
        out.total_claimed == moved.total_claimed,
        replies.len() >= 2,
        match replies[replies.len() - 2] {
            Reply::Claimed(amount) => {
                &&& out.per_claim@.len() > 0
                &&& out.per_claim@.last() == (events.last().ts_ms, amount)
                &&& moved.per_claim@ == out.per_claim@.drop_last().push((moved_to, amount))
            },
            _ => moved.per_claim@ == out.per_claim@,
        },
{
    let n = events.len() - 1;
    let late = events.update(n, (Event { ts_ms: moved_to, ..events.last() }));
    let tz = baseline.timezone_ms;
    let a = replay_calls(baseline, products, window_start_ms, events);
    let b = replay_calls(baseline, products, window_start_ms, late);
    let opening = opening_calls(
        baseline.account_id,
        products,
        baseline.raw_account,
        window_start_ms,
    );
    lemma_steps_agree(events, late, tz, products, n);
    let before = steps_calls(events, tz, products, n);
    let head = opening + before;
    let step_a = step_calls(events, tz, products, n);
    let step_b = step_calls(late, tz, products, n);
    let timestamp_ms = events.last().action->Claim_timestamp_ms;
    assert(late[n] == (Event { ts_ms: moved_to, ..events.last() }));
    assert(step_a =~= seq![
        ContractCall::SetBlockTime(events.last().ts_ms),
        ContractCall::SwitchTo(Signer::Account),
        ContractCall::SetBlockTime(timestamp_ms),
        ContractCall::ClaimTotal { event_ts_ms: events.last().ts_ms },
        ContractCall::Observe { index: n as usize },
    ]);
    assert(step_b =~= seq![
        ContractCall::SetBlockTime(moved_to),
        ContractCall::SwitchTo(Signer::Account),
        ContractCall::SetBlockTime(timestamp_ms),
        ContractCall::ClaimTotal { event_ts_ms: moved_to },
        ContractCall::Observe { index: n as usize },
    ]);
    assert(a =~= head + step_a);
    assert(b =~= head + step_b);
    let h = head.len() as int;
    assert forall|k: int| 0 <= k < h + 3 implies #[trigger] a[k] == b[k] || !(a[k] is ClaimTotal
        || b[k] is ClaimTotal) by {
        if k < h {
            assert(a[k] == head[k] && b[k] == head[k]);
        } else {
            assert(a[k] == step_a[k - h] && b[k] == step_b[k - h]);
        }
    }
    assert(a.len() == h + 5 && b.len() == h + 5);
    assert(replies.len() == h + 5);
    lemma_claims_agree(a, b, replies, h + 3);
    assert(replies.take(h + 4).drop_last() =~= replies.take(h + 3));
    assert(replies.take(h + 4).last() == replies[h + 3]);
    assert(replies.drop_last() =~= replies.take(h + 4));
    assert(a[h + 3] == step_a[3] && b[h + 3] == step_b[3]);
    assert(a[h + 4] == step_a[4] && b[h + 4] == step_b[4]);
    let earlier = claims_made(a, replies.take(h + 3));
    assert(claims_made(a, replies) == claims_made(a, replies.take(h + 4)));
    assert(claims_made(b, replies) == claims_made(b, replies.take(h + 4)));
    if let Reply::Claimed(amount) = replies[h + 3] {
        let ka = (events.last().ts_ms, amount);
        let kb = (moved_to, amount);
        assert(claims_made(a, replies.take(h + 4)) == earlier.push(ka));
        assert(claims_made(b, replies.take(h + 4)) == earlier.push(kb));
        assert(earlier.push(ka).drop_last() =~= earlier);
        assert(earlier.push(kb).drop_last() =~= earlier);
    }
}

/// What a claim at `index` asks of the contract: it runs at `timestamp_ms` and is
/// reported under `ts_ms`.
pub open spec fn claim_step(ts_ms: u64, timestamp_ms: u64, index: usize) -> Seq<ContractCall> {
    seq![
        ContractCall::SetBlockTime(ts_ms),
        ContractCall::SwitchTo(Signer::Account),
        ContractCall::SetBlockTime(timestamp_ms),
        ContractCall::ClaimTotal { event_ts_ms: ts_ms },
        ContractCall::Observe { index },
    ]
}

/// After `past` and the first `n` calls of a claim, the contract replies the same
/// whether the claim's block time is `a` or `b`.
pub open spec fn claim_replies_agree(
    behaviour: Behaviour,
    past: Seq<ContractCall>,
    a: u64,
    b: u64,
    timestamp_ms: u64,
    index: usize,
    n: int,
) -> bool {
    behaviour((past + claim_step(a, timestamp_ms, index)).take(past.len() + n)) == behaviour(
        (past + claim_step(b, timestamp_ms, index)).take(past.len() + n),
    )
}

/// The contract goes by the block time that was set last: one that a claim sets over
/// before anything reads it makes no difference, nor does the time that the claim
/// will be reported under.
pub open spec fn goes_by_the_last_time(behaviour: Behaviour) -> bool {
    forall|past: Seq<ContractCall>, a: u64, b: u64, timestamp_ms: u64, index: usize, n: int|
        1 <= n <= 5 ==> #[trigger] claim_replies_agree(
            behaviour,
            past,
            a,
            b,
            timestamp_ms,
            index,
            n,
        )
}

/// Moving the block time of the last claim moves only the time that it is reported
/// under. Two replays that differ in the block time of a last claim alone, and
/// complete on a contract that goes by the time that was set last, pay the same for
/// every claim; only that one claim is reported under another time.
pub proof fn law_block_time_of_a_claim_is_only_its_key(
    baseline: Baseline,
    products: Seq<Product>,
    window_start_ms: u64,
    events: Seq<Event>,
    moved_to: u64,
    behaviour: Behaviour,
    before: Transcript,
    after: Transcript,
    out: ReplayOutcome,
    before_moved: Transcript,
    after_moved: Transcript,
    moved: ReplayOutcome,
)
    requires
        events.len() > 0,
        events.last().action is Claim,
        is_run(replay_calls(baseline, products, window_start_ms, events), before, after, out),
        is_run(
            replay_calls(
                baseline,
                products,
                window_start_ms,
                events.update(events.len() - 1, (Event { ts_ms: moved_to, ..events.last() })),
            ),
            before_moved,
            after_moved,
            moved,
        ),
        behaves(after.skip(before.len() as int), behaviour),
        behaves(after_moved.skip(before_moved.len() as int), behaviour),
        goes_by_the_last_time(behaviour),
        out.status is Completed,
        moved.status is Completed,
    ensures
        out.total_claimed == moved.total_claimed,
        after.len() >= before.len() + 2,
        match after[after.len() - 2].1 {
            Reply::Claimed(amount) => {
                &&& out.per_claim@.len() > 0
                &&& out.per_claim@.last() == (events.last().ts_ms, amount)
                &&& moved.per_claim@ == out.per_claim@.drop_last().push((moved_to, amount))
            },
            _ => moved.per_claim@ == out.per_claim@,
        },
{
    let n = events.len() - 1;
    let late = events.update(n, (Event { ts_ms: moved_to, ..events.last() }));
    let tz = baseline.timezone_ms;
    let a = replay_calls(baseline, products, window_start_ms, events);
    let b = replay_calls(baseline, products, window_start_ms, late);
    let opening = opening_calls(
        baseline.account_id,
        products,
        baseline.raw_account,
        window_start_ms,
    );
    lemma_steps_agree(events, late, tz, products, n);
    let head = opening + steps_calls(events, tz, products, n);
    let timestamp_ms = events.last().action->Claim_timestamp_ms;
    let step_a = claim_step(events.last().ts_ms, timestamp_ms, n as usize);
    let step_b = claim_step(moved_to, timestamp_ms, n as usize);
    assert(late[n] == (Event { ts_ms: moved_to, ..events.last() }));
    assert(step_calls(events, tz, products, n) =~= step_a);
    assert(step_calls(late, tz, products, n) =~= step_b);
    assert(a =~= head + step_a);
    assert(b =~= head + step_b);
    let h = head.len() as int;
    let ra = lemma_replies_of_run(a, behaviour, before, after, out);
    let rb = lemma_replies_of_run(b, behaviour, before_moved, after_moved, moved);
    assert(ra.len() == h + 5 && rb.len() == h + 5);
    assert forall|k: int| 0 <= k < ra.len() && k < rb.len() implies reply_alike(
        b[k],
        #[trigger] ra[k],
        #[trigger] rb[k],
    ) by {
        assert(reply_alike(a[k], ra[k], behaviour(a.take(k + 1))));
        assert(reply_alike(b[k], rb[k], behaviour(b.take(k + 1))));
        if k < h {
            assert(a.take(k + 1) =~= head.take(k + 1));
            assert(b.take(k + 1) =~= head.take(k + 1));
            assert(a[k] == head[k] && b[k] == head[k]);
        } else {
            assert(claim_replies_agree(
                behaviour,
                head,
                events.last().ts_ms,
                moved_to,
                timestamp_ms,
                n as usize,
                k - h + 1,
            ));
            assert(a[k] == step_a[k - h] && b[k] == step_b[k - h]);
        }
    }
    lemma_alike_claims(b, ra, rb, h + 5);
    assert(ra.take(h + 5) =~= ra);
    assert(rb.take(h + 5) =~= rb);
    assert(reports(b, ra, moved));
    lemma_moved_claim(
        baseline,
        products,
        window_start_ms,
        events,
        moved_to,
        ra,
        out,
        moved,
    );
    assert(after[after.len() - 2] == (a[h + 3], ra[h + 3]));
}

proof fn lemma_steps_are_a_prefix(
    events: Seq<Event>,
    timezone_ms: Option<i64>,
    products: Seq<Product>,
    n: int,
)
    requires
        0 <= n <= events.len(),
    ensures
        ({
            let part = steps_calls(events, timezone_ms, products, n);
            let whole = steps_calls(events, timezone_ms, products, events.len() as int);
            part.len() <= whole.len() && whole.take(part.len() as int) == part
        }),
    decreases events.len() - n,
{
    let part = steps_calls(events, timezone_ms, products, n);
    let whole = steps_calls(events, timezone_ms, products, events.len() as int);
    if n < events.len() {
        lemma_steps_are_a_prefix(events, timezone_ms, products, n + 1);
        let next = steps_calls(events, timezone_ms, products, n + 1);
        assert(next.take(part.len() as int) =~= part);
        assert(whole.take(next.len() as int).take(part.len() as int) =~= whole.take(
            part.len() as int,
        ));
    } else {
        assert(whole.take(part.len() as int) =~= part);
    }
}

/// Over a whole replay the timezone is set exactly once, with the event that
/// creates the first jar in a score product; never without a timezone, and
/// never for an account without such a jar.
pub proof fn law_timezone_is_set_with_the_first_score_jar(
    events: Seq<Event>,
    timezone_ms: Option<i64>,
    products: Seq<Product>,
    i: int,
)
    requires
        0 <= i < events.len(),
    ensures
        timezone_due(
            applied_before(events, timezone_ms, products, i),
            timezone_ms,
            products,
            events[i].action,
        ) == (if timezone_ms is Some && timezone_ms != Some(i64::MIN) && opens_score_jar(
            products,
            events[i].action,
        ) && forall|k: int|
            0 <= k < i ==> !opens_score_jar(products, (#[trigger] events[k]).action) {
            timezone_ms
        } else {
            None
        }),
{
    lemma_applied_before(events, timezone_ms, products, i);
}

/// Where the timezone is set, it is set before any call that acts on the
/// account's jars.
pub proof fn law_timezone_comes_before_the_jar(
    event: Event,
    applied: bool,
    timezone_ms: Option<i64>,
    products: Seq<Product>,
)
    requires
        timezone_due(applied, timezone_ms, products, event.action) is Some,
    ensures
        ({
            let calls = event_calls(event, applied, timezone_ms, products);
            &&& calls.take(3) == seq![
                ContractCall::SetBlockTime(event.ts_ms),
                ContractCall::SwitchTo(Signer::Operator),
                ContractCall::SetTimezone(timezone_ms->0),
            ]
            &&& calls.skip(3) == action_calls(event)
        }),
{
    let calls = event_calls(event, applied, timezone_ms, products);
    assert(calls.take(3) =~= seq![
        ContractCall::SetBlockTime(event.ts_ms),
        ContractCall::SwitchTo(Signer::Operator),
        ContractCall::SetTimezone(timezone_ms->0),
    ]);
    assert(calls.skip(3) =~= action_calls(event));
}

/// An airdrop with a booster settles interest before its jar exists, and
/// applies the booster after; it never goes through the booster call that
/// settles interest again.
pub proof fn law_airdrop_settles_before_its_jar_exists(
    event: Event,
    applied: bool,
    timezone_ms: Option<i64>,
    products: Seq<Product>,
)
    requires
        event.action is AirdropWithBooster,
    ensures
        ({
            let calls = event_calls(event, applied, timezone_ms, products);
            let n = calls.len() as int;
            &&& n >= 5
            &&& calls[n - 3] is SettleInterestBeforeBooster
            &&& calls[n - 2] is CreateAirdropDeposit
            &&& calls[n - 1] is ApplyAirdropBooster
            &&& forall|k: int| 0 <= k < n ==> !(#[trigger] calls[k] is ApplyBooster)
            &&& forall|k: int| 0 <= k < n ==> !(#[trigger] calls[k] is Deposit)
        }),
{
    let due = timezone_due(applied, timezone_ms, products, event.action);
    assert(timezone_calls(due).len() <= 2);
}

/// A claim runs at the time that its own on-chain call used, not at the block
/// time of its event.
pub proof fn law_claim_runs_at_its_own_time(
    event: Event,
    applied: bool,
    timezone_ms: Option<i64>,
    products: Seq<Product>,
)
    requires
        event.action is Claim,
    ensures
        ({
            let calls = event_calls(event, applied, timezone_ms, products);
            let n = calls.len() as int;
            &&& n == 4
            &&& calls[n - 2] == ContractCall::SetBlockTime(event.action->Claim_timestamp_ms)
            &&& calls[n - 1] == (ContractCall::ClaimTotal { event_ts_ms: event.ts_ms })
        }),
{
}

/// How the contract's mock wraps the message of a guest panic.
pub open spec fn wrapped_guest_panic(message: Seq<char>) -> Seq<char> {
    "called `Result::unwrap()` on an `Err` value: HostError(GuestPanic { "@ + panic_open()
        + message + panic_close() + ")"@
}

/// Every message that the mock wrapped comes out again, whatever it holds.
pub proof fn law_wrapped_guest_panic_is_unwrapped(message: Seq<char>)
    ensures
        guest_message(wrapped_guest_panic(message)) == message,
{
    let head = "called `Result::unwrap()` on an `Err` value: HostError(GuestPanic { "@;
    let open = panic_open();
    let close = panic_close();
    let raw = wrapped_guest_panic(message);
    let at = head.len() as int;
    reveal_strlit("called `Result::unwrap()` on an `Err` value: HostError(GuestPanic { ");
    reveal_strlit("panic_msg: \"");
    reveal_strlit("\" }");
    reveal_strlit(")");
    lemma_find_from(raw, open, 0);
    assert(raw.subrange(at, at + open.len()) =~= open);
    assert(occurs_at(raw, open, at));
    assert forall|j: int| 0 <= j < at implies !occurs_at(raw, open, j) by {
        if occurs_at(raw, open, j) {
            let part = raw.subrange(j, j + open.len());
            assert(part[0] == raw[j] && part[1] == raw[j + 1]);
            assert(open[0] == 'p' && open[1] == 'a');
            assert(raw[j] == head[j]);
            assert(j + 1 < at ==> raw[j + 1] == head[j + 1]);
        }
    }
    assert(find_from(raw, open, 0) == Some(at));
    let rest = raw.subrange(at + open.len(), raw.len() as int);
    assert(rest =~= message + close + ")"@);
    let end = message.len() as int;
    let last = rest.len() - close.len();
    lemma_rfind_from(rest, close, last);
    assert(rest.subrange(end, end + close.len()) =~= close);
    assert(occurs_at(rest, close, end));
    assert(last == end + 1);
    assert(!occurs_at(rest, close, last)) by {
        if occurs_at(rest, close, last) {
            assert(rest.subrange(last, last + close.len())[0] == rest[last]);
            assert(rest[last] == close[1]);
        }
    }
    assert(rfind_from(rest, close, last) == Some(end));
    assert(rest.subrange(0, end) =~= message);
}

/// A message that no guest panic wraps is reported as it stands.
pub proof fn law_plain_panic_is_kept(raw: Seq<char>)
    requires
        !crate::text::occurs(raw, panic_open()),
    ensures
        guest_message(raw) == raw,
{
    lemma_find_from(raw, panic_open(), 0);
}

} // verus!
