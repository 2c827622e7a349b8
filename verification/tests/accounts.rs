//! Whole accounts: loading, finding the state to start from, replaying and
//! reconciling, against a small contract that stands in for the real one.

use near_sdk::serde_json::Value;

use replay::account::{parse_account_state, read_account_state};
use replay::contract::{Contract, Transcript};
use replay::engine::{
    run_timeline, run_timeline_traced, Action, Baseline, ContractCall, DepositTicket, Event,
    Product, Reply, ReplayStatus, Signer, Timeline,
};
use replay::json::Json;
use replay::reconcile::{apply_block_height_fallback, reconcile_user, EngineRun, ReconRow};
use replay::run::H_MS;
use replay::snapshot::{BaselineRead, LocalSnapshot, Questions, Snapshot, SnapshotSource};
use replay::timeline::{
    load_user, AccountRow, EventRow, Migration, ParsedEvent, Payload, UserSlice,
};

const DAY_MS: u64 = 86_400_000;
const HOUR_MS: u64 = 3_600_000;
const YEAR_MS: u64 = 31_536_000_000;

const FIXED: &str = "365d_12apy";
const SCORE: &str = "steps_365d_20000";
const SCORE_B: &str = "steps_365d_20000_b";
const TIERED: &str = "steps_365d_20000_10000_tiered_v1";

fn fixed_product() -> Product {
    Product { id: FIXED.to_string(), is_score_based: false }
}

fn score_product() -> Product {
    Product { id: SCORE.to_string(), is_score_based: true }
}

fn score_product_b() -> Product {
    Product { id: SCORE_B.to_string(), is_score_based: true }
}

fn products() -> Vec<Product> {
    vec![
        fixed_product(),
        Product { id: "90d_3apy".to_string(), is_score_based: false },
        score_product(),
        Product { id: TIERED.to_string(), is_score_based: true },
    ]
}

fn to_json(value: &Value) -> Json {
    match value {
        Value::Null => Json::Null,
        Value::Bool(b) => Json::Bool(*b),
        Value::Number(n) => match (n.as_u64(), n.as_i64()) {
            (Some(n), _) => Json::PosInt(n),
            (None, Some(n)) => Json::NegInt(n),
            (None, None) => Json::Float,
        },
        Value::String(s) => Json::Str(s.clone()),
        Value::Array(items) => Json::Array(items.iter().map(to_json).collect()),
        Value::Object(members) => {
            Json::Object(members.iter().map(|(k, v)| (k.clone(), to_json(v))).collect())
        }
    }
}

fn json(text: &str) -> Json {
    to_json(&near_sdk::serde_json::from_str(text).unwrap())
}

/// The encoding of an account state that the contract below stores.
fn account_state_json_to_raw(text: &str) -> Vec<u8> {
    assert!(read_account_state(&json(text), H_MS).is_some());
    text.as_bytes().to_vec()
}

fn snapshot_of(text: &str) -> Snapshot {
    Snapshot {
        raw_account: account_state_json_to_raw(text),
        any_jar_locked: parse_account_state(&json(text), H_MS).any_jar_locked(),
    }
}

struct StoredJar {
    product_id: String,
    created_at: u64,
    principal: u128,
    locked: bool,
}

/// A contract with simple interest: a fixed jar pays 12% a year, a score jar
/// pays by the steps that were recorded.
#[derive(Default)]
struct StandIn {
    account_id: String,
    score_ids: Vec<String>,
    exists: bool,
    jars: Vec<StoredJar>,
    timezone_ms: Option<i64>,
    now: u64,
    signer: Option<Signer>,
    steps: u128,
    booster: u16,
    observed: Vec<usize>,
    calls: Vec<String>,
}

fn guest_panic(message: &str) -> Reply {
    Reply::Panicked(Some(format!(
        "called `Result::unwrap()` on an `Err` value: HostError(GuestPanic {{ panic_msg: \"{message}\" }})"
    )))
}

impl StandIn {
    fn is_score(&self, id: &str) -> bool {
        self.score_ids.iter().any(|s| s == id)
    }

    fn open_jar(&mut self, ticket: &DepositTicket, amount: u128) {
        self.exists = true;
        if self.timezone_ms.is_none() {
            self.timezone_ms = ticket.timezone_ms;
        }
        self.jars.push(StoredJar {
            product_id: ticket.product_id.clone(),
            created_at: self.now,
            principal: amount,
            locked: false,
        });
    }

}

impl Contract for StandIn {
    fn made(&self) -> Transcript {
        unreachable!()
    }

    fn carry_out(&mut self, call: ContractCall) -> Reply {
        let name = format!("{call:?}");
        self.calls.push(name.split([' ', '(', '{']).next().unwrap().to_string());
        match call {
            ContractCall::Open { account_id } => self.account_id = account_id,
            ContractCall::Register(product) => {
                if product.is_score_based {
                    self.score_ids.push(product.id);
                }
            }
            ContractCall::StoreAccount(raw) => {
                let text = String::from_utf8(raw).unwrap();
                let account = parse_account_state(&json(&text), H_MS);
                self.exists = true;
                for (id, jar) in account.jars {
                    for deposit in jar.deposits {
                        self.jars.push(StoredJar {
                            product_id: id.clone(),
                            created_at: deposit.created_at,
                            principal: deposit.principal,
                            locked: jar.is_locked,
                        });
                    }
                }
                if account.timezone_ms != i64::MIN {
                    self.timezone_ms = Some(account.timezone_ms);
                }
            }
            ContractCall::SetBlockTime(ts) => self.now = ts,
            ContractCall::SwitchTo(signer) => self.signer = Some(signer),
            ContractCall::SetTimezone(tz) => {
                assert_eq!(self.signer, Some(Signer::Operator));
                if self.timezone_ms.is_none() {
                    self.timezone_ms = Some(tz);
                }
            }
            ContractCall::RecordScore(increments) => {
                if self.timezone_ms.is_none() {
                    return guest_panic("Timezone is not set");
                }
                if increments.iter().any(|(_, ts)| *ts > self.now) {
                    return guest_panic("Timestamp from future");
                }
                self.steps += increments.iter().map(|(s, _)| *s as u128).sum::<u128>();
            }
            ContractCall::ApplyBooster { score, timestamp_ms } => {
                if self.timezone_ms.is_none() {
                    return guest_panic("Timezone is not set");
                }
                if timestamp_ms > self.now {
                    return guest_panic("Timestamp from future");
                }
                self.booster = score;
            }
            ContractCall::Deposit { ticket, amount } => {
                assert_eq!(self.signer, Some(Signer::FtContract));
                self.open_jar(&ticket, amount);
            }
            ContractCall::CreateAirdropDeposit { ticket, amount, now_ms } => {
                assert_eq!(now_ms, self.now);
                self.open_jar(&ticket, amount);
            }
            ContractCall::ApplyAirdropBooster { score, .. } => self.booster = score,
            ContractCall::SettleInterestBeforeBooster { .. } => {}
            ContractCall::Withdraw { product_id } => {
                self.jars.retain(|jar| jar.product_id != product_id);
            }
            ContractCall::WithdrawAll { product_ids } => {
                self.jars.retain(|jar| !product_ids.contains(&jar.product_id));
            }
            ContractCall::Restake { from, ticket, amount } => {
                let Some(at) = self.jars.iter().position(|jar| jar.product_id == from) else {
                    return guest_panic(&format!("Jar for product {from} is not found"));
                };
                self.jars.remove(at);
                self.open_jar(&ticket, amount);
            }
            ContractCall::RestakeAll { ticket, amount } => {
                let free: u128 = self.jars.iter().filter(|j| !j.locked).map(|j| j.principal).sum();
                if free < amount {
                    return guest_panic("Not enough funds to restake");
                }
                self.jars.clear();
                self.open_jar(&ticket, amount);
            }
            ContractCall::SetIncreasedScoreCap(_) => {}
            ContractCall::ClaimTotal { .. } => {
                assert_eq!(self.signer, Some(Signer::Account));
                if !self.exists {
                    return guest_panic("Account is not found in smart contract");
                }
                let mut total = 0;
                for jar in &self.jars {
                    total += if self.is_score(&jar.product_id) {
                        jar.principal * (self.steps + self.booster as u128) / 10_000_000
                    } else {
                        let held = (self.now - jar.created_at).min(YEAR_MS) as u128;
                        jar.principal * 12 / 100 * held / YEAR_MS as u128
                    };
                }
                return Reply::Claimed(total);
            }
            ContractCall::Observe { index } => {
                if self.exists {
                    self.observed.push(index);
                }
            }
        }
        Reply::Done
    }
}

fn event(ts_ms: u64, seq: u64, action: Action) -> Event {
    Event { ts_ms, seq, action }
}

fn baseline(id: &str, timezone_ms: Option<i64>) -> Baseline {
    Baseline { account_id: id.to_string(), raw_account: None, timezone_ms }
}

#[test]
fn new_action_variants_construct() {
    let _ = Action::ApplyBooster { score: 3000, timestamp_ms: 1 };
    let _ = Action::WithdrawAll { product_ids: vec!["p".into()] };
    let _ = Action::RestakeAll { product_id: "p".into(), amount: 1 };
    assert_eq!(Action::ApplyBooster { score: 0, timestamp_ms: 0 }.rank(), 0);
    assert_eq!(Action::WithdrawAll { product_ids: vec![] }.rank(), 1);
    assert_eq!(Action::Restake { from: "a".into(), into: "b".into(), amount: 1 }.rank(), 1);
}

#[test]
fn deposit_then_claim_after_a_year_yields_roughly_apy() {
    let one_year_ms = 31_536_000_000u64;
    let deposit_amount = 1_000 * 10u128.pow(18);
    let timeline = Timeline {
        events: vec![
            event(10, 0, Action::Deposit { product_id: FIXED.into(), amount: deposit_amount }),
            event(one_year_ms + 100, 1, Action::Claim { timestamp_ms: one_year_ms + 100 }),
        ],
    }
    .sorted();
    let mut contract = StandIn::default();
    let outcome = run_timeline(
        baseline("acc.near", None),
        &[fixed_product()],
        0,
        timeline,
        &mut contract,
    );
    assert!(matches!(outcome.status, ReplayStatus::Completed));
    assert_eq!(outcome.per_claim.len(), 1);
    assert_eq!(outcome.per_claim[0].0, one_year_ms + 100);
    let expected = 120 * 10u128.pow(18);
    let claimed = outcome.total_claimed;
    assert!(claimed.abs_diff(expected) < expected / 100, "claimed {claimed} vs {expected}");
}

#[test]
fn claim_with_no_jars_is_reported_not_panicked() {
    let timeline =
        Timeline { events: vec![event(5, 0, Action::Claim { timestamp_ms: 5 })] }.sorted();
    let mut contract = StandIn::default();
    let outcome = run_timeline(
        baseline("empty.near", None),
        &[fixed_product()],
        0,
        timeline,
        &mut contract,
    );
    match outcome.status {
        ReplayStatus::Completed => assert_eq!(outcome.total_claimed, 0),
        ReplayStatus::Error(message) => {
            assert_eq!(message, "Account is not found in smart contract");
        }
    }
}

#[test]
fn score_deposit_gets_its_timezone_before_the_jar_is_created() {
    let steps = 10_000u16;
    let timeline = Timeline {
        events: vec![
            event(
                DAY_MS,
                0,
                Action::Deposit { product_id: SCORE.into(), amount: 1_000 * 10u128.pow(18) },
            ),
            event(
                2 * DAY_MS + HOUR_MS,
                1,
                Action::RecordScore(vec![(steps, 2 * DAY_MS + HOUR_MS)]),
            ),
            event(
                3 * DAY_MS + HOUR_MS,
                2,
                Action::RecordScore(vec![(steps, 3 * DAY_MS + HOUR_MS)]),
            ),
            event(4 * DAY_MS, 3, Action::Claim { timestamp_ms: 4 * DAY_MS }),
        ],
    }
    .sorted();
    let mut contract = StandIn::default();
    let outcome = run_timeline(
        baseline("tz.near", Some(3 * HOUR_MS as i64)),
        &[score_product()],
        0,
        timeline,
        &mut contract,
    );
    assert!(matches!(outcome.status, ReplayStatus::Completed), "status: {:?}", outcome.status);
    assert_eq!(outcome.per_claim.len(), 1);
    assert!(outcome.total_claimed > 0, "score jar accrued nothing");
    // The ticket's own timezone would have won, had the jar come first.
    assert_eq!(contract.timezone_ms, Some(3 * HOUR_MS as i64));
}

#[test]
fn fixed_only_account_with_no_feed_timezone_is_fine() {
    let timeline = Timeline {
        events: vec![
            event(
                10,
                0,
                Action::Deposit { product_id: FIXED.into(), amount: 1_000 * 10u128.pow(18) },
            ),
            event(
                31_536_000_000 + 100,
                1,
                Action::Claim { timestamp_ms: 31_536_000_000 + 100 },
            ),
        ],
    }
    .sorted();
    let mut contract = StandIn::default();
    let outcome = run_timeline(
        baseline("fixed.near", Some(i64::MIN)),
        &[fixed_product(), score_product()],
        0,
        timeline,
        &mut contract,
    );
    assert!(matches!(outcome.status, ReplayStatus::Completed), "status: {:?}", outcome.status);
    assert!(outcome.total_claimed > 0);
    assert!(!contract.calls.contains(&"SetTimezone".to_string()));
}

fn airdrop_history(second_jar_action_at: u64) -> Vec<Event> {
    let day = DAY_MS;
    vec![
        event(10, 0, Action::Deposit { product_id: SCORE.into(), amount: 1_000 * 10u128.pow(18) }),
        event(day, 1, Action::RecordScore(vec![(10_000, day)])),
        event(
            second_jar_action_at,
            2,
            Action::AirdropWithBooster {
                product_id: SCORE_B.into(),
                amount: 500 * 10u128.pow(18),
                score: 5_000,
                timestamp_ms: second_jar_action_at,
            },
        ),
        event(11 * day, 3, Action::Claim { timestamp_ms: 11 * day }),
    ]
}

#[test]
fn airdrop_with_booster_matches_naive_deposit_then_booster_replay() {
    let all = [score_product(), score_product_b()];
    let mut contract = StandIn::default();
    let merged_outcome = run_timeline(
        baseline("airdrop.near", Some(0)),
        &all,
        0,
        Timeline { events: airdrop_history(10 * DAY_MS) }.sorted(),
        &mut contract,
    );

    let mut naive_events = airdrop_history(10 * DAY_MS);
    let merged_idx = naive_events
        .iter()
        .position(|e| matches!(e.action, Action::AirdropWithBooster { .. }))
        .unwrap();
    let Action::AirdropWithBooster { product_id, amount, score, timestamp_ms } =
        naive_events[merged_idx].action.clone()
    else {
        unreachable!()
    };
    let ts = naive_events[merged_idx].ts_ms;
    naive_events.splice(
        merged_idx..=merged_idx,
        [
            event(ts, 2, Action::Deposit { product_id, amount }),
            event(ts, 3, Action::ApplyBooster { score, timestamp_ms }),
        ],
    );
    naive_events.last_mut().unwrap().seq = 4;
    let mut contract = StandIn::default();
    let naive_outcome = run_timeline(
        baseline("naive.near", Some(0)),
        &all,
        0,
        Timeline { events: naive_events }.sorted(),
        &mut contract,
    );

    assert!(matches!(merged_outcome.status, ReplayStatus::Completed));
    assert!(matches!(naive_outcome.status, ReplayStatus::Completed));
    assert!(merged_outcome.total_claimed > 0);
    assert_eq!(
        merged_outcome.total_claimed, naive_outcome.total_claimed,
        "merged={} naive={}",
        merged_outcome.total_claimed, naive_outcome.total_claimed
    );
}

#[test]
fn airdrop_with_booster_creates_the_jar_and_applies_the_booster() {
    let timeline = Timeline {
        events: vec![event(
            DAY_MS,
            0,
            Action::AirdropWithBooster {
                product_id: SCORE.into(),
                amount: 1_000 * 10u128.pow(18),
                score: 5_000,
                timestamp_ms: DAY_MS,
            },
        )],
    }
    .sorted();
    let mut contract = StandIn::default();
    let outcome = run_timeline_traced(
        baseline("single.near", Some(0)),
        &[score_product()],
        0,
        timeline,
        &mut contract,
    );
    assert!(matches!(outcome.status, ReplayStatus::Completed), "status: {:?}", outcome.status);
    assert_eq!(contract.account_id, "single.near");
    assert_eq!(contract.observed, vec![0]);
    let jar = contract.jars.iter().find(|j| j.product_id == SCORE).expect("jar created");
    assert_eq!(jar.principal, 1_000 * 10u128.pow(18));
    assert_eq!(contract.booster, 5_000);
    assert_eq!(
        contract.calls,
        vec![
            "Open",
            "Register",
            "SetBlockTime",
            "SetBlockTime",
            "SwitchTo",
            "SetTimezone",
            "SwitchTo",
            "SettleInterestBeforeBooster",
            "CreateAirdropDeposit",
            "ApplyAirdropBooster",
            "Observe",
        ]
    );
}

#[test]
fn same_millisecond_deposit_and_booster_replay_in_log_index_order() {
    let timeline = Timeline {
        events: vec![
            event(
                1_000,
                0,
                Action::Deposit { product_id: SCORE.into(), amount: 1_000 * 10u128.pow(18) },
            ),
            event(1_000, 1, Action::ApplyBooster { score: 3000, timestamp_ms: 1_000 }),
        ],
    }
    .sorted();
    assert_eq!(timeline.events[0].seq, 0, "deposit (seq 0) must sort first");
    assert_eq!(timeline.events[1].seq, 1, "booster (seq 1) must sort second");

    let mut contract = StandIn::default();
    let outcome = run_timeline(
        baseline("tz-race.near", Some(3 * HOUR_MS as i64)),
        &[score_product()],
        0,
        timeline,
        &mut contract,
    );
    assert!(matches!(outcome.status, ReplayStatus::Completed), "status: {:?}", outcome.status);
}

fn parsed(ts_ms: u64, log_index: u64, block_height: u64, event: ParsedEvent) -> EventRow {
    EventRow {
        ts_ms,
        log_index,
        event: "event".to_string(),
        block_height,
        payload: Payload::Parsed(event),
    }
}

/// What the database holds of one account.
fn stored(account_id: i64) -> (Option<AccountRow>, Vec<EventRow>) {
    let fresh = |timezone_ms| {
        Some(AccountRow {
            near_account_id: format!("near{account_id}"),
            existed_at_start: false,
            timezone_ms,
        })
    };
    let deposit = |id: &str| ParsedEvent::Deposit {
        product_id: id.to_string(),
        amount: 1_000_000_000_000_000_000_000,
    };
    match account_id {
        100 => (
            Some(AccountRow {
                near_account_id: "near100".to_string(),
                existed_at_start: true,
                timezone_ms: None,
            }),
            vec![],
        ),
        200 => (
            fresh(Some(-18_000_000)),
            vec![
                parsed(1_774_051_200_000, 0, 190_000_100, deposit(TIERED)),
                parsed(
                    1_774_072_800_000,
                    0,
                    190_000_200,
                    ParsedEvent::RecordScore(vec![(9000, 1_774_065_600_000)]),
                ),
                parsed(
                    1_774_076_400_000,
                    0,
                    190_000_300,
                    ParsedEvent::ApplyBooster { score: 3000, timestamp_ms: 1_774_076_400_000 },
                ),
                parsed(
                    1_774_159_200_000,
                    0,
                    190_000_400,
                    ParsedEvent::Claim { total: 123, timestamp_ms: 1_774_159_200_000 },
                ),
            ],
        ),
        300 => (
            fresh(None),
            vec![
                parsed(1_774_051_200_000, 0, 190_000_500, deposit(FIXED)),
                EventRow {
                    ts_ms: 1_774_054_800_000,
                    log_index: 0,
                    event: "record_score".to_string(),
                    block_height: 190_000_510,
                    payload: Payload::Skipped,
                },
                parsed(
                    1_774_058_400_000,
                    0,
                    190_000_600,
                    ParsedEvent::WithdrawAll { product_ids: vec![FIXED.to_string()] },
                ),
            ],
        ),
        400 => (
            fresh(Some(0)),
            vec![
                parsed(
                    1_774_058_400_000,
                    0,
                    190_000_700,
                    ParsedEvent::RecordScore(vec![
                        (9000, 1_774_065_600_000),
                        (1000, 1_774_054_800_000),
                    ]),
                ),
                parsed(
                    1_774_062_000_000,
                    0,
                    190_000_710,
                    ParsedEvent::ApplyBooster { score: 3000, timestamp_ms: 1_774_069_200_000 },
                ),
                parsed(
                    1_774_051_200_000,
                    0,
                    190_000_690,
                    ParsedEvent::Restake {
                        into: TIERED.to_string(),
                        from: vec![FIXED.to_string()],
                        restaked: 7,
                    },
                ),
            ],
        ),
        500 => (
            fresh(Some(0)),
            vec![parsed(
                1_774_058_400_000,
                0,
                190_000_800,
                ParsedEvent::Restake {
                    into: FIXED.to_string(),
                    from: vec![FIXED.to_string(), "90d_3apy".to_string()],
                    restaked: 9,
                },
            )],
        ),
        600 => (
            fresh(Some(0)),
            vec![parsed(
                1_774_483_200_000,
                0,
                190_000_900,
                ParsedEvent::Claim { total: 5, timestamp_ms: 1_774_483_200_000 },
            )],
        ),
        700 => (
            fresh(Some(0)),
            vec![
                parsed(1_774_058_400_000, 0, 190_001_000, deposit(TIERED)),
                parsed(
                    1_774_058_400_000,
                    1,
                    190_001_000,
                    ParsedEvent::ApplyBooster { score: 3000, timestamp_ms: 1_774_058_400_000 },
                ),
                parsed(
                    1_774_144_800_000,
                    0,
                    190_001_100,
                    ParsedEvent::Claim { total: 1, timestamp_ms: 1_774_144_800_000 },
                ),
            ],
        ),
        _ => (None, vec![]),
    }
}

fn load(account_id: i64, migration: Option<Migration>) -> (UserSlice, Timeline) {
    let (account, rows) = stored(account_id);
    load_user(account_id, account, rows, migration).unwrap()
}

fn reconcile<S: SnapshotSource>(account_id: i64, mut source: S) -> ReconRow {
    let (account, rows) = stored(account_id);
    let mut contract = StandIn::default();
    reconcile_user(account_id, account, rows, None, &mut source, |baseline, timeline| {
        EngineRun::Finished(run_timeline(baseline, &products(), H_MS, timeline, &mut contract))
    })
    .unwrap()
}

#[test]
fn account_200_maps_all_event_kinds() {
    let (slice, tl) = load(200, None);
    assert_eq!(slice.near_account_id, "near200");
    assert!(!slice.existed_at_start);
    assert_eq!(slice.timezone_ms, Some(-18_000_000));
    assert_eq!(slice.onchain_claimed, 123);

    let kinds: Vec<&str> = tl
        .events
        .iter()
        .map(|e| match &e.action {
            Action::Deposit { .. } => "deposit",
            Action::RecordScore(_) => "score",
            Action::ApplyBooster { .. } => "booster",
            Action::Claim { .. } => "claim",
            _ => "other",
        })
        .collect();
    assert_eq!(kinds, vec!["deposit", "score", "booster", "claim"]);

    // 1774065600000 is local time at UTC-5. The UTC time, 1774083600000, lies
    // past the block time of the event and is cut off there.
    let Action::RecordScore(pairs) = &tl.events[1].action else {
        panic!("expected RecordScore at index 1, got {:?}", tl.events[1].action);
    };
    assert_eq!(pairs, &vec![(9000, 1_774_072_800_000)]);
}

#[test]
fn account_300_withdraw_all_and_empty_score_skipped() {
    let (_slice, tl) = load(300, None);
    assert_eq!(tl.events.len(), 2);
    assert!(matches!(tl.events[1].action, Action::WithdrawAll { ref product_ids }
        if product_ids == &vec!["365d_12apy".to_string()]));
}

#[test]
fn single_jar_restake_keeps_source_and_target_products() {
    let (_slice, tl) = load(400, None);
    let restake = tl
        .events
        .iter()
        .find(|e| matches!(e.action, Action::Restake { .. }))
        .expect("restake action");
    assert!(matches!(restake.action, Action::Restake { ref from, ref into, amount: 7 }
        if from == "365d_12apy" && into == "steps_365d_20000_10000_tiered_v1"));
}

#[test]
fn multi_jar_restake_becomes_restake_all() {
    let (_slice, tl) = load(500, None);
    assert_eq!(tl.events.len(), 1);
    assert!(matches!(tl.events[0].action, Action::RestakeAll { ref product_id, amount: 9 }
        if product_id == "365d_12apy"));
}

#[test]
fn future_increment_timestamps_are_clamped_to_block_time() {
    let (_slice, tl) = load(400, None);
    let score = tl
        .events
        .iter()
        .find(|e| matches!(e.action, Action::RecordScore(_)))
        .expect("record_score action");
    let Action::RecordScore(ref pairs) = score.action else { unreachable!() };
    assert_eq!(pairs[0], (9000, score.ts_ms));
    assert_eq!(pairs[1], (1000, 1_774_054_800_000));

    let booster = tl
        .events
        .iter()
        .find(|e| matches!(e.action, Action::ApplyBooster { .. }))
        .expect("apply_booster action");
    assert!(matches!(booster.action, Action::ApplyBooster { score: 3000, timestamp_ms }
        if timestamp_ms == booster.ts_ms));
}

#[test]
fn deposit_and_apply_booster_sharing_a_block_merge_into_airdrop_with_booster() {
    let (_slice, tl) = load(700, None);
    assert_eq!(tl.events.len(), 2, "expected [AirdropWithBooster, Claim], got {:?}", tl.events);
    assert!(
        matches!(
            tl.events[0].action,
            Action::AirdropWithBooster {
                ref product_id,
                amount: 1_000_000_000_000_000_000_000,
                score: 3000,
                ..
            } if product_id == "steps_365d_20000_10000_tiered_v1"
        ),
        "expected AirdropWithBooster at index 0, got {:?}",
        tl.events[0].action
    );
    assert!(matches!(tl.events[1].action, Action::Claim { .. }));
}

#[test]
fn unknown_account_is_err() {
    let (account, rows) = stored(999);
    assert!(load_user(999, account, rows, None).is_err());
}

#[test]
fn fresh_account_reconciles_without_baseline_flag() {
    let row = reconcile(300, LocalSnapshot::new(BaselineRead::Read(None)));
    assert_eq!(row.status, "ok", "row: {row:?}");
}

#[test]
fn existed_at_start_account_without_snapshot_is_no_baseline() {
    let row = reconcile(100, LocalSnapshot::new(BaselineRead::Read(None)));
    assert_eq!(row.status, "no_baseline", "row: {row:?}");
    assert_eq!(row.n_claims, 0, "row: {row:?}");
}

/// Knows of every account, and answers for the listed blocks.
struct Archive {
    answers: Vec<(u64, &'static str)>,
}

impl SnapshotSource for Archive {
    fn authoritative(&self) -> bool {
        unreachable!()
    }
    fn asked(&self) -> Questions {
        unreachable!()
    }
    fn is_authoritative(&self) -> bool {
        true
    }
    fn raw_account(&mut self, _backend_account_id: i64, _near_account_id: &str) -> BaselineRead {
        BaselineRead::Read(None)
    }
    fn raw_account_at(&mut self, _near_account_id: &str, block_height: u64) -> Option<Snapshot> {
        self.answers.iter().find(|(h, _)| *h == block_height).map(|(_, text)| snapshot_of(text))
    }
}

#[test]
fn existed_at_start_account_confirmed_empty_by_an_authoritative_source_is_ok_not_no_baseline() {
    let row = reconcile(100, Archive { answers: vec![] });
    assert_eq!(row.status, "ok", "row: {row:?}");
}

/// Never gives a clean answer.
struct Fails {
    read: BaselineRead,
}

impl SnapshotSource for Fails {
    fn authoritative(&self) -> bool {
        unreachable!()
    }
    fn asked(&self) -> Questions {
        unreachable!()
    }
    fn is_authoritative(&self) -> bool {
        true
    }
    fn raw_account(&mut self, _backend_account_id: i64, _near_account_id: &str) -> BaselineRead {
        self.read.clone()
    }
    fn raw_account_at(&mut self, _near_account_id: &str, _block_height: u64) -> Option<Snapshot> {
        None
    }
}

#[test]
fn snapshot_fetch_error_is_a_failure_not_an_error() {
    let source = Fails { read: BaselineRead::Failed("simulated RPC timeout".to_string()) };
    let row = reconcile(100, source);
    assert!(row.status.starts_with("failure:"), "row: {row:?}");
    assert!(!row.status.starts_with("error:"), "row: {row:?}");
    assert_eq!(row.status, "failure:simulated RPC timeout");
}

#[test]
fn snapshot_panic_is_a_failure() {
    let row = reconcile(600, Fails { read: BaselineRead::Panicked });
    assert_eq!(row.status, "failure:snapshot panic");
    assert_eq!(row.calculated_total_claim, "0");
    assert_eq!(row.actual_total_claim, "5");
    assert_eq!(row.delta, "-5");
    assert_eq!((row.rel_delta.num, row.rel_delta.den), (-5, 5));
}

#[test]
fn contract_panic_is_an_error_not_a_failure() {
    let row = reconcile(400, LocalSnapshot::new(BaselineRead::Read(None)));
    assert!(row.status.starts_with("error:"), "row: {row:?}");
    assert!(!row.status.starts_with("failure:"), "row: {row:?}");
    assert_eq!(row.status, "error:Jar for product 365d_12apy is not found");
}

#[test]
fn account_not_found_via_invisible_creation_recovers_via_block_height_fallback() {
    let source = Archive {
        answers: vec![(
            190_000_900,
            r#"{"nonce":1,"jars":{"365d_12apy":{"deposits":[["1774000000000","1000000000000000000000"]],"cache":{"updated_at":"1774483200000","interest":"0"},"is_pending_withdraw":false,"claim_remainder":"0"}},"score":{"updated_at":1774483200000,"history":[]},"is_penalty_applied":false,"features":{},"timezone":0}"#,
        )],
    };
    let row = reconcile(600, source);
    assert_eq!(row.status, "ok", "row: {row:?}");
    assert_eq!(row.actual_total_claim, "0", "row: {row:?}");
}

const PRE_EXISTING: &str = r#"{"nonce":1,"jars":{"90d_3apy":{"deposits":[["1700000000000","500000000000000000000"]],"cache":{"updated_at":"1774000000000","interest":"0"},"is_pending_withdraw":false,"claim_remainder":"0"}},"score":{"updated_at":1774000000000,"history":[]},"is_penalty_applied":false,"features":{},"timezone":0}"#;

#[test]
fn deposit_first_account_with_invisible_pre_existing_state_recovers_via_block_height_fallback() {
    let slice = UserSlice {
        backend_account_id: 9001,
        near_account_id: "pre-existing.near".to_string(),
        existed_at_start: false,
        timezone_ms: Some(0),
        onchain_claimed: 0,
        first_event_block_height: Some(190_000_500),
        first_event_claim_amount: None,
        migration: None,
    };
    let timeline = Timeline {
        events: vec![event(
            1_774_000_100_000,
            0,
            Action::Deposit {
                product_id: "365d_12apy".to_string(),
                amount: 1_000_000_000_000_000_000_000,
            },
        )],
    };
    let mut source = Archive { answers: vec![(190_000_499, PRE_EXISTING)] };
    let (raw_account, out_timeline, claimed_adjustment) =
        apply_block_height_fallback(&mut source, &slice, None, timeline);
    assert_eq!(
        raw_account,
        Some(account_state_json_to_raw(PRE_EXISTING)),
        "pre-existing state must be used as the baseline"
    );
    assert_eq!(out_timeline.events.len(), 1, "the Deposit must still be replayed, not dropped");
    assert_eq!(claimed_adjustment, 0);
}

const LOCKED_STATE_JSON: &str = r#"{"nonce":0,"jars":{"365d_12apy":{"deposits":[["1774000000000","1"]],"cache":null,"is_pending_withdraw":true,"claim_remainder":"0"},"90d_3apy":{"deposits":[["1774000000000","1"]],"cache":null,"is_pending_withdraw":true,"claim_remainder":"0"}},"score":{"updated_at":1774000000000,"history":[]},"is_penalty_applied":false,"features":{},"timezone":0}"#;

#[test]
fn non_deposit_first_action_never_uses_a_locked_snapshot() {
    let source = Archive {
        answers: vec![
            (190_000_799, LOCKED_STATE_JSON),
            (190_000_800, r#"{"nonce":1,"jars":{"365d_12apy":{"deposits":[["1774000000000","9"]],"cache":null,"is_pending_withdraw":false,"claim_remainder":"0"}},"score":{"updated_at":1774000000000,"history":[]},"is_penalty_applied":false,"features":{},"timezone":0}"#),
        ],
    };
    let row = reconcile(500, source);
    // On the locked state the restake would end in "Not enough funds to restake".
    assert_eq!(row.status, "ok", "row: {row:?}");
}

#[test]
fn walkback_skips_multiple_locked_snapshots_to_find_the_true_prior_state() {
    let (slice, timeline) = load(500, None);
    assert_eq!(timeline.events.len(), 1);
    let true_prior_state = r#"{"nonce":0,"jars":{"365d_12apy":{"deposits":[["1774000000000","1"]],"cache":null,"is_pending_withdraw":false,"claim_remainder":"0"},"90d_3apy":{"deposits":[["1774000000000","1"]],"cache":null,"is_pending_withdraw":false,"claim_remainder":"0"}},"score":{"updated_at":1774000000000,"history":[]},"is_penalty_applied":false,"features":{},"timezone":0}"#;
    let mut source = Archive {
        answers: vec![
            (190_000_799, LOCKED_STATE_JSON),
            (190_000_798, LOCKED_STATE_JSON),
            (190_000_797, true_prior_state),
        ],
    };
    let (raw_account, out_timeline, claimed_adjustment) =
        apply_block_height_fallback(&mut source, &slice, None, timeline);
    assert_eq!(
        raw_account,
        Some(account_state_json_to_raw(true_prior_state)),
        "must walk back past both locked snapshots to the resolved state"
    );
    assert_eq!(out_timeline.events.len(), 1, "the restake must still be replayed, not dropped");
    assert_eq!(claimed_adjustment, 0);
}

/// Must never be asked for a state at a block.
struct PanicsIfCalled;

impl SnapshotSource for PanicsIfCalled {
    fn authoritative(&self) -> bool {
        unreachable!()
    }
    fn asked(&self) -> Questions {
        unreachable!()
    }
    fn is_authoritative(&self) -> bool {
        true
    }
    fn raw_account(&mut self, _backend_account_id: i64, _near_account_id: &str) -> BaselineRead {
        BaselineRead::Read(None)
    }
    fn raw_account_at(&mut self, _near_account_id: &str, _block_height: u64) -> Option<Snapshot> {
        panic!("raw_account_at must not be called when the migration has the raw bytes")
    }
}

#[test]
fn migration_record_with_raw_bytes_bypasses_the_network_entirely() {
    let expected_bytes = account_state_json_to_raw(PRE_EXISTING);
    let migration =
        Migration { block_height: 190_000_000, raw_account: Some(expected_bytes.clone()) };
    let (slice, timeline) = load(300, Some(migration));
    assert!(slice.migration.is_some(), "the migration row must be loaded");
    let (raw_account, out_timeline, claimed_adjustment) =
        apply_block_height_fallback(&mut PanicsIfCalled, &slice, None, timeline);
    assert_eq!(raw_account, Some(expected_bytes));
    assert_eq!(out_timeline.events.len(), 2, "both events must still be replayed, not dropped");
    assert_eq!(claimed_adjustment, 0);
}

#[test]
fn migration_record_without_raw_bytes_does_one_direct_fetch_at_its_own_block() {
    let (slice, timeline) =
        load(300, Some(Migration { block_height: 190_000_000, raw_account: None }));
    let migration = slice.migration.as_ref().unwrap();
    assert_eq!(migration.block_height, 190_000_000);
    assert!(migration.raw_account.is_none());

    let mut source = Archive { answers: vec![(190_000_000, PRE_EXISTING)] };
    let (raw_account, out_timeline, claimed_adjustment) =
        apply_block_height_fallback(&mut source, &slice, None, timeline);
    assert_eq!(raw_account, Some(account_state_json_to_raw(PRE_EXISTING)));
    assert_eq!(out_timeline.events.len(), 2, "both events must still be replayed, not dropped");
    assert_eq!(claimed_adjustment, 0);
}

#[test]
fn fresh_account_with_claim_reconciles_ok() {
    let row = reconcile(200, LocalSnapshot::new(BaselineRead::Read(None)));
    assert_eq!(row.status, "ok", "row: {row:?}");
    assert!(row.n_claims >= 1, "row: {row:?}");
    assert_eq!(row.actual_total_claim, "123", "row: {row:?}");
}
