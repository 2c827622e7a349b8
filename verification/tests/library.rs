//! The parts of the library on concrete values.

use std::cell::RefCell;

use replay::account::{parse_account_state, read_account_state, DailyScore, Deposit, JarCache};
use replay::bisect::{
    conclusion, event_heights, finding_line, Bisection, BlockRow, Finding, MissingBlock, Probe,
};
use replay::contract::{Contract, Script, Transcript};
use replay::decimal::{parse_u128, parse_u64, write_i128, write_u128};
use replay::engine::{
    contract_panicked, run_timeline, unwrap_guest_panic, Action, Baseline, ContractCall, Event,
    Product, Replay, ReplayOutcome, ReplayStatus, Reply, Signer, Timeline,
};
use replay::json::Json;
use replay::reconcile::{
    apply_block_height_fallback, conclude_replay, failure_row, prepare_replay, reconcile_user,
    status_kind, truncate, zero_calc_row, EngineRun, Prepared, Ratio, ReconError, ReconRow,
    StatusKind, Timing,
};
use replay::run::{
    belongs_to_shard, build_worklist, format_duration, heartbeat_due, heartbeat_interval,
    is_expected_panic, parse_shard, RunSummary, Selection, ShardError,
};
use replay::snapshot::{BaselineRead, LocalSnapshot, Questions, Snapshot, SnapshotSource};
use replay::timeline::{
    load_user, AccountRow, EventRow, LoadError, ParsedEvent, Payload, UserSlice,
};

fn event(ts_ms: u64, seq: u64, action: Action) -> Event {
    Event { ts_ms, seq, action }
}

/// A contract that replies by a function.
struct Replies<F>(F);

impl<F: FnMut(ContractCall) -> Reply> Contract for Replies<F> {
    fn made(&self) -> Transcript {
        unreachable!()
    }
    fn carry_out(&mut self, call: ContractCall) -> Reply {
        (self.0)(call)
    }
}

fn slice(onchain_claimed: u128) -> UserSlice {
    UserSlice {
        backend_account_id: 7,
        near_account_id: "alice.near".to_string(),
        existed_at_start: false,
        timezone_ms: None,
        onchain_claimed,
        first_event_block_height: None,
        first_event_claim_amount: None,
        migration: None,
    }
}

fn completed(amounts: &[u128]) -> ReplayOutcome {
    ReplayOutcome {
        total_claimed: amounts.iter().sum(),
        per_claim: amounts.iter().map(|a| (1, *a)).collect(),
        status: ReplayStatus::Completed,
    }
}

fn errored(message: &str) -> ReplayOutcome {
    ReplayOutcome {
        total_claimed: 0,
        per_claim: vec![],
        status: ReplayStatus::Error(message.to_string()),
    }
}

#[test]
fn numbers_are_written_and_read() {
    assert_eq!(write_u128(0), "0");
    assert_eq!(write_u128(u128::MAX), u128::MAX.to_string());
    assert_eq!(write_i128(i128::MIN), i128::MIN.to_string());
    assert_eq!(write_i128(-5), "-5");
    assert_eq!(write_i128(12), "12");
    assert_eq!(parse_u64("18446744073709551615"), Some(u64::MAX));
    assert_eq!(parse_u64("18446744073709551616"), None);
    assert_eq!(parse_u64("+7"), Some(7));
    assert_eq!(parse_u64("007"), Some(7));
    for bad in ["", "+", "-1", "1 ", "0x1", "1_0", "++1"] {
        assert_eq!(parse_u64(bad), None, "{bad:?}");
        assert_eq!(bad.parse::<u64>().ok(), None, "{bad:?}");
    }
    assert_eq!(parse_u128(&u128::MAX.to_string()), Some(u128::MAX));
    assert_eq!(parse_u128("340282366920938463463374607431768211456"), None);
}

#[test]
fn messages_are_cut_after_120_characters() {
    let whole = "x".repeat(120);
    assert_eq!(truncate(&whole), whole);
    let long = "\u{e9}".repeat(121);
    let cut = truncate(&long);
    assert_eq!(cut, format!("{}\u{2026}", "\u{e9}".repeat(120)));
    assert_eq!(truncate(&cut), cut);
    assert_eq!(truncate(""), "");
}

#[test]
fn guest_panics_are_unwrapped() {
    let wrapped = "called `Result::unwrap()` on an `Err` value: HostError(GuestPanic { panic_msg: \"Timezone is not set\" })";
    assert_eq!(unwrap_guest_panic(wrapped), "Timezone is not set");
    assert_eq!(unwrap_guest_panic("panic_msg: \"a\" } b\" }"), "a\" } b");
    assert_eq!(unwrap_guest_panic("panic_msg: \"never closed"), "panic_msg: \"never closed");
    assert_eq!(unwrap_guest_panic("plain"), "plain");
    assert!(matches!(contract_panicked(None).status,
        ReplayStatus::Error(message) if message == "unknown panic"));
    let outcome = contract_panicked(Some(wrapped));
    assert_eq!(outcome.total_claimed, 0);
    assert!(matches!(outcome.status,
        ReplayStatus::Error(message) if message == "Timezone is not set"));
}

#[test]
fn ties_keep_their_order_and_ranks_break_them() {
    let deposit = |id: &str| Action::Deposit { product_id: id.to_string(), amount: 1 };
    let timeline = Timeline {
        events: vec![
            event(2, 0, Action::Claim { timestamp_ms: 2 }),
            event(2, 0, deposit("a")),
            event(2, 0, deposit("b")),
            event(2, 0, Action::RecordScore(vec![])),
            event(1, 9, deposit("c")),
        ],
    }
    .sorted();
    let order: Vec<String> = timeline
        .events
        .iter()
        .map(|e| match &e.action {
            Action::Deposit { product_id, .. } => product_id.clone(),
            Action::Claim { .. } => "claim".to_string(),
            _ => "score".to_string(),
        })
        .collect();
    assert_eq!(order, vec!["c", "score", "a", "b", "claim"]);
    assert!(Timeline::default().sorted().events.is_empty());
}

#[test]
fn timezone_is_set_once_before_the_first_score_jar() {
    let products = vec![
        Product { id: "fixed".to_string(), is_score_based: false },
        Product { id: "score".to_string(), is_score_based: true },
        Product { id: "fixed".to_string(), is_score_based: true },
    ];
    let mut replay = Replay::new();
    let mut zones = vec![];
    for id in ["fixed", "unknown", "score", "score"] {
        let action = Action::Deposit { product_id: id.to_string(), amount: 1 };
        let calls = replay.plan_event(event(5, 0, action), Some(-3), &products);
        assert!(matches!(calls[0], ContractCall::SetBlockTime(5)));
        zones.push(calls.iter().any(|c| matches!(c, ContractCall::SetTimezone(-3))));
    }
    assert_eq!(zones, vec![false, false, true, false]);
}

#[test]
fn claims_run_at_their_own_time_and_are_reported_under_their_event() {
    let now = RefCell::new(0u64);
    let signers = RefCell::new(vec![]);
    let timeline = Timeline {
        events: vec![
            event(100, 0, Action::Claim { timestamp_ms: 77 }),
            event(200, 0, Action::Claim { timestamp_ms: 199 }),
        ],
    };
    let outcome = run_timeline(
        Baseline {
            account_id: "a.near".to_string(),
            raw_account: Some(vec![1, 2]),
            timezone_ms: None,
        },
        &[],
        10,
        timeline,
        &mut Replies(|call| match call {
            ContractCall::SetBlockTime(ts) => {
                *now.borrow_mut() = ts;
                Reply::Done
            }
            ContractCall::SwitchTo(signer) => {
                signers.borrow_mut().push(signer);
                Reply::Done
            }
            ContractCall::ClaimTotal { .. } => Reply::Claimed(*now.borrow() as u128),
            ContractCall::StoreAccount(raw) => {
                assert_eq!(raw, vec![1, 2]);
                Reply::Claimed(1_000)
            }
            _ => Reply::Done,
        }),
    );
    assert!(matches!(outcome.status, ReplayStatus::Completed));
    assert_eq!(outcome.per_claim, vec![(100, 77), (200, 199)]);
    assert_eq!(outcome.total_claimed, 276);
    assert_eq!(*signers.borrow(), vec![Signer::Account, Signer::Account]);
}

#[test]
fn a_replay_ends_at_the_first_panic() {
    let seen = RefCell::new(0usize);
    let outcome = run_timeline(
        Baseline { account_id: "a.near".to_string(), raw_account: None, timezone_ms: None },
        &[],
        0,
        Timeline {
            events: vec![
                event(1, 0, Action::Claim { timestamp_ms: 1 }),
                event(2, 0, Action::Withdraw { product_id: "p".to_string() }),
                event(3, 0, Action::Claim { timestamp_ms: 3 }),
            ],
        },
        &mut Replies(|call| {
            *seen.borrow_mut() += 1;
            match call {
                ContractCall::ClaimTotal { .. } => Reply::Claimed(5),
                ContractCall::Withdraw { .. } => Reply::Panicked(None),
                _ => Reply::Done,
            }
        }),
    );
    assert!(matches!(outcome.status,
        ReplayStatus::Error(ref message) if message == "unknown panic"));
    assert_eq!(outcome.total_claimed, 0);
    assert!(outcome.per_claim.is_empty());
    // Two to open, five for the claim, three up to the withdrawal.
    assert_eq!(*seen.borrow(), 10);
}

#[test]
fn exactly_the_planned_calls_are_made() {
    let names = |script: &Script| -> Vec<String> {
        script.calls().iter().map(|call| format!("{call:?}")).collect()
    };
    let run = |script: &mut Script| {
        run_timeline(
            Baseline { account_id: "a.near".to_string(), raw_account: None, timezone_ms: None },
            &[Product { id: "p".to_string(), is_score_based: false }],
            3,
            Timeline {
                events: vec![
                    event(10, 0, Action::Claim { timestamp_ms: 9 }),
                    event(20, 0, Action::SetIncreasedScoreCap(true)),
                ],
            },
            script,
        )
    };
    // Open, register, block time, then up to the claim.
    let mut replies: Vec<Reply> = (0..6).map(|_| Reply::Done).collect();
    replies.push(Reply::Claimed(5));
    let mut script = Script::new(replies.clone());
    let outcome = run(&mut script);
    assert_eq!(outcome.per_claim, vec![(10, 5)]);
    let made = names(&script);
    assert_eq!(
        made,
        vec![
            "Open { account_id: \"a.near\" }",
            "Register(Product { id: \"p\", is_score_based: false })",
            "SetBlockTime(3)",
            "SetBlockTime(10)",
            "SwitchTo(Account)",
            "SetBlockTime(9)",
            "ClaimTotal { event_ts_ms: 10 }",
            "Observe { index: 0 }",
            "SetBlockTime(20)",
            "SwitchTo(Operator)",
            "SetIncreasedScoreCap(true)",
            "Observe { index: 1 }",
        ]
    );
    // A replay that ends in a panic makes the first part of them.
    let mut script = Script::new(vec![Reply::Done, Reply::Panicked(Some("boom".to_string()))]);
    assert!(matches!(run(&mut script).status,
        ReplayStatus::Error(message) if message == "boom"));
    assert_eq!(names(&script), made[..2]);
    // The same replies give the same again.
    let mut again = Script::new(replies);
    assert_eq!(run(&mut again).per_claim, outcome.per_claim);
    assert_eq!(names(&again), made);
}

#[test]
fn a_total_past_128_bits_is_an_error() {
    let claim = |ts| event(ts, 0, Action::Claim { timestamp_ms: ts });
    let outcome = run_timeline(
        Baseline { account_id: "a.near".to_string(), raw_account: None, timezone_ms: None },
        &[],
        0,
        Timeline { events: vec![claim(1), claim(2)] },
        &mut Replies(|call| match call {
            ContractCall::ClaimTotal { .. } => Reply::Claimed(u128::MAX),
            _ => Reply::Done,
        }),
    );
    assert!(matches!(outcome.status,
        ReplayStatus::Error(message) if message == "attempt to add with overflow"));
    let mut replay = Replay::new();
    assert!(replay.record_claim(1, u128::MAX).is_ok());
    assert!(replay.record_claim(2, 0).is_ok());
    assert!(replay.record_claim(3, 1).is_err());
    assert_eq!(replay.finish().per_claim, vec![(1, u128::MAX), (2, 0)]);
}

fn row_of(payload: Payload) -> EventRow {
    EventRow {
        ts_ms: 50,
        log_index: 0,
        event: "claim".to_string(),
        block_height: 1,
        payload,
    }
}

fn account(near_account_id: &str, timezone_ms: Option<i64>) -> Option<AccountRow> {
    Some(AccountRow {
        near_account_id: near_account_id.to_string(),
        existed_at_start: false,
        timezone_ms,
    })
}

#[test]
fn loading_reports_the_first_fault() {
    let claim = |total| Payload::Parsed(ParsedEvent::Claim { total, timestamp_ms: 1 });
    let overflow = load_user(
        7,
        account("a.near", None),
        vec![row_of(claim(u128::MAX)), row_of(claim(1)), row_of(Payload::Malformed("x".into()))],
        None,
    );
    assert!(matches!(overflow, Err(LoadError::ClaimOverflow)));
    let malformed = load_user(
        7,
        account("a.near", None),
        vec![row_of(Payload::Malformed("bad json".into())), row_of(claim(1))],
        None,
    );
    assert!(matches!(malformed, Err(LoadError::Payload { ts_ms: 50, ref event, ref message })
        if event == "claim" && message == "bad json"));
    assert!(matches!(load_user(7, None, vec![], None), Err(LoadError::UnknownAccount)));
}

#[test]
fn local_times_become_utc() {
    let score = |local, timezone_ms| {
        let rows = vec![row_of(Payload::Parsed(ParsedEvent::RecordScore(vec![(1, local)])))];
        let (_, timeline) = load_user(7, account("a.near", timezone_ms), rows, None).unwrap();
        match &timeline.events[0].action {
            Action::RecordScore(pairs) => pairs[0].1,
            _ => unreachable!(),
        }
    };
    assert_eq!(score(40, Some(3)), 37);
    assert_eq!(score(40, Some(-3)), 43);
    assert_eq!(score(2, Some(3)), 0);
    assert_eq!(score(49, Some(-3)), 50);
    assert_eq!(score(40, None), 40);
    assert_eq!(score(40, Some(i64::MIN)), 40);
    assert_eq!(score(u64::MAX, Some(0)), 50);
}

#[test]
fn restakes_without_a_single_source_sweep() {
    let restake = |from: Vec<&str>| {
        let rows = vec![row_of(Payload::Parsed(ParsedEvent::Restake {
            into: "t".to_string(),
            from: from.into_iter().map(String::from).collect(),
            restaked: 3,
        }))];
        load_user(7, account("a.near", None), rows, None).unwrap().1.events.remove(0).action
    };
    assert!(matches!(restake(vec![]), Action::RestakeAll { ref product_id, amount: 3 }
        if product_id == "t"));
    assert!(matches!(restake(vec!["a"]), Action::Restake { ref from, ref into, amount: 3 }
        if from == "a" && into == "t"));
    assert!(matches!(restake(vec!["a", "b"]), Action::RestakeAll { .. }));
}

#[test]
fn boosters_join_the_last_free_deposit_of_their_block() {
    let row = |ts_ms, log_index, block_height, parsed| EventRow {
        ts_ms,
        log_index,
        event: "e".to_string(),
        block_height,
        payload: Payload::Parsed(parsed),
    };
    let deposit = |id: &str| ParsedEvent::Deposit { product_id: id.to_string(), amount: 1 };
    let booster = |score| ParsedEvent::ApplyBooster { score, timestamp_ms: 1 };
    let (_, timeline) = load_user(
        7,
        account("a.near", None),
        vec![
            row(10, 0, 1, booster(1)),
            row(10, 1, 1, deposit("a")),
            row(10, 2, 1, booster(2)),
            row(20, 0, 2, deposit("b")),
            row(30, 0, 3, booster(3)),
        ],
        None,
    )
    .unwrap();
    let kinds: Vec<String> = timeline
        .events
        .iter()
        .map(|e| match &e.action {
            Action::AirdropWithBooster { product_id, score, .. } => format!("{product_id}{score}"),
            Action::Deposit { product_id, .. } => product_id.clone(),
            Action::ApplyBooster { score, .. } => score.to_string(),
            _ => "other".to_string(),
        })
        .collect();
    assert_eq!(kinds, vec!["1", "a2", "b", "3"]);
}

/// Shows one state, always with a locked jar, and writes down what it is asked.
struct AlwaysLocked {
    asked_for: Vec<u64>,
    at_event: Option<u64>,
}

impl SnapshotSource for AlwaysLocked {
    fn authoritative(&self) -> bool {
        unreachable!()
    }
    fn asked(&self) -> Questions {
        unreachable!()
    }
    fn is_authoritative(&self) -> bool {
        true
    }
    fn raw_account(&mut self, _backend_account_id: i64, _near_account_id: &str) -> BaselineRead {
        BaselineRead::Read(None)
    }
    fn raw_account_at(&mut self, _near_account_id: &str, block_height: u64) -> Option<Snapshot> {
        self.asked_for.push(block_height);
        if self.at_event == Some(block_height) {
            None
        } else {
            Some(Snapshot { raw_account: vec![9], any_jar_locked: true })
        }
    }
}

fn claim_first(block_height: u64) -> (UserSlice, Timeline) {
    let mut slice = slice(10);
    slice.first_event_block_height = Some(block_height);
    slice.first_event_claim_amount = Some(4);
    let timeline = Timeline {
        events: vec![
            event(1, 0, Action::Claim { timestamp_ms: 1 }),
            event(2, 0, Action::Claim { timestamp_ms: 2 }),
        ],
    };
    (slice, timeline)
}

#[test]
fn the_walk_back_is_bounded() {
    let mut source = AlwaysLocked { asked_for: vec![], at_event: None };
    let (slice, timeline) = claim_first(100);
    let (raw, rest, adjustment) = apply_block_height_fallback(&mut source, &slice, None, timeline);
    let mut expected: Vec<u64> = (80..100).rev().collect();
    expected.push(100);
    assert_eq!(source.asked_for, expected);
    assert_eq!(raw, Some(vec![9]));
    assert_eq!(rest.events.len(), 1);
    assert_eq!(rest.events[0].ts_ms, 2);
    assert_eq!(adjustment, 4);
}

#[test]
fn the_walk_back_stops_at_the_first_block() {
    let mut source = AlwaysLocked { asked_for: vec![], at_event: Some(2) };
    let (slice, timeline) = claim_first(2);
    let (raw, rest, adjustment) = apply_block_height_fallback(&mut source, &slice, None, timeline);
    assert_eq!(source.asked_for, vec![1, 0, 2]);
    assert_eq!(raw, None);
    assert_eq!(rest.events.len(), 2);
    assert_eq!(adjustment, 0);
}

#[test]
fn a_known_state_is_left_alone() {
    let mut source = AlwaysLocked { asked_for: vec![], at_event: None };
    let (slice, timeline) = claim_first(100);
    let (raw, rest, adjustment) =
        apply_block_height_fallback(&mut source, &slice, Some(vec![1]), timeline);
    assert!(source.asked_for.is_empty());
    assert_eq!((raw, rest.events.len(), adjustment), (Some(vec![1]), 2, 0));
    let (slice, timeline) = claim_first(100);
    let mut local = LocalSnapshot::new(BaselineRead::Read(None));
    let (raw, rest, _) = apply_block_height_fallback(&mut local, &slice, None, timeline);
    assert_eq!((raw, rest.events.len()), (None, 2));
}

#[test]
fn a_left_out_claim_comes_off_the_actual_total() {
    let mut source = AlwaysLocked { asked_for: vec![], at_event: None };
    let (slice, timeline) = claim_first(100);
    match prepare_replay(&mut source, &slice, timeline, BaselineRead::Read(None)) {
        Prepared::Replay(pending) => {
            assert_eq!(pending.actual, 6);
            assert_eq!(pending.baseline.raw_account, Some(vec![9]));
            assert_eq!(pending.baseline.account_id, "alice.near");
            assert!(!pending.no_baseline);
        }
        Prepared::Row(row) => panic!("{row:?}"),
    }
}

#[test]
fn only_valid_account_ids_are_replayed() {
    let run = |id: &str| {
        reconcile_user(
            7,
            account(id, None),
            vec![],
            None,
            &mut LocalSnapshot::new(BaselineRead::Read(Some(vec![1]))),
            |baseline, _| {
                assert_eq!(baseline.raw_account, Some(vec![1]));
                EngineRun::Finished(completed(&[]))
            },
        )
        .unwrap()
        .status
    };
    let long = "a".repeat(64);
    let longer = "a".repeat(65);
    for id in ["alice.near", "a1", "a-b_c.d", "00", long.as_str()] {
        assert_eq!(run(id), "ok", "{id}");
        assert!(id.parse::<near_sdk::AccountId>().is_ok(), "{id}");
    }
    for id in
        ["", "a", "Alice.near", ".near", "near.", "a..b", "a_-b", "a b", "\u{e9}\u{e9}", longer.as_str()]
    {
        assert_eq!(run(id), "failure:invalid near_account_id", "{id}");
        assert!(id.parse::<near_sdk::AccountId>().is_err(), "{id}");
    }
}

#[test]
fn an_escaped_panic_is_a_failure() {
    let status = |run| conclude_replay(&slice(3), 3, false, run).status;
    assert_eq!(status(EngineRun::Escaped(None)), "failure:engine panic");
    assert_eq!(status(EngineRun::Escaped(Some("boom".to_string()))), "failure:boom");
    let long = status(EngineRun::Escaped(Some("y".repeat(200))));
    assert_eq!(long, format!("failure:{}\u{2026}", "y".repeat(120)));
}

#[test]
fn statuses_follow_the_outcome() {
    let status = |no_baseline, outcome| {
        conclude_replay(&slice(3), 3, no_baseline, EngineRun::Finished(outcome)).status
    };
    assert_eq!(status(false, completed(&[])), "ok");
    assert_eq!(status(true, completed(&[])), "no_baseline");
    assert_eq!(status(true, errored("Account x is not found")), "no_baseline");
    assert_eq!(status(false, errored("Account x is not found")), "error:Account x is not found");
    assert_eq!(status(true, errored("Timezone is not set")), "error:Timezone is not set");
    assert_eq!(status_kind("ok"), Some(StatusKind::Clean));
    assert_eq!(status_kind("no_baseline"), Some(StatusKind::NoBaseline));
    assert_eq!(status_kind("error:"), Some(StatusKind::Error));
    assert_eq!(status_kind("failure:x"), Some(StatusKind::Failure));
    assert_eq!(status_kind("okay"), None);
}

#[test]
fn rows_compare_exactly() {
    let row = conclude_replay(&slice(99), 8, false, EngineRun::Finished(completed(&[2, 3])));
    assert_eq!(row.account_id, 7);
    assert_eq!(row.near_account_id, "alice.near");
    assert_eq!(row.calculated_total_claim, "5");
    assert_eq!(row.actual_total_claim, "8");
    assert_eq!(row.delta, "-3");
    assert_eq!(row.rel_delta, Ratio { num: -3, den: 8 });
    assert_eq!(row.n_claims, 2);
    let row = conclude_replay(&slice(0), 0, false, EngineRun::Finished(completed(&[2])));
    assert_eq!(row.delta, "2");
    assert_eq!(row.rel_delta, Ratio { num: 0, den: 1 });
    let zero = zero_calc_row(&slice(u128::MAX), "error:x".to_string());
    assert_eq!(zero.actual_total_claim, u128::MAX.to_string());
    assert_eq!(zero.delta, format!("-{}", i128::MAX));
    assert_eq!(zero.calculated_total_claim, "0");
    assert_eq!(zero.rel_delta, Ratio { num: -i128::MAX, den: u128::MAX });
}

#[test]
fn totals_past_a_signed_number_are_failures() {
    let limit = i128::MAX as u128;
    let run = |calculated, actual| {
        let run = EngineRun::Finished(completed(&[calculated]));
        conclude_replay(&slice(actual), actual, false, run)
    };
    let row = run(limit + 1, limit + 1);
    assert_eq!(row.status, "failure:calculated_total_claim exceeds i128");
    assert_eq!(row.calculated_total_claim, "0");
    assert_eq!(row.n_claims, 0);
    let row = run(0, limit + 1);
    assert_eq!(row.status, "failure:actual_total_claim exceeds i128");
    assert_eq!(row.actual_total_claim, (limit + 1).to_string());
    assert_eq!(run(limit, 0).delta, i128::MAX.to_string());
    assert_eq!(run(limit, 0).status, "ok");
    assert_eq!(run(0, limit).delta, format!("-{}", i128::MAX));
}

#[test]
fn a_known_account_gives_a_row_whatever_its_history() {
    let run = |rows| {
        let mut local = LocalSnapshot::new(BaselineRead::Read(None));
        let engine = |_: Baseline, _: Timeline| EngineRun::Escaped(None);
        reconcile_user(4, account("a.near", None), rows, None, &mut local, engine).unwrap()
    };
    let row = run(vec![row_of(Payload::Malformed("m".to_string()))]);
    assert_eq!(row.status, "failure:account 4 ts 50 event claim");
    assert_eq!((row.account_id, row.near_account_id.as_str()), (4, "a.near"));
    assert_eq!(row.calculated_total_claim, "0");
    assert_eq!(row.actual_total_claim, "0");
    assert_eq!(row.delta, "0");
    assert_eq!(row.rel_delta, Ratio { num: 0, den: 1 });
    let claim =
        || row_of(Payload::Parsed(ParsedEvent::Claim { total: u128::MAX, timestamp_ms: 1 }));
    assert_eq!(run(vec![claim(), claim()]).status, "failure:onchain_claimed overflow");
    assert_eq!(run(vec![]).status, "failure:engine panic");
}

#[test]
fn errors_are_described() {
    let engine = |_: Baseline, _: Timeline| EngineRun::Escaped(None);
    let mut local = LocalSnapshot::new(BaselineRead::Read(None));
    let error = reconcile_user(-4, None, vec![], None, &mut local, engine).unwrap_err();
    assert_eq!(error, ReconError::UnknownAccount);
    assert_eq!(error.describe(-4), "account -4 not in accounts table");
    let long = LoadError::Payload {
        ts_ms: 50,
        event: "claim".to_string(),
        message: "m".to_string(),
    };
    assert_eq!(long.describe(4), "account 4 ts 50 event claim");
    assert_eq!(LoadError::ClaimOverflow.describe(4), "onchain_claimed overflow");
    let row = failure_row(4, "disk full");
    assert_eq!(row.status, "failure:disk full");
    assert_eq!((row.near_account_id.as_str(), row.delta.as_str()), ("", "0"));
}

#[test]
fn shard_errors_are_described() {
    let text = |s: &str| {
        let error = parse_shard(s).unwrap_err();
        error.describe(&format!("{:?}", error.fault(s)))
    };
    assert_eq!(text("3\""), "shard spec \"3\\\"\" is not `i/n`");
    assert_eq!(text(" x/4"), "shard index \" x\"");
    assert_eq!(text("1/2/3"), "shard count \"2/3\"");
    assert_eq!(text("0/0"), "shard count must be > 0");
    assert_eq!(text("5/4"), "shard index 5 must be < count 4");
}

#[test]
fn only_the_key_of_a_claim_follows_its_block_time() {
    let run = |ts_ms, trace: bool| {
        run_timeline(
            Baseline { account_id: "a.near".to_string(), raw_account: None, timezone_ms: None },
            &[],
            0,
            Timeline {
                events: vec![
                    event(10, 0, Action::Claim { timestamp_ms: 9 }),
                    event(ts_ms, 0, Action::Claim { timestamp_ms: 19 }),
                ],
            },
            &mut Replies(|call| match call {
                ContractCall::Open { account_id } => {
                    assert_eq!(account_id, "a.near");
                    Reply::Done
                }
                ContractCall::ClaimTotal { .. } => Reply::Claimed(7),
                ContractCall::Observe { .. } if trace => Reply::Claimed(99),
                _ => Reply::Done,
            }),
        )
    };
    let (a, b, traced) = (run(20, false), run(30, false), run(20, true));
    assert_eq!(a.per_claim, vec![(10, 7), (20, 7)]);
    assert_eq!(b.per_claim, vec![(10, 7), (30, 7)]);
    assert_eq!(a.total_claimed, b.total_claimed);
    assert_eq!(traced.per_claim, a.per_claim);
    assert_eq!(traced.total_claimed, a.total_claimed);
}

#[test]
fn a_second_run_is_empty() {
    let selection = Selection { force: false, accounts: None, shard: Some((1, 2)), sample: None };
    let all = || vec![1, 2, 3, 5];
    let work = build_worklist(all(), vec![3], &selection);
    assert_eq!(work, vec![1, 5]);
    let done = vec![3, 1, 5];
    assert_eq!(build_worklist(all(), done.clone(), &selection), Vec::<i64>::new());
    let forced = Selection { force: true, ..selection };
    assert_eq!(build_worklist(all(), done, &forced), vec![1, 3, 5]);
}

#[test]
fn joined_airdrops_stay_within_their_block_time() {
    let row = |log_index, parsed| EventRow {
        ts_ms: 50,
        log_index,
        event: "e".to_string(),
        block_height: 3,
        payload: Payload::Parsed(parsed),
    };
    let rows = vec![
        row(0, ParsedEvent::Deposit { product_id: "p".to_string(), amount: 1 }),
        row(1, ParsedEvent::ApplyBooster { score: 2, timestamp_ms: 90 }),
    ];
    let (_, timeline) = load_user(7, account("a.near", None), rows, None).unwrap();
    assert!(matches!(
        timeline.events[0],
        Event { ts_ms: 50, action: Action::AirdropWithBooster { timestamp_ms: 50, .. }, .. }
    ));
}

#[test]
fn timings_are_told_in_one_line() {
    let timing = Timing { load_us: 1, fetch_us: 20, replay_us: 300 };
    assert_eq!(
        timing.line(-9, "ok"),
        "TIMING account=-9 status=ok load_us=1 fetch_us=20 replay_us=300 total_us=321"
    );
    assert_eq!(Timing::default(), Timing { load_us: 0, fetch_us: 0, replay_us: 0 });
}

#[test]
fn shard_specs_are_parsed() {
    assert_eq!(parse_shard("0/4"), Ok((0, 4)));
    assert_eq!(parse_shard(" 3 /\u{2003}4 "), Ok((3, 4)));
    assert_eq!(parse_shard("+1/4"), Ok((1, 4)));
    assert_eq!(
        parse_shard("18446744073709551614/18446744073709551615"),
        Ok((u64::MAX - 1, u64::MAX))
    );
    assert_eq!(parse_shard("3"), Err(ShardError::NotPair));
    assert_eq!(parse_shard("x/y"), Err(ShardError::Index));
    assert_eq!(parse_shard("-1/4"), Err(ShardError::Index));
    assert_eq!(parse_shard("1/2/3"), Err(ShardError::Count));
    assert_eq!(parse_shard("1/"), Err(ShardError::Count));
    assert_eq!(parse_shard("0/0"), Err(ShardError::ZeroCount));
    assert_eq!(
        parse_shard("4/4"),
        Err(ShardError::IndexNotBelowCount { index: 4, count: 4 })
    );
}

#[test]
fn every_account_is_in_one_shard() {
    for id in [0, 1, 7, -1, -7, i64::MIN, i64::MAX] {
        for n in [1u64, 2, 3, 10] {
            let shards: Vec<u64> = (0..n).filter(|i| belongs_to_shard(id, *i, n)).collect();
            assert_eq!(shards, vec![id.rem_euclid(n as i64) as u64], "{id} {n}");
        }
    }
    assert!(belongs_to_shard(5, 5, u64::MAX));
    assert!(belongs_to_shard(-1, u64::MAX - 1, u64::MAX));
}

#[test]
fn worklists_are_selected() {
    let all = || vec![-2, 1, 2, 3, 4, 5];
    let pick = |force, accounts, shard, sample| {
        build_worklist(all(), vec![2, 5], &Selection { force, accounts, shard, sample })
    };
    assert_eq!(pick(false, None, None, None), vec![-2, 1, 3, 4]);
    assert_eq!(pick(true, None, None, None), all());
    assert_eq!(pick(true, Some(vec![5, 1, 99, 1]), None, None), vec![1, 5]);
    assert_eq!(pick(true, None, Some((0, 2)), None), vec![-2, 2, 4]);
    assert_eq!(pick(true, None, Some((1, 3)), None), vec![-2, 1, 4]);
    assert_eq!(pick(false, None, None, Some(2)), vec![-2, 1]);
    assert_eq!(pick(false, None, None, Some(9)), vec![-2, 1, 3, 4]);
    assert_eq!(pick(false, None, None, Some(0)), Vec::<i64>::new());
    // What is done is left out of the next run.
    let first = Selection { force: false, accounts: None, shard: None, sample: Some(2) };
    let work = build_worklist(all(), vec![], &first);
    assert_eq!(work, vec![-2, 1]);
    assert_eq!(build_worklist(all(), work, &first), vec![2, 3]);
}

#[test]
fn durations_are_formatted() {
    assert_eq!(format_duration(0), "0s");
    assert_eq!(format_duration(41), "41s");
    assert_eq!(format_duration(60), "1m00s");
    assert_eq!(format_duration(184), "3m04s");
    assert_eq!(format_duration(3600), "1h00m00s");
    assert_eq!(format_duration(45_296), "12h34m56s");
    assert_eq!(format_duration(u64::MAX), "5124095576030431h00m15s");
    let read = |text: &str| {
        let part = |text: &str, mark: char| match text.split_once(mark) {
            Some((number, rest)) => (number.parse::<u64>().unwrap(), rest.to_string()),
            None => (0, text.to_string()),
        };
        let (h, rest) = part(text, 'h');
        let (m, rest) = part(&rest, 'm');
        let (s, _) = part(&rest, 's');
        3600 * h + 60 * m + s
    };
    for secs in [0, 9, 59, 60, 61, 3599, 3600, 3661, 86_400, u64::MAX] {
        assert_eq!(read(&format_duration(secs)), secs);
    }
}

fn row(status: &str, calculated: &str, actual: &str) -> ReconRow {
    ReconRow {
        account_id: -3,
        near_account_id: "a.near".to_string(),
        calculated_total_claim: calculated.to_string(),
        actual_total_claim: actual.to_string(),
        delta: "0".to_string(),
        rel_delta: Ratio { num: 0, den: 1 },
        n_claims: 0,
        status: status.to_string(),
    }
}

#[test]
fn rows_are_counted() {
    let mut summary = RunSummary::default();
    assert_eq!(summary.count(&row("ok", "10", "11"), true), None);
    assert_eq!(summary.count(&row("ok", "1", "1"), false), None);
    assert_eq!(summary.count(&row("no_baseline", "2", "x"), true), None);
    assert_eq!(
        summary.count(&row("error:Timezone is not set", "0", "3"), true),
        Some("ERROR account=-3 error:Timezone is not set".to_string())
    );
    assert_eq!(
        summary.count(&row("failure:timeout", "0", "4"), true),
        Some("FAILURE account=-3 failure:timeout".to_string())
    );
    assert_eq!(
        summary,
        RunSummary {
            processed: 5,
            ok: 2,
            errored: 1,
            failed: 1,
            no_baseline: 1,
            sum_calculated: 13,
            sum_actual: 19,
            over_tolerance: 1,
        }
    );
    let counts = summary.ok + summary.errored + summary.failed + summary.no_baseline;
    assert_eq!(counts, summary.processed);
    summary.sum_actual = u128::MAX;
    assert!(!summary.can_count(&row("ok", "0", "1")));
    assert!(summary.can_count(&row("ok", "0", "0")));
}

#[test]
fn progress_is_reported() {
    let mut summary = RunSummary::default();
    summary.processed = 5;
    summary.ok = 2;
    summary.errored = 1;
    summary.failed = 1;
    summary.no_baseline = 1;
    assert_eq!(
        summary.progress_line(8, "62.5", 184, "0.03", "1m40s"),
        "PROGRESS 5/8 (62.5%) ok=2 error=1 failure=1 no_baseline=1 elapsed=3m04s rate=0.03/s eta=1m40s"
    );
    assert_eq!(
        summary.final_line(8, 41),
        "PROGRESS 5/8 (100.0%) ok=2 error=1 failure=1 no_baseline=1 elapsed=41s \u{2014} done"
    );
    assert_eq!(heartbeat_interval(None), 30);
    assert_eq!(heartbeat_interval(Some("0")), 0);
    assert_eq!(heartbeat_interval(Some("5")), 5);
    assert_eq!(heartbeat_interval(Some("soon")), 30);
    assert!(heartbeat_due(30, 30) && !heartbeat_due(30, 29) && !heartbeat_due(0, 99));
    assert!(is_expected_panic("HostError(GuestPanic { .. })"));
    assert!(is_expected_panic("at mocked_blockchain.rs:1"));
    assert!(!is_expected_panic("index out of bounds"));
}

fn object(members: Vec<(&str, Json)>) -> Json {
    Json::Object(members.into_iter().map(|(k, v)| (k.to_string(), v)).collect())
}

fn text(s: &str) -> Json {
    Json::Str(s.to_string())
}

fn jar(cache: Json, locked: Json) -> Json {
    object(vec![
        ("deposits", Json::Array(vec![Json::Array(vec![text("5"), text("700")])])),
        ("cache", cache),
        ("is_pending_withdraw", locked),
        ("claim_remainder", text("9")),
    ])
}

fn state(jars: Json, score: Json) -> Json {
    object(vec![
        ("nonce", Json::PosInt(0x1_0000_0007)),
        ("jars", jars),
        ("score", score),
        ("timezone", Json::NegInt(-18_000_000)),
        ("features", object(vec![("increased_score_cap", Json::Bool(true))])),
    ])
}

#[test]
fn account_states_are_parsed() {
    let cache = object(vec![("updated_at", text("6")), ("interest", text("8"))]);
    let score = object(vec![
        ("updated_at", Json::PosInt(44)),
        (
            "history",
            Json::Array(vec![object(vec![
                ("value", Json::PosInt(0x1_0003)),
                ("booster", Json::PosInt(2)),
            ])]),
        ),
    ]);
    let jars = object(vec![
        ("a", jar(cache, Json::Bool(false))),
        ("b", jar(Json::Null, Json::Bool(true))),
    ]);
    let account = parse_account_state(&state(jars, score), 1_000);
    assert_eq!(account.nonce, 7);
    assert_eq!(account.timezone_ms, -18_000_000);
    assert_eq!(account.score.updated_at, 44);
    assert_eq!(account.score.current, DailyScore { value: 3, booster: 2 });
    assert_eq!(account.score.previous, DailyScore { value: 0, booster: 0 });
    assert!(account.features.increased_score_cap);
    assert!(!account.features.increased_apy);
    assert_eq!(account.jars[0].0, "a");
    assert_eq!(account.jars[0].1.deposits, vec![Deposit { created_at: 5, principal: 700 }]);
    assert_eq!(account.jars[0].1.cache, Some(JarCache { updated_at: 6, interest: 8 }));
    assert_eq!(account.jars[0].1.claim_remainder, 9);
    assert_eq!(account.jars[1].1.cache, None);
    assert!(account.jars[1].1.is_locked);
    assert!(account.any_jar_locked());
}

#[test]
fn missing_parts_of_a_state_have_defaults() {
    let bare = object(vec![
        ("jars", object(vec![("a", object(vec![("deposits", Json::Array(vec![]))]))])),
        ("score", object(vec![("history", Json::Array(vec![]))])),
    ]);
    let account = parse_account_state(&bare, 1_000);
    assert_eq!(account.nonce, 0);
    assert_eq!(account.timezone_ms, i64::MIN);
    assert_eq!(account.score.updated_at, 1_000);
    assert_eq!(account.jars[0].1.claim_remainder, 0);
    assert!(account.jars[0].1.cache.is_none());
    assert!(!account.any_jar_locked());
    let zero = object(vec![
        ("jars", object(vec![])),
        (
            "score",
            object(vec![("updated_at", Json::PosInt(0)), ("history", Json::Array(vec![]))]),
        ),
    ]);
    assert_eq!(parse_account_state(&zero, 1_000).score.updated_at, 1_000);
}

#[test]
fn other_shapes_are_no_account_state() {
    let score = || object(vec![("history", Json::Array(vec![]))]);
    let with_jar = |jar| state(object(vec![("a", jar)]), score());
    let broken = vec![
        Json::Null,
        state(Json::Array(vec![]), score()),
        state(object(vec![]), Json::Null),
        with_jar(object(vec![])),
        with_jar(object(vec![("deposits", Json::Array(vec![Json::Array(vec![text("5")])]))])),
        with_jar(object(vec![(
            "deposits",
            Json::Array(vec![Json::Array(vec![Json::PosInt(5), text("7")])]),
        )])),
        with_jar(jar(Json::Bool(true), Json::Null)),
        with_jar(jar(object(vec![("updated_at", text("6"))]), Json::Null)),
    ];
    for json in broken {
        assert!(read_account_state(&json, 0).is_none(), "{json:?}");
    }
}

#[test]
fn json_is_read_by_kind() {
    assert_eq!(Json::PosInt(u64::MAX).as_i64(), None);
    assert_eq!(Json::PosInt(5).as_i64(), Some(5));
    assert_eq!(Json::NegInt(-5).as_i64(), Some(-5));
    assert_eq!(Json::NegInt(-5).as_u64(), None);
    assert_eq!(Json::Float.as_u64(), None);
    assert_eq!(text("x").as_str(), Some("x"));
    assert_eq!(Json::Bool(true).as_bool(), Some(true));
    let list = Json::Array(vec![Json::PosInt(1)]);
    assert_eq!(list.item(0).as_u64(), Some(1));
    assert!(matches!(list.item(1), Json::Null));
    assert!(matches!(list.field("a"), Json::Null));
    assert!(list.as_object().is_none());
    assert!(object(vec![("a", Json::Null)]).get("a").is_some());
    assert!(object(vec![("a", Json::Null)]).get("b").is_none());
}

#[test]
fn a_bisection_names_the_first_divergence() {
    let events: Vec<Event> = [(1, 0), (1, 1), (2, 0), (3, 0)]
        .into_iter()
        .map(|(ts, seq)| event(ts, seq, Action::Claim { timestamp_ms: ts }))
        .collect();
    let at = |ts_ms, log_index, block_height| BlockRow { ts_ms, log_index, block_height };
    let rows = vec![at(1, 0, 99), at(1, 0, 10), at(1, 1, 10), at(2, 0, 11), at(3, 0, 12)];
    let heights = event_heights(&events, &rows).unwrap();
    assert_eq!(heights, vec![10, 10, 11, 12]);
    assert_eq!(
        event_heights(&events, &rows[..3].to_vec()),
        Err(MissingBlock { ts_ms: 2, seq: 0 })
    );

    let mut search = Bisection::new(heights, vec![0, 1, 2, 3]);
    assert_eq!(search.probe(), Probe::Shared { index: 0, block_height: 10 });
    search.advance(Finding::Shared);
    assert_eq!(search.probe(), Probe::Compare { index: 1, block_height: 10 });
    search.advance(Finding::Same);
    assert_eq!(search.first_divergence(), None);
    assert_eq!(search.probe(), Probe::Compare { index: 2, block_height: 11 });
    search.advance(Finding::Different);
    assert_eq!(search.probe(), Probe::Done);
    assert_eq!(search.first_divergence(), Some(2));
}

#[test]
fn a_bisection_without_differences_goes_to_the_end() {
    let mut search = Bisection::new(vec![5, 6], vec![1]);
    assert_eq!(search.probe(), Probe::Compare { index: 1, block_height: 6 });
    search.advance(Finding::Absent);
    assert_eq!(search.probe(), Probe::Done);
    assert_eq!(search.first_divergence(), None);
    assert_eq!(finding_line(3, 12, Finding::Same), "[  3] block 12: match");
    assert_eq!(finding_line(42, 12, Finding::Different), "[ 42] block 12: FIRST DIVERGENCE");
    assert_eq!(
        finding_line(1234, 12, Finding::Shared),
        "[1234] block 12: shares this block with the next event \u{2014} skipping"
    );
    assert_eq!(
        finding_line(123, 0, Finding::Absent),
        "[123] block 0: chain state is null (account not yet created) \u{2014} skipping"
    );
    assert_eq!(conclusion(Some(4)), "First divergence at event index 4 (0-based).");
    assert_eq!(
        conclusion(None),
        "No divergence found \u{2014} replay matches real chain state at every event boundary."
    );
}
