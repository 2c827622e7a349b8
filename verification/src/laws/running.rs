//! Laws of a whole run: which accounts it takes, and what it counts.

use vstd::prelude::*;

use crate::decimal::{
    digits, is_digit, law_digits_have_no_leading_zero, law_digits_read_back, read_decimal,
    signed_digits,
};
use crate::engine::ReplayOutcome;
use crate::laws::numbers::law_every_number_up_to_the_limit_reads;
use crate::laws::reconciling::law_replayed_row_tells_the_outcome;
use crate::reconcile::{
    has_kind, is_concluded, law_status_has_one_form, EngineRun, ReconRow, StatusKind,
};
use crate::run::{
    amount_in, duration_text, in_shard, interval_of, is_due, is_expected, is_run,
    law_duration_reads_back, notice_of, one_if, shard_of, RunSummary, Selection, ShardError,
};
use crate::text::{
    find_from, is_whitespace_char, lemma_find_from, occurs, occurs_at, trimmed,
};
use crate::timeline::UserSlice;

verus! {

/// Every amount that a row can carry counts in full: the column that holds the
/// digits of `n` adds exactly `n`, up to the largest number of 128 bits. A column
/// that holds no number adds nothing.
pub proof fn law_amount_counts_in_full(n: nat, column: Seq<char>)
    ensures
        n <= u128::MAX ==> amount_in(digits(n)) == n,
        read_decimal(column) is None ==> amount_in(column) == 0,
        read_decimal(column) matches Some(m) ==> amount_in(column) == (if m <= u128::MAX {
            m
        } else {
            0
        }),
{
    law_digits_read_back(n);
}

/// The sum of the numbers.
pub open spec fn sum(values: Seq<nat>) -> nat
    decreases values.len(),
{
    if values.len() == 0 {
        0
    } else {
        values[0] + sum(values.skip(1))
    }
}

proof fn lemma_sum_push(values: Seq<nat>, value: nat)
    ensures
        sum(values.push(value)) == sum(values) + value,
    decreases values.len(),
{
    reveal_with_fuel(sum, 2);
    if values.len() == 0 {
        assert(values.push(value).skip(1) =~= values);
    } else {
        lemma_sum_push(values.skip(1), value);
        assert(values.push(value).skip(1) =~= values.skip(1).push(value));
    }
}

/// At every point of a run the two sums are the sums of what the rows so far carry:
/// a row that carries the digits of an amount adds just that amount.
pub proof fn law_sums_are_the_sums_of_the_rows(
    rows: Seq<ReconRow>,
    over: Seq<bool>,
    steps: Seq<RunSummary>,
    calculated: Seq<nat>,
    actual: Seq<nat>,
    k: int,
)
    requires
        is_run(rows, over, steps),
        calculated.len() == rows.len(),
        actual.len() == rows.len(),
        forall|j: int|
            0 <= j < rows.len() ==> {
                &&& (#[trigger] rows[j]).calculated_total_claim@ == digits(calculated[j])
                &&& rows[j].actual_total_claim@ == digits(actual[j])
                &&& calculated[j] <= u128::MAX
                &&& actual[j] <= u128::MAX
            },
        0 <= k <= rows.len(),
    ensures
        steps[k].sum_calculated == sum(calculated.take(k)),
        steps[k].sum_actual == sum(actual.take(k)),
    decreases k,
{
    if k > 0 {
        law_sums_are_the_sums_of_the_rows(rows, over, steps, calculated, actual, k - 1);
        assert(steps[k - 1].counts(rows[k - 1], over[k - 1], steps[k]));
        assert(rows[k - 1].calculated_total_claim@ == digits(calculated[k - 1]));
        law_amount_counts_in_full(calculated[k - 1], Seq::empty());
        law_amount_counts_in_full(actual[k - 1], Seq::empty());
        assert(calculated.take(k) =~= calculated.take(k - 1).push(calculated[k - 1]));
        assert(actual.take(k) =~= actual.take(k - 1).push(actual[k - 1]));
        lemma_sum_push(calculated.take(k - 1), calculated[k - 1]);
        lemma_sum_push(actual.take(k - 1), actual[k - 1]);
    }
}

/// What a replay claimed, and what it is held against.
pub struct Comparison {
    pub slice: UserSlice,
    pub actual: u128,
    pub no_baseline: bool,
    pub outcome: ReplayOutcome,
}

/// In a run of replays, the sum of the calculated column is the sum of what the
/// replays claimed, and the sum of the actual column that of the on-chain totals.
pub proof fn law_run_adds_up_what_the_replays_claimed(
    comparisons: Seq<Comparison>,
    rows: Seq<ReconRow>,
    over: Seq<bool>,
    steps: Seq<RunSummary>,
    k: int,
)
    requires
        is_run(rows, over, steps),
        comparisons.len() == rows.len(),
        forall|j: int|
            0 <= j < rows.len() ==> {
                let c = #[trigger] comparisons[j];
                &&& is_concluded(
                    c.slice,
                    c.actual,
                    c.no_baseline,
                    EngineRun::Finished(c.outcome),
                    rows[j],
                )
                &&& c.outcome.total_claimed <= i128::MAX
                &&& c.actual <= i128::MAX
            },
        0 <= k <= rows.len(),
    ensures
        steps[k].sum_calculated == sum(
            comparisons.take(k).map_values(|c: Comparison| c.outcome.total_claimed as nat),
        ),
        steps[k].sum_actual == sum(
            comparisons.take(k).map_values(|c: Comparison| c.actual as nat),
        ),
{
    let claimed = |c: Comparison| c.outcome.total_claimed as nat;
    let held = |c: Comparison| c.actual as nat;
    let calculated = comparisons.map_values(claimed);
    let actual = comparisons.map_values(held);
    assert forall|j: int| 0 <= j < rows.len() implies {
        &&& (#[trigger] rows[j]).calculated_total_claim@ == digits(calculated[j])
        &&& rows[j].actual_total_claim@ == digits(actual[j])
        &&& calculated[j] <= u128::MAX
        &&& actual[j] <= u128::MAX
    } by {
        let c = comparisons[j];
        law_replayed_row_tells_the_outcome(c.slice, c.actual, c.no_baseline, c.outcome, rows[j]);
    }
    law_sums_are_the_sums_of_the_rows(rows, over, steps, calculated, actual, k);
    assert(calculated.take(k) =~= comparisons.take(k).map_values(claimed));
    assert(actual.take(k) =~= comparisons.take(k).map_values(held));
}

/// A row can be counted exactly where there is a summary that counts it.
pub proof fn law_row_is_counted_wherever_it_fits(summary: RunSummary, row: ReconRow, over: bool)
    requires
        summary.wf(),
    ensures
        summary.has_room(row) <==> exists|next: RunSummary| #[trigger]
            summary.counts(row, over, next),
{
    if summary.has_room(row) {
        let status = row.status@;
        let clean = has_kind(status, StatusKind::Clean);
        let next = RunSummary {
            processed: (summary.processed + 1) as usize,
            ok: (summary.ok + one_if(clean)) as usize,
            errored: (summary.errored + one_if(has_kind(status, StatusKind::Error))) as usize,
            failed: (summary.failed + one_if(has_kind(status, StatusKind::Failure))) as usize,
            no_baseline: (summary.no_baseline + one_if(
                has_kind(status, StatusKind::NoBaseline),
            )) as usize,
            sum_calculated: (summary.sum_calculated + amount_in(
                row.calculated_total_claim@,
            )) as u128,
            sum_actual: (summary.sum_actual + amount_in(row.actual_total_claim@)) as u128,
            over_tolerance: (summary.over_tolerance + one_if(clean && over)) as usize,
        };
        assert(summary.counts(row, over, next));
    }
}

/// The text is `head` with something behind it.
pub open spec fn opens_with(text: Seq<char>, head: Seq<char>) -> bool {
    head.len() <= text.len() && text.take(head.len() as int) == head
}

/// A row counts once as a row and once under its status, and under no other; `ok`
/// rows outside the tolerance count there too, and no other row does.
pub proof fn law_row_counts_under_its_status(
    before: RunSummary,
    row: ReconRow,
    over: bool,
    after: RunSummary,
)
    requires
        before.counts(row, over, after),
    ensures
        after.processed == before.processed + 1,
        row.status@ == "ok"@ ==> after == (RunSummary {
            processed: after.processed,
            ok: (before.ok + 1) as usize,
            over_tolerance: after.over_tolerance,
            sum_calculated: after.sum_calculated,
            sum_actual: after.sum_actual,
            ..before
        }) && before.ok + 1 == after.ok && after.over_tolerance == before.over_tolerance + (
        if over {
            1int
        } else {
            0
        }),
        row.status@ == "no_baseline"@ ==> after == (RunSummary {
            processed: after.processed,
            no_baseline: (before.no_baseline + 1) as usize,
            sum_calculated: after.sum_calculated,
            sum_actual: after.sum_actual,
            ..before
        }) && before.no_baseline + 1 == after.no_baseline,
        opens_with(row.status@, "error:"@) ==> after == (RunSummary {
            processed: after.processed,
            errored: (before.errored + 1) as usize,
            sum_calculated: after.sum_calculated,
            sum_actual: after.sum_actual,
            ..before
        }) && before.errored + 1 == after.errored,
        opens_with(row.status@, "failure:"@) ==> after == (RunSummary {
            processed: after.processed,
            failed: (before.failed + 1) as usize,
            sum_calculated: after.sum_calculated,
            sum_actual: after.sum_actual,
            ..before
        }) && before.failed + 1 == after.failed,
        row.status@ != "ok"@ && row.status@ != "no_baseline"@ && !opens_with(
            row.status@,
            "error:"@,
        ) && !opens_with(row.status@, "failure:"@) ==> after == (RunSummary {
            processed: after.processed,
            sum_calculated: after.sum_calculated,
            sum_actual: after.sum_actual,
            ..before
        }),
{
    let status = row.status@;
    reveal_strlit("ok");
    reveal_strlit("no_baseline");
    reveal_strlit("error:");
    reveal_strlit("failure:");
    if opens_with(status, "error:"@) {
        assert(status.subrange(0, 6) =~= status.take(6));
        assert(status.take(6)[0] == 'e');
    }
    if opens_with(status, "failure:"@) {
        assert(status.subrange(0, 8) =~= status.take(8));
        assert(status.take(8)[0] == 'f');
    }
    assert forall|a: StatusKind, b: StatusKind| #[trigger]
        has_kind(status, a) && #[trigger] has_kind(status, b) implies a == b by {
        law_status_has_one_form(status, a, b);
    }
    if has_kind(status, StatusKind::Error) {
        assert(status.subrange(0, 6) =~= status.take(6));
    }
    if has_kind(status, StatusKind::Failure) {
        assert(status.subrange(0, 8) =~= status.take(8));
    }
    assert(has_kind(status, StatusKind::Clean) <==> status == "ok"@);
    assert(has_kind(status, StatusKind::NoBaseline) <==> status == "no_baseline"@);
}

/// Only an error and a failure are reported as they come, under their own head, with
/// the account and the whole status.
pub proof fn law_notice_tells_account_and_status(row: ReconRow)
    ensures
        opens_with(row.status@, "error:"@) ==> notice_of(row) == Some(
            "ERROR account="@ + signed_digits(row.account_id as int) + " "@ + row.status@,
        ),
        opens_with(row.status@, "failure:"@) ==> notice_of(row) == Some(
            "FAILURE account="@ + signed_digits(row.account_id as int) + " "@ + row.status@,
        ),
        notice_of(row) is Some ==> opens_with(row.status@, "error:"@) || opens_with(
            row.status@,
            "failure:"@,
        ),
{
    let status = row.status@;
    reveal_strlit("error:");
    reveal_strlit("failure:");
    if opens_with(status, "error:"@) {
        assert(status.subrange(0, 6) =~= status.take(6));
    }
    if opens_with(status, "failure:"@) {
        assert(status.subrange(0, 8) =~= status.take(8));
        assert(status.take(8)[0] == 'f');
    }
    if occurs_at(status, "error:"@, 0) {
        assert(status.subrange(0, 6)[0] == 'e');
        assert(status.subrange(0, 6) =~= status.take(6));
    }
    if occurs_at(status, "failure:"@, 0) {
        assert(status.subrange(0, 8) =~= status.take(8));
    }
}

/// An account is in shard `i` of `n` where it lies `i` past a multiple of `n`, also
/// below zero. So from one account of a shard to the next it is `n` steps.
pub proof fn law_shard_is_every_nth_account(id: i64, i: u64, n: u64, q: int)
    requires
        i < n,
    ensures
        id == n * q + i ==> in_shard(id, i, n),
        in_shard(id, i, n) ==> exists|p: int| id == #[trigger] (n * p) + i,
{
    if id == n * q + i {
        vstd::arithmetic::div_mod::lemma_fundamental_div_mod_converse(
            id as int,
            n as int,
            q,
            i as int,
        );
    }
    if in_shard(id, i, n) {
        vstd::arithmetic::div_mod::lemma_fundamental_div_mod(id as int, n as int);
        let p = id as int / n as int;
        assert(id == n * p + i);
    }
}

/// Every character is whitespace.
pub open spec fn all_whitespace(s: Seq<char>) -> bool {
    forall|k: int| 0 <= k < s.len() ==> is_whitespace_char(#[trigger] s[k])
}

/// Whitespace around a text is trimmed, all of it and nothing else. The space, the
/// tab and the ends of lines are whitespace.
pub proof fn law_whitespace_around_is_trimmed(left: Seq<char>, body: Seq<char>, right: Seq<char>)
    requires
        all_whitespace(left),
        all_whitespace(right),
        body.len() > 0,
        !is_whitespace_char(body[0]),
        !is_whitespace_char(body.last()),
    ensures
        trimmed(left + body + right) == body,
        trimmed(left) == Seq::<char>::empty(),
        is_whitespace_char(' ') && is_whitespace_char('\t') && is_whitespace_char('\n')
            && is_whitespace_char('\r'),
    decreases left.len() + right.len(),
{
    let s = left + body + right;
    if left.len() > 0 {
        let rest = left.subrange(1, left.len() as int);
        assert(s[0] == left[0]);
        assert(is_whitespace_char(left[0]));
        assert forall|k: int| 0 <= k < rest.len() implies is_whitespace_char(
            #[trigger] rest[k],
        ) by {
            assert(is_whitespace_char(left[k + 1]));
        }
        law_whitespace_around_is_trimmed(rest, body, right);
        assert(s.subrange(1, s.len() as int) =~= rest + body + right);
    } else if right.len() > 0 {
        let rest = right.subrange(0, right.len() - 1);
        assert(s[0] == body[0]);
        assert(s[s.len() - 1] == right[right.len() - 1]);
        assert(is_whitespace_char(right[right.len() - 1]));
        assert forall|k: int| 0 <= k < rest.len() implies is_whitespace_char(
            #[trigger] rest[k],
        ) by {
            assert(is_whitespace_char(right[k]));
        }
        law_whitespace_around_is_trimmed(left, body, rest);
        assert(s.subrange(0, s.len() - 1) =~= left + body + rest);
        assert(left =~= Seq::<char>::empty());
    } else {
        assert(s =~= body);
        assert(left =~= Seq::<char>::empty());
    }
}

/// A shard spec is an index and a count with a slash between them, with whitespace
/// around each as one likes. It is taken where the index is below the count; a count
/// of zero, and an index that is not below the count, are refused as such.
pub proof fn law_shard_spec_is_index_and_count(
    i: u64,
    n: u64,
    a: Seq<char>,
    b: Seq<char>,
    c: Seq<char>,
    d: Seq<char>,
)
    requires
        all_whitespace(a),
        all_whitespace(b),
        all_whitespace(c),
        all_whitespace(d),
    ensures
        shard_of(a + digits(i as nat) + b + seq!['/'] + (c + digits(n as nat) + d)) == (if n == 0 {
            Err::<(u64, u64), ShardError>(ShardError::ZeroCount)
        } else if i >= n {
            Err(ShardError::IndexNotBelowCount { index: i, count: n })
        } else {
            Ok((i, n))
        }),
{
    let left = a + digits(i as nat) + b;
    let right = c + digits(n as nat) + d;
    let s = left + seq!['/'] + right;
    let at = left.len() as int;
    reveal_strlit("/");
    assert("/"@ =~= seq!['/']);
    law_digits_have_no_leading_zero(i as nat);
    law_digits_have_no_leading_zero(n as nat);
    lemma_find_from(s, "/"@, 0);
    assert(s.subrange(at, at + 1) =~= "/"@);
    assert(occurs_at(s, "/"@, at));
    assert forall|j: int| 0 <= j < at implies !occurs_at(s, "/"@, j) by {
        if occurs_at(s, "/"@, j) {
            assert(s.subrange(j, j + 1)[0] == s[j]);
            assert(left[j] == '/');
            if j < a.len() {
                assert(is_whitespace_char(a[j]));
            } else if j < a.len() + digits(i as nat).len() {
                assert(is_digit(digits(i as nat)[j - a.len()]));
            } else {
                assert(is_whitespace_char(b[j - a.len() - digits(i as nat).len()]));
            }
        }
    }
    assert(s.subrange(0, at) =~= left);
    assert(s.subrange(at + 1, s.len() as int) =~= right);
    let x = digits(i as nat);
    let y = digits(n as nat);
    assert(is_digit(x[0]) && is_digit(x[x.len() - 1]));
    assert(is_digit(y[0]) && is_digit(y[y.len() - 1]));
    law_whitespace_around_is_trimmed(a, x, b);
    law_whitespace_around_is_trimmed(c, y, d);
    law_every_number_up_to_the_limit_reads(i as nat, u64::MAX as nat);
    law_every_number_up_to_the_limit_reads(n as nat, u64::MAX as nat);
}

/// A shard spec that is taken names a shard that there is; one without a slash is
/// refused.
pub proof fn law_shard_that_is_taken_exists(s: Seq<char>)
    ensures
        shard_of(s) matches Ok((i, n)) ==> i < n,
        (forall|k: int| 0 <= k < s.len() ==> #[trigger] s[k] != '/') ==> shard_of(s) == Err::<
            (u64, u64),
            ShardError,
        >(ShardError::NotPair),
{
    reveal_strlit("/");
    lemma_find_from(s, "/"@, 0);
    if let Some(at) = find_from(s, "/"@, 0) {
        assert(s.subrange(at, at + 1)[0] == s[at]);
        assert(s[at] == '/');
    }
}

/// The part at fault in a shard spec is what stands before the first slash, where the
/// index is, what stands behind it, where the count is, and else the whole.
pub proof fn law_fault_is_the_part_that_does_not_read(
    a: Seq<char>,
    b: Seq<char>,
    index: u64,
    count: u64,
)
    requires
        forall|k: int| 0 <= k < a.len() ==> #[trigger] a[k] != '/',
    ensures
        ShardError::Index.fault_in(a + seq!['/'] + b) == a,
        ShardError::Count.fault_in(a + seq!['/'] + b) == b,
        ShardError::NotPair.fault_in(a) == a,
        ShardError::ZeroCount.fault_in(a + seq!['/'] + b) == a + seq!['/'] + b,
        (ShardError::IndexNotBelowCount { index, count }).fault_in(a + seq!['/'] + b) == a
            + seq!['/'] + b,
{
    let s = a + seq!['/'] + b;
    let at = a.len() as int;
    reveal_strlit("/");
    assert("/"@ =~= seq!['/']);
    lemma_find_from(s, "/"@, 0);
    assert(s.subrange(at, at + 1) =~= "/"@);
    assert(occurs_at(s, "/"@, at));
    if let Some(found) = find_from(s, "/"@, 0) {
        if found < at {
            assert(s.subrange(found, found + 1)[0] == s[found]);
            assert(a[found] == '/');
        }
    }
    assert(s.subrange(0, at) =~= a);
    assert(s.subrange(at + 1, s.len() as int) =~= b);
}

/// The text is a number of 64 bits.
pub open spec fn is_small(text: Seq<char>) -> bool {
    read_decimal(text) matches Some(n) && n <= u64::MAX
}

/// A spec whose index, or whose count, does not read is refused for that part, and for
/// the index first.
pub proof fn law_part_that_does_not_read_is_refused(a: Seq<char>, b: Seq<char>)
    requires
        forall|k: int| 0 <= k < a.len() ==> #[trigger] a[k] != '/',
    ensures
        !is_small(trimmed(a)) ==> shard_of(a + seq!['/'] + b) == Err::<(u64, u64), ShardError>(
            ShardError::Index,
        ),
        is_small(trimmed(a)) && !is_small(trimmed(b)) ==> shard_of(a + seq!['/'] + b) == Err::<
            (u64, u64),
            ShardError,
        >(ShardError::Count),
{
    law_fault_is_the_part_that_does_not_read(a, b, 0, 0);
    let s = a + seq!['/'] + b;
    reveal_strlit("/");
    lemma_find_from(s, "/"@, 0);
    let at = a.len() as int;
    assert(s.subrange(at, at + 1) =~= "/"@);
    assert(occurs_at(s, "/"@, at));
}

/// A length of time takes as many characters as its leading part has digits, one for
/// its unit, and three for each part that follows: parts below the first always have
/// two digits.
pub proof fn law_duration_parts_are_two_digits_wide(total: u64)
    ensures
        duration_text(total).len() == (if total >= 3600 {
            digits((total / 3600) as nat).len() + 7
        } else if total >= 60 {
            digits((total / 60) as nat).len() + 4
        } else {
            digits(total as nat).len() + 1
        }),
        duration_text(total).last() == 's',
{
    law_duration_reads_back(total);
    reveal_strlit("h");
    reveal_strlit("m");
    reveal_strlit("s");
}

/// The account is one that the command asks for, and still to be done.
pub open spec fn is_wanted(selection: Selection, done: Seq<i64>, id: i64) -> bool {
    &&& selection.force || !done.contains(id)
    &&& selection.accounts matches Some(listed) ==> listed@.contains(id)
    &&& selection.shard matches Some((i, n)) ==> exists|p: int| id == #[trigger] (n * p) + i
}

/// A run works through the accounts of the database one by one: each that is wanted
/// is taken where it stands, each other left out. So what a run takes of two rows of
/// accounts is what it takes of the one, and then of the other.
pub proof fn law_worklist_takes_each_account_by_itself(
    selection: Selection,
    a: Seq<i64>,
    b: Seq<i64>,
    done: Seq<i64>,
    id: i64,
)
    requires
        selection.sample is None,
        selection.shard matches Some((i, n)) ==> i < n,
    ensures
        selection.worklist(a + b, done) == selection.worklist(a, done) + selection.worklist(
            b,
            done,
        ),
        selection.worklist(seq![id], done) == (if is_wanted(selection, done, id) {
            seq![id]
        } else {
            Seq::empty()
        }),
        selection.worklist(Seq::empty(), done) == Seq::<i64>::empty(),
{
    let pred = |id: i64| selection.takes(done, id);
    Seq::filter_distributes_over_add(a, b, pred);
    reveal_with_fuel(Seq::filter, 2);
    let one = seq![id];
    assert(one.drop_last() =~= Seq::<i64>::empty());
    if let Some((i, n)) = selection.shard {
        law_shard_is_every_nth_account(id, i, n, 0);
        if exists|p: int| id == #[trigger] (n * p) + i {
            let p = choose|p: int| id == #[trigger] (n * p) + i;
            law_shard_is_every_nth_account(id, i, n, p);
        }
    }
    assert(one.filter(pred) =~= if selection.takes(done, id) {
        one
    } else {
        Seq::empty()
    });
}

/// A sample is the head of the worklist: as many accounts as were asked for, or all
/// where there are no more.
pub proof fn law_sample_is_the_head_of_the_worklist(
    selection: Selection,
    all: Selection,
    accounts: Seq<i64>,
    done: Seq<i64>,
    k: usize,
)
    requires
        all == (Selection { sample: None, ..selection }),
        selection.sample == Some(k),
    ensures
        ({
            let whole = all.worklist(accounts, done);
            let part = selection.worklist(accounts, done);
            &&& part.len() == (if k < whole.len() {
                k as nat
            } else {
                whole.len()
            })
            &&& part == whole.take(part.len() as int)
        }),
{
    let a = |id: i64| selection.takes(done, id);
    let b = |id: i64| all.takes(done, id);
    assert(a =~= b);
    let whole = all.worklist(accounts, done);
    let part = selection.worklist(accounts, done);
    assert(part =~= whole.take(part.len() as int));
}

/// The setting for the progress lines is the number of seconds that it spells; half
/// a minute where there is none, or none that reads.
pub proof fn law_interval_is_what_the_setting_spells(n: nat, text: Seq<char>)
    ensures
        n <= u64::MAX ==> interval_of(Some(digits(n))) == n,
        interval_of(None) == 30,
        read_decimal(text) is None ==> interval_of(Some(text)) == 30,
        n > u64::MAX ==> interval_of(Some(digits(n))) == 30,
{
    law_every_number_up_to_the_limit_reads(n, u64::MAX as nat);
}

/// A progress line comes due once the whole interval has passed, and stays due; an
/// interval of zero turns the lines off.
pub proof fn law_progress_is_due_after_the_interval(interval: u64, waited: u64, more: u64)
    ensures
        !is_due(0, waited),
        interval > 0 ==> is_due(interval, interval) && !is_due(interval, (interval - 1) as u64),
        waited <= more && is_due(interval, waited) ==> is_due(interval, more),
{
}

/// A panic that comes from the contract or from its environment is expected,
/// wherever in the message that shows; every other panic is not.
pub proof fn law_contract_panics_are_expected(head: Seq<char>, tail: Seq<char>)
    ensures
        is_expected(head + "GuestPanic"@ + tail),
        is_expected(head + "mocked_blockchain"@ + tail),
        !occurs(head, "GuestPanic"@) && !occurs(head, "mocked_blockchain"@) ==> !is_expected(head),
{
    let at = head.len() as int;
    let a = head + "GuestPanic"@ + tail;
    assert(a.subrange(at, at + "GuestPanic"@.len()) =~= "GuestPanic"@);
    assert(occurs_at(a, "GuestPanic"@, at));
    let b = head + "mocked_blockchain"@ + tail;
    assert(b.subrange(at, at + "mocked_blockchain"@.len()) =~= "mocked_blockchain"@);
    assert(occurs_at(b, "mocked_blockchain"@, at));
}

} // verus!
