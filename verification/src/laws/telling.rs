//! Laws of the lines that a run prints: the numbers in them are the numbers that they
//! are about.

use vstd::prelude::*;

use crate::bisect::{
    are_heights, block_of, conclusion_text, finding_line_text, finding_text, right_aligned, BlockRow,
    Finding, MissingBlock,
};
use crate::decimal::{
    digits, is_digit, law_digits_have_no_leading_zero, law_digits_read_back, read_decimal,
    signed_digits,
};
use crate::engine::Event;
use crate::laws::bisecting::{law_block_is_that_of_the_last_row, law_column_holds_its_text};
use crate::reconcile::{is_failure_row, ReconRow, Timing};
use crate::run::{duration_text, progress_counts, RunSummary, ShardError};
use crate::text::{find_from, lemma_find_from, occurs_at};

verus! {

/// The digits that `s` begins with.
pub open spec fn leading_digits(s: Seq<char>) -> Seq<char>
    decreases s.len(),
{
    if s.len() > 0 && is_digit(s[0]) {
        seq![s[0]] + leading_digits(s.skip(1))
    } else {
        Seq::empty()
    }
}

/// The number that stands behind the first `label` in `s`.
pub open spec fn number_after(s: Seq<char>, label: Seq<char>) -> Option<nat> {
    match find_from(s, label, 0) {
        Some(at) => read_decimal(leading_digits(s.skip(at + label.len()))),
        None => None,
    }
}

proof fn lemma_leading_digits(left: Seq<char>, right: Seq<char>)
    requires
        forall|k: int| 0 <= k < left.len() ==> is_digit(#[trigger] left[k]),
        right.len() > 0 ==> !is_digit(right[0]),
    ensures
        leading_digits(left + right) == left,
    decreases left.len(),
{
    let s = left + right;
    if left.len() > 0 {
        let rest = left.skip(1);
        assert(is_digit(left[0]));
        assert forall|k: int| 0 <= k < rest.len() implies is_digit(#[trigger] rest[k]) by {
            assert(is_digit(left[k + 1]));
        }
        lemma_leading_digits(rest, right);
        assert(s.skip(1) =~= rest + right);
        assert(seq![s[0]] + rest =~= left);
    } else {
        assert(s =~= right);
        assert(left =~= Seq::<char>::empty());
    }
}

/// At `k` in `s`, `first` does not stand, or stands right before something else than
/// `second`.
spec fn is_clear(s: Seq<char>, k: int, first: char, second: char) -> bool {
    s[k] == first ==> k + 1 < s.len() && s[k + 1] != second
}

/// `first` never stands right before `second` in `s`, nor at its end.
spec fn avoids(s: Seq<char>, first: char, second: char) -> bool {
    forall|k: int| 0 <= k < s.len() ==> #[trigger] is_clear(s, k, first, second)
}

proof fn lemma_avoids_both(a: Seq<char>, b: Seq<char>, first: char, second: char)
    requires
        avoids(a, first, second),
        avoids(b, first, second),
    ensures
        avoids(a + b, first, second),
{
    let s = a + b;
    assert forall|k: int| 0 <= k < s.len() implies #[trigger] is_clear(s, k, first, second) by {
        if k < a.len() {
            assert(is_clear(a, k, first, second));
        } else {
            assert(is_clear(b, k - a.len(), first, second));
        }
    }
}

proof fn lemma_avoids_digits(n: nat, first: char, second: char)
    requires
        !is_digit(first),
    ensures
        avoids(digits(n), first, second),
{
    lemma_all_digits(n);
    assert forall|k: int| 0 <= k < digits(n).len() implies #[trigger] is_clear(
        digits(n),
        k,
        first,
        second,
    ) by {
        assert(is_digit(digits(n)[k]));
    }
}

proof fn lemma_first_at(head: Seq<char>, label: Seq<char>, rest: Seq<char>)
    requires
        label.len() >= 2,
        avoids(head, label[0], label[1]),
    ensures
        find_from(head + label + rest, label, 0) == Some(head.len() as int),
{
    let s = head + label + rest;
    let at = head.len() as int;
    assert(occurs_at(s, label, at)) by {
        assert(s.subrange(at, at + label.len()) =~= label);
    }
    lemma_find_from(s, label, 0);
    match find_from(s, label, 0) {
        Some(found) => {
            assert(found <= at);
            if found < at {
                lemma_pair_at(s, label, found);
                assert(s[found] == head[found]);
                assert(is_clear(head, found, label[0], label[1]));
                assert(s[found + 1] == head[found + 1]);
            }
        },
        None => {},
    }
}

proof fn lemma_pair_at(s: Seq<char>, label: Seq<char>, at: int)
    requires
        label.len() >= 2,
        occurs_at(s, label, at),
    ensures
        s[at] == label[0],
        s[at + 1] == label[1],
{
    let part = s.subrange(at, at + label.len());
    assert(part[0] == s[at]);
    assert(part[1] == s[at + 1]);
}

/// A number that is written behind a label is read back there, where the label does
/// not begin before.
proof fn lemma_number_after(head: Seq<char>, label: Seq<char>, n: nat, tail: Seq<char>)
    requires
        label.len() >= 2,
        avoids(head, label[0], label[1]),
        tail.len() > 0 ==> !is_digit(tail[0]),
    ensures
        number_after(head + label + digits(n) + tail, label) == Some(n),
{
    let s = head + label + digits(n) + tail;
    lemma_regroup(head + label, digits(n), tail);
    lemma_first_at(head, label, digits(n) + tail);
    lemma_all_digits(n);
    lemma_leading_digits(digits(n), tail);
    assert(s.skip(head.len() + label.len() as int) =~= digits(n) + tail);
    law_digits_read_back(n);
}

proof fn lemma_all_digits(n: nat)
    ensures
        forall|k: int| 0 <= k < digits(n).len() ==> is_digit(#[trigger] digits(n)[k]),
{
    law_digits_have_no_leading_zero(n);
}

proof fn lemma_regroup(a: Seq<char>, b: Seq<char>, c: Seq<char>)
    ensures
        a + b + c == a + (b + c),
{
    assert(a + b + c =~= a + (b + c));
}

/// Four numbers behind four labels, one after the other, are read back each behind
/// its own.
proof fn lemma_four_numbers(
    a: Seq<char>,
    x: nat,
    b: Seq<char>,
    y: nat,
    c: Seq<char>,
    z: nat,
    d: Seq<char>,
    w: nat,
)
    requires
        a.len() >= 2 && b.len() >= 2 && c.len() >= 2 && d.len() >= 2,
        !is_digit(b[0]) && !is_digit(c[0]) && !is_digit(d[0]),
        avoids(a, b[0], b[1]),
        avoids(a, c[0], c[1]),
        avoids(a, d[0], d[1]),
        avoids(b, c[0], c[1]),
        avoids(b, d[0], d[1]),
        avoids(c, d[0], d[1]),
    ensures
        ({
            let text = a + digits(x) + b + digits(y) + c + digits(z) + d + digits(w);
            &&& number_after(text, a) == Some(x)
            &&& number_after(text, b) == Some(y)
            &&& number_after(text, c) == Some(z)
            &&& number_after(text, d) == Some(w)
        }),
{
    let text = a + digits(x) + b + digits(y) + c + digits(z) + d + digits(w);
    let none = Seq::<char>::empty();
    let one = a + digits(x);
    let two = one + b + digits(y);
    let three = two + c + digits(z);
    assert(none + a =~= a);
    lemma_regroup(one, b, digits(y));
    lemma_regroup(one, b + digits(y), c);
    lemma_regroup(one, b + digits(y) + c, digits(z));
    lemma_regroup(one, b + digits(y) + c + digits(z), d);
    lemma_regroup(one, b + digits(y) + c + digits(z) + d, digits(w));
    let after_one = b + digits(y) + c + digits(z) + d + digits(w);
    assert(after_one[0] == b[0]);
    assert(avoids(none, a[0], a[1]));
    lemma_number_after(none, a, x, after_one);
    lemma_regroup(two, c, digits(z));
    lemma_regroup(two, c + digits(z), d);
    lemma_regroup(two, c + digits(z) + d, digits(w));
    let after_two = c + digits(z) + d + digits(w);
    assert(after_two[0] == c[0]);
    lemma_avoids_digits(x, b[0], b[1]);
    lemma_avoids_both(a, digits(x), b[0], b[1]);
    lemma_number_after(one, b, y, after_two);
    lemma_regroup(three, d, digits(w));
    let after_three = d + digits(w);
    assert(after_three[0] == d[0]);
    lemma_avoids_digits(x, c[0], c[1]);
    lemma_avoids_digits(y, c[0], c[1]);
    lemma_avoids_both(a, digits(x), c[0], c[1]);
    lemma_avoids_both(one, b, c[0], c[1]);
    lemma_avoids_both(one + b, digits(y), c[0], c[1]);
    lemma_number_after(two, c, z, after_three);
    lemma_avoids_digits(x, d[0], d[1]);
    lemma_avoids_digits(y, d[0], d[1]);
    lemma_avoids_digits(z, d[0], d[1]);
    lemma_avoids_both(a, digits(x), d[0], d[1]);
    lemma_avoids_both(one, b, d[0], d[1]);
    lemma_avoids_both(one + b, digits(y), d[0], d[1]);
    lemma_avoids_both(two, c, d[0], d[1]);
    lemma_avoids_both(two + c, digits(z), d[0], d[1]);
    lemma_number_after(three, d, w, none);
    assert(text + none =~= text);
}

/// The counts of a progress line are told each under its own name.
pub proof fn law_progress_tells_each_count(summary: RunSummary)
    ensures
        number_after(progress_counts(summary), "ok="@) == Some(summary.ok as nat),
        number_after(progress_counts(summary), " error="@) == Some(summary.errored as nat),
        number_after(progress_counts(summary), " failure="@) == Some(summary.failed as nat),
        number_after(progress_counts(summary), " no_baseline="@) == Some(
            summary.no_baseline as nat,
        ),
{
    reveal_strlit("ok=");
    reveal_strlit(" error=");
    reveal_strlit(" failure=");
    reveal_strlit(" no_baseline=");
    lemma_four_numbers(
        "ok="@,
        summary.ok as nat,
        " error="@,
        summary.errored as nat,
        " failure="@,
        summary.failed as nat,
        " no_baseline="@,
        summary.no_baseline as nat,
    );
}

/// A progress line tells how many accounts are done and of how many, then the counts,
/// then the time that has passed. The last line says that the run is done.
pub proof fn law_progress_line_tells_how_far_the_run_is(
    summary: RunSummary,
    total: usize,
    percent: Seq<char>,
    elapsed_secs: u64,
    rate: Seq<char>,
    eta: Seq<char>,
)
    ensures
        ({
            let line = summary.progress_text(total, percent, elapsed_secs, rate, eta);
            let done = summary.final_text(total, elapsed_secs);
            let time = " elapsed="@ + duration_text(elapsed_secs);
            &&& number_after(line, "PROGRESS "@) == Some(summary.processed as nat)
            &&& number_after(done, "PROGRESS "@) == Some(summary.processed as nat)
            &&& tells(line, total, " ("@ + percent + "%) "@, progress_counts(summary) + time)
            &&& tells(done, total, " (100.0%) "@, progress_counts(summary) + time)
            &&& line.len() >= eta.len() && line.skip(line.len() - eta.len()) == eta
        }),
{
    let line = summary.progress_text(total, percent, elapsed_secs, rate, eta);
    let counts = progress_counts(summary);
    let elapsed = duration_text(elapsed_secs);
    let start = "PROGRESS "@ + digits(summary.processed as nat) + "/"@ + digits(total as nat);
    let share = " ("@ + percent + "%) "@;
    let body = counts + (" elapsed="@ + elapsed);
    lemma_regroup(start, " ("@, percent);
    lemma_regroup(start, " ("@ + percent, "%) "@);
    lemma_regroup(start + share, counts, " elapsed="@);
    lemma_regroup(start + share, counts + " elapsed="@, elapsed);
    lemma_regroup(counts, " elapsed="@, elapsed);
    let told = start + share + body;
    lemma_regroup(told, " rate="@, rate);
    lemma_regroup(told, " rate="@ + rate, "/s eta="@);
    lemma_regroup(told, " rate="@ + rate + "/s eta="@, eta);
    let end = " rate="@ + rate + "/s eta="@ + eta;
    assert(line == start + share + body + end);
    lemma_progress(summary.processed as nat, total, share, body, end);
    assert(end.skip(end.len() - eta.len()) =~= eta);
    assert(line.skip(line.len() - eta.len()) =~= end.skip(end.len() - eta.len()));
    let full = " (100.0%) "@;
    lemma_regroup(start + full, counts, " elapsed="@);
    lemma_regroup(start + full, counts + " elapsed="@, elapsed);
    lemma_progress(summary.processed as nat, total, full, body, " \u{2014} done"@);
    reveal_strlit(" (");
    reveal_strlit(" (100.0%) ");
}

proof fn lemma_progress(
    processed: nat,
    total: usize,
    middle: Seq<char>,
    body: Seq<char>,
    end: Seq<char>,
)
    ensures
        ({
            let line = "PROGRESS "@ + digits(processed) + "/"@ + digits(total as nat) + middle
                + body + end;
            &&& number_after(line, "PROGRESS "@) == Some(processed)
            &&& tells(line, total, middle, body)
        }),
{
    reveal_strlit("PROGRESS ");
    reveal_strlit("/");
    let line = "PROGRESS "@ + digits(processed) + "/"@ + digits(total as nat) + middle + body
        + end;
    let start = "PROGRESS "@ + digits(processed) + "/"@;
    let rest = "/"@ + (digits(total as nat) + middle + body + end);
    let none = Seq::<char>::empty();
    assert(none + "PROGRESS "@ =~= "PROGRESS "@);
    assert(line =~= none + "PROGRESS "@ + digits(processed) + rest);
    lemma_number_after(none, "PROGRESS "@, processed, rest);
    assert(start.last() == '/');
    assert(is_told(line, start, total, middle, body, end));
}

/// `line` says `middle` and then `body` right behind the number `total`.
pub open spec fn is_told(
    line: Seq<char>,
    start: Seq<char>,
    total: usize,
    middle: Seq<char>,
    body: Seq<char>,
    end: Seq<char>,
) -> bool {
    &&& start.len() > 0 && start.last() == '/'
    &&& line == start + digits(total as nat) + middle + body + end
}

/// `line` says `middle` and then `body` right behind the number `total`, which stands
/// behind a slash.
pub open spec fn tells(line: Seq<char>, total: usize, middle: Seq<char>, body: Seq<char>) -> bool {
    exists|start: Seq<char>, end: Seq<char>| #[trigger]
        is_told(line, start, total, middle, body, end)
}

/// A timing line tells how long each part took, and that the whole took as long as
/// the parts together.
pub proof fn law_timing_tells_each_part(timing: Timing, account_id: i64, status: Seq<char>)
    ensures
        ({
            let parts = timing.parts_text();
            let line = timing.text(account_id, status);
            &&& number_after(parts, " load_us="@) == Some(timing.load_us as nat)
            &&& number_after(parts, " fetch_us="@) == Some(timing.fetch_us as nat)
            &&& number_after(parts, " replay_us="@) == Some(timing.replay_us as nat)
            &&& number_after(parts, " total_us="@) == Some(
                (timing.load_us + timing.fetch_us + timing.replay_us) as nat,
            )
            &&& line.len() >= parts.len() + status.len()
            &&& line.skip(line.len() - parts.len()) == parts
            &&& line.subrange(line.len() - parts.len() - status.len(), line.len() - parts.len())
                == status
        }),
{
    lemma_ends_with(
        "TIMING account="@ + signed_digits(account_id as int) + " status="@,
        status,
        timing.parts_text(),
    );
    reveal_strlit(" load_us=");
    reveal_strlit(" fetch_us=");
    reveal_strlit(" replay_us=");
    reveal_strlit(" total_us=");
    lemma_four_numbers(
        " load_us="@,
        timing.load_us as nat,
        " fetch_us="@,
        timing.fetch_us as nat,
        " replay_us="@,
        timing.replay_us as nat,
        " total_us="@,
        (timing.load_us + timing.fetch_us + timing.replay_us) as nat,
    );
}

proof fn lemma_ends_with(head: Seq<char>, middle: Seq<char>, tail: Seq<char>)
    ensures
        ({
            let s = head + middle + tail;
            &&& s.len() == head.len() + middle.len() + tail.len()
            &&& s.skip(s.len() - tail.len()) == tail
            &&& s.subrange(s.len() - tail.len() - middle.len(), s.len() - tail.len()) == middle
        }),
{
    let s = head + middle + tail;
    assert(s.skip(s.len() - tail.len()) =~= tail);
    assert(s.subrange(s.len() - tail.len() - middle.len(), s.len() - tail.len()) =~= middle);
}

/// The line on an event names the event, at the right of a column, and its block,
/// each by its own number.
pub proof fn law_finding_line_names_event_and_block(
    index: usize,
    block_height: u64,
    finding: Finding,
)
    ensures
        ({
            let line = finding_line_text(index, block_height, finding);
            let column = right_aligned(digits(index as nat));
            let said = finding_text(finding);
            &&& number_after(line, "] block "@) == Some(block_height as nat)
            &&& line.len() >= said.len() && line.skip(line.len() - said.len()) == said
            &&& line.len() > column.len() && line.subrange(1, 1 + column.len() as int) == column
        }),
{
    reveal_strlit("[");
    reveal_strlit("] block ");
    reveal_strlit(": ");
    let said = finding_text(finding);
    let column = right_aligned(digits(index as nat));
    let block = digits(block_height as nat);
    let head = "["@ + column;
    law_column_holds_its_text(digits(index as nat));
    lemma_all_digits(index as nat);
    let blank = column.len() - digits(index as nat).len();
    assert forall|k: int| 0 <= k < column.len() implies #[trigger] column[k] != ']' by {
        if k >= blank {
            assert(column.skip(blank)[k - blank] == column[k]);
            assert(is_digit(digits(index as nat)[k - blank]));
        }
    }
    lemma_avoids_both("["@, column, ']', ' ');
    lemma_regroup(head + "] block "@ + block, ": "@, said);
    lemma_number_after(head, "] block "@, block_height as nat, ": "@ + said);
    let line = finding_line_text(index, block_height, finding);
    assert(line.skip(line.len() - said.len()) =~= said);
    assert(line.subrange(1, 1 + column.len() as int) =~= column);
}

/// Of each finding something else is said.
pub proof fn law_findings_are_told_apart(finding: Finding, other: Finding)
    ensures
        finding_text(finding) == finding_text(other) ==> finding == other,
{
    reveal_strlit("shares this block with the next event \u{2014} skipping");
    reveal_strlit("chain state is null (account not yet created) \u{2014} skipping");
    reveal_strlit("match");
    reveal_strlit("FIRST DIVERGENCE");
    assert(finding_text(finding)[0] == (match finding {
        Finding::Shared => 's',
        Finding::Absent => 'c',
        Finding::Same => 'm',
        Finding::Different => 'F',
    }));
    assert(finding_text(other)[0] == (match other {
        Finding::Shared => 's',
        Finding::Absent => 'c',
        Finding::Same => 'm',
        Finding::Different => 'F',
    }));
}

/// The refusal of an index that is not below the count names the one and the other.
pub proof fn law_refused_shard_is_named(index: u64, count: u64, quoted: Seq<char>)
    ensures
        ({
            let text = (ShardError::IndexNotBelowCount { index, count }).text(quoted);
            &&& number_after(text, "shard index "@) == Some(index as nat)
            &&& number_after(text, " must be < count "@) == Some(count as nat)
        }),
{
    reveal_strlit("shard index ");
    reveal_strlit(" must be < count ");
    let none = Seq::<char>::empty();
    let label = "shard index "@;
    let next = " must be < count "@;
    let head = label + digits(index as nat);
    let text = (ShardError::IndexNotBelowCount { index, count }).text(quoted);
    assert(none + label =~= label);
    lemma_regroup(head, next, digits(count as nat));
    lemma_number_after(none, label, index as nat, next + digits(count as nat));
    law_digits_have_no_leading_zero(index as nat);
    assert forall|k: int| 0 <= k < head.len() implies #[trigger] is_clear(head, k, ' ', 'm') by {
        if k >= 12 {
            assert(is_digit(digits(index as nat)[k - 12]));
        } else if k == 11 {
            assert(head[12] == digits(index as nat)[0]);
            assert(is_digit(digits(index as nat)[0]));
        }
    }
    lemma_number_after(head, next, count as nat, none);
    assert(text + none =~= text);
}

/// What is said at the end names the event that differed, and tells that case from
/// the one without a difference.
pub proof fn law_conclusion_names_the_event(index: usize)
    ensures
        number_after(conclusion_text(Some(index)), "First divergence at event index "@) == Some(
            index as nat,
        ),
        conclusion_text(Some(index)) != conclusion_text(None),
{
    reveal_strlit("First divergence at event index ");
    reveal_strlit(" (0-based).");
    reveal_strlit(
        "No divergence found \u{2014} replay matches real chain state at every event boundary.",
    );
    let none = Seq::<char>::empty();
    let head = "First divergence at event index "@;
    assert(none + head =~= head);
    lemma_number_after(none, head, index as nat, " (0-based)."@);
    assert(conclusion_text(Some(index))[0] == 'F');
    assert(conclusion_text(None)[0] == 'N');
}

/// The row of an account that gave none holds the whole message, however long, and no
/// amount.
pub proof fn law_failure_row_holds_the_whole_message(
    row: ReconRow,
    account_id: i64,
    message: Seq<char>,
)
    requires
        is_failure_row(row, account_id, message),
    ensures
        row.account_id == account_id,
        row.near_account_id@.len() == 0,
        row.status@.len() == 8 + message.len(),
        row.status@.take(8) == "failure:"@,
        row.status@.skip(8) == message,
        read_decimal(row.calculated_total_claim@) == Some(0nat),
        read_decimal(row.actual_total_claim@) == Some(0nat),
        read_decimal(row.delta@) == Some(0nat),
        row.rel_delta.num == 0 && row.rel_delta.den > 0,
        row.n_claims == 0,
{
    reveal_strlit("failure:");
    law_digits_read_back(0);
    assert(row.status@.take(8) =~= "failure:"@);
    assert(row.status@.skip(8) =~= message);
}

/// Every event has the block of its own row, or else the first event without one is
/// named: the blocks are there exactly where every event has a row.
pub proof fn law_heights_are_those_of_the_rows(
    events: Seq<Event>,
    rows: Seq<BlockRow>,
    heights: Result<Vec<u64>, MissingBlock>,
)
    requires
        are_heights(events, rows, heights),
    ensures
        heights is Ok <==> forall|i: int|
            0 <= i < events.len() ==> has_row(rows, (#[trigger] events[i]).ts_ms, events[i].seq),
        heights matches Ok(heights) ==> heights@.len() == events.len() && forall|i: int|
            0 <= i < events.len() ==> exists|r: int|
                {
                    &&& 0 <= r < rows.len()
                    &&& #[trigger] rows[r] == (BlockRow {
                        ts_ms: events[i].ts_ms,
                        log_index: events[i].seq,
                        block_height: #[trigger] heights@[i],
                    })
                },
        heights matches Err(missing) ==> !has_row(rows, missing.ts_ms, missing.seq) && exists|i: int|
            {
                &&& 0 <= i < events.len()
                &&& (#[trigger] events[i]).ts_ms == missing.ts_ms
                &&& events[i].seq == missing.seq
                &&& forall|j: int|
                    0 <= j < i ==> has_row(rows, (#[trigger] events[j]).ts_ms, events[j].seq)
            },
{
    assert forall|ts_ms: u64, seq: u64| #[trigger]
        has_row(rows, ts_ms, seq) <==> block_of(rows, ts_ms, seq) is Some by {
        law_block_is_that_of_the_last_row(rows, ts_ms, seq);
        if let Some(block_height) = block_of(rows, ts_ms, seq) {
            let r = choose|r: int|
                0 <= r < rows.len() && #[trigger] rows[r] == (BlockRow {
                    ts_ms,
                    log_index: seq,
                    block_height,
                });
            assert(rows[r].ts_ms == ts_ms);
        }
    }
    match heights {
        Ok(heights) => {
            assert forall|i: int| 0 <= i < events.len() implies exists|r: int|
                {
                    &&& 0 <= r < rows.len()
                    &&& #[trigger] rows[r] == (BlockRow {
                        ts_ms: events[i].ts_ms,
                        log_index: events[i].seq,
                        block_height: #[trigger] heights@[i],
                    })
                } by {
                law_block_is_that_of_the_last_row(rows, events[i].ts_ms, events[i].seq);
            }
            assert forall|i: int| 0 <= i < events.len() implies has_row(
                rows,
                (#[trigger] events[i]).ts_ms,
                events[i].seq,
            ) by {
                assert(block_of(rows, events[i].ts_ms, events[i].seq) == Some(
                    heights@[i],
                ));
            }
        },
        Err(missing) => {
            let i = choose|i: int|
                {
                    &&& 0 <= i < events.len()
                    &&& (#[trigger] events[i]).ts_ms == missing.ts_ms
                    &&& events[i].seq == missing.seq
                    &&& block_of(rows, missing.ts_ms, missing.seq) is None
                    &&& forall|j: int|
                        0 <= j < i ==> block_of(
                            rows,
                            (#[trigger] events[j]).ts_ms,
                            events[j].seq,
                        ) is Some
                };
            assert(!has_row(rows, events[i].ts_ms, events[i].seq));
        },
    }
}

/// Some row is of the time and the log index.
pub open spec fn has_row(rows: Seq<BlockRow>, ts_ms: u64, seq: u64) -> bool {
    exists|r: int|
        0 <= r < rows.len() && (#[trigger] rows[r]).ts_ms == ts_ms && rows[r].log_index == seq
}

} // verus!
