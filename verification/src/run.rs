//! What a whole run decides: which accounts it takes, what it counts, and what
//! it reports as it goes.

use std::collections::HashSet;

use vstd::prelude::*;
use vstd::string::StringExecFns;

use crate::decimal::{
    all_digits, digits, is_digit, law_digits_have_no_leading_zero, law_digits_read_back,
    parse_range, parse_u128, parse_u64, read_decimal_up_to, signed_digits, value_of, write_i128,
    write_u128,
};
use crate::reconcile::{has_kind, law_status_has_one_form, status_kind, ReconRow, StatusKind};
use crate::text::{
    chars_of, contains, cut, find, find_from, lemma_find_from, occurs, occurs_at, trim, trimmed,
};

verus! {

/// The start of the replay window: the time that baselines are as of.
pub const H_MS: u64 = 1_774_017_710_156;

/// The block at the start of the replay window.
pub const H_BLOCK: u64 = 190_375_496;

/// Why a shard spec is refused.
#[derive(Clone, Copy, Debug, PartialEq, Eq, Structural)]
pub enum ShardError {
    /// It is not `i/n`.
    NotPair,
    /// The index is no number of 64 bits.
    Index,
    /// The count is no number of 64 bits.
    Count,
    ZeroCount,
    IndexNotBelowCount { index: u64, count: u64 },
}

/// What a shard spec stands for: what stands before the first `/`, and what
/// stands after it.
pub open spec fn shard_of(s: Seq<char>) -> Result<(u64, u64), ShardError> {
    match find_from(s, "/"@, 0) {
        None => Err(ShardError::NotPair),
        Some(at) => {
            let index = read_decimal_up_to(trimmed(s.subrange(0, at)), u64::MAX as nat);
            let count = read_decimal_up_to(
                trimmed(s.subrange(at + 1, s.len() as int)),
                u64::MAX as nat,
            );
            match (index, count) {
                (None, _) => Err(ShardError::Index),
                (Some(_), None) => Err(ShardError::Count),
                (Some(i), Some(n)) => if n == 0 {
                    Err(ShardError::ZeroCount)
                } else if i >= n {
                    Err(ShardError::IndexNotBelowCount { index: i as u64, count: n as u64 })
                } else {
                    Ok((i as u64, n as u64))
                },
            }
        },
    }
}

impl ShardError {
    /// The part of the shard spec `s` that is at fault.
    pub open spec fn fault_in(&self, s: Seq<char>) -> Seq<char> {
        match (self, find_from(s, "/"@, 0)) {
            (ShardError::Index, Some(at)) => s.subrange(0, at),
            (ShardError::Count, Some(at)) => s.subrange(at + 1, s.len() as int),
            _ => s,
        }
    }

    /// The part of the shard spec `s` that is at fault: its index, its count, or
    /// all of it.
    pub fn fault(&self, s: &str) -> (part: String)
        ensures
            part@ == self.fault_in(s@),
    {
        let chars = chars_of(s);
        let slash = chars_of("/");
        proof {
            reveal_strlit("/");
        }
        assert(chars@.len() == chars.len());
        match (self, find(&chars, &slash)) {
            (ShardError::Index, Some(at)) => cut(s, 0, at),
            (ShardError::Count, Some(at)) => cut(s, at + 1, chars.len()),
            _ => s.to_owned(),
        }
    }

    /// What the error says; `quoted` is the part at fault in quotes.
    pub open spec fn text(&self, quoted: Seq<char>) -> Seq<char> {
        match self {
            ShardError::NotPair => "shard spec "@ + quoted + " is not `i/n`"@,
            ShardError::Index => "shard index "@ + quoted,
            ShardError::Count => "shard count "@ + quoted,
            ShardError::ZeroCount => "shard count must be > 0"@,
            ShardError::IndexNotBelowCount { index, count } => "shard index "@ + digits(
                *index as nat,
            ) + " must be < count "@ + digits(*count as nat),
        }
    }

    /// Says what is wrong with a shard spec; `quoted` is the part at fault as it
    /// is to be shown, in quotes.
    pub fn describe(&self, quoted: &str) -> (text: String)
        ensures
            text@ == self.text(quoted@),
    {
        match self {
            ShardError::NotPair => {
                let mut text = "shard spec ".to_owned();
                text.append(quoted);
                text.append(" is not `i/n`");
                text
            },
            ShardError::Index => {
                let mut text = "shard index ".to_owned();
                text.append(quoted);
                text
            },
            ShardError::Count => {
                let mut text = "shard count ".to_owned();
                text.append(quoted);
                text
            },
            ShardError::ZeroCount => "shard count must be > 0".to_owned(),
            ShardError::IndexNotBelowCount { index, count } => {
                let mut text = "shard index ".to_owned();
                let number = write_u128(*index as u128);
                text.append(number.as_str());
                text.append(" must be < count ");
                let number = write_u128(*count as u128);
                text.append(number.as_str());
                text
            },
        }
    }
}

/// Parses an `i/n` shard spec; `n` is above zero, and `i` below `n`.
pub fn parse_shard(s: &str) -> (shard: Result<(u64, u64), ShardError>)
    ensures
        shard == shard_of(s@),
{
    let chars = chars_of(s);
    let slash = chars_of("/");
    proof {
        reveal_strlit("/");
    }
    let at: usize = match find(&chars, &slash) {
        Some(at) => at,
        None => {
            return Err(ShardError::NotPair);
        },
    };
    let (from, to): (usize, usize) = trim(&chars, 0, at);
    let i: u64 = match parse_range(&chars, from, to, u64::MAX as u128) {
        Some(i) => i as u64,
        None => {
            return Err(ShardError::Index);
        },
    };
    let (from, to): (usize, usize) = trim(&chars, at + 1, chars.len());
    let n: u64 = match parse_range(&chars, from, to, u64::MAX as u128) {
        Some(n) => n as u64,
        None => {
            return Err(ShardError::Count);
        },
    };
    if n == 0 {
        return Err(ShardError::ZeroCount);
    }
    if i >= n {
        return Err(ShardError::IndexNotBelowCount { index: i, count: n });
    }
    Ok((i, n))
}

/// `id` belongs to the shard `i` of `n`: the remainder of `id` by `n`, which is
/// never negative, is `i`.
pub open spec fn in_shard(id: i64, i: u64, n: u64) -> bool {
    id as int % n as int == i
}

/// Whether `id` belongs to the shard `i` of `n`.
pub fn belongs_to_shard(id: i64, i: u64, n: u64) -> (yes: bool)
    requires
        n > 0,
    ensures
        yes == in_shard(id, i, n),
{
    let wide: i128 = id as i128;
    let count: i128 = n as i128;
    let rest: i128 = if wide >= 0 {
        wide % count
    } else {
        // The remainder of a negative number, counted up from below.
        let below: i128 = (-(wide + 1)) % count;
        proof {
            lemma_remainder_from_below(wide as int, count as int);
        }
        count - 1 - below
    };
    rest == i as i128
}

proof fn lemma_remainder_from_below(a: int, n: int)
    requires
        n > 0,
        a < 0,
    ensures
        a % n == n - 1 - (-(a + 1)) % n,
{
    let b = -(a + 1);
    vstd::arithmetic::div_mod::lemma_fundamental_div_mod(b, n);
    vstd::arithmetic::div_mod::lemma_mod_bound(b, n);
    let q = b / n;
    let r = b % n;
    assert(a == n * (-q - 1) + (n - 1 - r)) by (nonlinear_arith)
        requires
            b == n * q + r,
            b == -(a + 1),
    ;
    vstd::arithmetic::div_mod::lemma_fundamental_div_mod_converse(a, n, -q - 1, n - 1 - r);
}

/// Which accounts a run takes.
pub struct Selection {
    /// Take accounts that have a result already.
    pub force: bool,
    /// Take only the listed accounts.
    pub accounts: Option<Vec<i64>>,
    /// `(i, n)`: take only the accounts of shard `i` of `n`.
    pub shard: Option<(u64, u64)>,
    /// Take at most so many accounts.
    pub sample: Option<usize>,
}

impl Selection {
    /// The shard has a count.
    pub open spec fn wf(&self) -> bool {
        self.shard matches Some((i, n)) ==> n > 0
    }

    /// `id` may be taken; the accounts in `done` have a result already.
    pub open spec fn takes(&self, done: Seq<i64>, id: i64) -> bool {
        &&& self.force || !done.contains(id)
        &&& self.accounts matches Some(listed) ==> listed@.contains(id)
        &&& self.shard matches Some((i, n)) ==> in_shard(id, i, n)
    }

    /// The accounts to work on, in the order of `accounts`.
    pub open spec fn worklist(&self, accounts: Seq<i64>, done: Seq<i64>) -> Seq<i64> {
        let taken = accounts.filter(|id: i64| self.takes(done, id));
        match self.sample {
            Some(k) => if k < taken.len() {
                taken.take(k as int)
            } else {
                taken
            },
            None => taken,
        }
    }
}

fn set_of(ids: &Vec<i64>) -> (set: HashSet<i64>)
    ensures
        forall|id: i64| set@.contains(id) <==> ids@.contains(id),
{
    broadcast use vstd::std_specs::hash::group_hash_axioms;

    let mut set: HashSet<i64> = HashSet::new();
    let mut k: usize = 0;
    while k < ids.len()
        invariant
            k <= ids@.len(),
            forall|id: i64| set@.contains(id) <==> ids@.take(k as int).contains(id),
        decreases ids@.len() - k,
    {
        let ghost before = set@;
        set.insert(ids[k]);
        proof {
            let id = ids@[k as int];
            assert(ids@.take(k + 1) =~= ids@.take(k as int).push(id));
            assert forall|x: i64| set@.contains(x) <==> ids@.take(k + 1).contains(x) by {
                lemma_push_contains(ids@.take(k as int), id, x);
                assert(before.contains(x) <==> ids@.take(k as int).contains(x));
            }
        }
        k = k + 1;
    }
    assert(ids@.take(ids@.len() as int) =~= ids@);
    set
}

proof fn lemma_push_contains(s: Seq<i64>, a: i64, x: i64)
    ensures
        s.push(a).contains(x) <==> s.contains(x) || a == x,
{
    let longer = s.push(a);
    if s.contains(x) {
        let k = choose|k: int| 0 <= k < s.len() && s[k] == x;
        assert(longer[k] == x);
    }
    if a == x {
        assert(longer[s.len() as int] == x);
    }
}

/// The accounts that a run works on: those of the database without those that
/// have a result, as far as they are selected. `accounts` are the accounts of
/// the database in their order, `done` those with a result.
pub fn build_worklist(accounts: Vec<i64>, done: Vec<i64>, selection: &Selection) -> (ids: Vec<i64>)
    requires
        selection.wf(),
    ensures
        ids@ == selection.worklist(accounts@, done@),
{
    broadcast use vstd::std_specs::hash::group_hash_axioms;

    let finished = set_of(&done);
    let listed: Option<HashSet<i64>> = match &selection.accounts {
        Some(listed) => Some(set_of(listed)),
        None => None,
    };
    let ghost pred = |id: i64| selection.takes(done@, id);
    let mut ids: Vec<i64> = Vec::new();
    proof {
        reveal(Seq::filter);
        assert(accounts@.take(0) =~= Seq::<i64>::empty());
    }
    for k in 0..accounts.len()
        invariant
            selection.wf(),
            pred == (|id: i64| selection.takes(done@, id)),
            forall|id: i64| finished@.contains(id) <==> done@.contains(id),
            listed is Some <==> selection.accounts is Some,
            listed matches Some(set) ==> forall|id: i64|
                set@.contains(id) <==> selection.accounts->0@.contains(id),
            ids@ == accounts@.take(k as int).filter(pred),
    {
        proof {
            reveal(Seq::filter);
            assert(accounts@.take(k + 1).drop_last() =~= accounts@.take(k as int));
            assert(accounts@.take(k + 1).last() == accounts@[k as int]);
        }
        let id: i64 = accounts[k];
        let fresh: bool = selection.force || !finished.contains(&id);
        let wanted: bool = match &listed {
            Some(set) => set.contains(&id),
            None => true,
        };
        let here: bool = match selection.shard {
            Some((i, n)) => belongs_to_shard(id, i, n),
            None => true,
        };
        if fresh && wanted && here {
            ids.push(id);
        }
    }
    assert(accounts@.take(accounts@.len() as int) =~= accounts@);
    if let Some(k) = selection.sample {
        let ghost all = ids@;
        ids.truncate(k);
        assert(k < all.len() ==> ids@ =~= all.take(k as int));
    }
    ids
}

/// Every account belongs to exactly one of `n` shards.
pub proof fn law_shards_partition_the_accounts(id: i64, n: u64)
    requires
        n > 0,
    ensures
        exists|i: u64| i < n && #[trigger] in_shard(id, i, n),
        forall|i: u64, j: u64| #[trigger]
            in_shard(id, i, n) && #[trigger] in_shard(id, j, n) ==> i == j,
{
    vstd::arithmetic::div_mod::lemma_mod_bound(id as int, n as int);
    let i = (id as int % n as int) as u64;
    assert(in_shard(id, i, n));
}

/// A shard spec that is written out is read back, for every shard there is.
pub proof fn law_shard_spec_reads_back(i: u64, n: u64)
    requires
        i < n,
    ensures
        shard_of(digits(i as nat) + "/"@ + digits(n as nat)) == Ok::<(u64, u64), ShardError>(
            (i, n),
        ),
{
    let left = digits(i as nat);
    let right = digits(n as nat);
    let s = left + "/"@ + right;
    let at = left.len() as int;
    reveal_strlit("/");
    law_digits_have_no_leading_zero(i as nat);
    law_digits_have_no_leading_zero(n as nat);
    lemma_find_from(s, "/"@, 0);
    assert(s.subrange(at, at + 1) =~= "/"@);
    assert(occurs_at(s, "/"@, at));
    assert forall|j: int| 0 <= j < at implies !occurs_at(s, "/"@, j) by {
        if occurs_at(s, "/"@, j) {
            assert(s.subrange(j, j + 1)[0] == s[j]);
            assert(is_digit(left[j]));
        }
    }
    assert(s.subrange(0, at) =~= left);
    assert(s.subrange(at + 1, s.len() as int) =~= right);
    lemma_digits_are_trimmed(i as nat);
    lemma_digits_are_trimmed(n as nat);
    law_digits_read_back(i as nat);
    law_digits_read_back(n as nat);
}

proof fn lemma_digits_are_trimmed(n: nat)
    ensures
        trimmed(digits(n)) == digits(n),
{
    law_digits_have_no_leading_zero(n);
    let s = digits(n);
    assert(is_digit(s[0]));
    assert(is_digit(s[s.len() - 1]));
}

/// Without `force`, no account of the worklist has a result already; and every
/// account of the worklist is one that the selection takes.
pub proof fn law_worklist_holds_what_is_taken(
    selection: Selection,
    accounts: Seq<i64>,
    done: Seq<i64>,
    id: i64,
)
    requires
        selection.worklist(accounts, done).contains(id),
    ensures
        accounts.contains(id),
        selection.takes(done, id),
        !selection.force ==> !done.contains(id),
{
    let pred = |id: i64| selection.takes(done, id);
    let taken = accounts.filter(pred);
    assert(taken.contains(id));
    accounts.lemma_filter_contains_rev(pred, id);
}

/// Two shards of one count share no account.
pub proof fn law_shards_share_no_account(
    a: Selection,
    b: Selection,
    accounts: Seq<i64>,
    done: Seq<i64>,
    i: u64,
    j: u64,
    n: u64,
    id: i64,
)
    requires
        n > 0,
        i != j,
        a.shard == Some((i, n)),
        b.shard == Some((j, n)),
        a.worklist(accounts, done).contains(id),
    ensures
        !b.worklist(accounts, done).contains(id),
{
    law_worklist_holds_what_is_taken(a, accounts, done, id);
    if b.worklist(accounts, done).contains(id) {
        law_worklist_holds_what_is_taken(b, accounts, done, id);
    }
}

/// A run that was cut off is picked up where it stopped: with the results of
/// `finished` written, the same command works on what is left of its worklist,
/// in the same order.
pub proof fn law_run_is_resumed(
    selection: Selection,
    accounts: Seq<i64>,
    done: Seq<i64>,
    finished: Seq<i64>,
)
    requires
        !selection.force,
        selection.sample is None,
    ensures
        selection.worklist(accounts, done + finished) == selection.worklist(
            accounts,
            done,
        ).filter(|id: i64| !finished.contains(id)),
    decreases accounts.len(),
{
    let left = |id: i64| !finished.contains(id);
    let before = |id: i64| selection.takes(done, id);
    let after = |id: i64| selection.takes(done + finished, id);
    reveal(Seq::filter);
    if accounts.len() > 0 {
        let id = accounts.last();
        let rest = accounts.drop_last();
        law_run_is_resumed(selection, rest, done, finished);
        assert((done + finished).contains(id) <==> done.contains(id) || finished.contains(id)) by {
            let both = done + finished;
            if done.contains(id) {
                let k = choose|k: int| 0 <= k < done.len() && done[k] == id;
                assert(both[k] == id);
            }
            if finished.contains(id) {
                let k = choose|k: int| 0 <= k < finished.len() && finished[k] == id;
                assert(both[done.len() + k] == id);
            }
        }
        let taken = rest.filter(before);
        if before(id) {
            assert(taken.push(id).drop_last() =~= taken);
            assert(taken.push(id).filter(left) == if left(id) {
                taken.filter(left).push(id)
            } else {
                taken.filter(left)
            });
        }
    }
}

/// A second run does nothing: once every account of a worklist has its result, the
/// same command has nothing left to work on.
pub proof fn law_second_run_is_empty(selection: Selection, accounts: Seq<i64>, done: Seq<i64>)
    requires
        !selection.force,
        selection.sample is None,
    ensures
        selection.worklist(
            accounts,
            done + selection.worklist(accounts, done),
        ) == Seq::<i64>::empty(),
{
    let work = selection.worklist(accounts, done);
    let again = selection.worklist(accounts, done + work);
    law_run_is_resumed(selection, accounts, done, work);
    let left = |id: i64| !work.contains(id);
    if again.len() > 0 {
        let id = again[0];
        assert(again.contains(id));
        work.lemma_filter_contains_rev(left, id);
        law_worklist_holds_what_is_taken(selection, accounts, done + work, id);
        let k = choose|k: int| 0 <= k < work.len() && work[k] == id;
        assert((done + work)[done.len() + k] == id);
    }
    assert(again =~= Seq::<i64>::empty());
}

/// With `force` every account that is selected is worked on again, whatever has a
/// result.
pub proof fn law_forced_run_takes_everyone(
    selection: Selection,
    accounts: Seq<i64>,
    done: Seq<i64>,
    more: Seq<i64>,
)
    requires
        selection.force,
    ensures
        selection.worklist(accounts, done) == selection.worklist(accounts, more),
{
    let a = |id: i64| selection.takes(done, id);
    let b = |id: i64| selection.takes(more, id);
    assert(a =~= b);
}

/// `n` with two digits at least.
pub open spec fn two_digits(n: nat) -> Seq<char> {
    if n < 10 {
        "0"@ + digits(n)
    } else {
        digits(n)
    }
}

fn append_two_digits(text: &mut String, n: u64)
    ensures
        final(text)@ == old(text)@ + two_digits(n as nat),
{
    if n < 10 {
        text.append("0");
    }
    let number = write_u128(n as u128);
    text.append(number.as_str());
}

/// A length of time as hours, minutes and seconds, without leading parts that
/// are zero.
pub open spec fn duration_text(total: u64) -> Seq<char> {
    let h = (total / 3600) as nat;
    let m = (total % 3600 / 60) as nat;
    let s = (total % 60) as nat;
    if h > 0 {
        digits(h) + "h"@ + two_digits(m) + "m"@ + two_digits(s) + "s"@
    } else if m > 0 {
        digits(m) + "m"@ + two_digits(s) + "s"@
    } else {
        digits(s) + "s"@
    }
}

/// Writes a length of time in whole seconds as `12h34m56s`, `3m04s` or `41s`:
/// short enough for a line of a log.
pub fn format_duration(total: u64) -> (text: String)
    ensures
        text@ == duration_text(total),
{
    let (h, m, s): (u64, u64, u64) = (total / 3600, total % 3600 / 60, total % 60);
    if h > 0 {
        let mut text = write_u128(h as u128);
        text.append("h");
        append_two_digits(&mut text, m);
        text.append("m");
        append_two_digits(&mut text, s);
        text.append("s");
        text
    } else if m > 0 {
        let mut text = write_u128(m as u128);
        text.append("m");
        append_two_digits(&mut text, s);
        text.append("s");
        text
    } else {
        let mut text = write_u128(s as u128);
        text.append("s");
        text
    }
}

/// The hours, minutes and seconds of a length of time add up to it, and below
/// the hours no part goes past 59.
pub proof fn law_duration_parts_add_up(total: u64)
    ensures
        total / 3600 * 3600 + total % 3600 / 60 * 60 + total % 60 == total,
        total % 3600 / 60 < 60,
        total % 60 < 60,
{
    assert(total % 3600 % 60 == total % 60);
}

/// The number before the first `mark` in `text`, and what comes after it; zero and
/// all of the text where there is none.
pub open spec fn part_before(text: Seq<char>, mark: Seq<char>) -> (nat, Seq<char>) {
    match find_from(text, mark, 0) {
        Some(at) => (value_of(text.subrange(0, at)), text.subrange(at + 1, text.len() as int)),
        None => (0, text),
    }
}

/// The seconds that a length of time stands for which is written as hours, minutes
/// and seconds; a part that is not there is zero.
pub open spec fn seconds_in(text: Seq<char>) -> nat {
    let (h, below_h) = part_before(text, "h"@);
    let (m, below_m) = part_before(below_h, "m"@);
    let (s, _) = part_before(below_m, "s"@);
    3600 * h + 60 * m + s
}

proof fn lemma_part(left: Seq<char>, c: char, right: Seq<char>)
    requires
        all_digits(left),
        !is_digit(c),
    ensures
        find_from(left + seq![c] + right, seq![c], 0) == Some(left.len() as int),
        part_before(left + seq![c] + right, seq![c]) == (value_of(left), right),
{
    let text = left + seq![c] + right;
    let at = left.len() as int;
    lemma_find_from(text, seq![c], 0);
    assert(text.subrange(at, at + 1) =~= seq![c]);
    assert(occurs_at(text, seq![c], at));
    assert forall|j: int| 0 <= j < at implies !occurs_at(text, seq![c], j) by {
        if occurs_at(text, seq![c], j) {
            assert(text.subrange(j, j + 1)[0] == text[j]);
            assert(is_digit(left[j]));
        }
    }
    assert(text.subrange(0, at) =~= left);
    assert(text.subrange(at + 1, text.len() as int) =~= right);
}

proof fn lemma_no_part(text: Seq<char>, c: char)
    requires
        forall|k: int| 0 <= k < text.len() ==> #[trigger] text[k] != c,
    ensures
        find_from(text, seq![c], 0) is None,
        part_before(text, seq![c]) == (0nat, text),
{
    lemma_find_from(text, seq![c], 0);
    if let Some(at) = find_from(text, seq![c], 0) {
        assert(text.subrange(at, at + 1)[0] == text[at]);
    }
}

proof fn lemma_two_digits(n: nat)
    requires
        n < 60,
    ensures
        all_digits(two_digits(n)),
        value_of(two_digits(n)) == n,
        two_digits(n).len() == 2,
{
    reveal_strlit("0");
    reveal_with_fuel(digits, 3);
    reveal_with_fuel(value_of, 4);
    let text = two_digits(n);
    assert(text.len() == 2);
    assert(text.drop_last().drop_last() =~= Seq::<char>::empty());
    assert(text.drop_last().last() == text[0]);
    assert(text.last() == text[1]);
}

/// The text of a length of time gives its seconds back. The hours are there from
/// one hour on, the minutes from one minute on; below a part that is there, the
/// next has two digits.
pub proof fn law_duration_reads_back(total: u64)
    ensures
        seconds_in(duration_text(total)) == total,
        find_from(duration_text(total), "h"@, 0) is Some <==> total >= 3600,
        find_from(duration_text(total), "m"@, 0) is Some <==> total >= 60,
        two_digits((total % 3600 / 60) as nat).len() == 2,
        two_digits((total % 60) as nat).len() == 2,
{
    let h = (total / 3600) as nat;
    let m = (total % 3600 / 60) as nat;
    let s = (total % 60) as nat;
    let text = duration_text(total);
    reveal_strlit("h");
    reveal_strlit("m");
    reveal_strlit("s");
    assert("h"@ =~= seq!['h']);
    assert("m"@ =~= seq!['m']);
    assert("s"@ =~= seq!['s']);
    law_duration_parts_add_up(total);
    lemma_two_digits(m);
    lemma_two_digits(s);
    law_digits_have_no_leading_zero(h);
    law_digits_have_no_leading_zero(m);
    law_digits_have_no_leading_zero(s);
    lemma_value_of_digits(h);
    lemma_value_of_digits(m);
    lemma_value_of_digits(s);
    let none = Seq::<char>::empty();
    if h > 0 {
        let seconds = two_digits(s) + "s"@;
        let minutes = two_digits(m) + "m"@ + seconds;
        assert(text =~= digits(h) + seq!['h'] + minutes);
        lemma_part(digits(h), 'h', minutes);
        lemma_part(two_digits(m), 'm', seconds);
        lemma_part(two_digits(s), 's', none);
        assert(seconds =~= two_digits(s) + seq!['s'] + none);
        lemma_find_from(text, "m"@, 0);
        let at = (digits(h).len() + 1 + two_digits(m).len()) as int;
        assert(text.subrange(at, at + 1) =~= "m"@);
        assert(occurs_at(text, "m"@, at));
    } else if m > 0 {
        let seconds = two_digits(s) + "s"@;
        assert(text =~= digits(m) + seq!['m'] + seconds);
        assert forall|k: int| 0 <= k < text.len() implies #[trigger] text[k] != 'h' by {
            lemma_digit_or(digits(m), two_digits(s), k);
        }
        lemma_no_part(text, 'h');
        lemma_part(digits(m), 'm', seconds);
        lemma_part(two_digits(s), 's', none);
        assert(seconds =~= two_digits(s) + seq!['s'] + none);
    } else {
        assert(text =~= digits(s) + seq!['s'] + none);
        assert forall|k: int| 0 <= k < text.len() implies #[trigger] text[k] != 'h' && text[k]
            != 'm' by {
            if k < digits(s).len() {
                assert(is_digit(digits(s)[k]));
            }
        }
        lemma_no_part(text, 'h');
        lemma_no_part(text, 'm');
        lemma_part(digits(s), 's', none);
    }
}

proof fn lemma_digit_or(left: Seq<char>, right: Seq<char>, k: int)
    requires
        all_digits(left),
        all_digits(right),
        0 <= k < left.len() + right.len() + 2,
    ensures
        ({
            let c = (left + "m"@ + (right + "s"@))[k];
            is_digit(c) || c == 'm' || c == 's'
        }),
{
    reveal_strlit("m");
    reveal_strlit("s");
    if k < left.len() {
        assert(is_digit(left[k]));
    } else if left.len() < k < left.len() + 1 + right.len() {
        assert(is_digit(right[k - left.len() - 1]));
    }
}

proof fn lemma_value_of_digits(n: nat)
    ensures
        value_of(digits(n)) == n,
{
    law_digits_read_back(n);
    law_digits_have_no_leading_zero(n);
    assert(is_digit(digits(n)[0]));
}

/// Two lengths of time have one text only where they have one number of seconds.
pub proof fn law_durations_are_told_apart(a: u64, b: u64)
    ensures
        duration_text(a) == duration_text(b) <==> a == b,
{
    law_duration_reads_back(a);
    law_duration_reads_back(b);
}

/// What a run has counted so far.
#[derive(Clone, Copy, Debug, PartialEq, Eq, Structural)]
pub struct RunSummary {
    pub processed: usize,
    pub ok: usize,
    /// Rows with an `error:` status. The contract itself panicked on the
    /// account's history; running again gives the same.
    pub errored: usize,
    /// Rows with a `failure:` status. There was no clean read of the account;
    /// running again may help.
    pub failed: usize,
    pub no_baseline: usize,
    pub sum_calculated: u128,
    pub sum_actual: u128,
    pub over_tolerance: usize,
}

impl Default for RunSummary {
    fn default() -> (summary: Self)
        ensures
            summary == RunSummary::zero(),
    {
        RunSummary {
            processed: 0,
            ok: 0,
            errored: 0,
            failed: 0,
            no_baseline: 0,
            sum_calculated: 0,
            sum_actual: 0,
            over_tolerance: 0,
        }
    }
}

/// The amount that a column carries, zero where it carries none.
pub open spec fn amount_in(column: Seq<char>) -> nat {
    match read_decimal_up_to(column, u128::MAX as nat) {
        Some(n) => n,
        None => 0,
    }
}

fn amount(column: &str) -> (n: u128)
    ensures
        n == amount_in(column@),
{
    match parse_u128(column) {
        Some(n) => n,
        None => 0,
    }
}

/// `1` where `yes`, else `0`.
pub open spec fn one_if(yes: bool) -> int {
    if yes {
        1
    } else {
        0
    }
}

impl RunSummary {
    /// The summary of no rows.
    pub open spec fn zero() -> RunSummary {
        RunSummary {
            processed: 0,
            ok: 0,
            errored: 0,
            failed: 0,
            no_baseline: 0,
            sum_calculated: 0,
            sum_actual: 0,
            over_tolerance: 0,
        }
    }

    /// One row more can be counted without running over.
    pub open spec fn has_room(&self, row: ReconRow) -> bool {
        &&& self.processed < usize::MAX
        &&& self.sum_calculated + amount_in(row.calculated_total_claim@) <= u128::MAX
        &&& self.sum_actual + amount_in(row.actual_total_claim@) <= u128::MAX
    }

    /// No count is above the number of rows.
    pub open spec fn wf(&self) -> bool {
        &&& self.ok + self.errored + self.failed + self.no_baseline <= self.processed
        &&& self.over_tolerance <= self.ok
    }

    /// `next` counts the row on top of this summary; `over` says that the row
    /// lies outside the tolerance.
    pub open spec fn counts(&self, row: ReconRow, over: bool, next: RunSummary) -> bool {
        let status = row.status@;
        let clean = has_kind(status, StatusKind::Clean);
        &&& next.processed == self.processed + 1
        &&& next.ok == self.ok + one_if(clean)
        &&& next.errored == self.errored + one_if(has_kind(status, StatusKind::Error))
        &&& next.failed == self.failed + one_if(has_kind(status, StatusKind::Failure))
        &&& next.no_baseline == self.no_baseline + one_if(
            has_kind(status, StatusKind::NoBaseline),
        )
        &&& next.sum_calculated == self.sum_calculated + amount_in(row.calculated_total_claim@)
        &&& next.sum_actual == self.sum_actual + amount_in(row.actual_total_claim@)
        &&& next.over_tolerance == self.over_tolerance + one_if(clean && over)
    }

    /// Whether the row can be counted without running over.
    pub fn can_count(&self, row: &ReconRow) -> (fits: bool)
        ensures
            fits == self.has_room(*row),
    {
        self.processed < usize::MAX && self.sum_calculated.checked_add(
            amount(row.calculated_total_claim.as_str()),
        ).is_some() && self.sum_actual.checked_add(
            amount(row.actual_total_claim.as_str()),
        ).is_some()
    }

    /// Counts a row. `over` says whether the row's relative delta lies outside
    /// the tolerance; it matters for an `ok` row only. Gives the line that
    /// reports the row where it is an error or a failure.
    pub fn count(&mut self, row: &ReconRow, over: bool) -> (notice: Option<String>)
        requires
            old(self).wf(),
            old(self).has_room(*row),
        ensures
            final(self).wf(),
            old(self).counts(*row, over, *final(self)),
            match notice {
                Some(line) => notice_of(*row) == Some(line@),
                None => notice_of(*row) is None,
            },
    {
        self.processed = self.processed + 1;
        self.sum_calculated = self.sum_calculated + amount(row.calculated_total_claim.as_str());
        self.sum_actual = self.sum_actual + amount(row.actual_total_claim.as_str());
        let ghost status = row.status@;
        proof {
            lemma_one_form(status);
        }
        match status_kind(row.status.as_str()) {
            Some(StatusKind::Clean) => {
                self.ok = self.ok + 1;
                if over {
                    self.over_tolerance = self.over_tolerance + 1;
                }
                None
            },
            Some(StatusKind::NoBaseline) => {
                self.no_baseline = self.no_baseline + 1;
                None
            },
            Some(StatusKind::Error) => {
                self.errored = self.errored + 1;
                Some(notice("ERROR account=", row.account_id, row.status.as_str()))
            },
            Some(StatusKind::Failure) => {
                self.failed = self.failed + 1;
                Some(notice("FAILURE account=", row.account_id, row.status.as_str()))
            },
            None => None,
        }
    }
}

proof fn lemma_one_form(status: Seq<char>)
    ensures
        forall|a: StatusKind, b: StatusKind| #[trigger]
            has_kind(status, a) && #[trigger] has_kind(status, b) ==> a == b,
{
    assert forall|a: StatusKind, b: StatusKind| #[trigger]
        has_kind(status, a) && #[trigger] has_kind(status, b) implies a == b by {
        law_status_has_one_form(status, a, b);
    }
}

/// The line that reports a row as it comes: only errors and failures have one.
pub open spec fn notice_of(row: ReconRow) -> Option<Seq<char>> {
    if has_kind(row.status@, StatusKind::Error) {
        Some("ERROR account="@ + signed_digits(row.account_id as int) + " "@ + row.status@)
    } else if has_kind(row.status@, StatusKind::Failure) {
        Some("FAILURE account="@ + signed_digits(row.account_id as int) + " "@ + row.status@)
    } else {
        None
    }
}

fn notice(head: &str, account_id: i64, status: &str) -> (line: String)
    ensures
        line@ == head@ + signed_digits(account_id as int) + " "@ + status@,
{
    let mut line = head.to_owned();
    let id = write_i128(account_id as i128);
    line.append(id.as_str());
    line.append(" ");
    line.append(status);
    line
}

/// `steps` are the summaries before and after each of `rows`; `over` says which
/// rows lie outside the tolerance.
pub open spec fn is_run(rows: Seq<ReconRow>, over: Seq<bool>, steps: Seq<RunSummary>) -> bool {
    &&& over.len() == rows.len()
    &&& steps.len() == rows.len() + 1
    &&& steps[0] == RunSummary::zero()
    &&& forall|k: int|
        0 <= k < rows.len() ==> (#[trigger] steps[k]).counts(rows[k], over[k], steps[k + 1])
}

/// How many of `rows` have the form `kind`.
pub open spec fn rows_of_kind(rows: Seq<ReconRow>, kind: StatusKind) -> nat
    decreases rows.len(),
{
    if rows.len() == 0 {
        0
    } else {
        (rows_of_kind(rows.drop_last(), kind) + one_if(has_kind(rows.last().status@, kind))) as nat
    }
}

/// What the rows calculated in total.
pub open spec fn total_calculated(rows: Seq<ReconRow>) -> nat
    decreases rows.len(),
{
    if rows.len() == 0 {
        0
    } else {
        total_calculated(rows.drop_last()) + amount_in(rows.last().calculated_total_claim@)
    }
}

/// What the rows carry as the actual total.
pub open spec fn total_actual(rows: Seq<ReconRow>) -> nat
    decreases rows.len(),
{
    if rows.len() == 0 {
        0
    } else {
        total_actual(rows.drop_last()) + amount_in(rows.last().actual_total_claim@)
    }
}

/// How many of `rows` are `ok` and lie outside the tolerance.
pub open spec fn clean_rows_over(rows: Seq<ReconRow>, over: Seq<bool>) -> nat
    decreases rows.len(),
{
    if rows.len() == 0 {
        0
    } else {
        (clean_rows_over(rows.drop_last(), over) + one_if(
            has_kind(rows.last().status@, StatusKind::Clean) && over[rows.len() - 1],
        )) as nat
    }
}

/// At every point of a run the summary tells how many rows of each form there
/// were so far, how many of the `ok` ones lie outside the tolerance, and what the
/// rows add up to.
pub proof fn law_summary_tells_the_rows(
    rows: Seq<ReconRow>,
    over: Seq<bool>,
    steps: Seq<RunSummary>,
    k: int,
)
    requires
        is_run(rows, over, steps),
        0 <= k <= rows.len(),
    ensures
        steps[k].processed == k,
        steps[k].ok == rows_of_kind(rows.take(k), StatusKind::Clean),
        steps[k].errored == rows_of_kind(rows.take(k), StatusKind::Error),
        steps[k].failed == rows_of_kind(rows.take(k), StatusKind::Failure),
        steps[k].no_baseline == rows_of_kind(rows.take(k), StatusKind::NoBaseline),
        steps[k].sum_calculated == total_calculated(rows.take(k)),
        steps[k].sum_actual == total_actual(rows.take(k)),
        steps[k].over_tolerance == clean_rows_over(rows.take(k), over),
        steps[k].over_tolerance <= steps[k].ok,
    decreases k,
{
    if k > 0 {
        law_summary_tells_the_rows(rows, over, steps, k - 1);
        assert(steps[k - 1].counts(rows[k - 1], over[k - 1], steps[k]));
        assert(rows.take(k).drop_last() =~= rows.take(k - 1));
        assert(rows.take(k).last() == rows[k - 1]);
    }
}

/// Where every row has one of the four forms, the four counts add up to the
/// number of rows.
pub proof fn law_counts_add_up(
    rows: Seq<ReconRow>,
    over: Seq<bool>,
    steps: Seq<RunSummary>,
    k: int,
)
    requires
        is_run(rows, over, steps),
        0 <= k <= rows.len(),
        forall|j: int|
            0 <= j < rows.len() ==> exists|kind: StatusKind| #[trigger]
                has_kind((#[trigger] rows[j]).status@, kind),
    ensures
        steps[k].ok + steps[k].errored + steps[k].failed + steps[k].no_baseline
            == steps[k].processed,
    decreases k,
{
    if k > 0 {
        law_counts_add_up(rows, over, steps, k - 1);
        assert(steps[k - 1].counts(rows[k - 1], over[k - 1], steps[k]));
        let status = rows[k - 1].status@;
        lemma_one_form(status);
        let kind = choose|kind: StatusKind| #[trigger] has_kind(status, kind);
        assert(has_kind(status, kind));
    }
}

/// The order in which the rows of two accounts come does not matter to what is
/// counted.
pub proof fn law_order_of_rows_does_not_matter(
    start: RunSummary,
    a: ReconRow,
    over_a: bool,
    b: ReconRow,
    over_b: bool,
    after_a: RunSummary,
    after_ab: RunSummary,
    after_b: RunSummary,
    after_ba: RunSummary,
)
    requires
        start.counts(a, over_a, after_a),
        after_a.counts(b, over_b, after_ab),
        start.counts(b, over_b, after_b),
        after_b.counts(a, over_a, after_ba),
    ensures
        after_ab == after_ba,
{
}

/// The seconds between two progress lines: what the setting says, or 30. Zero
/// turns them off.
pub open spec fn interval_of(setting: Option<Seq<char>>) -> nat {
    match setting {
        Some(text) => match read_decimal_up_to(text, u64::MAX as nat) {
            Some(n) => n,
            None => DEFAULT_HEARTBEAT_SECS as nat,
        },
        None => DEFAULT_HEARTBEAT_SECS as nat,
    }
}

/// The seconds between two progress lines where nothing is set.
pub const DEFAULT_HEARTBEAT_SECS: u64 = 30;

/// Reads the setting for the seconds between two progress lines.
pub fn heartbeat_interval(setting: Option<&str>) -> (secs: u64)
    ensures
        secs == interval_of(
            match setting {
                Some(text) => Some(text@),
                None => None,
            },
        ),
{
    match setting {
        Some(text) => match parse_u64(text) {
            Some(secs) => secs,
            None => DEFAULT_HEARTBEAT_SECS,
        },
        None => DEFAULT_HEARTBEAT_SECS,
    }
}

/// A progress line is due, `waited` whole seconds after the last one.
pub open spec fn is_due(interval: u64, waited: u64) -> bool {
    interval > 0 && waited >= interval
}

/// Whether a progress line is due, `waited` whole seconds after the last one.
pub fn heartbeat_due(interval: u64, waited: u64) -> (due: bool)
    ensures
        due == is_due(interval, waited),
{
    interval > 0 && waited >= interval
}

/// The counts in a progress line.
pub open spec fn progress_counts(summary: RunSummary) -> Seq<char> {
    "ok="@ + digits(summary.ok as nat) + " error="@ + digits(summary.errored as nat) + " failure="@
        + digits(summary.failed as nat) + " no_baseline="@ + digits(summary.no_baseline as nat)
}

fn append_count(text: &mut String, label: &str, n: usize)
    ensures
        final(text)@ == old(text)@ + label@ + digits(n as nat),
{
    text.append(label);
    let number = write_u128(n as u128);
    text.append(number.as_str());
}

impl RunSummary {
    fn counts_text(&self) -> (text: String)
        ensures
            text@ == progress_counts(*self),
    {
        let mut text = "ok=".to_owned();
        let ok = write_u128(self.ok as u128);
        text.append(ok.as_str());
        append_count(&mut text, " error=", self.errored);
        append_count(&mut text, " failure=", self.failed);
        append_count(&mut text, " no_baseline=", self.no_baseline);
        text
    }

    /// The text of a progress line.
    pub open spec fn progress_text(
        &self,
        total: usize,
        percent: Seq<char>,
        elapsed_secs: u64,
        rate: Seq<char>,
        eta: Seq<char>,
    ) -> Seq<char> {
        "PROGRESS "@ + digits(self.processed as nat) + "/"@ + digits(total as nat) + " ("@ + percent
            + "%) "@ + progress_counts(*self) + " elapsed="@ + duration_text(elapsed_secs)
            + " rate="@ + rate + "/s eta="@ + eta
    }

    /// The text of the last progress line of a run.
    pub open spec fn final_text(&self, total: usize, elapsed_secs: u64) -> Seq<char> {
        "PROGRESS "@ + digits(self.processed as nat) + "/"@ + digits(total as nat) + " (100.0%) "@
            + progress_counts(*self) + " elapsed="@ + duration_text(elapsed_secs)
            + " \u{2014} done"@
    }

    /// A progress line. `percent`, `rate` and `eta` are written out already.
    pub fn progress_line(
        &self,
        total: usize,
        percent: &str,
        elapsed_secs: u64,
        rate: &str,
        eta: &str,
    ) -> (line: String)
        ensures
            line@ == self.progress_text(total, percent@, elapsed_secs, rate@, eta@),
    {
        let mut line = "PROGRESS ".to_owned();
        let done = write_u128(self.processed as u128);
        line.append(done.as_str());
        append_count(&mut line, "/", total);
        line.append(" (");
        line.append(percent);
        line.append("%) ");
        let counts = self.counts_text();
        line.append(counts.as_str());
        line.append(" elapsed=");
        let elapsed = format_duration(elapsed_secs);
        line.append(elapsed.as_str());
        line.append(" rate=");
        line.append(rate);
        line.append("/s eta=");
        line.append(eta);
        line
    }

    /// The last progress line of a run.
    pub fn final_line(&self, total: usize, elapsed_secs: u64) -> (line: String)
        ensures
            line@ == self.final_text(total, elapsed_secs),
    {
        let mut line = "PROGRESS ".to_owned();
        let done = write_u128(self.processed as u128);
        line.append(done.as_str());
        append_count(&mut line, "/", total);
        line.append(" (100.0%) ");
        let counts = self.counts_text();
        line.append(counts.as_str());
        line.append(" elapsed=");
        let elapsed = format_duration(elapsed_secs);
        line.append(elapsed.as_str());
        line.append(" \u{2014} done");
        line
    }
}

/// A panic is one that the engine catches and reports in a row.
pub open spec fn is_expected(message: Seq<char>) -> bool {
    occurs(message, "GuestPanic"@) || occurs(message, "mocked_blockchain"@)
}

/// Whether a panic is one that the engine catches and reports in a row, so that
/// it need not be printed.
pub fn is_expected_panic(message: &str) -> (yes: bool)
    ensures
        yes == is_expected(message@),
{
    contains(message, "GuestPanic") || contains(message, "mocked_blockchain")
}

} // verus!
