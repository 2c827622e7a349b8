//! Laws of account states: what a state says of an account is what is read of it.

use vstd::prelude::*;

use crate::account::{
    deposit_of, is_account_of, is_account_state, is_jar_of, is_jar_state, Account, Deposit, Jar,
    JarCache,
};
use crate::decimal::digits;
use crate::json::{member, Json};
use crate::laws::numbers::law_every_number_up_to_the_limit_reads;

verus! {

/// `value` is what stands under the first member of `json` with the name `key`.
pub open spec fn holds(json: Json, key: Seq<char>, value: Json) -> bool {
    json matches Json::Object(members) && exists|i: int|
        {
            &&& 0 <= i < members@.len()
            &&& (#[trigger] members@[i]).0@ == key
            &&& members@[i].1 == value
            &&& forall|j: int| 0 <= j < i ==> (#[trigger] members@[j]).0@ != key
        }
}

/// `json` has no member with the name `key`.
pub open spec fn lacks(json: Json, key: Seq<char>) -> bool {
    json matches Json::Object(members) ==> forall|i: int|
        0 <= i < members@.len() ==> (#[trigger] members@[i]).0@ != key
}

proof fn lemma_member(members: Seq<(String, Json)>, key: Seq<char>, i: int)
    requires
        0 <= i < members.len(),
        members[i].0@ == key,
        forall|j: int| 0 <= j < i ==> (#[trigger] members[j]).0@ != key,
    ensures
        member(members, key) == Some(members[i].1),
    decreases i,
{
    if i > 0 {
        let rest = members.subrange(1, members.len() as int);
        assert(members[0].0@ != key);
        assert forall|j: int| 0 <= j < i - 1 implies (#[trigger] rest[j]).0@ != key by {
            assert(rest[j] == members[j + 1]);
        }
        lemma_member(rest, key, i - 1);
    }
}

proof fn lemma_no_member(members: Seq<(String, Json)>, key: Seq<char>)
    requires
        forall|j: int| 0 <= j < members.len() ==> (#[trigger] members[j]).0@ != key,
    ensures
        member(members, key) is None,
    decreases members.len(),
{
    if members.len() > 0 {
        let rest = members.subrange(1, members.len() as int);
        assert(members[0].0@ != key);
        assert forall|j: int| 0 <= j < rest.len() implies (#[trigger] rest[j]).0@ != key by {
            assert(rest[j] == members[j + 1]);
        }
        lemma_no_member(rest, key);
    }
}

/// A member is read under its own name, the first of that name; one that is not
/// there reads as null. What is no object has no members.
pub proof fn law_first_member_of_a_name_is_read(json: Json, key: Seq<char>, value: Json)
    ensures
        holds(json, key, value) ==> json.spec_get(key) == Some(value) && json.spec_field(key)
            == value,
        lacks(json, key) ==> json.spec_get(key) is None && json.spec_field(key) is Null,
{
    if let Json::Object(members) = json {
        if holds(json, key, value) {
            let i = choose|i: int|
                {
                    &&& 0 <= i < members@.len()
                    &&& (#[trigger] members@[i]).0@ == key
                    &&& members@[i].1 == value
                    &&& forall|j: int| 0 <= j < i ==> (#[trigger] members@[j]).0@ != key
                };
            lemma_member(members@, key, i);
        }
        if lacks(json, key) {
            lemma_no_member(members@, key);
        }
    }
}

/// The text is `n` in decimal digits.
pub open spec fn is_number_text(json: Json, n: nat) -> bool {
    json matches Json::Str(text) && text@ == digits(n)
}

/// The nonce of an account is the number that its state gives, in 32 bits. What is no
/// number that counts up counts as none.
pub proof fn law_nonce_is_read(
    state: Json,
    window_start_ms: u64,
    account: Account,
    nonce: u64,
    other: Json,
)
    requires
        is_account_of(state, window_start_ms, account),
    ensures
        holds(state, "nonce"@, Json::PosInt(nonce)) ==> {
            &&& nonce <= u32::MAX ==> account.nonce == nonce
            &&& (nonce - account.nonce) % 0x1_0000_0000 == 0
        },
        lacks(state, "nonce"@) ==> account.nonce == 0,
        holds(state, "nonce"@, other) && !(other is PosInt) ==> account.nonce == 0,
{
    law_first_member_of_a_name_is_read(state, "nonce"@, Json::PosInt(nonce));
    law_first_member_of_a_name_is_read(state, "nonce"@, other);
}

/// The timezone of an account is the offset from UTC that its state gives, with its
/// sign. An account without an offset, or with one that does not fit, has none.
pub proof fn law_timezone_is_read(
    state: Json,
    window_start_ms: u64,
    account: Account,
    timezone: i64,
    other: Json,
)
    requires
        is_account_of(state, window_start_ms, account),
    ensures
        holds(
            state,
            "timezone"@,
            if timezone < 0 {
                Json::NegInt(timezone)
            } else {
                Json::PosInt(timezone as u64)
            },
        ) ==> account.timezone_ms == timezone,
        lacks(state, "timezone"@) ==> account.timezone_ms == i64::MIN,
        holds(state, "timezone"@, other) && !(other is NegInt) && !(other is PosInt)
            ==> account.timezone_ms == i64::MIN,
        holds(state, "timezone"@, other) && (other matches Json::PosInt(n) && n > i64::MAX)
            ==> account.timezone_ms == i64::MIN,
{
    law_first_member_of_a_name_is_read(state, "timezone"@, other);
    law_first_member_of_a_name_is_read(
        state,
        "timezone"@,
        if timezone < 0 {
            Json::NegInt(timezone)
        } else {
            Json::PosInt(timezone as u64)
        },
    );
}

/// What is enabled for an account is what its state says: each of the two features
/// under its own name, and none that is not named.
pub proof fn law_features_are_read(
    state: Json,
    window_start_ms: u64,
    account: Account,
    features: Json,
    on: bool,
    other: Json,
)
    requires
        is_account_of(state, window_start_ms, account),
        holds(state, "features"@, features),
    ensures
        !(other is Bool) ==> {
            &&& holds(features, "increased_apy"@, other) ==> !account.features.increased_apy
            &&& holds(features, "increased_score_cap"@, other)
                ==> !account.features.increased_score_cap
        },
        holds(features, "increased_apy"@, Json::Bool(on)) ==> account.features.increased_apy == on,
        lacks(features, "increased_apy"@) ==> !account.features.increased_apy,
        holds(features, "increased_score_cap"@, Json::Bool(on))
            ==> account.features.increased_score_cap == on,
        lacks(features, "increased_score_cap"@) ==> !account.features.increased_score_cap,
{
    law_first_member_of_a_name_is_read(state, "features"@, features);
    law_first_member_of_a_name_is_read(features, "increased_apy"@, Json::Bool(on));
    law_first_member_of_a_name_is_read(features, "increased_score_cap"@, Json::Bool(on));
    law_first_member_of_a_name_is_read(features, "increased_apy"@, other);
    law_first_member_of_a_name_is_read(features, "increased_score_cap"@, other);
}

/// The score of an account is as of the time that its state gives; a state without a
/// time, or with a time of zero, is as of the start of the window.
pub proof fn law_score_time_is_read(
    state: Json,
    window_start_ms: u64,
    account: Account,
    score: Json,
    at: u64,
)
    requires
        is_account_of(state, window_start_ms, account),
        holds(state, "score"@, score),
    ensures
        at > 0 && holds(score, "updated_at"@, Json::PosInt(at)) ==> account.score.updated_at == at,
        lacks(score, "updated_at"@) || holds(score, "updated_at"@, Json::PosInt(0))
            ==> account.score.updated_at == window_start_ms,
{
    law_first_member_of_a_name_is_read(state, "score"@, score);
    law_first_member_of_a_name_is_read(score, "updated_at"@, Json::PosInt(at));
    law_first_member_of_a_name_is_read(score, "updated_at"@, Json::PosInt(0));
}

/// Of the daily scores the first is the current day's, the second the day's before,
/// each with its value and its booster; a day that is not there scored nothing.
pub proof fn law_scores_are_read(
    state: Json,
    window_start_ms: u64,
    account: Account,
    score: Json,
    days: Vec<Json>,
    points: u64,
)
    requires
        is_account_of(state, window_start_ms, account),
        holds(state, "score"@, score),
        holds(score, "history"@, Json::Array(days)),
        points <= u16::MAX,
    ensures
        days@.len() > 0 ==> {
            &&& lacks(days@[0], "value"@) ==> account.score.current.value == 0
            &&& lacks(days@[0], "booster"@) ==> account.score.current.booster == 0
        },
        days@.len() > 1 ==> {
            &&& lacks(days@[1], "value"@) ==> account.score.previous.value == 0
            &&& lacks(days@[1], "booster"@) ==> account.score.previous.booster == 0
        },
        days@.len() > 0 ==> {
            &&& holds(days@[0], "value"@, Json::PosInt(points)) ==> account.score.current.value
                == points
            &&& holds(days@[0], "booster"@, Json::PosInt(points)) ==> account.score.current.booster
                == points
        },
        days@.len() > 1 ==> {
            &&& holds(days@[1], "value"@, Json::PosInt(points)) ==> account.score.previous.value
                == points
            &&& holds(days@[1], "booster"@, Json::PosInt(points))
                ==> account.score.previous.booster == points
        },
        days@.len() == 0 ==> account.score.current.value == 0 && account.score.current.booster == 0,
        days@.len() <= 1 ==> account.score.previous.value == 0 && account.score.previous.booster
            == 0,
{
    law_first_member_of_a_name_is_read(state, "score"@, score);
    law_first_member_of_a_name_is_read(score, "history"@, Json::Array(days));
    let first = Json::Array(days).spec_item(0);
    let second = Json::Array(days).spec_item(1);
    law_first_member_of_a_name_is_read(first, "value"@, Json::PosInt(points));
    law_first_member_of_a_name_is_read(first, "booster"@, Json::PosInt(points));
    law_first_member_of_a_name_is_read(second, "value"@, Json::PosInt(points));
    law_first_member_of_a_name_is_read(second, "booster"@, Json::PosInt(points));
}

/// A score is kept in 16 bits.
pub proof fn law_scores_are_kept_in_sixteen_bits(
    state: Json,
    window_start_ms: u64,
    account: Account,
    score: Json,
    days: Vec<Json>,
    points: u64,
)
    requires
        is_account_of(state, window_start_ms, account),
        holds(state, "score"@, score),
        holds(score, "history"@, Json::Array(days)),
        days@.len() > 1,
    ensures
        holds(days@[0], "value"@, Json::PosInt(points)) ==> (points - account.score.current.value)
            % 0x1_0000 == 0,
        holds(days@[0], "booster"@, Json::PosInt(points)) ==> (points
            - account.score.current.booster) % 0x1_0000 == 0,
        holds(days@[1], "value"@, Json::PosInt(points)) ==> (points - account.score.previous.value)
            % 0x1_0000 == 0,
        holds(days@[1], "booster"@, Json::PosInt(points)) ==> (points
            - account.score.previous.booster) % 0x1_0000 == 0,
{
    law_first_member_of_a_name_is_read(state, "score"@, score);
    law_first_member_of_a_name_is_read(score, "history"@, Json::Array(days));
    law_first_member_of_a_name_is_read(days@[0], "value"@, Json::PosInt(points));
    law_first_member_of_a_name_is_read(days@[0], "booster"@, Json::PosInt(points));
    law_first_member_of_a_name_is_read(days@[1], "value"@, Json::PosInt(points));
    law_first_member_of_a_name_is_read(days@[1], "booster"@, Json::PosInt(points));
}

/// An account has a jar for each member of its jars, in their order, under the name
/// of its product.
pub proof fn law_every_jar_is_read(
    state: Json,
    window_start_ms: u64,
    account: Account,
    jars: Vec<(String, Json)>,
    i: int,
)
    requires
        is_account_of(state, window_start_ms, account),
        holds(state, "jars"@, Json::Object(jars)),
        0 <= i < jars@.len(),
    ensures
        account.jars@.len() == jars@.len(),
        account.jars@[i].0@ == jars@[i].0@,
        is_jar_of(jars@[i].1, account.jars@[i].1),
{
    law_first_member_of_a_name_is_read(state, "jars"@, Json::Object(jars));
    assert(account.jars@[i].0@ == jars@[i].0@);
}

/// The deposits of a jar are those that its state lists, in order, each with its time
/// and its whole principal.
pub proof fn law_deposits_are_read(
    json: Json,
    jar: Jar,
    pairs: Vec<Json>,
    i: int,
    pair: Vec<Json>,
    created_at: u64,
    principal: u128,
)
    requires
        is_jar_of(json, jar),
        holds(json, "deposits"@, Json::Array(pairs)),
        0 <= i < pairs@.len(),
        pairs@[i] == Json::Array(pair),
        pair@.len() == 2,
        is_number_text(pair@[0], created_at as nat),
        is_number_text(pair@[1], principal as nat),
    ensures
        jar.deposits@.len() == pairs@.len(),
        jar.deposits@[i] == (Deposit { created_at, principal }),
{
    law_first_member_of_a_name_is_read(json, "deposits"@, Json::Array(pairs));
    law_every_number_up_to_the_limit_reads(created_at as nat, u64::MAX as nat);
    law_every_number_up_to_the_limit_reads(principal as nat, u128::MAX as nat);
    assert(deposit_of(pairs@[i]) == Some(jar.deposits@[i]));
}

/// What a jar settled before is read with its time and its whole interest; a jar that
/// settled nothing has no such record.
pub proof fn law_settled_interest_is_read(
    json: Json,
    jar: Jar,
    cache: Json,
    when: Json,
    what: Json,
    updated_at: u64,
    interest: u128,
)
    requires
        is_jar_of(json, jar),
    ensures
        lacks(json, "cache"@) || holds(json, "cache"@, Json::Null) ==> jar.cache is None,
        holds(json, "cache"@, cache) && holds(cache, "updated_at"@, when) && holds(
            cache,
            "interest"@,
            what,
        ) && is_number_text(when, updated_at as nat) && is_number_text(what, interest as nat)
            ==> jar.cache == Some(JarCache { updated_at, interest }),
{
    law_first_member_of_a_name_is_read(json, "cache"@, cache);
    law_first_member_of_a_name_is_read(json, "cache"@, Json::Null);
    law_first_member_of_a_name_is_read(cache, "updated_at"@, when);
    law_first_member_of_a_name_is_read(cache, "interest"@, what);
    law_every_number_up_to_the_limit_reads(updated_at as nat, u64::MAX as nat);
    law_every_number_up_to_the_limit_reads(interest as nat, u128::MAX as nat);
}

/// A jar is locked where its state says that a withdrawal is pending, and keeps the
/// remainder of its claims; without a word of either it is free, and nothing remains.
pub proof fn law_lock_and_remainder_are_read(
    json: Json,
    jar: Jar,
    pending: bool,
    rest: Json,
    remainder: u64,
)
    requires
        is_jar_of(json, jar),
    ensures
        holds(json, "is_pending_withdraw"@, Json::Bool(pending)) ==> jar.is_locked == pending,
        lacks(json, "is_pending_withdraw"@) ==> !jar.is_locked,
        holds(json, "claim_remainder"@, rest) && is_number_text(rest, remainder as nat)
            ==> jar.claim_remainder == remainder,
        lacks(json, "claim_remainder"@) ==> jar.claim_remainder == 0,
        !(rest is Str) ==> {
            &&& holds(json, "claim_remainder"@, rest) ==> jar.claim_remainder == 0
            &&& holds(json, "is_pending_withdraw"@, rest) && !(rest is Bool) ==> !jar.is_locked
        },
{
    law_first_member_of_a_name_is_read(json, "is_pending_withdraw"@, rest);
    law_first_member_of_a_name_is_read(json, "is_pending_withdraw"@, Json::Bool(pending));
    law_first_member_of_a_name_is_read(json, "claim_remainder"@, rest);
    law_every_number_up_to_the_limit_reads(remainder as nat, u64::MAX as nat);
}

/// The deposit is written as a time and a principal, each in digits that fit.
pub open spec fn is_written_deposit(json: Json, created_at: u64, principal: u128) -> bool {
    json matches Json::Array(pair) && {
        &&& pair@.len() == 2
        &&& is_number_text(pair@[0], created_at as nat)
        &&& is_number_text(pair@[1], principal as nat)
    }
}

/// Each of the items is a deposit that is written as such.
pub open spec fn are_written_deposits(pairs: Seq<Json>) -> bool {
    forall|k: int|
        0 <= k < pairs.len() ==> exists|created_at: u64, principal: u128| #[trigger]
            is_written_deposit(#[trigger] pairs[k], created_at, principal)
}

/// The jar lists deposits that are written as such.
pub open spec fn lists_deposits(json: Json) -> bool {
    exists|pairs: Vec<Json>|
        #[trigger] holds(json, "deposits"@, Json::Array(pairs)) && are_written_deposits(pairs@)
}

/// The cache is written as a time and an interest, each in digits that fit.
pub open spec fn is_written_cache(json: Json, when: Json, what: Json, at: u64, sum: u128) -> bool {
    &&& holds(json, "updated_at"@, when)
    &&& holds(json, "interest"@, what)
    &&& is_number_text(when, at as nat)
    &&& is_number_text(what, sum as nat)
}

/// The jar has no cache, a null one, or one that is written as such.
pub open spec fn has_written_cache(json: Json) -> bool {
    ||| lacks(json, "cache"@)
    ||| holds(json, "cache"@, Json::Null)
    ||| exists|cache: Json, when: Json, what: Json, at: u64, sum: u128|
        #![trigger is_written_cache(cache, when, what, at, sum)]
        holds(json, "cache"@, cache) && is_written_cache(cache, when, what, at, sum)
}

proof fn lemma_jar_reads(json: Json)
    requires
        lists_deposits(json),
        has_written_cache(json),
    ensures
        is_jar_state(json),
{
    law_first_member_of_a_name_is_read(json, "cache"@, Json::Null);
    let pairs = choose|pairs: Vec<Json>|
        #[trigger] holds(json, "deposits"@, Json::Array(pairs)) && are_written_deposits(pairs@);
    law_first_member_of_a_name_is_read(json, "deposits"@, Json::Array(pairs));
    assert forall|k: int| 0 <= k < pairs@.len() implies deposit_of(
        #[trigger] pairs@[k],
    ) is Some by {
        let (created_at, principal) = choose|created_at: u64, principal: u128| #[trigger]
            is_written_deposit(pairs@[k], created_at, principal);
        law_every_number_up_to_the_limit_reads(created_at as nat, u64::MAX as nat);
        law_every_number_up_to_the_limit_reads(principal as nat, u128::MAX as nat);
    }
    if !lacks(json, "cache"@) && !holds(json, "cache"@, Json::Null) {
        let (cache, when, what, at, sum) = choose|
            cache: Json,
            when: Json,
            what: Json,
            at: u64,
            sum: u128,
        |
            #![trigger is_written_cache(cache, when, what, at, sum)]
            holds(json, "cache"@, cache) && is_written_cache(cache, when, what, at, sum);
        law_first_member_of_a_name_is_read(json, "cache"@, cache);
        law_first_member_of_a_name_is_read(cache, "updated_at"@, when);
        law_first_member_of_a_name_is_read(cache, "interest"@, what);
        law_every_number_up_to_the_limit_reads(at as nat, u64::MAX as nat);
        law_every_number_up_to_the_limit_reads(sum as nat, u128::MAX as nat);
    }
}

/// A state reads as an account wherever the jars are an object, every jar lists
/// deposits that are written as such and holds no cache or a written one, and the
/// daily scores are a list: nothing else has to be there.
pub proof fn law_whole_state_reads(
    state: Json,
    jars: Vec<(String, Json)>,
    score: Json,
    days: Vec<Json>,
)
    requires
        holds(state, "jars"@, Json::Object(jars)),
        holds(state, "score"@, score),
        holds(score, "history"@, Json::Array(days)),
        forall|i: int|
            0 <= i < jars@.len() ==> lists_deposits((#[trigger] jars@[i]).1) && has_written_cache(
                jars@[i].1,
            ),
    ensures
        is_account_state(state),
{
    law_first_member_of_a_name_is_read(state, "jars"@, Json::Object(jars));
    law_first_member_of_a_name_is_read(state, "score"@, score);
    law_first_member_of_a_name_is_read(score, "history"@, Json::Array(days));
    assert forall|i: int| 0 <= i < jars@.len() implies is_jar_state((#[trigger] jars@[i]).1) by {
        lemma_jar_reads(jars@[i].1);
    }
}

/// Nothing reads as an account that has no jars or no daily scores, nor where a jar
/// has no list of deposits, a deposit without a time or a principal in its place, or
/// a cache that lacks one of its members.
pub proof fn law_broken_state_does_not_read(
    state: Json,
    jars: Vec<(String, Json)>,
    score: Json,
    i: int,
    pairs: Vec<Json>,
    k: int,
    pair: Vec<Json>,
    cache: Json,
)
    ensures
        lacks(state, "jars"@) || lacks(state, "score"@) ==> !is_account_state(state),
        holds(state, "score"@, score) && lacks(score, "history"@) ==> !is_account_state(state),
        holds(state, "jars"@, Json::Object(jars)) && 0 <= i < jars@.len() ==> {
            let jar = jars@[i].1;
            &&& lacks(jar, "deposits"@) ==> !is_account_state(state)
            &&& holds(jar, "deposits"@, Json::Array(pairs)) && 0 <= k < pairs@.len() && pairs@[k]
                == Json::Array(pair) && (pair@.len() < 2 || !(pair@[0] is Str) || !(
            pair@[1] is Str)) ==> !is_account_state(state)
            &&& holds(jar, "cache"@, cache) && !(cache is Null) && (lacks(cache, "updated_at"@)
                || lacks(cache, "interest"@)) ==> !is_account_state(state)
        },
{
    law_first_member_of_a_name_is_read(state, "jars"@, Json::Object(jars));
    law_first_member_of_a_name_is_read(state, "score"@, score);
    law_first_member_of_a_name_is_read(score, "history"@, Json::Null);
    law_first_member_of_a_name_is_read(Json::Null, "history"@, Json::Null);
    if holds(state, "jars"@, Json::Object(jars)) && 0 <= i < jars@.len() {
        let jar = jars@[i].1;
        law_first_member_of_a_name_is_read(jar, "deposits"@, Json::Array(pairs));
        law_first_member_of_a_name_is_read(jar, "cache"@, cache);
        law_first_member_of_a_name_is_read(cache, "updated_at"@, Json::Null);
        law_first_member_of_a_name_is_read(cache, "interest"@, Json::Null);
        if is_account_state(state) {
            assert(is_jar_state(state.spec_field("jars"@).spec_object()->0[i].1));
            assert(is_jar_state(jar));
            if holds(jar, "deposits"@, Json::Array(pairs)) && 0 <= k < pairs@.len() {
                assert(deposit_of(pairs@[k]) is Some);
            }
        }
    }
}

} // verus!
