//! The state of an account, read from the JSON that the contract's view gives
//! of it.

use vstd::prelude::*;

use crate::decimal::{parse_u128, parse_u64, read_decimal_up_to};
use crate::engine::Score;
use crate::json::Json;

verus! {

/// One deposit of a jar.
#[derive(Clone, Copy, Debug, PartialEq, Eq, Structural)]
pub struct Deposit {
    pub created_at: u64,
    pub principal: u128,
}

/// Interest of a jar that was settled before.
#[derive(Clone, Copy, Debug, PartialEq, Eq, Structural)]
pub struct JarCache {
    pub updated_at: u64,
    pub interest: u128,
}

/// A jar.
#[derive(Clone, Debug)]
pub struct Jar {
    pub deposits: Vec<Deposit>,
    pub cache: Option<JarCache>,
    /// An operation on the jar is under way.
    pub is_locked: bool,
    pub claim_remainder: u64,
}

/// The score of one day.
#[derive(Clone, Copy, Debug, PartialEq, Eq, Structural)]
pub struct DailyScore {
    pub value: Score,
    pub booster: Score,
}

/// The scores of the two days that are kept.
#[derive(Clone, Copy, Debug, PartialEq, Eq, Structural)]
pub struct AccountScore {
    pub updated_at: u64,
    /// The day of `updated_at`.
    pub current: DailyScore,
    /// The day before.
    pub previous: DailyScore,
}

/// What is enabled for an account.
#[derive(Clone, Copy, Debug, PartialEq, Eq, Structural)]
pub struct Features {
    pub increased_apy: bool,
    pub increased_score_cap: bool,
}

/// The state of an account.
#[derive(Clone, Debug)]
pub struct Account {
    pub nonce: u32,
    /// The jars, each with the product that it belongs to.
    pub jars: Vec<(String, Jar)>,
    /// The offset from UTC in milliseconds; `i64::MIN` where none was set.
    pub timezone_ms: i64,
    pub score: AccountScore,
    pub features: Features,
}

/// The number of 64 bits that a string holds.
pub open spec fn u64_text(json: Json) -> Option<nat> {
    match json.spec_str() {
        Some(text) => read_decimal_up_to(text, u64::MAX as nat),
        None => None,
    }
}

/// The number of 128 bits that a string holds.
pub open spec fn u128_text(json: Json) -> Option<nat> {
    match json.spec_str() {
        Some(text) => read_decimal_up_to(text, u128::MAX as nat),
        None => None,
    }
}

fn read_u64_text(json: &Json) -> (n: Option<u64>)
    ensures
        match n {
            Some(n) => u64_text(*json) == Some(n as nat),
            None => u64_text(*json) is None,
        },
{
    match json.as_str() {
        Some(text) => parse_u64(text),
        None => None,
    }
}

fn read_u128_text(json: &Json) -> (n: Option<u128>)
    ensures
        match n {
            Some(n) => u128_text(*json) == Some(n as nat),
            None => u128_text(*json) is None,
        },
{
    match json.as_str() {
        Some(text) => parse_u128(text),
        None => None,
    }
}

/// A deposit stands as `["<created_at>", "<principal>"]`.
pub open spec fn deposit_of(pair: Json) -> Option<Deposit> {
    match (u64_text(pair.spec_item(0)), u128_text(pair.spec_item(1))) {
        (Some(created_at), Some(principal)) => Some(
            Deposit { created_at: created_at as u64, principal: principal as u128 },
        ),
        _ => None,
    }
}

/// The members of a cache that is there stand as strings.
pub open spec fn cache_of(cache: Json) -> Option<JarCache> {
    match (u64_text(cache.spec_field("updated_at"@)), u128_text(cache.spec_field("interest"@))) {
        (Some(updated_at), Some(interest)) => Some(
            JarCache { updated_at: updated_at as u64, interest: interest as u128 },
        ),
        _ => None,
    }
}

/// `json` has the shape of a jar: a list of deposits, and a cache that is
/// missing, null or whole.
pub open spec fn is_jar_state(json: Json) -> bool {
    &&& json.spec_field("deposits"@).spec_array() matches Some(pairs) && forall|i: int|
        0 <= i < pairs.len() ==> deposit_of(#[trigger] pairs[i]) is Some
    &&& json.spec_field("cache"@) is Null || cache_of(json.spec_field("cache"@)) is Some
}

/// `jar` is the jar that `json` describes.
pub open spec fn is_jar_of(json: Json, jar: Jar) -> bool {
    &&& json.spec_field("deposits"@).spec_array() matches Some(pairs) && {
        &&& jar.deposits@.len() == pairs.len()
        &&& forall|i: int|
            0 <= i < pairs.len() ==> deposit_of(pairs[i]) == Some(#[trigger] jar.deposits@[i])
    }
    &&& jar.cache == (if json.spec_field("cache"@) is Null {
        None
    } else {
        cache_of(json.spec_field("cache"@))
    })
    &&& jar.is_locked == (json.spec_field("is_pending_withdraw"@).spec_bool() == Some(true))
    &&& jar.claim_remainder == (match u64_text(json.spec_field("claim_remainder"@)) {
        Some(n) => n,
        None => 0,
    })
}

fn read_jar(json: &Json) -> (jar: Option<Jar>)
    ensures
        jar is Some <==> is_jar_state(*json),
        jar matches Some(jar) ==> is_jar_of(*json, jar),
{
    let pairs: &Vec<Json> = match json.field("deposits").as_array() {
        Some(pairs) => pairs,
        None => {
            return None;
        },
    };
    let mut deposits: Vec<Deposit> = Vec::new();
    for i in 0..pairs.len()
        invariant
            json.spec_field("deposits"@).spec_array() == Some(pairs@),
            deposits@.len() == i,
            forall|k: int|
                0 <= k < i ==> deposit_of(pairs@[k]) == Some(#[trigger] deposits@[k]),
            forall|k: int| 0 <= k < i ==> deposit_of(#[trigger] pairs@[k]) is Some,
    {
        let pair: &Json = &pairs[i];
        let created_at: u64 = match read_u64_text(pair.item(0)) {
            Some(n) => n,
            None => {
                assert(deposit_of(pairs@[i as int]) is None);
                return None;
            },
        };
        let principal: u128 = match read_u128_text(pair.item(1)) {
            Some(n) => n,
            None => {
                assert(deposit_of(pairs@[i as int]) is None);
                return None;
            },
        };
        deposits.push(Deposit { created_at, principal });
        assert(deposit_of(pairs@[i as int]) is Some);
    }
    let held: &Json = json.field("cache");
    let cache: Option<JarCache> = match held {
        Json::Null => None,
        _ => {
            let updated_at: u64 = match read_u64_text(held.field("updated_at")) {
                Some(n) => n,
                None => {
                    return None;
                },
            };
            let interest: u128 = match read_u128_text(held.field("interest")) {
                Some(n) => n,
                None => {
                    return None;
                },
            };
            Some(JarCache { updated_at, interest })
        },
    };
    let is_locked: bool = match json.field("is_pending_withdraw").as_bool() {
        Some(locked) => locked,
        None => false,
    };
    let claim_remainder: u64 = match read_u64_text(json.field("claim_remainder")) {
        Some(n) => n,
        None => 0,
    };
    Some(Jar { deposits, cache, is_locked, claim_remainder })
}

/// The low 16 bits of a number, zero where there is none.
pub open spec fn score_of(json: Json) -> int {
    match json.spec_u64() {
        Some(n) => n as int % 0x1_0000,
        None => 0,
    }
}

fn read_score(json: &Json) -> (score: Score)
    ensures
        score == score_of(*json),
{
    match json.as_u64() {
        Some(n) => (n % 0x1_0000) as u16,
        None => 0,
    }
}

/// `day` is the score that the item `i` of a history describes; zero where the
/// history has no such item.
pub open spec fn is_day_of(history: Json, i: int, day: DailyScore) -> bool {
    &&& day.value == score_of(history.spec_item(i).spec_field("value"@))
    &&& day.booster == score_of(history.spec_item(i).spec_field("booster"@))
}

fn read_day(history: &Json, i: usize) -> (day: DailyScore)
    ensures
        is_day_of(*history, i as int, day),
{
    let day: &Json = history.item(i);
    DailyScore { value: read_score(day.field("value")), booster: read_score(day.field("booster")) }
}

/// `json` has the shape of an account state: an object of jars and a list of
/// daily scores. Everything else may be missing.
pub open spec fn is_account_state(state: Json) -> bool {
    &&& state.spec_field("jars"@).spec_object() matches Some(jars) && forall|i: int|
        0 <= i < jars.len() ==> is_jar_state((#[trigger] jars[i]).1)
    &&& state.spec_field("score"@).spec_field("history"@).spec_array() is Some
}

/// `account` is the account that `state` describes.
pub open spec fn is_account_of(state: Json, window_start_ms: u64, account: Account) -> bool {
    let score = state.spec_field("score"@);
    let history = score.spec_field("history"@);
    let features = state.spec_field("features"@);
    &&& state.spec_field("jars"@).spec_object() matches Some(jars) && {
        &&& account.jars@.len() == jars.len()
        &&& forall|i: int|
            0 <= i < jars.len() ==> (#[trigger] account.jars@[i]).0@ == jars[i].0@ && is_jar_of(
                jars[i].1,
                account.jars@[i].1,
            )
    }
    &&& account.nonce == (match state.spec_field("nonce"@).spec_u64() {
        Some(n) => n as int % 0x1_0000_0000,
        None => 0,
    })
    &&& account.timezone_ms == (match state.spec_field("timezone"@).spec_i64() {
        Some(tz) => tz,
        None => i64::MIN,
    })
    &&& account.score.updated_at == (match score.spec_field("updated_at"@).spec_u64() {
        Some(n) => if n == 0 {
            window_start_ms
        } else {
            n
        },
        None => window_start_ms,
    })
    &&& is_day_of(history, 0, account.score.current)
    &&& is_day_of(history, 1, account.score.previous)
    &&& account.features.increased_apy == (features.spec_field("increased_apy"@).spec_bool()
        == Some(true))
    &&& account.features.increased_score_cap == (features.spec_field(
        "increased_score_cap"@,
    ).spec_bool() == Some(true))
}

fn read_flag(json: &Json) -> (flag: bool)
    ensures
        flag == (json.spec_bool() == Some(true)),
{
    match json.as_bool() {
        Some(flag) => flag,
        None => false,
    }
}

/// Reads an account state, where `state` has the shape of one. A score time of
/// zero, or none, becomes the start of the window.
pub fn read_account_state(state: &Json, window_start_ms: u64) -> (account: Option<Account>)
    ensures
        account is Some <==> is_account_state(*state),
        account matches Some(account) ==> is_account_of(*state, window_start_ms, account),
{
    let members: &Vec<(String, Json)> = match state.field("jars").as_object() {
        Some(members) => members,
        None => {
            return None;
        },
    };
    let mut jars: Vec<(String, Jar)> = Vec::new();
    for i in 0..members.len()
        invariant
            state.spec_field("jars"@).spec_object() == Some(members@),
            jars@.len() == i,
            forall|k: int| 0 <= k < i ==> is_jar_state((#[trigger] members@[k]).1),
            forall|k: int|
                0 <= k < i ==> (#[trigger] jars@[k]).0@ == members@[k].0@ && is_jar_of(
                    members@[k].1,
                    jars@[k].1,
                ),
    {
        let jar: Jar = match read_jar(&members[i].1) {
            Some(jar) => jar,
            None => {
                proof {
                    let jars = state.spec_field("jars"@).spec_object()->0;
                    assert(!is_jar_state(jars[i as int].1));
                }
                return None;
            },
        };
        jars.push((members[i].0.clone(), jar));
    }
    let score: &Json = state.field("score");
    let history: &Json = score.field("history");
    if history.as_array().is_none() {
        return None;
    }
    let updated_at: u64 = match score.field("updated_at").as_u64() {
        Some(n) => if n == 0 {
            window_start_ms
        } else {
            n
        },
        None => window_start_ms,
    };
    let features: &Json = state.field("features");
    Some(
        Account {
            nonce: match state.field("nonce").as_u64() {
                Some(n) => (n % 0x1_0000_0000) as u32,
                None => 0,
            },
            jars,
            timezone_ms: match state.field("timezone").as_i64() {
                Some(tz) => tz,
                None => i64::MIN,
            },
            score: AccountScore {
                updated_at,
                current: read_day(history, 0),
                previous: read_day(history, 1),
            },
            features: Features {
                increased_apy: read_flag(features.field("increased_apy")),
                increased_score_cap: read_flag(features.field("increased_score_cap")),
            },
        },
    )
}

/// Parses an account state. A score time of zero, or none, becomes the start of
/// the window.
pub fn parse_account_state(state: &Json, window_start_ms: u64) -> (account: Account)
    requires
        is_account_state(*state),
    ensures
        is_account_of(*state, window_start_ms, account),
{
    read_account_state(state, window_start_ms).unwrap()
}

impl Account {
    /// A jar of the account is locked.
    pub open spec fn has_locked_jar(&self) -> bool {
        exists|i: int| 0 <= i < self.jars@.len() && (#[trigger] self.jars@[i]).1.is_locked
    }

    /// Whether an operation on one of the jars is under way.
    pub fn any_jar_locked(&self) -> (locked: bool)
        ensures
            locked == self.has_locked_jar(),
    {
        for i in 0..self.jars.len()
            invariant
                forall|k: int| 0 <= k < i ==> !(#[trigger] self.jars@[k]).1.is_locked,
        {
            if self.jars[i].1.is_locked {
                return true;
            }
        }
        false
    }
}

/// No account state gets a score time of zero, unless the window starts there.
pub proof fn law_score_time_is_stamped(state: Json, window_start_ms: u64, account: Account)
    requires
        is_account_of(state, window_start_ms, account),
        window_start_ms > 0,
    ensures
        account.score.updated_at > 0,
{
}

/// Where no member of the jars object occurs twice, no product has two jars.
pub proof fn law_jars_stay_apart(
    state: Json,
    window_start_ms: u64,
    account: Account,
    i: int,
    j: int,
)
    requires
        is_account_of(state, window_start_ms, account),
        forall|a: int, b: int|
            0 <= a < b < state.spec_field("jars"@).spec_object()->0.len() ==> (
            #[trigger] state.spec_field("jars"@).spec_object()->0[a]).0@ != (
            #[trigger] state.spec_field("jars"@).spec_object()->0[b]).0@,
        0 <= i < j < account.jars@.len(),
    ensures
        account.jars@[i].0@ != account.jars@[j].0@,
{
    let jars = state.spec_field("jars"@).spec_object()->0;
    assert(jars[i].0@ != jars[j].0@);
}

/// An account has a locked jar exactly where its state says of some jar that a
/// withdrawal is pending.
pub proof fn law_lock_is_a_pending_withdrawal(
    state: Json,
    window_start_ms: u64,
    account: Account,
)
    requires
        is_account_of(state, window_start_ms, account),
    ensures
        account.has_locked_jar() <==> exists|i: int|
            0 <= i < state.spec_field("jars"@).spec_object()->0.len() && (
            #[trigger] state.spec_field("jars"@).spec_object()->0[i]).1.spec_field(
                "is_pending_withdraw"@,
            ).spec_bool() == Some(true),
{
    let jars = state.spec_field("jars"@).spec_object()->0;
    if account.has_locked_jar() {
        let i = choose|i: int|
            0 <= i < account.jars@.len() && (#[trigger] account.jars@[i]).1.is_locked;
        assert(is_jar_of(jars[i].1, account.jars@[i].1));
        assert(jars[i].1.spec_field("is_pending_withdraw"@).spec_bool() == Some(true));
    }
    if exists|i: int|
        0 <= i < jars.len() && (#[trigger] jars[i]).1.spec_field(
            "is_pending_withdraw"@,
        ).spec_bool() == Some(true) {
        let i = choose|i: int|
            0 <= i < jars.len() && (#[trigger] jars[i]).1.spec_field(
                "is_pending_withdraw"@,
            ).spec_bool() == Some(true);
        assert(account.jars@[i].0@ == jars[i].0@);
        assert(account.jars@[i].1.is_locked);
    }
}

} // verus!
