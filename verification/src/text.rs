//! Searching and cutting strings, character by character.

use vstd::prelude::*;
use vstd::string::StrSliceExecFns;

verus! {

/// `pat` stands in `s` at character index `at`.
pub open spec fn occurs_at(s: Seq<char>, pat: Seq<char>, at: int) -> bool {
    &&& 0 <= at
    &&& at + pat.len() <= s.len()
    &&& s.subrange(at, at + pat.len()) == pat
}

/// `pat` stands somewhere in `s`.
pub open spec fn occurs(s: Seq<char>, pat: Seq<char>) -> bool {
    exists|at: int| occurs_at(s, pat, at)
}

/// The first place at or after `from` where `pat` stands in `s`.
pub open spec fn find_from(s: Seq<char>, pat: Seq<char>, from: int) -> Option<int>
    decreases s.len() + 1 - from,
{
    if from < 0 || from + pat.len() > s.len() {
        None
    } else if occurs_at(s, pat, from) {
        Some(from)
    } else {
        find_from(s, pat, from + 1)
    }
}

/// The last place at or before `from` where `pat` stands in `s`.
pub open spec fn rfind_from(s: Seq<char>, pat: Seq<char>, from: int) -> Option<int>
    decreases from + 1,
{
    if from < 0 {
        None
    } else if occurs_at(s, pat, from) {
        Some(from)
    } else {
        rfind_from(s, pat, from - 1)
    }
}

/// `s` begins with `prefix`.
pub open spec fn has_prefix(s: Seq<char>, prefix: Seq<char>) -> bool {
    occurs_at(s, prefix, 0)
}

/// The characters with the Unicode property `White_Space`.
pub open spec fn is_whitespace_char(c: char) -> bool {
    let n = c as int;
    ||| 0x9 <= n <= 0xd
    ||| n == 0x20
    ||| n == 0x85
    ||| n == 0xa0
    ||| n == 0x1680
    ||| 0x2000 <= n <= 0x200a
    ||| n == 0x2028
    ||| n == 0x2029
    ||| n == 0x202f
    ||| n == 0x205f
    ||| n == 0x3000
}

/// `s` without its leading and trailing whitespace.
pub open spec fn trimmed(s: Seq<char>) -> Seq<char>
    decreases s.len(),
{
    if s.len() == 0 {
        s
    } else if is_whitespace_char(s[0]) {
        trimmed(s.subrange(1, s.len() as int))
    } else if is_whitespace_char(s[s.len() - 1]) {
        trimmed(s.subrange(0, s.len() - 1))
    } else {
        s
    }
}

/// The characters of `s`, in order.
pub fn chars_of(s: &str) -> (chars: Vec<char>)
    ensures
        chars@ == s@,
{
    let mut chars: Vec<char> = Vec::new();
    for c in it: s.chars()
        invariant
            it.seq() == s@,
            chars@ == it.seq().take(it.index() as int),
    {
        chars.push(c);
    }
    chars
}

/// The characters of `s` from `from` up to, not including, `to`.
pub fn cut(s: &str, from: usize, to: usize) -> (part: String)
    requires
        from <= to <= s@.len(),
    ensures
        part@ == s@.subrange(from as int, to as int),
{
    s.substring_char(from, to).to_owned()
}

/// Whether `pat` stands in `s` at `at`.
fn matches_at(s: &Vec<char>, pat: &Vec<char>, at: usize) -> (found: bool)
    requires
        at + pat@.len() <= s@.len(),
    ensures
        found == occurs_at(s@, pat@, at as int),
{
    assert(s@.len() == s.len());
    let mut k: usize = 0;
    while k < pat.len()
        invariant
            k <= pat@.len(),
            at + pat@.len() <= s@.len() <= usize::MAX,
            forall|j: int| 0 <= j < k ==> s@[at + j] == pat@[j],
        decreases pat@.len() - k,
    {
        if s[at + k] != pat[k] {
            assert(s@.subrange(at as int, at + pat@.len())[k as int] == s@[at + k]);
            return false;
        }
        k = k + 1;
    }
    assert(s@.subrange(at as int, at + pat@.len()) =~= pat@);
    true
}

/// The first place where `pat` stands in `s`.
pub fn find(s: &Vec<char>, pat: &Vec<char>) -> (found: Option<usize>)
    ensures
        match found {
            Some(at) => find_from(s@, pat@, 0) == Some(at as int),
            None => find_from(s@, pat@, 0) is None,
        },
        found matches Some(at) ==> at + pat@.len() <= s@.len(),
{
    if pat.len() > s.len() {
        return None;
    }
    let last: usize = s.len() - pat.len();
    let mut at: usize = 0;
    loop
        invariant
            at <= last,
            last + pat@.len() == s@.len(),
            find_from(s@, pat@, 0) == find_from(s@, pat@, at as int),
        decreases last - at,
    {
        if matches_at(s, pat, at) {
            return Some(at);
        }
        if at == last {
            assert(find_from(s@, pat@, at + 1) is None);
            return None;
        }
        at = at + 1;
    }
}

/// The last place where `pat` stands in `s`.
pub fn rfind(s: &Vec<char>, pat: &Vec<char>) -> (found: Option<usize>)
    ensures
        match found {
            Some(at) => rfind_from(s@, pat@, s@.len() - pat@.len()) == Some(at as int),
            None => rfind_from(s@, pat@, s@.len() - pat@.len()) is None,
        },
        found matches Some(at) ==> at + pat@.len() <= s@.len(),
{
    if pat.len() > s.len() {
        return None;
    }
    let mut at: usize = s.len() - pat.len();
    loop
        invariant
            at + pat@.len() <= s@.len(),
            rfind_from(s@, pat@, s@.len() - pat@.len()) == rfind_from(s@, pat@, at as int),
        decreases at,
    {
        if matches_at(s, pat, at) {
            return Some(at);
        }
        if at == 0 {
            assert(rfind_from(s@, pat@, at - 1) is None);
            return None;
        }
        at = at - 1;
    }
}

/// Where a search finds the text, it stands there; nowhere before.
pub proof fn lemma_find_from(s: Seq<char>, pat: Seq<char>, from: int)
    requires
        0 <= from,
    ensures
        match find_from(s, pat, from) {
            Some(at) => from <= at && occurs_at(s, pat, at) && forall|j: int|
                from <= j < at ==> !occurs_at(s, pat, j),
            None => forall|j: int| from <= j ==> !occurs_at(s, pat, j),
        },
    decreases s.len() + 1 - from,
{
    if from + pat.len() <= s.len() && !occurs_at(s, pat, from) {
        lemma_find_from(s, pat, from + 1);
    }
}

/// Where a backward search finds the text, it stands there; nowhere after.
pub proof fn lemma_rfind_from(s: Seq<char>, pat: Seq<char>, from: int)
    ensures
        match rfind_from(s, pat, from) {
            Some(at) => 0 <= at <= from && occurs_at(s, pat, at) && forall|j: int|
                at < j <= from ==> !occurs_at(s, pat, j),
            None => forall|j: int| j <= from ==> !occurs_at(s, pat, j),
        },
    decreases from + 1,
{
    if from >= 0 && !occurs_at(s, pat, from) {
        lemma_rfind_from(s, pat, from - 1);
    }
}

/// Whether `pat` stands somewhere in `s`.
pub fn contains(s: &str, pat: &str) -> (found: bool)
    ensures
        found == occurs(s@, pat@),
{
    let hay = chars_of(s);
    let needle = chars_of(pat);
    let found = find(&hay, &needle);
    proof {
        lemma_find_from(s@, pat@, 0);
    }
    found.is_some()
}

/// Whether `s` begins with `prefix`.
pub fn starts_with(s: &str, prefix: &str) -> (found: bool)
    ensures
        found == has_prefix(s@, prefix@),
{
    let hay = chars_of(s);
    let needle = chars_of(prefix);
    if needle.len() > hay.len() {
        return false;
    }
    matches_at(&hay, &needle, 0)
}

/// Whether two strings hold the same characters.
pub fn same(a: &str, b: &str) -> (equal: bool)
    ensures
        equal == (a@ == b@),
{
    let left = chars_of(a);
    let right = chars_of(b);
    if left.len() != right.len() {
        return false;
    }
    let equal = matches_at(&left, &right, 0);
    assert(a@.subrange(0, a@.len() as int) =~= a@);
    equal
}

/// Whether `c` is whitespace.
pub fn is_whitespace(c: char) -> (white: bool)
    ensures
        white == is_whitespace_char(c),
{
    let n: u32 = c as u32;
    (0x9 <= n && n <= 0xd) || n == 0x20 || n == 0x85 || n == 0xa0 || n == 0x1680 || (0x2000 <= n
        && n <= 0x200a) || n == 0x2028 || n == 0x2029 || n == 0x202f || n == 0x205f || n == 0x3000
}

/// The part of `s` from `from` to `to` without its leading and trailing whitespace.
pub fn trim(s: &Vec<char>, from: usize, to: usize) -> (range: (usize, usize))
    requires
        from <= to <= s@.len(),
    ensures
        from <= range.0 <= range.1 <= to,
        s@.subrange(range.0 as int, range.1 as int) == trimmed(
            s@.subrange(from as int, to as int),
        ),
{
    let ghost whole = s@.subrange(from as int, to as int);
    let mut lo: usize = from;
    while lo < to && is_whitespace(s[lo])
        invariant
            from <= lo <= to <= s@.len(),
            whole == s@.subrange(from as int, to as int),
            trimmed(whole) == trimmed(s@.subrange(lo as int, to as int)),
        decreases to - lo,
    {
        proof {
            let part = s@.subrange(lo as int, to as int);
            assert(part[0] == s@[lo as int]);
            assert(part.subrange(1, part.len() as int) =~= s@.subrange(lo + 1, to as int));
        }
        lo = lo + 1;
    }
    let mut hi: usize = to;
    while hi > lo && is_whitespace(s[hi - 1])
        invariant
            from <= lo <= hi <= to <= s@.len(),
            lo == to || !is_whitespace_char(s@[lo as int]),
            trimmed(whole) == trimmed(s@.subrange(lo as int, hi as int)),
        decreases hi,
    {
        proof {
            let part = s@.subrange(lo as int, hi as int);
            assert(part[0] == s@[lo as int]);
            assert(part[part.len() - 1] == s@[hi - 1]);
            assert(part.subrange(0, part.len() - 1) =~= s@.subrange(lo as int, hi - 1));
        }
        hi = hi - 1;
    }
    proof {
        let part = s@.subrange(lo as int, hi as int);
        if hi > lo {
            assert(part[0] == s@[lo as int]);
            assert(part[part.len() - 1] == s@[hi - 1]);
        }
        assert(trimmed(part) == part);
    }
    (lo, hi)
}

} // verus!
