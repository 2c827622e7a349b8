//! Names of accounts on the chain.

use vstd::prelude::*;

verus! {

/// A lower-case letter or a digit.
pub open spec fn is_name_char(c: char) -> bool {
    ('a' <= c && c <= 'z') || ('0' <= c && c <= '9')
}

/// `-`, `_` or `.`.
pub open spec fn is_separator(c: char) -> bool {
    c == '-' || c == '_' || c == '.'
}

/// `s` names an account: 2 to 64 characters, lower-case letters and digits,
/// with single separators between them.
pub open spec fn is_account_id(s: Seq<char>) -> bool {
    &&& 2 <= s.len() <= 64
    &&& forall|i: int|
        0 <= i < s.len() ==> is_name_char(#[trigger] s[i]) || (is_separator(s[i]) && 0 < i
            < s.len() - 1 && is_name_char(s[i - 1]))
}

/// Whether `id` parses as a [`near_sdk::AccountId`].
///
/// Not proved: `AccountId::from_str` accepts exactly the names that
/// [`is_account_id`] describes. It counts bytes where this counts characters,
/// which is the same for the characters it accepts.
#[verifier::external_body]
fn parses_as_account_id(id: &str) -> (valid: bool)
    ensures
        valid == is_account_id(id@),
{
    id.parse::<near_sdk::AccountId>().is_ok()
}

/// Whether `id` can name an account.
pub fn is_valid_account_id(id: &str) -> (valid: bool)
    ensures
        valid == is_account_id(id@),
{
    parses_as_account_id(id)
}

} // verus!
