//! Bearer-token checks for the local API.

use vstd::prelude::*;
use crate::text::{str_to_chars, trim, trim_chars};

verus! {

/// `Authorization: Bearer <token>`: the header starts with `Bearer ` and
/// the rest, trimmed of whitespace, is exactly the current token.
pub open spec fn spec_bearer_ok(header: Seq<char>, token: Seq<char>) -> bool {
    header.len() >= 7 && header.subrange(0, 7) == "Bearer "@ && trim(header.subrange(7, header.len() as int)) == token
}

/// Validates an HTTP `Authorization` header against the current token.
pub fn validate_bearer_token(header: &str, current_token: &str) -> (r: bool)
    ensures
        r == spec_bearer_ok(header@, current_token@),
{
    let h = str_to_chars(header);
    let p = str_to_chars("Bearer ");
    proof {
        reveal_strlit("Bearer ");
    }
    if h.len() < 7 {
        return false;
    }
    let mut i: usize = 0;
    while i < 7
        invariant
            h@.len() >= 7,
            h@ == header@,
            p@ == "Bearer "@,
            p@.len() == 7,
            i <= 7,
            forall|j: int| 0 <= j < i ==> h@[j] == p@[j],
        decreases 7 - i,
    {
        if h[i] != p[i] {
            assert(h@.subrange(0, 7)[i as int] != "Bearer "@[i as int]);
            return false;
        }
        i = i + 1;
    }
    assert(h@.subrange(0, 7) =~= "Bearer "@);
    let mut rest: Vec<char> = Vec::new();
    let mut k: usize = 7;
    while k < h.len()
        invariant
            7 <= k <= h@.len(),
            rest@ == h@.subrange(7, k as int),
        decreases h@.len() - k,
    {
        rest.push(h[k]);
        k = k + 1;
    }
    let t = trim_chars(rest.as_slice());
    let tok = str_to_chars(current_token);
    if t.len() != tok.len() {
        return false;
    }
    let mut j: usize = 0;
    while j < t.len()
        invariant
            h@ == header@,
            h@.len() >= 7,
            h@.subrange(0, 7) == "Bearer "@,
            t@ == trim(h@.subrange(7, h@.len() as int)),
            tok@ == current_token@,
            t@.len() == tok@.len(),
            j <= t@.len(),
            forall|x: int| 0 <= x < j ==> t@[x] == tok@[x],
        decreases t@.len() - j,
    {
        if t[j] != tok[j] {
            return false;
        }
        j = j + 1;
    }
    assert(t@ =~= tok@);
    true
}

/// A header carrying exactly the current token is accepted, and one
/// carrying any other token (without surrounding whitespace) is refused.
pub proof fn law_only_the_current_token_is_accepted(presented: Seq<char>, token: Seq<char>)
    requires
        trim(presented) == presented,
    ensures
        spec_bearer_ok("Bearer "@ + presented, token) == (presented == token),
{
    reveal_strlit("Bearer ");
    let h = "Bearer "@ + presented;
    assert(h.subrange(0, 7) =~= "Bearer "@);
    assert(h.subrange(7, h.len() as int) =~= presented);
}

} // verus!
