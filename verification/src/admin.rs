//! Invite codes and their administration.

use vstd::prelude::*;
use crate::error::AppError;
use crate::text::chars_of;

verus! {

/// A request for new invite codes.
#[derive(Debug)]
pub struct GenerateCodesRequest {
    /// How many codes are asked for.
    pub count: usize,
}

/// The most codes that one request is given.
pub const MAX_CODES_PER_REQUEST: usize = 50;

/// The number of codes of a request that names none.
pub fn default_count() -> (r: usize)
    ensures
        r == 1,
{
    1
}

/// The number of codes that a request is given: what it asks for, up to
/// the cap.
pub fn capped_count(requested: usize) -> (r: usize)
    ensures
        r == if requested <= MAX_CODES_PER_REQUEST {
            requested
        } else {
            MAX_CODES_PER_REQUEST
        },
{
    if requested <= MAX_CODES_PER_REQUEST {
        requested
    } else {
        MAX_CODES_PER_REQUEST
    }
}

/// The characters that invite codes are made of: capital letters and
/// digits, without those that are easily mistaken for one another.
pub open spec fn invite_alphabet() -> Seq<char> {
    "ABCDEFGHJKLMNPQRSTUVWXYZ23456789"@
}

/// The invite code for eight picks from the alphabet: the characters at
/// the first four, a hyphen, and those at the last four.
pub open spec fn code_of(picks: Seq<usize>) -> Seq<char> {
    Seq::new(
        9,
        |i: int|
            if i < 4 {
                invite_alphabet()[picks[i] as int]
            } else if i == 4 {
                '-'
            } else {
                invite_alphabet()[picks[i - 1] as int]
            },
    )
}

/// Whether a text has the form of an invite code.
pub open spec fn is_invite_code(code: Seq<char>) -> bool {
    &&& code.len() == 9
    &&& code[4] == '-'
    &&& forall|i: int| 0 <= i < 9 && i != 4 ==> invite_alphabet().contains(#[trigger] code[i])
}

/// Whether `picks` are eight places in the alphabet.
pub open spec fn are_picks(picks: Seq<usize>) -> bool {
    picks.len() == 8 && forall|i: int| 0 <= i < 8 ==> #[trigger] picks[i] < 32
}

/// The invite code for eight places in the alphabet.
fn code_for(picks: &Vec<usize>) -> (r: String)
    requires
        are_picks(picks@),
    ensures
        r@ == code_of(picks@),
        is_invite_code(r@),
{
    let alphabet = chars_of("ABCDEFGHJKLMNPQRSTUVWXYZ23456789");
    proof {
        reveal_strlit("ABCDEFGHJKLMNPQRSTUVWXYZ23456789");
    }
    let mut out = String::new();
    let mut i: usize = 0;
    while i < 9
        invariant
            i <= 9,
            are_picks(picks@),
            alphabet@ == invite_alphabet(),
            alphabet@.len() == 32,
            out@ == code_of(picks@).take(i as int),
        decreases 9 - i,
    {
        let c = if i < 4 {
            alphabet[picks[i]]
        } else if i == 4 {
            '-'
        } else {
            alphabet[picks[i - 1]]
        };
        out.push(c);
        assert(code_of(picks@).take(i + 1) =~= code_of(picks@).take(i as int).push(c));
        i += 1;
    }
    proof {
        assert(code_of(picks@).take(9) =~= code_of(picks@));
        assert forall|k: int| 0 <= k < 9 && k != 4 implies invite_alphabet().contains(
            #[trigger] out@[k],
        ) by {
            if k < 4 {
                assert(out@[k] == invite_alphabet()[picks[k] as int]);
            } else {
                assert(out@[k] == invite_alphabet()[picks[k - 1] as int]);
            }
        }
    }
    out
}

/// The invite code for eight picks from the alphabet; `None` for anything
/// else than eight places in the alphabet.
pub fn invite_code_from(picks: &Vec<usize>) -> (r: Option<String>)
    ensures
        match r {
            Some(code) => are_picks(picks@) && code@ == code_of(picks@) && is_invite_code(code@),
            None => !are_picks(picks@),
        },
{
    if picks.len() != 8 {
        return None;
    }
    let mut k: usize = 0;
    while k < 8
        invariant
            k <= 8,
            picks.len() == 8,
            forall|i: int| 0 <= i < k ==> #[trigger] picks[i] < 32,
        decreases 8 - k,
    {
        if picks[k] >= 32 {
            return None;
        }
        k += 1;
    }
    Some(code_for(picks))
}

/// Calls `rand::Rng::gen_range` on `rand::thread_rng()` with the range
/// from 0 up to, and without, `bound`. The value lies in that range;
/// nothing else is known of it. The call panics on an empty range, which
/// the requirement rules out.
#[verifier::external_body]
fn random_below(bound: usize) -> (r: usize)
    requires
        bound > 0,
    ensures
        r < bound,
{
    rand::Rng::gen_range(&mut rand::thread_rng(), 0..bound)
}

/// A fresh invite code, made of eight random picks from the alphabet.
pub fn generate_invite_code() -> (r: String)
    ensures
        is_invite_code(r@),
        exists|picks: Seq<usize>| are_picks(picks) && r@ == code_of(picks),
{
    let mut picks: Vec<usize> = Vec::new();
    let mut i: usize = 0;
    while i < 8
        invariant
            i <= 8,
            picks.len() == i,
            forall|k: int| 0 <= k < i ==> #[trigger] picks[k] < 32,
        decreases 8 - i,
    {
        let pick = random_below(32);
        picks.push(pick);
        i += 1;
    }
    code_for(&picks)
}

/// What the revocation of a code comes to: a code that was not deleted is
/// not found.
pub fn revocation_result(deleted: bool) -> (r: Result<(), AppError>)
    ensures
        match r {
            Ok(_) => deleted,
            Err(e) => !deleted && e is NotFound && e.detail() == "Code not found or already used"@,
        },
{
    if deleted {
        Ok(())
    } else {
        Err(AppError::NotFound("Code not found or already used".to_owned()))
    }
}

} // verus!
