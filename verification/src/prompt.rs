//! The answer to the question whether an install is to go on.

use crate::bytes::same_bytes;
use crate::text::{ascii, ascii_bytes, trim, trimmed};
use vstd::prelude::*;
use vstd::string::*;

verus! {

/// The small letter of a capital letter of ASCII; any other byte as it is.
pub open spec fn lower(b: u8) -> u8 {
    if 0x41 <= b <= 0x5a {
        (b + 0x20) as u8
    } else {
        b
    }
}

/// The text with its capital letters of ASCII made small.
pub open spec fn lowered(s: Seq<u8>) -> Seq<u8> {
    Seq::new(s.len(), |i: int| lower(s[i]))
}

/// Whether an answer says yes: it is `y` or `yes`, in capital or small
/// letters, with or without white space around it.
pub open spec fn confirms_spec(answer: Seq<u8>) -> bool {
    let word = lowered(trimmed(answer));
    word == ascii("y"@) || word == ascii("yes"@)
}

/// Whether an answer says yes.
pub fn confirms(answer: &[u8]) -> (r: bool)
    ensures
        r == confirms_spec(answer@),
{
    let mut word = trim(answer);
    let ghost given = word@;
    let mut i: usize = 0;
    while i < word.len()
        invariant
            i <= word.len(),
            word@.len() == given.len(),
            forall|k: int| 0 <= k < i ==> word@[k] == lower(given[k]),
            forall|k: int| i <= k < word.len() ==> word@[k] == given[k],
        decreases word.len() - i,
    {
        let b = word[i];
        if 0x41 <= b && b <= 0x5a {
            word.set(i, b + 0x20);
        }
        i += 1;
    }
    assert(word@ =~= lowered(given));
    proof {
        reveal_strlit("y");
        reveal_strlit("yes");
    }
    same_bytes(word.as_slice(), ascii_bytes("y")) || same_bytes(
        word.as_slice(),
        ascii_bytes("yes"),
    )
}

} // verus!
