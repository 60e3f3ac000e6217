//! Random alphanumeric identifiers, for reply channels and connections.

use rand::Rng;
use vstd::prelude::*;

verus! {

/// An ASCII letter or digit.
pub open spec fn is_alphanumeric(c: char) -> bool {
    ('0' <= c && c <= '9') || ('A' <= c && c <= 'Z') || ('a' <= c && c <= 'z')
}

/// Calls `rand::Rng::sample` on the thread's generator with
/// `rand::distributions::Alphanumeric`, which draws from the 62 ASCII
/// letters and digits; nothing is claimed of which one.
#[verifier::external_body]
fn random_alphanumeric() -> (c: char)
    ensures
        is_alphanumeric(c),
{
    rand::thread_rng().sample(rand::distributions::Alphanumeric) as char
}

/// Calls `String::push`, which appends one character.
#[verifier::external_body]
fn push_char(s: &mut String, c: char)
    ensures
        final(s)@ == old(s)@.push(c),
{
    s.push(c)
}

/// A random identifier of `len` ASCII letters and digits.
pub fn random_id(len: usize) -> (id: String)
    ensures
        id@.len() == len,
        forall|i: int| 0 <= i < len ==> is_alphanumeric(#[trigger] id@[i]),
{
    let mut id = String::new();
    let mut i: usize = 0;
    while i < len
        invariant
            0 <= i <= len,
            id@.len() == i,
            forall|k: int| 0 <= k < i ==> is_alphanumeric(#[trigger] id@[k]),
        decreases len - i,
    {
        let c = random_alphanumeric();
        push_char(&mut id, c);
        i = i + 1;
    }
    id
}

} // verus!
