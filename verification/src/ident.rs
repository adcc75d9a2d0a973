//! Random identifiers for links whose caller did not choose one.

use vstd::prelude::*;
use crate::text::push_char;

verus! {

/// How many characters a generated identifier has.
pub const GENERATED_ID_LENGTH: usize = 6;

/// Whether `c` is an ASCII letter or digit.
pub open spec fn is_alphanumeric(c: char) -> bool {
    ('0' <= c && c <= '9') || ('A' <= c && c <= 'Z') || ('a' <= c && c <= 'z')
}

/// Whether `id` is an identifier as the generator makes them: six ASCII
/// letters and digits.
pub open spec fn is_generated_id(id: Seq<char>) -> bool {
    &&& id.len() == GENERATED_ID_LENGTH
    &&& forall|i: int| 0 <= i < id.len() ==> is_alphanumeric(#[trigger] id[i])
}

/// `rand::Rng::sample` with `rand::distr::Alphanumeric` on the thread's
/// generator `rand::rng()`: one byte, drawn uniformly from the ASCII letters
/// and digits. Which one is not known.
#[verifier::external_body]
pub(crate) fn random_alphanumeric() -> (byte: u8)
    ensures
        is_alphanumeric(byte as char),
{
    rand::Rng::sample(&mut rand::rng(), rand::distr::Alphanumeric)
}

/// A new random identifier: six characters, each drawn uniformly from the
/// ASCII letters and digits. Nothing checks here that it is free: the store
/// does, when the record is created.
pub fn generate() -> (id: String)
    ensures
        is_generated_id(id@),
{
    let mut id = String::new();
    let mut n: usize = 0;
    while n < GENERATED_ID_LENGTH
        invariant
            n <= GENERATED_ID_LENGTH,
            id@.len() == n,
            forall|i: int| 0 <= i < id@.len() ==> is_alphanumeric(#[trigger] id@[i]),
        decreases GENERATED_ID_LENGTH - n,
    {
        let byte = random_alphanumeric();
        push_char(&mut id, byte as char);
        n = n + 1;
    }
    id
}

} // verus!
