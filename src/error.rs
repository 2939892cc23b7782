use vstd::prelude::*;

use crate::text::{digits, digits_of, push_char, push_chars, push_text};

verus! {

/// What can go wrong while encoding or decoding; each variant carries the offending value.
#[derive(Debug, Clone, Copy, PartialEq, Eq, Structural)]
pub enum Asc100Error {
    /// A source character outside the base alphabet that is no recognised marker.
    InvalidCharacter(char),
    /// A character of an encoded stream outside the 64-symbol output alphabet.
    InvalidBase64Character(char),
    /// A decoded 7-bit value that the active policy does not allow, or that names no marker.
    InvalidIndex(u8),
    /// A source character at or above code 128 reached the packer.
    NonAsciiInput,
}

/// The message of an error.
pub open spec fn message_spec(e: Asc100Error) -> Seq<char> {
    match e {
        Asc100Error::InvalidCharacter(c) => "Invalid character: '"@ + seq![c, '\''],
        Asc100Error::InvalidBase64Character(c) => "Invalid base64 character: '"@ + seq![c, '\''],
        Asc100Error::InvalidIndex(i) => "Invalid index: "@ + digits(i as nat, 10, 1),
        Asc100Error::NonAsciiInput => "Input contains non-ASCII characters"@,
    }
}

impl Asc100Error {
    /// A description of the error for people.
    pub fn message(&self) -> (r: String)
        ensures
            r@ == message_spec(*self),
    {
        let mut s = String::new();
        match self {
            Asc100Error::InvalidCharacter(c) => {
                push_text(&mut s, "Invalid character: '");
                push_char(&mut s, *c);
                push_char(&mut s, '\'');
            },
            Asc100Error::InvalidBase64Character(c) => {
                push_text(&mut s, "Invalid base64 character: '");
                push_char(&mut s, *c);
                push_char(&mut s, '\'');
            },
            Asc100Error::InvalidIndex(i) => {
                push_text(&mut s, "Invalid index: ");
                let d = digits_of(*i as u64, 10, 1);
                push_chars(&mut s, d.as_slice());
            },
            Asc100Error::NonAsciiInput => {
                push_text(&mut s, "Input contains non-ASCII characters");
            },
        }
        proof {
            match *self {
                Asc100Error::InvalidCharacter(c) => {
                    assert(s@ =~= message_spec(*self));
                },
                Asc100Error::InvalidBase64Character(c) => {
                    assert(s@ =~= message_spec(*self));
                },
                Asc100Error::InvalidIndex(i) => {
                    assert(s@ =~= message_spec(*self));
                },
                Asc100Error::NonAsciiInput => {
                    assert(s@ =~= message_spec(*self));
                },
            }
        }
        s
    }
}

/// The first position in `lo..hi` where `p` holds, or `hi` when there is none.
pub open spec fn first_where(p: spec_fn(int) -> bool, lo: int, hi: int) -> int
    decreases hi - lo,
{
    if lo >= hi {
        hi
    } else if p(lo) {
        lo
    } else {
        first_where(p, lo + 1, hi)
    }
}

pub proof fn lemma_first_where_skip(p: spec_fn(int) -> bool, lo: int, i: int, hi: int)
    requires
        lo <= i <= hi,
        forall|j: int| lo <= j < i ==> !#[trigger] p(j),
    ensures
        first_where(p, lo, hi) == first_where(p, i, hi),
    decreases i - lo,
{
    if lo < i {
        lemma_first_where_skip(p, lo + 1, i, hi);
    }
}

} // verus!
