use vstd::prelude::*;

use crate::charset::{
    base_charset_spec, build_lookup_table, create_base_charset, is_charset,
    lemma_base_charset_is_charset, lemma_swap_keeps_charset, lemma_swap_ranges_keeps_charset,
    lookup_spec, seq_swap, seq_swap_ranges, swap_chars, swap_ranges,
};
use crate::codec::{decode_spec, decode_with_strategy, encode_spec, encode_with_strategy};
use crate::error::Asc100Error;
use crate::strategy::{str_result, EncodingStrategy, ExtensionsStrategy, PassThroughFilter};

verus! {

/// A named permutation of the base alphabet together with its inverse table.
#[derive(Copy, Clone)]
pub struct Asc100Version {
    pub name: &'static str,
    pub charset: [char; 100],
    pub lookup: [u8; 128],
}

impl Asc100Version {
    /// The charset is a permutation of the base set and the lookup table is built from it.
    pub open spec fn wf(&self) -> bool {
        &&& is_charset(self.charset@)
        &&& self.lookup@ == lookup_spec(self.charset@)
    }

    /// Encodes with markers recognised and no filtering: a character at or above code 128
/// is non-ASCII input, one below it without a charset entry an invalid character.
    pub fn encode(&self, input: &str) -> (r: Result<String, Asc100Error>)
        ensures
            str_result(r) == encode_spec(&ExtensionsStrategy { filter: PassThroughFilter }, input@, self.lookup@),
    {
        crate::codec::encode(input, &self.charset, &self.lookup)
    }

    /// Decodes with marker codes rendered as their bracketed names.
    pub fn decode(&self, encoded: &str) -> (r: Result<String, Asc100Error>)
        ensures
            str_result(r) == decode_spec(&ExtensionsStrategy { filter: PassThroughFilter }, encoded@, self.charset@),
    {
        crate::codec::decode(encoded, &self.charset)
    }

    /// Encodes under the given strategy with this version's tables.
    pub fn encode_with<S: EncodingStrategy>(&self, input: &str, strategy: &S) -> (r: Result<String, Asc100Error>)
        ensures
            str_result(r) == encode_spec(strategy, input@, self.lookup@),
    {
        encode_with_strategy(input, &self.charset, &self.lookup, strategy)
    }

    /// Decodes under the given strategy with this version's tables.
    pub fn decode_with<S: EncodingStrategy>(&self, encoded: &str, strategy: &S) -> (r: Result<String, Asc100Error>)
        ensures
            str_result(r) == decode_spec(strategy, encoded@, self.charset@),
    {
        decode_with_strategy(encoded, &self.charset, strategy)
    }
}

/// Standard order with space (0) and tilde (94) exchanged.
pub open spec fn v1_charset_spec() -> Seq<char> {
    seq_swap(base_charset_spec(), 0, 94)
}

/// The digits (16..=25) moved to the front.
pub open spec fn v2_charset_spec() -> Seq<char> {
    seq_swap_ranges(base_charset_spec(), 0, 16, 10)
}

/// The lowercase letters (65..=90) moved to the front.
pub open spec fn v3_charset_spec() -> Seq<char> {
    seq_swap_ranges(base_charset_spec(), 0, 65, 26)
}

/// Lowercase letters first, then the digits after them.
pub open spec fn v4_charset_spec() -> Seq<char> {
    seq_swap_ranges(seq_swap_ranges(base_charset_spec(), 0, 65, 26), 26, 42, 10)
}

pub fn create_v1_standard() -> (r: [char; 100])
    ensures
        r@ == v1_charset_spec(),
        is_charset(r@),
{
    let base = create_base_charset();
    proof {
        lemma_base_charset_is_charset();
        lemma_swap_keeps_charset(base@, 0, 94);
    }
    swap_chars(base, 0, 94)
}

pub fn create_v2_numbers_first() -> (r: [char; 100])
    ensures
        r@ == v2_charset_spec(),
        is_charset(r@),
{
    let base = create_base_charset();
    proof {
        lemma_base_charset_is_charset();
        lemma_swap_ranges_keeps_charset(base@, 0, 16, 10);
    }
    swap_ranges(base, 0, 10, 16, 10)
}

pub fn create_v3_lowercase_first() -> (r: [char; 100])
    ensures
        r@ == v3_charset_spec(),
        is_charset(r@),
{
    let base = create_base_charset();
    proof {
        lemma_base_charset_is_charset();
        lemma_swap_ranges_keeps_charset(base@, 0, 65, 26);
    }
    swap_ranges(base, 0, 26, 65, 26)
}

pub fn create_v4_url_optimized() -> (r: [char; 100])
    ensures
        r@ == v4_charset_spec(),
        is_charset(r@),
{
    let base = create_base_charset();
    proof {
        lemma_base_charset_is_charset();
        lemma_swap_ranges_keeps_charset(base@, 0, 65, 26);
    }
    let base = swap_ranges(base, 0, 26, 65, 26);
    proof {
        lemma_swap_ranges_keeps_charset(base@, 26, 42, 10);
    }
    swap_ranges(base, 26, 10, 42, 10)
}

/// The standard version.
pub fn v1_standard() -> (r: Asc100Version)
    ensures
        r.wf(),
        r.name@ == "v1_standard"@,
        r.charset@ == v1_charset_spec(),
{
    let charset = create_v1_standard();
    Asc100Version { name: "v1_standard", charset, lookup: build_lookup_table(charset) }
}

/// The version with the digits first.
pub fn v2_numbers() -> (r: Asc100Version)
    ensures
        r.wf(),
        r.name@ == "v2_numbers_first"@,
        r.charset@ == v2_charset_spec(),
{
    let charset = create_v2_numbers_first();
    Asc100Version { name: "v2_numbers_first", charset, lookup: build_lookup_table(charset) }
}

/// The version with the lowercase letters first.
pub fn v3_lowercase() -> (r: Asc100Version)
    ensures
        r.wf(),
        r.name@ == "v3_lowercase_first"@,
        r.charset@ == v3_charset_spec(),
{
    let charset = create_v3_lowercase_first();
    Asc100Version { name: "v3_lowercase_first", charset, lookup: build_lookup_table(charset) }
}

/// The version for URL-like text: lowercase letters, then digits.
pub fn v4_url() -> (r: Asc100Version)
    ensures
        r.wf(),
        r.name@ == "v4_url_optimized"@,
        r.charset@ == v4_charset_spec(),
{
    let charset = create_v4_url_optimized();
    Asc100Version { name: "v4_url_optimized", charset, lookup: build_lookup_table(charset) }
}

} // verus!
