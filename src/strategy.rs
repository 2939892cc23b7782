use vstd::prelude::*;

use crate::charset::is_base_char;
use crate::error::Asc100Error;
use crate::text::{chars_of, push_char};

verus! {

/// What a filter does with one source character.
#[derive(Debug, Clone)]
pub enum FilterAction {
    /// The character is valid and stays.
    Keep,
    /// The character is replaced by this text.
    Replace(String),
    /// The character is dropped.
    Skip,
    /// Filtering stops with an error for this character.
    Error(char),
}

/// A string result seen through the views of its text.
pub open spec fn str_result(r: Result<String, Asc100Error>) -> Result<Seq<char>, Asc100Error> {
    match r {
        Ok(s) => Ok(s@),
        Err(e) => Err(e),
    }
}

/// The text that `action` puts out for `ch`, or `None` when it is an error.
pub open spec fn action_output(action: FilterAction, ch: char) -> Option<Seq<char>> {
    match action {
        FilterAction::Keep => Some(seq![ch]),
        FilterAction::Replace(s) => Some(s@),
        FilterAction::Skip => Some(Seq::empty()),
        FilterAction::Error(_) => None,
    }
}

/// The text of the invalid-character marker that Sanitize puts in place of a character.
pub open spec fn inv_marker_text() -> Seq<char> {
    seq!['#', 'I', 'N', 'V', '#']
}

/// Filtering a whole input: each character's output in order, or the error for the
/// first character whose action is an error.
pub open spec fn filtered<F: FilterStrategy + ?Sized>(f: &F, s: Seq<char>) -> Result<Seq<char>, Asc100Error>
    decreases s.len(),
{
    if s.len() == 0 {
        Ok(Seq::empty())
    } else {
        match filtered(f, s.drop_last()) {
            Err(e) => Err(e),
            Ok(t) => match f.spec_filter_char(s.last()) {
                Some(out) => Ok(t + out),
                None => Err(Asc100Error::InvalidCharacter(s.last())),
            },
        }
    }
}

/// A policy for characters outside the base alphabet.
pub trait FilterStrategy {
    /// The text put out for `ch`, or `None` when `ch` is rejected.
    spec fn spec_filter_char(&self, ch: char) -> Option<Seq<char>>;

    fn handle_char(&self, ch: char) -> (r: FilterAction)
        ensures
            action_output(r, ch) == self.spec_filter_char(ch),
            r matches FilterAction::Error(c) ==> c == ch,
    ;
}

/// Applies a filter to every character of the input.
pub fn filter_input<F: FilterStrategy>(filter: &F, input: &str) -> (r: Result<String, Asc100Error>)
    ensures
        str_result(r) == filtered(filter, input@),
{
    let chars = chars_of(input);
    let mut result = String::new();
    let mut i: usize = 0;
    while i < chars.len()
        invariant
            chars@ == input@,
            i <= chars@.len(),
            filtered(filter, chars@.take(i as int)) == Ok::<Seq<char>, Asc100Error>(result@),
        decreases chars@.len() - i,
    {
        let ch = chars[i];
        let action = filter.handle_char(ch);
        let ghost prev = result@;
        assert(chars@.take(i + 1).drop_last() =~= chars@.take(i as int));
        assert(chars@.take(i + 1).last() == ch);
        match action {
            FilterAction::Keep => {
                push_char(&mut result, ch);
                assert(result@ =~= prev + seq![ch]);
            },
            FilterAction::Replace(replacement) => {
                result.append(replacement.as_str());
            },
            FilterAction::Skip => {
                assert(result@ =~= prev + Seq::<char>::empty());
            },
            FilterAction::Error(invalid_char) => {
                proof {
                    lemma_filtered_prefix_err(filter, chars@, i as int + 1);
                }
                return Err(Asc100Error::InvalidCharacter(invalid_char));
            },
        }
        i += 1;
    }
    assert(chars@.take(chars@.len() as int) =~= chars@);
    Ok(result)
}

/// An error on a prefix is the error of the whole input.
pub proof fn lemma_filtered_prefix_err<F: FilterStrategy + ?Sized>(f: &F, s: Seq<char>, n: int)
    requires
        0 <= n <= s.len(),
        filtered(f, s.take(n)) is Err,
    ensures
        filtered(f, s) == filtered(f, s.take(n)),
    decreases s.len() - n,
{
    if n < s.len() {
        assert(s.take(n + 1).drop_last() =~= s.take(n));
        lemma_filtered_prefix_err(f, s, n + 1);
    } else {
        assert(s.take(n) =~= s);
    }
}

/// A policy for the index space: which codes the tokenizer and packer may use, and
/// what is done to the text before encoding and after decoding.
pub trait EncodingStrategy {
    spec fn spec_preprocess(&self, input: Seq<char>) -> Result<Seq<char>, Asc100Error>;

    spec fn spec_postprocess(&self, output: Seq<char>) -> Seq<char>;

    spec fn spec_supports(&self, index: u8) -> bool;

    fn preprocess(&self, input: &str) -> (r: Result<String, Asc100Error>)
        ensures
            str_result(r) == self.spec_preprocess(input@),
    ;

    fn postprocess(&self, output: &str) -> (r: String)
        ensures
            r@ == self.spec_postprocess(output@),
    ;

    fn supports_index(&self, index: u8) -> (r: bool)
        ensures
            r == self.spec_supports(index),
    ;
}

/// Whether a character is in the base alphabet.
pub fn is_base(ch: char) -> (r: bool)
    ensures
        r == is_base_char(ch),
{
    let ascii = ch as u32;
    ascii < 128 && (ascii >= 32 && ascii <= 126 || ascii == 9 || ascii == 10 || ascii == 13
        || ascii == 0 || ascii == 1)
}

/// Rejects every character outside the base alphabet.
pub struct StrictFilter;

impl FilterStrategy for StrictFilter {
    open spec fn spec_filter_char(&self, ch: char) -> Option<Seq<char>> {
        if is_base_char(ch) {
            Some(seq![ch])
        } else {
            None
        }
    }

    fn handle_char(&self, ch: char) -> (r: FilterAction) {
        if is_base(ch) {
            FilterAction::Keep
        } else {
            FilterAction::Error(ch)
        }
    }
}

/// Replaces every character outside the base alphabet with the `#INV#` marker.
pub struct SanitizeFilter;

impl FilterStrategy for SanitizeFilter {
    open spec fn spec_filter_char(&self, ch: char) -> Option<Seq<char>> {
        if is_base_char(ch) {
            Some(seq![ch])
        } else {
            Some(inv_marker_text())
        }
    }

    fn handle_char(&self, ch: char) -> (r: FilterAction) {
        if is_base(ch) {
            FilterAction::Keep
        } else {
            let mut s = String::new();
            push_char(&mut s, '#');
            push_char(&mut s, 'I');
            push_char(&mut s, 'N');
            push_char(&mut s, 'V');
            push_char(&mut s, '#');
            assert(s@ =~= inv_marker_text());
            FilterAction::Replace(s)
        }
    }
}

/// Hands every character on unchanged; characters without an index are reported by
/// the encoder itself.
pub struct PassThroughFilter;

impl FilterStrategy for PassThroughFilter {
    open spec fn spec_filter_char(&self, ch: char) -> Option<Seq<char>> {
        Some(seq![ch])
    }

    fn handle_char(&self, ch: char) -> (r: FilterAction) {
        FilterAction::Keep
    }
}

/// Drops every character outside the base alphabet.
pub struct StripFilter;

impl FilterStrategy for StripFilter {
    open spec fn spec_filter_char(&self, ch: char) -> Option<Seq<char>> {
        if is_base_char(ch) {
            Some(seq![ch])
        } else {
            Some(Seq::empty())
        }
    }

    fn handle_char(&self, ch: char) -> (r: FilterAction) {
        if is_base(ch) {
            FilterAction::Keep
        } else {
            FilterAction::Skip
        }
    }
}

/// Indices 0..=99 only: marker syntax in the text is ordinary text.
pub struct CoreStrategy<F: FilterStrategy> {
    pub filter: F,
}

impl<F: FilterStrategy> EncodingStrategy for CoreStrategy<F> {
    open spec fn spec_preprocess(&self, input: Seq<char>) -> Result<Seq<char>, Asc100Error> {
        filtered(&self.filter, input)
    }

    open spec fn spec_postprocess(&self, output: Seq<char>) -> Seq<char> {
        output
    }

    open spec fn spec_supports(&self, index: u8) -> bool {
        index < 100
    }

    fn preprocess(&self, input: &str) -> (r: Result<String, Asc100Error>) {
        filter_input(&self.filter, input)
    }

    fn postprocess(&self, output: &str) -> (r: String) {
        String::from_str(output)
    }

    fn supports_index(&self, index: u8) -> (r: bool) {
        index < 100
    }
}

/// The full index range 0..=127, with markers recognised.
pub struct ExtensionsStrategy<F: FilterStrategy> {
    pub filter: F,
}

impl<F: FilterStrategy> EncodingStrategy for ExtensionsStrategy<F> {
    open spec fn spec_preprocess(&self, input: Seq<char>) -> Result<Seq<char>, Asc100Error> {
        filtered(&self.filter, input)
    }

    open spec fn spec_postprocess(&self, output: Seq<char>) -> Seq<char> {
        output
    }

    open spec fn spec_supports(&self, index: u8) -> bool {
        index <= 127
    }

    fn preprocess(&self, input: &str) -> (r: Result<String, Asc100Error>) {
        filter_input(&self.filter, input)
    }

    fn postprocess(&self, output: &str) -> (r: String) {
        String::from_str(output)
    }

    fn supports_index(&self, index: u8) -> (r: bool) {
        index <= 127
    }
}

impl CoreStrategy<StrictFilter> {
    pub fn strict() -> (r: Self)
        ensures
            r == (CoreStrategy { filter: StrictFilter }),
    {
        CoreStrategy { filter: StrictFilter }
    }
}

impl CoreStrategy<SanitizeFilter> {
    pub fn sanitize() -> (r: Self)
        ensures
            r == (CoreStrategy { filter: SanitizeFilter }),
    {
        CoreStrategy { filter: SanitizeFilter }
    }
}

impl CoreStrategy<StripFilter> {
    pub fn strip() -> (r: Self)
        ensures
            r == (CoreStrategy { filter: StripFilter }),
    {
        CoreStrategy { filter: StripFilter }
    }
}

impl ExtensionsStrategy<StrictFilter> {
    pub fn strict() -> (r: Self)
        ensures
            r == (ExtensionsStrategy { filter: StrictFilter }),
    {
        ExtensionsStrategy { filter: StrictFilter }
    }
}

impl ExtensionsStrategy<SanitizeFilter> {
    pub fn sanitize() -> (r: Self)
        ensures
            r == (ExtensionsStrategy { filter: SanitizeFilter }),
    {
        ExtensionsStrategy { filter: SanitizeFilter }
    }
}

impl ExtensionsStrategy<PassThroughFilter> {
    pub fn pass_through() -> (r: Self)
        ensures
            r == (ExtensionsStrategy { filter: PassThroughFilter }),
    {
        ExtensionsStrategy { filter: PassThroughFilter }
    }
}

impl ExtensionsStrategy<StripFilter> {
    pub fn strip() -> (r: Self)
        ensures
            r == (ExtensionsStrategy { filter: StripFilter }),
    {
        ExtensionsStrategy { filter: StripFilter }
    }
}

} // verus!
