use vstd::prelude::*;

use crate::charset::lookup_spec;
use crate::codec::{decode_spec, decode_with_strategy, encode_spec, encode_with_strategy};
use crate::error::Asc100Error;
use crate::stream::{
    ends_with, ends_with_chars, join_tokens, lemma_map_tokens_prefix_err, lemma_map_tokens_step,
    map_stream, map_tokens, split_once, split_once_chars, stream_result, stream_token_list,
    stream_tokens, token_chars, token_separator, token_text, trim_end_all, trim_end_matches,
    with_suffix, StreamError,
};
use crate::strategy::{str_result, CoreStrategy, EncodingStrategy, ExtensionsStrategy, StrictFilter};
use crate::text::{chars_of, same_chars, str_eq, string_of};
use crate::versions::{v1_charset_spec, v1_standard};
use vstd::string::StringSliceAdditionalSpecFns;

verus! {

/// What a transformer does with each `key=value` token.
#[derive(Debug, Clone, Copy, PartialEq, Eq, Structural)]
pub enum TransformMode {
    /// Encode the value and mark the key with `:asc`.
    EncodeKeyMarked,
    /// Encode the value and mark it with `:a`.
    EncodeValueMarked,
    /// Decode marked tokens, leave the others.
    Decode,
    /// Decode marked tokens, encode the others with a `:asc` key.
    Bidirectional,
}

/// Encodes or decodes the values of token streams with the standard version.
pub struct Asc100Transformer<S: EncodingStrategy> {
    pub strategy: S,
    pub mode: TransformMode,
}

/// `:asc`, the mark of an encoded token's key.
pub open spec fn key_mark() -> Seq<char> {
    seq![':', 'a', 's', 'c']
}

/// `:a`, the mark of an encoded value.
pub open spec fn value_mark() -> Seq<char> {
    seq![':', 'a']
}

/// The lookup table of the standard version.
pub open spec fn v1_lookup() -> Seq<u8> {
    lookup_spec(v1_charset_spec())
}

/// A token counts as encoded when its key or its value carries the mark.
pub open spec fn marked(key: Seq<char>, value: Seq<char>) -> bool {
    ends_with(key, key_mark()) || ends_with(value, value_mark())
}

/// A pair result seen through the views of its texts.
pub open spec fn pair_result<E>(r: Result<(String, String), E>) -> Result<(Seq<char>, Seq<char>), E> {
    match r {
        Ok(p) => Ok((p.0@, p.1@)),
        Err(e) => Err(e),
    }
}

/// Decoding a marked token: marks removed from the key, the value decoded.
pub open spec fn try_decode_spec<S: EncodingStrategy>(st: &S, key: Seq<char>, value: Seq<char>) -> Result<
    (Seq<char>, Seq<char>),
    Asc100Error,
> {
    if !marked(key, value) {
        Ok((key, value))
    } else {
        match decode_spec(st, trim_end_all(value, value_mark()), v1_charset_spec()) {
            Ok(d) => Ok((trim_end_all(key, key_mark()), d)),
            Err(e) => Err(e),
        }
    }
}

/// Encoding a token's value with the key marked.
pub open spec fn encode_key_marked<S: EncodingStrategy>(st: &S, key: Seq<char>, value: Seq<char>) -> Result<
    (Seq<char>, Seq<char>),
    Asc100Error,
> {
    match encode_spec(st, value, v1_lookup()) {
        Ok(e) => Ok((key + key_mark(), e)),
        Err(x) => Err(x),
    }
}

/// What a transformer makes of one token.
pub open spec fn transform_value_spec<S: EncodingStrategy>(
    t: &Asc100Transformer<S>,
    key: Seq<char>,
    value: Seq<char>,
) -> Result<(Seq<char>, Seq<char>), Asc100Error> {
    match t.mode {
        TransformMode::EncodeKeyMarked => encode_key_marked(&t.strategy, key, value),
        TransformMode::EncodeValueMarked => match encode_spec(&t.strategy, value, v1_lookup()) {
            Ok(e) => Ok((key, e + value_mark())),
            Err(x) => Err(x),
        },
        TransformMode::Decode => try_decode_spec(&t.strategy, key, value),
        TransformMode::Bidirectional => if marked(key, value) {
            try_decode_spec(&t.strategy, key, value)
        } else {
            encode_key_marked(&t.strategy, key, value)
        },
    }
}

/// What a transformer makes of one stream token.
pub open spec fn transform_token<S: EncodingStrategy>(t: &Asc100Transformer<S>, tok: Seq<char>) -> Result<
    Seq<char>,
    StreamError,
> {
    match split_once(tok, '=') {
        None => Err(StreamError::MissingEquals),
        Some(kv) => match transform_value_spec(t, kv.0, kv.1) {
            Err(e) => Err(StreamError::Codec(e)),
            Ok(p) => Ok(token_text(p.0, p.1)),
        },
    }
}

/// The key without its namespace: the part after the first `:`, if any.
pub open spec fn bare_key(key: Seq<char>) -> Seq<char> {
    match split_once(key, ':') {
        Some(p) => p.1,
        None => key,
    }
}

/// What a selective transformation makes of one stream token.
pub open spec fn selective_token<S: EncodingStrategy>(
    t: &Asc100Transformer<S>,
    keys: Seq<Seq<char>>,
    tok: Seq<char>,
) -> Result<Seq<char>, StreamError> {
    match split_once(tok, '=') {
        None => Err(StreamError::MissingEquals),
        Some(kv) => if keys.contains(bare_key(kv.0)) {
            transform_token(t, tok)
        } else {
            Ok(tok)
        },
    }
}

impl Asc100Transformer<CoreStrategy<StrictFilter>> {
    /// A transformer with the Core strategy.
    pub fn core_strict(mode: TransformMode) -> (r: Self)
        ensures
            r.mode == mode,
            r.strategy == (CoreStrategy { filter: StrictFilter }),
    {
        Asc100Transformer { strategy: CoreStrategy::strict(), mode }
    }
}

impl Asc100Transformer<ExtensionsStrategy<StrictFilter>> {
    /// A transformer with the Extensions strategy.
    pub fn extensions(mode: TransformMode) -> (r: Self)
        ensures
            r.mode == mode,
            r.strategy == (ExtensionsStrategy { filter: StrictFilter }),
    {
        Asc100Transformer { strategy: ExtensionsStrategy::strict(), mode }
    }
}

impl<S: EncodingStrategy> Asc100Transformer<S> {
    /// Transforms one token according to the mode.
    pub fn transform_value(&self, key: &str, value: &str) -> (r: Result<(String, String), Asc100Error>)
        ensures
            pair_result(r) == transform_value_spec(self, key@, value@),
    {
        match self.mode {
            TransformMode::EncodeKeyMarked => self.encode_key_marked(key, value),
            TransformMode::EncodeValueMarked => {
                let encoded = match self.encode_value(value) {
                    Ok(e) => e,
                    Err(x) => return Err(x),
                };
                let v = with_suffix(chars_of(encoded.as_str()).as_slice(), &[':', 'a']);
                assert([':', 'a']@ =~= value_mark());
                Ok((string_of(chars_of(key).as_slice()), string_of(v.as_slice())))
            },
            TransformMode::Decode => self.try_decode_value(key, value),
            TransformMode::Bidirectional => {
                if self.is_encoded(key, value) {
                    self.try_decode_value(key, value)
                } else {
                    self.encode_key_marked(key, value)
                }
            },
        }
    }

    fn encode_key_marked(&self, key: &str, value: &str) -> (r: Result<(String, String), Asc100Error>)
        ensures
            pair_result(r) == encode_key_marked(&self.strategy, key@, value@),
    {
        let encoded = match self.encode_value(value) {
            Ok(e) => e,
            Err(x) => return Err(x),
        };
        let k = with_suffix(chars_of(key).as_slice(), &[':', 'a', 's', 'c']);
        assert([':', 'a', 's', 'c']@ =~= key_mark());
        Ok((string_of(k.as_slice()), encoded))
    }

    /// Encodes a value with the standard version.
    fn encode_value(&self, value: &str) -> (r: Result<String, Asc100Error>)
        ensures
            str_result(r) == encode_spec(&self.strategy, value@, v1_lookup()),
    {
        let v1 = v1_standard();
        encode_with_strategy(value, &v1.charset, &v1.lookup, &self.strategy)
    }

    /// Decodes a marked token; an unmarked one is handed back as it is.
    fn try_decode_value(&self, key: &str, value: &str) -> (r: Result<(String, String), Asc100Error>)
        ensures
            pair_result(r) == try_decode_spec(&self.strategy, key@, value@),
    {
        if !self.is_encoded(key, value) {
            return Ok((string_of(chars_of(key).as_slice()), string_of(chars_of(value).as_slice())));
        }
        let (clean_key, clean_value) = self.extract_encoded_parts(key, value);
        let v1 = v1_standard();
        let decoded = match decode_with_strategy(clean_value.as_str(), &v1.charset, &self.strategy) {
            Ok(d) => d,
            Err(e) => return Err(e),
        };
        Ok((clean_key, decoded))
    }

    /// Whether the key carries `:asc` or the value `:a`.
    fn is_encoded(&self, key: &str, value: &str) -> (r: bool)
        ensures
            r == marked(key@, value@),
    {
        let k = chars_of(key);
        let v = chars_of(value);
        assert([':', 'a', 's', 'c']@ =~= key_mark());
        assert([':', 'a']@ =~= value_mark());
        ends_with_chars(k.as_slice(), &[':', 'a', 's', 'c']) || ends_with_chars(v.as_slice(), &[':', 'a'])
    }

    /// The key and value with their marks removed.
    fn extract_encoded_parts(&self, key: &str, value: &str) -> (r: (String, String))
        ensures
            r.0@ == trim_end_all(key@, key_mark()),
            r.1@ == trim_end_all(value@, value_mark()),
    {
        let k = chars_of(key);
        let v = chars_of(value);
        assert([':', 'a', 's', 'c']@ =~= key_mark());
        assert([':', 'a']@ =~= value_mark());
        let ck = trim_end_matches(k.as_slice(), &[':', 'a', 's', 'c']);
        let cv = trim_end_matches(v.as_slice(), &[':', 'a']);
        (string_of(ck.as_slice()), string_of(cv.as_slice()))
    }
}

/// Rewrites one stream token with a transformer.
fn transform_one<S: EncodingStrategy>(tok: &Vec<char>, transformer: &Asc100Transformer<S>) -> (r: Result<
    Vec<char>,
    StreamError,
>)
    ensures
        match r {
            Ok(v) => transform_token(transformer, tok@) == Ok::<Seq<char>, StreamError>(v@),
            Err(e) => transform_token(transformer, tok@) == Err::<Seq<char>, StreamError>(e),
        },
{
    let (key, value) = match split_once_chars(tok.as_slice(), '=') {
        Some(p) => p,
        None => return Err(StreamError::MissingEquals),
    };
    let k = string_of(key.as_slice());
    let v = string_of(value.as_slice());
    let (k2, v2) = match transformer.transform_value(k.as_str(), v.as_str()) {
        Ok(p) => p,
        Err(e) => return Err(StreamError::Codec(e)),
    };
    Ok(token_chars(chars_of(k2.as_str()).as_slice(), chars_of(v2.as_str()).as_slice()))
}

/// Transforms every token of a `key=value; ...` stream.
pub fn transform_stream<S: EncodingStrategy>(input: &str, transformer: &Asc100Transformer<S>) -> (r: Result<
    String,
    StreamError,
>)
    ensures
        stream_result(r) == map_stream(input@, |tok: Seq<char>| transform_token(transformer, tok)),
{
    let ghost op = |tok: Seq<char>| transform_token(transformer, tok);
    let chars = chars_of(input);
    let toks = stream_token_list(chars.as_slice());
    let ghost tv = toks@.map_values(|v: Vec<char>| v@);
    let mut out: Vec<Vec<char>> = Vec::new();
    let mut i: usize = 0;
    assert(tv.take(0) =~= Seq::<Seq<char>>::empty());
    assert(out@.map_values(|v: Vec<char>| v@) =~= Seq::<Seq<char>>::empty());
    while i < toks.len()
        invariant
            tv == toks@.map_values(|v: Vec<char>| v@),
            tv == stream_tokens(input@),
            op == (|tok: Seq<char>| transform_token(transformer, tok)),
            i <= tv.len(),
            map_tokens(tv.take(i as int), op) == Ok::<Seq<Seq<char>>, StreamError>(out@.map_values(|v: Vec<char>| v@)),
        decreases tv.len() - i,
    {
        proof {
            lemma_map_tokens_step(tv, i as int, op);
        }
        let ghost before = out@.map_values(|v: Vec<char>| v@);
        match transform_one(&toks[i], transformer) {
            Ok(t) => {
                let ghost tval = t@;
                assert(tv[i as int] == toks@[i as int]@);
                assert(op(tv[i as int]) == Ok::<Seq<char>, StreamError>(tval));
                out.push(t);
                assert(out@.map_values(|v: Vec<char>| v@) =~= before.push(tval));
            },
            Err(e) => {
                proof {
                    lemma_map_tokens_prefix_err(tv, i + 1, op);
                }
                return Err(e);
            },
        }
        i += 1;
    }
    assert(tv.take(i as int) =~= tv);
    Ok(string_of(join_tokens(&out).as_slice()))
}


/// Whether the key list holds `key`.
fn filter_contains(key_filter: &[&str], key: &[char]) -> (r: bool)
    ensures
        r == key_filter@.map_values(|k: &str| k@).contains(key@),
{
    let ghost keys = key_filter@.map_values(|k: &str| k@);
    let mut j: usize = 0;
    while j < key_filter.len()
        invariant
            keys == key_filter@.map_values(|k: &str| k@),
            j <= keys.len(),
            forall|m: int| 0 <= m < j ==> keys[m] != key@,
        decreases keys.len() - j,
    {
        let candidate = chars_of(key_filter[j]);
        if same_chars(candidate.as_slice(), key) {
            assert(keys[j as int] == key@);
            return true;
        }
        j += 1;
    }
    false
}

/// Rewrites one stream token when its bare key is listed, keeps it otherwise.
fn selective_one<S: EncodingStrategy>(
    tok: &Vec<char>,
    transformer: &Asc100Transformer<S>,
    key_filter: &[&str],
) -> (r: Result<Vec<char>, StreamError>)
    ensures
        match r {
            Ok(v) => selective_token(transformer, key_filter@.map_values(|k: &str| k@), tok@)
                == Ok::<Seq<char>, StreamError>(v@),
            Err(e) => selective_token(transformer, key_filter@.map_values(|k: &str| k@), tok@)
                == Err::<Seq<char>, StreamError>(e),
        },
{
    let (key, _value) = match split_once_chars(tok.as_slice(), '=') {
        Some(p) => p,
        None => return Err(StreamError::MissingEquals),
    };
    let bare = match split_once_chars(key.as_slice(), ':') {
        Some(p) => p.1,
        None => key,
    };
    if filter_contains(key_filter, bare.as_slice()) {
        transform_one(tok, transformer)
    } else {
        let mut copy: Vec<char> = Vec::new();
        let mut i: usize = 0;
        while i < tok.len()
            invariant
                i <= tok@.len(),
                copy@ == tok@.take(i as int),
            decreases tok@.len() - i,
        {
            copy.push(tok[i]);
            i += 1;
            assert(copy@ =~= tok@.take(i as int));
        }
        assert(tok@.take(i as int) =~= tok@);
        Ok(copy)
    }
}

/// Transforms only the tokens whose key, without its namespace, is listed.
pub fn transform_selective<S: EncodingStrategy>(
    input: &str,
    transformer: &Asc100Transformer<S>,
    key_filter: &[&str],
) -> (r: Result<String, StreamError>)
    ensures
        stream_result(r) == map_stream(
            input@,
            |tok: Seq<char>| selective_token(transformer, key_filter@.map_values(|k: &str| k@), tok),
        ),
{
    let ghost keys = key_filter@.map_values(|k: &str| k@);
    let ghost op = |tok: Seq<char>| selective_token(transformer, keys, tok);
    let chars = chars_of(input);
    let toks = stream_token_list(chars.as_slice());
    let ghost tv = toks@.map_values(|v: Vec<char>| v@);
    let mut out: Vec<Vec<char>> = Vec::new();
    let mut i: usize = 0;
    assert(tv.take(0) =~= Seq::<Seq<char>>::empty());
    assert(out@.map_values(|v: Vec<char>| v@) =~= Seq::<Seq<char>>::empty());
    while i < toks.len()
        invariant
            keys == key_filter@.map_values(|k: &str| k@),
            tv == toks@.map_values(|v: Vec<char>| v@),
            tv == stream_tokens(input@),
            op == (|tok: Seq<char>| selective_token(transformer, keys, tok)),
            i <= tv.len(),
            map_tokens(tv.take(i as int), op) == Ok::<Seq<Seq<char>>, StreamError>(out@.map_values(|v: Vec<char>| v@)),
        decreases tv.len() - i,
    {
        proof {
            lemma_map_tokens_step(tv, i as int, op);
        }
        let ghost before = out@.map_values(|v: Vec<char>| v@);
        match selective_one(&toks[i], transformer, key_filter) {
            Ok(t) => {
                let ghost tval = t@;
                assert(tv[i as int] == toks@[i as int]@);
                assert(op(tv[i as int]) == Ok::<Seq<char>, StreamError>(tval));
                out.push(t);
                assert(out@.map_values(|v: Vec<char>| v@) =~= before.push(tval));
            },
            Err(e) => {
                proof {
                    lemma_map_tokens_prefix_err(tv, i + 1, op);
                }
                return Err(e);
            },
        }
        i += 1;
    }
    assert(tv.take(i as int) =~= tv);
    Ok(string_of(join_tokens(&out).as_slice()))
}

/// Transforms a stream, then hands the result to `next_operation`.
pub fn chain_transform<S: EncodingStrategy, F: Fn(&str) -> Result<String, StreamError>>(
    input: &str,
    asc100_transformer: &Asc100Transformer<S>,
    next_operation: F,
) -> (r: Result<String, StreamError>)
    requires
        forall|s: &str| next_operation.requires((s,)),
    ensures
        match map_stream(input@, |tok: Seq<char>| transform_token(asc100_transformer, tok)) {
            Err(e) => r == Err::<String, StreamError>(e),
            Ok(t) => exists|s: &str| s@ == t && next_operation.ensures((s,), r),
        },
{
    let intermediate = match transform_stream(input, asc100_transformer) {
        Ok(s) => s,
        Err(e) => return Err(e),
    };
    next_operation(intermediate.as_str())
}

/// Transforms the stream only when it is at least `min_size` bytes long.
pub fn compression_gate<S: EncodingStrategy>(
    input: &str,
    transformer: &Asc100Transformer<S>,
    min_size: usize,
) -> (r: Result<String, StreamError>)
    ensures
        stream_result(r) == if input.spec_bytes().len() as usize >= min_size {
            map_stream(input@, |tok: Seq<char>| transform_token(transformer, tok))
        } else {
            Ok(input@)
        },
{
    if input.len() >= min_size {
        transform_stream(input, transformer)
    } else {
        Ok(string_of(chars_of(input).as_slice()))
    }
}

/// The stream as it is, beside its transformation.
pub fn fork_encode<S: EncodingStrategy>(input: &str, transformer: &Asc100Transformer<S>) -> (r: Result<
    (String, String),
    StreamError,
>)
    ensures
        match map_stream(input@, |tok: Seq<char>| transform_token(transformer, tok)) {
            Err(e) => r == Err::<(String, String), StreamError>(e),
            Ok(t) => pair_result(r) == Ok::<(Seq<char>, Seq<char>), StreamError>((input@, t)),
        },
{
    let encoded = match transform_stream(input, transformer) {
        Ok(s) => s,
        Err(e) => return Err(e),
    };
    Ok((string_of(chars_of(input).as_slice()), encoded))
}

/// One of two streams, the encoded one when `prefer_encoded`.
pub fn merge_streams(encoded_stream: &str, decoded_stream: &str, prefer_encoded: bool) -> (r: Result<
    String,
    StreamError,
>)
    ensures
        stream_result(r) == Ok::<Seq<char>, StreamError>(
            if prefer_encoded {
                encoded_stream@
            } else {
                decoded_stream@
            },
        ),
{
    if prefer_encoded {
        Ok(string_of(chars_of(encoded_stream).as_slice()))
    } else {
        Ok(string_of(chars_of(decoded_stream).as_slice()))
    }
}

/// Encodes values and marks keys with `:asc`.
pub fn encoder_key() -> (r: Asc100Transformer<CoreStrategy<StrictFilter>>)
    ensures
        r.mode == TransformMode::EncodeKeyMarked,
        r.strategy == (CoreStrategy { filter: StrictFilter }),
{
    Asc100Transformer::core_strict(TransformMode::EncodeKeyMarked)
}

/// Encodes values and marks them with `:a`.
pub fn encoder_value() -> (r: Asc100Transformer<CoreStrategy<StrictFilter>>)
    ensures
        r.mode == TransformMode::EncodeValueMarked,
        r.strategy == (CoreStrategy { filter: StrictFilter }),
{
    Asc100Transformer::core_strict(TransformMode::EncodeValueMarked)
}

/// Decodes marked tokens.
pub fn decoder() -> (r: Asc100Transformer<CoreStrategy<StrictFilter>>)
    ensures
        r.mode == TransformMode::Decode,
        r.strategy == (CoreStrategy { filter: StrictFilter }),
{
    Asc100Transformer::core_strict(TransformMode::Decode)
}

/// Decodes marked tokens and encodes the others.
pub fn bidirectional() -> (r: Asc100Transformer<CoreStrategy<StrictFilter>>)
    ensures
        r.mode == TransformMode::Bidirectional,
        r.strategy == (CoreStrategy { filter: StrictFilter }),
{
    Asc100Transformer::core_strict(TransformMode::Bidirectional)
}

/// Encodes values with markers recognised, marking keys with `:asc`.
pub fn extensions_encoder() -> (r: Asc100Transformer<ExtensionsStrategy<StrictFilter>>)
    ensures
        r.mode == TransformMode::EncodeKeyMarked,
        r.strategy == (ExtensionsStrategy { filter: StrictFilter }),
{
    Asc100Transformer::extensions(TransformMode::EncodeKeyMarked)
}

/// Decodes marked tokens with markers recognised.
pub fn extensions_decoder() -> (r: Asc100Transformer<ExtensionsStrategy<StrictFilter>>)
    ensures
        r.mode == TransformMode::Decode,
        r.strategy == (ExtensionsStrategy { filter: StrictFilter }),
{
    Asc100Transformer::extensions(TransformMode::Decode)
}

} // verus!
