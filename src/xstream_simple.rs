use vstd::prelude::*;

use crate::codec::{decode_spec, decode_with_strategy, encode_spec, encode_with_strategy};
use crate::error::Asc100Error;
use crate::stream::{
    ends_with, ends_with_chars, join_tokens, lemma_map_tokens_prefix_err, lemma_map_tokens_step,
    map_stream, map_tokens, split_once, split_once_chars, stream_result, stream_token_list,
    stream_tokens, token_chars, token_text, trim_end_all, trim_end_matches, with_suffix,
    StreamError,
};
use crate::strategy::{str_result, CoreStrategy, EncodingStrategy, ExtensionsStrategy, StrictFilter};
use crate::text::{chars_of, string_of};
use crate::versions::{v1_charset_spec, v1_standard};
use crate::xstream_transformer::{pair_result, v1_lookup, value_mark};

verus! {

/// Where an encoded token is marked.
#[derive(Debug, Clone, Copy, PartialEq, Eq, Structural)]
pub enum Asc100Mode {
    /// `_asc` after the key.
    KeySuffix,
    /// `:a` after the value.
    ValueSuffix,
    /// Both marks.
    Both,
}

/// Encodes and decodes token values with the standard version.
pub struct Asc100ValueEncoder<S: EncodingStrategy> {
    pub strategy: S,
    pub mode: Asc100Mode,
}

/// `_asc`, the key mark of this encoder.
pub open spec fn key_suffix() -> Seq<char> {
    seq!['_', 'a', 's', 'c']
}

/// Decoding a value: trailing `:a` marks removed first.
pub open spec fn decode_value_spec<S: EncodingStrategy>(st: &S, encoded: Seq<char>) -> Result<Seq<char>, Asc100Error> {
    decode_spec(st, trim_end_all(encoded, value_mark()), v1_charset_spec())
}

/// Encoding a pair: the value encoded, the marks of the mode added.
pub open spec fn encode_kv_spec<S: EncodingStrategy>(
    enc: &Asc100ValueEncoder<S>,
    key: Seq<char>,
    value: Seq<char>,
) -> Result<(Seq<char>, Seq<char>), Asc100Error> {
    match encode_spec(&enc.strategy, value, v1_lookup()) {
        Err(e) => Err(e),
        Ok(e) => Ok(
            match enc.mode {
                Asc100Mode::KeySuffix => (key + key_suffix(), e),
                Asc100Mode::ValueSuffix => (key, e + value_mark()),
                Asc100Mode::Both => (key + key_suffix(), e + value_mark()),
            },
        ),
    }
}

/// Decoding a pair: an unmarked pair stays; otherwise marks are removed and the
/// value decoded.
pub open spec fn decode_kv_spec<S: EncodingStrategy>(
    enc: &Asc100ValueEncoder<S>,
    key: Seq<char>,
    value: Seq<char>,
) -> Result<(Seq<char>, Seq<char>), Asc100Error> {
    if !ends_with(key, key_suffix()) && !ends_with(value, value_mark()) {
        Ok((key, value))
    } else {
        match decode_value_spec(&enc.strategy, trim_end_all(value, value_mark())) {
            Ok(d) => Ok((trim_end_all(key, key_suffix()), d)),
            Err(e) => Err(e),
        }
    }
}

/// One stream token with its pair encoded.
pub open spec fn encode_token_spec<S: EncodingStrategy>(enc: &Asc100ValueEncoder<S>, tok: Seq<char>) -> Result<
    Seq<char>,
    StreamError,
> {
    match split_once(tok, '=') {
        None => Err(StreamError::MissingEquals),
        Some(kv) => match encode_kv_spec(enc, kv.0, kv.1) {
            Err(e) => Err(StreamError::Codec(e)),
            Ok(p) => Ok(token_text(p.0, p.1)),
        },
    }
}

/// One stream token with its pair decoded.
pub open spec fn decode_token_spec<S: EncodingStrategy>(enc: &Asc100ValueEncoder<S>, tok: Seq<char>) -> Result<
    Seq<char>,
    StreamError,
> {
    match split_once(tok, '=') {
        None => Err(StreamError::MissingEquals),
        Some(kv) => match decode_kv_spec(enc, kv.0, kv.1) {
            Err(e) => Err(StreamError::Codec(e)),
            Ok(p) => Ok(token_text(p.0, p.1)),
        },
    }
}

impl Asc100ValueEncoder<CoreStrategy<StrictFilter>> {
    /// An encoder with the Core strategy.
    pub fn core_strict(mode: Asc100Mode) -> (r: Self)
        ensures
            r.mode == mode,
            r.strategy == (CoreStrategy { filter: StrictFilter }),
    {
        Asc100ValueEncoder { strategy: CoreStrategy::strict(), mode }
    }
}

impl Asc100ValueEncoder<ExtensionsStrategy<StrictFilter>> {
    /// An encoder with the Extensions strategy.
    pub fn extensions(mode: Asc100Mode) -> (r: Self)
        ensures
            r.mode == mode,
            r.strategy == (ExtensionsStrategy { filter: StrictFilter }),
    {
        Asc100ValueEncoder { strategy: ExtensionsStrategy::strict(), mode }
    }
}

impl<S: EncodingStrategy> Asc100ValueEncoder<S> {
    /// Encodes a value with the standard version.
    pub fn encode_value(&self, value: &str) -> (r: Result<String, Asc100Error>)
        ensures
            str_result(r) == encode_spec(&self.strategy, value@, v1_lookup()),
    {
        let v1 = v1_standard();
        encode_with_strategy(value, &v1.charset, &v1.lookup, &self.strategy)
    }

    /// Decodes a value with the standard version, after removing trailing `:a` marks.
    pub fn decode_value(&self, encoded_value: &str) -> (r: Result<String, Asc100Error>)
        ensures
            str_result(r) == decode_value_spec(&self.strategy, encoded_value@),
    {
        assert([':', 'a']@ =~= value_mark());
        let clean = trim_end_matches(chars_of(encoded_value).as_slice(), &[':', 'a']);
        let clean_value = string_of(clean.as_slice());
        let v1 = v1_standard();
        decode_with_strategy(clean_value.as_str(), &v1.charset, &self.strategy)
    }

    /// Encodes the value of a pair and marks the pair as the mode says.
    pub fn encode_kv_pair(&self, key: &str, value: &str) -> (r: Result<(String, String), Asc100Error>)
        ensures
            pair_result(r) == encode_kv_spec(self, key@, value@),
    {
        let encoded = match self.encode_value(value) {
            Ok(e) => e,
            Err(x) => return Err(x),
        };
        assert(['_', 'a', 's', 'c']@ =~= key_suffix());
        assert([':', 'a']@ =~= value_mark());
        let k = chars_of(key);
        let e = chars_of(encoded.as_str());
        match self.mode {
            Asc100Mode::KeySuffix => Ok((string_of(with_suffix(k.as_slice(), &['_', 'a', 's', 'c']).as_slice()), encoded)),
            Asc100Mode::ValueSuffix => Ok((string_of(k.as_slice()), string_of(with_suffix(e.as_slice(), &[':', 'a']).as_slice()))),
            Asc100Mode::Both => Ok((
                string_of(with_suffix(k.as_slice(), &['_', 'a', 's', 'c']).as_slice()),
                string_of(with_suffix(e.as_slice(), &[':', 'a']).as_slice()),
            )),
        }
    }

    /// Decodes a pair that carries a mark; an unmarked pair is handed back as it is.
    pub fn decode_kv_pair(&self, key: &str, value: &str) -> (r: Result<(String, String), Asc100Error>)
        ensures
            pair_result(r) == decode_kv_spec(self, key@, value@),
    {
        assert(['_', 'a', 's', 'c']@ =~= key_suffix());
        assert([':', 'a']@ =~= value_mark());
        let k = chars_of(key);
        let v = chars_of(value);
        let key_encoded = ends_with_chars(k.as_slice(), &['_', 'a', 's', 'c']);
        let value_encoded = ends_with_chars(v.as_slice(), &[':', 'a']);
        if !key_encoded && !value_encoded {
            return Ok((string_of(k.as_slice()), string_of(v.as_slice())));
        }
        let clean_key = trim_end_matches(k.as_slice(), &['_', 'a', 's', 'c']);
        let clean_value = string_of(trim_end_matches(v.as_slice(), &[':', 'a']).as_slice());
        let decoded = match self.decode_value(clean_value.as_str()) {
            Ok(d) => d,
            Err(e) => return Err(e),
        };
        Ok((string_of(clean_key.as_slice()), decoded))
    }
}

fn encode_one<S: EncodingStrategy>(tok: &Vec<char>, encoder: &Asc100ValueEncoder<S>) -> (r: Result<
    Vec<char>,
    StreamError,
>)
    ensures
        match r {
            Ok(v) => encode_token_spec(encoder, tok@) == Ok::<Seq<char>, StreamError>(v@),
            Err(e) => encode_token_spec(encoder, tok@) == Err::<Seq<char>, StreamError>(e),
        },
{
    let (key, value) = match split_once_chars(tok.as_slice(), '=') {
        Some(p) => p,
        None => return Err(StreamError::MissingEquals),
    };
    let k = string_of(key.as_slice());
    let v = string_of(value.as_slice());
    let (k2, v2) = match encoder.encode_kv_pair(k.as_str(), v.as_str()) {
        Ok(p) => p,
        Err(e) => return Err(StreamError::Codec(e)),
    };
    Ok(token_chars(chars_of(k2.as_str()).as_slice(), chars_of(v2.as_str()).as_slice()))
}

fn decode_one<S: EncodingStrategy>(tok: &Vec<char>, encoder: &Asc100ValueEncoder<S>) -> (r: Result<
    Vec<char>,
    StreamError,
>)
    ensures
        match r {
            Ok(v) => decode_token_spec(encoder, tok@) == Ok::<Seq<char>, StreamError>(v@),
            Err(e) => decode_token_spec(encoder, tok@) == Err::<Seq<char>, StreamError>(e),
        },
{
    let (key, value) = match split_once_chars(tok.as_slice(), '=') {
        Some(p) => p,
        None => return Err(StreamError::MissingEquals),
    };
    let k = string_of(key.as_slice());
    let v = string_of(value.as_slice());
    let (k2, v2) = match encoder.decode_kv_pair(k.as_str(), v.as_str()) {
        Ok(p) => p,
        Err(e) => return Err(StreamError::Codec(e)),
    };
    Ok(token_chars(chars_of(k2.as_str()).as_slice(), chars_of(v2.as_str()).as_slice()))
}

/// Encodes the value of every token of a `key=value; ...` stream.
pub fn encode_token_string<S: EncodingStrategy>(input: &str, encoder: &Asc100ValueEncoder<S>) -> (r: Result<
    String,
    StreamError,
>)
    ensures
        stream_result(r) == map_stream(input@, |tok: Seq<char>| encode_token_spec(encoder, tok)),
{
    let ghost op = |tok: Seq<char>| encode_token_spec(encoder, tok);
    let chars = chars_of(input);
    let toks = stream_token_list(chars.as_slice());
    let ghost tv = toks@.map_values(|v: Vec<char>| v@);
    let mut out: Vec<Vec<char>> = Vec::new();
    let mut i: usize = 0;
    assert(tv.take(0) =~= Seq::<Seq<char>>::empty());
    assert(out@.map_values(|v: Vec<char>| v@) =~= Seq::<Seq<char>>::empty());
    while i < toks.len()
        invariant
            tv == toks@.map_values(|v: Vec<char>| v@),
            tv == stream_tokens(input@),
            op == (|tok: Seq<char>| encode_token_spec(encoder, tok)),
            i <= tv.len(),
            map_tokens(tv.take(i as int), op) == Ok::<Seq<Seq<char>>, StreamError>(out@.map_values(|v: Vec<char>| v@)),
        decreases tv.len() - i,
    {
        proof {
            lemma_map_tokens_step(tv, i as int, op);
        }
        let ghost before = out@.map_values(|v: Vec<char>| v@);
        match encode_one(&toks[i], encoder) {
            Ok(t) => {
                let ghost tval = t@;
                assert(tv[i as int] == toks@[i as int]@);
                assert(op(tv[i as int]) == Ok::<Seq<char>, StreamError>(tval));
                out.push(t);
                assert(out@.map_values(|v: Vec<char>| v@) =~= before.push(tval));
            },
            Err(e) => {
                proof {
                    lemma_map_tokens_prefix_err(tv, i + 1, op);
                }
                return Err(e);
            },
        }
        i += 1;
    }
    assert(tv.take(i as int) =~= tv);
    Ok(string_of(join_tokens(&out).as_slice()))
}

/// Decodes the value of every marked token of a `key=value; ...` stream.
pub fn decode_token_string<S: EncodingStrategy>(input: &str, encoder: &Asc100ValueEncoder<S>) -> (r: Result<
    String,
    StreamError,
>)
    ensures
        stream_result(r) == map_stream(input@, |tok: Seq<char>| decode_token_spec(encoder, tok)),
{
    let ghost op = |tok: Seq<char>| decode_token_spec(encoder, tok);
    let chars = chars_of(input);
    let toks = stream_token_list(chars.as_slice());
    let ghost tv = toks@.map_values(|v: Vec<char>| v@);
    let mut out: Vec<Vec<char>> = Vec::new();
    let mut i: usize = 0;
    assert(tv.take(0) =~= Seq::<Seq<char>>::empty());
    assert(out@.map_values(|v: Vec<char>| v@) =~= Seq::<Seq<char>>::empty());
    while i < toks.len()
        invariant
            tv == toks@.map_values(|v: Vec<char>| v@),
            tv == stream_tokens(input@),
            op == (|tok: Seq<char>| decode_token_spec(encoder, tok)),
            i <= tv.len(),
            map_tokens(tv.take(i as int), op) == Ok::<Seq<Seq<char>>, StreamError>(out@.map_values(|v: Vec<char>| v@)),
        decreases tv.len() - i,
    {
        proof {
            lemma_map_tokens_step(tv, i as int, op);
        }
        let ghost before = out@.map_values(|v: Vec<char>| v@);
        match decode_one(&toks[i], encoder) {
            Ok(t) => {
                let ghost tval = t@;
                assert(tv[i as int] == toks@[i as int]@);
                assert(op(tv[i as int]) == Ok::<Seq<char>, StreamError>(tval));
                out.push(t);
                assert(out@.map_values(|v: Vec<char>| v@) =~= before.push(tval));
            },
            Err(e) => {
                proof {
                    lemma_map_tokens_prefix_err(tv, i + 1, op);
                }
                return Err(e);
            },
        }
        i += 1;
    }
    assert(tv.take(i as int) =~= tv);
    Ok(string_of(join_tokens(&out).as_slice()))
}

/// Core strategy, `_asc` after the key.
pub fn core_key() -> (r: Asc100ValueEncoder<CoreStrategy<StrictFilter>>)
    ensures
        r.mode == Asc100Mode::KeySuffix,
        r.strategy == (CoreStrategy { filter: StrictFilter }),
{
    Asc100ValueEncoder::core_strict(Asc100Mode::KeySuffix)
}

/// Core strategy, `:a` after the value.
pub fn core_value() -> (r: Asc100ValueEncoder<CoreStrategy<StrictFilter>>)
    ensures
        r.mode == Asc100Mode::ValueSuffix,
        r.strategy == (CoreStrategy { filter: StrictFilter }),
{
    Asc100ValueEncoder::core_strict(Asc100Mode::ValueSuffix)
}

/// Extensions strategy, `_asc` after the key.
pub fn extensions_key() -> (r: Asc100ValueEncoder<ExtensionsStrategy<StrictFilter>>)
    ensures
        r.mode == Asc100Mode::KeySuffix,
        r.strategy == (ExtensionsStrategy { filter: StrictFilter }),
{
    Asc100ValueEncoder::extensions(Asc100Mode::KeySuffix)
}

/// Extensions strategy, both marks.
pub fn extensions_both() -> (r: Asc100ValueEncoder<ExtensionsStrategy<StrictFilter>>)
    ensures
        r.mode == Asc100Mode::Both,
        r.strategy == (ExtensionsStrategy { filter: StrictFilter }),
{
    Asc100ValueEncoder::extensions(Asc100Mode::Both)
}

/// Content that is encoded when it is used as a token value.
pub struct Asc100Streamable<S: EncodingStrategy> {
    pub content: String,
    pub encoder: Asc100ValueEncoder<S>,
}

impl<S: EncodingStrategy> Asc100Streamable<S> {
    pub fn new(content: String, encoder: Asc100ValueEncoder<S>) -> (r: Self)
        ensures
            r.content == content,
            r.encoder == encoder,
    {
        Asc100Streamable { content, encoder }
    }
}

impl Asc100Streamable<CoreStrategy<StrictFilter>> {
    /// Content with a Core-strategy encoder.
    pub fn core_strict(content: String, mode: Asc100Mode) -> (r: Self)
        ensures
            r.content == content,
            r.encoder.mode == mode,
            r.encoder.strategy == (CoreStrategy { filter: StrictFilter }),
    {
        Asc100Streamable::new(content, Asc100ValueEncoder::core_strict(mode))
    }
}

impl Asc100Streamable<ExtensionsStrategy<StrictFilter>> {
    /// Content with an Extensions-strategy encoder.
    pub fn extensions(content: String, mode: Asc100Mode) -> (r: Self)
        ensures
            r.content == content,
            r.encoder.mode == mode,
            r.encoder.strategy == (ExtensionsStrategy { filter: StrictFilter }),
    {
        Asc100Streamable::new(content, Asc100ValueEncoder::extensions(mode))
    }
}

} // verus!
