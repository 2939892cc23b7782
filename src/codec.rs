use vstd::prelude::*;

use crate::error::{first_where, lemma_first_where_skip, Asc100Error};
use crate::markers::{find_name, marker_table, markers, name_of, table_view};
use crate::packing::{pack, pack_indices, unpack_spec, unpack_symbols};
use crate::strategy::{str_result, EncodingStrategy, ExtensionsStrategy, PassThroughFilter};
use crate::text::{chars_of, push_char};
use crate::tokenizer::{
    literal_tokens, parse_sentinels, sentinel_tokens, sentinels_tokens, tokens, Sentinel, Token,
};

verus! {

/// The 7-bit index of a token: the lookup entry of a character, or the marker code.
pub open spec fn token_index(t: Token, lookup: Seq<u8>) -> u8 {
    match t {
        Token::Ch(c) => lookup[c as u32 as int],
        Token::Mark(code) => code,
    }
}

/// The error a token raises: a character at or above code 128, or one whose lookup
/// entry is no charset index (the table marks absent characters so).
pub open spec fn token_error(t: Token, lookup: Seq<u8>) -> Option<Asc100Error> {
    match t {
        Token::Ch(c) => if c as u32 >= 128 {
            Some(Asc100Error::NonAsciiInput)
        } else if lookup[c as u32 as int] >= 100 {
            Some(Asc100Error::InvalidCharacter(c))
        } else {
            None
        },
        Token::Mark(_) => None,
    }
}

/// The indices of a token sequence, or the error of its first failing token.
pub open spec fn token_indices(toks: Seq<Token>, lookup: Seq<u8>) -> Result<Seq<u8>, Asc100Error> {
    let k = first_where(|i: int| token_error(toks[i], lookup) is Some, 0, toks.len() as int);
    if k < toks.len() {
        Err(token_error(toks[k], lookup)->Some_0)
    } else {
        Ok(toks.map_values(|t: Token| token_index(t, lookup)))
    }
}

/// Encoding under a strategy: filter, tokenize with the marker table (markers count
/// only where the strategy supports their code), resolve each token to an index, pack.
pub open spec fn encode_spec<S: EncodingStrategy>(st: &S, input: Seq<char>, lookup: Seq<u8>) -> Result<
    Seq<char>,
    Asc100Error,
> {
    match st.spec_preprocess(input) {
        Err(e) => Err(e),
        Ok(t) => match token_indices(tokens(t, marker_table(), |c: u8| st.spec_supports(c)), lookup) {
            Err(e) => Err(e),
            Ok(ix) => Ok(pack(ix)),
        },
    }
}

/// The text of one decoded index: the charset character below 100, else the
/// bracketed name of the marker, when the strategy supports the code and it names one.
pub open spec fn index_text<S: EncodingStrategy>(st: &S, charset: Seq<char>, i: u8) -> Result<
    Seq<char>,
    Asc100Error,
> {
    if i < 100 {
        Ok(seq![charset[i as int]])
    } else if !st.spec_supports(i) {
        Err(Asc100Error::InvalidIndex(i))
    } else {
        match find_name(marker_table(), i) {
            Some(n) => Ok(n),
            None => Err(Asc100Error::InvalidIndex(i)),
        }
    }
}

/// The text of a sequence of indices, or the error of the first that has none.
pub open spec fn indices_text<S: EncodingStrategy>(st: &S, charset: Seq<char>, ix: Seq<u8>) -> Result<
    Seq<char>,
    Asc100Error,
> {
    let k = first_where(|m: int| index_text(st, charset, ix[m]) is Err, 0, ix.len() as int);
    if k < ix.len() {
        Err(index_text(st, charset, ix[k])->Err_0)
    } else {
        Ok(ix.map_values(|i: u8| index_text(st, charset, i)->Ok_0).flatten())
    }
}

/// Decoding under a strategy: unpack the indices, render each, post-process.
pub open spec fn decode_spec<S: EncodingStrategy>(st: &S, encoded: Seq<char>, charset: Seq<char>) -> Result<
    Seq<char>,
    Asc100Error,
> {
    match unpack_spec(encoded) {
        Err(e) => Err(e),
        Ok(ix) => match indices_text(st, charset, ix) {
            Err(e) => Err(e),
            Ok(t) => Ok(st.spec_postprocess(t)),
        },
    }
}

proof fn lemma_sentinels_split(xs: Seq<Sentinel>, k: int)
    requires
        0 <= k < xs.len(),
    ensures
        sentinels_tokens(xs.skip(k)) == sentinel_tokens(xs[k]) + sentinels_tokens(xs.skip(k + 1)),
        sentinels_tokens(xs.take(k + 1)) == sentinels_tokens(xs.take(k)) + sentinel_tokens(xs[k]),
{
    let f = |x: Sentinel| sentinel_tokens(x);
    assert(xs.skip(k).map_values(f).drop_first() =~= xs.skip(k + 1).map_values(f));
    assert(xs.skip(k).map_values(f).first() == sentinel_tokens(xs[k]));
    assert(xs.take(k + 1).map_values(f) =~= xs.take(k).map_values(f).push(sentinel_tokens(xs[k])));
    xs.take(k).map_values(f).lemma_flatten_push(sentinel_tokens(xs[k]));
}

/// Resolves tokens to indices through `lookup`, stopping at the first failing token.
fn sentinel_indices(sentinels: &Vec<Sentinel>, lookup: &[u8; 128]) -> (r: Result<Vec<u8>, Asc100Error>)
    ensures
        match r {
            Ok(v) => token_indices(sentinels_tokens(sentinels@), lookup@) == Ok::<Seq<u8>, Asc100Error>(v@),
            Err(e) => token_indices(sentinels_tokens(sentinels@), lookup@) == Err::<Seq<u8>, Asc100Error>(e),
        },
{
    let ghost xs = sentinels@;
    let ghost toks = sentinels_tokens(xs);
    let ghost lk = lookup@;
    let ghost bad = |i: int| token_error(toks[i], lk) is Some;
    let ghost idx_of = |t: Token| token_index(t, lk);
    let mut indices: Vec<u8> = Vec::new();
    let mut k: usize = 0;
    let ghost mut pos: int = 0;
    proof {
        assert(xs.take(0).map_values(|x: Sentinel| sentinel_tokens(x)) =~= Seq::<Seq<Token>>::empty());
        assert(sentinels_tokens(xs.take(0)) =~= Seq::<Token>::empty());
        assert(xs.skip(0) =~= xs);
    }
    while k < sentinels.len()
        invariant
            xs == sentinels@,
            toks == sentinels_tokens(xs),
            lk == lookup@,
            bad == (|i: int| token_error(toks[i], lk) is Some),
            idx_of == (|t: Token| token_index(t, lk)),
            k <= xs.len(),
            toks == sentinels_tokens(xs.take(k as int)) + sentinels_tokens(xs.skip(k as int)),
            pos == sentinels_tokens(xs.take(k as int)).len(),
            forall|j: int| 0 <= j < pos ==> !#[trigger] bad(j),
            indices@ == toks.take(pos).map_values(idx_of),
        decreases xs.len() - k,
    {
        proof {
            lemma_sentinels_split(xs, k as int);
        }
        match &sentinels[k] {
            Sentinel::Text(text) => {
                let mut t: usize = 0;
                while t < text.len()
                    invariant
                        xs == sentinels@,
                        toks == sentinels_tokens(xs),
                        toks == sentinels_tokens(xs.take(k as int)) + literal_tokens(text@)
                            + sentinels_tokens(xs.skip(k + 1)),
                        pos == sentinels_tokens(xs.take(k as int)).len(),
                        lk == lookup@,
                        bad == (|i: int| token_error(toks[i], lk) is Some),
                        idx_of == (|t: Token| token_index(t, lk)),
                        t <= text@.len(),
                        forall|j: int| 0 <= j < pos + t ==> !#[trigger] bad(j),
                        indices@ == toks.take(pos + t).map_values(idx_of),
                    decreases text@.len() - t,
                {
                    let ch = text[t];
                    assert(toks[pos + t] == Token::Ch(ch));
                    let ascii = ch as u32;
                    assert(pos + t < toks.len());
                    if ascii >= 128 {
                        proof {
                            assert(bad(pos + t));
                            lemma_first_where_skip(bad, 0, pos + t, toks.len() as int);
                        }
                        return Err(Asc100Error::NonAsciiInput);
                    }
                    let index = lookup[ascii as usize];
                    if index >= 100 {
                        proof {
                            assert(bad(pos + t));
                            lemma_first_where_skip(bad, 0, pos + t, toks.len() as int);
                        }
                        return Err(Asc100Error::InvalidCharacter(ch));
                    }
                    indices.push(index);
                    t += 1;
                    assert(indices@ =~= toks.take(pos + t).map_values(idx_of));
                }
                proof {
                    pos = pos + text@.len();
                }
            },
            Sentinel::Marker(code) => {
                assert(toks[pos] == Token::Mark(*code));
                indices.push(*code);
                proof {
                    pos = pos + 1;
                }
                assert(indices@ =~= toks.take(pos).map_values(idx_of));
            },
        }
        k += 1;
    }
    proof {
        assert(xs.take(xs.len() as int) =~= xs);
        assert(xs.skip(xs.len() as int).map_values(|x: Sentinel| sentinel_tokens(x)) =~= Seq::<Seq<Token>>::empty());
        assert(toks.take(pos) =~= toks);
        lemma_first_where_skip(bad, 0, toks.len() as int, toks.len() as int);
    }
    Ok(indices)
}

/// Encodes `input` under `strategy`, resolving characters through `lookup`.
pub fn encode_with_strategy<S: EncodingStrategy>(
    input: &str,
    _charset: &[char; 100],
    lookup: &[u8; 128],
    strategy: &S,
) -> (r: Result<String, Asc100Error>)
    ensures
        str_result(r) == encode_spec(strategy, input@, lookup@),
{
    let filtered_input = match strategy.preprocess(input) {
        Ok(s) => s,
        Err(e) => return Err(e),
    };
    let chars = chars_of(filtered_input.as_str());
    let table = markers();
    let sentinels = parse_sentinels(chars.as_slice(), &table, strategy);
    let indices = match sentinel_indices(&sentinels, lookup) {
        Ok(v) => v,
        Err(e) => return Err(e),
    };
    Ok(pack_indices(indices.as_slice()))
}

/// Decodes `encoded` under `strategy`, rendering indices through `charset`.
pub fn decode_with_strategy<S: EncodingStrategy>(
    encoded: &str,
    charset: &[char; 100],
    strategy: &S,
) -> (r: Result<String, Asc100Error>)
    ensures
        str_result(r) == decode_spec(strategy, encoded@, charset@),
{
    let chars = chars_of(encoded);
    let indices = match unpack_symbols(chars.as_slice()) {
        Ok(v) => v,
        Err(e) => return Err(e),
    };
    let table = markers();
    let ghost ix = indices@;
    let ghost cs = charset@;
    let ghost bad = |m: int| index_text(strategy, cs, ix[m]) is Err;
    let ghost text_of = |i: u8| index_text(strategy, cs, i)->Ok_0;
    let mut result = String::new();
    let mut m: usize = 0;
    proof {
        assert(ix.take(0).map_values(text_of) =~= Seq::<Seq<char>>::empty());
        assert(ix.take(0).map_values(text_of).flatten() =~= Seq::<char>::empty());
    }
    while m < indices.len()
        invariant
            ix == indices@,
            unpack_spec(encoded@) == Ok::<Seq<u8>, Asc100Error>(ix),
            cs == charset@,
            table_view(table@) == marker_table(),
            bad == (|m: int| index_text(strategy, cs, ix[m]) is Err),
            text_of == (|i: u8| index_text(strategy, cs, i)->Ok_0),
            m <= ix.len(),
            forall|j: int| 0 <= j < m ==> !#[trigger] bad(j),
            result@ == ix.take(m as int).map_values(text_of).flatten(),
        decreases ix.len() - m,
    {
        let index = indices[m];
        let ghost prev = result@;
        proof {
            assert(ix.take(m + 1).map_values(text_of) =~= ix.take(m as int).map_values(text_of).push(text_of(index)));
            ix.take(m as int).map_values(text_of).lemma_flatten_push(text_of(index));
        }
        if index >= 100 {
            if !strategy.supports_index(index) {
                proof {
                    assert(bad(m as int));
                    lemma_first_where_skip(bad, 0, m as int, ix.len() as int);
                }
                return Err(Asc100Error::InvalidIndex(index));
            }
            match name_of(&table, index) {
                Some(name) => {
                    let mut t: usize = 0;
                    while t < name.len()
                        invariant
                            t <= name@.len(),
                            result@ == prev + name@.take(t as int),
                        decreases name@.len() - t,
                    {
                        push_char(&mut result, name[t]);
                        t += 1;
                        assert(result@ =~= prev + name@.take(t as int));
                    }
                    assert(name@.take(name@.len() as int) =~= name@);
                },
                None => {
                    proof {
                        assert(bad(m as int));
                        lemma_first_where_skip(bad, 0, m as int, ix.len() as int);
                    }
                    return Err(Asc100Error::InvalidIndex(index));
                },
            }
        } else {
            push_char(&mut result, charset[index as usize]);
            assert(result@ =~= prev + seq![charset@[index as int]]);
        }
        m += 1;
    }
    proof {
        assert(ix.take(ix.len() as int) =~= ix);
        lemma_first_where_skip(bad, 0, ix.len() as int, ix.len() as int);
    }
    Ok(strategy.postprocess(result.as_str()))
}

/// Encodes with markers recognised and no filtering: a character at or above code 128
/// is non-ASCII input, one below it without a charset entry an invalid character.
pub fn encode(input: &str, charset: &[char; 100], lookup: &[u8; 128]) -> (r: Result<String, Asc100Error>)
    ensures
        str_result(r) == encode_spec(&ExtensionsStrategy { filter: PassThroughFilter }, input@, lookup@),
{
    encode_with_strategy(input, charset, lookup, &ExtensionsStrategy::pass_through())
}

/// Decodes with marker codes rendered as their bracketed names.
pub fn decode(encoded: &str, charset: &[char; 100]) -> (r: Result<String, Asc100Error>)
    ensures
        str_result(r) == decode_spec(&ExtensionsStrategy { filter: PassThroughFilter }, encoded@, charset@),
{
    decode_with_strategy(encoded, charset, &ExtensionsStrategy::pass_through())
}

} // verus!
