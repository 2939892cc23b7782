use vstd::prelude::*;

use crate::charset::{is_base_char, is_charset, lemma_lookup_inverse, lookup_spec};
use crate::codec::{
    decode_spec, encode_spec, index_text, indices_text, token_error, token_index, token_indices,
};
use crate::error::{first_where, lemma_first_where_skip, Asc100Error};
use crate::markers::{find_code, find_name, lemma_find_code_in, lemma_find_code_name, marker_table};
use crate::packing::{
    b64_char, char_b64_value, first_bad_symbol, lemma_b64_inverse, lemma_unpack_pack, pack,
    pack_values, packed_len, unpack_spec,
};
use crate::strategy::{
    filtered, inv_marker_text, CoreStrategy, EncodingStrategy, ExtensionsStrategy, FilterStrategy,
    SanitizeFilter, StrictFilter, StripFilter,
};
use crate::tokenizer::{
    cand_end, char_token, lemma_cand_end, literal_tokens, tokens, tokens_from, Token,
};
use crate::charset::{lemma_base_charset_is_charset, lemma_swap_keeps_charset, lemma_swap_ranges_keeps_charset, base_charset_spec};
use crate::versions::{
    v1_charset_spec, v2_charset_spec, v3_charset_spec, v4_charset_spec, Asc100Version,
};

verus! {

/// Every character of `s` is in the base alphabet.
pub open spec fn all_base(s: Seq<char>) -> bool {
    forall|i: int| 0 <= i < s.len() ==> is_base_char(#[trigger] s[i])
}

/// The text a token stands for.
pub open spec fn token_text(t: Token) -> Seq<char> {
    match t {
        Token::Ch(c) => seq![c],
        Token::Mark(code) => match find_name(marker_table(), code) {
            Some(n) => n,
            None => Seq::empty(),
        },
    }
}

/// The text a token sequence stands for.
pub open spec fn render(toks: Seq<Token>) -> Seq<char> {
    toks.map_values(|t: Token| token_text(t)).flatten()
}

/// A token that encodes and decodes cleanly: a base character, or a named marker whose
/// code lies in 100..=118 and is supported.
pub open spec fn token_good(t: Token, supports: spec_fn(u8) -> bool) -> bool {
    match t {
        Token::Ch(c) => is_base_char(c),
        Token::Mark(code) => supports(code) && 100 <= code <= 118 && find_name(marker_table(), code) is Some,
    }
}

/// The marker codes are 100, 101, ... in table order.
pub proof fn lemma_marker_table_codes()
    ensures
        marker_table().len() == 19,
        forall|i: int| 0 <= i < 19 ==> #[trigger] marker_table()[i].1 == 100 + i,
{
    let t = marker_table();
    assert(t[0].1 == 100);
    assert(t[1].1 == 101);
    assert(t[2].1 == 102);
    assert(t[3].1 == 103);
    assert(t[4].1 == 104);
    assert(t[5].1 == 105);
    assert(t[6].1 == 106);
    assert(t[7].1 == 107);
    assert(t[8].1 == 108);
    assert(t[9].1 == 109);
    assert(t[10].1 == 110);
    assert(t[11].1 == 111);
    assert(t[12].1 == 112);
    assert(t[13].1 == 113);
    assert(t[14].1 == 114);
    assert(t[15].1 == 115);
    assert(t[16].1 == 116);
    assert(t[17].1 == 117);
    assert(t[18].1 == 118);
}

proof fn lemma_render_concat(a: Seq<Token>, b: Seq<Token>)
    ensures
        render(a + b) == render(a) + render(b),
{
    let f = |t: Token| token_text(t);
    assert((a + b).map_values(f) =~= a.map_values(f) + b.map_values(f));
    vstd::seq_lib::lemma_flatten_concat(a.map_values(f), b.map_values(f));
}

proof fn lemma_render_literal(s: Seq<char>)
    ensures
        render(literal_tokens(s)) == s,
    decreases s.len(),
{
    let f = |t: Token| token_text(t);
    if s.len() == 0 {
        assert(literal_tokens(s).map_values(f) =~= Seq::<Seq<char>>::empty());
        assert(render(literal_tokens(s)) =~= s);
    } else {
        lemma_render_literal(s.drop_last());
        assert(literal_tokens(s).map_values(f) =~= literal_tokens(s.drop_last()).map_values(f).push(seq![s.last()]));
        literal_tokens(s.drop_last()).map_values(f).lemma_flatten_push(seq![s.last()]);
        assert(render(literal_tokens(s)) =~= s);
    }
}


proof fn lemma_render_single(x: Token)
    ensures
        render(seq![x]) == token_text(x),
{
    let f = |t: Token| token_text(t);
    assert(seq![x].map_values(f) =~= seq![token_text(x)]);
    seq![token_text(x)].lemma_flatten_one_element();
}

/// A recognised candidate renders back to itself, and its code is a marker code.
proof fn lemma_marker_candidate(cand: Seq<char>)
    requires
        find_code(marker_table(), cand) is Some,
    ensures
        find_name(marker_table(), find_code(marker_table(), cand)->Some_0) == Some(cand),
        100 <= find_code(marker_table(), cand)->Some_0 <= 118,
{
    lemma_marker_table_codes();
    let t = marker_table();
    lemma_find_code_name(t, cand);
    lemma_find_code_in(t, cand);
}

/// Tokenizing text of base characters and rendering the tokens gives the text back,
/// and every token is one that encodes and decodes cleanly.
pub proof fn lemma_tokens_render(t: Seq<char>, i: int, supp: spec_fn(u8) -> bool)
    requires
        all_base(t),
        0 <= i <= t.len(),
    ensures
        render(tokens_from(t, i, marker_table(), supp)) == t.skip(i),
        forall|k: int|
            0 <= k < tokens_from(t, i, marker_table(), supp).len() ==> token_good(
                #[trigger] tokens_from(t, i, marker_table(), supp)[k],
                supp,
            ),
    decreases t.len() - i,
{
    let table = marker_table();
    let toks = tokens_from(t, i, table, supp);
    if i >= t.len() {
        assert(toks =~= Seq::<Token>::empty());
        assert(toks.map_values(|x: Token| token_text(x)) =~= Seq::<Seq<char>>::empty());
        assert(t.skip(i) =~= Seq::<char>::empty());
    } else if t[i] == '#' {
        let e = cand_end(t, i + 1);
        lemma_cand_end(t, i + 1);
        let cand = t.subrange(i, e);
        lemma_tokens_render(t, e, supp);
        let rest = tokens_from(t, e, table, supp);
        assert(t.skip(i) =~= cand + t.skip(e));
        if find_code(table, cand) is Some && supp(find_code(table, cand)->Some_0) {
            let code = find_code(table, cand)->Some_0;
            lemma_marker_candidate(cand);
            assert(toks == seq![Token::Mark(code)] + rest);
            lemma_render_concat(seq![Token::Mark(code)], rest);
            lemma_render_single(Token::Mark(code));
            assert forall|k: int| 0 <= k < toks.len() implies token_good(#[trigger] toks[k], supp) by {
                if k > 0 {
                    assert(toks[k] == rest[k - 1]);
                }
            }
        } else {
            assert(toks == literal_tokens(cand) + rest);
            lemma_render_concat(literal_tokens(cand), rest);
            lemma_render_literal(cand);
            assert forall|k: int| 0 <= k < toks.len() implies token_good(#[trigger] toks[k], supp) by {
                if k < cand.len() {
                    assert(toks[k] == char_token(cand[k]));
                    assert(is_base_char(t[i + k]));
                } else {
                    assert(toks[k] == rest[k - cand.len()]);
                }
            }
        }
    } else {
        lemma_tokens_render(t, i + 1, supp);
        let rest = tokens_from(t, i + 1, table, supp);
        assert(toks == seq![char_token(t[i])] + rest);
        lemma_render_concat(seq![char_token(t[i])], rest);
        lemma_render_single(char_token(t[i]));
        assert(t.skip(i) =~= seq![t[i]] + t.skip(i + 1));
        assert forall|k: int| 0 <= k < toks.len() implies token_good(#[trigger] toks[k], supp) by {
            if k > 0 {
                assert(toks[k] == rest[k - 1]);
            }
        }
    }
}


/// The index of every token.
pub open spec fn resolve(toks: Seq<Token>, lookup: Seq<u8>) -> Seq<u8> {
    toks.map_values(|x: Token| token_index(x, lookup))
}

/// Good tokens resolve to indices below 128 without error under a well-formed version,
/// and those indices decode to the tokens' text.
proof fn lemma_good_tokens_round_trip<S: EncodingStrategy>(st: &S, v: Asc100Version, toks: Seq<Token>)
    requires
        v.wf(),
        forall|k: int| 0 <= k < toks.len() ==> token_good(#[trigger] toks[k], |c: u8| st.spec_supports(c)),
    ensures
        token_indices(toks, v.lookup@) == Ok::<Seq<u8>, Asc100Error>(resolve(toks, v.lookup@)),
        forall|m: int| 0 <= m < toks.len() ==> #[trigger] resolve(toks, v.lookup@)[m] < 128,
        indices_text(st, v.charset@, resolve(toks, v.lookup@)) == Ok::<Seq<char>, Asc100Error>(render(toks)),
{
    let cs = v.charset@;
    let lk = v.lookup@;
    lemma_lookup_inverse(cs);
    let ix = resolve(toks, lk);
    let bad = |i: int| token_error(toks[i], lk) is Some;
    let bad2 = |m: int| index_text(st, cs, ix[m]) is Err;
    let text_of = |i: u8| index_text(st, cs, i)->Ok_0;
    assert forall|k: int| 0 <= k < toks.len() implies !#[trigger] bad(k) && ix[k] < 128 && !bad2(k)
        && text_of(ix[k]) == token_text(toks[k]) by {
        assert(token_good(toks[k], |c: u8| st.spec_supports(c)));
        match toks[k] {
            Token::Ch(c) => {
                let i = choose|i: int| 0 <= i < 100 && cs[i] == c;
                assert(lk[cs[i] as u32 as int] == i);
            },
            Token::Mark(code) => {},
        }
    }
    lemma_first_where_skip(bad, 0, toks.len() as int, toks.len() as int);
    lemma_first_where_skip(bad2, 0, ix.len() as int, ix.len() as int);
    assert(ix.map_values(text_of) =~= toks.map_values(|t: Token| token_text(t)));
}

/// The symbols of a packed stream read back as exactly the packed indices.
proof fn lemma_pack_symbols(ix: Seq<u8>)
    requires
        forall|i: int| 0 <= i < ix.len() ==> ix[i] < 128,
    ensures
        pack(ix).len() == packed_len(ix.len() as int),
        unpack_spec(pack(ix)) == Ok::<Seq<u8>, Asc100Error>(ix),
{
    lemma_unpack_pack(ix);
    lemma_b64_inverse();
    let p = pack(ix);
    let vs = pack_values(ix);
    assert forall|k: int| 0 <= k < p.len() implies #[trigger] char_b64_value(p[k]) == vs[k] by {
        assert(vs[k] < 64);
        assert(char_b64_value(b64_char(vs[k] as int)) == vs[k]);
    }
    assert(p.map_values(|c: char| char_b64_value(c)) =~= vs);
    let bad = |i: int| char_b64_value(p[i]) == 255;
    assert forall|k: int| 0 <= k < p.len() implies !#[trigger] bad(k) by {
        assert(vs[k] < 64);
    }
    lemma_first_where_skip(bad, 0, p.len() as int, p.len() as int);
}

/// Round trip through a strategy whose filter hands on base characters only and whose
/// post-processing keeps the text: decoding the encoding gives the filtered text.
proof fn lemma_strategy_round_trip<S: EncodingStrategy>(st: &S, v: Asc100Version, s: Seq<char>)
    requires
        v.wf(),
        st.spec_preprocess(s) is Ok,
        all_base(st.spec_preprocess(s)->Ok_0),
        forall|x: Seq<char>| #[trigger] st.spec_postprocess(x) == x,
    ensures
        encode_spec(st, s, v.lookup@) is Ok,
        decode_spec(st, encode_spec(st, s, v.lookup@)->Ok_0, v.charset@) == st.spec_preprocess(s),
{
    let t = st.spec_preprocess(s)->Ok_0;
    let supp = |c: u8| st.spec_supports(c);
    lemma_tokens_render(t, 0, supp);
    assert(t.skip(0) =~= t);
    let toks = tokens(t, marker_table(), supp);
    lemma_good_tokens_round_trip(st, v, toks);
    lemma_pack_symbols(resolve(toks, v.lookup@));
}

/// A filter whose outputs consist of base characters only.
pub open spec fn emits_base<F: FilterStrategy>(f: &F) -> bool {
    forall|c: char| #[trigger] f.spec_filter_char(c) is Some ==> all_base(f.spec_filter_char(c)->Some_0)
}

proof fn lemma_filtered_base<F: FilterStrategy>(f: &F, s: Seq<char>)
    requires
        emits_base(f),
        filtered(f, s) is Ok,
    ensures
        all_base(filtered(f, s)->Ok_0),
    decreases s.len(),
{
    if s.len() > 0 {
        lemma_filtered_base(f, s.drop_last());
        let t = filtered(f, s.drop_last())->Ok_0;
        let out = f.spec_filter_char(s.last())->Some_0;
        assert forall|i: int| 0 <= i < (t + out).len() implies is_base_char(#[trigger] (t + out)[i]) by {
            if i >= t.len() {
                assert((t + out)[i] == out[i - t.len()]);
            }
        }
    }
}

proof fn lemma_filters_emit_base()
    ensures
        emits_base(&StrictFilter),
        emits_base(&StripFilter),
        emits_base(&SanitizeFilter),
{
    assert forall|c: char| #[trigger] SanitizeFilter.spec_filter_char(c) is Some implies all_base(
        SanitizeFilter.spec_filter_char(c)->Some_0,
    ) by {
        let o = SanitizeFilter.spec_filter_char(c)->Some_0;
        if !is_base_char(c) {
            assert forall|i: int| 0 <= i < o.len() implies is_base_char(#[trigger] o[i]) by {
                assert(o == inv_marker_text());
            }
        }
    }
}

/// Strict filtering keeps a text of base characters as it is.
proof fn lemma_strict_keeps(s: Seq<char>)
    requires
        all_base(s),
    ensures
        filtered(&StrictFilter, s) == Ok::<Seq<char>, Asc100Error>(s),
    decreases s.len(),
{
    if s.len() > 0 {
        lemma_strict_keeps(s.drop_last());
        assert(is_base_char(s[s.len() - 1]));
        assert(s.drop_last() + seq![s.last()] =~= s);
    } else {
        assert(s =~= Seq::<char>::empty());
    }
}

/// Under a strategy that filters strictly, encoding then decoding any text of base
/// characters gives the text back, whether or not markers are recognised.
pub proof fn lemma_round_trip_strict(v: Asc100Version, s: Seq<char>)
    requires
        v.wf(),
        all_base(s),
    ensures
        encode_spec(&CoreStrategy { filter: StrictFilter }, s, v.lookup@) is Ok,
        decode_spec(
            &CoreStrategy { filter: StrictFilter },
            encode_spec(&CoreStrategy { filter: StrictFilter }, s, v.lookup@)->Ok_0,
            v.charset@,
        ) == Ok::<Seq<char>, Asc100Error>(s),
        encode_spec(&ExtensionsStrategy { filter: StrictFilter }, s, v.lookup@) is Ok,
        decode_spec(
            &ExtensionsStrategy { filter: StrictFilter },
            encode_spec(&ExtensionsStrategy { filter: StrictFilter }, s, v.lookup@)->Ok_0,
            v.charset@,
        ) == Ok::<Seq<char>, Asc100Error>(s),
{
    lemma_strict_keeps(s);
    lemma_strategy_round_trip(&CoreStrategy { filter: StrictFilter }, v, s);
    lemma_strategy_round_trip(&ExtensionsStrategy { filter: StrictFilter }, v, s);
}

/// Under any of the three filters, with or without markers, encoding succeeds whenever
/// filtering does, and decoding gives back exactly the filtered text.
pub proof fn lemma_round_trip_filtered<F: FilterStrategy>(f: F, v: Asc100Version, s: Seq<char>)
    requires
        v.wf(),
        emits_base(&f),
        filtered(&f, s) is Ok,
    ensures
        encode_spec(&CoreStrategy { filter: f }, s, v.lookup@) is Ok,
        decode_spec(
            &CoreStrategy { filter: f },
            encode_spec(&CoreStrategy { filter: f }, s, v.lookup@)->Ok_0,
            v.charset@,
        ) == filtered(&f, s),
        encode_spec(&ExtensionsStrategy { filter: f }, s, v.lookup@) is Ok,
        decode_spec(
            &ExtensionsStrategy { filter: f },
            encode_spec(&ExtensionsStrategy { filter: f }, s, v.lookup@)->Ok_0,
            v.charset@,
        ) == filtered(&f, s),
{
    lemma_filtered_base(&f, s);
    lemma_strategy_round_trip(&CoreStrategy { filter: f }, v, s);
    lemma_strategy_round_trip(&ExtensionsStrategy { filter: f }, v, s);
}

/// The three shipped filters hand on base characters only.
pub proof fn lemma_shipped_filters_emit_base()
    ensures
        emits_base(&StrictFilter),
        emits_base(&StripFilter),
        emits_base(&SanitizeFilter),
{
    lemma_filters_emit_base();
}

/// Strip removes exactly the characters outside the base alphabet.
pub proof fn lemma_strip_removes_invalid(s: Seq<char>)
    ensures
        filtered(&StripFilter, s) == Ok::<Seq<char>, Asc100Error>(s.filter(|c: char| is_base_char(c))),
    decreases s.len(),
{
    if s.len() > 0 {
        lemma_strip_removes_invalid(s.drop_last());
        assert(s.drop_last().push(s.last()) =~= s);
        s.drop_last().lemma_filter_push(s.last(), |c: char| is_base_char(c));
        let t = s.drop_last().filter(|c: char| is_base_char(c));
        if is_base_char(s.last()) {
            assert(t + seq![s.last()] =~= t.push(s.last()));
        } else {
            assert(t + Seq::<char>::empty() =~= t);
        }
    } else {
        reveal(Seq::filter);
        assert(s =~= Seq::<char>::empty());
    }
}

/// Strict filtering fails exactly at the first character outside the base alphabet,
/// so strict encoding, with or without markers, fails with that character.
pub proof fn lemma_strict_rejects(s: Seq<char>, k: int, lookup: Seq<u8>)
    requires
        0 <= k < s.len(),
        !is_base_char(s[k]),
        forall|j: int| 0 <= j < k ==> is_base_char(#[trigger] s[j]),
    ensures
        filtered(&StrictFilter, s) == Err::<Seq<char>, Asc100Error>(Asc100Error::InvalidCharacter(s[k])),
        encode_spec(&CoreStrategy { filter: StrictFilter }, s, lookup) == Err::<Seq<char>, Asc100Error>(
            Asc100Error::InvalidCharacter(s[k]),
        ),
        encode_spec(&ExtensionsStrategy { filter: StrictFilter }, s, lookup) == Err::<
            Seq<char>,
            Asc100Error,
        >(Asc100Error::InvalidCharacter(s[k])),
{
    let p = s.take(k);
    assert forall|j: int| 0 <= j < p.len() implies is_base_char(#[trigger] p[j]) by {
        assert(p[j] == s[j]);
    }
    lemma_strict_keeps(p);
    assert(s.take(k + 1).drop_last() =~= p);
    crate::strategy::lemma_filtered_prefix_err(&StrictFilter, s, k + 1);
}


/// Where no marker code is supported, the tokens of a text are just its characters.
pub proof fn lemma_tokens_literal_without_markers(t: Seq<char>, i: int, supp: spec_fn(u8) -> bool)
    requires
        0 <= i <= t.len(),
        forall|c: u8| c >= 100 ==> !#[trigger] supp(c),
    ensures
        tokens_from(t, i, marker_table(), supp) == literal_tokens(t.skip(i)),
    decreases t.len() - i,
{
    let table = marker_table();
    if i >= t.len() {
        assert(literal_tokens(t.skip(i)) =~= Seq::<Token>::empty());
    } else if t[i] == '#' {
        let e = cand_end(t, i + 1);
        lemma_cand_end(t, i + 1);
        let cand = t.subrange(i, e);
        lemma_tokens_literal_without_markers(t, e, supp);
        if find_code(table, cand) is Some {
            lemma_marker_candidate(cand);
        }
        assert(t.skip(i) =~= cand + t.skip(e));
        assert(literal_tokens(cand) + literal_tokens(t.skip(e)) =~= literal_tokens(t.skip(i)));
    } else {
        lemma_tokens_literal_without_markers(t, i + 1, supp);
        assert(seq![char_token(t[i])] + literal_tokens(t.skip(i + 1)) =~= literal_tokens(t.skip(i)));
    }
}

/// Under Core, marker syntax is ordinary text: strict encoding of a text of base
/// characters packs the lookup index of every character, `#` included.
pub proof fn lemma_core_markers_literal(v: Asc100Version, s: Seq<char>)
    requires
        v.wf(),
        all_base(s),
    ensures
        encode_spec(&CoreStrategy { filter: StrictFilter }, s, v.lookup@) == Ok::<Seq<char>, Asc100Error>(
            pack(s.map_values(|c: char| v.lookup@[c as u32 as int])),
        ),
{
    let st = CoreStrategy { filter: StrictFilter };
    let supp = |c: u8| st.spec_supports(c);
    lemma_strict_keeps(s);
    lemma_tokens_literal_without_markers(s, 0, supp);
    assert(s.skip(0) =~= s);
    let toks = literal_tokens(s);
    assert forall|k: int| 0 <= k < toks.len() implies token_good(#[trigger] toks[k], supp) by {
        assert(toks[k] == char_token(s[k]));
    }
    lemma_good_tokens_round_trip(&st, v, toks);
    assert(resolve(toks, v.lookup@) =~= s.map_values(|c: char| v.lookup@[c as u32 as int]));
}

/// Every version's charset is a permutation of the base set, its lookup table inverts
/// it, and no two positions hold the same character.
pub proof fn lemma_lookup_bijection(v: Asc100Version)
    requires
        v.wf(),
    ensures
        forall|i: int| 0 <= i < 100 ==> v.lookup@[(#[trigger] v.charset@[i]) as u32 as int] == i,
        forall|i: int, j: int| 0 <= i < j < 100 ==> v.charset@[i] != v.charset@[j],
        forall|a: int|
            0 <= a < 128 && #[trigger] v.lookup@[a] != 255 ==> v.lookup@[a] < 100 && v.charset@[v.lookup@[a] as int] as u32 == a,
{
    lemma_lookup_inverse(v.charset@);
}

/// The four shipped permutations are charsets.
pub proof fn lemma_versions_are_charsets()
    ensures
        is_charset(v1_charset_spec()),
        is_charset(v2_charset_spec()),
        is_charset(v3_charset_spec()),
        is_charset(v4_charset_spec()),
{
    let b = base_charset_spec();
    lemma_base_charset_is_charset();
    lemma_swap_keeps_charset(b, 0, 94);
    lemma_swap_ranges_keeps_charset(b, 0, 16, 10);
    lemma_swap_ranges_keeps_charset(b, 0, 65, 26);
    lemma_swap_ranges_keeps_charset(crate::charset::seq_swap_ranges(b, 0, 65, 26), 26, 42, 10);
}

/// Packing n indices gives ceil(7n/6) symbols, and reading those symbols back gives
/// exactly the n indices: the padding bits never become an index.
pub proof fn lemma_packing_boundary(ix: Seq<u8>)
    requires
        forall|i: int| 0 <= i < ix.len() ==> ix[i] < 128,
    ensures
        pack(ix).len() == (7 * ix.len() + 5) / 6,
        unpack_spec(pack(ix)) == Ok::<Seq<u8>, Asc100Error>(ix),
{
    lemma_pack_symbols(ix);
}

/// The text Sanitize puts out for one character.
pub open spec fn sanitized_char(c: char) -> Seq<char> {
    if is_base_char(c) {
        seq![c]
    } else {
        inv_marker_text()
    }
}

/// Sanitize replaces each character outside the base alphabet with `#INV#` and keeps
/// the others.
pub proof fn lemma_sanitize_replaces_invalid(s: Seq<char>)
    ensures
        filtered(&SanitizeFilter, s) == Ok::<Seq<char>, Asc100Error>(
            s.map_values(|c: char| sanitized_char(c)).flatten(),
        ),
    decreases s.len(),
{
    let f = |c: char| sanitized_char(c);
    if s.len() > 0 {
        lemma_sanitize_replaces_invalid(s.drop_last());
        assert(s.map_values(f) =~= s.drop_last().map_values(f).push(sanitized_char(s.last())));
        s.drop_last().map_values(f).lemma_flatten_push(sanitized_char(s.last()));
    } else {
        assert(s.map_values(f) =~= Seq::<Seq<char>>::empty());
    }
}


/// Under Strip, with or without markers, encoding never fails and decoding gives back
/// the input without its characters outside the base alphabet.
pub proof fn lemma_strip_round_trip(v: Asc100Version, s: Seq<char>)
    requires
        v.wf(),
    ensures
        encode_spec(&CoreStrategy { filter: StripFilter }, s, v.lookup@) is Ok,
        decode_spec(
            &CoreStrategy { filter: StripFilter },
            encode_spec(&CoreStrategy { filter: StripFilter }, s, v.lookup@)->Ok_0,
            v.charset@,
        ) == Ok::<Seq<char>, Asc100Error>(s.filter(|c: char| is_base_char(c))),
        encode_spec(&ExtensionsStrategy { filter: StripFilter }, s, v.lookup@) is Ok,
        decode_spec(
            &ExtensionsStrategy { filter: StripFilter },
            encode_spec(&ExtensionsStrategy { filter: StripFilter }, s, v.lookup@)->Ok_0,
            v.charset@,
        ) == Ok::<Seq<char>, Asc100Error>(s.filter(|c: char| is_base_char(c))),
{
    lemma_filters_emit_base();
    lemma_strip_removes_invalid(s);
    lemma_round_trip_filtered(StripFilter, v, s);
}

/// Under Sanitize, with or without markers, encoding never fails and decoding gives
/// back the input with each character outside the base alphabet replaced by `#INV#`.
pub proof fn lemma_sanitize_round_trip(v: Asc100Version, s: Seq<char>)
    requires
        v.wf(),
    ensures
        encode_spec(&CoreStrategy { filter: SanitizeFilter }, s, v.lookup@) is Ok,
        decode_spec(
            &CoreStrategy { filter: SanitizeFilter },
            encode_spec(&CoreStrategy { filter: SanitizeFilter }, s, v.lookup@)->Ok_0,
            v.charset@,
        ) == Ok::<Seq<char>, Asc100Error>(s.map_values(|c: char| sanitized_char(c)).flatten()),
        encode_spec(&ExtensionsStrategy { filter: SanitizeFilter }, s, v.lookup@) is Ok,
        decode_spec(
            &ExtensionsStrategy { filter: SanitizeFilter },
            encode_spec(&ExtensionsStrategy { filter: SanitizeFilter }, s, v.lookup@)->Ok_0,
            v.charset@,
        ) == Ok::<Seq<char>, Asc100Error>(s.map_values(|c: char| sanitized_char(c)).flatten()),
{
    lemma_filters_emit_base();
    lemma_sanitize_replaces_invalid(s);
    lemma_round_trip_filtered(SanitizeFilter, v, s);
}

} // verus!
