use vstd::prelude::*;

use crate::charset::{
    base_charset_spec, build_lookup_table, create_base_charset, lookup_spec,
};
use crate::error::{first_where, lemma_first_where_skip};
use crate::markers::{code_of, find_name, name_of, table_view};
use crate::packing::{
    char_b64_value, first_bad_symbol, pack, pack_indices, unpack, unpack_symbols,
};
use crate::strategy::{EncodingStrategy, ExtensionsStrategy, StrictFilter};
use crate::text::{chars_of, digits, digits_of, push_char, push_chars, push_text, str_eq};
use crate::tokenizer::{flatten_sentinels, parse_sentinels, tokens, Token};
use crate::codec::token_index;

verus! {

/// Errors of the self-contained codec; positions count characters from 0.
#[derive(Debug, Clone, PartialEq, Eq, Structural)]
pub enum ASC100Error {
    UnsupportedCharacter { char: char, position: usize },
    InvalidEncodedCharacter { char: char, position: usize },
    InvalidBinaryData,
    EmptyInput,
    ExtensionOverflow,
}

/// The message of an error of the self-contained codec.
pub open spec fn ref_message_spec(e: ASC100Error) -> Seq<char> {
    match e {
        ASC100Error::UnsupportedCharacter { char: c, position: p } => "Unsupported character '"@
            + seq![c] + "' (U+"@ + digits(c as u32 as nat, 16, 4) + ") at position "@ + digits(
            p as nat,
            10,
            1,
        ),
        ASC100Error::InvalidEncodedCharacter { char: c, position: p } => "Invalid encoded character '"@
            + seq![c] + "' at position "@ + digits(p as nat, 10, 1),
        ASC100Error::InvalidBinaryData => "Invalid binary data format"@,
        ASC100Error::EmptyInput => "Input cannot be empty"@,
        ASC100Error::ExtensionOverflow => "Too many extension characters (max 28 allowed)"@,
    }
}

impl ASC100Error {
    /// A description of the error for people.
    pub fn message(&self) -> (r: String)
        ensures
            r@ == ref_message_spec(*self),
    {
        let mut s = String::new();
        match self {
            ASC100Error::UnsupportedCharacter { char: c, position: p } => {
                push_text(&mut s, "Unsupported character '");
                push_char(&mut s, *c);
                push_text(&mut s, "' (U+");
                let h = digits_of(*c as u32 as u64, 16, 4);
                push_chars(&mut s, h.as_slice());
                push_text(&mut s, ") at position ");
                let d = digits_of(*p as u64, 10, 1);
                push_chars(&mut s, d.as_slice());
            },
            ASC100Error::InvalidEncodedCharacter { char: c, position: p } => {
                push_text(&mut s, "Invalid encoded character '");
                push_char(&mut s, *c);
                push_text(&mut s, "' at position ");
                let d = digits_of(*p as u64, 10, 1);
                push_chars(&mut s, d.as_slice());
            },
            ASC100Error::InvalidBinaryData => {
                push_text(&mut s, "Invalid binary data format");
            },
            ASC100Error::EmptyInput => {
                push_text(&mut s, "Input cannot be empty");
            },
            ASC100Error::ExtensionOverflow => {
                push_text(&mut s, "Too many extension characters (max 28 allowed)");
            },
        }
        proof {
            match *self {
                ASC100Error::UnsupportedCharacter { char: c, position: p } => {
                    assert(s@ =~= ref_message_spec(*self));
                },
                ASC100Error::InvalidEncodedCharacter { char: c, position: p } => {
                    assert(s@ =~= ref_message_spec(*self));
                },
                _ => {
                    assert(s@ =~= ref_message_spec(*self));
                },
            }
        }
        s
    }
}

/// `#NAME#` for a marker name.
pub open spec fn bracketed(name: Seq<char>) -> Seq<char> {
    seq!['#'] + name + seq!['#']
}

/// The bracketed patterns of a table of marker names.
pub open spec fn pattern_table(entries: Seq<(Seq<char>, u8)>) -> Seq<(Seq<char>, u8)> {
    entries.map_values(|e: (Seq<char>, u8)| (bracketed(e.0), e.1))
}

/// Names and codes are each unique, and every code lies in 100..=127.
pub open spec fn markers_wf(entries: Seq<(Seq<char>, u8)>) -> bool {
    &&& forall|i: int| 0 <= i < entries.len() ==> 100 <= (#[trigger] entries[i]).1 <= 127
    &&& forall|i: int, j: int|
        0 <= i < j < entries.len() ==> entries[i].0 != entries[j].0 && entries[i].1 != entries[j].1
}

/// The markers a new extension starts with.
pub open spec fn default_markers() -> Seq<(Seq<char>, u8)> {
    seq![
        (seq!['E', 'O', 'F'], 100u8),
        (seq!['E', 'O', 'L'], 101u8),
        (seq!['E', 'O', 'S'], 102u8),
        (seq!['T', 'A', 'B'], 103u8),
        (seq!['I', 'N', 'D', 'E', 'N', 'T'], 104u8),
        (seq!['D', 'E', 'D', 'E', 'N', 'T'], 105u8),
    ]
}

/// Whether an entry is kept when the name `name` is removed and, when `drop_code`,
/// the code `index` as well.
pub open spec fn keep_entry(e: (Seq<char>, u8), name: Seq<char>, index: u8, drop_code: bool) -> bool {
    e.0 != name && (!drop_code || e.1 != index)
}

/// The names and codes of a list of stored entries.
pub open spec fn entries_view(v: Seq<(String, u8)>) -> Seq<(Seq<char>, u8)> {
    v.map_values(|e: (String, u8)| (e.0@, e.1))
}

/// A table of custom markers for the codes 100..=127, kept in insertion order.
#[derive(Debug, Clone)]
pub struct ASCExtension {
    entries: Vec<(String, u8)>,
}

impl ASCExtension {
    /// The markers, as names (without the `#` brackets) and codes.
    pub closed spec fn view(&self) -> Seq<(Seq<char>, u8)> {
        entries_view(self.entries@)
    }

    pub open spec fn wf(&self) -> bool {
        markers_wf(self.view())
    }

    /// An extension with the default markers EOF, EOL, EOS, TAB, INDENT and DEDENT at 100..=105.
    pub fn new() -> (r: Self)
        ensures
            r.wf(),
            r.view() == default_markers(),
    {
        let entries = vec![
            (String::from_str("EOF"), 100u8),
            (String::from_str("EOL"), 101u8),
            (String::from_str("EOS"), 102u8),
            (String::from_str("TAB"), 103u8),
            (String::from_str("INDENT"), 104u8),
            (String::from_str("DEDENT"), 105u8),
        ];
        proof {
            reveal_strlit("EOF");
            reveal_strlit("EOL");
            reveal_strlit("EOS");
            reveal_strlit("TAB");
            reveal_strlit("INDENT");
            reveal_strlit("DEDENT");
        }
        let r = ASCExtension { entries };
        assert("EOF"@ =~= seq!['E', 'O', 'F']);
        assert("EOL"@ =~= seq!['E', 'O', 'L']);
        assert("EOS"@ =~= seq!['E', 'O', 'S']);
        assert("TAB"@ =~= seq!['T', 'A', 'B']);
        assert("INDENT"@ =~= seq!['I', 'N', 'D', 'E', 'N', 'T']);
        assert("DEDENT"@ =~= seq!['D', 'E', 'D', 'E', 'N', 'T']);
        assert(r.view() =~= default_markers());
        r
    }

    /// Keeps, in order, the entries not named `name` and, when `drop_code`, not coded `index`.
    fn retain_entries(&mut self, name: &String, index: u8, drop_code: bool)
        requires
            old(self).wf(),
        ensures
            final(self).wf(),
            final(self).view() == old(self).view().filter(
                |e: (Seq<char>, u8)| keep_entry(e, name@, index, drop_code),
            ),
            forall|i: int| 0 <= i < final(self).view().len() ==> #[trigger] final(self).view()[i].0 != name@
                && (drop_code ==> final(self).view()[i].1 != index),
    {
        let ghost old_view = self.view();
        let ghost keep = |e: (Seq<char>, u8)| keep_entry(e, name@, index, drop_code);
        let mut kept: Vec<(String, u8)> = Vec::new();
        let mut i: usize = 0;
        proof {
            assert(old_view.take(0) =~= Seq::<(Seq<char>, u8)>::empty());
            reveal(Seq::filter);
            assert(old_view.take(0).filter(keep) =~= Seq::<(Seq<char>, u8)>::empty());
        }
        while i < self.entries.len()
            invariant
                old_view == self.view(),
                markers_wf(old_view),
                keep == (|e: (Seq<char>, u8)| keep_entry(e, name@, index, drop_code)),
                i <= self.entries@.len(),
                entries_view(kept@) == old_view.take(i as int).filter(keep),
                forall|k: int| 0 <= k < kept@.len() ==> exists|m: int| 0 <= m < i && #[trigger] entries_view(kept@)[k] == old_view[m],
                forall|k: int| 0 <= k < kept@.len() ==> #[trigger] keep(entries_view(kept@)[k]),
                markers_wf(entries_view(kept@)),
            decreases self.entries@.len() - i,
        {
            let ghost kv_src = kept@;
            let ghost kv = entries_view(kept@);
            let e_name = &self.entries[i].0;
            let e_code = self.entries[i].1;
            proof {
                assert(old_view.take(i + 1) =~= old_view.take(i as int).push(old_view[i as int]));
                old_view.take(i as int).lemma_filter_push(old_view[i as int], keep);
                assert(old_view[i as int] == (e_name@, e_code));
            }
            let same_name = *e_name == *name;
            if !same_name && (!drop_code || e_code != index) {
                kept.push((e_name.clone(), e_code));
                proof {
                    let kv2 = entries_view(kept@);
                    assert(kv2 =~= kv.push((e_name@, e_code)));
                    assert forall|a: int, b: int| 0 <= a < b < kv2.len() implies kv2[a].0 != kv2[b].0
                        && kv2[a].1 != kv2[b].1 by {
                        if b == kv2.len() - 1 {
                            assert(kv2[a] == kv[a]);
                            let m = choose|m: int| 0 <= m < i && #[trigger] entries_view(kv_src)[a] == old_view[m];
                            assert(kv2[a] == old_view[m]);
                        }
                    }
                    assert forall|k: int| 0 <= k < kept@.len() implies exists|m: int| 0 <= m < i + 1 && #[trigger] entries_view(kept@)[k] == old_view[m] by {
                        if k == kept@.len() - 1 {
                            assert(entries_view(kept@)[k] == old_view[i as int]);
                        } else {
                            assert(entries_view(kept@)[k] == kv[k]);
                            let m = choose|m: int| 0 <= m < i && #[trigger] entries_view(kv_src)[k] == old_view[m];
                        }
                    }
                    assert forall|k: int| 0 <= k < kept@.len() implies #[trigger] keep(entries_view(kept@)[k]) by {
                        if k < kept@.len() - 1 {
                            assert(entries_view(kept@)[k] == kv[k]);
                            assert(keep(entries_view(kv_src)[k]));
                        }
                    }
                }
            } else {
                assert(!keep(old_view[i as int]));
            }
            i += 1;
        }
        proof {
            assert(old_view.take(i as int) =~= old_view);
        }
        self.entries = kept;
        proof {
            let v = self.view();
            assert forall|k: int| 0 <= k < v.len() implies #[trigger] v[k].0 != name@ && (drop_code ==> v[k].1 != index) by {
                assert(keep(entries_view(kept@)[k]));
            }
        }
    }

    /// Adds a marker for a code in 100..=127, replacing any marker with the same name or code.
    pub fn add_marker(&mut self, marker: &str, index: u8) -> (r: Result<(), ASC100Error>)
        requires
            old(self).wf(),
        ensures
            final(self).wf(),
            !(100 <= index <= 127) ==> r == Err::<(), ASC100Error>(ASC100Error::ExtensionOverflow)
                && final(self).view() == old(self).view(),
            100 <= index <= 127 ==> r == Ok::<(), ASC100Error>(()) && final(self).view() == old(self).view().filter(
                |e: (Seq<char>, u8)| e.0 != marker@ && e.1 != index,
            ).push((marker@, index)),
    {
        if index < 100 || index > 127 {
            return Err(ASC100Error::ExtensionOverflow);
        }
        let name = String::from_str(marker);
        self.retain_entries(&name, index, true);
        let ghost before = self.view();
        self.entries.push((name, index));
        proof {
            let v = self.view();
            assert(v =~= before.push((marker@, index)));
            let f1 = |e: (Seq<char>, u8)| keep_entry(e, name@, index, true);
            let f2 = |e: (Seq<char>, u8)| e.0 != marker@ && e.1 != index;
            assert(f1 =~= f2);
            assert(f1 == f2);
            assert(before == old(self).view().filter(f1));
            assert(before == old(self).view().filter(f2));
            assert forall|a: int, b: int| 0 <= a < b < v.len() implies v[a].0 != v[b].0 && v[a].1 != v[b].1 by {
                if b == v.len() - 1 {
                    assert(v[a] == before[a]);
                }
            }
        }
        Ok(())
    }

    /// Removes the marker with this name, if there is one.
    pub fn remove_marker(&mut self, marker: &str)
        requires
            old(self).wf(),
        ensures
            final(self).wf(),
            final(self).view() == old(self).view().filter(|e: (Seq<char>, u8)| e.0 != marker@),
    {
        let name = String::from_str(marker);
        self.retain_entries(&name, 0, false);
        proof {
            let f1 = |e: (Seq<char>, u8)| keep_entry(e, name@, 0u8, false);
            let f2 = |e: (Seq<char>, u8)| e.0 != marker@;
            assert(f1 =~= f2);
            assert(self.view() == old(self).view().filter(f2));
        }
    }

    /// The code of the marker with this name.
    pub fn get_marker_index(&self, marker: &str) -> (r: Option<u8>)
        ensures
            r == crate::markers::find_code(self.view(), marker@),
    {
        let name = String::from_str(marker);
        let ghost v = self.view();
        let mut i: usize = 0;
        assert(v.skip(0) =~= v);
        while i < self.entries.len()
            invariant
                v == self.view(),
                name@ == marker@,
                i <= v.len(),
                crate::markers::find_code(v, marker@) == crate::markers::find_code(v.skip(i as int), marker@),
            decreases v.len() - i,
        {
            assert(v.skip(i as int).drop_first() =~= v.skip(i + 1));
            if self.entries[i].0 == name {
                return Some(self.entries[i].1);
            }
            i += 1;
        }
        None
    }

    /// The name of the marker with this code.
    pub fn get_marker_name(&self, index: u8) -> (r: Option<&String>)
        ensures
            match r {
                Some(s) => find_name(self.view(), index) == Some(s@),
                None => find_name(self.view(), index) is None,
            },
    {
        let ghost v = self.view();
        let mut i: usize = 0;
        assert(v.skip(0) =~= v);
        while i < self.entries.len()
            invariant
                v == self.view(),
                i <= v.len(),
                find_name(v, index) == find_name(v.skip(i as int), index),
            decreases v.len() - i,
        {
            assert(v.skip(i as int).drop_first() =~= v.skip(i + 1));
            if self.entries[i].1 == index {
                return Some(&self.entries[i].0);
            }
            i += 1;
        }
        None
    }

    /// All markers, as names and codes, in insertion order.
    pub fn list_markers(&self) -> (r: Vec<(String, u8)>)
        ensures
            entries_view(r@) == self.view(),
    {
        let mut out: Vec<(String, u8)> = Vec::new();
        let mut i: usize = 0;
        while i < self.entries.len()
            invariant
                i <= self.entries@.len(),
                entries_view(out@) == self.view().take(i as int),
            decreases self.entries@.len() - i,
        {
            let name = self.entries[i].0.clone();
            let ghost prev = out@;
            out.push((name, self.entries[i].1));
            proof {
                assert(entries_view(out@) =~= entries_view(prev).push((self.entries@[i as int].0@, self.entries@[i as int].1)));
                assert(self.view().take(i + 1) =~= self.view().take(i as int).push(self.view()[i as int]));
            }
            i += 1;
            assert(entries_view(out@) =~= self.view().take(i as int));
        }
        assert(self.view().take(i as int) =~= self.view());
        out
    }

    /// The bracketed patterns `#NAME#` of the markers, with their codes.
    fn patterns(&self) -> (r: Vec<(Vec<char>, u8)>)
        ensures
            table_view(r@) == pattern_table(self.view()),
    {
        let mut out: Vec<(Vec<char>, u8)> = Vec::new();
        let mut i: usize = 0;
        while i < self.entries.len()
            invariant
                i <= self.entries@.len(),
                table_view(out@) == pattern_table(self.view().take(i as int)),
            decreases self.entries@.len() - i,
        {
            let name = chars_of(self.entries[i].0.as_str());
            let mut p: Vec<char> = Vec::new();
            p.push('#');
            let mut k: usize = 0;
            while k < name.len()
                invariant
                    k <= name@.len(),
                    p@ == seq!['#'] + name@.take(k as int),
                decreases name@.len() - k,
            {
                p.push(name[k]);
                k += 1;
                assert(p@ =~= seq!['#'] + name@.take(k as int));
            }
            p.push('#');
            assert(name@.take(name@.len() as int) =~= name@);
            assert(p@ =~= bracketed(self.entries@[i as int].0@));
            let ghost prev = out@;
            out.push((p, self.entries[i].1));
            proof {
                assert(table_view(out@) =~= table_view(prev).push((p@, self.entries@[i as int].1)));
                assert(self.view().take(i + 1) =~= self.view().take(i as int).push(self.view()[i as int]));
                assert(pattern_table(self.view().take(i + 1)) =~= pattern_table(self.view().take(i as int)).push((bracketed(self.view()[i as int].0), self.view()[i as int].1)));
            }
            i += 1;
            assert(table_view(out@) =~= pattern_table(self.view().take(i as int)));
        }
        assert(self.view().take(i as int) =~= self.view());
        out
    }
}

impl Default for ASCExtension {
    fn default() -> (r: Self)
        ensures
            r.wf(),
            r.view() == default_markers(),
    {
        ASCExtension::new()
    }
}


/// A character of the self-contained codec's input that has no index: at or above code
/// 128, or outside the base charset.
pub open spec fn ref_token_bad(t: Token, lookup: Seq<u8>) -> bool {
    match t {
        Token::Ch(c) => c as u32 >= 128 || lookup[c as u32 as int] >= 100,
        Token::Mark(_) => false,
    }
}

/// Encoding by the self-contained codec: tokenize with the bracketed marker names, resolve
/// each token, pack; a position counts tokens, a marker being one.
pub open spec fn ref_encode_spec(lookup: Seq<u8>, entries: Seq<(Seq<char>, u8)>, input: Seq<char>) -> Result<
    Seq<char>,
    ASC100Error,
> {
    let toks = tokens(input, pattern_table(entries), |c: u8| c <= 127);
    let k = first_where(|i: int| ref_token_bad(toks[i], lookup), 0, toks.len() as int);
    if k < toks.len() {
        Err(ASC100Error::UnsupportedCharacter { char: toks[k]->Ch_0, position: k as usize })
    } else {
        Ok(pack(toks.map_values(|t: Token| token_index(t, lookup))))
    }
}

/// The text of one decoded index: the charset character, the bracketed marker name, or,
/// for a code without a marker, the character with that code.
pub open spec fn ref_index_text(charset: Seq<char>, entries: Seq<(Seq<char>, u8)>, i: u8) -> Seq<char> {
    if i < 100 {
        seq![charset[i as int]]
    } else {
        match find_name(entries, i) {
            Some(n) => bracketed(n),
            None => seq![i as char],
        }
    }
}

/// Decoding by the self-contained codec.
pub open spec fn ref_decode_spec(charset: Seq<char>, entries: Seq<(Seq<char>, u8)>, encoded: Seq<char>) -> Result<
    Seq<char>,
    ASC100Error,
> {
    let k = first_bad_symbol(encoded);
    if k < encoded.len() {
        Err(ASC100Error::InvalidEncodedCharacter { char: encoded[k], position: k as usize })
    } else {
        Ok(
            unpack(encoded.map_values(|c: char| char_b64_value(c))).map_values(
                |i: u8| ref_index_text(charset, entries, i),
            ).flatten(),
        )
    }
}

/// A string result of the self-contained codec seen through the views of its text.
pub open spec fn ref_result(r: Result<String, ASC100Error>) -> Result<Seq<char>, ASC100Error> {
    match r {
        Ok(s) => Ok(s@),
        Err(e) => Err(e),
    }
}

/// The position of the first character outside the output alphabet, or the length.
fn first_bad_position(s: &[char]) -> (r: usize)
    ensures
        r == first_bad_symbol(s@),
{
    let ghost bad = |i: int| char_b64_value(s@[i]) == 255;
    let table = crate::packing::build_base64_lookup();
    let mut i: usize = 0;
    while i < s.len()
        invariant
            bad == (|i: int| char_b64_value(s@[i]) == 255),
            forall|a: int| 0 <= a < 128 ==> #[trigger] table@[a] == crate::packing::b64_value(a),
            i <= s@.len(),
            forall|j: int| 0 <= j < i ==> !#[trigger] bad(j),
        decreases s@.len() - i,
    {
        let a = s[i] as u32;
        if a >= 128 || table[a as usize] == 255 {
            proof {
                assert(bad(i as int));
                lemma_first_where_skip(bad, 0, i as int, s@.len() as int);
            }
            return i;
        }
        i += 1;
    }
    proof {
        lemma_first_where_skip(bad, 0, i as int, s@.len() as int);
    }
    i
}

/// The self-contained codec: the unpermuted base charset with its own marker extension.
pub struct ASC100 {
    base_charset: [char; 100],
    lookup: [u8; 128],
    extension: ASCExtension,
}

impl ASC100 {
    /// The markers of the codec's extension.
    pub closed spec fn markers_view(&self) -> Seq<(Seq<char>, u8)> {
        self.extension.view()
    }

    pub closed spec fn wf(&self) -> bool {
        &&& self.base_charset@ == base_charset_spec()
        &&& self.lookup@ == lookup_spec(base_charset_spec())
        &&& self.extension.wf()
    }

    /// A codec with the default markers.
    pub fn new() -> (r: Self)
        ensures
            r.wf(),
            r.markers_view() == default_markers(),
    {
        Self::with_extension(ASCExtension::new())
    }

    /// A codec with the given markers.
    pub fn with_extension(extension: ASCExtension) -> (r: Self)
        requires
            extension.wf(),
        ensures
            r.wf(),
            r.markers_view() == extension.view(),
    {
        let base_charset = create_base_charset();
        let lookup = build_lookup_table(base_charset);
        ASC100 { base_charset, lookup, extension }
    }

    /// The markers in use.
    pub fn extension(&self) -> (r: &ASCExtension)
        ensures
            r.view() == self.markers_view(),
            self.wf() ==> r.wf(),
    {
        &self.extension
    }

    /// Replaces the markers in use.
    pub fn set_extension(&mut self, extension: ASCExtension)
        requires
            old(self).wf(),
            extension.wf(),
        ensures
            final(self).wf(),
            final(self).markers_view() == extension.view(),
    {
        self.extension = extension;
    }

    /// Encodes text, turning each `#NAME#` of the extension into its code.
    pub fn encode(&self, input: &str) -> (r: Result<String, ASC100Error>)
        requires
            self.wf(),
        ensures
            ref_result(r) == ref_encode_spec(lookup_spec(base_charset_spec()), self.markers_view(), input@),
    {
        let chars = chars_of(input);
        let table = self.extension.patterns();
        let strategy = ExtensionsStrategy::strict();
        let sentinels = parse_sentinels(chars.as_slice(), &table, &strategy);
        let toks = flatten_sentinels(&sentinels);
        let ghost lk = self.lookup@;
        proof {
            let f1 = |c: u8| strategy.spec_supports(c);
            let f2 = |c: u8| c <= 127;
            assert(f1 =~= f2);
            assert(toks@ == tokens(input@, pattern_table(self.markers_view()), f2));
        }
        let ghost bad = |i: int| ref_token_bad(toks@[i], lk);
        let mut indices: Vec<u8> = Vec::new();
        let mut pos: usize = 0;
        while pos < toks.len()
            invariant
                lk == self.lookup@,
                self.wf(),
                toks@ == tokens(input@, pattern_table(self.markers_view()), |c: u8| c <= 127),
                bad == (|i: int| ref_token_bad(toks@[i], lk)),
                pos <= toks@.len(),
                forall|j: int| 0 <= j < pos ==> !#[trigger] bad(j),
                indices@ == toks@.take(pos as int).map_values(|t: Token| token_index(t, lk)),
            decreases toks@.len() - pos,
        {
            match toks[pos] {
                Token::Ch(c) => {
                    let a = c as u32;
                    if a >= 128 || self.lookup[a as usize] >= 100 {
                        proof {
                            assert(bad(pos as int));
                            lemma_first_where_skip(bad, 0, pos as int, toks@.len() as int);
                        }
                        return Err(ASC100Error::UnsupportedCharacter { char: c, position: pos });
                    }
                    indices.push(self.lookup[a as usize]);
                },
                Token::Mark(code) => {
                    indices.push(code);
                },
            }
            pos += 1;
            assert(indices@ =~= toks@.take(pos as int).map_values(|t: Token| token_index(t, lk)));
        }
        proof {
            assert(toks@.take(pos as int) =~= toks@);
            lemma_first_where_skip(bad, 0, pos as int, toks@.len() as int);
        }
        Ok(pack_indices(indices.as_slice()))
    }

    /// Decodes text, turning each code of the extension back into `#NAME#`.
    pub fn decode(&self, encoded: &str) -> (r: Result<String, ASC100Error>)
        requires
            self.wf(),
        ensures
            ref_result(r) == ref_decode_spec(base_charset_spec(), self.markers_view(), encoded@),
    {
        let chars = chars_of(encoded);
        let indices = match unpack_symbols(chars.as_slice()) {
            Ok(v) => v,
            Err(_) => {
                let pos = first_bad_position(chars.as_slice());
                return Err(ASC100Error::InvalidEncodedCharacter { char: chars[pos], position: pos });
            },
        };
        let ghost ix = indices@;
        let ghost cs = self.base_charset@;
        let ghost mv = self.markers_view();
        let ghost text_of = |i: u8| ref_index_text(cs, mv, i);
        let mut result = String::new();
        let mut m: usize = 0;
        proof {
            assert(ix.take(0).map_values(text_of) =~= Seq::<Seq<char>>::empty());
            assert(ix.take(0).map_values(text_of).flatten() =~= Seq::<char>::empty());
        }
        while m < indices.len()
            invariant
                ix == indices@,
                cs == self.base_charset@,
                mv == self.markers_view(),
                mv == self.extension.view(),
                text_of == (|i: u8| ref_index_text(cs, mv, i)),
                m <= ix.len(),
                result@ == ix.take(m as int).map_values(text_of).flatten(),
            decreases ix.len() - m,
        {
            let index = indices[m];
            let ghost prev = result@;
            proof {
                assert(ix.take(m + 1).map_values(text_of) =~= ix.take(m as int).map_values(text_of).push(text_of(index)));
                ix.take(m as int).map_values(text_of).lemma_flatten_push(text_of(index));
            }
            if index < 100 {
                push_char(&mut result, self.base_charset[index as usize]);
                assert(result@ =~= prev + text_of(index));
            } else {
                match self.extension.get_marker_name(index) {
                    Some(name) => {
                        let name_chars = chars_of(name.as_str());
                        push_char(&mut result, '#');
                        let mut t: usize = 0;
                        while t < name_chars.len()
                            invariant
                                t <= name_chars@.len(),
                                result@ == prev + seq!['#'] + name_chars@.take(t as int),
                            decreases name_chars@.len() - t,
                        {
                            push_char(&mut result, name_chars[t]);
                            t += 1;
                            assert(result@ =~= prev + seq!['#'] + name_chars@.take(t as int));
                        }
                        push_char(&mut result, '#');
                        assert(name_chars@.take(name_chars@.len() as int) =~= name_chars@);
                        assert(result@ =~= prev + text_of(index));
                    },
                    None => {
                        push_char(&mut result, index as char);
                        assert(result@ =~= prev + text_of(index));
                    },
                }
            }
            m += 1;
        }
        proof {
            assert(ix.take(ix.len() as int) =~= ix);
        }
        Ok(result)
    }

    /// Whether encoding then decoding gives the input back.
    pub fn test_round_trip(&self, input: &str) -> (r: Result<bool, ASC100Error>)
        requires
            self.wf(),
        ensures
            match ref_encode_spec(lookup_spec(base_charset_spec()), self.markers_view(), input@) {
                Err(e) => r == Err::<bool, ASC100Error>(e),
                Ok(enc) => match ref_decode_spec(base_charset_spec(), self.markers_view(), enc) {
                    Err(e) => r == Err::<bool, ASC100Error>(e),
                    Ok(dec) => r == Ok::<bool, ASC100Error>(dec == input@),
                },
            },
    {
        let encoded = match self.encode(input) {
            Ok(s) => s,
            Err(e) => return Err(e),
        };
        let decoded = match self.decode(encoded.as_str()) {
            Ok(s) => s,
            Err(e) => return Err(e),
        };
        Ok(str_eq(input, decoded.as_str()))
    }
}

impl Default for ASC100 {
    fn default() -> (r: Self)
        ensures
            r.wf(),
            r.markers_view() == default_markers(),
    {
        ASC100::new()
    }
}

} // verus!
