use vstd::prelude::*;

use crate::text::{chars_of, push_char, string_of};

verus! {

pub const MARKER_INV: u8 = 100;
pub const MARKER_EOF: u8 = 101;
pub const MARKER_NL: u8 = 102;
pub const MARKER_V: u8 = 103;
pub const MARKER_Q: u8 = 104;
pub const MARKER_E: u8 = 105;
pub const MARKER_X: u8 = 106;
pub const MARKER_SSX: u8 = 107;
pub const MARKER_ESX: u8 = 108;
pub const MARKER_MEM: u8 = 109;
pub const MARKER_CTX: u8 = 110;
pub const MARKER_FX: u8 = 111;
pub const MARKER_ARG: u8 = 112;
pub const MARKER_TR: u8 = 113;
pub const MARKER_DNT: u8 = 114;
pub const MARKER_BRK: u8 = 115;
pub const MARKER_HSO: u8 = 116;
pub const MARKER_HSI: u8 = 117;
pub const MARKER_ACK: u8 = 118;

/// The marker table: each marker's bracketed name and its code.
pub open spec fn marker_table() -> Seq<(Seq<char>, u8)> {
    seq![
        (seq!['#', 'I', 'N', 'V', '#'], 100u8),
        (seq!['#', 'E', 'O', 'F', '#'], 101u8),
        (seq!['#', 'N', 'L', '#'], 102u8),
        (seq!['#', 'V', '#'], 103u8),
        (seq!['#', 'Q', '#'], 104u8),
        (seq!['#', 'E', '#'], 105u8),
        (seq!['#', 'X', '#'], 106u8),
        (seq!['#', 'S', 'S', 'X', '#'], 107u8),
        (seq!['#', 'E', 'S', 'X', '#'], 108u8),
        (seq!['#', 'M', 'E', 'M', '#'], 109u8),
        (seq!['#', 'C', 'T', 'X', '#'], 110u8),
        (seq!['#', 'F', 'X', '#'], 111u8),
        (seq!['#', 'A', 'R', 'G', '#'], 112u8),
        (seq!['#', 'T', 'R', '#'], 113u8),
        (seq!['#', 'D', 'N', 'T', '#'], 114u8),
        (seq!['#', 'B', 'R', 'K', '#'], 115u8),
        (seq!['#', 'H', 'S', 'O', '#'], 116u8),
        (seq!['#', 'H', 'S', 'I', '#'], 117u8),
        (seq!['#', 'A', 'C', 'K', '#'], 118u8),
    ]
}

/// The code of the first entry of `table` whose name is `name`.
pub open spec fn find_code(table: Seq<(Seq<char>, u8)>, name: Seq<char>) -> Option<u8>
    decreases table.len(),
{
    if table.len() == 0 {
        None
    } else if table[0].0 == name {
        Some(table[0].1)
    } else {
        find_code(table.drop_first(), name)
    }
}

/// The name of the first entry of `table` whose code is `code`.
pub open spec fn find_name(table: Seq<(Seq<char>, u8)>, code: u8) -> Option<Seq<char>>
    decreases table.len(),
{
    if table.len() == 0 {
        None
    } else if table[0].1 == code {
        Some(table[0].0)
    } else {
        find_name(table.drop_first(), code)
    }
}

/// The view of an executable marker table.
pub open spec fn table_view(t: Seq<(Vec<char>, u8)>) -> Seq<(Seq<char>, u8)> {
    t.map_values(|e: (Vec<char>, u8)| (e.0@, e.1))
}

/// The marker table, as bracketed names and codes.
pub fn markers() -> (r: Vec<(Vec<char>, u8)>)
    ensures
        table_view(r@) == marker_table(),
{
    let r = vec![
        (vec!['#', 'I', 'N', 'V', '#'], 100u8),
        (vec!['#', 'E', 'O', 'F', '#'], 101u8),
        (vec!['#', 'N', 'L', '#'], 102u8),
        (vec!['#', 'V', '#'], 103u8),
        (vec!['#', 'Q', '#'], 104u8),
        (vec!['#', 'E', '#'], 105u8),
        (vec!['#', 'X', '#'], 106u8),
        (vec!['#', 'S', 'S', 'X', '#'], 107u8),
        (vec!['#', 'E', 'S', 'X', '#'], 108u8),
        (vec!['#', 'M', 'E', 'M', '#'], 109u8),
        (vec!['#', 'C', 'T', 'X', '#'], 110u8),
        (vec!['#', 'F', 'X', '#'], 111u8),
        (vec!['#', 'A', 'R', 'G', '#'], 112u8),
        (vec!['#', 'T', 'R', '#'], 113u8),
        (vec!['#', 'D', 'N', 'T', '#'], 114u8),
        (vec!['#', 'B', 'R', 'K', '#'], 115u8),
        (vec!['#', 'H', 'S', 'O', '#'], 116u8),
        (vec!['#', 'H', 'S', 'I', '#'], 117u8),
        (vec!['#', 'A', 'C', 'K', '#'], 118u8),
    ];
    assert(table_view(r@) =~= marker_table());
    r
}


/// Whether `name` equals `s[start..end]`.
pub fn matches_at(name: &Vec<char>, s: &[char], start: usize, end: usize) -> (r: bool)
    requires
        start <= end <= s@.len(),
    ensures
        r == (name@ == s@.subrange(start as int, end as int)),
{
    if name.len() != end - start {
        return false;
    }
    let mut k: usize = 0;
    while k < name.len()
        invariant
            name@.len() == end - start,
            start <= end <= s@.len(),
            k <= name@.len(),
            forall|j: int| 0 <= j < k ==> name@[j] == s@[start + j],
        decreases name@.len() - k,
    {
        if name[k] != s[start + k] {
            return false;
        }
        k += 1;
    }
    assert(name@ =~= s@.subrange(start as int, end as int));
    true
}

proof fn lemma_table_step(t: Seq<(Vec<char>, u8)>, i: int)
    requires
        0 <= i < t.len(),
    ensures
        table_view(t).skip(i).drop_first() == table_view(t).skip(i + 1),
        table_view(t).skip(i)[0] == (t[i].0@, t[i].1),
        table_view(t).skip(i).len() > 0,
{
    assert(table_view(t).skip(i).drop_first() =~= table_view(t).skip(i + 1));
}

/// The code that `table` gives the name `s[start..end]`.
pub fn code_of(table: &Vec<(Vec<char>, u8)>, s: &[char], start: usize, end: usize) -> (r: Option<u8>)
    requires
        start <= end <= s@.len(),
    ensures
        r == find_code(table_view(table@), s@.subrange(start as int, end as int)),
{
    let ghost name = s@.subrange(start as int, end as int);
    let mut i: usize = 0;
    assert(table_view(table@).skip(0) =~= table_view(table@));
    while i < table.len()
        invariant
            i <= table@.len(),
            start <= end <= s@.len(),
            name == s@.subrange(start as int, end as int),
            find_code(table_view(table@), name) == find_code(table_view(table@).skip(i as int), name),
        decreases table@.len() - i,
    {
        proof {
            lemma_table_step(table@, i as int);
        }
        if matches_at(&table[i].0, s, start, end) {
            return Some(table[i].1);
        }
        i += 1;
    }
    None
}

/// The name that `table` gives the code `code`.
pub fn name_of(table: &Vec<(Vec<char>, u8)>, code: u8) -> (r: Option<&Vec<char>>)
    ensures
        match r {
            Some(n) => find_name(table_view(table@), code) == Some(n@),
            None => find_name(table_view(table@), code) is None,
        },
{
    let mut i: usize = 0;
    assert(table_view(table@).skip(0) =~= table_view(table@));
    while i < table.len()
        invariant
            i <= table@.len(),
            find_name(table_view(table@), code) == find_name(table_view(table@).skip(i as int), code),
        decreases table@.len() - i,
    {
        proof {
            lemma_table_step(table@, i as int);
        }
        if table[i].1 == code {
            return Some(&table[i].0);
        }
        i += 1;
    }
    None
}

/// Codes that occur once each make the two lookups inverse: the name found for a
/// code is the one that gave it.
pub proof fn lemma_find_code_name(t: Seq<(Seq<char>, u8)>, name: Seq<char>)
    requires
        forall|i: int, j: int| 0 <= i < j < t.len() ==> t[i].1 != t[j].1,
        find_code(t, name) is Some,
    ensures
        find_name(t, find_code(t, name)->Some_0) == Some(name),
    decreases t.len(),
{
    if t[0].0 != name {
        let c = find_code(t, name)->Some_0;
        lemma_find_code_in(t.drop_first(), name);
        let k = choose|k: int| 0 <= k < t.drop_first().len() && t.drop_first()[k].1 == c;
        assert(t[k + 1].1 == c);
        lemma_find_code_name(t.drop_first(), name);
    }
}

pub proof fn lemma_find_code_in(t: Seq<(Seq<char>, u8)>, name: Seq<char>)
    requires
        find_code(t, name) is Some,
    ensures
        exists|k: int| 0 <= k < t.len() && t[k].1 == find_code(t, name)->Some_0,
    decreases t.len(),
{
    if t[0].0 != name {
        lemma_find_code_in(t.drop_first(), name);
        let k = choose|k: int| 0 <= k < t.drop_first().len() && t.drop_first()[k].1 == find_code(t, name)->Some_0;
        assert(t[k + 1].1 == find_code(t, name)->Some_0);
    }
}


/// Every occurrence of a non-empty `pat` replaced by `rep`, matches taken left to right
/// without overlap, as `str::replace` does.
pub open spec fn replace_all(s: Seq<char>, pat: Seq<char>, rep: Seq<char>) -> Seq<char>
    decreases s.len(),
{
    if pat.len() == 0 || s.len() < pat.len() {
        s
    } else if s.take(pat.len() as int) == pat {
        rep + replace_all(s.skip(pat.len() as int), pat, rep)
    } else {
        seq![s[0]] + replace_all(s.drop_first(), pat, rep)
    }
}

/// The first `k` entries of `table` whose name has length `len` applied in table order,
/// each name replaced by the character of its code.
pub open spec fn replace_names_of_length(text: Seq<char>, table: Seq<(Seq<char>, u8)>, len: nat, k: int) -> Seq<char>
    decreases k,
{
    if k <= 0 {
        text
    } else {
        let prev = replace_names_of_length(text, table, len, k - 1);
        if table[k - 1].0.len() == len {
            replace_all(prev, table[k - 1].0, seq![table[k - 1].1 as char])
        } else {
            prev
        }
    }
}

/// All names of length `len` down to 1 replaced, longer names first and names of equal
/// length in table order.
pub open spec fn replace_names_from(text: Seq<char>, table: Seq<(Seq<char>, u8)>, len: nat) -> Seq<char>
    decreases len,
{
    if len == 0 {
        text
    } else {
        replace_names_from(
            replace_names_of_length(text, table, len, table.len() as int),
            table,
            (len - 1) as nat,
        )
    }
}

/// The length of the longest name among the first `k` entries.
pub open spec fn longest_name(table: Seq<(Seq<char>, u8)>, k: int) -> nat
    decreases k,
{
    if k <= 0 {
        0
    } else {
        let m = longest_name(table, k - 1);
        if table[k - 1].0.len() > m {
            table[k - 1].0.len()
        } else {
            m
        }
    }
}

/// Each marker name replaced by the character with its code, longest names first.
pub open spec fn preprocess_spec(text: Seq<char>) -> Seq<char> {
    replace_names_from(text, marker_table(), longest_name(marker_table(), marker_table().len() as int))
}

/// The text for one character: the bracketed name when its code is a marker code of
/// the table, the character itself otherwise.
pub open spec fn expand_char(c: char) -> Seq<char> {
    if 100 <= c as u32 <= 127 {
        match find_name(marker_table(), c as u32 as u8) {
            Some(n) => n,
            None => seq![c],
        }
    } else {
        seq![c]
    }
}

/// Every character whose code is a marker code replaced by the bracketed name.
pub open spec fn postprocess_spec(text: Seq<char>) -> Seq<char> {
    text.map_values(|c: char| expand_char(c)).flatten()
}

/// `s` with every occurrence of `pat` replaced by `rep`.
pub fn replace_chars(s: &[char], pat: &Vec<char>, rep: char) -> (r: Vec<char>)
    requires
        pat@.len() > 0,
    ensures
        r@ == replace_all(s@, pat@, seq![rep]),
{
    let n = s.len();
    let p = pat.len();
    let mut out: Vec<char> = Vec::new();
    let mut i: usize = 0;
    assert(s@.skip(0) =~= s@);
    while i < n
        invariant
            n == s@.len(),
            p == pat@.len(),
            p > 0,
            i <= n,
            out@ + replace_all(s@.skip(i as int), pat@, seq![rep]) == replace_all(s@, pat@, seq![rep]),
        decreases n - i,
    {
        let ghost rest = s@.skip(i as int);
        let ghost prev = out@;
        if n - i >= p && matches_at(pat, s, i, i + p) {
            assert(rest.take(p as int) =~= s@.subrange(i as int, i + p));
            assert(rest.skip(p as int) =~= s@.skip(i + p));
            out.push(rep);
            assert(out@ + replace_all(s@.skip(i + p), pat@, seq![rep]) =~= prev + replace_all(rest, pat@, seq![rep]));
            i += p;
        } else {
            if n - i >= p {
                assert(rest.take(p as int) =~= s@.subrange(i as int, i + p));
            }
            assert(rest.drop_first() =~= s@.skip(i + 1));
            out.push(s[i]);
            assert(out@ + replace_all(s@.skip(i + 1), pat@, seq![rep]) =~= prev + replace_all(rest, pat@, seq![rep]));
            i += 1;
        }
    }
    assert(out@ + replace_all(s@.skip(i as int), pat@, seq![rep]) =~= out@);
    out
}

/// Replaces each marker name in the text with the character of its code, longest names
/// first, so that no shorter name is replaced inside a longer one.
pub fn preprocess_markers(text: &str) -> (r: String)
    ensures
        r@ == preprocess_spec(text@),
{
    let table = markers();
    let ghost tv = table_view(table@);
    let mut longest: usize = 0;
    let mut k: usize = 0;
    while k < table.len()
        invariant
            tv == table_view(table@),
            k <= table@.len(),
            longest == longest_name(tv, k as int),
        decreases table@.len() - k,
    {
        if table[k].0.len() > longest {
            longest = table[k].0.len();
        }
        k += 1;
    }
    let mut current = chars_of(text);
    let mut len: usize = longest;
    while len > 0
        invariant
            tv == table_view(table@),
            tv == marker_table(),
            len <= longest,
            replace_names_from(current@, tv, len as nat) == preprocess_spec(text@),
        decreases len,
    {
        let ghost start = current@;
        let mut j: usize = 0;
        while j < table.len()
            invariant
                tv == table_view(table@),
                j <= table@.len(),
                current@ == replace_names_of_length(start, tv, len as nat, j as int),
            decreases table@.len() - j,
        {
            if table[j].0.len() == len && len > 0 {
                current = replace_chars(current.as_slice(), &table[j].0, table[j].1 as char);
            }
            j += 1;
        }
        len -= 1;
    }
    string_of(current.as_slice())
}

/// Replaces each character whose code is a marker code with the marker's bracketed name.
pub fn postprocess_markers(text: &str) -> (r: String)
    ensures
        r@ == postprocess_spec(text@),
{
    let chars = chars_of(text);
    let table = markers();
    let ghost s = chars@;
    let ghost f = |c: char| expand_char(c);
    let mut result = String::new();
    let mut i: usize = 0;
    proof {
        assert(s.take(0).map_values(f) =~= Seq::<Seq<char>>::empty());
        assert(s.take(0).map_values(f).flatten() =~= Seq::<char>::empty());
    }
    while i < chars.len()
        invariant
            s == chars@,
            s == text@,
            f == (|c: char| expand_char(c)),
            table_view(table@) == marker_table(),
            i <= s.len(),
            result@ == s.take(i as int).map_values(f).flatten(),
        decreases s.len() - i,
    {
        let c = chars[i];
        let ghost prev = result@;
        proof {
            assert(s.take(i + 1).map_values(f) =~= s.take(i as int).map_values(f).push(f(c)));
            s.take(i as int).map_values(f).lemma_flatten_push(f(c));
        }
        let a = c as u32;
        let mut done = false;
        if a >= 100 && a <= 127 {
            if let Some(name) = name_of(&table, a as u8) {
                let mut t: usize = 0;
                while t < name.len()
                    invariant
                        t <= name@.len(),
                        result@ == prev + name@.take(t as int),
                    decreases name@.len() - t,
                {
                    push_char(&mut result, name[t]);
                    t += 1;
                    assert(result@ =~= prev + name@.take(t as int));
                }
                assert(name@.take(name@.len() as int) =~= name@);
                done = true;
            }
        }
        if !done {
            push_char(&mut result, c);
            assert(result@ =~= prev + seq![c]);
        }
        i += 1;
    }
    assert(s.take(s.len() as int) =~= s);
    result
}

} // verus!
