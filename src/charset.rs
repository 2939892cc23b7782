use vstd::prelude::*;

verus! {

/// A character of the base alphabet: printable ASCII 32..=126, or one of
/// tab, newline, carriage return, NUL and the reserved byte 0x01.
pub open spec fn is_base_char(c: char) -> bool {
    let a = c as u32;
    (32 <= a && a <= 126) || a == 9 || a == 10 || a == 13 || a == 0 || a == 1
}

/// The unpermuted base alphabet: printable ASCII in code order at 0..=94,
/// then tab, newline, carriage return, NUL and 0x01 at 95..=99.
pub open spec fn base_charset_spec() -> Seq<char> {
    Seq::new(100, |i: int| base_char_at(i))
}

pub open spec fn base_char_at(i: int) -> char {
    if i < 95 {
        (i + 32) as u32 as char
    } else if i == 95 {
        '\t'
    } else if i == 96 {
        '\n'
    } else if i == 97 {
        '\r'
    } else if i == 98 {
        '\0'
    } else {
        '\x01'
    }
}

pub fn create_base_charset() -> (r: [char; 100])
    ensures
        r@ == base_charset_spec(),
{
    let mut chars: [char; 100] = ['\0'; 100];
    let mut idx: usize = 0;
    let mut ascii: u8 = 32;
    while ascii <= 126
        invariant
            32 <= ascii <= 127,
            idx == ascii - 32,
            chars@.len() == 100,
            forall|i: int| 0 <= i < idx ==> chars@[i] == base_char_at(i),
        decreases 127 - ascii,
    {
        chars[idx] = ascii as char;
        idx += 1;
        ascii += 1;
    }
    chars[95] = '\t';
    chars[96] = '\n';
    chars[97] = '\r';
    chars[98] = '\0';
    chars[99] = '\x01';
    assert(chars@ =~= base_charset_spec());
    chars
}


/// The alphabet is a permutation of the base set: 100 distinct base characters,
/// and every base character occurs.
pub open spec fn is_charset(cs: Seq<char>) -> bool {
    &&& cs.len() == 100
    &&& forall|i: int, j: int| 0 <= i < j < 100 ==> cs[i] != cs[j]
    &&& forall|i: int| 0 <= i < 100 ==> is_base_char(#[trigger] cs[i])
    &&& forall|c: char| is_base_char(c) ==> exists|i: int| 0 <= i < 100 && cs[i] == c
}

pub proof fn lemma_base_charset_is_charset()
    ensures
        is_charset(base_charset_spec()),
{
    let cs = base_charset_spec();
    assert forall|i: int| 0 <= i < 100 implies is_base_char(#[trigger] cs[i]) && (i < 95 ==> cs[i] as u32 == i + 32) by {
    }
    assert forall|i: int, j: int| 0 <= i < j < 100 implies cs[i] != cs[j] by {
        assert(is_base_char(cs[i]) && is_base_char(cs[j]));
    }
    assert forall|c: char| is_base_char(c) implies exists|i: int| 0 <= i < 100 && cs[i] == c by {
        let a = c as u32;
        if 32 <= a <= 126 {
            let i = a - 32;
            vstd::utf8::char_u32_cast(c, a);
            assert(cs[i as int] == c);
        } else if a == 9 {
            assert('\t' as u32 == 9);
            vstd::utf8::char_u32_cast(c, a);
            assert(cs[95] == c);
        } else if a == 10 {
            assert('\n' as u32 == 10);
            vstd::utf8::char_u32_cast(c, a);
            assert(cs[96] == c);
        } else if a == 13 {
            assert('\r' as u32 == 13);
            vstd::utf8::char_u32_cast(c, a);
            assert(cs[97] == c);
        } else if a == 0 {
            assert('\0' as u32 == 0);
            vstd::utf8::char_u32_cast(c, a);
            assert(cs[98] == c);
        } else {
            assert('\x01' as u32 == 1);
            vstd::utf8::char_u32_cast(c, a);
            assert(cs[99] == c);
        }
    }
}


/// Exchanging the entries at two positions.
pub open spec fn seq_swap(s: Seq<char>, i: int, j: int) -> Seq<char> {
    s.update(i, s[j]).update(j, s[i])
}

/// Exchanging two ranges position by position, first offsets first.
pub open spec fn seq_swap_ranges(s: Seq<char>, a: int, b: int, n: int) -> Seq<char>
    decreases n,
{
    if n <= 0 {
        s
    } else {
        seq_swap(seq_swap_ranges(s, a, b, n - 1), a + n - 1, b + n - 1)
    }
}

pub fn swap_chars(chars: [char; 100], idx1: usize, idx2: usize) -> (r: [char; 100])
    requires
        idx1 < 100,
        idx2 < 100,
    ensures
        r@ == seq_swap(chars@, idx1 as int, idx2 as int),
{
    let mut chars = chars;
    let temp = chars[idx1];
    chars[idx1] = chars[idx2];
    chars[idx2] = temp;
    chars
}

pub proof fn lemma_swap_keeps_charset(s: Seq<char>, i: int, j: int)
    requires
        is_charset(s),
        0 <= i < 100,
        0 <= j < 100,
    ensures
        is_charset(seq_swap(s, i, j)),
{
    let t = seq_swap(s, i, j);
    let perm = |k: int| if k == i { j } else if k == j { i } else { k };
    assert forall|k: int| 0 <= k < 100 implies t[k] == s[perm(k)] by {}
    assert forall|k: int| 0 <= k < 100 implies is_base_char(#[trigger] t[k]) by {
        assert(t[k] == s[perm(k)]);
    }
    assert forall|k: int, l: int| 0 <= k < l < 100 implies t[k] != t[l] by {
        assert(t[k] == s[perm(k)] && t[l] == s[perm(l)]);
    }
    assert forall|c: char| is_base_char(c) implies exists|k: int| 0 <= k < 100 && t[k] == c by {
        let m = choose|m: int| 0 <= m < 100 && s[m] == c;
        assert(t[perm(m)] == s[perm(perm(m))]);
    }
}

pub proof fn lemma_swap_ranges_keeps_charset(s: Seq<char>, a: int, b: int, n: int)
    requires
        is_charset(s),
        0 <= a,
        0 <= b,
        a + n <= 100,
        b + n <= 100,
    ensures
        is_charset(seq_swap_ranges(s, a, b, n)),
    decreases n,
{
    if n > 0 {
        lemma_swap_ranges_keeps_charset(s, a, b, n - 1);
        lemma_swap_keeps_charset(seq_swap_ranges(s, a, b, n - 1), a + n - 1, b + n - 1);
    }
}

/// For ranges that do not overlap, the two blocks trade places and nothing else moves.
pub proof fn lemma_swap_ranges_disjoint(s: Seq<char>, a: int, b: int, n: int)
    requires
        s.len() == 100,
        0 <= a,
        0 <= b,
        0 <= n,
        a + n <= b || b + n <= a,
        a + n <= 100,
        b + n <= 100,
    ensures
        seq_swap_ranges(s, a, b, n).len() == 100,
        forall|k: int|
            0 <= k < 100 ==> #[trigger] seq_swap_ranges(s, a, b, n)[k] == if a <= k < a + n {
                s[k - a + b]
            } else if b <= k < b + n {
                s[k - b + a]
            } else {
                s[k]
            },
    decreases n,
{
    if n > 0 {
        lemma_swap_ranges_disjoint(s, a, b, n - 1);
    }
}

pub fn swap_ranges(
    chars: [char; 100],
    r1_start: usize,
    r1_len: usize,
    r2_start: usize,
    r2_len: usize,
) -> (r: [char; 100])
    requires
        r1_len == r2_len,
        r1_start + r1_len <= 100,
        r2_start + r2_len <= 100,
    ensures
        r@ == seq_swap_ranges(chars@, r1_start as int, r2_start as int, r1_len as int),
        r1_start + r1_len <= r2_start || r2_start + r2_len <= r1_start ==> forall|k: int|
            0 <= k < 100 ==> #[trigger] r@[k] == if r1_start <= k < r1_start + r1_len {
                chars@[k - r1_start + r2_start]
            } else if r2_start <= k < r2_start + r2_len {
                chars@[k - r2_start + r1_start]
            } else {
                chars@[k]
            },
{
    let mut chars = chars;
    let ghost orig = chars@;
    let mut i: usize = 0;
    while i < r1_len
        invariant
            i <= r1_len,
            r1_len == r2_len,
            r1_start + r1_len <= 100,
            r2_start + r2_len <= 100,
            chars@ == seq_swap_ranges(orig, r1_start as int, r2_start as int, i as int),
        decreases r1_len - i,
    {
        let temp = chars[r1_start + i];
        chars[r1_start + i] = chars[r2_start + i];
        chars[r2_start + i] = temp;
        i += 1;
        assert(chars@ =~= seq_swap_ranges(orig, r1_start as int, r2_start as int, i as int));
    }
    proof {
        if r1_start + r1_len <= r2_start || r2_start + r2_len <= r1_start {
            lemma_swap_ranges_disjoint(orig, r1_start as int, r2_start as int, r1_len as int);
        }
    }
    chars
}

/// The lookup entry for code `a` after the first `n` positions were recorded: the
/// last of them that holds the character with that code, or 255 when none does.
pub open spec fn lookup_entry(cs: Seq<char>, a: int, n: int) -> u8
    decreases n,
{
    if n <= 0 {
        255
    } else if cs[n - 1] as u32 == a {
        (n - 1) as u8
    } else {
        lookup_entry(cs, a, n - 1)
    }
}

/// The inverse table of an alphabet: one entry per 7-bit code.
pub open spec fn lookup_spec(cs: Seq<char>) -> Seq<u8> {
    Seq::new(128, |a: int| lookup_entry(cs, a, 100))
}

pub fn build_lookup_table(charset: [char; 100]) -> (r: [u8; 128])
    ensures
        r@ == lookup_spec(charset@),
{
    let mut table: [u8; 128] = [255u8; 128];
    let mut i: usize = 0;
    while i < 100
        invariant
            i <= 100,
            table@.len() == 128,
            forall|a: int| 0 <= a < 128 ==> table@[a] == lookup_entry(charset@, a, i as int),
        decreases 100 - i,
    {
        let ch = charset[i];
        let ascii = ch as u32;
        if ascii < 128 {
            table[ascii as usize] = i as u8;
        }
        i += 1;
    }
    assert(table@ =~= lookup_spec(charset@));
    table
}

proof fn lemma_lookup_entry_bound(cs: Seq<char>, a: int, n: int)
    requires
        0 <= n <= cs.len(),
        n <= 100,
    ensures
        lookup_entry(cs, a, n) == 255 || (lookup_entry(cs, a, n) < n && cs[lookup_entry(cs, a, n) as int] as u32 == a),
        lookup_entry(cs, a, n) == 255 <==> forall|k: int| 0 <= k < n ==> cs[k] as u32 != a,
    decreases n,
{
    if n > 0 {
        lemma_lookup_entry_bound(cs, a, n - 1);
    }
}

proof fn lemma_lookup_entry_finds(cs: Seq<char>, k: int, n: int)
    requires
        0 <= k < n <= cs.len(),
        n <= 100,
        forall|i: int, j: int| 0 <= i < j < n ==> cs[i] != cs[j],
    ensures
        lookup_entry(cs, cs[k] as u32 as int, n) == k,
    decreases n,
{
    if k < n - 1 {
        vstd::utf8::char_u32_cast(cs[k], cs[k] as u32);
        vstd::utf8::char_u32_cast(cs[n - 1], cs[n - 1] as u32);
        lemma_lookup_entry_finds(cs, k, n - 1);
    }
}

/// The table built from an alphabet is its exact inverse: every position is found
/// again from its character, every entry other than 255 names a position holding
/// that code, and 255 stands exactly for the codes outside the base set.
pub proof fn lemma_lookup_inverse(cs: Seq<char>)
    requires
        is_charset(cs),
    ensures
        lookup_spec(cs).len() == 128,
        forall|i: int| 0 <= i < 100 ==> ((#[trigger] cs[i]) as u32) < 128 && lookup_spec(cs)[cs[i] as u32 as int] == i,
        forall|a: int| 0 <= a < 128 ==> #[trigger] lookup_spec(cs)[a] == 255 || (lookup_spec(cs)[a] < 100 && cs[lookup_spec(cs)[a] as int] as u32 == a),
        forall|a: int| 0 <= a < 128 ==> (#[trigger] lookup_spec(cs)[a] == 255 <==> !is_base_char(a as u32 as char)),
{
    assert forall|i: int| 0 <= i < 100 implies ((#[trigger] cs[i]) as u32) < 128 && lookup_spec(cs)[cs[i] as u32 as int] == i by {
        assert(is_base_char(cs[i]));
        lemma_lookup_entry_finds(cs, i, 100);
    }
    assert forall|a: int| 0 <= a < 128 implies #[trigger] lookup_spec(cs)[a] == 255 || (lookup_spec(cs)[a] < 100 && cs[lookup_spec(cs)[a] as int] as u32 == a) by {
        lemma_lookup_entry_bound(cs, a, 100);
    }
    assert forall|a: int| 0 <= a < 128 implies (#[trigger] lookup_spec(cs)[a] == 255 <==> !is_base_char(a as u32 as char)) by {
        lemma_lookup_entry_bound(cs, a, 100);
        let c = a as u32 as char;
        if is_base_char(c) {
            let k = choose|k: int| 0 <= k < 100 && cs[k] == c;
            assert(cs[k] as u32 == a);
        } else {
            assert forall|k: int| 0 <= k < 100 implies cs[k] as u32 != a by {
                assert(is_base_char(cs[k]));
                vstd::utf8::char_u32_cast(cs[k], cs[k] as u32);
            }
        }
    }
}

/// Whether a 7-bit code lies in the marker range.
pub fn is_extension_marker(index: u8) -> (r: bool)
    ensures
        r == (100 <= index <= 127),
{
    index >= 100 && index <= 127
}

} // verus!
