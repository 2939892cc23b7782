use vstd::prelude::*;

verus! {

/// The characters of a string slice, in order.
pub fn chars_of(s: &str) -> (r: Vec<char>)
    ensures
        r@ == s@,
{
    let mut out: Vec<char> = Vec::new();
    for c in it: s.chars()
        invariant
            out@ == it.seq().take(it.index() as int),
    {
        out.push(c);
    }
    out
}


/// Relies on String::push: the character is appended at the end.
#[verifier::external_body]
pub(crate) fn push_char(s: &mut String, c: char)
    ensures
        final(s)@ == old(s)@.push(c),
{
    s.push(c);
}

/// A string holding the given characters.
pub fn string_of(v: &[char]) -> (r: String)
    ensures
        r@ == v@,
{
    let mut out = String::new();
    let mut i: usize = 0;
    while i < v.len()
        invariant
            i <= v@.len(),
            out@ == v@.take(i as int),
        decreases v@.len() - i,
    {
        push_char(&mut out, v[i]);
        i += 1;
        assert(out@ =~= v@.take(i as int));
    }
    assert(v@.take(v@.len() as int) =~= v@);
    out
}


/// Whether two character sequences are equal.
pub fn same_chars(a: &[char], b: &[char]) -> (r: bool)
    ensures
        r == (a@ == b@),
{
    if a.len() != b.len() {
        return false;
    }
    let mut i: usize = 0;
    while i < a.len()
        invariant
            a@.len() == b@.len(),
            i <= a@.len(),
            forall|j: int| 0 <= j < i ==> a@[j] == b@[j],
        decreases a@.len() - i,
    {
        if a[i] != b[i] {
            return false;
        }
        i += 1;
    }
    assert(a@ =~= b@);
    true
}

/// Whether two strings hold the same characters.
pub fn str_eq(a: &str, b: &str) -> (r: bool)
    ensures
        r == (a@ == b@),
{
    let x = chars_of(a);
    let y = chars_of(b);
    same_chars(x.as_slice(), y.as_slice())
}


/// The digit character of a value below 16 (upper-case letters past 9).
pub open spec fn digit_char(d: int) -> char {
    if d < 10 {
        (d + 48) as u32 as char
    } else {
        (d - 10 + 65) as u32 as char
    }
}

/// `n` written in base `b`, most significant digit first, at least `width` digits.
pub open spec fn digits(n: nat, b: nat, width: nat) -> Seq<char>
    decreases n, width,
    via digits_decreases
{
    if b < 2 || (n < b && width <= 1) {
        seq![digit_char(n as int)]
    } else {
        digits(n / b, b, if width > 0 { (width - 1) as nat } else { 0 }).push(digit_char((n % b) as int))
    }
}

#[via_fn]
proof fn digits_decreases(n: nat, b: nat, width: nat) {
    if b >= 2 {
        lemma_div_smaller(n, b);
    }
}

proof fn lemma_div_smaller(n: nat, b: nat)
    requires
        b >= 2,
    ensures
        n / b <= n,
        n > 0 ==> n / b < n,
{
    assert(n / b <= n) by (nonlinear_arith)
        requires
            b >= 2,
    ;
    if n > 0 {
        assert(n / b < n) by (nonlinear_arith)
            requires
                b >= 2,
                n > 0,
        ;
    }
}

/// `n` in base `base` (2 to 16), padded with zeros to `width` digits.
pub fn digits_of(n: u64, base: u64, width: u64) -> (r: Vec<char>)
    requires
        2 <= base <= 16,
    ensures
        r@ == digits(n as nat, base as nat, width as nat),
    decreases n, width,
{
    if n < base && width <= 1 {
        let d = n as u8;
        let c = if d < 10 {
            (d + 48) as char
        } else {
            (d - 10 + 65) as char
        };
        let mut v: Vec<char> = Vec::new();
        v.push(c);
        assert(v@ =~= seq![digit_char(n as int)]);
        v
    } else {
        let w = if width > 0 {
            width - 1
        } else {
            0
        };
        proof {
            lemma_div_smaller(n as nat, base as nat);
        }
        let mut v = digits_of(n / base, base, w);
        let d = (n % base) as u8;
        let c = if d < 10 {
            (d + 48) as char
        } else {
            (d - 10 + 65) as char
        };
        v.push(c);
        v
    }
}

/// Appends characters to a string.
pub fn push_chars(s: &mut String, v: &[char])
    ensures
        final(s)@ == old(s)@ + v@,
{
    let mut i: usize = 0;
    while i < v.len()
        invariant
            i <= v@.len(),
            s@ == old(s)@ + v@.take(i as int),
        decreases v@.len() - i,
    {
        push_char(s, v[i]);
        i += 1;
        assert(s@ =~= old(s)@ + v@.take(i as int));
    }
    assert(v@.take(i as int) =~= v@);
}

/// Appends the characters of a string slice to a string.
pub fn push_text(s: &mut String, t: &str)
    ensures
        final(s)@ == old(s)@ + t@,
{
    let v = chars_of(t);
    push_chars(s, v.as_slice());
}

} // verus!
