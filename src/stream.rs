use vstd::prelude::*;

use crate::error::{first_where, lemma_first_where_skip, Asc100Error};

verus! {

/// What can go wrong while rewriting a `key=value; ...` token stream.
#[derive(Debug, Clone, PartialEq, Eq, Structural)]
pub enum StreamError {
    /// A non-empty token without `=`.
    MissingEquals,
    /// Encoding or decoding a value failed.
    Codec(Asc100Error),
}

/// Unicode white space, as `char::is_whitespace` defines it.
pub open spec fn is_ws(c: char) -> bool {
    let a = c as u32;
    (9 <= a <= 13) || a == 32 || a == 0x85 || a == 0xA0 || a == 0x1680 || (0x2000 <= a <= 0x200A)
        || a == 0x2028 || a == 0x2029 || a == 0x202F || a == 0x205F || a == 0x3000
}

pub fn is_whitespace(c: char) -> (r: bool)
    ensures
        r == is_ws(c),
{
    let a = c as u32;
    (9 <= a && a <= 13) || a == 32 || a == 0x85 || a == 0xA0 || a == 0x1680 || (0x2000 <= a && a
        <= 0x200A) || a == 0x2028 || a == 0x2029 || a == 0x202F || a == 0x205F || a == 0x3000
}

/// The text without leading white space.
pub open spec fn trim_start(s: Seq<char>) -> Seq<char>
    decreases s.len(),
{
    if s.len() > 0 && is_ws(s[0]) {
        trim_start(s.drop_first())
    } else {
        s
    }
}

/// The text without trailing white space.
pub open spec fn trim_end(s: Seq<char>) -> Seq<char>
    decreases s.len(),
{
    if s.len() > 0 && is_ws(s.last()) {
        trim_end(s.drop_last())
    } else {
        s
    }
}

/// The text without leading and trailing white space.
pub open spec fn trim(s: Seq<char>) -> Seq<char> {
    trim_end(trim_start(s))
}

/// The pieces of `s` between the separators, as `str::split` gives them.
pub open spec fn split(s: Seq<char>, sep: char) -> Seq<Seq<char>>
    decreases s.len(),
{
    if s.len() == 0 {
        seq![Seq::empty()]
    } else {
        let p = split(s.drop_last(), sep);
        if s.last() == sep {
            p.push(Seq::empty())
        } else {
            p.update(p.len() - 1, p.last().push(s.last()))
        }
    }
}

/// Whether position `i` of `s` holds `c`.
pub open spec fn holds_at(s: Seq<char>, c: char, i: int) -> bool {
    s[i] == c
}

/// The text before and after the first `c`, when there is one.
pub open spec fn split_once(s: Seq<char>, c: char) -> Option<(Seq<char>, Seq<char>)> {
    let k = first_where(|i: int| holds_at(s, c, i), 0, s.len() as int);
    if k < s.len() {
        Some((s.take(k), s.skip(k + 1)))
    } else {
        None
    }
}

/// Whether `s` ends with `suffix`.
pub open spec fn ends_with(s: Seq<char>, suffix: Seq<char>) -> bool {
    s.len() >= suffix.len() && s.subrange(s.len() - suffix.len(), s.len() as int) == suffix
}

/// `s` with every trailing repetition of a non-empty `suffix` removed.
pub open spec fn trim_end_all(s: Seq<char>, suffix: Seq<char>) -> Seq<char>
    decreases s.len(),
{
    if suffix.len() > 0 && ends_with(s, suffix) {
        trim_end_all(s.subrange(0, s.len() - suffix.len()), suffix)
    } else {
        s
    }
}

/// The pieces joined with `sep` between neighbours.
pub open spec fn join(pieces: Seq<Seq<char>>, sep: Seq<char>) -> Seq<char>
    decreases pieces.len(),
{
    if pieces.len() == 0 {
        Seq::empty()
    } else if pieces.len() == 1 {
        pieces[0]
    } else {
        join(pieces.drop_last(), sep) + sep + pieces.last()
    }
}

/// The tokens of a stream: its `;`-separated pieces, trimmed, empty ones left out.
pub open spec fn stream_tokens(input: Seq<char>) -> Seq<Seq<char>> {
    split(input, ';').map_values(|p: Seq<char>| trim(p)).filter(|t: Seq<char>| t.len() > 0)
}

/// `"; "`.
pub open spec fn token_separator() -> Seq<char> {
    seq![';', ' ']
}

/// `key=value`.
pub open spec fn token_text(key: Seq<char>, value: Seq<char>) -> Seq<char> {
    key + seq!['='] + value
}

/// Whether `s` ends with `suffix`.
pub fn ends_with_chars(s: &[char], suffix: &[char]) -> (r: bool)
    ensures
        r == ends_with(s@, suffix@),
{
    let n = s.len();
    if n < suffix.len() {
        return false;
    }
    let off = n - suffix.len();
    let mut i: usize = 0;
    while i < suffix.len()
        invariant
            n == s@.len(),
            off + suffix@.len() == s@.len(),
            i <= suffix@.len(),
            forall|j: int| 0 <= j < i ==> s@[off + j] == suffix@[j],
        decreases suffix@.len() - i,
    {
        if s[off + i] != suffix[i] {
            assert(s@.subrange(off as int, s@.len() as int)[i as int] != suffix@[i as int]);
            return false;
        }
        i += 1;
    }
    assert(s@.subrange(off as int, s@.len() as int) =~= suffix@);
    true
}

/// `s` with every trailing repetition of `suffix` removed.
pub fn trim_end_matches(s: &[char], suffix: &[char]) -> (r: Vec<char>)
    requires
        suffix@.len() > 0,
    ensures
        r@ == trim_end_all(s@, suffix@),
{
    let mut end: usize = s.len();
    assert(s@.subrange(0, end as int) =~= s@);
    while end >= suffix.len() && ends_with_chars(&s[0..end], suffix)
        invariant
            end <= s@.len(),
            suffix@.len() > 0,
            trim_end_all(s@, suffix@) == trim_end_all(s@.subrange(0, end as int), suffix@),
        decreases end,
    {
        assert(s@.subrange(0, end as int).subrange(0, end - suffix@.len()) =~= s@.subrange(0, end - suffix@.len()));
        end = end - suffix.len();
    }
    let mut out: Vec<char> = Vec::new();
    let mut i: usize = 0;
    while i < end
        invariant
            i <= end,
            end <= s@.len(),
            out@ == s@.subrange(0, i as int),
        decreases end - i,
    {
        out.push(s[i]);
        i += 1;
        assert(out@ =~= s@.subrange(0, i as int));
    }
    out
}

/// The text without leading and trailing white space.
pub fn trim_chars(s: &[char]) -> (r: Vec<char>)
    ensures
        r@ == trim(s@),
{
    let mut lo: usize = 0;
    assert(s@.subrange(0, s@.len() as int) =~= s@);
    while lo < s.len() && is_whitespace(s[lo])
        invariant
            lo <= s@.len(),
            trim_start(s@) == trim_start(s@.subrange(lo as int, s@.len() as int)),
        decreases s@.len() - lo,
    {
        assert(s@.subrange(lo as int, s@.len() as int).drop_first() =~= s@.subrange(lo + 1, s@.len() as int));
        lo += 1;
    }
    let ghost t = s@.subrange(lo as int, s@.len() as int);
    assert(trim_start(s@) == t);
    let mut hi: usize = s.len();
    assert(t.subrange(0, (hi - lo) as int) =~= t);
    while hi > lo && is_whitespace(s[hi - 1])
        invariant
            lo <= hi <= s@.len(),
            t == s@.subrange(lo as int, s@.len() as int),
            trim_end(t) == trim_end(t.subrange(0, (hi - lo) as int)),
        decreases hi,
    {
        assert(t.subrange(0, (hi - lo) as int).drop_last() =~= t.subrange(0, (hi - lo - 1) as int));
        hi -= 1;
    }
    let mut out: Vec<char> = Vec::new();
    let mut i: usize = lo;
    while i < hi
        invariant
            lo <= i <= hi,
            hi <= s@.len(),
            out@ == s@.subrange(lo as int, i as int),
        decreases hi - i,
    {
        out.push(s[i]);
        i += 1;
        assert(out@ =~= s@.subrange(lo as int, i as int));
    }
    assert(t.subrange(0, (hi - lo) as int) =~= s@.subrange(lo as int, hi as int));
    out
}

/// The text before and after the first `c`, when there is one.
pub fn split_once_chars(s: &[char], c: char) -> (r: Option<(Vec<char>, Vec<char>)>)
    ensures
        match r {
            Some(p) => split_once(s@, c) == Some((p.0@, p.1@)),
            None => split_once(s@, c) is None,
        },
{
    let ghost at = |i: int| holds_at(s@, c, i);
    let mut k: usize = 0;
    while k < s.len() && s[k] != c
        invariant
            k <= s@.len(),
            at == (|i: int| holds_at(s@, c, i)),
            forall|j: int| 0 <= j < k ==> !#[trigger] at(j),
        decreases s@.len() - k,
    {
        k += 1;
    }
    proof {
        lemma_first_where_skip(at, 0, k as int, s@.len() as int);
    }
    if k == s.len() {
        return None;
    }
    let mut before: Vec<char> = Vec::new();
    let mut after: Vec<char> = Vec::new();
    let mut i: usize = 0;
    while i < k
        invariant
            i <= k,
            k < s@.len(),
            before@ == s@.take(i as int),
        decreases k - i,
    {
        before.push(s[i]);
        i += 1;
        assert(before@ =~= s@.take(i as int));
    }
    let mut j: usize = k + 1;
    while j < s.len()
        invariant
            k < j <= s@.len(),
            after@ == s@.subrange(k + 1, j as int),
        decreases s@.len() - j,
    {
        after.push(s[j]);
        j += 1;
        assert(after@ =~= s@.subrange(k + 1, j as int));
    }
    assert(after@ =~= s@.skip(k + 1));
    Some((before, after))
}

/// The `;`-separated pieces of a stream, trimmed, without the empty ones.
pub fn stream_token_list(input: &[char]) -> (r: Vec<Vec<char>>)
    ensures
        r@.map_values(|v: Vec<char>| v@) == stream_tokens(input@),
{
    let ghost s = input@;
    let mut pieces: Vec<Vec<char>> = Vec::new();
    let mut current: Vec<char> = Vec::new();
    let mut i: usize = 0;
    proof {
        assert(s.take(0) =~= Seq::<char>::empty());
        assert(split(s.take(0), ';') =~= pieces@.map_values(|v: Vec<char>| v@).push(current@));
    }
    while i < input.len()
        invariant
            s == input@,
            i <= s.len(),
            split(s.take(i as int), ';') == pieces@.map_values(|v: Vec<char>| v@).push(current@),
        decreases s.len() - i,
    {
        let ghost before = pieces@.map_values(|v: Vec<char>| v@);
        let ch = input[i];
        assert(s.take(i + 1).drop_last() =~= s.take(i as int));
        if ch == ';' {
            let done = current;
            pieces.push(done);
            current = Vec::new();
            assert(pieces@.map_values(|v: Vec<char>| v@) =~= before.push(done@));
            assert(split(s.take(i + 1), ';') =~= pieces@.map_values(|v: Vec<char>| v@).push(current@));
        } else {
            current.push(ch);
            assert(split(s.take(i + 1), ';') =~= pieces@.map_values(|v: Vec<char>| v@).push(current@));
        }
        i += 1;
    }
    pieces.push(current);
    assert(s.take(s.len() as int) =~= s);
    let ghost all = pieces@.map_values(|v: Vec<char>| v@);
    assert(all == split(s, ';')) by {
        assert(pieces@.map_values(|v: Vec<char>| v@) =~= split(s.take(s.len() as int), ';'));
    }
    let ghost trimmed = all.map_values(|p: Seq<char>| trim(p));
    let ghost keep = |t: Seq<char>| t.len() > 0;
    let mut out: Vec<Vec<char>> = Vec::new();
    let mut k: usize = 0;
    proof {
        reveal(Seq::filter);
        assert(trimmed.take(0).filter(keep) =~= Seq::<Seq<char>>::empty());
        assert(out@.map_values(|v: Vec<char>| v@) =~= Seq::<Seq<char>>::empty());
    }
    while k < pieces.len()
        invariant
            all == pieces@.map_values(|v: Vec<char>| v@),
            trimmed == all.map_values(|p: Seq<char>| trim(p)),
            keep == (|t: Seq<char>| t.len() > 0),
            k <= pieces@.len(),
            out@.map_values(|v: Vec<char>| v@) == trimmed.take(k as int).filter(keep),
        decreases pieces@.len() - k,
    {
        let t = trim_chars(pieces[k].as_slice());
        proof {
            assert(trimmed.take(k + 1) =~= trimmed.take(k as int).push(trimmed[k as int]));
            trimmed.take(k as int).lemma_filter_push(trimmed[k as int], keep);
            assert(t@ == trimmed[k as int]);
        }
        if t.len() > 0 {
            let ghost before = out@.map_values(|v: Vec<char>| v@);
            out.push(t);
            assert(out@.map_values(|v: Vec<char>| v@) =~= before.push(trimmed[k as int]));
        }
        k += 1;
    }
    assert(trimmed.take(k as int) =~= trimmed);
    out
}

/// The pieces joined with `"; "`.
pub fn join_tokens(pieces: &Vec<Vec<char>>) -> (r: Vec<char>)
    ensures
        r@ == join(pieces@.map_values(|v: Vec<char>| v@), token_separator()),
{
    let ghost ps = pieces@.map_values(|v: Vec<char>| v@);
    let mut out: Vec<char> = Vec::new();
    let mut k: usize = 0;
    assert(ps.take(0) =~= Seq::<Seq<char>>::empty());
    while k < pieces.len()
        invariant
            ps == pieces@.map_values(|v: Vec<char>| v@),
            k <= ps.len(),
            out@ == join(ps.take(k as int), token_separator()),
        decreases ps.len() - k,
    {
        let ghost prev = out@;
        assert(ps.take(k + 1).drop_last() =~= ps.take(k as int));
        if k > 0 {
            out.push(';');
            out.push(' ');
        }
        let p = &pieces[k];
        let mut t: usize = 0;
        while t < p.len()
            invariant
                t <= p@.len(),
                k > 0 ==> out@ == prev + token_separator() + p@.take(t as int),
                k == 0 ==> out@ == prev + p@.take(t as int),
            decreases p@.len() - t,
        {
            out.push(p[t]);
            t += 1;
            assert(k > 0 ==> out@ =~= prev + token_separator() + p@.take(t as int));
            assert(k == 0 ==> out@ =~= prev + p@.take(t as int));
        }
        assert(p@.take(p@.len() as int) =~= p@);
        if k == 0 {
            assert(prev =~= Seq::<char>::empty());
            assert(out@ =~= ps.take(1)[0]);
        }
        k += 1;
    }
    assert(ps.take(ps.len() as int) =~= ps);
    out
}

/// `key=value` as characters.
pub fn token_chars(key: &[char], value: &[char]) -> (r: Vec<char>)
    ensures
        r@ == token_text(key@, value@),
{
    let mut out: Vec<char> = Vec::new();
    let mut i: usize = 0;
    while i < key.len()
        invariant
            i <= key@.len(),
            out@ == key@.take(i as int),
        decreases key@.len() - i,
    {
        out.push(key[i]);
        i += 1;
        assert(out@ =~= key@.take(i as int));
    }
    out.push('=');
    let mut j: usize = 0;
    while j < value.len()
        invariant
            j <= value@.len(),
            i == key@.len(),
            out@ == key@.take(i as int) + seq!['='] + value@.take(j as int),
        decreases value@.len() - j,
    {
        out.push(value[j]);
        j += 1;
        assert(out@ =~= key@.take(i as int) + seq!['='] + value@.take(j as int));
    }
    assert(key@.take(i as int) =~= key@);
    assert(value@.take(j as int) =~= value@);
    out
}


/// Rewriting every token with `op`, in order, stopping at the first error.
pub open spec fn map_tokens(
    toks: Seq<Seq<char>>,
    op: spec_fn(Seq<char>) -> Result<Seq<char>, StreamError>,
) -> Result<Seq<Seq<char>>, StreamError>
    decreases toks.len(),
{
    if toks.len() == 0 {
        Ok(Seq::empty())
    } else {
        match map_tokens(toks.drop_last(), op) {
            Err(e) => Err(e),
            Ok(out) => match op(toks.last()) {
                Err(e) => Err(e),
                Ok(t) => Ok(out.push(t)),
            },
        }
    }
}

/// Rewriting a stream: each token rewritten by `op`, joined with `"; "`.
pub open spec fn map_stream(
    input: Seq<char>,
    op: spec_fn(Seq<char>) -> Result<Seq<char>, StreamError>,
) -> Result<Seq<char>, StreamError> {
    match map_tokens(stream_tokens(input), op) {
        Err(e) => Err(e),
        Ok(out) => Ok(join(out, token_separator())),
    }
}

/// An error on a prefix of the tokens is the error of the whole stream.
pub proof fn lemma_map_tokens_prefix_err(
    toks: Seq<Seq<char>>,
    n: int,
    op: spec_fn(Seq<char>) -> Result<Seq<char>, StreamError>,
)
    requires
        0 <= n <= toks.len(),
        map_tokens(toks.take(n), op) is Err,
    ensures
        map_tokens(toks, op) == map_tokens(toks.take(n), op),
    decreases toks.len() - n,
{
    if n < toks.len() {
        assert(toks.take(n + 1).drop_last() =~= toks.take(n));
        lemma_map_tokens_prefix_err(toks, n + 1, op);
    } else {
        assert(toks.take(n) =~= toks);
    }
}

/// One step of the rewriting loop.
pub proof fn lemma_map_tokens_step(
    toks: Seq<Seq<char>>,
    n: int,
    op: spec_fn(Seq<char>) -> Result<Seq<char>, StreamError>,
)
    requires
        0 <= n < toks.len(),
    ensures
        map_tokens(toks.take(n + 1), op) == match map_tokens(toks.take(n), op) {
            Err(e) => Err(e),
            Ok(out) => match op(toks[n]) {
                Err(e) => Err(e),
                Ok(t) => Ok(out.push(t)),
            },
        },
{
    assert(toks.take(n + 1).drop_last() =~= toks.take(n));
}

/// A string result of a stream rewrite seen through the views of its text.
pub open spec fn stream_result(r: Result<String, StreamError>) -> Result<Seq<char>, StreamError> {
    match r {
        Ok(s) => Ok(s@),
        Err(e) => Err(e),
    }
}

/// `key + suffix` as characters.
pub fn with_suffix(key: &[char], suffix: &[char]) -> (r: Vec<char>)
    ensures
        r@ == key@ + suffix@,
{
    let mut out: Vec<char> = Vec::new();
    let mut i: usize = 0;
    while i < key.len()
        invariant
            i <= key@.len(),
            out@ == key@.take(i as int),
        decreases key@.len() - i,
    {
        out.push(key[i]);
        i += 1;
        assert(out@ =~= key@.take(i as int));
    }
    let mut j: usize = 0;
    while j < suffix.len()
        invariant
            j <= suffix@.len(),
            out@ == key@ + suffix@.take(j as int),
        decreases suffix@.len() - j,
    {
        out.push(suffix[j]);
        j += 1;
        assert(out@ =~= key@ + suffix@.take(j as int));
    }
    assert(key@.take(key@.len() as int) =~= key@);
    assert(suffix@.take(suffix@.len() as int) =~= suffix@);
    out
}

} // verus!
