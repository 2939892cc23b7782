use vstd::prelude::*;

use crate::markers::{code_of, find_code, lemma_find_code_in, table_view};
use crate::strategy::EncodingStrategy;

verus! {

/// One unit of tokenized text: a literal character or a marker code.
#[derive(Clone, Copy, PartialEq, Eq, Structural)]
pub enum Token {
    Ch(char),
    Mark(u8),
}

/// The token of one literal character.
pub open spec fn char_token(c: char) -> Token {
    Token::Ch(c)
}

/// Literal text as tokens.
pub open spec fn literal_tokens(s: Seq<char>) -> Seq<Token> {
    Seq::new(s.len(), |i: int| char_token(s[i]))
}

/// Just past the first `#` at or after `j`, or the end of `s` when there is none.
pub open spec fn cand_end(s: Seq<char>, j: int) -> int
    decreases s.len() - j,
{
    if j >= s.len() {
        s.len() as int
    } else if s[j] == '#' {
        j + 1
    } else {
        cand_end(s, j + 1)
    }
}

pub proof fn lemma_cand_end(s: Seq<char>, j: int)
    requires
        0 <= j <= s.len(),
    ensures
        j <= cand_end(s, j) <= s.len(),
        j < s.len() ==> j < cand_end(s, j),
        forall|k: int| j <= k < cand_end(s, j) - 1 ==> s[k] != '#',
        cand_end(s, j) < s.len() || cand_end(s, j) == s.len(),
    decreases s.len() - j,
{
    if j < s.len() && s[j] != '#' {
        lemma_cand_end(s, j + 1);
    }
}

/// The tokens of `s` from position `i`. A `#` opens a candidate that runs through
/// the next `#` (or to the end); a candidate that names a marker of `table` whose
/// code `supports` admits becomes that marker, any other candidate is literal text,
/// and scanning goes on after it.
pub open spec fn tokens_from(
    s: Seq<char>,
    i: int,
    table: Seq<(Seq<char>, u8)>,
    supports: spec_fn(u8) -> bool,
) -> Seq<Token>
    decreases s.len() - i,
    via tokens_from_decreases
{
    if i < 0 || i >= s.len() {
        Seq::empty()
    } else if s[i] == '#' {
        let e = cand_end(s, i + 1);
        let cand = s.subrange(i, e);
        match find_code(table, cand) {
            Some(code) => if supports(code) {
                seq![Token::Mark(code)] + tokens_from(s, e, table, supports)
            } else {
                literal_tokens(cand) + tokens_from(s, e, table, supports)
            },
            None => literal_tokens(cand) + tokens_from(s, e, table, supports),
        }
    } else {
        seq![char_token(s[i])] + tokens_from(s, i + 1, table, supports)
    }
}

#[via_fn]
proof fn tokens_from_decreases(
    s: Seq<char>,
    i: int,
    table: Seq<(Seq<char>, u8)>,
    supports: spec_fn(u8) -> bool,
) {
    if 0 <= i < s.len() {
        lemma_cand_end(s, i + 1);
    }
}

/// The tokens of a whole text.
pub open spec fn tokens(s: Seq<char>, table: Seq<(Seq<char>, u8)>, supports: spec_fn(u8) -> bool) -> Seq<Token> {
    tokens_from(s, 0, table, supports)
}

/// A run of literal text, or one marker code.
pub enum Sentinel {
    Text(Vec<char>),
    Marker(u8),
}

pub open spec fn sentinel_tokens(x: Sentinel) -> Seq<Token> {
    match x {
        Sentinel::Text(v) => literal_tokens(v@),
        Sentinel::Marker(c) => seq![Token::Mark(c)],
    }
}

/// The tokens that a sequence of sentinels stands for.
pub open spec fn sentinels_tokens(xs: Seq<Sentinel>) -> Seq<Token> {
    xs.map_values(|x: Sentinel| sentinel_tokens(x)).flatten()
}

proof fn lemma_sentinels_push(xs: Seq<Sentinel>, x: Sentinel)
    ensures
        sentinels_tokens(xs.push(x)) == sentinels_tokens(xs) + sentinel_tokens(x),
{
    let f = |x: Sentinel| sentinel_tokens(x);
    assert(xs.push(x).map_values(f) =~= xs.map_values(f).push(sentinel_tokens(x)));
    xs.map_values(f).lemma_flatten_push(sentinel_tokens(x));
}

/// Runs of text are non-empty and never neighbours, and every marker has a code that
/// `supports` admits and that some entry of `table` carries.
#[verifier::opaque]
pub open spec fn well_grouped(xs: Seq<Sentinel>, table: Seq<(Seq<char>, u8)>, supports: spec_fn(u8) -> bool) -> bool {
    &&& forall|i: int| 0 <= i < xs.len() && (#[trigger] xs[i]) is Text ==> xs[i]->Text_0@.len() > 0
    &&& forall|i: int| 0 <= i < xs.len() - 1 && (#[trigger] xs[i]) is Text ==> !(xs[i + 1] is Text)
    &&& forall|i: int|
        0 <= i < xs.len() && (#[trigger] xs[i]) is Marker ==> supports(xs[i]->Marker_0) && exists|k: int|
            0 <= k < table.len() && table[k].1 == xs[i]->Marker_0
}

proof fn lemma_grouped_push_text(
    xs: Seq<Sentinel>,
    text: Vec<char>,
    table: Seq<(Seq<char>, u8)>,
    supports: spec_fn(u8) -> bool,
)
    requires
        well_grouped(xs, table, supports),
        text@.len() > 0,
        xs.len() > 0 ==> xs.last() is Marker,
    ensures
        well_grouped(xs.push(Sentinel::Text(text)), table, supports),
{
    reveal(well_grouped);
    let ys = xs.push(Sentinel::Text(text));
    assert forall|m: int| 0 <= m < ys.len() - 1 && (#[trigger] ys[m]) is Text implies !(ys[m + 1] is Text) by {
        if m == ys.len() - 2 {
            assert(ys[m] == xs.last());
        } else {
            assert(ys[m] == xs[m] && ys[m + 1] == xs[m + 1]);
        }
    }
    assert forall|m: int| 0 <= m < ys.len() && (#[trigger] ys[m]) is Marker implies supports(ys[m]->Marker_0) && exists|k: int|
        0 <= k < table.len() && table[k].1 == ys[m]->Marker_0 by {
        assert(ys[m] == xs[m]);
    }
}

proof fn lemma_grouped_push_marker(
    xs: Seq<Sentinel>,
    code: u8,
    table: Seq<(Seq<char>, u8)>,
    supports: spec_fn(u8) -> bool,
)
    requires
        well_grouped(xs, table, supports),
        supports(code),
        exists|k: int| 0 <= k < table.len() && table[k].1 == code,
    ensures
        well_grouped(xs.push(Sentinel::Marker(code)), table, supports),
        xs.push(Sentinel::Marker(code)).last() is Marker,
{
    reveal(well_grouped);
    let ys = xs.push(Sentinel::Marker(code));
    assert forall|m: int| 0 <= m < ys.len() - 1 && (#[trigger] ys[m]) is Text implies !(ys[m + 1] is Text) by {
        assert(ys[m] == xs[m]);
        if m < ys.len() - 2 {
            assert(ys[m + 1] == xs[m + 1]);
        }
    }
    assert forall|m: int| 0 <= m < ys.len() && (#[trigger] ys[m]) is Marker implies supports(ys[m]->Marker_0) && exists|k: int|
        0 <= k < table.len() && table[k].1 == ys[m]->Marker_0 by {
        if m < xs.len() {
            assert(ys[m] == xs[m]);
        }
    }
}

/// Splits a text into runs of literal text and marker codes, recognising the markers
/// of `table` whose codes `strategy` supports.
#[verifier::rlimit(60)]
pub fn parse_sentinels<S: EncodingStrategy>(
    input: &[char],
    table: &Vec<(Vec<char>, u8)>,
    strategy: &S,
) -> (r: Vec<Sentinel>)
    ensures
        sentinels_tokens(r@) == tokens(input@, table_view(table@), |c: u8| strategy.spec_supports(c)),
        well_grouped(r@, table_view(table@), |c: u8| strategy.spec_supports(c)),
{
    let ghost s = input@;
    let ghost tv = table_view(table@);
    let ghost supp = |c: u8| strategy.spec_supports(c);
    let n = input.len();
    let mut sentinels: Vec<Sentinel> = Vec::new();
    let mut current_text: Vec<char> = Vec::new();
    let mut i: usize = 0;
    proof {
        reveal(well_grouped);
        assert(sentinels_tokens(sentinels@) =~= Seq::<Token>::empty());
        assert(literal_tokens(current_text@) =~= Seq::<Token>::empty());
        assert(sentinels_tokens(sentinels@) + literal_tokens(current_text@) + tokens_from(s, 0, tv, supp)
            =~= tokens_from(s, 0, tv, supp));
    }
    while i < n
        invariant
            s == input@,
            n == s.len(),
            tv == table_view(table@),
            supp == (|c: u8| strategy.spec_supports(c)),
            i <= n,
            sentinels_tokens(sentinels@) + literal_tokens(current_text@) + tokens_from(s, i as int, tv, supp)
                == tokens_from(s, 0, tv, supp),
            well_grouped(sentinels@, tv, supp),
            sentinels@.len() > 0 ==> sentinels@.last() is Marker,
        decreases n - i,
    {
        let ghost before = sentinels_tokens(sentinels@) + literal_tokens(current_text@);
        let ch = input[i];
        if ch == '#' {
            let mut j: usize = i + 1;
            while j < n && input[j] != '#'
                invariant
                    s == input@,
                    n == s.len(),
                    i < j <= n,
                    cand_end(s, j as int) == cand_end(s, i + 1),
                decreases n - j,
            {
                j += 1;
            }
            let end: usize = if j < n {
                j + 1
            } else {
                n
            };
            assert(end == cand_end(s, i + 1));
            proof {
                lemma_cand_end(s, i + 1);
            }
            let found = code_of(table, input, i, end);
            let ghost cand = s.subrange(i as int, end as int);
            let mut recognised = false;
            if let Some(code) = found {
                if strategy.supports_index(code) {
                    recognised = true;
                    if current_text.len() > 0 {
                        let text = current_text;
                        proof {
                            lemma_sentinels_push(sentinels@, Sentinel::Text(text));
                        }
                        proof {
                            lemma_grouped_push_text(sentinels@, text, tv, supp);
                        }
                        sentinels.push(Sentinel::Text(text));
                        current_text = Vec::new();
                    }
                    assert(literal_tokens(current_text@) =~= Seq::<Token>::empty());
                    assert(sentinels_tokens(sentinels@) + literal_tokens(current_text@) =~= before);
                    proof {
                        lemma_sentinels_push(sentinels@, Sentinel::Marker(code));
                    }
                    proof {
                        lemma_find_code_in(tv, cand);
                        lemma_grouped_push_marker(sentinels@, code, tv, supp);
                    }
                    sentinels.push(Sentinel::Marker(code));
                    assert(literal_tokens(current_text@) =~= Seq::<Token>::empty());
                    assert(sentinels_tokens(sentinels@) + literal_tokens(current_text@) + tokens_from(s, end as int, tv, supp)
                        =~= before + tokens_from(s, i as int, tv, supp));
                }
            }
            if !recognised {
                let ghost old_text = current_text@;
                let mut k: usize = i;
                while k < end
                    invariant
                        i <= k <= end,
                        end <= n,
                        n == s.len(),
                        s == input@,
                        current_text@ == old_text + s.subrange(i as int, k as int),
                    decreases end - k,
                {
                    current_text.push(input[k]);
                    k += 1;
                    assert(current_text@ =~= old_text + s.subrange(i as int, k as int));
                }
                assert(literal_tokens(current_text@) =~= literal_tokens(old_text) + literal_tokens(cand));
                assert(sentinels_tokens(sentinels@) + literal_tokens(current_text@) + tokens_from(s, end as int, tv, supp)
                    =~= before + tokens_from(s, i as int, tv, supp));
            }
            i = end;
        } else {
            current_text.push(ch);
            assert(literal_tokens(current_text@) =~= literal_tokens(current_text@.drop_last()).push(char_token(ch)));
            assert(sentinels_tokens(sentinels@) + literal_tokens(current_text@) + tokens_from(s, i + 1, tv, supp)
                =~= before + tokens_from(s, i as int, tv, supp));
            i += 1;
        }
    }
    if current_text.len() > 0 {
        let text = current_text;
        proof {
            lemma_sentinels_push(sentinels@, Sentinel::Text(text));
        }
        proof {
            lemma_grouped_push_text(sentinels@, text, tv, supp);
        }
        sentinels.push(Sentinel::Text(text));
    } else {
        assert(literal_tokens(current_text@) =~= Seq::<Token>::empty());
    }
    assert(sentinels_tokens(sentinels@) =~= tokens_from(s, 0, tv, supp));
    sentinels
}


/// The tokens of a sequence of sentinels, one per character or marker.
pub fn flatten_sentinels(sentinels: &Vec<Sentinel>) -> (r: Vec<Token>)
    ensures
        r@ == sentinels_tokens(sentinels@),
{
    let ghost xs = sentinels@;
    let mut out: Vec<Token> = Vec::new();
    let mut k: usize = 0;
    proof {
        assert(xs.take(0).map_values(|x: Sentinel| sentinel_tokens(x)) =~= Seq::<Seq<Token>>::empty());
        assert(sentinels_tokens(xs.take(0)) =~= Seq::<Token>::empty());
    }
    while k < sentinels.len()
        invariant
            xs == sentinels@,
            k <= xs.len(),
            out@ == sentinels_tokens(xs.take(k as int)),
        decreases xs.len() - k,
    {
        proof {
            assert(xs.take(k + 1) =~= xs.take(k as int).push(xs[k as int]));
            lemma_sentinels_push(xs.take(k as int), xs[k as int]);
        }
        let ghost prev = out@;
        match &sentinels[k] {
            Sentinel::Text(text) => {
                let mut t: usize = 0;
                while t < text.len()
                    invariant
                        t <= text@.len(),
                        out@ == prev + literal_tokens(text@.take(t as int)),
                    decreases text@.len() - t,
                {
                    let c = text[t];
                    out.push(Token::Ch(c));
                    assert(char_token(c) == Token::Ch(c));
                    assert(literal_tokens(text@.take(t + 1)) =~= literal_tokens(text@.take(t as int)).push(char_token(c)));
                    t += 1;
                    assert(out@ =~= prev + literal_tokens(text@.take(t as int)));
                }
                assert(text@.take(text@.len() as int) =~= text@);
            },
            Sentinel::Marker(code) => {
                out.push(Token::Mark(*code));
                assert(out@ =~= prev + seq![Token::Mark(*code)]);
            },
        }
        k += 1;
    }
    assert(xs.take(xs.len() as int) =~= xs);
    out
}

} // verus!
