//! Query preprocessing: lowercasing, whitespace and camel-case tokenization,
//! stop-word elision, stemming, and synthesis of the regex pattern strings
//! that the file-scanning stage compiles.

use vstd::prelude::*;
use std::collections::HashSet;

use crate::text::{chars_to_string, str_chars, str_eq};

verus! {

/// The Unicode `White_Space` property, written out: the ASCII controls and
/// space, next line, no-break space, Ogham space mark, the typographic
/// spaces, the line and paragraph separators, the narrow and medium
/// no-break spaces, and the ideographic space.
pub open spec fn is_ws(c: char) -> bool {
    ||| 9 <= (c as u32) <= 13
    ||| (c as u32) == 32
    ||| (c as u32) == 0x85
    ||| (c as u32) == 0xA0
    ||| (c as u32) == 0x1680
    ||| 0x2000 <= (c as u32) <= 0x200A
    ||| (c as u32) == 0x2028
    ||| (c as u32) == 0x2029
    ||| (c as u32) == 0x202F
    ||| (c as u32) == 0x205F
    ||| (c as u32) == 0x3000
}

/// Relies on `char::is_whitespace`: it returns exactly the `White_Space`
/// set written out above.
pub assume_specification[ char::is_whitespace ](c: char) -> (r: bool)
    ensures
        r == is_ws(c),
;

/// What `char::to_lowercase` yields for one character: a fixed mapping to
/// one or more characters (per its documentation, never to none).
pub uninterp spec fn lower_chars_of(c: char) -> Seq<char>;

/// Relies on `char::to_lowercase`: the mapping depends on the character
/// alone, and always yields at least one character.
#[verifier::external_body]
fn lower_char_ext(c: char) -> (r: Vec<char>)
    ensures
        r@ == lower_chars_of(c),
        r@.len() >= 1,
{
    c.to_lowercase().collect()
}

/// What the Snowball English stemmer returns for a word.
pub uninterp spec fn stem_of(w: Seq<char>) -> Seq<char>;

/// Relies on `rust_stemmers::Stemmer::stem` with the English algorithm: the
/// stem depends on the (lowercased) word alone.
#[verifier::external_body]
fn stem_word(word: &str) -> (r: String)
    ensures
        r@ == stem_of(word@),
{
    let stemmer = rust_stemmers::Stemmer::create(rust_stemmers::Algorithm::English);
    stemmer.stem(word).into_owned()
}

pub open spec fn is_ascii_char(c: char) -> bool {
    (c as u32) < 128
}

pub open spec fn is_ascii_upper(c: char) -> bool {
    65 <= (c as u32) <= 90
}

pub open spec fn is_ascii_lower(c: char) -> bool {
    97 <= (c as u32) <= 122
}

pub open spec fn is_ascii_digit_char(c: char) -> bool {
    48 <= (c as u32) <= 57
}

pub open spec fn is_ascii_alnum(c: char) -> bool {
    is_ascii_upper(c) || is_ascii_lower(c) || is_ascii_digit_char(c)
}

/// ASCII lowercasing of one character; other characters are unchanged here
/// and handled by `lower_chars_of`.
pub open spec fn lower_char_spec(c: char) -> char {
    if c == 'A' {
        'a'
    } else if c == 'B' {
        'b'
    } else if c == 'C' {
        'c'
    } else if c == 'D' {
        'd'
    } else if c == 'E' {
        'e'
    } else if c == 'F' {
        'f'
    } else if c == 'G' {
        'g'
    } else if c == 'H' {
        'h'
    } else if c == 'I' {
        'i'
    } else if c == 'J' {
        'j'
    } else if c == 'K' {
        'k'
    } else if c == 'L' {
        'l'
    } else if c == 'M' {
        'm'
    } else if c == 'N' {
        'n'
    } else if c == 'O' {
        'o'
    } else if c == 'P' {
        'p'
    } else if c == 'Q' {
        'q'
    } else if c == 'R' {
        'r'
    } else if c == 'S' {
        's'
    } else if c == 'T' {
        't'
    } else if c == 'U' {
        'u'
    } else if c == 'V' {
        'v'
    } else if c == 'W' {
        'w'
    } else if c == 'X' {
        'x'
    } else if c == 'Y' {
        'y'
    } else if c == 'Z' {
        'z'
    } else {
        c
    }
}

fn lower_ascii_char(c: char) -> (r: char)
    ensures
        r == lower_char_spec(c),
{
    if c == 'A' {
        'a'
    } else if c == 'B' {
        'b'
    } else if c == 'C' {
        'c'
    } else if c == 'D' {
        'd'
    } else if c == 'E' {
        'e'
    } else if c == 'F' {
        'f'
    } else if c == 'G' {
        'g'
    } else if c == 'H' {
        'h'
    } else if c == 'I' {
        'i'
    } else if c == 'J' {
        'j'
    } else if c == 'K' {
        'k'
    } else if c == 'L' {
        'l'
    } else if c == 'M' {
        'm'
    } else if c == 'N' {
        'n'
    } else if c == 'O' {
        'o'
    } else if c == 'P' {
        'p'
    } else if c == 'Q' {
        'q'
    } else if c == 'R' {
        'r'
    } else if c == 'S' {
        's'
    } else if c == 'T' {
        't'
    } else if c == 'U' {
        'u'
    } else if c == 'V' {
        'v'
    } else if c == 'W' {
        'w'
    } else if c == 'X' {
        'x'
    } else if c == 'Y' {
        'y'
    } else if c == 'Z' {
        'z'
    } else {
        c
    }
}

/// The lowercase expansion of one character; `char::to_lowercase` yields at
/// least one character, so the last arm never describes a real outcome.
pub open spec fn lowered_one(c: char) -> Seq<char> {
    if is_ascii_char(c) {
        seq![lower_char_spec(c)]
    } else if lower_chars_of(c).len() >= 1 {
        lower_chars_of(c)
    } else {
        seq![c]
    }
}

/// The lowercased form of a character sequence.
pub open spec fn lowered(s: Seq<char>) -> Seq<char>
    decreases s.len(),
{
    if s.len() == 0 {
        Seq::<char>::empty()
    } else {
        lowered_one(s[0]) + lowered(s.drop_first())
    }
}

fn lower_chars(s: &Vec<char>) -> (r: Vec<char>)
    ensures
        r@ == lowered(s@),
{
    let mut out: Vec<char> = Vec::new();
    let mut i: usize = 0;
    proof {
        assert(s@.skip(0) =~= s@);
        assert(out@ + lowered(s@) =~= lowered(s@));
    }
    while i < s.len()
        invariant
            0 <= i <= s@.len(),
            lowered(s@) == out@ + lowered(s@.skip(i as int)),
        decreases s@.len() - i,
    {
        let c = s[i];
        proof {
            assert(s@.skip(i as int)[0] == s@[i as int]);
            assert(s@.skip(i as int).drop_first() =~= s@.skip(i as int + 1));
        }
        if (c as u32) < 128 {
            let lc = lower_ascii_char(c);
            let ghost gout = out@;
            out.push(lc);
            proof {
                assert(gout.push(lower_char_spec(c)) =~= gout + seq![lower_char_spec(c)]);
                assert(out@ + lowered(s@.skip(i as int + 1)) =~= lowered(s@));
            }
        } else {
            let ext = lower_char_ext(c);
            let ghost gout = out@;
            let mut j: usize = 0;
            while j < ext.len()
                invariant
                    0 <= j <= ext@.len(),
                    out@ == gout + ext@.take(j as int),
                decreases ext@.len() - j,
            {
                out.push(ext[j]);
                proof {
                    assert(gout + ext@.take(j as int) + seq![ext@[j as int]] =~= gout + ext@.take(
                        j as int + 1,
                    ));
                }
                j += 1;
            }
            proof {
                assert(ext@.take(ext@.len() as int) =~= ext@);
                assert(lowered_one(s@[i as int]) == ext@);
                assert(out@ + lowered(s@.skip(i as int + 1)) =~= lowered(s@));
            }
        }
        i += 1;
    }
    proof {
        assert(s@.skip(s@.len() as int) =~= Seq::<char>::empty());
        assert(out@ + lowered(s@.skip(s@.len() as int)) =~= out@);
    }
    out
}

/// Splitting on whitespace with an accumulator for the word in progress;
/// only non-empty words are emitted.
pub open spec fn split_ws_acc(s: Seq<char>, cur: Seq<char>) -> Seq<Seq<char>>
    decreases s.len(),
{
    if s.len() == 0 {
        if cur.len() > 0 {
            seq![cur]
        } else {
            Seq::<Seq<char>>::empty()
        }
    } else if is_ws(s[0]) {
        if cur.len() > 0 {
            seq![cur] + split_ws_acc(s.drop_first(), Seq::<char>::empty())
        } else {
            split_ws_acc(s.drop_first(), Seq::<char>::empty())
        }
    } else {
        split_ws_acc(s.drop_first(), cur.push(s[0]))
    }
}

/// The whitespace-separated words of a character sequence.
pub open spec fn split_whitespace(s: Seq<char>) -> Seq<Seq<char>> {
    split_ws_acc(s, Seq::<char>::empty())
}

/// The views of a list of character vectors.
pub open spec fn vec_views(s: Seq<Vec<char>>) -> Seq<Seq<char>> {
    s.map_values(|v: Vec<char>| v@)
}

fn split_ws_exec(s: &Vec<char>) -> (r: Vec<Vec<char>>)
    ensures
        vec_views(r@) == split_whitespace(s@),
{
    let mut out: Vec<Vec<char>> = Vec::new();
    let mut cur: Vec<char> = Vec::new();
    let mut i: usize = 0;
    proof {
        assert(s@.skip(0) =~= s@);
        assert(cur@ =~= Seq::<char>::empty());
        assert(vec_views(out@) + split_ws_acc(s@, Seq::<char>::empty()) =~= split_ws_acc(
            s@,
            Seq::<char>::empty(),
        ));
    }
    while i < s.len()
        invariant
            0 <= i <= s@.len(),
            split_whitespace(s@) == vec_views(out@) + split_ws_acc(s@.skip(i as int), cur@),
        decreases s@.len() - i,
    {
        let c = s[i];
        proof {
            assert(s@.skip(i as int)[0] == s@[i as int]);
            assert(s@.skip(i as int).drop_first() =~= s@.skip(i as int + 1));
        }
        if c.is_whitespace() {
            if cur.len() > 0 {
                let ghost gout = out@;
                let ghost gcur = cur@;
                out.push(cur);
                cur = Vec::new();
                proof {
                    assert(vec_views(out@) =~= vec_views(gout).push(gcur));
                    assert(vec_views(gout) + (seq![gcur] + split_ws_acc(
                        s@.skip(i as int + 1),
                        Seq::<char>::empty(),
                    )) =~= vec_views(gout).push(gcur) + split_ws_acc(
                        s@.skip(i as int + 1),
                        Seq::<char>::empty(),
                    ));
                }
            } else {
                proof {
                    assert(cur@ =~= Seq::<char>::empty());
                }
            }
        } else {
            let ghost gcur = cur@;
            cur.push(c);
            proof {
                assert(cur@ =~= gcur.push(s@[i as int]));
            }
        }
        i += 1;
    }
    if cur.len() > 0 {
        let ghost gout = out@;
        let ghost gcur = cur@;
        out.push(cur);
        proof {
            assert(s@.skip(s@.len() as int) =~= Seq::<char>::empty());
            assert(vec_views(out@) =~= vec_views(gout).push(gcur));
            assert(vec_views(gout).push(gcur) =~= vec_views(gout) + seq![gcur]);
        }
        out
    } else {
        proof {
            assert(s@.skip(s@.len() as int) =~= Seq::<char>::empty());
            assert(vec_views(out@) + split_ws_acc(Seq::<char>::empty(), cur@) =~= vec_views(out@));
        }
        out
    }
}

/// A camel-case boundary before `c`: lower-to-upper, the last upper of an
/// acronym before a lowercase run, or a letter/digit transition.
pub open spec fn camel_boundary(prev: char, c: char, next: Option<char>) -> bool {
    ||| (is_ascii_lower(prev) && is_ascii_upper(c))
    ||| (is_ascii_upper(prev) && is_ascii_upper(c) && next is Some && is_ascii_lower(next->0))
    ||| (is_ascii_alnum(prev) && is_ascii_alnum(c) && (is_ascii_digit_char(prev)
        != is_ascii_digit_char(c)))
}

/// Camel-case splitting of one word with an accumulator for the part in
/// progress; only non-empty parts are emitted.
pub open spec fn camel_acc(s: Seq<char>, cur: Seq<char>) -> Seq<Seq<char>>
    decreases s.len(),
{
    if s.len() == 0 {
        if cur.len() > 0 {
            seq![cur]
        } else {
            Seq::<Seq<char>>::empty()
        }
    } else {
        let c = s[0];
        let next = if s.len() > 1 {
            Some(s[1])
        } else {
            None::<char>
        };
        if cur.len() > 0 && camel_boundary(cur.last(), c, next) {
            seq![cur] + camel_acc(s.drop_first(), seq![c])
        } else {
            camel_acc(s.drop_first(), cur.push(c))
        }
    }
}

/// The camel-case parts of one word.
pub open spec fn split_camel(w: Seq<char>) -> Seq<Seq<char>> {
    camel_acc(w, Seq::<char>::empty())
}

fn is_upper_exec(c: char) -> (r: bool)
    ensures
        r == is_ascii_upper(c),
{
    let u = c as u32;
    65 <= u && u <= 90
}

fn is_lower_exec(c: char) -> (r: bool)
    ensures
        r == is_ascii_lower(c),
{
    let u = c as u32;
    97 <= u && u <= 122
}

fn is_digit_exec(c: char) -> (r: bool)
    ensures
        r == is_ascii_digit_char(c),
{
    let u = c as u32;
    48 <= u && u <= 57
}

fn camel_boundary_exec(prev: char, c: char, next: Option<char>) -> (r: bool)
    ensures
        r == camel_boundary(prev, c, next),
{
    let pu = is_upper_exec(prev);
    let pl = is_lower_exec(prev);
    let pd = is_digit_exec(prev);
    let cu = is_upper_exec(c);
    let cl = is_lower_exec(c);
    let cd = is_digit_exec(c);
    let next_lower = match next {
        Some(n) => is_lower_exec(n),
        None => false,
    };
    (pl && cu) || (pu && cu && next_lower) || ((pu || pl || pd) && (cu || cl || cd) && (pd != cd))
}

/// The camel-case parts of one word, as character vectors.
pub fn split_camel_case(w: &Vec<char>) -> (r: Vec<Vec<char>>)
    ensures
        vec_views(r@) == split_camel(w@),
{
    let mut out: Vec<Vec<char>> = Vec::new();
    let mut cur: Vec<char> = Vec::new();
    let mut i: usize = 0;
    proof {
        assert(w@.skip(0) =~= w@);
        assert(cur@ =~= Seq::<char>::empty());
        assert(vec_views(out@) + camel_acc(w@, Seq::<char>::empty()) =~= camel_acc(
            w@,
            Seq::<char>::empty(),
        ));
    }
    while i < w.len()
        invariant
            0 <= i <= w@.len(),
            split_camel(w@) == vec_views(out@) + camel_acc(w@.skip(i as int), cur@),
        decreases w@.len() - i,
    {
        let c = w[i];
        let next = if i + 1 < w.len() {
            Some(w[i + 1])
        } else {
            None
        };
        proof {
            assert(w@.skip(i as int)[0] == w@[i as int]);
            assert(w@.skip(i as int).drop_first() =~= w@.skip(i as int + 1));
            if i + 1 < w@.len() {
                assert(w@.skip(i as int)[1] == w@[i as int + 1]);
            }
        }
        let boundary = if cur.len() > 0 {
            camel_boundary_exec(cur[cur.len() - 1], c, next)
        } else {
            false
        };
        if boundary {
            let ghost gout = out@;
            let ghost gcur = cur@;
            out.push(cur);
            cur = Vec::new();
            cur.push(c);
            proof {
                assert(cur@ =~= seq![w@[i as int]]);
                assert(vec_views(out@) =~= vec_views(gout).push(gcur));
                assert(vec_views(gout) + (seq![gcur] + camel_acc(
                    w@.skip(i as int + 1),
                    seq![w@[i as int]],
                )) =~= vec_views(gout).push(gcur) + camel_acc(
                    w@.skip(i as int + 1),
                    seq![w@[i as int]],
                ));
            }
        } else {
            let ghost gcur = cur@;
            cur.push(c);
            proof {
                assert(cur@ =~= gcur.push(w@[i as int]));
            }
        }
        i += 1;
    }
    if cur.len() > 0 {
        let ghost gout = out@;
        let ghost gcur = cur@;
        out.push(cur);
        proof {
            assert(w@.skip(w@.len() as int) =~= Seq::<char>::empty());
            assert(vec_views(out@) =~= vec_views(gout).push(gcur));
            assert(vec_views(gout).push(gcur) =~= vec_views(gout) + seq![gcur]);
        }
        out
    } else {
        proof {
            assert(w@.skip(w@.len() as int) =~= Seq::<char>::empty());
            assert(vec_views(out@) + camel_acc(Seq::<char>::empty(), cur@) =~= vec_views(out@));
        }
        out
    }
}

/// The English stop words elided from non-exact queries.
pub open spec fn is_stop_word(w: Seq<char>) -> bool {
    ||| w == "a"@
    ||| w == "about"@
    ||| w == "all"@
    ||| w == "an"@
    ||| w == "and"@
    ||| w == "are"@
    ||| w == "as"@
    ||| w == "at"@
    ||| w == "be"@
    ||| w == "been"@
    ||| w == "but"@
    ||| w == "by"@
    ||| w == "can"@
    ||| w == "could"@
    ||| w == "did"@
    ||| w == "do"@
    ||| w == "does"@
    ||| w == "for"@
    ||| w == "from"@
    ||| w == "had"@
    ||| w == "has"@
    ||| w == "have"@
    ||| w == "how"@
    ||| w == "i"@
    ||| w == "if"@
    ||| w == "in"@
    ||| w == "into"@
    ||| w == "is"@
    ||| w == "it"@
    ||| w == "its"@
    ||| w == "may"@
    ||| w == "not"@
    ||| w == "of"@
    ||| w == "on"@
    ||| w == "or"@
    ||| w == "our"@
    ||| w == "should"@
    ||| w == "so"@
    ||| w == "some"@
    ||| w == "such"@
    ||| w == "that"@
    ||| w == "the"@
    ||| w == "their"@
    ||| w == "them"@
    ||| w == "then"@
    ||| w == "there"@
    ||| w == "these"@
    ||| w == "they"@
    ||| w == "this"@
    ||| w == "to"@
    ||| w == "was"@
    ||| w == "we"@
    ||| w == "were"@
    ||| w == "what"@
    ||| w == "when"@
    ||| w == "where"@
    ||| w == "which"@
    ||| w == "who"@
    ||| w == "will"@
    ||| w == "with"@
    ||| w == "would"@
    ||| w == "you"@
    ||| w == "your"@
}

/// Whether a (lowercased) word is an English stop word.
pub fn is_english_stop_word(word: &str) -> (r: bool)
    ensures
        r == is_stop_word(word@),
{
    str_eq(word, "a") || str_eq(word, "about") || str_eq(word, "all") || str_eq(word, "an")
        || str_eq(word, "and") || str_eq(word, "are") || str_eq(word, "as") || str_eq(word, "at")
        || str_eq(word, "be") || str_eq(word, "been") || str_eq(word, "but") || str_eq(word, "by")
        || str_eq(word, "can") || str_eq(word, "could") || str_eq(word, "did") || str_eq(
        word,
        "do",
    ) || str_eq(word, "does") || str_eq(word, "for") || str_eq(word, "from") || str_eq(
        word,
        "had",
    ) || str_eq(word, "has") || str_eq(word, "have") || str_eq(word, "how") || str_eq(word, "i")
        || str_eq(word, "if") || str_eq(word, "in") || str_eq(word, "into") || str_eq(word, "is")
        || str_eq(word, "it") || str_eq(word, "its") || str_eq(word, "may") || str_eq(word, "not")
        || str_eq(word, "of") || str_eq(word, "on") || str_eq(word, "or") || str_eq(word, "our")
        || str_eq(word, "should") || str_eq(word, "so") || str_eq(word, "some") || str_eq(
        word,
        "such",
    ) || str_eq(word, "that") || str_eq(word, "the") || str_eq(word, "their") || str_eq(
        word,
        "them",
    ) || str_eq(word, "then") || str_eq(word, "there") || str_eq(word, "these") || str_eq(
        word,
        "they",
    ) || str_eq(word, "this") || str_eq(word, "to") || str_eq(word, "was") || str_eq(word, "we")
        || str_eq(word, "were") || str_eq(word, "what") || str_eq(word, "when") || str_eq(
        word,
        "where",
    ) || str_eq(word, "which") || str_eq(word, "who") || str_eq(word, "will") || str_eq(
        word,
        "with",
    ) || str_eq(word, "would") || str_eq(word, "you") || str_eq(word, "your")
}

/// All camel-case parts of a word list, in order.
pub open spec fn camel_all(ws: Seq<Seq<char>>) -> Seq<Seq<char>>
    decreases ws.len(),
{
    if ws.len() == 0 {
        Seq::<Seq<char>>::empty()
    } else {
        split_camel(ws[0]) + camel_all(ws.drop_first())
    }
}

/// The term pair of one surviving token: the token and its stem (the token
/// itself when the stem comes out empty).
pub open spec fn spec_term_pair(t: Seq<char>) -> (Seq<char>, Seq<char>) {
    if stem_of(t).len() == 0 {
        (t, t)
    } else {
        (t, stem_of(t))
    }
}

/// Term pairs of the non-exact pipeline: stop words are dropped, survivors
/// are paired with their stems.
pub open spec fn pairs_of_tokens(ts: Seq<Seq<char>>) -> Seq<(Seq<char>, Seq<char>)>
    decreases ts.len(),
{
    if ts.len() == 0 {
        Seq::<(Seq<char>, Seq<char>)>::empty()
    } else if is_stop_word(ts[0]) {
        pairs_of_tokens(ts.drop_first())
    } else {
        seq![spec_term_pair(ts[0])] + pairs_of_tokens(ts.drop_first())
    }
}

/// Term pairs of the exact pipeline: each word is paired with itself.
pub open spec fn pairs_exact(ws: Seq<Seq<char>>) -> Seq<(Seq<char>, Seq<char>)>
    decreases ws.len(),
{
    if ws.len() == 0 {
        Seq::<(Seq<char>, Seq<char>)>::empty()
    } else {
        seq![(ws[0], ws[0])] + pairs_exact(ws.drop_first())
    }
}

/// The lowercased forms of a token list.
pub open spec fn lowered_all(ts: Seq<Seq<char>>) -> Seq<Seq<char>> {
    ts.map_values(|t: Seq<char>| lowered(t))
}

/// The term pairs that preprocessing yields for a query. Exact mode
/// lowercases and splits on whitespace only; otherwise each whitespace word
/// is split on the camel-case boundaries of its original-cased form, and the
/// parts are lowercased afterwards.
pub open spec fn spec_preprocess(q: Seq<char>, exact: bool) -> Seq<(Seq<char>, Seq<char>)> {
    if exact {
        pairs_exact(split_whitespace(lowered(q)))
    } else {
        pairs_of_tokens(lowered_all(camel_all(split_whitespace(q))))
    }
}

/// The views of a list of term pairs.
pub open spec fn pair_views(s: Seq<(String, String)>) -> Seq<(Seq<char>, Seq<char>)> {
    s.map_values(|p: (String, String)| (p.0@, p.1@))
}

/// Normalizes a query into `(original, stemmed)` term pairs. With `exact`,
/// the lowercased query is split on whitespace only and each word is its own
/// stem; otherwise each whitespace word is split on the camel-case
/// boundaries of its original-cased form, the parts are lowercased, stop
/// words are dropped and each survivor is paired with its English stem.
pub fn preprocess_query(query: &str, exact: bool) -> (r: Vec<(String, String)>)
    ensures
        pair_views(r@) == spec_preprocess(query@, exact),
{
    let cs = str_chars(query);
    let mut out: Vec<(String, String)> = Vec::new();
    if exact {
        let lo = lower_chars(&cs);
        let words = split_ws_exec(&lo);
        let mut i: usize = 0;
        proof {
            assert(vec_views(words@).skip(0) =~= vec_views(words@));
            assert(pair_views(out@) + pairs_exact(vec_views(words@)) =~= pairs_exact(
                vec_views(words@),
            ));
        }
        while i < words.len()
            invariant
                0 <= i <= words@.len(),
                spec_preprocess(query@, true) == pair_views(out@) + pairs_exact(
                    vec_views(words@).skip(i as int),
                ),
                vec_views(words@) == split_whitespace(lowered(query@)),
            decreases words@.len() - i,
        {
            let w = &words[i];
            let s1 = chars_to_string(w);
            let s2 = chars_to_string(w);
            let ghost gout = out@;
            proof {
                assert(vec_views(words@).skip(i as int)[0] == vec_views(words@)[i as int]);
                assert(vec_views(words@)[i as int] == words@[i as int]@);
                assert(vec_views(words@).skip(i as int).drop_first() =~= vec_views(
                    words@,
                ).skip(i as int + 1));
            }
            out.push((s1, s2));
            proof {
                assert(pair_views(out@) =~= pair_views(gout).push((words@[i as int]@, words@[i as int]@)));
                assert(pair_views(gout) + (seq![(words@[i as int]@, words@[i as int]@)]
                    + pairs_exact(vec_views(words@).skip(i as int + 1))) =~= pair_views(
                    gout,
                ).push((words@[i as int]@, words@[i as int]@)) + pairs_exact(
                    vec_views(words@).skip(i as int + 1),
                ));
            }
            i += 1;
        }
        proof {
            assert(vec_views(words@).skip(words@.len() as int) =~= Seq::<Seq<char>>::empty());
            assert(pair_views(out@) + pairs_exact(Seq::<Seq<char>>::empty()) =~= pair_views(out@));
        }
        out
    } else {
        // Flatten the original-cased words into camel-case parts, lowercasing
        // each part as it is taken.
        let words = split_ws_exec(&cs);
        let mut tokens: Vec<Vec<char>> = Vec::new();
        let mut i: usize = 0;
        proof {
            assert(vec_views(words@).skip(0) =~= vec_views(words@));
            assert(vec_views(tokens@) + lowered_all(camel_all(vec_views(words@)))
                =~= lowered_all(camel_all(vec_views(words@))));
        }
        while i < words.len()
            invariant
                0 <= i <= words@.len(),
                lowered_all(camel_all(split_whitespace(query@))) == vec_views(tokens@)
                    + lowered_all(camel_all(vec_views(words@).skip(i as int))),
                vec_views(words@) == split_whitespace(query@),
            decreases words@.len() - i,
        {
            proof {
                assert(vec_views(words@).skip(i as int)[0] == words@[i as int]@);
                assert(vec_views(words@).skip(i as int).drop_first() =~= vec_views(
                    words@,
                ).skip(i as int + 1));
            }
            let parts = split_camel_case(&words[i]);
            let ghost gtokens = tokens@;
            let mut j: usize = 0;
            proof {
                assert(vec_views(parts@).skip(0) =~= vec_views(parts@));
            }
            while j < parts.len()
                invariant
                    0 <= j <= parts@.len(),
                    vec_views(tokens@) == vec_views(gtokens) + lowered_all(
                        vec_views(parts@).take(j as int),
                    ),
                decreases parts@.len() - j,
            {
                let ghost gt2 = tokens@;
                let p = lower_chars(&parts[j]);
                proof {
                    assert(parts@[j as int]@ == vec_views(parts@)[j as int]);
                }
                tokens.push(p);
                proof {
                    assert(vec_views(tokens@) =~= vec_views(gt2).push(
                        lowered(vec_views(parts@)[j as int]),
                    ));
                    assert(lowered_all(vec_views(parts@).take(j as int + 1)) =~= lowered_all(
                        vec_views(parts@).take(j as int),
                    ).push(lowered(vec_views(parts@)[j as int])));
                    assert(vec_views(gtokens) + lowered_all(vec_views(parts@).take(j as int)).push(
                        lowered(vec_views(parts@)[j as int]),
                    ) =~= vec_views(gt2).push(lowered(vec_views(parts@)[j as int])));
                }
                j += 1;
            }
            proof {
                assert(vec_views(parts@).take(parts@.len() as int) =~= vec_views(parts@));
                assert(lowered_all(split_camel(words@[i as int]@) + camel_all(
                    vec_views(words@).skip(i as int + 1),
                )) =~= lowered_all(split_camel(words@[i as int]@)) + lowered_all(
                    camel_all(vec_views(words@).skip(i as int + 1)),
                ));
                assert(vec_views(tokens@) + lowered_all(
                    camel_all(vec_views(words@).skip(i as int + 1)),
                ) =~= vec_views(gtokens) + (lowered_all(split_camel(words@[i as int]@))
                    + lowered_all(camel_all(vec_views(words@).skip(i as int + 1)))));
            }
            i += 1;
        }
        proof {
            assert(vec_views(words@).skip(words@.len() as int) =~= Seq::<Seq<char>>::empty());
            assert(camel_all(Seq::<Seq<char>>::empty()) =~= Seq::<Seq<char>>::empty());
            assert(lowered_all(Seq::<Seq<char>>::empty()) =~= Seq::<Seq<char>>::empty());
            assert(vec_views(tokens@) + Seq::<Seq<char>>::empty() =~= vec_views(tokens@));
        }
        // Then drop stop words and stem the survivors.
        let ghost tviews = vec_views(tokens@);
        let mut k: usize = 0;
        proof {
            assert(tviews.skip(0) =~= tviews);
            assert(pair_views(out@) + pairs_of_tokens(tviews) =~= pairs_of_tokens(tviews));
        }
        while k < tokens.len()
            invariant
                0 <= k <= tokens@.len(),
                tviews == vec_views(tokens@),
                spec_preprocess(query@, false) == pair_views(out@) + pairs_of_tokens(
                    tviews.skip(k as int),
                ),
            decreases tokens@.len() - k,
        {
            proof {
                assert(tviews.skip(k as int)[0] == tokens@[k as int]@);
                assert(tviews.skip(k as int).drop_first() =~= tviews.skip(k as int + 1));
            }
            let t = chars_to_string(&tokens[k]);
            if !is_english_stop_word(t.as_str()) {
                let stemmed = stem_word(t.as_str());
                let stemmed = if stemmed.as_str().is_empty() {
                    chars_to_string(&tokens[k])
                } else {
                    stemmed
                };
                let ghost gout = out@;
                let ghost gt = t@;
                let ghost gs = stemmed@;
                out.push((t, stemmed));
                proof {
                    assert(pair_views(out@) =~= pair_views(gout).push((gt, gs)));
                    assert((gt, gs) == spec_term_pair(tokens@[k as int]@));
                    assert(pair_views(gout) + (seq![spec_term_pair(tokens@[k as int]@)]
                        + pairs_of_tokens(tviews.skip(k as int + 1))) =~= pair_views(gout).push((
                        gt,
                        gs,
                    )) + pairs_of_tokens(tviews.skip(k as int + 1)));
                }
            }
            k += 1;
        }
        proof {
            assert(tviews.skip(tokens@.len() as int) =~= Seq::<Seq<char>>::empty());
            assert(pair_views(out@) + pairs_of_tokens(Seq::<Seq<char>>::empty()) =~= pair_views(
                out@,
            ));
        }
        out
    }
}

proof fn lemma_lower_char_ascii(c: char)
    requires
        is_ascii_char(c),
    ensures
        is_ascii_char(lower_char_spec(c)),
        lower_char_spec(lower_char_spec(c)) == lower_char_spec(c),
{
}

proof fn lemma_lowered_ascii_idempotent(s: Seq<char>)
    requires
        forall|i: int| 0 <= i < s.len() ==> is_ascii_char(#[trigger] s[i]),
    ensures
        lowered(lowered(s)) == lowered(s),
    decreases s.len(),
{
    if s.len() == 0 {
        assert(lowered(lowered(s)) =~= lowered(s));
    } else {
        let c = s[0];
        let rest = s.drop_first();
        assert(forall|i: int| 0 <= i < rest.len() ==> is_ascii_char(#[trigger] rest[i]));
        lemma_lowered_ascii_idempotent(rest);
        lemma_lower_char_ascii(c);
        let x = lowered(s);
        assert(x == seq![lower_char_spec(c)] + lowered(rest));
        assert(x[0] == lower_char_spec(c));
        assert(x.drop_first() =~= lowered(rest));
        assert(lowered(x) == lowered_one(lower_char_spec(c)) + lowered(lowered(rest)));
        assert(lowered(x) =~= x);
    }
}

proof fn lemma_lowered_identity_on_caseless(s: Seq<char>)
    requires
        forall|i: int| 0 <= i < s.len() ==> is_ascii_char(#[trigger] s[i]),
        forall|i: int| 0 <= i < s.len() ==> !is_ascii_upper(#[trigger] s[i]),
    ensures
        lowered(s) == s,
    decreases s.len(),
{
    if s.len() == 0 {
        assert(lowered(s) =~= s);
    } else {
        let rest = s.drop_first();
        assert(forall|i: int| 0 <= i < rest.len() ==> is_ascii_char(#[trigger] rest[i]));
        assert(forall|i: int| 0 <= i < rest.len() ==> !is_ascii_upper(#[trigger] rest[i]));
        lemma_lowered_identity_on_caseless(rest);
        assert(lower_char_spec(s[0]) == s[0]);
        assert(lowered(s) =~= s);
    }
}

/// Tokenization stability: lowercasing the query once more before
/// preprocessing changes nothing. Shown for ASCII queries; in the non-exact
/// pipeline the query must carry no uppercase letters, since camel-case
/// boundaries are case-driven and vanish under lowercasing.
pub proof fn lemma_preprocess_stable_under_lowercasing(q: Seq<char>, exact: bool)
    requires
        forall|i: int| 0 <= i < q.len() ==> is_ascii_char(#[trigger] q[i]),
        !exact ==> forall|i: int| 0 <= i < q.len() ==> !is_ascii_upper(#[trigger] q[i]),
    ensures
        spec_preprocess(lowered(q), exact) == spec_preprocess(q, exact),
{
    if exact {
        lemma_lowered_ascii_idempotent(q);
    } else {
        lemma_lowered_identity_on_caseless(q);
    }
}

proof fn lemma_split_ws_nonempty(s: Seq<char>, cur: Seq<char>, k: int)
    requires
        0 <= k < split_ws_acc(s, cur).len(),
    ensures
        split_ws_acc(s, cur)[k].len() > 0,
    decreases s.len(),
{
    if s.len() == 0 {
    } else if is_ws(s[0]) {
        if cur.len() > 0 {
            if k > 0 {
                lemma_split_ws_nonempty(s.drop_first(), Seq::<char>::empty(), k - 1);
            }
        } else {
            lemma_split_ws_nonempty(s.drop_first(), Seq::<char>::empty(), k);
        }
    } else {
        lemma_split_ws_nonempty(s.drop_first(), cur.push(s[0]), k);
    }
}

proof fn lemma_camel_nonempty(s: Seq<char>, cur: Seq<char>, k: int)
    requires
        0 <= k < camel_acc(s, cur).len(),
    ensures
        camel_acc(s, cur)[k].len() > 0,
    decreases s.len(),
{
    if s.len() == 0 {
    } else {
        let c = s[0];
        let next = if s.len() > 1 {
            Some(s[1])
        } else {
            None::<char>
        };
        if cur.len() > 0 && camel_boundary(cur.last(), c, next) {
            if k > 0 {
                lemma_camel_nonempty(s.drop_first(), seq![c], k - 1);
            }
        } else {
            lemma_camel_nonempty(s.drop_first(), cur.push(c), k);
        }
    }
}

proof fn lemma_camel_all_nonempty(ws: Seq<Seq<char>>, k: int)
    requires
        0 <= k < camel_all(ws).len(),
    ensures
        camel_all(ws)[k].len() > 0,
    decreases ws.len(),
{
    if ws.len() > 0 {
        let head = split_camel(ws[0]);
        if k < head.len() {
            lemma_camel_nonempty(ws[0], Seq::<char>::empty(), k);
        } else {
            lemma_camel_all_nonempty(ws.drop_first(), k - head.len());
        }
    }
}

proof fn lemma_pairs_of_tokens_nonempty(ts: Seq<Seq<char>>, k: int)
    requires
        forall|i: int| 0 <= i < ts.len() ==> (#[trigger] ts[i]).len() > 0,
        0 <= k < pairs_of_tokens(ts).len(),
    ensures
        pairs_of_tokens(ts)[k].0.len() > 0,
        pairs_of_tokens(ts)[k].1.len() > 0,
    decreases ts.len(),
{
    if ts.len() > 0 {
        if is_stop_word(ts[0]) {
            lemma_pairs_of_tokens_nonempty(ts.drop_first(), k);
        } else {
            if k > 0 {
                lemma_pairs_of_tokens_nonempty(ts.drop_first(), k - 1);
            }
        }
    }
}

proof fn lemma_pairs_exact_nonempty(ws: Seq<Seq<char>>, k: int)
    requires
        forall|i: int| 0 <= i < ws.len() ==> (#[trigger] ws[i]).len() > 0,
        0 <= k < pairs_exact(ws).len(),
    ensures
        pairs_exact(ws)[k].0.len() > 0,
        pairs_exact(ws)[k].1.len() > 0,
    decreases ws.len(),
{
    if ws.len() > 0 && k > 0 {
        lemma_pairs_exact_nonempty(ws.drop_first(), k - 1);
    }
}

proof fn lemma_lowered_nonempty(t: Seq<char>)
    requires
        t.len() > 0,
    ensures
        lowered(t).len() > 0,
{
    assert(lowered_one(t[0]).len() >= 1);
}

/// Preprocessing yields no empty term: both members of every produced pair
/// have at least one character.
pub proof fn lemma_preprocess_no_empty_terms(q: Seq<char>, exact: bool, k: int)
    requires
        0 <= k < spec_preprocess(q, exact).len(),
    ensures
        spec_preprocess(q, exact)[k].0.len() > 0,
        spec_preprocess(q, exact)[k].1.len() > 0,
{
    if exact {
        let ws = split_whitespace(lowered(q));
        assert forall|i: int| 0 <= i < ws.len() implies (#[trigger] ws[i]).len() > 0 by {
            lemma_split_ws_nonempty(lowered(q), Seq::<char>::empty(), i);
        }
        lemma_pairs_exact_nonempty(ws, k);
    } else {
        let ws = split_whitespace(q);
        assert forall|i: int| 0 <= i < ws.len() implies (#[trigger] ws[i]).len() > 0 by {
            lemma_split_ws_nonempty(q, Seq::<char>::empty(), i);
        }
        let ts = lowered_all(camel_all(ws));
        assert forall|i: int| 0 <= i < ts.len() implies (#[trigger] ts[i]).len() > 0 by {
            lemma_camel_all_nonempty(ws, i);
            assert(ts[i] == lowered(camel_all(ws)[i]));
            lemma_lowered_nonempty(camel_all(ws)[i]);
        }
        lemma_pairs_of_tokens_nonempty(ts, k);
    }
}

/// The regex metacharacters that `regex_escape` protects.
pub open spec fn is_regex_special(c: char) -> bool {
    c == '.' || c == '^' || c == '$' || c == '*' || c == '+' || c == '?' || c == '(' || c == ')'
        || c == '[' || c == ']' || c == '{' || c == '}' || c == '|' || c == '\\'
}

pub open spec fn esc_char(c: char) -> Seq<char> {
    if is_regex_special(c) {
        seq!['\\', c]
    } else {
        seq![c]
    }
}

/// The regex-escaped form of a character sequence.
pub open spec fn esc(s: Seq<char>) -> Seq<char>
    decreases s.len(),
{
    if s.len() == 0 {
        Seq::<char>::empty()
    } else {
        esc_char(s[0]) + esc(s.drop_first())
    }
}

fn is_regex_special_exec(c: char) -> (r: bool)
    ensures
        r == is_regex_special(c),
{
    c == '.' || c == '^' || c == '$' || c == '*' || c == '+' || c == '?' || c == '(' || c == ')'
        || c == '[' || c == ']' || c == '{' || c == '}' || c == '|' || c == '\\'
}

fn esc_chars(s: &Vec<char>) -> (r: Vec<char>)
    ensures
        r@ == esc(s@),
{
    let mut out: Vec<char> = Vec::new();
    let mut i: usize = 0;
    proof {
        assert(s@.skip(0) =~= s@);
        assert(out@ + esc(s@) =~= esc(s@));
    }
    while i < s.len()
        invariant
            0 <= i <= s@.len(),
            esc(s@) == out@ + esc(s@.skip(i as int)),
        decreases s@.len() - i,
    {
        let c = s[i];
        proof {
            assert(s@.skip(i as int)[0] == s@[i as int]);
            assert(s@.skip(i as int).drop_first() =~= s@.skip(i as int + 1));
        }
        let ghost gout = out@;
        if is_regex_special_exec(c) {
            out.push('\\');
            out.push(c);
            proof {
                assert(out@ =~= gout + esc_char(s@[i as int]));
                assert(gout + esc_char(s@[i as int]) + esc(s@.skip(i as int + 1)) =~= esc(s@));
            }
        } else {
            out.push(c);
            proof {
                assert(out@ =~= gout + esc_char(s@[i as int]));
                assert(gout + esc_char(s@[i as int]) + esc(s@.skip(i as int + 1)) =~= esc(s@));
            }
        }
        i += 1;
    }
    proof {
        assert(s@.skip(s@.len() as int) =~= Seq::<char>::empty());
        assert(out@ + esc(s@.skip(s@.len() as int)) =~= out@);
    }
    out
}

/// Escapes the regex metacharacters `. ^ $ * + ? ( ) [ ] { } | \` of a
/// string by prefixing each with a backslash.
pub fn regex_escape(s: &str) -> (r: String)
    ensures
        r@ == esc(s@),
{
    let cs = str_chars(s);
    let escd = esc_chars(&cs);
    chars_to_string(&escd)
}

/// The alternation core of a single-term pattern: the escaped original, or
/// an alternation of the escaped original and stem when they differ.
pub open spec fn base_pattern(o: Seq<char>, s: Seq<char>) -> Seq<char> {
    if o == s {
        esc(o)
    } else {
        seq!['('] + esc(o) + seq!['|'] + esc(s) + seq![')']
    }
}

/// The single-term pattern: the base anchored at a leading word boundary, or
/// at a trailing one.
pub open spec fn single_pattern(o: Seq<char>, s: Seq<char>) -> Seq<char> {
    seq!['(', '\\', 'b'] + base_pattern(o, s) + seq!['|'] + base_pattern(o, s) + seq![
        '\\',
        'b',
        ')',
    ]
}

/// The four original/stem concatenation choices of an ordered pair of terms.
pub open spec fn combo_pairs(oi: Seq<char>, si: Seq<char>, oj: Seq<char>, sj: Seq<char>) -> Seq<
    (Seq<char>, Seq<char>),
> {
    seq![(oi, oj), (oi, sj), (si, oj), (si, sj)]
}

/// First-occurrence deduplication.
pub open spec fn dedup_pairs(s: Seq<(Seq<char>, Seq<char>)>) -> Seq<(Seq<char>, Seq<char>)>
    decreases s.len(),
{
    if s.len() == 0 {
        Seq::<(Seq<char>, Seq<char>)>::empty()
    } else {
        let d = dedup_pairs(s.drop_last());
        if d.contains(s.last()) {
            d
        } else {
            d.push(s.last())
        }
    }
}

pub open spec fn concat_escaped(p: (Seq<char>, Seq<char>)) -> Seq<char> {
    esc(p.0) + esc(p.1)
}

/// The escaped concatenations joined by `|`.
pub open spec fn join_alts(alts: Seq<(Seq<char>, Seq<char>)>) -> Seq<char>
    decreases alts.len(),
{
    if alts.len() == 0 {
        Seq::<char>::empty()
    } else if alts.len() == 1 {
        concat_escaped(alts[0])
    } else {
        join_alts(alts.drop_last()) + seq!['|'] + concat_escaped(alts.last())
    }
}

/// A compound group: a lone alternative stands bare, several are grouped.
pub open spec fn group_pattern(alts: Seq<(Seq<char>, Seq<char>)>) -> Seq<char> {
    if alts.len() == 1 {
        join_alts(alts)
    } else {
        seq!['('] + join_alts(alts) + seq![')']
    }
}

/// The deduplicated alternatives of the ordered index pair `(i, j)`.
pub open spec fn compound_alts(ps: Seq<(Seq<char>, Seq<char>)>, i: int, j: int) -> Seq<
    (Seq<char>, Seq<char>),
> {
    dedup_pairs(combo_pairs(ps[i].0, ps[i].1, ps[j].0, ps[j].1))
}

/// The single-term patterns for indices `i` onward.
pub open spec fn singles_from(ps: Seq<(Seq<char>, Seq<char>)>, i: int) -> Seq<
    (Seq<char>, Set<usize>),
>
    decreases ps.len() - i,
{
    if 0 <= i < ps.len() {
        seq![(single_pattern(ps[i].0, ps[i].1), Set::<usize>::empty().insert(i as usize))]
            + singles_from(ps, i + 1)
    } else {
        Seq::<(Seq<char>, Set<usize>)>::empty()
    }
}

/// The compound patterns with first index `i` and second index `j` onward.
pub open spec fn groups_ij(ps: Seq<(Seq<char>, Seq<char>)>, i: int, j: int) -> Seq<
    (Seq<char>, Set<usize>),
>
    decreases ps.len() - j,
{
    if 0 <= j < ps.len() {
        if j == i {
            groups_ij(ps, i, j + 1)
        } else {
            seq![
                (
                    group_pattern(compound_alts(ps, i, j)),
                    Set::<usize>::empty().insert(i as usize).insert(j as usize),
                ),
            ] + groups_ij(ps, i, j + 1)
        }
    } else {
        Seq::<(Seq<char>, Set<usize>)>::empty()
    }
}

/// The compound patterns for first indices `i` onward.
pub open spec fn groups_from(ps: Seq<(Seq<char>, Seq<char>)>, i: int) -> Seq<
    (Seq<char>, Set<usize>),
>
    decreases ps.len() - i,
{
    if 0 <= i < ps.len() {
        groups_ij(ps, i, 0) + groups_from(ps, i + 1)
    } else {
        Seq::<(Seq<char>, Set<usize>)>::empty()
    }
}

/// The full pattern list for a term-pair list: one boundary-anchored pattern
/// per pair, then, for two or more pairs, one concatenation group for every
/// ordered pair of distinct indices.
pub open spec fn spec_term_patterns(ps: Seq<(Seq<char>, Seq<char>)>) -> Seq<
    (Seq<char>, Set<usize>),
> {
    singles_from(ps, 0) + if ps.len() > 1 {
        groups_from(ps, 0)
    } else {
        Seq::<(Seq<char>, Set<usize>)>::empty()
    }
}

/// The views of a produced pattern list.
pub open spec fn pattern_views(s: Seq<(String, HashSet<usize>)>) -> Seq<(Seq<char>, Set<usize>)> {
    s.map_values(|p: (String, HashSet<usize>)| (p.0@, p.1@))
}

proof fn lemma_dedup_nonempty(s: Seq<(Seq<char>, Seq<char>)>)
    requires
        s.len() >= 1,
    ensures
        dedup_pairs(s).len() >= 1,
    decreases s.len(),
{
    let d = dedup_pairs(s.drop_last());
    if s.len() == 1 {
        assert(s.drop_last().len() == 0);
        assert(d.len() == 0);
        assert(!d.contains(s.last()));
    } else {
        lemma_dedup_nonempty(s.drop_last());
    }
}

fn base_pattern_exec(o: &String, s: &String) -> (r: Vec<char>)
    ensures
        r@ == base_pattern(o@, s@),
{
    let eo = esc_chars(&str_chars(o.as_str()));
    if str_eq(o.as_str(), s.as_str()) {
        eo
    } else {
        let es = esc_chars(&str_chars(s.as_str()));
        let mut out: Vec<char> = Vec::new();
        out.push('(');
        let mut eo = eo;
        let mut es = es;
        out.append(&mut eo);
        out.push('|');
        out.append(&mut es);
        out.push(')');
        proof {
            assert(out@ =~= base_pattern(o@, s@));
        }
        out
    }
}

fn single_pattern_exec(o: &String, s: &String) -> (r: String)
    ensures
        r@ == single_pattern(o@, s@),
{
    let mut base = base_pattern_exec(o, s);
    let mut base2 = base_pattern_exec(o, s);
    let mut out: Vec<char> = Vec::new();
    out.push('(');
    out.push('\\');
    out.push('b');
    out.append(&mut base);
    out.push('|');
    out.append(&mut base2);
    out.push('\\');
    out.push('b');
    out.push(')');
    proof {
        assert(out@ =~= single_pattern(o@, s@));
    }
    chars_to_string(&out)
}

fn pairs_contains(alts: &Vec<(String, String)>, a: &String, b: &String) -> (r: bool)
    ensures
        r == pair_views(alts@).contains((a@, b@)),
{
    let mut i: usize = 0;
    while i < alts.len()
        invariant
            0 <= i <= alts@.len(),
            forall|k: int| 0 <= k < i ==> #[trigger] pair_views(alts@)[k] != (a@, b@),
        decreases alts@.len() - i,
    {
        let hit = str_eq(alts[i].0.as_str(), a.as_str()) && str_eq(alts[i].1.as_str(), b.as_str());
        if hit {
            proof {
                assert(pair_views(alts@)[i as int] == (a@, b@));
            }
            return true;
        }
        proof {
            assert(pair_views(alts@)[i as int] != (a@, b@));
        }
        i += 1;
    }
    proof {
        assert(!pair_views(alts@).contains((a@, b@))) by {
            if pair_views(alts@).contains((a@, b@)) {
                let w = choose|w: int|
                    0 <= w < pair_views(alts@).len() && pair_views(alts@)[w] == (a@, b@);
                assert(pair_views(alts@)[w] != (a@, b@));
            }
        }
    }
    false
}

fn dedup_exec(cand: &Vec<(String, String)>) -> (r: Vec<(String, String)>)
    ensures
        pair_views(r@) == dedup_pairs(pair_views(cand@)),
{
    let mut out: Vec<(String, String)> = Vec::new();
    let mut m: usize = 0;
    proof {
        assert(pair_views(cand@).take(0) =~= Seq::<(Seq<char>, Seq<char>)>::empty());
        assert(pair_views(out@) =~= dedup_pairs(pair_views(cand@).take(0)));
    }
    while m < cand.len()
        invariant
            0 <= m <= cand@.len(),
            pair_views(out@) == dedup_pairs(pair_views(cand@).take(m as int)),
        decreases cand@.len() - m,
    {
        let ghost cv = pair_views(cand@);
        proof {
            assert(cv.take(m as int + 1).drop_last() =~= cv.take(m as int));
            assert(cv.take(m as int + 1).last() == cv[m as int]);
            assert(cv[m as int] == (cand@[m as int].0@, cand@[m as int].1@));
        }
        let present = pairs_contains(&out, &cand[m].0, &cand[m].1);
        if !present {
            let ghost gout = out@;
            let a = cand[m].0.clone();
            let b = cand[m].1.clone();
            proof {
                assert(a@ == cand@[m as int].0@);
                assert(b@ == cand@[m as int].1@);
            }
            out.push((a, b));
            proof {
                assert(pair_views(out@) =~= pair_views(gout).push(cv[m as int]));
            }
        }
        m += 1;
    }
    proof {
        assert(pair_views(cand@).take(cand@.len() as int) =~= pair_views(cand@));
    }
    out
}

fn join_alts_exec(alts: &Vec<(String, String)>) -> (r: Vec<char>)
    ensures
        r@ == join_alts(pair_views(alts@)),
{
    let mut out: Vec<char> = Vec::new();
    let mut m: usize = 0;
    proof {
        assert(pair_views(alts@).take(0) =~= Seq::<(Seq<char>, Seq<char>)>::empty());
        assert(out@ =~= join_alts(pair_views(alts@).take(0)));
    }
    while m < alts.len()
        invariant
            0 <= m <= alts@.len(),
            out@ == join_alts(pair_views(alts@).take(m as int)),
        decreases alts@.len() - m,
    {
        let ghost av = pair_views(alts@);
        proof {
            assert(av.take(m as int + 1).drop_last() =~= av.take(m as int));
            assert(av.take(m as int + 1).last() == av[m as int]);
            assert(av[m as int] == (alts@[m as int].0@, alts@[m as int].1@));
        }
        if m > 0 {
            out.push('|');
        }
        let mut ea = esc_chars(&str_chars(alts[m].0.as_str()));
        let mut eb = esc_chars(&str_chars(alts[m].1.as_str()));
        out.append(&mut ea);
        out.append(&mut eb);
        proof {
            if m == 0 {
                assert(out@ =~= join_alts(av.take(1)));
            } else {
                assert(out@ =~= join_alts(av.take(m as int)) + seq!['|'] + concat_escaped(
                    av[m as int],
                ));
                assert(out@ =~= join_alts(av.take(m as int + 1)));
            }
        }
        m += 1;
    }
    proof {
        assert(pair_views(alts@).take(alts@.len() as int) =~= pair_views(alts@));
    }
    out
}

fn group_pattern_exec(alts: &Vec<(String, String)>) -> (r: String)
    requires
        alts@.len() >= 1,
    ensures
        r@ == group_pattern(pair_views(alts@)),
{
    let mut joined = join_alts_exec(alts);
    if alts.len() == 1 {
        chars_to_string(&joined)
    } else {
        let mut out: Vec<char> = Vec::new();
        out.push('(');
        out.append(&mut joined);
        out.push(')');
        proof {
            assert(out@ =~= group_pattern(pair_views(alts@)));
        }
        chars_to_string(&out)
    }
}

/// Builds the regex patterns of a term-pair list: for each pair one pattern
/// matching the original or the stem at a leading or trailing word boundary,
/// and, when there are at least two pairs, for each ordered pair of distinct
/// term indices one pattern of the concatenated original/stem combinations.
/// Each pattern carries the set of term indices it covers.
pub fn create_term_patterns(term_pairs: &[(String, String)]) -> (r: Vec<(String, HashSet<usize>)>)
    ensures
        pattern_views(r@) == spec_term_patterns(pair_views(term_pairs@)),
{
    broadcast use vstd::std_specs::hash::group_hash_axioms;

    let ghost pv = pair_views(term_pairs@);
    let n = term_pairs.len();
    let mut out: Vec<(String, HashSet<usize>)> = Vec::new();
    let mut i: usize = 0;
    proof {
        assert(pattern_views(out@) =~= Seq::<(Seq<char>, Set<usize>)>::empty());
        assert(pattern_views(out@) + singles_from(pv, 0) =~= singles_from(pv, 0));
    }
    while i < n
        invariant
            0 <= i <= pv.len(),
            n == pv.len(),
            pv == pair_views(term_pairs@),
            singles_from(pv, 0) == pattern_views(out@) + singles_from(pv, i as int),
        decreases n - i,
    {
        let p = vstd::slice::slice_index_get(term_pairs, i);
        let pat = single_pattern_exec(&p.0, &p.1);
        let mut indices: HashSet<usize> = HashSet::new();
        indices.insert(i);
        let ghost gout = out@;
        let ghost gpat = pat@;
        let ghost gidx = indices@;
        proof {
            assert(pv[i as int] == (term_pairs@[i as int].0@, term_pairs@[i as int].1@));
            assert(gpat == single_pattern(pv[i as int].0, pv[i as int].1));
            assert(gidx =~= Set::<usize>::empty().insert(i));
        }
        out.push((pat, indices));
        proof {
            assert(pattern_views(out@) =~= pattern_views(gout).push((gpat, gidx)));
            assert(pattern_views(gout) + (seq![(gpat, gidx)] + singles_from(pv, i as int + 1))
                =~= pattern_views(gout).push((gpat, gidx)) + singles_from(pv, i as int + 1));
        }
        i += 1;
    }
    proof {
        assert(singles_from(pv, pv.len() as int) =~= Seq::<(Seq<char>, Set<usize>)>::empty());
        assert(pattern_views(out@) + singles_from(pv, pv.len() as int) =~= pattern_views(out@));
        assert(pattern_views(out@) == singles_from(pv, 0));
    }
    if n <= 1 {
        proof {
            assert(spec_term_patterns(pv) =~= singles_from(pv, 0));
        }
        return out;
    }
    // Compound patterns: one group per ordered pair of distinct indices.
    let ghost singles = pattern_views(out@);
    let mut i: usize = 0;
    proof {
        assert(pattern_views(out@) =~= singles + Seq::<(Seq<char>, Set<usize>)>::empty());
    }
    while i < n
        invariant
            0 <= i <= pv.len(),
            n == pv.len(),
            n > 1,
            pv == pair_views(term_pairs@),
            singles == singles_from(pv, 0),
            groups_from(pv, 0) == pattern_views(out@).skip(singles.len() as int) + groups_from(
                pv,
                i as int,
            ),
            pattern_views(out@).take(singles.len() as int) == singles,
            pattern_views(out@).len() >= singles.len(),
        decreases n - i,
    {
        let mut j: usize = 0;
        proof {
            assert(groups_ij(pv, i as int, 0) + groups_from(pv, i as int + 1) == groups_from(
                pv,
                i as int,
            ));
        }
        while j < n
            invariant
                0 <= j <= pv.len(),
                0 <= i < pv.len(),
                n == pv.len(),
                n > 1,
                pv == pair_views(term_pairs@),
                singles == singles_from(pv, 0),
                groups_from(pv, 0) == pattern_views(out@).skip(singles.len() as int) + groups_ij(
                    pv,
                    i as int,
                    j as int,
                ) + groups_from(pv, i as int + 1),
                pattern_views(out@).take(singles.len() as int) == singles,
                pattern_views(out@).len() >= singles.len(),
            decreases n - j,
        {
            if j != i {
                let pi = vstd::slice::slice_index_get(term_pairs, i);
                let pj = vstd::slice::slice_index_get(term_pairs, j);
                let mut cand: Vec<(String, String)> = Vec::new();
                cand.push((pi.0.clone(), pj.0.clone()));
                cand.push((pi.0.clone(), pj.1.clone()));
                cand.push((pi.1.clone(), pj.0.clone()));
                cand.push((pi.1.clone(), pj.1.clone()));
                proof {
                    assert(pair_views(cand@) =~= combo_pairs(
                        pv[i as int].0,
                        pv[i as int].1,
                        pv[j as int].0,
                        pv[j as int].1,
                    ));
                }
                let alts = dedup_exec(&cand);
                proof {
                    lemma_dedup_nonempty(pair_views(cand@));
                }
                let pat = group_pattern_exec(&alts);
                let mut indices: HashSet<usize> = HashSet::new();
                indices.insert(i);
                indices.insert(j);
                let ghost gout = out@;
                let ghost gpat = pat@;
                let ghost gidx = indices@;
                proof {
                    assert(gpat == group_pattern(compound_alts(pv, i as int, j as int)));
                    assert(gidx =~= Set::<usize>::empty().insert(i).insert(j));
                }
                out.push((pat, indices));
                proof {
                    assert(pattern_views(out@) =~= pattern_views(gout).push((gpat, gidx)));
                    assert(pattern_views(out@).skip(singles.len() as int) =~= pattern_views(
                        gout,
                    ).skip(singles.len() as int).push((gpat, gidx)));
                    assert(pattern_views(out@).take(singles.len() as int) =~= pattern_views(
                        gout,
                    ).take(singles.len() as int));
                    assert(pattern_views(gout).skip(singles.len() as int).push((gpat, gidx))
                        + groups_ij(pv, i as int, j as int + 1) =~= pattern_views(gout).skip(
                        singles.len() as int,
                    ) + (seq![(gpat, gidx)] + groups_ij(pv, i as int, j as int + 1)));
                }
            }
            j += 1;
        }
        proof {
            assert(groups_ij(pv, i as int, pv.len() as int) =~= Seq::<
                (Seq<char>, Set<usize>),
            >::empty());
            assert(pattern_views(out@).skip(singles.len() as int) + groups_ij(
                pv,
                i as int,
                pv.len() as int,
            ) =~= pattern_views(out@).skip(singles.len() as int));
        }
        i += 1;
    }
    proof {
        assert(groups_from(pv, pv.len() as int) =~= Seq::<(Seq<char>, Set<usize>)>::empty());
        assert(pattern_views(out@).skip(singles.len() as int) + groups_from(pv, pv.len() as int)
            =~= pattern_views(out@).skip(singles.len() as int));
        assert(pattern_views(out@) =~= pattern_views(out@).take(singles.len() as int)
            + pattern_views(out@).skip(singles.len() as int));
        assert(pattern_views(out@) =~= spec_term_patterns(pv));
    }
    out
}

} // verus!
