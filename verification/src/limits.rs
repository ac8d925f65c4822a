//! Result limiting: a ranked block list is cut to a result count, then to
//! byte and token budgets. A block that would overrun a budget is skipped
//! and the walk goes on, so a smaller lower-ranked block may still fit. The
//! byte budget counts the UTF-8 bytes of the block content; the token
//! estimate is one token per four characters, rounded up.

use vstd::prelude::*;

use crate::models::CodeBlock;
use crate::text::str_chars;

verus! {

/// A scored block ready for output: the ranker orders these by score before
/// the limits are applied.
pub struct RankedBlock {
    pub file_path: String,
    pub block: CodeBlock,
    pub content: String,
    pub matched_terms: Vec<usize>,
}

/// Which limits cut the result set.
#[derive(Clone, Copy, PartialEq, Eq, Structural, Debug)]
pub struct TruncatedBy {
    pub results: bool,
    pub bytes: bool,
    pub tokens: bool,
}

/// The byte size of a block: the UTF-8 length of its content.
pub open spec fn block_bytes(b: RankedBlock) -> int {
    vstd::utf8::encode_utf8(b.content@).len() as int
}

/// The character count of a block's content.
pub open spec fn block_chars(b: RankedBlock) -> int {
    b.content@.len() as int
}

/// The token estimate for a character count: one token per four characters,
/// rounded up.
pub open spec fn token_estimate(n: int) -> int {
    n / 4 + if n % 4 == 0 {
        0int
    } else {
        1int
    }
}

pub open spec fn opt_int(o: Option<usize>) -> Option<int> {
    match o {
        Some(v) => Some(v as int),
        None => None,
    }
}

/// The blocks kept under the remaining byte and token budgets, with flags
/// saying whether any block was skipped for bytes, or for tokens.
pub open spec fn spec_fit(s: Seq<RankedBlock>, bl: Option<int>, tl: Option<int>) -> (
    Seq<RankedBlock>,
    bool,
    bool,
)
    decreases s.len(),
{
    if s.len() == 0 {
        (Seq::<RankedBlock>::empty(), false, false)
    } else {
        let nb = block_bytes(s[0]);
        let nt = token_estimate(block_chars(s[0]));
        let over_b = bl is Some && nb > bl->0;
        let over_t = tl is Some && nt > tl->0;
        if !over_b && !over_t {
            let nbl = if bl is Some {
                Some(bl->0 - nb)
            } else {
                None
            };
            let ntl = if tl is Some {
                Some(tl->0 - nt)
            } else {
                None
            };
            let rest = spec_fit(s.drop_first(), nbl, ntl);
            (seq![s[0]] + rest.0, rest.1, rest.2)
        } else {
            let rest = spec_fit(s.drop_first(), bl, tl);
            (rest.0, rest.1 || over_b, rest.2 || over_t)
        }
    }
}

/// The list after the result-count cut.
pub open spec fn spec_truncate_results(s: Seq<RankedBlock>, mr: Option<usize>) -> Seq<
    RankedBlock,
> {
    match mr {
        Some(m) => if s.len() > m {
            s.take(m as int)
        } else {
            s
        },
        None => s,
    }
}

/// The full limiter: result count first, then both budgets together.
pub open spec fn spec_apply_limits(
    s: Seq<RankedBlock>,
    mr: Option<usize>,
    mb: Option<usize>,
    mt: Option<usize>,
) -> (Seq<RankedBlock>, TruncatedBy) {
    let t = spec_truncate_results(s, mr);
    let f = spec_fit(t, opt_int(mb), opt_int(mt));
    (
        f.0,
        TruncatedBy {
            results: mr is Some && s.len() > mr->0,
            bytes: f.1,
            tokens: f.2,
        },
    )
}

pub open spec fn sum_bytes(s: Seq<RankedBlock>) -> int
    decreases s.len(),
{
    if s.len() == 0 {
        0
    } else {
        block_bytes(s[0]) + sum_bytes(s.drop_first())
    }
}

pub open spec fn sum_tokens(s: Seq<RankedBlock>) -> int
    decreases s.len(),
{
    if s.len() == 0 {
        0
    } else {
        token_estimate(block_chars(s[0])) + sum_tokens(s.drop_first())
    }
}

/// What is kept fits: the kept byte sizes sum to no more than the byte
/// budget and the token estimates to no more than the token budget, and
/// nothing is added.
pub proof fn lemma_fit_within_budgets(s: Seq<RankedBlock>, bl: Option<int>, tl: Option<int>)
    requires
        bl is Some ==> bl->0 >= 0,
        tl is Some ==> tl->0 >= 0,
    ensures
        ({
            let f = spec_fit(s, bl, tl);
            &&& f.0.len() <= s.len()
            &&& (bl is Some ==> sum_bytes(f.0) <= bl->0)
            &&& (tl is Some ==> sum_tokens(f.0) <= tl->0)
        }),
    decreases s.len(),
{
    if s.len() == 0 {
    } else {
        let nb = block_bytes(s[0]);
        let nt = token_estimate(block_chars(s[0]));
        let over_b = bl is Some && nb > bl->0;
        let over_t = tl is Some && nt > tl->0;
        if !over_b && !over_t {
            let nbl = if bl is Some {
                Some(bl->0 - nb)
            } else {
                None
            };
            let ntl = if tl is Some {
                Some(tl->0 - nt)
            } else {
                None
            };
            lemma_fit_within_budgets(s.drop_first(), nbl, ntl);
            let rest = spec_fit(s.drop_first(), nbl, ntl);
            assert((seq![s[0]] + rest.0).drop_first() =~= rest.0);
            assert((seq![s[0]] + rest.0)[0] == s[0]);
            lemma_sum_nonneg(rest.0);
        } else {
            lemma_fit_within_budgets(s.drop_first(), bl, tl);
        }
    }
}

proof fn lemma_sum_nonneg(s: Seq<RankedBlock>)
    ensures
        sum_bytes(s) >= 0,
        sum_tokens(s) >= 0,
    decreases s.len(),
{
    if s.len() > 0 {
        lemma_sum_nonneg(s.drop_first());
    }
}

fn bytes_of_block(b: &RankedBlock) -> (n: usize)
    ensures
        n as int == block_bytes(*b),
{
    let bytes: &[u8] = b.content.as_str().as_bytes();
    bytes.len()
}

fn chars_of_block(b: &RankedBlock) -> (n: usize)
    ensures
        n as int == block_chars(*b),
{
    let cs = str_chars(b.content.as_str());
    cs.len()
}

/// Applies `max_results`, then `max_bytes` and `max_tokens` together, to a
/// list already ordered by rank. Returns the kept blocks, in order, and the
/// set of limits that cut anything.
pub fn apply_limits(
    blocks: Vec<RankedBlock>,
    max_results: Option<usize>,
    max_bytes: Option<usize>,
    max_tokens: Option<usize>,
) -> (r: (Vec<RankedBlock>, TruncatedBy))
    ensures
        (r.0@, r.1) == spec_apply_limits(blocks@, max_results, max_bytes, max_tokens),
        max_results matches Some(m) ==> r.0@.len() <= m,
        max_bytes matches Some(m) ==> sum_bytes(r.0@) <= m as int,
        max_tokens matches Some(m) ==> sum_tokens(r.0@) <= m as int,
{
    let ghost orig = blocks@;
    let mut blocks = blocks;
    let results_cut = match max_results {
        Some(m) => blocks.len() > m,
        None => false,
    };
    if let Some(m) = max_results {
        if blocks.len() > m {
            proof {
                assert(orig.take(orig.len() as int) =~= orig);
            }
            while blocks.len() > m
                invariant
                    m < orig.len(),
                    m <= blocks@.len() <= orig.len(),
                    blocks@ == orig.take(blocks@.len() as int),
                decreases blocks@.len(),
            {
                let ghost gb = blocks@;
                blocks.pop();
                proof {
                    assert(orig.take(gb.len() as int).drop_last() =~= orig.take(gb.len() - 1));
                }
            }
        }
    }
    let ghost t = spec_truncate_results(orig, max_results);
    proof {
        assert(blocks@ == t);
    }
    let mut kept: Vec<RankedBlock> = Vec::new();
    let mut bytes_cut = false;
    let mut tokens_cut = false;
    let mut brem = max_bytes;
    let mut trem = max_tokens;
    proof {
        assert(kept@ + spec_fit(blocks@, opt_int(brem), opt_int(trem)).0 =~= spec_fit(
            t,
            opt_int(max_bytes),
            opt_int(max_tokens),
        ).0);
    }
    while blocks.len() > 0
        invariant
            ({
                let total = spec_fit(t, opt_int(max_bytes), opt_int(max_tokens));
                let rest = spec_fit(blocks@, opt_int(brem), opt_int(trem));
                &&& total.0 == kept@ + rest.0
                &&& total.1 == (bytes_cut || rest.1)
                &&& total.2 == (tokens_cut || rest.2)
            }),
        decreases blocks@.len(),
    {
        let ghost gb = blocks@;
        let b = blocks.remove(0);
        proof {
            assert(blocks@ =~= gb.drop_first());
        }
        let nb = bytes_of_block(&b);
        let nc = chars_of_block(&b);
        let te = nc / 4 + if nc % 4 == 0 {
            0
        } else {
            1
        };
        proof {
            assert(te as int == token_estimate(nc as int));
        }
        let over_b = match brem {
            Some(x) => nb > x,
            None => false,
        };
        let over_t = match trem {
            Some(x) => te > x,
            None => false,
        };
        if !over_b && !over_t {
            brem = match brem {
                Some(x) => Some(x - nb),
                None => None,
            };
            trem = match trem {
                Some(x) => Some(x - te),
                None => None,
            };
            let ghost gkept = kept@;
            kept.push(b);
            proof {
                assert(kept@ =~= gkept + seq![gb[0]]);
                assert(gkept + (seq![gb[0]] + spec_fit(blocks@, opt_int(brem), opt_int(trem)).0)
                    =~= kept@ + spec_fit(blocks@, opt_int(brem), opt_int(trem)).0);
            }
        } else {
            bytes_cut = bytes_cut || over_b;
            tokens_cut = tokens_cut || over_t;
        }
    }
    proof {
        assert(spec_fit(blocks@, opt_int(brem), opt_int(trem)).0 =~= Seq::<RankedBlock>::empty());
        assert(kept@ + Seq::<RankedBlock>::empty() =~= kept@);
        lemma_fit_within_budgets(t, opt_int(max_bytes), opt_int(max_tokens));
    }
    (
        kept,
        TruncatedBy { results: results_cut, bytes: bytes_cut, tokens: tokens_cut },
    )
}

} // verus!
