//! A whitespace tokenizer over the bytes of a text. A token is a longest run
//! of bytes that holds no ASCII whitespace; its position is its index among
//! the tokens of the text.

use vstd::prelude::*;
use vstd::string::StringSliceAdditionalSpecFns;

verus! {

/// ASCII whitespace: space, tab, line feed, vertical tab, form feed,
/// carriage return.
pub open spec fn is_space(b: u8) -> bool {
    b == 0x20 || (0x09 <= b && b <= 0x0d)
}

/// The first offset at or after `i` that holds no whitespace, or the length.
pub open spec fn skip_spaces(b: Seq<u8>, i: int) -> int
    decreases b.len() - i,
{
    if 0 <= i < b.len() && is_space(b[i]) {
        skip_spaces(b, i + 1)
    } else {
        i
    }
}

/// The first offset at or after `i` that holds whitespace, or the length.
pub open spec fn token_end(b: Seq<u8>, i: int) -> int
    decreases b.len() - i,
{
    if 0 <= i < b.len() && !is_space(b[i]) {
        token_end(b, i + 1)
    } else {
        i
    }
}

pub proof fn lemma_token_bounds(b: Seq<u8>, i: int)
    requires
        0 <= i <= b.len(),
    ensures
        i <= skip_spaces(b, i) <= b.len(),
        i <= token_end(b, i) <= b.len(),
        i < b.len() && !is_space(b[i]) ==> i < token_end(b, i),
    decreases b.len() - i,
{
    if i < b.len() {
        lemma_token_bounds(b, i + 1);
    }
}

/// The tokens of `b` from offset `i` on, in text order.
pub open spec fn tokens_from(b: Seq<u8>, i: int) -> Seq<Seq<u8>>
    decreases b.len() - i,
    via tokens_from_decreases
{
    if i < 0 || skip_spaces(b, i) >= b.len() {
        Seq::empty()
    } else {
        let s = skip_spaces(b, i);
        let e = token_end(b, s);
        if e <= s {
            Seq::empty()
        } else {
            seq![b.subrange(s, e)] + tokens_from(b, e)
        }
    }
}

#[via_fn]
proof fn tokens_from_decreases(b: Seq<u8>, i: int) {
    if 0 <= i <= b.len() {
        lemma_token_bounds(b, i);
        lemma_token_bounds(b, skip_spaces(b, i));
    }
}

/// The tokens of a text.
pub open spec fn tokens_of(b: Seq<u8>) -> Seq<Seq<u8>> {
    tokens_from(b, 0)
}

/// The views of a vector of byte vectors.
pub open spec fn token_views(v: Seq<Vec<u8>>) -> Seq<Seq<u8>> {
    v.map_values(|t: Vec<u8>| t@)
}

fn byte_is_space(b: u8) -> (r: bool)
    ensures
        r == is_space(b),
{
    b == 0x20 || (0x09 <= b && b <= 0x0d)
}

/// Splits the bytes of a text into its tokens.
pub fn tokenize_bytes(b: &[u8]) -> (toks: Vec<Vec<u8>>)
    ensures
        token_views(toks@) == tokens_of(b@),
        toks@.len() <= b@.len(),
{
    let n: usize = b.len();
    let mut toks: Vec<Vec<u8>> = Vec::new();
    let mut i: usize = 0;
    loop
        invariant
            i <= n,
            n == b@.len(),
            toks@.len() <= i,
            tokens_of(b@) == token_views(toks@) + tokens_from(b@, i as int),
        decreases n - i,
    {
        let mut s: usize = i;
        while s < n && byte_is_space(b[s])
            invariant
                i <= s <= n,
                n == b@.len(),
                skip_spaces(b@, i as int) == skip_spaces(b@, s as int),
            decreases n - s,
        {
            s = s + 1;
        }
        if s >= n {
            proof {
                assert(token_views(toks@) + Seq::<Seq<u8>>::empty() =~= token_views(toks@));
            }
            return toks;
        }
        let mut tok: Vec<u8> = Vec::new();
        let mut e: usize = s;
        while e < n && !byte_is_space(b[e])
            invariant
                s <= e <= n,
                n == b@.len(),
                token_end(b@, s as int) == token_end(b@, e as int),
                tok@ == b@.subrange(s as int, e as int),
            decreases n - e,
        {
            tok.push(b[e]);
            e = e + 1;
            proof {
                assert(tok@ =~= b@.subrange(s as int, e as int));
            }
        }
        proof {
            lemma_token_bounds(b@, s as int);
            let before = token_views(toks@);
            assert(before.push(tok@) + tokens_from(b@, e as int) =~= before + (seq![tok@]
                + tokens_from(b@, e as int)));
            assert(token_views(toks@.push(tok)) =~= before.push(tok@));
        }
        toks.push(tok);
        i = e;
    }
}

/// The tokens of `text`, in text order; the position of a token is its index.
pub fn tokenize(text: &str) -> (toks: Vec<Vec<u8>>)
    ensures
        token_views(toks@) == tokens_of(text.spec_bytes()),
        toks@.len() <= text.spec_bytes().len(),
{
    tokenize_bytes(text.as_bytes())
}

} // verus!
