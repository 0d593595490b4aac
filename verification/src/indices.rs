//! Arithmetic between absolute coordinates 0..9 and the pair of a block
//! coordinate 0..3 and a block-local coordinate 0..3.

use vstd::arithmetic::div_mod::{
    lemma_fundamental_div_mod, lemma_fundamental_div_mod_converse,
};
use vstd::prelude::*;

verus! {

/// Composing a block coordinate `b` with a local coordinate `l` and
/// splitting the result again gives `b` and `l` back.
pub proof fn lemma_compose_div3(b: int, l: int)
    requires
        0 <= b,
        0 <= l < 3,
    ensures
        (3 * b + l) / 3 == b,
        (3 * b + l) % 3 == l,
{
    lemma_fundamental_div_mod_converse(3 * b + l, 3, b, l);
}

/// An absolute coordinate 0..9 splits into a block coordinate 0..3 and
/// a local coordinate 0..3, and they compose back to it.
pub proof fn lemma_split_div3(x: int)
    requires
        0 <= x < 9,
    ensures
        0 <= x / 3 < 3,
        0 <= x % 3 < 3,
        x == 3 * (x / 3) + x % 3,
{
    lemma_fundamental_div_mod(x, 3);
}

} // verus!
