//! Index arithmetic on the tree of links.
//!
//! ```text
//! ╭───────────────────────────────╮
//! ├───────────────╮               │
//! ├───────╮       ├───────╮       │
//! ├───╮   ├───╮   ├───╮   ├───╮   │
//! │ 0 │ 1 │ 2 │ 3 │ 4 │ 5 │ 6 │ 7 │
//! 0   1   2   3   4   5   6   7   8
//! ```
//!
//! On level `degree` a step passes `2^degree` nodes. Seen from a node, the
//! link ahead on level `degree` has the index `node + 2^degree - 1`; in the
//! stored tree there is such a link only where the node's index is a multiple
//! of `2^(degree + 1)`.

use crate::binary::{lemma_exponent_fits, lemma_pow2_double, power_of_two};
use vstd::arithmetic::power2::pow2;
use vstd::prelude::*;

verus! {

/// The node one step after `node_index` on level `degree`.
pub fn node_index_right(node_index: usize, degree: usize) -> (index: usize)
    requires
        node_index + pow2(degree as nat) <= usize::MAX,
    ensures
        index == node_index + pow2(degree as nat),
{
    node_index + power_of_two(degree)
}

/// The node one step before `node_index` on level `degree`.
pub fn node_index_left(node_index: usize, degree: usize) -> (index: usize)
    requires
        pow2(degree as nat) <= node_index,
    ensures
        index == node_index - pow2(degree as nat),
{
    node_index - power_of_two(degree)
}

/// The node above `node_index`: going up a level does not change the node.
pub fn node_index_up(node_index: usize) -> (index: usize)
    ensures
        index == node_index,
{
    node_index
}

/// The node below `node_index`: going down a level does not change the node.
pub fn node_index_down(node_index: usize) -> (index: usize)
    ensures
        index == node_index,
{
    node_index
}

/// Whether the stored tree has a link ahead of `node_index` on level
/// `degree`: whether the index is a multiple of `2^(degree + 1)`. Bounds are
/// not checked.
pub fn can_have_link_index_at(node_index: usize, degree: usize) -> (b: bool)
    requires
        pow2((degree + 1) as nat) <= usize::MAX,
    ensures
        b == (node_index as nat % pow2((degree + 1) as nat) == 0),
{
    proof {
        lemma_exponent_fits((degree + 1) as nat);
        lemma_pow2_double(degree as nat);
    }
    node_index % power_of_two(degree + 1) == 0
}

/// The link on level `degree` after the link `link_index` of that level.
pub fn link_index_right(link_index: usize, degree: usize) -> (index: usize)
    requires
        link_index + pow2((degree + 1) as nat) <= usize::MAX,
    ensures
        index == link_index + pow2((degree + 1) as nat),
{
    proof {
        lemma_exponent_fits((degree + 1) as nat);
    }
    link_index + power_of_two(degree + 1)
}

/// The link on level `degree` before the link `link_index` of that level.
pub fn link_index_left(link_index: usize, degree: usize) -> (index: usize)
    requires
        pow2((degree + 1) as nat) <= link_index,
    ensures
        index == link_index - pow2((degree + 1) as nat),
{
    proof {
        lemma_exponent_fits((degree + 1) as nat);
    }
    link_index - power_of_two(degree + 1)
}

/// The link one level above `degree` that ends behind the link `link_index`
/// of level `degree` and spans it.
pub fn link_index_up_right(link_index: usize, degree: usize) -> (index: usize)
    requires
        link_index + pow2(degree as nat) <= usize::MAX,
    ensures
        index == link_index + pow2(degree as nat),
{
    link_index + power_of_two(degree)
}

/// The link one level above `degree` that ends before the link `link_index`
/// of level `degree`.
pub fn link_index_up_left(link_index: usize, degree: usize) -> (index: usize)
    requires
        pow2(degree as nat) <= link_index,
    ensures
        index == link_index - pow2(degree as nat),
{
    link_index - power_of_two(degree)
}

/// The link one level below `degree` that ends where the link `link_index`
/// of level `degree` would end if it shifted half its span on.
pub fn link_index_down_right(link_index: usize, degree: usize) -> (index: usize)
    requires
        degree > 0,
        link_index + pow2((degree - 1) as nat) <= usize::MAX,
    ensures
        index == link_index + pow2((degree - 1) as nat),
{
    link_index + power_of_two(degree - 1)
}

/// The link one level below `degree` that starts where the link
/// `link_index` of level `degree` starts.
pub fn link_index_down_left(link_index: usize, degree: usize) -> (index: usize)
    requires
        degree > 0,
        pow2((degree - 1) as nat) <= link_index,
    ensures
        index == link_index - pow2((degree - 1) as nat),
{
    link_index - power_of_two(degree - 1)
}

} // verus!
