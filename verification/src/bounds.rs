//! The logarithmic height bound. A tree that satisfies the AVL balance
//! condition at every node holds at least `min_size(h)` values when its
//! height is `h`, and `min_size` grows exponentially. Since all values
//! are distinct `i64`s, a well-formed tree can hold at most 2^64 of
//! them, so its height can never exceed 129; that keeps every height
//! computation far away from `i32` overflow.

use vstd::prelude::*;
use vstd::arithmetic::power2::{pow2, lemma_pow2_unfold, lemma2_to64};
use crate::tree::{Node, ht_opt, seq_opt, wf_opt, Tree};
use crate::order::{lemma_wf_ascending, lemma_ascending_len};

verus! {

/// No well-formed tree is ever taller than this.
pub const MAX_HEIGHT: i32 = 129;

/// The fewest values a tree of height `h` can hold while satisfying
/// the AVL balance condition everywhere: the shortest subtree beside a
/// subtree of height `h - 1` has height `h - 2`.
pub open spec fn min_size(h: nat) -> nat
    decreases h,
{
    if h == 0 {
        0
    } else if h == 1 {
        1
    } else {
        1 + min_size((h - 1) as nat) + min_size((h - 2) as nat)
    }
}

/// `min_size` never decreases from one height to the next.
proof fn lemma_min_size_step(h: nat)
    ensures
        min_size(h) <= min_size(h + 1),
{
    if h >= 1 {
        assert(min_size(h + 1) == 1 + min_size(h) + min_size((h - 1) as nat));
    }
}

/// `min_size` never decreases as the height grows.
proof fn lemma_min_size_mono(a: nat, b: nat)
    requires
        a <= b,
    ensures
        min_size(a) <= min_size(b),
    decreases b - a,
{
    if a < b {
        lemma_min_size_mono(a, (b - 1) as nat);
        lemma_min_size_step((b - 1) as nat);
    }
}

/// `min_size` doubles every two levels: `min_size(2k) + 1 >= 2^k`.
proof fn lemma_min_size_pow(k: nat)
    ensures
        min_size(2 * k) + 1 >= pow2(k),
    decreases k,
{
    if k == 0 {
        lemma2_to64();
    } else {
        lemma_min_size_pow((k - 1) as nat);
        lemma_min_size_mono((2 * k - 2) as nat, (2 * k - 1) as nat);
        lemma_pow2_unfold(k);
        assert(min_size(2 * k) == 1 + min_size((2 * k - 1) as nat) + min_size((2 * k - 2) as nat));
    }
}

/// A well-formed tree of height `h` holds at least `min_size(h)`
/// values (and its height is never negative).
pub proof fn lemma_wf_min_size(n: Option<Box<Node>>)
    requires
        wf_opt(n),
    ensures
        seq_opt(n).len() >= min_size(ht_opt(n) as nat),
        ht_opt(n) >= 0,
    decreases n,
{
    match n {
        None => {
        }
        Some(node) => {
            lemma_wf_min_size(node.left);
            lemma_wf_min_size(node.right);
            let hl = ht_opt(node.left);
            let hr = ht_opt(node.right);
            let h = node.ht();
            assert(h == 1 + vstd::math::max(hl, hr));
            assert(seq_opt(n).len() == seq_opt(node.left).len() + 1 + seq_opt(node.right).len());
            if h >= 2 {
                assert(min_size(h as nat) == 1 + min_size((h - 1) as nat) + min_size((h - 2) as nat));
                if hl >= hr {
                    assert(hl == h - 1);
                    assert(hr >= h - 2);
                    lemma_min_size_mono((h - 2) as nat, hr as nat);
                } else {
                    assert(hr == h - 1);
                    assert(hl >= h - 2);
                    lemma_min_size_mono((h - 2) as nat, hl as nat);
                }
            }
        }
    }
}

/// A well-formed tree is never taller than `MAX_HEIGHT`: a taller one
/// would have to hold more distinct `i64` values than exist.
pub proof fn lemma_wf_height(n: Option<Box<Node>>)
    requires
        wf_opt(n),
    ensures
        0 <= ht_opt(n) <= MAX_HEIGHT,
{
    lemma_wf_min_size(n);
    if ht_opt(n) > MAX_HEIGHT {
        lemma_min_size_mono(130, ht_opt(n) as nat);
        lemma_min_size_pow(65);
        lemma_pow2_unfold(65);
        lemma2_to64();
        assert(pow2(64) == 0x1_0000_0000_0000_0000);
        assert(seq_opt(n).len() >= min_size(130));
        assert(min_size(130) + 1 >= pow2(65));
        lemma_wf_ascending(n);
        lemma_ascending_len(seq_opt(n));
        assert(false);
    }
}

/// The logarithmic height bound: a well-formed tree holding `len`
/// values has height at most `2 * log2(len + 1)`, stated here without
/// logarithms as `len + 1 >= 2^(height / 2)`.
pub proof fn lemma_height_bound(t: Tree)
    requires
        t.wf(),
    ensures
        t.in_order().len() + 1 >= pow2((t.ht() / 2) as nat),
        0 <= t.ht() <= MAX_HEIGHT,
{
    lemma_wf_min_size(t.root);
    lemma_wf_height(t.root);
    let h = t.ht();
    let k = (h / 2) as nat;
    lemma_min_size_pow(k);
    lemma_min_size_mono(2 * k, h as nat);
}

} // verus!
