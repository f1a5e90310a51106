//! Facts about the in-order sequence of a tree: it lists exactly the
//! members of the tree, a well-formed tree lists them in strictly
//! ascending order, and a strictly ascending listing of a given set of
//! values is unique.

use vstd::prelude::*;
use crate::tree::{Node, has_opt, seq_opt, wf_opt};

verus! {

/// A sequence is strictly ascending: each value is less than every
/// later one. Such a sequence has no repeated values.
pub open spec fn strictly_ascending(s: Seq<i64>) -> bool {
    forall|i: int, j: int| 0 <= i < j < s.len() ==> s[i] < s[j]
}

/// The in-order sequence of a subtree holds exactly the subtree's
/// members, whether or not the subtree is well formed.
pub proof fn lemma_in_order_membership(n: Option<Box<Node>>)
    ensures
        forall|v: i64| seq_opt(n).contains(v) <==> has_opt(n, v),
    decreases n,
{
    match n {
        None => {
        }
        Some(node) => {
            lemma_in_order_membership(node.left);
            lemma_in_order_membership(node.right);
            let sl = seq_opt(node.left);
            let sr = seq_opt(node.right);
            let sm = sl + seq![node.value];
            let s = sm + sr;
            assert(sm.len() == sl.len() + 1);
            assert(s.len() == sl.len() + 1 + sr.len());
            assert(seq_opt(n) == s);
            assert forall|v: i64| has_opt(n, v) implies s.contains(v) by {
                if has_opt(node.left, v) {
                    assert(sl.contains(v));
                    let i = choose|i: int| 0 <= i < sl.len() && sl[i] == v;
                    assert(s[i] == sm[i]);
                    assert(sm[i] == sl[i]);
                    assert(s[i] == v);
                } else if v == node.value {
                    assert(s[sl.len() as int] == sm[sl.len() as int]);
                    assert(s[sl.len() as int] == v);
                } else {
                    assert(has_opt(node.right, v));
                    assert(sr.contains(v));
                    let i = choose|i: int| 0 <= i < sr.len() && sr[i] == v;
                    let k = sm.len() + i;
                    assert(0 <= k < s.len());
                    assert(s[k] == sr[k - sm.len()]);
                    assert(k - sm.len() == i);
                    assert(s[k] == v);
                }
            }
            assert forall|v: i64| s.contains(v) implies has_opt(n, v) by {
                let i = choose|i: int| 0 <= i < s.len() && s[i] == v;
                if i < sl.len() {
                    assert(s[i] == sm[i]);
                    assert(sm[i] == sl[i]);
                    assert(sl.contains(v));
                    assert(has_opt(node.left, v));
                } else if i == sl.len() {
                    assert(s[i] == sm[i]);
                    assert(sm[i] == seq![node.value][i - sl.len()]);
                    assert(v == node.value);
                } else {
                    assert(s[i] == sr[i - sm.len()]);
                    assert(sr.contains(v));
                    assert(has_opt(node.right, v));
                }
                assert(node.has(v));
            }
        }
    }
}

/// A well-formed tree's in-order sequence is strictly ascending.
pub proof fn lemma_wf_ascending(n: Option<Box<Node>>)
    requires
        wf_opt(n),
    ensures
        strictly_ascending(seq_opt(n)),
    decreases n,
{
    match n {
        None => {
        }
        Some(node) => {
            lemma_wf_ascending(node.left);
            lemma_wf_ascending(node.right);
            lemma_in_order_membership(node.left);
            lemma_in_order_membership(node.right);
            let sl = seq_opt(node.left);
            let sr = seq_opt(node.right);
            let sm = sl + seq![node.value];
            let s = sm + sr;
            assert(sm.len() == sl.len() + 1);
            assert(seq_opt(n) == s);
            assert forall|i: int, j: int| 0 <= i < j < s.len() implies s[i] < s[j] by {
                if i < sl.len() {
                    assert(s[i] == sm[i]);
                    assert(sm[i] == sl[i]);
                    assert(sl.contains(sl[i]));
                    assert(has_opt(node.left, sl[i]));
                    if j < sl.len() {
                        assert(s[j] == sm[j]);
                        assert(sm[j] == sl[j]);
                    } else if j == sl.len() {
                        assert(s[j] == sm[j]);
                        assert(s[j] == node.value);
                    } else {
                        assert(s[j] == sr[j - sm.len()]);
                        assert(sr.contains(sr[j - sm.len()]));
                        assert(has_opt(node.right, sr[j - sm.len()]));
                    }
                } else if i == sl.len() {
                    assert(s[i] == sm[i]);
                    assert(s[i] == node.value);
                    assert(s[j] == sr[j - sm.len()]);
                    assert(sr.contains(sr[j - sm.len()]));
                    assert(has_opt(node.right, sr[j - sm.len()]));
                } else {
                    assert(s[i] == sr[i - sm.len()]);
                    assert(s[j] == sr[j - sm.len()]);
                }
            }
            assert(strictly_ascending(seq_opt(n)));
        }
    }
}

/// In a strictly ascending sequence the value at position `i` is at
/// least `i` above the first value.
proof fn lemma_ascending_gap(s: Seq<i64>, i: int)
    requires
        strictly_ascending(s),
        0 <= i < s.len(),
    ensures
        s[0] + i <= s[i],
    decreases i,
{
    if i > 0 {
        lemma_ascending_gap(s, i - 1);
        assert(s[i - 1] < s[i]);
    }
}

/// A strictly ascending sequence of `i64` values holds distinct values,
/// so it can have at most 2^64 entries.
pub proof fn lemma_ascending_len(s: Seq<i64>)
    requires
        strictly_ascending(s),
    ensures
        s.len() <= 0x1_0000_0000_0000_0000,
{
    if s.len() > 0x1_0000_0000_0000_0000 {
        let i = s.len() - 1;
        lemma_ascending_gap(s, i as int);
        assert(s[i as int] >= s[0] + i);
        assert(false);
    }
}

/// Two strictly ascending sequences with the same members are the same
/// sequence: a set of values has exactly one ascending listing.
pub proof fn lemma_ascending_unique(s1: Seq<i64>, s2: Seq<i64>)
    requires
        strictly_ascending(s1),
        strictly_ascending(s2),
        forall|v: i64| s1.contains(v) <==> s2.contains(v),
    ensures
        s1 == s2,
    decreases s1.len(),
{
    if s1.len() == 0 {
        if s2.len() > 0 {
            assert(s2.contains(s2[0]));
            assert(false);
        }
        assert(s1 =~= s2);
    } else {
        assert(s1.contains(s1[0]));
        assert(s2.contains(s2[0]));
        let i = choose|i: int| 0 <= i < s1.len() && s1[i] == s2[0];
        let j = choose|j: int| 0 <= j < s2.len() && s2[j] == s1[0];
        assert(s1[0] <= s1[i]);
        assert(s2[0] <= s2[j]);
        assert(s1[0] == s2[0]);
        let t1 = s1.drop_first();
        let t2 = s2.drop_first();
        assert forall|v: i64| t1.contains(v) implies t2.contains(v) by {
            lemma_tail_membership(s1, v);
            lemma_tail_membership(s2, v);
        }
        assert forall|v: i64| t2.contains(v) implies t1.contains(v) by {
            lemma_tail_membership(s1, v);
            lemma_tail_membership(s2, v);
        }
        lemma_ascending_unique(t1, t2);
        assert forall|k: int| 0 <= k < s1.len() implies s1[k] == s2[k] by {
            if k > 0 {
                assert(s1[k] == t1[k - 1]);
                assert(s2[k] == t2[k - 1]);
            }
        }
        assert(s1 =~= s2);
    }
}

/// For a nonempty strictly ascending sequence, the tail holds exactly
/// the members other than the head.
proof fn lemma_tail_membership(s: Seq<i64>, v: i64)
    requires
        strictly_ascending(s),
        s.len() > 0,
    ensures
        s.drop_first().contains(v) <==> s.contains(v) && v != s[0],
{
    let t = s.drop_first();
    if t.contains(v) {
        let i = choose|i: int| 0 <= i < t.len() && t[i] == v;
        assert(s[i + 1] == v);
        assert(s[0] < s[i + 1]);
    }
    if s.contains(v) && v != s[0] {
        let i = choose|i: int| 0 <= i < s.len() && s[i] == v;
        assert(i > 0);
        assert(t[i - 1] == v);
    }
}

} // verus!
