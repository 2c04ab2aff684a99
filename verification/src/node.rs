//! Nodes of a binary tree in the order of an in-order traversal.
//!
//! Even numbers are leaves. A node of level `l` covers `2 << l` blocks, the
//! first of which is a multiple of `2 << l`; the node's number is one less than
//! that of the block in the middle.
use vstd::arithmetic::power2::*;
use vstd::prelude::*;

use crate::pow;

verus! {

/// A node, by its place in the in-order traversal of the tree.
#[derive(Clone, Copy, Debug, PartialEq, Eq, Structural, PartialOrd, Ord, Hash)]
pub struct TreeNode(pub u64);

/// A node at the lowest level. It covers two blocks.
#[derive(Clone, Copy, Debug, PartialEq, Eq, Structural, PartialOrd, Ord, Hash)]
pub struct LeafNode(pub u64);

/// The level of a node: the number of ones at the end of its binary number.
pub open spec fn node_level(n: nat) -> nat
    decreases n,
{
    if n % 2 == 0 {
        0
    } else {
        1 + node_level(n / 2)
    }
}

/// The node of level `level` whose first block is `start`.
pub open spec fn node_at(start: nat, level: nat) -> nat {
    (start + pow2(level) - 1) as nat
}

/// The level, at most `max`, of the node that covers the blocks from `start` on
/// in a tree of `filled` nodes: the highest whose node is one of the tree.
pub open spec fn fit_level(start: nat, max: nat, filled: nat) -> nat
    decreases max,
{
    if max == 0 || node_at(start, max) < filled {
        max
    } else {
        fit_level(start, (max - 1) as nat, filled)
    }
}

/// A node's level and first block determine each other.
pub proof fn lemma_node_at(start: nat, level: nat)
    requires
        start % pow2(level + 1) == 0,
    ensures
        node_level(node_at(start, level)) == level,
    decreases level,
{
    pow::lemma_pow2_step(level);
    let n = node_at(start, level);
    if level > 0 {
        let l = (level - 1) as nat;
        pow::lemma_pow2_step(l);
        pow::lemma_pow2_step(0);
        pow::lemma_multiple_of_smaller(start, 1, level + 1);
        let half = start / 2;
        assert(start == 2 * half);
        assert(half % pow2(level) == 0) by {
            vstd::arithmetic::div_mod::lemma_fundamental_div_mod(
                start as int,
                pow2(level + 1) as int,
            );
            let q = start as int / pow2(level + 1) as int;
            assert(half == q * pow2(level)) by (nonlinear_arith)
                requires
                    2 * half == pow2(level + 1) * q,
                    pow2(level + 1) == 2 * pow2(level),
            ;
            vstd::arithmetic::div_mod::lemma_mod_multiples_basic(q, pow2(level) as int);
        }
        lemma_node_at(half, l);
        assert(n / 2 == node_at(half, l));
    }
}

impl TreeNode {
    /// The level of the node; leaves have level zero.
    pub open spec fn spec_level(self) -> nat {
        node_level(self.0 as nat)
    }

    /// The number of the first block that the node covers.
    pub open spec fn spec_start(self) -> int {
        self.0 + 1 - pow2(self.spec_level())
    }

    /// What the numbering promises of every node.
    pub proof fn lemma_shape(self)
        ensures
            self.spec_start() >= 0,
            self.spec_start() as nat % pow2(self.spec_level() + 1) == 0,
            self.0 == node_at(self.spec_start() as nat, self.spec_level()),
    {
        lemma_shape_of(self.0 as nat);
    }

    /// Half the number of blocks that the node covers.
    pub fn half_span(&self) -> (r: u64)
        requires
            self.0 < u64::MAX,
        ensures
            r == pow2(self.spec_level()),
            1 <= r <= self.0 + 1,
    {
        let mut n: u64 = self.0;
        let mut p: u64 = 1;
        let ghost mut l: nat = 0;
        proof {
            pow::lemma_pow2_step(0);
        }
        while n % 2 == 1
            invariant
                self.0 < u64::MAX,
                p == pow2(l),
                p >= 1,
                (n + 1) * p == self.0 + 1,
                self.spec_level() == l + node_level(n as nat),
            decreases n,
        {
            proof {
                pow::lemma_pow2_step(l);
            }
            assert((n / 2 + 1) * (2 * p) == self.0 + 1) by (nonlinear_arith)
                requires
                    n % 2 == 1,
                    (n + 1) * p == self.0 + 1,
            ;
            assert(2 * p <= self.0 + 1) by (nonlinear_arith)
                requires
                    (n / 2 + 1) * (2 * p) == self.0 + 1,
                    p >= 1,
            ;
            n = n / 2;
            p = 2 * p;
            proof {
                l = l + 1;
            }
        }
        assert(p <= self.0 + 1) by (nonlinear_arith)
            requires
                (n + 1) * p == self.0 + 1,
                p >= 1,
        ;
        p
    }

    /// Whether the node is at the lowest level.
    pub fn is_leaf(&self) -> (r: bool)
        ensures
            r == (self.spec_level() == 0),
    {
        self.0 % 2 == 0
    }

    /// The node as a leaf, if it is one.
    pub fn as_leaf(&self) -> (r: Option<LeafNode>)
        ensures
            r is Some <==> self.spec_level() == 0,
            r matches Some(leaf) ==> leaf.0 == self.0 && leaf.0 == self.spec_start(),
    {
        proof {
            pow::lemma_pow2_step(0);
        }
        if self.is_leaf() {
            Some(LeafNode(self.0))
        } else {
            None
        }
    }

    /// The root of the left half of what the node covers.
    pub fn left_child(&self) -> (r: Option<TreeNode>)
        requires
            self.0 < u64::MAX,
        ensures
            r is Some <==> self.spec_level() > 0,
            r matches Some(c) ==> c.0 < self.0 && c.spec_start() == self.spec_start()
                && c.spec_level() == self.spec_level() - 1,
    {
        if self.is_leaf() {
            return None;
        }
        let offset: u64 = self.half_span() / 2;
        proof {
            self.lemma_shape();
            let l = (self.spec_level() - 1) as nat;
            pow::lemma_pow2_step(l);
            pow::lemma_multiple_of_smaller(self.spec_start() as nat, l + 1, l + 2);
            lemma_node_at(self.spec_start() as nat, l);
        }
        Some(TreeNode(self.0 - offset))
    }

    /// The root of the right half of what the node covers, in a tree without end.
    pub fn right_child(&self) -> (r: Option<TreeNode>)
        requires
            self.0 <= u64::MAX / 4,
        ensures
            r is Some <==> self.spec_level() > 0,
            r matches Some(c) ==> c.0 <= self.0 + self.0 / 2 + 1 && c.spec_start()
                == self.spec_start() + pow2(self.spec_level()) && c.spec_level()
                == self.spec_level() - 1,
    {
        if self.is_leaf() {
            return None;
        }
        let offset: u64 = self.half_span() / 2;
        proof {
            self.lemma_shape();
            let l = (self.spec_level() - 1) as nat;
            pow::lemma_pow2_step(l);
            pow::lemma_multiple_of_smaller(self.spec_start() as nat, l + 1, l + 2);
            vstd::arithmetic::div_mod::lemma_mod_self_0(pow2(l + 1) as int);
            pow::lemma_sum_of_multiples(self.spec_start() as nat, pow2(l + 1), pow2(l + 1));
            lemma_node_at((self.spec_start() + pow2(l + 1)) as nat, l);
        }
        Some(TreeNode(self.0 + offset))
    }

    /// The root of what the node covers to the right of its middle, in a tree of
    /// `len` nodes.
    pub fn right_descendant(&self, len: TreeNode) -> (r: Option<TreeNode>)
        requires
            self.0 <= u64::MAX / 4,
        ensures
            r is Some <==> self.spec_level() > 0 && self.spec_start() + pow2(self.spec_level())
                < len.0,
            r matches Some(c) ==> c.0 < len.0 && c.spec_start() == self.spec_start() + pow2(
                self.spec_level(),
            ) && c.spec_level() == fit_level(
                (self.spec_start() + pow2(self.spec_level())) as nat,
                (self.spec_level() - 1) as nat,
                len.0 as nat,
            ),
    {
        let mut node: TreeNode = match self.right_child() {
            Some(node) => node,
            None => return None,
        };
        let ghost start = (self.spec_start() + pow2(self.spec_level())) as nat;
        let ghost max = (self.spec_level() - 1) as nat;
        while node.0 >= len.0
            invariant
                node.0 < u64::MAX,
                self.spec_level() > 0,
                node.spec_start() == start,
                start == self.spec_start() + pow2(self.spec_level()),
                max == self.spec_level() - 1,
                node.spec_level() <= max,
                fit_level(start, max, len.0 as nat) == fit_level(
                    start,
                    node.spec_level(),
                    len.0 as nat,
                ),
            decreases node.spec_level(),
        {
            proof {
                node.lemma_shape();
                pow::lemma_pow2_step(node.spec_level());
                pow::lemma_pow2_step(0);
            }
            node = match node.left_child() {
                Some(node) => node,
                None => return None,
            };
        }
        proof {
            node.lemma_shape();
            pow::lemma_pow2_step(node.spec_level());
        }
        Some(node)
    }
}

/// Every number is that of a node whose first block is aligned to its span.
proof fn lemma_shape_of(n: nat)
    ensures
        n + 1 >= pow2(node_level(n)),
        (n + 1 - pow2(node_level(n))) as nat % pow2(node_level(n) + 1) == 0,
    decreases n,
{
    pow::lemma_pow2_step(0);
    if n % 2 == 1 {
        lemma_shape_of(n / 2);
        let l = node_level(n / 2);
        pow::lemma_pow2_step(l);
        pow::lemma_pow2_step(l + 1);
        let s = (n / 2 + 1 - pow2(l)) as nat;
        let m = pow2(l + 1) as int;
        vstd::arithmetic::div_mod::lemma_fundamental_div_mod(s as int, m);
        let q = s as int / m;
        assert(2 * s == q * pow2(l + 2)) by (nonlinear_arith)
            requires
                s == m * q,
                pow2(l + 2) == 2 * m,
        ;
        vstd::arithmetic::div_mod::lemma_mod_multiples_basic(q, pow2(l + 2) as int);
        assert((n + 1 - pow2(l + 1)) as nat == 2 * s);
    }
}

} // verus!
