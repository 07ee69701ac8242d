use vstd::prelude::*;

verus! {

/// Colour tag carried by every node.  Absent children count as black.
#[derive(Clone, Copy, PartialEq, Eq, Structural)]
pub enum Color {
    Red,
    Black,
}

/// A single element of the tree: a key, a colour, and the two owned
/// subtrees.  "No child" is an explicit `None`; there is no sentinel node.
pub struct Node {
    pub key: u64,
    pub color: Color,
    pub left: Option<Box<Node>>,
    pub right: Option<Box<Node>>,
}

/// Whether the root of the subtree is a red node.  An empty subtree is
/// counted as black.
pub open spec fn red(n: Option<Box<Node>>) -> bool {
    match n {
        Some(b) => b.color == Color::Red,
        None => false,
    }
}

/// The set of keys held in the subtree.
pub open spec fn keys(n: Option<Box<Node>>) -> Set<u64>
    decreases n,
{
    match n {
        None => Set::empty(),
        Some(b) => keys(b.left).union(keys(b.right)).insert(b.key),
    }
}

/// The binary-search-tree order invariant: at every node, all keys of the
/// left subtree compare less than the node's key and all keys of the right
/// subtree compare greater.
pub open spec fn ordered(n: Option<Box<Node>>) -> bool
    decreases n,
{
    match n {
        None => true,
        Some(b) => {
            &&& (forall|k: u64| keys(b.left).contains(k) ==> k < b.key)
            &&& (forall|k: u64| keys(b.right).contains(k) ==> k > b.key)
            &&& ordered(b.left)
            &&& ordered(b.right)
        },
    }
}

/// The local colour invariant: no red node has a red child, anywhere in
/// the subtree.
pub open spec fn color_ok(n: Option<Box<Node>>) -> bool
    decreases n,
{
    match n {
        None => true,
        Some(b) => {
            &&& (b.color == Color::Red ==> !red(b.left) && !red(b.right))
            &&& color_ok(b.left)
            &&& color_ok(b.right)
        },
    }
}

/// The colour invariant everywhere except possibly at the root: both
/// subtrees of the root satisfy [`color_ok`], but the root itself may be a
/// red node with a red child.  Rebalancing works with values in this
/// weaker state and repairs them one level up.
pub open spec fn color_ok_below(n: Option<Box<Node>>) -> bool {
    match n {
        None => true,
        Some(b) => color_ok(b.left) && color_ok(b.right),
    }
}

/// The number of black nodes on the path from the root of the subtree down
/// to the leftmost absent child.  Under [`height_balanced`] every path to
/// an absent child passes through this many black nodes.
pub open spec fn black_height(n: Option<Box<Node>>) -> nat
    decreases n,
{
    match n {
        None => 0,
        Some(b) => black_height(b.left) + if b.color == Color::Black {
            1nat
        } else {
            0nat
        },
    }
}

/// The black-height invariant: at every node, both subtrees carry the same
/// black-height.
pub open spec fn height_balanced(n: Option<Box<Node>>) -> bool
    decreases n,
{
    match n {
        None => true,
        Some(b) => {
            &&& black_height(b.left) == black_height(b.right)
            &&& height_balanced(b.left)
            &&& height_balanced(b.right)
        },
    }
}

/// The keys of the subtree, listed by an in-order walk.
pub open spec fn in_order(n: Option<Box<Node>>) -> Seq<u64>
    decreases n,
{
    match n {
        None => Seq::empty(),
        Some(b) => in_order(b.left) + seq![b.key] + in_order(b.right),
    }
}

/// The number of nodes on the longest chain from the root of the subtree
/// down to an absent child.
pub open spec fn height(n: Option<Box<Node>>) -> nat
    decreases n,
{
    match n {
        None => 0,
        Some(b) => 1 + if height(b.left) >= height(b.right) {
            height(b.left)
        } else {
            height(b.right)
        },
    }
}

/// The balance guarantee of the colour invariants: the height of a
/// subtree never exceeds twice its black-height, plus one for a red
/// root, while the subtree holds at least `2^black-height - 1` keys.
/// Together the two bounds make the height logarithmic in the number of
/// keys.
pub proof fn lemma_node_height(n: Option<Box<Node>>)
    requires
        ordered(n),
        color_ok(n),
        height_balanced(n),
    ensures
        height(n) <= 2 * black_height(n) + if red(n) {
            1nat
        } else {
            0nat
        },
        keys(n).len() + 1 >= vstd::arithmetic::power2::pow2(black_height(n)),
    decreases n,
{
    lemma_in_order_props(n);
    match n {
        None => {
            vstd::arithmetic::power2::lemma2_to64();
        },
        Some(b) => {
            lemma_node_height(b.left);
            lemma_node_height(b.right);
            lemma_in_order_props(b.left);
            lemma_in_order_props(b.right);
            assert(in_order(n).len() == in_order(b.left).len() + 1 + in_order(b.right).len());
            if b.color == Color::Black {
                vstd::arithmetic::power2::lemma_pow2_unfold(black_height(n));
            }
        },
    }
}

/// In an ordered subtree the in-order walk lists exactly the key set, in
/// strictly ascending order and hence without duplicates; its length is
/// the number of keys.
pub proof fn lemma_in_order_props(n: Option<Box<Node>>)
    requires
        ordered(n),
    ensures
        in_order(n).to_set() =~= keys(n),
        in_order(n).no_duplicates(),
        in_order(n).len() == keys(n).len(),
        forall|i: int, j: int|
            0 <= i < j < in_order(n).len() ==> in_order(n)[i] < in_order(n)[j],
    decreases n,
{
    lemma_keys_finite(n);
    match n {
        None => {
            assert(in_order(n).to_set() =~= keys(n));
        },
        Some(b) => {
            lemma_in_order_props(b.left);
            lemma_in_order_props(b.right);
            let l = in_order(b.left);
            let r = in_order(b.right);
            let s = in_order(n);
            assert(s == l + seq![b.key] + r);
            assert forall|x: u64| s.to_set().contains(x) implies keys(n).contains(x) by {
                let i = choose|i: int| 0 <= i < s.len() && s[i] == x;
                if i < l.len() {
                    assert(l[i] == x);
                    assert(l.to_set().contains(x));
                } else if i == l.len() {
                    assert(x == b.key);
                } else {
                    assert(r[i - l.len() - 1] == x);
                    assert(r.to_set().contains(x));
                }
            }
            assert forall|x: u64| keys(n).contains(x) implies s.to_set().contains(x) by {
                if keys(b.left).contains(x) {
                    let i = choose|i: int| 0 <= i < l.len() && l[i] == x;
                    assert(s[i] == x);
                } else if keys(b.right).contains(x) {
                    let i = choose|i: int| 0 <= i < r.len() && r[i] == x;
                    assert(s[l.len() + 1 + i] == x);
                } else {
                    assert(x == b.key);
                    assert(s[l.len() as int] == x);
                }
            }
            assert(s.to_set() =~= keys(n));
            assert forall|i: int, j: int| 0 <= i < j < s.len() implies s[i] < s[j] by {
                if j < l.len() {
                    assert(s[i] == l[i] && s[j] == l[j]);
                } else if i < l.len() && j == l.len() {
                    assert(l[i] == s[i]);
                    assert(l.to_set().contains(s[i]));
                    assert(keys(b.left).contains(s[i]));
                } else if i < l.len() {
                    assert(l.to_set().contains(s[i]));
                    assert(s[j] == r[j - l.len() - 1]);
                    assert(r.to_set().contains(s[j]));
                    assert(s[i] < b.key && b.key < s[j]);
                } else if i == l.len() {
                    assert(s[j] == r[j - l.len() - 1]);
                    assert(r.to_set().contains(s[j]));
                } else {
                    assert(s[i] == r[i - l.len() - 1] && s[j] == r[j - l.len() - 1]);
                }
            }
            assert(s.no_duplicates()) by {
                assert forall|i: int, j: int|
                    0 <= i < s.len() && 0 <= j < s.len() && i != j implies s[i] != s[j] by {
                    if i < j {
                        assert(s[i] < s[j]);
                    } else {
                        assert(s[j] < s[i]);
                    }
                }
            }
            s.unique_seq_to_set();
        },
    }
}

/// The key set of every subtree is finite.
pub proof fn lemma_keys_finite(n: Option<Box<Node>>)
    ensures
        keys(n).finite(),
    decreases n,
{
    match n {
        None => {},
        Some(b) => {
            lemma_keys_finite(b.left);
            lemma_keys_finite(b.right);
        },
    }
}

impl Node {
    /// Whether the subtree has a red root.
    pub(crate) fn is_red(n: &Option<Box<Node>>) -> (r: bool)
        ensures
            r == red(*n),
    {
        match n {
            Some(b) => b.color == Color::Red,
            None => false,
        }
    }

    /// Rebalance a candidate node whose left subtree may carry a red-red
    /// violation at its own root.  The candidate node is black, has `key`,
    /// left subtree `l` and right subtree `r`; `l` came out of an
    /// insertion one level down and may be a red node with one red child.
    /// The two rotation cases turn that pattern into a red node with two
    /// black children; otherwise the parts are reassembled unchanged.
    pub(crate) fn bali_l(l: Option<Box<Node>>, key: u64, r: Option<Box<Node>>) -> (t: Box<Node>)
        requires
            ordered(l),
            ordered(r),
            forall|k: u64| keys(l).contains(k) ==> k < key,
            forall|k: u64| keys(r).contains(k) ==> k > key,
            color_ok_below(l),
            color_ok(r),
            height_balanced(l),
            height_balanced(r),
            black_height(l) == black_height(r),
        ensures
            keys(Some(t)) =~= keys(l).union(keys(r)).insert(key),
            ordered(Some(t)),
            color_ok(Some(t)),
            height_balanced(Some(t)),
            black_height(Some(t)) == black_height(l) + 1,
    {
        proof {
            reveal_with_fuel(keys, 4);
            reveal_with_fuel(ordered, 4);
            reveal_with_fuel(color_ok, 4);
            reveal_with_fuel(black_height, 4);
            reveal_with_fuel(height_balanced, 4);
        }
        let ghost l0 = l;
        let ghost r0 = r;
        if Node::is_red(&l) {
            let lb = l.unwrap();
            let Node { key: yk, color: yc, left: yl, right: yr } = *lb;
            proof {
                assert(forall|k: u64| keys(yl).contains(k) ==> k < yk);
                assert(forall|k: u64| keys(yr).contains(k) ==> k > yk);
                assert(keys(l0).contains(yk));
            }
            if Node::is_red(&yl) {
                let llb = yl.unwrap();
                let Node { key: xk, color: _, left: t1, right: t2 } = *llb;
                let t = Box::new(Node {
                    key: yk,
                    color: Color::Red,
                    left: Some(Box::new(Node { key: xk, color: Color::Black, left: t1, right: t2 })),
                    right: Some(Box::new(Node { key, color: Color::Black, left: yr, right: r })),
                });
                proof {
                    assert forall|k: u64| keys(t.left).contains(k) implies k < t.key by {
                        assert(keys(yl).contains(k));
                    }
                    assert forall|k: u64| keys(t.right).contains(k) implies k > t.key by {
                        if keys(yr).contains(k) {
                        } else if keys(r0).contains(k) {
                            assert(k > key && key > yk);
                        } else {
                            assert(k == key);
                        }
                    }
                    assert forall|k: u64| keys(yr).contains(k) implies k < key by {
                        assert(keys(l0).contains(k));
                    }
                }
                t
            } else if Node::is_red(&yr) {
                let lrb = yr.unwrap();
                let Node { key: zk, color: _, left: t2, right: t3 } = *lrb;
                proof {
                    assert(forall|k: u64| keys(t2).contains(k) ==> k < zk);
                    assert(forall|k: u64| keys(t3).contains(k) ==> k > zk);
                    assert(keys(yr).contains(zk));
                }
                let t = Box::new(Node {
                    key: zk,
                    color: Color::Red,
                    left: Some(Box::new(Node { key: yk, color: Color::Black, left: yl, right: t2 })),
                    right: Some(Box::new(Node { key, color: Color::Black, left: t3, right: r })),
                });
                proof {
                    assert forall|k: u64| keys(t.left).contains(k) implies k < t.key by {
                        if keys(yl).contains(k) {
                            assert(k < yk && yk < zk);
                        } else if keys(t2).contains(k) {
                        } else {
                            assert(k == yk);
                        }
                    }
                    assert forall|k: u64| keys(t.right).contains(k) implies k > t.key by {
                        if keys(t3).contains(k) {
                        } else if keys(r0).contains(k) {
                            assert(keys(l0).contains(zk));
                            assert(k > key && key > zk);
                        } else {
                            assert(k == key);
                            assert(keys(l0).contains(zk));
                        }
                    }
                    assert forall|k: u64| keys(t3).contains(k) implies k < key by {
                        assert(keys(yr).contains(k));
                        assert(keys(l0).contains(k));
                    }
                    assert forall|k: u64| keys(t2).contains(k) implies k > yk by {
                        assert(keys(yr).contains(k));
                    }
                }
                t
            } else {
                let t = Box::new(Node {
                    key,
                    color: Color::Black,
                    left: Some(Box::new(Node { key: yk, color: yc, left: yl, right: yr })),
                    right: r,
                });
                proof {
                    assert forall|k: u64| keys(t.left).contains(k) implies k < t.key by {
                        assert(keys(l0).contains(k));
                    }
                }
                t
            }
        } else {
            Box::new(Node { key, color: Color::Black, left: l, right: r })
        }
    }

    /// Mirror image of [`Node::bali_l`]: rebalance a candidate black node
    /// whose right subtree may carry a red-red violation at its own root.
    pub(crate) fn bali_r(l: Option<Box<Node>>, key: u64, r: Option<Box<Node>>) -> (t: Box<Node>)
        requires
            ordered(l),
            ordered(r),
            forall|k: u64| keys(l).contains(k) ==> k < key,
            forall|k: u64| keys(r).contains(k) ==> k > key,
            color_ok(l),
            color_ok_below(r),
            height_balanced(l),
            height_balanced(r),
            black_height(l) == black_height(r),
        ensures
            keys(Some(t)) =~= keys(l).union(keys(r)).insert(key),
            ordered(Some(t)),
            color_ok(Some(t)),
            height_balanced(Some(t)),
            black_height(Some(t)) == black_height(l) + 1,
    {
        proof {
            reveal_with_fuel(keys, 4);
            reveal_with_fuel(ordered, 4);
            reveal_with_fuel(color_ok, 4);
            reveal_with_fuel(black_height, 4);
            reveal_with_fuel(height_balanced, 4);
        }
        let ghost l0 = l;
        let ghost r0 = r;
        if Node::is_red(&r) {
            let rb = r.unwrap();
            let Node { key: yk, color: yc, left: yl, right: yr } = *rb;
            proof {
                assert(forall|k: u64| keys(yl).contains(k) ==> k < yk);
                assert(forall|k: u64| keys(yr).contains(k) ==> k > yk);
                assert(keys(r0).contains(yk));
            }
            if Node::is_red(&yr) {
                let rrb = yr.unwrap();
                let Node { key: zk, color: _, left: t3, right: t4 } = *rrb;
                let t = Box::new(Node {
                    key: yk,
                    color: Color::Red,
                    left: Some(Box::new(Node { key, color: Color::Black, left: l, right: yl })),
                    right: Some(Box::new(Node { key: zk, color: Color::Black, left: t3, right: t4 })),
                });
                proof {
                    assert forall|k: u64| keys(t.right).contains(k) implies k > t.key by {
                        assert(keys(yr).contains(k));
                    }
                    assert forall|k: u64| keys(t.left).contains(k) implies k < t.key by {
                        if keys(yl).contains(k) {
                        } else if keys(l0).contains(k) {
                            assert(k < key && key < yk);
                        } else {
                            assert(k == key);
                        }
                    }
                    assert forall|k: u64| keys(yl).contains(k) implies k > key by {
                        assert(keys(r0).contains(k));
                    }
                }
                t
            } else if Node::is_red(&yl) {
                let rlb = yl.unwrap();
                let Node { key: xk, color: _, left: t2, right: t3 } = *rlb;
                proof {
                    assert(forall|k: u64| keys(t2).contains(k) ==> k < xk);
                    assert(forall|k: u64| keys(t3).contains(k) ==> k > xk);
                    assert(keys(yl).contains(xk));
                }
                let t = Box::new(Node {
                    key: xk,
                    color: Color::Red,
                    left: Some(Box::new(Node { key, color: Color::Black, left: l, right: t2 })),
                    right: Some(Box::new(Node { key: yk, color: Color::Black, left: t3, right: yr })),
                });
                proof {
                    assert forall|k: u64| keys(t.right).contains(k) implies k > t.key by {
                        if keys(yr).contains(k) {
                            assert(k > yk && yk > xk);
                        } else if keys(t3).contains(k) {
                        } else {
                            assert(k == yk);
                        }
                    }
                    assert forall|k: u64| keys(t.left).contains(k) implies k < t.key by {
                        if keys(t2).contains(k) {
                        } else if keys(l0).contains(k) {
                            assert(keys(r0).contains(xk));
                            assert(k < key && key < xk);
                        } else {
                            assert(k == key);
                            assert(keys(r0).contains(xk));
                        }
                    }
                    assert forall|k: u64| keys(t2).contains(k) implies k > key by {
                        assert(keys(yl).contains(k));
                        assert(keys(r0).contains(k));
                    }
                    assert forall|k: u64| keys(t3).contains(k) implies k < yk by {
                        assert(keys(yl).contains(k));
                    }
                }
                t
            } else {
                let t = Box::new(Node {
                    key,
                    color: Color::Black,
                    left: l,
                    right: Some(Box::new(Node { key: yk, color: yc, left: yl, right: yr })),
                });
                proof {
                    assert forall|k: u64| keys(t.right).contains(k) implies k > t.key by {
                        assert(keys(r0).contains(k));
                    }
                }
                t
            }
        } else {
            Box::new(Node { key, color: Color::Black, left: l, right: r })
        }
    }

    /// Rebalance after a removal in the left subtree has lowered its
    /// black-height by one: `l` is one black node short of `r`.  The
    /// result absorbs the deficiency, either locally or by handing a red
    /// root to the caller; its black-height equals that of `r`.
    pub(crate) fn bald_l(l: Option<Box<Node>>, key: u64, r: Option<Box<Node>>) -> (t: Box<Node>)
        requires
            ordered(l),
            ordered(r),
            forall|k: u64| keys(l).contains(k) ==> k < key,
            forall|k: u64| keys(r).contains(k) ==> k > key,
            color_ok_below(l),
            color_ok(r),
            height_balanced(l),
            height_balanced(r),
            black_height(l) + 1 == black_height(r),
        ensures
            keys(Some(t)) =~= keys(l).union(keys(r)).insert(key),
            ordered(Some(t)),
            height_balanced(Some(t)),
            black_height(Some(t)) == black_height(r),
            color_ok_below(Some(t)),
            !red(r) ==> color_ok(Some(t)),
    {
        proof {
            reveal_with_fuel(keys, 4);
            reveal_with_fuel(ordered, 4);
            reveal_with_fuel(color_ok, 4);
            reveal_with_fuel(black_height, 4);
            reveal_with_fuel(height_balanced, 4);
        }
        let ghost l0 = l;
        let ghost r0 = r;
        if Node::is_red(&l) {
            let lb = l.unwrap();
            let Node { key: lk, color: _, left: ll, right: lr } = *lb;
            let t = Box::new(Node {
                key,
                color: Color::Red,
                left: Some(Box::new(Node { key: lk, color: Color::Black, left: ll, right: lr })),
                right: r,
            });
            proof {
                assert forall|k: u64| keys(t.left).contains(k) implies k < t.key by {
                    assert(keys(l0).contains(k));
                }
            }
            t
        } else {
            proof {
                assert(r is Some) by {
                    if r0 is None {
                        assert(black_height(r0) == 0);
                    }
                }
            }
            let rb = r.unwrap();
            if rb.color == Color::Black {
                let Node { key: rk, color: _, left: rl, right: rr } = *rb;
                let painted = Some(Box::new(Node { key: rk, color: Color::Red, left: rl, right: rr }));
                proof {
                    assert forall|k: u64| keys(painted).contains(k) implies k > key by {
                        assert(keys(r0).contains(k));
                    }
                }
                Node::bali_r(l, key, painted)
            } else {
                let Node { key: zk, color: _, left: rl, right: t4 } = *rb;
                proof {
                    assert(keys(r0).contains(zk));
                    assert(forall|k: u64| keys(rl).contains(k) ==> k < zk);
                    assert(forall|k: u64| keys(t4).contains(k) ==> k > zk);
                    assert(rl is Some) by {
                        if rl is None {
                            assert(black_height(rl) == 0);
                        }
                    }
                }
                let rlb = rl.unwrap();
                let Node { key: yk, color: _, left: t2, right: t3 } = *rlb;
                proof {
                    assert(keys(rl).contains(yk));
                    assert(t4 is Some) by {
                        if t4 is None {
                            assert(black_height(t4) == 0);
                        }
                    }
                }
                let t4b = t4.unwrap();
                let Node { key: wk, color: _, left: wl, right: wr } = *t4b;
                let painted = Some(Box::new(Node { key: wk, color: Color::Red, left: wl, right: wr }));
                proof {
                    assert forall|k: u64| keys(t3).contains(k) implies k > yk && k < zk by {
                        assert(keys(rl).contains(k));
                        assert(keys(r0).contains(k));
                    }
                    assert forall|k: u64| keys(painted).contains(k) implies k > zk by {
                        assert(keys(t4).contains(k));
                    }
                    assert forall|k: u64| keys(t2).contains(k) implies k > key && k < yk by {
                        assert(keys(rl).contains(k));
                        assert(keys(r0).contains(k));
                    }
                }
                let right_part = Node::bali_r(t3, zk, painted);
                let t = Box::new(Node {
                    key: yk,
                    color: Color::Red,
                    left: Some(Box::new(Node { key, color: Color::Black, left: l, right: t2 })),
                    right: Some(right_part),
                });
                proof {
                    assert(keys(r0).contains(yk));
                    assert(yk > key);
                    assert forall|k: u64| keys(t.left).contains(k) implies k < t.key by {
                        if keys(l0).contains(k) {
                            assert(k < key);
                        } else if keys(t2).contains(k) {
                        } else {
                            assert(k == key);
                        }
                    }
                    assert forall|k: u64| keys(t.right).contains(k) implies k > t.key by {
                        if keys(t3).contains(k) {
                        } else if keys(painted).contains(k) {
                            assert(keys(t4).contains(k));
                            assert(keys(r0).contains(k));
                        } else {
                            assert(k == zk);
                        }
                    }
                }
                t
            }
        }
    }

    /// Mirror image of [`Node::bald_l`]: rebalance after a removal in the
    /// right subtree has lowered its black-height by one.
    pub(crate) fn bald_r(l: Option<Box<Node>>, key: u64, r: Option<Box<Node>>) -> (t: Box<Node>)
        requires
            ordered(l),
            ordered(r),
            forall|k: u64| keys(l).contains(k) ==> k < key,
            forall|k: u64| keys(r).contains(k) ==> k > key,
            color_ok(l),
            color_ok_below(r),
            height_balanced(l),
            height_balanced(r),
            black_height(r) + 1 == black_height(l),
        ensures
            keys(Some(t)) =~= keys(l).union(keys(r)).insert(key),
            ordered(Some(t)),
            height_balanced(Some(t)),
            black_height(Some(t)) == black_height(l),
            color_ok_below(Some(t)),
            !red(l) ==> color_ok(Some(t)),
    {
        proof {
            reveal_with_fuel(keys, 4);
            reveal_with_fuel(ordered, 4);
            reveal_with_fuel(color_ok, 4);
            reveal_with_fuel(black_height, 4);
            reveal_with_fuel(height_balanced, 4);
        }
        let ghost l0 = l;
        let ghost r0 = r;
        if Node::is_red(&r) {
            let rb = r.unwrap();
            let Node { key: rk, color: _, left: rl, right: rr } = *rb;
            let t = Box::new(Node {
                key,
                color: Color::Red,
                left: l,
                right: Some(Box::new(Node { key: rk, color: Color::Black, left: rl, right: rr })),
            });
            proof {
                assert forall|k: u64| keys(t.right).contains(k) implies k > t.key by {
                    assert(keys(r0).contains(k));
                }
            }
            t
        } else {
            proof {
                assert(l is Some) by {
                    if l0 is None {
                        assert(black_height(l0) == 0);
                    }
                }
            }
            let lb = l.unwrap();
            if lb.color == Color::Black {
                let Node { key: lk, color: _, left: ll, right: lr } = *lb;
                let painted = Some(Box::new(Node { key: lk, color: Color::Red, left: ll, right: lr }));
                proof {
                    assert forall|k: u64| keys(painted).contains(k) implies k < key by {
                        assert(keys(l0).contains(k));
                    }
                }
                Node::bali_l(painted, key, r)
            } else {
                let Node { key: zk, color: _, left: t1, right: lr } = *lb;
                proof {
                    assert(keys(l0).contains(zk));
                    assert(forall|k: u64| keys(t1).contains(k) ==> k < zk);
                    assert(forall|k: u64| keys(lr).contains(k) ==> k > zk);
                    assert(lr is Some) by {
                        if lr is None {
                            assert(black_height(lr) == 0);
                        }
                    }
                }
                let lrb = lr.unwrap();
                let Node { key: yk, color: _, left: t2, right: t3 } = *lrb;
                proof {
                    assert(keys(lr).contains(yk));
                    assert(t1 is Some) by {
                        if t1 is None {
                            assert(black_height(t1) == 0);
                        }
                    }
                }
                let t1b = t1.unwrap();
                let Node { key: wk, color: _, left: wl, right: wr } = *t1b;
                let painted = Some(Box::new(Node { key: wk, color: Color::Red, left: wl, right: wr }));
                proof {
                    assert forall|k: u64| keys(t2).contains(k) implies k < yk && k > zk by {
                        assert(keys(lr).contains(k));
                        assert(keys(l0).contains(k));
                    }
                    assert forall|k: u64| keys(painted).contains(k) implies k < zk by {
                        assert(keys(t1).contains(k));
                    }
                    assert forall|k: u64| keys(t3).contains(k) implies k < key && k > yk by {
                        assert(keys(lr).contains(k));
                        assert(keys(l0).contains(k));
                    }
                }
                let left_part = Node::bali_l(painted, zk, t2);
                let t = Box::new(Node {
                    key: yk,
                    color: Color::Red,
                    left: Some(left_part),
                    right: Some(Box::new(Node { key, color: Color::Black, left: t3, right: r })),
                });
                proof {
                    assert(keys(l0).contains(yk));
                    assert(yk < key);
                    assert forall|k: u64| keys(t.right).contains(k) implies k > t.key by {
                        if keys(r0).contains(k) {
                            assert(k > key);
                        } else if keys(t3).contains(k) {
                        } else {
                            assert(k == key);
                        }
                    }
                    assert forall|k: u64| keys(t.left).contains(k) implies k < t.key by {
                        if keys(t2).contains(k) {
                        } else if keys(painted).contains(k) {
                            assert(keys(t1).contains(k));
                            assert(keys(l0).contains(k));
                        } else {
                            assert(k == zk);
                        }
                    }
                }
                t
            }
        }
    }

    /// Join two subtrees of equal black-height, every key of `l` below
    /// every key of `r`, into one subtree holding their union.  Used when
    /// a removal splices out a node: its two subtrees are joined in its
    /// place.  The black-height is preserved; the result may hand a red
    /// root (with possibly one red child) to the caller when one of the
    /// inputs was red-rooted.
    #[verifier::rlimit(30)]
    pub(crate) fn join(l: Option<Box<Node>>, r: Option<Box<Node>>) -> (t: Option<Box<Node>>)
        requires
            ordered(l),
            ordered(r),
            forall|kl: u64, kr: u64|
                keys(l).contains(kl) && keys(r).contains(kr) ==> kl < kr,
            color_ok(l),
            color_ok(r),
            height_balanced(l),
            height_balanced(r),
            black_height(l) == black_height(r),
        ensures
            keys(t) =~= keys(l).union(keys(r)),
            ordered(t),
            height_balanced(t),
            black_height(t) == black_height(l),
            color_ok_below(t),
            !red(l) && !red(r) ==> color_ok(t),
        decreases l, r,
    {
        proof {
            reveal_with_fuel(keys, 4);
            reveal_with_fuel(ordered, 4);
            reveal_with_fuel(color_ok, 4);
            reveal_with_fuel(black_height, 4);
            reveal_with_fuel(height_balanced, 4);
        }
        let ghost l0 = l;
        let ghost r0 = r;
        if l.is_none() {
            return r;
        }
        if r.is_none() {
            return l;
        }
        let lb = l.unwrap();
        let rb = r.unwrap();
        let lred = lb.color == Color::Red;
        let rred = rb.color == Color::Red;
        if lred == rred {
            let Node { key: ak, color: _, left: t1, right: t2 } = *lb;
            let Node { key: ck, color: _, left: t3, right: t4 } = *rb;
            proof {
                assert(keys(l0).contains(ak));
                assert(keys(r0).contains(ck));
                assert(ak < ck);
                assert forall|kl: u64, kr: u64|
                    keys(t2).contains(kl) && keys(t3).contains(kr) implies kl < kr by {
                    assert(keys(l0).contains(kl));
                    assert(keys(r0).contains(kr));
                }
            }
            let m = Node::join(t2, t3);
            proof {
                assert forall|k: u64| keys(m).contains(k) implies ak < k && k < ck by {
                    if keys(t2).contains(k) {
                        assert(keys(l0).contains(k));
                    } else {
                        assert(keys(t3).contains(k));
                        assert(keys(r0).contains(k));
                    }
                }
            }
            if Node::is_red(&m) {
                let mb = m.unwrap();
                let Node { key: bk, color: _, left: u2, right: u3 } = *mb;
                proof {
                    assert(forall|k: u64| keys(u2).contains(k) ==> k < bk);
                    assert(forall|k: u64| keys(u3).contains(k) ==> k > bk);
                    assert(keys(m).contains(bk));
                }
                let inner_color = if lred {
                    Color::Red
                } else {
                    Color::Black
                };
                let left_part = Box::new(Node { key: ak, color: inner_color, left: t1, right: u2 });
                let right_part = Box::new(Node { key: ck, color: inner_color, left: u3, right: t4 });
                proof {
                    assert(ak < bk && bk < ck);
                    assert forall|k: u64| keys(t1).contains(k) implies k < ak by {
                        assert(keys(l0).contains(k));
                    }
                    assert forall|k: u64| keys(t4).contains(k) implies k > ck by {
                        assert(keys(r0).contains(k));
                    }
                    assert forall|k: u64| keys(u2).contains(k) implies k > ak by {
                        assert(keys(m).contains(k));
                    }
                    assert forall|k: u64| keys(u3).contains(k) implies k < ck by {
                        assert(keys(m).contains(k));
                    }
                    assert forall|k: u64| keys(Some(left_part)).contains(k) implies k < bk by {
                        if keys(t1).contains(k) {
                            assert(keys(l0).contains(k));
                            assert(k < ak);
                        } else if keys(u2).contains(k) {
                            assert(keys(m).contains(k));
                        } else {
                            assert(k == ak);
                        }
                    }
                    assert forall|k: u64| keys(Some(right_part)).contains(k) implies k > bk by {
                        if keys(t4).contains(k) {
                            assert(keys(r0).contains(k));
                            assert(k > ck);
                        } else if keys(u3).contains(k) {
                            assert(keys(m).contains(k));
                        } else {
                            assert(k == ck);
                        }
                    }
                }
                let t = Some(Box::new(Node {
                    key: bk,
                    color: Color::Red,
                    left: Some(left_part),
                    right: Some(right_part),
                }));
                proof {
                    assert(keys(m) =~= keys(u2).union(keys(u3)).insert(bk));
                    assert forall|x: u64|
                        keys(t).contains(x) implies keys(l0).union(keys(r0)).contains(x) by {
                        if keys(u2).contains(x) || keys(u3).contains(x) || x == bk {
                            assert(keys(m).contains(x));
                        }
                    }
                    assert forall|x: u64|
                        keys(l0).union(keys(r0)).contains(x) implies keys(t).contains(x) by {
                        if keys(t2).contains(x) || keys(t3).contains(x) {
                            assert(keys(m).contains(x));
                            assert(keys(u2).contains(x) || keys(u3).contains(x) || x == bk);
                        }
                    }
                    assert(keys(t) =~= keys(l0).union(keys(r0)));
                }
                t
            } else {
                if lred {
                    let inner = Box::new(Node { key: ck, color: Color::Red, left: m, right: t4 });
                    proof {
                        assert forall|k: u64| keys(t1).contains(k) implies k < ak by {
                            assert(keys(l0).contains(k));
                        }
                        assert forall|k: u64| keys(t4).contains(k) implies k > ck by {
                            assert(keys(r0).contains(k));
                        }
                        assert forall|k: u64| keys(Some(inner)).contains(k) implies k > ak by {
                            if keys(m).contains(k) {
                            } else if keys(t4).contains(k) {
                                assert(keys(r0).contains(k));
                                assert(k > ck);
                            } else {
                                assert(k == ck);
                            }
                        }
                    }
                    let t = Some(Box::new(Node {
                        key: ak,
                        color: Color::Red,
                        left: t1,
                        right: Some(inner),
                    }));
                    t
                } else {
                    let rpart = Some(Box::new(Node { key: ck, color: Color::Black, left: m, right: t4 }));
                    proof {
                        assert forall|k: u64| keys(t4).contains(k) implies k > ck by {
                            assert(keys(r0).contains(k));
                        }
                        assert forall|k: u64| keys(t1).contains(k) implies k < ak by {
                            assert(keys(l0).contains(k));
                        }
                        assert forall|k: u64| keys(rpart).contains(k) implies k > ak by {
                            if keys(m).contains(k) {
                            } else if keys(t4).contains(k) {
                                assert(keys(r0).contains(k));
                            } else {
                                assert(k == ck);
                            }
                        }
                        assert(color_ok(m));
                        assert(color_ok_below(t1));
                    }
                    let t = Node::bald_l(t1, ak, rpart);
                    Some(t)
                }
            }
        } else if rred {
            let Node { key: ck, color: _, left: t3, right: t4 } = *rb;
            proof {
                assert(keys(r0).contains(ck));
                assert(forall|k: u64| keys(t3).contains(k) ==> k < ck);
                assert(forall|k: u64| keys(t4).contains(k) ==> k > ck);
                assert(Some(lb) == l0);
                assert forall|kl: u64, kr: u64|
                    keys(Some(lb)).contains(kl) && keys(t3).contains(kr) implies kl < kr by {
                    assert(keys(r0).contains(kr));
                }
            }
            let m = Node::join(Some(lb), t3);
            let t = Some(Box::new(Node { key: ck, color: Color::Red, left: m, right: t4 }));
            proof {
                assert forall|k: u64| keys(m).contains(k) implies k < ck by {
                    if keys(l0).contains(k) {
                    } else {
                        assert(keys(t3).contains(k));
                        assert(keys(r0).contains(k));
                    }
                }
            }
            t
        } else {
            let Node { key: ak, color: _, left: t1, right: t2 } = *lb;
            proof {
                assert(keys(l0).contains(ak));
                assert(forall|k: u64| keys(t1).contains(k) ==> k < ak);
                assert(forall|k: u64| keys(t2).contains(k) ==> k > ak);
                assert(Some(rb) == r0);
                assert forall|kl: u64, kr: u64|
                    keys(t2).contains(kl) && keys(Some(rb)).contains(kr) implies kl < kr by {
                    assert(keys(l0).contains(kl));
                }
            }
            let m = Node::join(t2, Some(rb));
            let t = Some(Box::new(Node { key: ak, color: Color::Red, left: t1, right: m }));
            proof {
                assert forall|k: u64| keys(m).contains(k) implies k > ak by {
                    if keys(t2).contains(k) {
                    } else {
                        assert(keys(r0).contains(k));
                    }
                }
            }
            t
        }
    }

    /// Recursive insertion.  Descends to the right leaf position,
    /// attaches the key as a new red node, and rebalances on the way back
    /// up.  The result may be a red node with one red child (repaired by
    /// the parent, or by painting the root black); every other invariant
    /// is restored here, and the black-height never changes.  An already
    /// present key leaves the tree untouched.
    pub fn insert(node: &mut Option<Box<Node>>, key: u64) -> (inserted: bool)
        requires
            ordered(*old(node)),
            color_ok(*old(node)),
            height_balanced(*old(node)),
        ensures
            final(node).is_some(),
            ordered(*final(node)),
            height_balanced(*final(node)),
            black_height(*final(node)) == black_height(*old(node)),
            keys(*final(node)) =~= keys(*old(node)).insert(key),
            inserted == !keys(*old(node)).contains(key),
            !inserted ==> *final(node) == *old(node),
            color_ok_below(*final(node)),
            !red(*old(node)) ==> color_ok(*final(node)),
        decreases *old(node),
    {
        match node.take() {
            None => {
                *node = Some(Box::new(Node { key, color: Color::Red, left: None, right: None }));
                true
            },
            Some(mut n) => {
                let ghost n0 = *n;
                if key < n.key {
                    proof {
                        assert(!keys(n0.right).contains(key));
                    }
                    let inserted = Node::insert(&mut n.left, key);
                    if !inserted {
                        *node = Some(n);
                        false
                    } else if n.color == Color::Black {
                        let Node { key: nk, color: _, left: nl, right: nr } = *n;
                        *node = Some(Node::bali_l(nl, nk, nr));
                        true
                    } else {
                        *node = Some(n);
                        true
                    }
                } else if key > n.key {
                    proof {
                        assert(!keys(n0.left).contains(key));
                    }
                    let inserted = Node::insert(&mut n.right, key);
                    if !inserted {
                        *node = Some(n);
                        false
                    } else if n.color == Color::Black {
                        let Node { key: nk, color: _, left: nl, right: nr } = *n;
                        *node = Some(Node::bali_r(nl, nk, nr));
                        true
                    } else {
                        *node = Some(n);
                        true
                    }
                } else {
                    *node = Some(n);
                    false
                }
            },
        }
    }

    /// Recursive removal.  Locates the key; the node holding it is
    /// spliced out by joining its two subtrees, and the shrunken side is
    /// rebalanced on the way back up.  The result may carry a red-red
    /// violation at its root only (repaired by the parent or by painting
    /// the root black).  If the root was black and a key was removed, the
    /// black-height drops by exactly one; a red root keeps it and the
    /// full colour invariant.  An absent key leaves the tree untouched.
    pub fn remove(node: &mut Option<Box<Node>>, key: u64) -> (removed: bool)
        requires
            ordered(*old(node)),
            color_ok(*old(node)),
            height_balanced(*old(node)),
        ensures
            ordered(*final(node)),
            height_balanced(*final(node)),
            keys(*final(node)) =~= keys(*old(node)).remove(key),
            removed == keys(*old(node)).contains(key),
            !removed ==> *final(node) == *old(node),
            color_ok_below(*final(node)),
            red(*old(node)) ==> color_ok(*final(node)) && black_height(*final(node))
                == black_height(*old(node)),
            !red(*old(node)) && removed ==> black_height(*old(node))
                == black_height(*final(node)) + 1,
        decreases *old(node),
    {
        match node.take() {
            None => {
                proof {
                    assert(keys(*old(node)) =~= keys(*old(node)).remove(key));
                }
                false
            },
            Some(mut n) => {
                let ghost n0 = *n;
                if key < n.key {
                    proof {
                        assert(!keys(n0.right).contains(key));
                    }
                    let left_was_black = match &n.left {
                        Some(lb) => lb.color == Color::Black,
                        None => false,
                    };
                    let removed = Node::remove(&mut n.left, key);
                    if !removed {
                        *node = Some(n);
                        false
                    } else if left_was_black {
                        let Node { key: nk, color: _, left: nl, right: nr } = *n;
                        *node = Some(Node::bald_l(nl, nk, nr));
                        true
                    } else {
                        n.color = Color::Red;
                        *node = Some(n);
                        true
                    }
                } else if key > n.key {
                    proof {
                        assert(!keys(n0.left).contains(key));
                    }
                    let right_was_black = match &n.right {
                        Some(rb) => rb.color == Color::Black,
                        None => false,
                    };
                    let removed = Node::remove(&mut n.right, key);
                    if !removed {
                        *node = Some(n);
                        false
                    } else if right_was_black {
                        let Node { key: nk, color: _, left: nl, right: nr } = *n;
                        *node = Some(Node::bald_r(nl, nk, nr));
                        true
                    } else {
                        n.color = Color::Red;
                        *node = Some(n);
                        true
                    }
                } else {
                    let Node { key: nk, color: _, left: nl, right: nr } = *n;
                    proof {
                        assert(!keys(nl).contains(key) && !keys(nr).contains(key));
                        assert forall|kl: u64, kr: u64|
                            keys(nl).contains(kl) && keys(nr).contains(kr) implies kl < kr by {
                            assert(kl < nk && nk < kr);
                        }
                    }
                    *node = Node::join(nl, nr);
                    true
                }
            },
        }
    }

    /// In-order walk: appends every key of the subtree to `acc`, left
    /// subtree first, then the node, then the right subtree.
    pub(crate) fn in_order_traverse(node: &Option<Box<Node>>, acc: &mut Vec<u64>)
        ensures
            final(acc)@ == old(acc)@ + in_order(*node),
        decreases *node,
    {
        match node {
            None => {
                proof {
                    assert(acc@ =~= old(acc)@ + in_order(*node));
                }
            },
            Some(n) => {
                Node::in_order_traverse(&n.left, acc);
                acc.push(n.key);
                Node::in_order_traverse(&n.right, acc);
                proof {
                    assert(acc@ =~= old(acc)@ + in_order(*node));
                }
            },
        }
    }

    /// Membership test by binary search descent, without mutation.
    pub(crate) fn contains_key(node: &Option<Box<Node>>, key: u64) -> (present: bool)
        requires
            ordered(*node),
        ensures
            present == keys(*node).contains(key),
        decreases *node,
    {
        match node {
            None => false,
            Some(n) => {
                if key < n.key {
                    proof {
                        assert(!keys(n.right).contains(key));
                    }
                    Node::contains_key(&n.left, key)
                } else if key > n.key {
                    proof {
                        assert(!keys(n.left).contains(key));
                    }
                    Node::contains_key(&n.right, key)
                } else {
                    true
                }
            },
        }
    }

    /// Repaint the root of the subtree black, leaving everything else
    /// unchanged.  This restores the full colour invariant from the
    /// weaker [`color_ok_below`] state and never disturbs the other
    /// invariants.
    pub(crate) fn blacken(node: &mut Option<Box<Node>>)
        ensures
            keys(*final(node)) == keys(*old(node)),
            final(node).is_some() == old(node).is_some(),
            !red(*final(node)),
            ordered(*old(node)) ==> ordered(*final(node)),
            height_balanced(*old(node)) ==> height_balanced(*final(node)),
            color_ok_below(*old(node)) ==> color_ok(*final(node)),
    {
        match node.take() {
            Some(mut b) => {
                b.color = Color::Black;
                *node = Some(b);
            },
            None => {},
        }
    }
}

} // verus!
