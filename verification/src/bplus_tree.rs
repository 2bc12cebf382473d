//! A B-tree of distinct non-negative `i32` keys.
//!
//! Every node holds its keys in increasing order; an inner node with `m`
//! keys has `m + 1` children, and the keys of child `i` lie strictly between
//! the node's keys `i - 1` and `i`. A node holds at most `2 * degree - 1`
//! keys: a full child is split around its middle key before an insertion
//! descends into it, and a full root is split under a new root, so every
//! leaf stays at the same depth.
use vstd::prelude::*;
use crate::text::{int_decimal, nat_decimal, next_decimal, push_chars, push_i32, push_char};
use crate::storage_engine_interface::message_result;

verus! {

struct BPlusTreeNode {
    is_leaf: bool,
    keys: Vec<i32>,
    children: Vec<BPlusTreeNode>,
}

/// Keys in strictly increasing order.
pub open spec fn strictly_sorted(s: Seq<i32>) -> bool {
    forall|i: int, j: int| 0 <= i < j < s.len() ==> s[i] < s[j]
}

/// Lower bound used for the root: below every `i32`.
pub open spec fn below_all() -> int {
    i32::MIN as int - 1
}

/// Upper bound used for the root: above every `i32`.
pub open spec fn above_all() -> int {
    i32::MAX as int + 1
}

/// The shape of a tree: each node's keys, in order, and its children.
#[verifier::ext_equal]
pub struct Layout {
    pub is_leaf: bool,
    pub keys: Seq<i32>,
    pub children: Seq<Layout>,
}

/// The layout of a tree with no keys.
pub open spec fn empty_layout() -> Layout {
    Layout { is_leaf: true, keys: Seq::empty(), children: Seq::empty() }
}

/// The printout of a subtree at depth `level`: one line per node, each
/// node before its children.
pub open spec fn layout_text(l: Layout, level: nat) -> Seq<char>
    decreases l, 1nat,
{
    level_line(level, l.keys) + layouts_text(l.children, level + 1)
}

/// The printouts of a list of subtrees at depth `level`, in order.
pub open spec fn layouts_text(ls: Seq<Layout>, level: nat) -> Seq<char>
    decreases ls, 0nat,
{
    if ls.len() == 0 {
        Seq::empty()
    } else {
        layouts_text(ls.subrange(0, ls.len() - 1), level) + layout_text(ls[ls.len() - 1], level)
    }
}

/// The layout's keys are ordered: within each node they strictly
/// increase and lie strictly between `lo` and `hi`; a leaf has no
/// children, an inner node one more child than keys, and the keys of
/// child `i` lie between the node's keys `i - 1` and `i`.
pub open spec fn layout_ordered(l: Layout, lo: int, hi: int) -> bool
    decreases l,
{
    &&& strictly_sorted(l.keys)
    &&& forall|i: int| 0 <= i < l.keys.len() ==> lo < #[trigger] l.keys[i] < hi
    &&& if l.is_leaf {
        l.children.len() == 0
    } else {
        &&& l.children.len() == l.keys.len() + 1
        &&& forall|i: int| 0 <= i < l.children.len() ==> layout_ordered(
            #[trigger] l.children[i],
            if i == 0 { lo } else { l.keys[i - 1] as int },
            if i == l.keys.len() { hi } else { l.keys[i] as int },
        )
    }
}

/// No node of the layout holds more than `cap` keys.
pub open spec fn layout_capped(l: Layout, cap: int) -> bool
    decreases l,
{
    l.keys.len() <= cap && forall|i: int| 0 <= i < l.children.len() ==> layout_capped(#[trigger] l.children[i], cap)
}

/// Every node below the root of the layout holds at least `min` keys.
pub open spec fn layout_filled(l: Layout, min: int) -> bool
    decreases l,
{
    forall|i: int| 0 <= i < l.children.len() ==> (#[trigger] l.children[i]).keys.len() >= min
        && layout_filled(l.children[i], min)
}

/// Every leaf of the layout lies `h` levels below its root.
pub open spec fn layout_balanced(l: Layout, h: int) -> bool
    decreases l,
{
    if l.children.len() == 0 {
        h == 0
    } else {
        h > 0 && forall|i: int| 0 <= i < l.children.len() ==> layout_balanced(#[trigger] l.children[i], h - 1)
    }
}

/// Where an ascending scan of `keys` stops: at the first key that is not
/// less than `key`, or at the end.
pub open spec fn key_position(keys: Seq<i32>, key: i32) -> int
    decreases keys.len(),
{
    if keys.len() == 0 || keys[0] >= key {
        0
    } else {
        1 + key_position(keys.subrange(1, keys.len() as int), key)
    }
}

/// What a full node of degree `d` keeps when it is split: its first
/// `d - 1` keys and, for an inner node, its first `d` children (a leaf
/// keeps its children, which a well-formed leaf has none of).
pub open spec fn left_half(c: Layout, d: int) -> Layout {
    Layout {
        is_leaf: c.is_leaf,
        keys: c.keys.subrange(0, d - 1),
        children: if c.is_leaf { c.children } else { c.children.subrange(0, d) },
    }
}

/// The new sibling of a split node: the keys after its middle key and,
/// for an inner node, the children after its first `d`.
pub open spec fn right_half(c: Layout, d: int) -> Layout {
    Layout {
        is_leaf: c.is_leaf,
        keys: c.keys.subrange(d, 2 * d - 1),
        children: if c.is_leaf { Seq::empty() } else { c.children.subrange(d, 2 * d) },
    }
}

/// Child `i` of `p` split at degree `d`: its middle key moves up into `p`
/// at position `i`, and its two halves take its place.
pub open spec fn split_child_layout(p: Layout, i: int, d: int) -> Layout {
    let c = p.children[i];
    Layout {
        is_leaf: p.is_leaf,
        keys: p.keys.insert(i, c.keys[d - 1]),
        children: p.children.update(i, left_half(c, d)).insert(i + 1, right_half(c, d)),
    }
}

/// A new key inserted into the subtree with the given root (`is_leaf`,
/// `keys`, `children`) at degree `d`: a leaf takes it in order; an inner
/// node first splits the child that the key belongs to if that child is
/// full, then inserts into the child (or half) that the key belongs to.
pub open spec fn insert_layout_rec(is_leaf: bool, keys: Seq<i32>, children: Seq<Layout>, key: i32, d: int) -> Layout
    decreases children,
{
    let pos = key_position(keys, key);
    if is_leaf {
        Layout { is_leaf, keys: keys.insert(pos, key), children }
    } else if 0 <= pos < children.len() {
        let c = children[pos];
        if c.keys.len() == 2 * d - 1 && 1 <= d && (c.is_leaf || c.children.len() == 2 * d) {
            let m = c.keys[d - 1];
            let split = children.update(pos, left_half(c, d)).insert(pos + 1, right_half(c, d));
            let j = if key > m { pos + 1 } else { pos };
            let t = if key > m { right_half(c, d) } else { left_half(c, d) };
            let inserted = if c.is_leaf {
                Layout { is_leaf: true, keys: t.keys.insert(key_position(t.keys, key), key), children: t.children }
            } else {
                proof {
                    assert(decreases_to!(children => c));
                    assert(decreases_to!(c => c.children));
                    assert(decreases_to!(c.children => t.children));
                }
                insert_layout_rec(t.is_leaf, t.keys, t.children, key, d)
            };
            Layout { is_leaf, keys: keys.insert(pos, m), children: split.update(j, inserted) }
        } else {
            Layout { is_leaf, keys, children: children.update(pos, insert_layout_rec(c.is_leaf, c.keys, c.children, key, d)) }
        }
    } else {
        Layout { is_leaf, keys, children }
    }
}

/// A new key inserted into a subtree whose root is not full.
pub open spec fn insert_into_layout(l: Layout, key: i32, d: int) -> Layout {
    insert_layout_rec(l.is_leaf, l.keys, l.children, key, d)
}

/// The layout of a tree of degree `d` after a new key is inserted: a full
/// root is first split under a new root.
pub open spec fn layout_after_insert(l: Layout, key: i32, d: int) -> Layout {
    if l.keys.len() == 2 * d - 1 {
        let root = Layout { is_leaf: false, keys: Seq::empty(), children: seq![l] };
        insert_into_layout(split_child_layout(root, 0, d), key, d)
    } else {
        insert_into_layout(l, key, d)
    }
}

/// An ascending scan that passed the first `p` keys, all less than `key`,
/// and stops before a key that is not, stops at `p`.
proof fn lemma_key_position(keys: Seq<i32>, key: i32, p: int)
    requires
        0 <= p <= keys.len(),
        forall|j: int| 0 <= j < p ==> keys[j] < key,
        p == keys.len() || keys[p] >= key,
    ensures
        key_position(keys, key) == p,
    decreases p,
{
    if p > 0 {
        let tail = keys.subrange(1, keys.len() as int);
        assert forall|j: int| 0 <= j < p - 1 implies tail[j] < key by {
            assert(tail[j] == keys[j + 1]);
        }
        if p < keys.len() {
            assert(tail[p - 1] == keys[p]);
        }
        lemma_key_position(tail, key, p - 1);
    }
}

impl BPlusTreeNode {
    fn new_leaf() -> (n: Self)
        ensures
            n.is_leaf,
            n.keys@.len() == 0,
            n.children@.len() == 0,
    {
        BPlusTreeNode { is_leaf: true, keys: Vec::new(), children: Vec::new() }
    }

    fn new_internal() -> (n: Self)
        ensures
            !n.is_leaf,
            n.keys@.len() == 0,
            n.children@.len() == 0,
    {
        BPlusTreeNode { is_leaf: false, keys: Vec::new(), children: Vec::new() }
    }

    /// Exclusive lower bound of the keys under child `i`.
    spec fn lo_of(self, i: int, lo: int) -> int {
        if i == 0 { lo } else { self.keys@[i - 1] as int }
    }

    /// Exclusive upper bound of the keys under child `i`.
    spec fn hi_of(self, i: int, hi: int) -> int {
        if i == self.keys@.len() { hi } else { self.keys@[i] as int }
    }

    /// The subtree is well formed and all its keys lie strictly between
    /// `lo` and `hi`.
    spec fn wf(self, lo: int, hi: int) -> bool
        decreases self, 1nat, 0int,
    {
        &&& strictly_sorted(self.keys@)
        &&& forall|i: int| 0 <= i < self.keys@.len() ==> lo < #[trigger] self.keys@[i] < hi
        &&& if self.is_leaf {
            self.children@.len() == 0
        } else {
            &&& self.children@.len() == self.keys@.len() + 1
            &&& self.children_wf(lo, hi, self.children@.len() as int)
        }
    }

    /// The first `n` children are well formed within their bounds.
    spec fn children_wf(self, lo: int, hi: int, n: int) -> bool
        decreases self, 0nat, n,
    {
        if n <= 0 {
            true
        } else if n > self.children@.len() {
            false
        } else {
            &&& self.children_wf(lo, hi, n - 1)
            &&& self.children@[n - 1].wf(self.lo_of(n - 1, lo), self.hi_of(n - 1, hi))
        }
    }

    /// The key is stored in this subtree.
    spec fn contains(self, k: i32) -> bool
        decreases self, 1nat, 0int,
    {
        ||| self.keys@.contains(k)
        ||| self.children_contain(k, self.children@.len() as int)
    }

    /// The key is stored under one of the first `n` children.
    spec fn children_contain(self, k: i32, n: int) -> bool
        decreases self, 0nat, n,
    {
        if n <= 0 || n > self.children@.len() {
            false
        } else {
            ||| self.children_contain(k, n - 1)
            ||| self.children@[n - 1].contains(k)
        }
    }

    /// Number of levels below this node.
    spec fn height(self) -> nat
        decreases self, 1nat, 0int,
    {
        if self.children@.len() == 0 {
            0
        } else {
            1 + self.max_child_height(self.children@.len() as int)
        }
    }

    /// The largest height among the first `n` children.
    spec fn max_child_height(self, n: int) -> nat
        decreases self, 0nat, n,
    {
        if n <= 0 || n > self.children@.len() {
            0
        } else {
            let a = self.max_child_height(n - 1);
            let b = self.children@[n - 1].height();
            if a >= b { a } else { b }
        }
    }

    proof fn lemma_max_child_height(self, n: int, b: nat)
        requires
            0 <= n <= self.children@.len(),
        ensures
            forall|i: int| 0 <= i < n ==> #[trigger] self.children@[i].height() <= self.max_child_height(n),
            (forall|i: int| 0 <= i < n ==> #[trigger] self.children@[i].height() <= b) ==> self.max_child_height(n) <= b,
        decreases n,
    {
        if n > 0 {
            self.lemma_max_child_height(n - 1, b);
            if forall|i: int| 0 <= i < n ==> #[trigger] self.children@[i].height() <= b {
                assert(self.children@[n - 1].height() <= b);
                assert forall|i: int| 0 <= i < n - 1 implies #[trigger] self.children@[i].height() <= b by {
                    assert(self.children@[i].height() <= b);
                }
            }
        }
    }

    /// Each child is lower than its parent, and a node whose children are all
    /// at most `b` high is at most `b + 1` high.
    proof fn lemma_height(self, b: nat)
        ensures
            forall|i: int| 0 <= i < self.children@.len() ==> #[trigger] self.children@[i].height() < self.height(),
            (forall|i: int| 0 <= i < self.children@.len() ==> #[trigger] self.children@[i].height() <= b) ==> self.height() <= b + 1,
    {
        self.lemma_max_child_height(self.children@.len() as int, b);
    }

    proof fn lemma_children_wf(self, lo: int, hi: int, n: int)
        requires
            0 <= n <= self.children@.len(),
        ensures
            self.children_wf(lo, hi, n) == (forall|i: int|
                0 <= i < n ==> #[trigger] self.children@[i].wf(self.lo_of(i, lo), self.hi_of(i, hi))),
        decreases n,
    {
        if n > 0 {
            self.lemma_children_wf(lo, hi, n - 1);
            if forall|i: int|
                0 <= i < n ==> #[trigger] self.children@[i].wf(self.lo_of(i, lo), self.hi_of(i, hi)) {
                assert(self.children@[n - 1].wf(self.lo_of(n - 1, lo), self.hi_of(n - 1, hi)));
            }
        }
    }

    proof fn lemma_children_contain(self, k: i32, n: int)
        requires
            0 <= n <= self.children@.len(),
        ensures
            self.children_contain(k, n) == (exists|i: int| 0 <= i < n && #[trigger] self.children@[i].contains(k)),
        decreases n,
    {
        if n > 0 {
            self.lemma_children_contain(k, n - 1);
            if self.children@[n - 1].contains(k) {
                assert(exists|i: int| 0 <= i < n && #[trigger] self.children@[i].contains(k));
            }
        }
    }

    /// `wf` spelled out with quantifiers over the children.
    proof fn lemma_wf_unfold(self, lo: int, hi: int)
        ensures
            self.wf(lo, hi) == {
                        &&& strictly_sorted(self.keys@)
                &&& forall|i: int| 0 <= i < self.keys@.len() ==> lo < #[trigger] self.keys@[i] < hi
                &&& if self.is_leaf {
                    self.children@.len() == 0
                } else {
                    &&& self.children@.len() == self.keys@.len() + 1
                    &&& forall|i: int|
                        0 <= i < self.children@.len() ==> #[trigger] self.children@[i].wf(
                            self.lo_of(i, lo),
                            self.hi_of(i, hi))
                }
            },
    {
        if !self.is_leaf {
            self.lemma_children_wf(lo, hi, self.children@.len() as int);
        }
    }

    /// No node of the subtree holds more than `cap` keys.
    spec fn capped(self, cap: int) -> bool
        decreases self, 1nat, 0int,
    {
        self.keys@.len() <= cap && self.children_capped(cap, self.children@.len() as int)
    }

    /// No node under the first `n` children holds more than `cap` keys.
    spec fn children_capped(self, cap: int, n: int) -> bool
        decreases self, 0nat, n,
    {
        if n <= 0 {
            true
        } else if n > self.children@.len() {
            false
        } else {
            self.children_capped(cap, n - 1) && self.children@[n - 1].capped(cap)
        }
    }

    proof fn lemma_children_capped(self, cap: int, n: int)
        requires
            0 <= n <= self.children@.len(),
        ensures
            self.children_capped(cap, n) == (forall|i: int| 0 <= i < n ==> #[trigger] self.children@[i].capped(cap)),
        decreases n,
    {
        if n > 0 {
            self.lemma_children_capped(cap, n - 1);
            if forall|i: int| 0 <= i < n ==> #[trigger] self.children@[i].capped(cap) {
                assert(self.children@[n - 1].capped(cap));
            }
        }
    }

    /// `capped` spelled out with a quantifier over the children.
    proof fn lemma_capped_unfold(self, cap: int)
        ensures
            self.capped(cap) == (self.keys@.len() <= cap && forall|i: int|
                0 <= i < self.children@.len() ==> #[trigger] self.children@[i].capped(cap)),
    {
        self.lemma_children_capped(cap, self.children@.len() as int);
    }

    /// Every leaf of the subtree lies `h` levels below its root.
    spec fn balanced(self, h: int) -> bool
        decreases self, 1nat, 0int,
    {
        if self.children@.len() == 0 {
            h == 0
        } else {
            h > 0 && self.children_balanced(h - 1, self.children@.len() as int)
        }
    }

    /// Every leaf under the first `n` children lies `h` levels below the
    /// child.
    spec fn children_balanced(self, h: int, n: int) -> bool
        decreases self, 0nat, n,
    {
        if n <= 0 {
            true
        } else if n > self.children@.len() {
            false
        } else {
            self.children_balanced(h, n - 1) && self.children@[n - 1].balanced(h)
        }
    }

    proof fn lemma_children_balanced(self, h: int, n: int)
        requires
            0 <= n <= self.children@.len(),
        ensures
            self.children_balanced(h, n) == (forall|i: int| 0 <= i < n ==> #[trigger] self.children@[i].balanced(h)),
        decreases n,
    {
        if n > 0 {
            self.lemma_children_balanced(h, n - 1);
            if forall|i: int| 0 <= i < n ==> #[trigger] self.children@[i].balanced(h) {
                assert(self.children@[n - 1].balanced(h));
            }
        }
    }

    /// `balanced` spelled out with a quantifier over the children.
    proof fn lemma_balanced_unfold(self, h: int)
        ensures
            self.balanced(h) == if self.children@.len() == 0 {
                h == 0
            } else {
                h > 0 && forall|i: int| 0 <= i < self.children@.len() ==> #[trigger] self.children@[i].balanced(h - 1)
            },
    {
        self.lemma_children_balanced(h - 1, self.children@.len() as int);
    }

    /// A subtree whose leaves all lie `h` levels down is `h` high.
    proof fn lemma_balanced_height(self, h: int)
        requires
            self.balanced(h),
        ensures
            self.height() == h,
        decreases self.height(),
    {
        self.lemma_balanced_unfold(h);
        if self.children@.len() > 0 {
            self.lemma_height(0);
            assert forall|i: int| 0 <= i < self.children@.len() implies #[trigger] self.children@[i].height() == h - 1 by {
                self.children@[i].lemma_balanced_height(h - 1);
            }
            self.lemma_max_child_height(self.children@.len() as int, (h - 1) as nat);
            assert(self.children@[0].height() == h - 1);
        }
    }

    /// Every node below this one holds at least `min` keys.
    spec fn filled_below(self, min: int) -> bool
        decreases self, 1nat, 0int,
    {
        self.children_filled(min, self.children@.len() as int)
    }

    /// The first `n` children, and every node below them, hold at least
    /// `min` keys.
    spec fn children_filled(self, min: int, n: int) -> bool
        decreases self, 0nat, n,
    {
        if n <= 0 {
            true
        } else if n > self.children@.len() {
            false
        } else {
            &&& self.children_filled(min, n - 1)
            &&& self.children@[n - 1].keys@.len() >= min
            &&& self.children@[n - 1].filled_below(min)
        }
    }

    proof fn lemma_children_filled(self, min: int, n: int)
        requires
            0 <= n <= self.children@.len(),
        ensures
            self.children_filled(min, n) == (forall|i: int|
                0 <= i < n ==> #[trigger] self.children@[i].keys@.len() >= min && self.children@[i].filled_below(min)),
        decreases n,
    {
        if n > 0 {
            self.lemma_children_filled(min, n - 1);
            if forall|i: int| 0 <= i < n ==> #[trigger] self.children@[i].keys@.len() >= min && self.children@[i].filled_below(min) {
                assert(self.children@[n - 1].keys@.len() >= min);
            }
        }
    }

    /// `filled_below` spelled out with a quantifier over the children.
    proof fn lemma_filled_unfold(self, min: int)
        ensures
            self.filled_below(min) == (forall|i: int|
                0 <= i < self.children@.len() ==> #[trigger] self.children@[i].keys@.len() >= min
                    && self.children@[i].filled_below(min)),
    {
        self.lemma_children_filled(min, self.children@.len() as int);
    }

    /// `contains` spelled out with a quantifier over the children.
    proof fn lemma_contains_unfold(self, k: i32)
        ensures
            self.contains(k) == (self.keys@.contains(k) || exists|i: int|
                0 <= i < self.children@.len() && #[trigger] self.children@[i].contains(k)),
    {
        self.lemma_children_contain(k, self.children@.len() as int);
    }
}

impl BPlusTreeNode {
    /// Every key stored in a well-formed subtree lies within its bounds.
    proof fn lemma_contains_bounds(self, lo: int, hi: int, k: i32)
        requires
            self.wf(lo, hi),
            self.contains(k),
        ensures
            lo < k < hi,
        decreases self,
    {
        self.lemma_wf_unfold(lo, hi);
        self.lemma_contains_unfold(k);
        if self.keys@.contains(k) {
            let j = choose|j: int| 0 <= j < self.keys@.len() && self.keys@[j] == k;
            assert(lo < self.keys@[j] < hi);
        } else {
            let i = choose|i: int| 0 <= i < self.children@.len() && #[trigger] self.children@[i].contains(k);
            assert(self.children@[i].wf(self.lo_of(i, lo), self.hi_of(i, hi)));
            self.children@[i].lemma_contains_bounds(self.lo_of(i, lo), self.hi_of(i, hi), k);
            if i > 0 {
                assert(lo < self.keys@[i - 1]);
            }
            if i < self.keys@.len() {
                assert(self.keys@[i] < hi);
            }
        }
    }

    /// A key that is not among this node's keys, and whose position among
    /// them is `pos`, can only be stored under child `pos`.
    proof fn lemma_only_child(self, lo: int, hi: int, k: i32, pos: int)
        requires
            self.wf(lo, hi),
            !self.is_leaf,
            0 <= pos <= self.keys@.len(),
            forall|j: int| 0 <= j < pos ==> self.keys@[j] < k,
            forall|j: int| pos <= j < self.keys@.len() ==> self.keys@[j] > k,
        ensures
            self.contains(k) == self.children@[pos].contains(k),
    {
        self.lemma_wf_unfold(lo, hi);
        self.lemma_contains_unfold(k);
        if self.keys@.contains(k) {
            let j = choose|j: int| 0 <= j < self.keys@.len() && self.keys@[j] == k;
            assert(false);
        }
        if self.contains(k) && !self.children@[pos].contains(k) {
            let i = choose|i: int| 0 <= i < self.children@.len() && #[trigger] self.children@[i].contains(k);
            assert(self.children@[i].wf(self.lo_of(i, lo), self.hi_of(i, hi)));
            self.children@[i].lemma_contains_bounds(self.lo_of(i, lo), self.hi_of(i, hi), k);
            if i < pos {
                assert(self.keys@[i] < k);
            } else {
                assert(self.keys@[i - 1] > k);
            }
        }
    }

    /// Whether the key is stored in this subtree, by descent from the root
    /// of the subtree.
    fn search_node(&self, key: i32, Ghost(lo): Ghost<int>, Ghost(hi): Ghost<int>) -> (r: bool)
        requires
            self.wf(lo, hi),
        ensures
            r == self.contains(key),
        decreases self,
    {
        proof {
            self.lemma_wf_unfold(lo, hi);
            self.lemma_contains_unfold(key);
        }
        let mut pos: usize = 0;
        while pos < self.keys.len() && self.keys[pos] < key
            invariant
                pos <= self.keys@.len(),
                forall|j: int| 0 <= j < pos ==> self.keys@[j] < key,
            decreases self.keys@.len() - pos,
        {
            pos = pos + 1;
        }
        if pos < self.keys.len() && self.keys[pos] == key {
            assert(self.keys@[pos as int] == key);
            return true;
        }
        assert forall|j: int| pos <= j < self.keys@.len() implies self.keys@[j] > key by {
            assert(self.keys@[pos as int] > key);
            if j > pos {
                assert(self.keys@[pos as int] < self.keys@[j]);
            }
        }
        if self.is_leaf {
            proof {
                if self.keys@.contains(key) {
                    let j = choose|j: int| 0 <= j < self.keys@.len() && self.keys@[j] == key;
                    assert(false);
                }
            }
            return false;
        }
        proof {
            self.lemma_only_child(lo, hi, key, pos as int);
            assert(self.children@[pos as int].wf(self.lo_of(pos as int, lo), self.hi_of(pos as int, hi)));
        }
        self.children[pos].search_node(key, Ghost(self.lo_of(pos as int, lo)), Ghost(self.hi_of(pos as int, hi)))
    }
}

/// `s` lists exactly the keys of `node`, in increasing order, all within the bounds.
spec fn lists_keys(s: Seq<i32>, node: BPlusTreeNode, lo: int, hi: int) -> bool {
    &&& strictly_sorted(s)
    &&& forall|i: int| 0 <= i < s.len() ==> lo < #[trigger] s[i] < hi
    &&& forall|k: i32| s.contains(k) == node.contains(k)
}

proof fn lemma_sorted_concat(a: Seq<i32>, b: Seq<i32>, mid: int)
    requires
        strictly_sorted(a),
        strictly_sorted(b),
        forall|i: int| 0 <= i < a.len() ==> a[i] <= mid,
        forall|j: int| 0 <= j < b.len() ==> mid < b[j],
    ensures
        strictly_sorted(a + b),
{
    assert forall|i: int, j: int| 0 <= i < j < (a + b).len() implies (a + b)[i] < (a + b)[j] by {
        if j < a.len() {
        } else if i >= a.len() {
            assert((a + b)[i] == b[i - a.len()]);
            assert((a + b)[j] == b[j - a.len()]);
        } else {
            assert((a + b)[i] == a[i]);
            assert((a + b)[j] == b[j - a.len()]);
        }
    }
}

impl BPlusTreeNode {
    /// Appends the keys of this subtree to `result`, in order.
    fn collect_keys(&self, result: &mut Vec<i32>, Ghost(lo): Ghost<int>, Ghost(hi): Ghost<int>)
        requires
            self.wf(lo, hi),
        ensures
            final(result)@.len() >= old(result)@.len(),
            final(result)@.subrange(0, old(result)@.len() as int) == old(result)@,
            lists_keys(final(result)@.subrange(old(result)@.len() as int, final(result)@.len() as int), *self, lo, hi),
        decreases self,
    {
        proof {
            self.lemma_wf_unfold(lo, hi);
        }
        let ghost start = result@.len() as int;
        let ghost orig = result@;
        if self.is_leaf {
            let mut i: usize = 0;
            while i < self.keys.len()
                invariant
                    i <= self.keys@.len(),
                    start == orig.len(),
                    result@ == orig + self.keys@.subrange(0, i as int),
                decreases self.keys@.len() - i,
            {
                result.push(self.keys[i]);
                i = i + 1;
                assert(result@ =~= orig + self.keys@.subrange(0, i as int));
            }
            proof {
                assert(result@.subrange(0, start) =~= orig);
                assert(result@.subrange(start, result@.len() as int) =~= self.keys@);
                assert forall|k: i32| self.keys@.contains(k) == self.contains(k) by {
                    self.lemma_contains_unfold(k);
                }
            }
            return;
        }
        let mut i: usize = 0;
        while i < self.keys.len()
            invariant
                self.wf(lo, hi),
                !self.is_leaf,
                self.children@.len() == self.keys@.len() + 1,
                forall|j: int|
                    0 <= j < self.children@.len() ==> #[trigger] self.children@[j].wf(
                        self.lo_of(j, lo),
                        self.hi_of(j, hi)),
                forall|j: int| 0 <= j < self.keys@.len() ==> lo < #[trigger] self.keys@[j] < hi,
                strictly_sorted(self.keys@),
                i <= self.keys@.len(),
                start == orig.len(),
                result@.len() >= start,
                result@.subrange(0, start) == orig,
                strictly_sorted(result@.subrange(start, result@.len() as int)),
                forall|j: int|
                    start <= j < result@.len() ==> lo < #[trigger] result@[j] <= self.lo_of(i as int, lo),
                forall|k: i32|
                    result@.subrange(start, result@.len() as int).contains(k) == (self.children_contain(k, i as int)
                        || self.keys@.subrange(0, i as int).contains(k)),
            decreases self.keys@.len() - i,
        {
            let ghost before = result@;
            let ghost s_before = result@.subrange(start, result@.len() as int);
            self.children[i].collect_keys(result, Ghost(self.lo_of(i as int, lo)), Ghost(self.hi_of(i as int, hi)));
            let ghost after_child = result@;
            let ghost t = result@.subrange(before.len() as int, result@.len() as int);
            proof {
                assert(result@.subrange(start, result@.len() as int) =~= s_before + t);
                assert forall|j: int| 0 <= j < s_before.len() implies s_before[j] <= self.lo_of(i as int, lo) by {
                    assert(s_before[j] == before[start + j]);
                }
                lemma_sorted_concat(s_before, t, self.lo_of(i as int, lo));
            }
            result.push(self.keys[i]);
            proof {
                let s_new = result@.subrange(start, result@.len() as int);
                assert(s_new =~= s_before + t + seq![self.keys@[i as int]]);
                assert forall|j: int| 0 <= j < (s_before + t).len() implies (s_before + t)[j] <= self.keys@[i as int] as int by {
                    if j < s_before.len() {
                        assert(s_before[j] == before[start + j]);
                        if i > 0 {
                            assert(self.keys@[i - 1] < self.keys@[i as int]);
                        }
                    } else {
                        assert((s_before + t)[j] == t[j - s_before.len()]);
                    }
                }
                lemma_sorted_concat(s_before + t, seq![self.keys@[i as int]], self.keys@[i as int] - 1);
                assert(result@.subrange(0, start) =~= orig) by {
                    assert(after_child.subrange(0, before.len() as int) == before);
                    assert(result@.subrange(0, start) =~= before.subrange(0, start));
                }
                assert forall|j: int| start <= j < result@.len() implies lo < #[trigger] result@[j] <= self.lo_of(i + 1, lo) by {
                    assert(result@[j] == s_new[j - start]);
                    if j - start < s_before.len() {
                        assert(s_new[j - start] == s_before[j - start]);
                        assert(s_before[j - start] == before[j]);
                        if i > 0 {
                            assert(self.keys@[i - 1] < self.keys@[i as int]);
                        }
                    } else if j - start < s_before.len() + t.len() {
                        assert(s_new[j - start] == t[j - start - s_before.len()]);
                        if i > 0 {
                            assert(lo < self.keys@[i - 1]);
                        }
                    } else {
                    }
                }
                assert forall|k: i32|
                    s_new.contains(k) == (self.children_contain(k, i + 1) || self.keys@.subrange(0, i + 1).contains(k)) by {
                    assert(t.contains(k) == self.children@[i as int].contains(k));
                    assert(self.children_contain(k, i + 1) == (self.children_contain(k, i as int) || self.children@[i as int].contains(k)));
                    assert(s_before.contains(k) == (self.children_contain(k, i as int) || self.keys@.subrange(0, i as int).contains(k)));
                    let ks = self.keys@.subrange(0, i as int);
                    let ks1 = self.keys@.subrange(0, i + 1);
                    if ks1.contains(k) {
                        let w = choose|w: int| 0 <= w < ks1.len() && ks1[w] == k;
                        if w < i {
                            assert(ks[w] == k);
                        }
                    }
                    if ks.contains(k) {
                        let w = choose|w: int| 0 <= w < ks.len() && ks[w] == k;
                        assert(ks1[w] == k);
                    }
                    if k == self.keys@[i as int] {
                        assert(ks1[i as int] == k);
                    }
                    if s_before.contains(k) {
                        let w = choose|w: int| 0 <= w < s_before.len() && s_before[w] == k;
                        assert(s_new[w] == k);
                    }
                    if t.contains(k) {
                        let w = choose|w: int| 0 <= w < t.len() && t[w] == k;
                        assert(s_new[s_before.len() + w] == k);
                    }
                    if k == self.keys@[i as int] {
                        assert(s_new[s_new.len() - 1] == k);
                    }
                    if s_new.contains(k) {
                        let w = choose|w: int| 0 <= w < s_new.len() && s_new[w] == k;
                        if w < s_before.len() {
                            assert(s_before[w] == k);
                        } else if w < s_before.len() + t.len() {
                            assert(t[w - s_before.len()] == k);
                        }
                    }
                }
            }
            i = i + 1;
        }
        let ghost before = result@;
        let ghost s_before = result@.subrange(start, result@.len() as int);
        let last = self.keys.len();
        self.children[last].collect_keys(result, Ghost(self.lo_of(last as int, lo)), Ghost(self.hi_of(last as int, hi)));
        proof {
            let t = result@.subrange(before.len() as int, result@.len() as int);
            let s_new = result@.subrange(start, result@.len() as int);
            assert(s_new =~= s_before + t);
            assert forall|j: int| 0 <= j < s_before.len() implies s_before[j] <= self.lo_of(last as int, lo) by {
                assert(s_before[j] == before[start + j]);
            }
            lemma_sorted_concat(s_before, t, self.lo_of(last as int, lo));
            assert(result@.subrange(0, start) =~= before.subrange(0, start));
            assert(self.keys@.subrange(0, last as int) =~= self.keys@);
            assert forall|j: int| 0 <= j < s_new.len() implies lo < #[trigger] s_new[j] < hi by {
                if j < s_before.len() {
                    assert(s_before[j] == before[start + j]);
                    if last > 0 {
                        assert(self.keys@[last - 1] < hi);
                    }
                } else {
                    assert(s_new[j] == t[j - s_before.len()]);
                    if last > 0 {
                        assert(lo < self.keys@[last - 1]);
                    }
                }
            }
            assert forall|k: i32| s_new.contains(k) == self.contains(k) by {
                assert(t.contains(k) == self.children@[last as int].contains(k));
                assert(self.children_contain(k, last + 1) == (self.children_contain(k, last as int) || self.children@[last as int].contains(k)));
                assert(s_before.contains(k) == (self.children_contain(k, last as int) || self.keys@.subrange(0, last as int).contains(k)));
                assert(self.contains(k) == (self.keys@.contains(k) || self.children_contain(k, last + 1)));
                if s_before.contains(k) {
                    let w = choose|w: int| 0 <= w < s_before.len() && s_before[w] == k;
                    assert(s_new[w] == k);
                }
                if t.contains(k) {
                    let w = choose|w: int| 0 <= w < t.len() && t[w] == k;
                    assert(s_new[s_before.len() + w] == k);
                }
                if s_new.contains(k) {
                    let w = choose|w: int| 0 <= w < s_new.len() && s_new[w] == k;
                    if w < s_before.len() {
                        assert(s_before[w] == k);
                    } else {
                        assert(t[w - s_before.len()] == k);
                    }
                }
            }
        }
    }
}

impl BPlusTreeNode {
    /// Splitting a full node around its middle key yields two well-formed
    /// halves that together with the middle key hold the same keys.
    proof fn lemma_split_parts(c: Self, lo: int, hi: int, d: int, l: Self, r: Self)
        requires
            d >= 1,
            c.wf(lo, hi),
            c.keys@.len() == 2 * d - 1,
            l.is_leaf == c.is_leaf,
            r.is_leaf == c.is_leaf,
            l.keys@ == c.keys@.subrange(0, d - 1),
            r.keys@ == c.keys@.subrange(d, 2 * d - 1),
            c.is_leaf ==> l.children@.len() == 0 && r.children@.len() == 0,
            !c.is_leaf ==> l.children@ == c.children@.subrange(0, d),
            !c.is_leaf ==> r.children@ == c.children@.subrange(d, 2 * d),
        ensures
            l.wf(lo, c.keys@[d - 1] as int),
            r.wf(c.keys@[d - 1] as int, hi),
            forall|k: i32| #[trigger] c.contains(k) == (l.contains(k) || k == c.keys@[d - 1] || r.contains(k)),
            l.height() <= c.height(),
            r.height() <= c.height(),
    {
        let m = c.keys@[d - 1];
        c.lemma_wf_unfold(lo, hi);
        l.lemma_wf_unfold(lo, m as int);
        r.lemma_wf_unfold(m as int, hi);
        assert forall|i: int, j: int| 0 <= i < j < l.keys@.len() implies l.keys@[i] < l.keys@[j] by {
            assert(l.keys@[i] == c.keys@[i] && l.keys@[j] == c.keys@[j]);
        }
        assert forall|i: int| 0 <= i < l.keys@.len() implies lo < #[trigger] l.keys@[i] < m by {
            assert(l.keys@[i] == c.keys@[i]);
            assert(c.keys@[i] < c.keys@[d - 1]);
        }
        assert forall|i: int, j: int| 0 <= i < j < r.keys@.len() implies r.keys@[i] < r.keys@[j] by {
            assert(r.keys@[i] == c.keys@[d + i] && r.keys@[j] == c.keys@[d + j]);
        }
        assert forall|i: int| 0 <= i < r.keys@.len() implies m < #[trigger] r.keys@[i] < hi by {
            assert(r.keys@[i] == c.keys@[d + i]);
            assert(c.keys@[d - 1] < c.keys@[d + i]);
        }
        if !c.is_leaf {
            assert forall|j: int| 0 <= j < l.children@.len() implies #[trigger] l.children@[j].wf(
                l.lo_of(j, lo),
                l.hi_of(j, m as int)) by {
                assert(l.children@[j] == c.children@[j]);
                assert(c.children@[j].wf(c.lo_of(j, lo), c.hi_of(j, hi)));
                if j > 0 {
                    assert(l.keys@[j - 1] == c.keys@[j - 1]);
                }
                if j < d - 1 {
                    assert(l.keys@[j] == c.keys@[j]);
                }
            }
            assert forall|j: int| 0 <= j < r.children@.len() implies #[trigger] r.children@[j].wf(
                r.lo_of(j, m as int),
                r.hi_of(j, hi)) by {
                assert(r.children@[j] == c.children@[d + j]);
                assert(c.children@[d + j].wf(c.lo_of(d + j, lo), c.hi_of(d + j, hi)));
                if j > 0 {
                    assert(r.keys@[j - 1] == c.keys@[d + j - 1]);
                }
                if j < d - 1 {
                    assert(r.keys@[j] == c.keys@[d + j]);
                }
            }
        }
        assert forall|k: i32| c.contains(k) == (l.contains(k) || k == m || r.contains(k)) by {
            c.lemma_contains_unfold(k);
            l.lemma_contains_unfold(k);
            r.lemma_contains_unfold(k);
            if c.keys@.contains(k) {
                let w = choose|w: int| 0 <= w < c.keys@.len() && c.keys@[w] == k;
                if w < d - 1 {
                    assert(l.keys@[w] == k);
                } else if w > d - 1 {
                    assert(r.keys@[w - d] == k);
                }
            }
            if l.keys@.contains(k) {
                let w = choose|w: int| 0 <= w < l.keys@.len() && l.keys@[w] == k;
                assert(c.keys@[w] == k);
            }
            if r.keys@.contains(k) {
                let w = choose|w: int| 0 <= w < r.keys@.len() && r.keys@[w] == k;
                assert(c.keys@[d + w] == k);
            }
            if k == m {
                assert(c.keys@[d - 1] == k);
            }
            if exists|i: int| 0 <= i < c.children@.len() && #[trigger] c.children@[i].contains(k) {
                let w = choose|w: int| 0 <= w < c.children@.len() && #[trigger] c.children@[w].contains(k);
                if w < d {
                    assert(l.children@[w] == c.children@[w]);
                } else {
                    assert(r.children@[w - d] == c.children@[w]);
                }
            }
            if exists|i: int| 0 <= i < l.children@.len() && #[trigger] l.children@[i].contains(k) {
                let w = choose|w: int| 0 <= w < l.children@.len() && #[trigger] l.children@[w].contains(k);
                assert(l.children@[w] == c.children@[w]);
            }
            if exists|i: int| 0 <= i < r.children@.len() && #[trigger] r.children@[i].contains(k) {
                let w = choose|w: int| 0 <= w < r.children@.len() && #[trigger] r.children@[w].contains(k);
                assert(r.children@[w] == c.children@[d + w]);
            }
        }
        if c.children@.len() > 0 {
            let b = (c.height() - 1) as nat;
            c.lemma_height(b);
            l.lemma_height(b);
            r.lemma_height(b);
            assert forall|i: int| 0 <= i < l.children@.len() implies #[trigger] l.children@[i].height() <= b by {
                assert(l.children@[i] == c.children@[i]);
            }
            assert forall|i: int| 0 <= i < r.children@.len() implies #[trigger] r.children@[i].height() <= b by {
                assert(r.children@[i] == c.children@[d + i]);
            }
        } else {
            assert(l.children@.len() == 0);
            assert(r.children@.len() == 0);
        }
    }
}

impl BPlusTreeNode {
    /// Replacing child `ci` of a node by two halves around a new key `m`
    /// keeps the node well formed and keeps its keys.
    proof fn lemma_split_parent(p: Self, q: Self, ci: int, l: Self, r: Self, m: i32, lo: int, hi: int)
        requires
            p.wf(lo, hi),
            !p.is_leaf,
            !q.is_leaf,
            0 <= ci < p.children@.len(),
            p.lo_of(ci, lo) < m < p.hi_of(ci, hi),
            l.wf(p.lo_of(ci, lo), m as int),
            r.wf(m as int, p.hi_of(ci, hi)),
            forall|k: i32| #[trigger] p.children@[ci].contains(k) == (l.contains(k) || k == m || r.contains(k)),
            l.height() <= p.children@[ci].height(),
            r.height() <= p.children@[ci].height(),
            q.keys@ == p.keys@.insert(ci, m),
            q.children@ == p.children@.update(ci, l).insert(ci + 1, r),
        ensures
            q.wf(lo, hi),
            forall|k: i32| q.contains(k) == p.contains(k),
            forall|j: int| 0 <= j < q.children@.len() ==> #[trigger] q.children@[j].height() < p.height(),
    {
        p.lemma_wf_unfold(lo, hi);
        q.lemma_wf_unfold(lo, hi);
        Self::lemma_split_parent_keys(p, q, ci, m, lo, hi);
        Self::lemma_split_parent_children(p, q, ci, l, r, m, lo, hi);
        assert forall|k: i32| q.contains(k) == p.contains(k) by {
            Self::lemma_split_parent_contains(p, q, ci, l, r, m, k);
        }
        p.lemma_height(0);
        assert forall|j: int| 0 <= j < q.children@.len() implies #[trigger] q.children@[j].height() < p.height() by {
            if j < ci {
                assert(q.children@[j] == p.children@[j]);
            } else if j > ci + 1 {
                assert(q.children@[j] == p.children@[j - 1]);
            } else {
                assert(p.children@[ci].height() < p.height());
            }
        }
    }

    proof fn lemma_split_parent_keys(p: Self, q: Self, ci: int, m: i32, lo: int, hi: int)
        requires
            p.wf(lo, hi),
            0 <= ci <= p.keys@.len(),
            p.lo_of(ci, lo) < m < p.hi_of(ci, hi),
            q.keys@ == p.keys@.insert(ci, m),
        ensures
            strictly_sorted(q.keys@),
            forall|i: int| 0 <= i < q.keys@.len() ==> lo < #[trigger] q.keys@[i] < hi,
    {
        p.lemma_wf_unfold(lo, hi);
        if ci > 0 {
            assert(lo < p.keys@[ci - 1]);
        }
        if ci < p.keys@.len() {
            assert(p.keys@[ci] < hi);
        }
        assert forall|i: int, j: int| 0 <= i < j < q.keys@.len() implies q.keys@[i] < q.keys@[j] by {
            if j < ci {
            } else if j == ci {
                if i < ci - 1 {
                    assert(p.keys@[i] < p.keys@[ci - 1]);
                }
            } else if i == ci {
                assert(q.keys@[j] == p.keys@[j - 1]);
                if j - 1 > ci {
                    assert(p.keys@[ci] < p.keys@[j - 1]);
                }
            } else if i < ci {
                assert(q.keys@[j] == p.keys@[j - 1]);
            } else {
                assert(q.keys@[i] == p.keys@[i - 1]);
                assert(q.keys@[j] == p.keys@[j - 1]);
            }
        }
        assert forall|i: int| 0 <= i < q.keys@.len() implies lo < #[trigger] q.keys@[i] < hi by {
            if i < ci {
                assert(q.keys@[i] == p.keys@[i]);
            } else if i > ci {
                assert(q.keys@[i] == p.keys@[i - 1]);
            }
        }
    }

    proof fn lemma_split_parent_children(p: Self, q: Self, ci: int, l: Self, r: Self, m: i32, lo: int, hi: int)
        requires
            p.wf(lo, hi),
            !p.is_leaf,
            0 <= ci < p.children@.len(),
            l.wf(p.lo_of(ci, lo), m as int),
            r.wf(m as int, p.hi_of(ci, hi)),
            q.keys@ == p.keys@.insert(ci, m),
            q.children@ == p.children@.update(ci, l).insert(ci + 1, r),
        ensures
            forall|j: int| 0 <= j < q.children@.len() ==> #[trigger] q.children@[j].wf(
                q.lo_of(j, lo),
                q.hi_of(j, hi)),
    {
        p.lemma_wf_unfold(lo, hi);
        assert forall|j: int| 0 <= j < q.children@.len() implies #[trigger] q.children@[j].wf(
            q.lo_of(j, lo),
            q.hi_of(j, hi)) by {
            if j < ci {
                assert(q.children@[j] == p.children@[j]);
                assert(p.children@[j].wf(p.lo_of(j, lo), p.hi_of(j, hi)));
                if j > 0 {
                    assert(q.keys@[j - 1] == p.keys@[j - 1]);
                }
                assert(q.keys@[j] == p.keys@[j]);
            } else if j == ci {
                if j > 0 {
                    assert(q.keys@[j - 1] == p.keys@[j - 1]);
                }
            } else if j == ci + 1 {
                if j < q.keys@.len() {
                    assert(q.keys@[j] == p.keys@[j - 1]);
                }
            } else {
                assert(q.children@[j] == p.children@[j - 1]);
                assert(p.children@[j - 1].wf(p.lo_of(j - 1, lo), p.hi_of(j - 1, hi)));
                assert(q.keys@[j - 1] == p.keys@[j - 2]);
                if j < q.keys@.len() {
                    assert(q.keys@[j] == p.keys@[j - 1]);
                }
            }
        }
    }

    proof fn lemma_split_parent_contains(p: Self, q: Self, ci: int, l: Self, r: Self, m: i32, k: i32)
        requires
            0 <= ci < p.children@.len(),
            p.children@.len() == p.keys@.len() + 1,
            p.children@[ci].contains(k) == (l.contains(k) || k == m || r.contains(k)),
            q.keys@ == p.keys@.insert(ci, m),
            q.children@ == p.children@.update(ci, l).insert(ci + 1, r),
        ensures
            q.contains(k) == p.contains(k),
    {
        p.lemma_contains_unfold(k);
        q.lemma_contains_unfold(k);
        if p.keys@.contains(k) {
            let w = choose|w: int| 0 <= w < p.keys@.len() && p.keys@[w] == k;
            if w < ci {
                assert(q.keys@[w] == k);
            } else {
                assert(q.keys@[w + 1] == k);
            }
        }
        if q.keys@.contains(k) {
            let w = choose|w: int| 0 <= w < q.keys@.len() && q.keys@[w] == k;
            if w < ci {
                assert(p.keys@[w] == k);
            } else if w > ci {
                assert(p.keys@[w - 1] == k);
            } else {
                assert(k == m);
                assert(p.children@[ci].contains(k));
            }
        }
        if exists|i: int| 0 <= i < p.children@.len() && #[trigger] p.children@[i].contains(k) {
            let w = choose|w: int| 0 <= w < p.children@.len() && #[trigger] p.children@[w].contains(k);
            if w < ci {
                assert(q.children@[w] == p.children@[w]);
            } else if w > ci {
                assert(q.children@[w + 1] == p.children@[w]);
            } else {
                if l.contains(k) {
                    assert(q.children@[ci] == l);
                } else if r.contains(k) {
                    assert(q.children@[ci + 1] == r);
                } else {
                    assert(q.keys@[ci] == k);
                }
            }
        }
        if exists|i: int| 0 <= i < q.children@.len() && #[trigger] q.children@[i].contains(k) {
            let w = choose|w: int| 0 <= w < q.children@.len() && #[trigger] q.children@[w].contains(k);
            if w < ci {
                assert(q.children@[w] == p.children@[w]);
            } else if w > ci + 1 {
                assert(q.children@[w] == p.children@[w - 1]);
            } else if w == ci {
                assert(q.children@[w] == l);
                assert(p.children@[ci].contains(k));
            } else {
                assert(q.children@[w] == r);
                assert(p.children@[ci].contains(k));
            }
        }
    }

    /// Splitting a child into two halves of fewer keys, and adding its
    /// middle key to a node that has room for it, keeps every node within
    /// `cap` keys.
    proof fn lemma_split_capped(p: Self, q: Self, ci: int, l: Self, r: Self, cap: int, d: int)
        requires
            p.capped(cap),
            p.keys@.len() < cap,
            0 <= ci < p.children@.len(),
            l.keys@.len() <= cap,
            r.keys@.len() <= cap,
            0 <= d,
            forall|j: int| 0 <= j < l.children@.len() ==> j < p.children@[ci].children@.len()
                && l.children@[j] == p.children@[ci].children@[j],
            forall|j: int| 0 <= j < r.children@.len() ==> d + j < p.children@[ci].children@.len()
                && r.children@[j] == p.children@[ci].children@[d + j],
            q.keys@.len() == p.keys@.len() + 1,
            q.children@ == p.children@.update(ci, l).insert(ci + 1, r),
        ensures
            q.capped(cap),
    {
        let c = p.children@[ci];
        p.lemma_capped_unfold(cap);
        c.lemma_capped_unfold(cap);
        l.lemma_capped_unfold(cap);
        r.lemma_capped_unfold(cap);
        q.lemma_capped_unfold(cap);
        assert forall|j: int| 0 <= j < l.children@.len() implies #[trigger] l.children@[j].capped(cap) by {
            assert(c.children@[j].capped(cap));
        }
        assert forall|j: int| 0 <= j < r.children@.len() implies #[trigger] r.children@[j].capped(cap) by {
            assert(c.children@[d + j].capped(cap));
        }
        assert forall|j: int| 0 <= j < q.children@.len() implies #[trigger] q.children@[j].capped(cap) by {
            if j < ci {
                assert(q.children@[j] == p.children@[j]);
            } else if j == ci {
                assert(q.children@[j] == l);
            } else if j == ci + 1 {
                assert(q.children@[j] == r);
            } else {
                assert(q.children@[j] == p.children@[j - 1]);
            }
        }
    }

    /// Splitting a child into two halves that share its children keeps
    /// every leaf at the same depth.
    proof fn lemma_split_balanced(p: Self, q: Self, ci: int, l: Self, r: Self, d: int, bh: int)
        requires
            p.balanced(bh),
            p.children@.len() > 0,
            0 <= ci < p.children@.len(),
            d >= 1,
            p.children@[ci].is_leaf ==> p.children@[ci].children@.len() == 0 && l.children@.len() == 0
                && r.children@.len() == 0,
            !p.children@[ci].is_leaf ==> p.children@[ci].children@.len() == 2 * d
                && l.children@ == p.children@[ci].children@.subrange(0, d)
                && r.children@ == p.children@[ci].children@.subrange(d, 2 * d),
            q.children@ == p.children@.update(ci, l).insert(ci + 1, r),
        ensures
            q.balanced(bh),
    {
        let c = p.children@[ci];
        p.lemma_balanced_unfold(bh);
        assert(c.balanced(bh - 1));
        c.lemma_balanced_unfold(bh - 1);
        l.lemma_balanced_unfold(bh - 1);
        r.lemma_balanced_unfold(bh - 1);
        q.lemma_balanced_unfold(bh);
        if !c.is_leaf {
            assert(l.children@[0] == c.children@[0]);
            assert(r.children@[0] == c.children@[d]);
            assert forall|j: int| 0 <= j < l.children@.len() implies #[trigger] l.children@[j].balanced(bh - 2) by {
                assert(l.children@[j] == c.children@[j]);
            }
            assert forall|j: int| 0 <= j < r.children@.len() implies #[trigger] r.children@[j].balanced(bh - 2) by {
                assert(r.children@[j] == c.children@[d + j]);
            }
        }
        assert(l.balanced(bh - 1));
        assert(r.balanced(bh - 1));
        assert forall|j: int| 0 <= j < q.children@.len() implies #[trigger] q.children@[j].balanced(bh - 1) by {
            if j < ci {
                assert(q.children@[j] == p.children@[j]);
            } else if j == ci {
                assert(q.children@[j] == l);
            } else if j == ci + 1 {
                assert(q.children@[j] == r);
            } else {
                assert(q.children@[j] == p.children@[j - 1]);
            }
        }
    }

    /// Splitting a child into two halves of `min` keys each, which share its
    /// children, keeps every node below the parent at `min` keys or more.
    proof fn lemma_split_filled(p: Self, q: Self, ci: int, l: Self, r: Self, d: int, min: int)
        requires
            p.filled_below(min),
            0 <= ci < p.children@.len(),
            0 <= d,
            l.keys@.len() >= min,
            r.keys@.len() >= min,
            forall|j: int| 0 <= j < l.children@.len() ==> j < p.children@[ci].children@.len()
                && l.children@[j] == p.children@[ci].children@[j],
            forall|j: int| 0 <= j < r.children@.len() ==> d + j < p.children@[ci].children@.len()
                && r.children@[j] == p.children@[ci].children@[d + j],
            q.children@ == p.children@.update(ci, l).insert(ci + 1, r),
        ensures
            q.filled_below(min),
    {
        let c = p.children@[ci];
        p.lemma_filled_unfold(min);
        assert(p.children@[ci].keys@.len() >= min);
        assert(c.filled_below(min));
        c.lemma_filled_unfold(min);
        l.lemma_filled_unfold(min);
        r.lemma_filled_unfold(min);
        q.lemma_filled_unfold(min);
        assert forall|j: int| 0 <= j < l.children@.len() implies #[trigger] l.children@[j].keys@.len() >= min
            && l.children@[j].filled_below(min) by {
            assert(c.children@[j].keys@.len() >= min);
        }
        assert forall|j: int| 0 <= j < r.children@.len() implies #[trigger] r.children@[j].keys@.len() >= min
            && r.children@[j].filled_below(min) by {
            assert(c.children@[d + j].keys@.len() >= min);
        }
        assert forall|j: int| 0 <= j < q.children@.len() implies #[trigger] q.children@[j].keys@.len() >= min
            && q.children@[j].filled_below(min) by {
            if j < ci {
                assert(q.children@[j] == p.children@[j]);
                assert(p.children@[j].keys@.len() >= min);
            } else if j == ci {
                assert(q.children@[j] == l);
            } else if j == ci + 1 {
                assert(q.children@[j] == r);
            } else {
                assert(q.children@[j] == p.children@[j - 1]);
                assert(p.children@[j - 1].keys@.len() >= min);
            }
        }
    }

    /// Splits the full child `child_index` of a node: the child's middle
    /// key moves up into this node, the child keeps the keys before it, and
    /// a new sibling to its right takes the keys after it. Split in a
    /// well-formed node that is not full, it keeps the node well formed.
    fn split_child_node(degree: usize, parent_node: &mut BPlusTreeNode, child_index: usize, Ghost(lo): Ghost<int>, Ghost(hi): Ghost<int>)
        requires
            1 <= degree <= usize::MAX / 2,
            child_index < old(parent_node).children@.len(),
            child_index <= old(parent_node).keys@.len(),
            old(parent_node).children@[child_index as int].keys@.len() == 2 * degree - 1,
            !old(parent_node).children@[child_index as int].is_leaf
                ==> old(parent_node).children@[child_index as int].children@.len() == 2 * degree,
        ensures
            final(parent_node).is_leaf == old(parent_node).is_leaf,
            final(parent_node).keys@ == old(parent_node).keys@.insert(
                child_index as int,
                old(parent_node).children@[child_index as int].keys@[degree - 1],
            ),
            final(parent_node).children@.len() == old(parent_node).children@.len() + 1,
            final(parent_node).children@[child_index as int].keys@.len() == degree - 1,
            final(parent_node).children@[child_index + 1].keys@.len() == degree - 1,
            final(parent_node).children@[child_index as int].keys@
                == old(parent_node).children@[child_index as int].keys@.subrange(0, degree - 1),
            final(parent_node).children@[child_index + 1].keys@
                == old(parent_node).children@[child_index as int].keys@.subrange(degree as int, 2 * degree - 1),
            final(parent_node).children@[child_index as int].is_leaf == old(parent_node).children@[child_index as int].is_leaf,
            final(parent_node).children@[child_index + 1].is_leaf == old(parent_node).children@[child_index as int].is_leaf,
            old(parent_node).children@[child_index as int].is_leaf ==> final(parent_node).children@[child_index as int].children@
                == old(parent_node).children@[child_index as int].children@
                && final(parent_node).children@[child_index + 1].children@.len() == 0,
            !old(parent_node).children@[child_index as int].is_leaf ==> final(parent_node).children@[child_index as int].children@
                == old(parent_node).children@[child_index as int].children@.subrange(0, degree as int)
                && final(parent_node).children@[child_index + 1].children@
                == old(parent_node).children@[child_index as int].children@.subrange(degree as int, 2 * degree),
            forall|j: int| 0 <= j < child_index ==> final(parent_node).children@[j] == old(parent_node).children@[j],
            forall|j: int| child_index + 1 < j < final(parent_node).children@.len() ==> final(parent_node).children@[j]
                == old(parent_node).children@[j - 1],
            final(parent_node).layout() == split_child_layout(old(parent_node).layout(), child_index as int, degree as int),
            ({
                let p = *old(parent_node);
                &&& p.wf(lo, hi)
                &&& !p.is_leaf
                &&& p.capped(2 * degree - 1)
                &&& p.keys@.len() < 2 * degree - 1
                &&& p.balanced(p.height() as int)
                &&& p.filled_below(degree - 1)
            }) ==> {
                let q = *final(parent_node);
                &&& q.wf(lo, hi)
                &&& q.filled_below(degree - 1)
                &&& q.capped(2 * degree - 1)
                &&& q.balanced(old(parent_node).height() as int)
                &&& forall|k: i32| q.contains(k) == old(parent_node).contains(k)
                &&& forall|j: int| 0 <= j < q.children@.len() ==> #[trigger] q.children@[j].height() < old(parent_node).height()
            },
    {
        let ghost p = *parent_node;
        let ghost good = p.wf(lo, hi) && !p.is_leaf && p.capped(2 * degree - 1) && p.keys@.len() < 2 * degree - 1
            && p.balanced(p.height() as int) && p.filled_below(degree - 1);
        proof {
            if good {
                p.lemma_wf_unfold(lo, hi);
                assert(p.children@[child_index as int].wf(p.lo_of(child_index as int, lo), p.hi_of(child_index as int, hi)));
            }
        }
        assert(parent_node.children.len() == parent_node.children@.len());
        let next_index = child_index + 1;
        let mut child = parent_node.children.remove(child_index);
        let ghost c = child;
        proof {
            c.lemma_wf_unfold(p.lo_of(child_index as int, lo), p.hi_of(child_index as int, hi));
        }
        let median_key = child.keys[degree - 1];
        let sibling_keys = child.keys.split_off(degree);
        child.keys.truncate(degree - 1);
        let mut sibling_children = Vec::new();
        if !child.is_leaf {
            sibling_children = child.children.split_off(degree);
            child.children.truncate(degree);
        }
        let new_sibling_node = BPlusTreeNode { is_leaf: child.is_leaf, keys: sibling_keys, children: sibling_children };
        proof {
            assert(child.keys@ =~= c.keys@.subrange(0, degree - 1));
            assert(new_sibling_node.keys@ =~= c.keys@.subrange(degree as int, 2 * degree - 1));
            if !c.is_leaf {
                assert(child.children@ =~= c.children@.subrange(0, degree as int));
                assert(new_sibling_node.children@ =~= c.children@.subrange(degree as int, 2 * degree));
            }
            if good {
                Self::lemma_split_parts(c, p.lo_of(child_index as int, lo), p.hi_of(child_index as int, hi), degree as int, child, new_sibling_node);
                assert(p.lo_of(child_index as int, lo) < median_key < p.hi_of(child_index as int, hi));
            }
        }
        let ghost l = child;
        parent_node.keys.insert(child_index, median_key);
        parent_node.children.insert(child_index, child);
        parent_node.children.insert(next_index, new_sibling_node);
        proof {
            assert(parent_node.children@ =~= p.children@.update(child_index as int, l).insert(child_index + 1, new_sibling_node));
            if good {
                Self::lemma_split_parent(p, *parent_node, child_index as int, l, new_sibling_node, median_key, lo, hi);
                Self::lemma_split_capped(p, *parent_node, child_index as int, l, new_sibling_node, 2 * degree - 1, degree as int);
                Self::lemma_split_balanced(p, *parent_node, child_index as int, l, new_sibling_node, degree as int, p.height() as int);
                Self::lemma_split_filled(p, *parent_node, child_index as int, l, new_sibling_node, degree as int, degree - 1);
            }
            Self::lemma_split_layout(p, *parent_node, child_index as int, c, l, new_sibling_node, degree as int);
        }
    }

    /// The layout of a node after the split of its child `ci`.
    proof fn lemma_split_layout(p: Self, q: Self, ci: int, c: Self, l: Self, r: Self, d: int)
        requires
            0 <= ci < p.children@.len(),
            c == p.children@[ci],
            q.is_leaf == p.is_leaf,
            q.keys@ == p.keys@.insert(ci, c.keys@[d - 1]),
            q.children@ == p.children@.update(ci, l).insert(ci + 1, r),
            l.is_leaf == c.is_leaf,
            r.is_leaf == c.is_leaf,
            l.keys@ == c.keys@.subrange(0, d - 1),
            r.keys@ == c.keys@.subrange(d, 2 * d - 1),
            c.is_leaf ==> l.children@ == c.children@ && r.children@.len() == 0,
            !c.is_leaf ==> l.children@ == c.children@.subrange(0, d) && r.children@ == c.children@.subrange(d, 2 * d),
            !c.is_leaf ==> c.children@.len() == 2 * d,
            c.keys@.len() == 2 * d - 1,
            1 <= d,
        ensures
            q.layout() == split_child_layout(p.layout(), ci, d),
    {
        p.lemma_layout_children();
        q.lemma_layout_children();
        c.lemma_layout_children();
        l.lemma_layout_children();
        r.lemma_layout_children();
        let cl = c.layout();
        assert(p.layout().children[ci] == cl);
        assert(l.layout() =~= left_half(cl, d)) by {
            assert(l.layout().keys =~= left_half(cl, d).keys);
            if c.is_leaf {
                assert forall|k: int| 0 <= k < l.children@.len() implies #[trigger] l.layout().children[k] == cl.children[k] by {
                    assert(l.children@[k] == c.children@[k]);
                }
            } else {
                assert forall|k: int| 0 <= k < d implies #[trigger] l.layout().children[k] == cl.children.subrange(0, d)[k] by {
                    assert(l.children@[k] == c.children@[k]);
                }
            }
            assert(l.layout().children =~= left_half(cl, d).children);
        }
        assert(r.layout() =~= right_half(cl, d)) by {
            assert(r.layout().keys =~= right_half(cl, d).keys);
            if !c.is_leaf {
                assert forall|k: int| 0 <= k < d implies #[trigger] r.layout().children[k] == cl.children.subrange(d, 2 * d)[k] by {
                    assert(r.children@[k] == c.children@[d + k]);
                }
            }
            assert(r.layout().children =~= right_half(cl, d).children);
        }
        let e = split_child_layout(p.layout(), ci, d);
        assert(q.layout().children =~= e.children) by {
            assert forall|j: int| 0 <= j < q.children@.len() implies #[trigger] q.layout().children[j] == e.children[j] by {
                if j < ci {
                    assert(q.children@[j] == p.children@[j]);
                } else if j == ci {
                    assert(q.children@[j] == l);
                } else if j == ci + 1 {
                    assert(q.children@[j] == r);
                } else {
                    assert(q.children@[j] == p.children@[j - 1]);
                }
            }
        }
        assert(q.layout() =~= e);
    }
}

impl BPlusTreeNode {
    proof fn lemma_child_contains(self, i: int, k: i32)
        requires
            0 <= i < self.children@.len(),
            self.children@[i].contains(k),
        ensures
            self.contains(k),
    {
        self.lemma_contains_unfold(k);
    }

    /// Replacing child `i` by a well-formed subtree that holds one more key
    /// keeps the node well formed and adds that key.
    proof fn lemma_replace_child(p: Self, q: Self, i: int, c: Self, lo: int, hi: int, key: i32)
        requires
            p.wf(lo, hi),
            !p.is_leaf,
            0 <= i < p.children@.len(),
            c.wf(p.lo_of(i, lo), p.hi_of(i, hi)),
            forall|k: i32| #[trigger] c.contains(k) == (p.children@[i].contains(k) || k == key),
            q.is_leaf == p.is_leaf,
            q.keys@ == p.keys@,
            q.children@ == p.children@.update(i, c),
        ensures
            q.wf(lo, hi),
            forall|k: i32| #[trigger] q.contains(k) == (p.contains(k) || k == key),
    {
        p.lemma_wf_unfold(lo, hi);
        q.lemma_wf_unfold(lo, hi);
        assert forall|j: int| 0 <= j < q.children@.len() implies #[trigger] q.children@[j].wf(
            q.lo_of(j, lo),
            q.hi_of(j, hi)) by {
            if j != i {
                assert(p.children@[j].wf(p.lo_of(j, lo), p.hi_of(j, hi)));
            }
        }
        assert forall|k: i32| #[trigger] q.contains(k) == (p.contains(k) || k == key) by {
            p.lemma_contains_unfold(k);
            q.lemma_contains_unfold(k);
            if exists|j: int| 0 <= j < p.children@.len() && #[trigger] p.children@[j].contains(k) {
                let w = choose|w: int| 0 <= w < p.children@.len() && #[trigger] p.children@[w].contains(k);
                assert(q.children@[w].contains(k));
            }
            if exists|j: int| 0 <= j < q.children@.len() && #[trigger] q.children@[j].contains(k) {
                let w = choose|w: int| 0 <= w < q.children@.len() && #[trigger] q.children@[w].contains(k);
                if w != i {
                    assert(p.children@[w].contains(k));
                }
            }
            if k == key {
                assert(q.children@[i].contains(k));
            }
        }
    }

    /// Inserts a new key into a subtree whose root is not full, splitting
    /// full children on the way down.
    #[verifier::rlimit(50)]
    #[verifier::spinoff_prover]
    fn insert_non_full_node(degree: usize, node: &mut BPlusTreeNode, key: i32, Ghost(lo): Ghost<int>, Ghost(hi): Ghost<int>)
        requires
            1 <= degree <= usize::MAX / 2,
            old(node).wf(lo, hi),
            lo < key < hi,
            !old(node).contains(key),
            old(node).capped(2 * degree - 1),
            old(node).keys@.len() < 2 * degree - 1 || (!old(node).is_leaf && forall|i: int|
                0 <= i < old(node).children@.len() ==> #[trigger] old(node).children@[i].keys@.len() < 2 * degree - 1),
            old(node).balanced(old(node).height() as int),
            old(node).filled_below(degree - 1),
        ensures
            final(node).wf(lo, hi),
            final(node).filled_below(degree - 1),
            final(node).keys@.len() >= old(node).keys@.len(),
            forall|k: i32| #[trigger] final(node).contains(k) == (old(node).contains(k) || k == key),
            final(node).capped(2 * degree - 1),
            final(node).balanced(old(node).height() as int),
            final(node).layout() == insert_into_layout(old(node).layout(), key, degree as int),
        decreases old(node).height(),
    {
        let ghost p = *node;
        proof {
            p.lemma_wf_unfold(lo, hi);
            p.lemma_contains_unfold(key);
        }
        let mut pos: usize = 0;
        while pos < node.keys.len() && node.keys[pos] < key
            invariant
                *node == p,
                pos <= p.keys@.len(),
                forall|j: int| 0 <= j < pos ==> p.keys@[j] < key,
            decreases p.keys@.len() - pos,
        {
            pos = pos + 1;
        }
        proof {
            if pos < p.keys@.len() && p.keys@[pos as int] == key {
                assert(p.keys@.contains(key));
            }
            assert forall|j: int| pos <= j < p.keys@.len() implies p.keys@[j] > key by {
                assert(p.keys@[pos as int] != key);
                if j > pos {
                    assert(p.keys@[pos as int] < p.keys@[j]);
                }
            }
        }
        if node.is_leaf {
            node.keys.insert(pos, key);
            proof {
                let q = *node;
                Self::lemma_split_parent_keys(p, q, pos as int, key, lo, hi);
                q.lemma_wf_unfold(lo, hi);
                p.lemma_capped_unfold(2 * degree - 1);
                q.lemma_capped_unfold(2 * degree - 1);
                assert forall|k: i32| #[trigger] q.contains(k) == (p.contains(k) || k == key) by {
                    p.lemma_contains_unfold(k);
                    q.lemma_contains_unfold(k);
                    if q.keys@.contains(k) {
                        let w = choose|w: int| 0 <= w < q.keys@.len() && q.keys@[w] == k;
                        if w < pos {
                            assert(p.keys@[w] == k);
                        } else if w > pos {
                            assert(p.keys@[w - 1] == k);
                        }
                    }
                    if p.keys@.contains(k) {
                        let w = choose|w: int| 0 <= w < p.keys@.len() && p.keys@[w] == k;
                        if w < pos {
                            assert(q.keys@[w] == k);
                        } else {
                            assert(q.keys@[w + 1] == k);
                        }
                    }
                    if k == key {
                        assert(q.keys@[pos as int] == k);
                    }
                }
                lemma_key_position(p.keys@, key, pos as int);
                p.lemma_layout_children();
                q.lemma_layout_children();
                assert(q.layout().children =~= p.layout().children);
                assert(q.layout() =~= insert_into_layout(p.layout(), key, degree as int));
            }
            return;
        }
        let mut insertion_point_idx = pos;
        proof {
            p.lemma_height(0);
        }
        if node.children[insertion_point_idx].keys.len() == 2 * degree - 1 {
            proof {
                assert(p.children@[pos as int].wf(p.lo_of(pos as int, lo), p.hi_of(pos as int, hi)));
                p.children@[pos as int].lemma_wf_unfold(p.lo_of(pos as int, lo), p.hi_of(pos as int, hi));
                let m = p.children@[pos as int].keys@[degree - 1];
                assert(p.children@[pos as int].keys@.contains(m));
                p.children@[pos as int].lemma_contains_unfold(m);
                p.lemma_child_contains(pos as int, m);
                assert(p.children@[pos as int].keys@.len() == 2 * degree - 1);
            }
            Self::split_child_node(degree, node, insertion_point_idx, Ghost(lo), Ghost(hi));
            assert(node.children.len() == node.children@.len());
            if key > node.keys[insertion_point_idx] {
                insertion_point_idx = insertion_point_idx + 1;
            }
        }
        let ghost mid = *node;
        let ghost idx = insertion_point_idx as int;
        proof {
            mid.lemma_filled_unfold(degree - 1);
            assert(mid.children@[idx].keys@.len() >= degree - 1);
            assert(mid.children@[idx].filled_below(degree - 1));
            mid.lemma_balanced_unfold(p.height() as int);
            assert(mid.children@[idx].balanced(p.height() - 1));
            mid.children@[idx].lemma_balanced_height(p.height() - 1);
            mid.lemma_capped_unfold(2 * degree - 1);
            assert(mid.children@[idx].capped(2 * degree - 1));
            mid.children@[idx].lemma_capped_unfold(2 * degree - 1);
            mid.lemma_wf_unfold(lo, hi);
            assert(mid.children@[idx].wf(mid.lo_of(idx, lo), mid.hi_of(idx, hi)));
            mid.children@[idx].lemma_wf_unfold(mid.lo_of(idx, lo), mid.hi_of(idx, hi));
            assert(!mid.contains(key));
            if mid.children@[idx].contains(key) {
                mid.lemma_child_contains(idx, key);
            }
            if idx > 0 {
                assert(mid.keys@[idx - 1] < key);
            }
            if idx < mid.keys@.len() {
                assert(key < mid.keys@[idx]);
            }
        }
        Self::insert_non_full_node(
            degree,
            &mut node.children[insertion_point_idx],
            key,
            Ghost(mid.lo_of(idx, lo)),
            Ghost(mid.hi_of(idx, hi)),
        );
        proof {
            Self::lemma_replace_child(mid, *node, idx, node.children@[idx], lo, hi, key);
            let q = *node;
            q.lemma_capped_unfold(2 * degree - 1);
            assert forall|j: int| 0 <= j < q.children@.len() implies #[trigger] q.children@[j].capped(2 * degree - 1) by {
                if j != idx {
                    assert(q.children@[j] == mid.children@[j]);
                }
            }
            q.lemma_filled_unfold(degree - 1);
            assert forall|j: int| 0 <= j < q.children@.len() implies #[trigger] q.children@[j].keys@.len() >= degree - 1
                && q.children@[j].filled_below(degree - 1) by {
                if j != idx {
                    assert(q.children@[j] == mid.children@[j]);
                    assert(mid.children@[j].keys@.len() >= degree - 1);
                }
            }
            q.lemma_balanced_unfold(p.height() as int);
            assert forall|j: int| 0 <= j < q.children@.len() implies #[trigger] q.children@[j].balanced(p.height() - 1) by {
                if j != idx {
                    assert(q.children@[j] == mid.children@[j]);
                }
            }
            Self::lemma_insert_layout(p, mid, q, pos as int, idx, key, degree as int, lo, hi);
        }
    }

    /// The layout after an insertion below an inner node: the child that
    /// the key belongs to was split if full (`mid`), then the key was
    /// inserted into child `idx` of `mid`.
    proof fn lemma_insert_layout(p: Self, mid: Self, q: Self, pos: int, idx: int, key: i32, d: int, lo: int, hi: int)
        requires
            1 <= d,
            p.wf(lo, hi),
            !p.is_leaf,
            0 <= pos <= p.keys@.len(),
            forall|j: int| 0 <= j < pos ==> p.keys@[j] < key,
            pos == p.keys@.len() || p.keys@[pos] >= key,
            p.children@[pos].keys@.len() == 2 * d - 1 ==> mid.layout() == split_child_layout(p.layout(), pos, d)
                && idx == (if key > mid.keys@[pos] { pos + 1 } else { pos })
                && (p.children@[pos].is_leaf || p.children@[pos].children@.len() == 2 * d),
            p.children@[pos].keys@.len() != 2 * d - 1 ==> mid == p && idx == pos,
            0 <= idx < mid.children@.len(),
            q.is_leaf == mid.is_leaf,
            q.keys@ == mid.keys@,
            q.children@ == mid.children@.update(idx, q.children@[idx]),
            q.children@[idx].layout() == insert_into_layout(mid.children@[idx].layout(), key, d),
        ensures
            q.layout() == insert_into_layout(p.layout(), key, d),
    {
        lemma_key_position(p.keys@, key, pos);
        p.lemma_wf_unfold(lo, hi);
        p.lemma_layout_children();
        mid.lemma_layout_children();
        q.lemma_layout_children();
        let ml = mid.layout();
        assert(q.layout() =~= Layout { is_leaf: ml.is_leaf, keys: ml.keys, children: ml.children.update(idx, q.children@[idx].layout()) }) by {
            assert forall|j: int| 0 <= j < q.children@.len() implies #[trigger] q.layout().children[j]
                == ml.children.update(idx, q.children@[idx].layout())[j] by {
                if j != idx {
                    assert(q.children@[j] == mid.children@[j]);
                }
            }
            assert(q.layout().children =~= ml.children.update(idx, q.children@[idx].layout()));
        }
        let c = p.children@[pos];
        c.lemma_layout_children();
        let pl = p.layout();
        let cl = c.layout();
        assert(p.children@.len() == p.keys@.len() + 1);
        assert(pl.children[pos] == cl);
        assert(key_position(pl.keys, key) == pos);
        let e = insert_into_layout(pl, key, d);
        if c.keys@.len() == 2 * d - 1 {
            let m = cl.keys[d - 1];
            let split = pl.children.update(pos, left_half(cl, d)).insert(pos + 1, right_half(cl, d));
            assert(ml == split_child_layout(pl, pos, d));
            assert(ml.children == split);
            assert(ml.keys == pl.keys.insert(pos, m));
            assert(mid.keys@[pos] == m);
            let t = if key > m { right_half(cl, d) } else { left_half(cl, d) };
            assert(split[idx] == t);
            assert(mid.children@[idx].layout() == t);
            let inserted = if cl.is_leaf {
                Layout { is_leaf: true, keys: t.keys.insert(key_position(t.keys, key), key), children: t.children }
            } else {
                insert_layout_rec(t.is_leaf, t.keys, t.children, key, d)
            };
            assert(insert_into_layout(t, key, d) == inserted);
            assert(e == Layout { is_leaf: false, keys: pl.keys.insert(pos, m), children: split.update(idx, inserted) });
        } else {
            assert(e == Layout { is_leaf: false, keys: pl.keys, children: pl.children.update(pos, insert_into_layout(cl, key, d)) });
        }
    }
}

/// The keys of a node as `{:?}` prints a `Vec<i32>`: `[1, 2, 3]`.
pub open spec fn keys_debug_text(ks: Seq<i32>) -> Seq<char> {
    seq!['['] + keys_joined(ks) + seq![']']
}

/// The keys in decimal, separated by `", "`.
pub open spec fn keys_joined(ks: Seq<i32>) -> Seq<char>
    decreases ks.len(),
{
    if ks.len() == 0 {
        Seq::empty()
    } else if ks.len() == 1 {
        int_decimal(ks[0] as int)
    } else {
        keys_joined(ks.drop_last()) + seq![',', ' '] + int_decimal(ks.last() as int)
    }
}

/// The line printed for one node: `Level <level>: [<keys>]`.
pub open spec fn level_line(level: nat, ks: Seq<i32>) -> Seq<char> {
    seq!['L', 'e', 'v', 'e', 'l', ' '] + int_decimal(level as int) + seq![':', ' '] + keys_debug_text(ks)
        + seq!['\n']
}

impl BPlusTreeNode {
    /// The layout of a subtree.
    spec fn layout(self) -> Layout
        decreases self, 1nat, 0int,
    {
        Layout { is_leaf: self.is_leaf, keys: self.keys@, children: self.child_layouts(self.children@.len() as int) }
    }

    /// The layouts of the first `n` children, in order.
    spec fn child_layouts(self, n: int) -> Seq<Layout>
        decreases self, 0nat, n,
    {
        if n <= 0 || n > self.children@.len() {
            Seq::empty()
        } else {
            self.child_layouts(n - 1).push(self.children@[n - 1].layout())
        }
    }

    proof fn lemma_child_layouts(self, n: int)
        requires
            0 <= n <= self.children@.len(),
        ensures
            self.child_layouts(n).len() == n,
            forall|i: int| 0 <= i < n ==> #[trigger] self.child_layouts(n)[i] == self.children@[i].layout(),
        decreases n,
    {
        if n > 0 {
            self.lemma_child_layouts(n - 1);
        }
    }

    proof fn lemma_layout_ordered(self, lo: int, hi: int)
        requires
            self.wf(lo, hi),
        ensures
            layout_ordered(self.layout(), lo, hi),
        decreases self,
    {
        self.lemma_wf_unfold(lo, hi);
        self.lemma_layout_children();
        let l = self.layout();
        if !self.is_leaf {
            assert forall|i: int| 0 <= i < l.children.len() implies layout_ordered(
                #[trigger] l.children[i],
                if i == 0 { lo } else { l.keys[i - 1] as int },
                if i == l.keys.len() { hi } else { l.keys[i] as int },
            ) by {
                assert(self.children@[i].wf(self.lo_of(i, lo), self.hi_of(i, hi)));
                self.children@[i].lemma_layout_ordered(self.lo_of(i, lo), self.hi_of(i, hi));
            }
        }
    }

    proof fn lemma_layout_capped(self, cap: int)
        requires
            self.capped(cap),
        ensures
            layout_capped(self.layout(), cap),
        decreases self,
    {
        self.lemma_capped_unfold(cap);
        self.lemma_layout_children();
        let l = self.layout();
        assert forall|i: int| 0 <= i < l.children.len() implies layout_capped(#[trigger] l.children[i], cap) by {
            self.children@[i].lemma_layout_capped(cap);
        }
    }

    proof fn lemma_layout_filled(self, min: int)
        requires
            self.filled_below(min),
        ensures
            layout_filled(self.layout(), min),
        decreases self,
    {
        self.lemma_filled_unfold(min);
        self.lemma_layout_children();
        let l = self.layout();
        assert forall|i: int| 0 <= i < l.children.len() implies (#[trigger] l.children[i]).keys.len() >= min
            && layout_filled(l.children[i], min) by {
            assert(self.children@[i].keys@.len() >= min);
            self.children@[i].lemma_layout_children();
            self.children@[i].lemma_layout_filled(min);
        }
    }

    proof fn lemma_layout_balanced(self, h: int)
        requires
            self.balanced(h),
        ensures
            layout_balanced(self.layout(), h),
        decreases self,
    {
        self.lemma_balanced_unfold(h);
        self.lemma_layout_children();
        let l = self.layout();
        if self.children@.len() > 0 {
            assert forall|i: int| 0 <= i < l.children.len() implies layout_balanced(#[trigger] l.children[i], h - 1) by {
                self.children@[i].lemma_layout_balanced(h - 1);
            }
        }
    }

    /// The children of a node's layout are its children's layouts.
    proof fn lemma_layout_children(self)
        ensures
            self.layout().is_leaf == self.is_leaf,
            self.layout().keys == self.keys@,
            self.layout().children.len() == self.children@.len(),
            forall|i: int| 0 <= i < self.children@.len() ==> #[trigger] self.layout().children[i] == self.children@[i].layout(),
    {
        self.lemma_child_layouts(self.children@.len() as int);
    }

    fn push_keys_debug(keys: &Vec<i32>, out: &mut String)
        ensures
            final(out)@ == old(out)@ + keys_debug_text(keys@),
    {
        push_char(out, '[');
        let mut i: usize = 0;
        while i < keys.len()
            invariant
                i <= keys@.len(),
                out@ == old(out)@ + seq!['['] + keys_joined(keys@.subrange(0, i as int)),
            decreases keys@.len() - i,
        {
            if i > 0 {
                push_char(out, ',');
                push_char(out, ' ');
            }
            push_i32(out, keys[i]);
            proof {
                let ks = keys@.subrange(0, i + 1);
                assert(ks.drop_last() =~= keys@.subrange(0, i as int));
                assert(ks.last() == keys@[i as int]);
                if i == 0 {
                    assert(keys@.subrange(0, 0) =~= Seq::<i32>::empty());
                }
            }
            i = i + 1;
            assert(out@ =~= old(out)@ + seq!['['] + keys_joined(keys@.subrange(0, i as int)));
        }
        push_char(out, ']');
        assert(keys@.subrange(0, i as int) =~= keys@);
        assert(out@ =~= old(out)@ + keys_debug_text(keys@));
    }

    /// Appends the printout of this subtree, `level` holding the decimal
    /// digits of its depth `lv`.
    fn print_node(&self, level: &Vec<char>, Ghost(lv): Ghost<nat>, out: &mut String)
        requires
            level@ == nat_decimal(lv),
        ensures
            final(out)@ == old(out)@ + layout_text(self.layout(), lv),
        decreases self,
    {
        out.append("Level ");
        push_chars(out, level);
        out.append(": ");
        Self::push_keys_debug(&self.keys, out);
        push_char(out, '\n');
        proof {
            reveal_strlit("Level ");
            reveal_strlit(": ");
            self.lemma_layout_children();
        }
        let ghost line_end = out@;
        let ghost ls = self.layout().children;
        assert(int_decimal(lv as int) == nat_decimal(lv));
        assert(line_end =~= old(out)@ + level_line(lv, self.keys@));
        let next = next_decimal(level, Ghost(lv));
        let mut i: usize = 0;
        assert(ls.subrange(0, 0) =~= Seq::<Layout>::empty());
        while i < self.children.len()
            invariant
                i <= self.children@.len(),
                ls == self.layout().children,
                ls.len() == self.children@.len(),
                forall|j: int| 0 <= j < self.children@.len() ==> #[trigger] ls[j] == self.children@[j].layout(),
                next@ == nat_decimal(lv + 1),
                out@ == line_end + layouts_text(ls.subrange(0, i as int), lv + 1),
            decreases self.children@.len() - i,
        {
            self.children[i].print_node(&next, Ghost(lv + 1), out);
            proof {
                let t = ls.subrange(0, i + 1);
                assert(t.subrange(0, t.len() - 1) =~= ls.subrange(0, i as int));
                assert(t[t.len() - 1] == self.children@[i as int].layout());
            }
            i = i + 1;
            assert(out@ =~= line_end + layouts_text(ls.subrange(0, i as int), lv + 1));
        }
        assert(ls.subrange(0, i as int) =~= ls);
        assert(out@ =~= old(out)@ + layout_text(self.layout(), lv));
    }
}

/// A B-tree index of distinct non-negative `i32` keys.
pub struct BPlusTree {
    root: BPlusTreeNode,
    degree: usize,
}

/// The message of an insertion refused for a negative key.
pub open spec fn negative_key_message() -> Seq<char> {
    "插入的关键字不能为负数"@
}

/// The message of an insertion refused for a key already present.
pub open spec fn duplicate_key_message(key: i32) -> Seq<char> {
    "主键 '"@ + int_decimal(key as int) + "' 已存在"@
}

/// What inserting a key does to a tree's keys: a negative key, or one
/// already present, is refused with its message and changes nothing; any
/// other key is added.
pub open spec fn key_insert_outcome(keys: Set<i32>, key: i32) -> (Set<i32>, Result<(), Seq<char>>) {
    if key < 0 {
        (keys, Err(negative_key_message()))
    } else if keys.contains(key) {
        (keys, Err(duplicate_key_message(key)))
    } else {
        (keys.insert(key), Ok(()))
    }
}

impl View for BPlusTree {
    type V = Set<i32>;

    /// The set of keys stored in the tree.
    closed spec fn view(&self) -> Set<i32> {
        Set::new(|k: i32| self.root.contains(k))
    }
}

impl BPlusTree {
    /// The tree's structure is intact: keys ordered within and across
    /// nodes, no node over its capacity, and every leaf at the same depth.
    pub closed spec fn wf(&self) -> bool {
        &&& self.root.wf(below_all(), above_all())
        &&& self.within_capacity()
        &&& self.leaves_level()
        &&& self.nodes_filled()
    }

    /// Every node but the root holds at least `degree - 1` keys.
    spec fn nodes_filled(&self) -> bool {
        self.root.filled_below(self.degree - 1)
    }

    /// Every leaf lies at the same depth below the root.
    spec fn leaves_level(&self) -> bool {
        self.root.balanced(self.root.height() as int)
    }

    /// No node holds more than `2 * degree - 1` keys (for a degree of at
    /// least 1).
    spec fn within_capacity(&self) -> bool {
        self.degree >= 1 ==> self.root.capped(2 * self.degree - 1)
    }

    /// The degree the tree was made with.
    pub closed spec fn degree_of(&self) -> nat {
        self.degree as nat
    }

    /// The keys in increasing order.
    pub closed spec fn sorted_keys(&self) -> Seq<i32> {
        choose|s: Seq<i32>| strictly_sorted(s) && forall|k: i32| s.contains(k) == self.root.contains(k)
    }

    /// The text that `print_tree` hands to the console: one line
    /// `Level <depth>: [<keys>]` per node, each node before its children.
    pub open spec fn tree_text(&self) -> Seq<char> {
        layout_text(self.layout(), 0)
    }

    /// The tree's layout: the keys of each node and its children.
    pub closed spec fn layout(&self) -> Layout {
        self.root.layout()
    }

    /// Creates an empty tree of the given degree.
    pub fn new(degree: usize) -> (tree: Self)
        ensures
            tree.wf(),
            tree@ == Set::<i32>::empty(),
            tree.degree_of() == degree,
            tree.layout() == empty_layout(),
            tree.tree_text() == "Level 0: []\n"@,
    {
        let tree = Self { root: BPlusTreeNode::new_leaf(), degree };
        proof {
            assert(keys_joined(Seq::<i32>::empty()) == Seq::<char>::empty());
            tree.root.lemma_layout_children();
            assert(tree.root.layout().keys =~= Seq::<i32>::empty());
            assert(tree.root.layout().children =~= Seq::<Layout>::empty());
            assert(tree.layout() =~= empty_layout());
            assert(layouts_text(Seq::<Layout>::empty(), 1) == Seq::<char>::empty());
            assert(tree.tree_text() =~= level_line(0, Seq::empty()));
            reveal_strlit("Level 0: []\n");
            assert(int_decimal(0) =~= seq!['0']);
            assert(level_line(0, Seq::empty()) =~= "Level 0: []\n"@);
            tree.root.lemma_wf_unfold(below_all(), above_all());
            assert forall|k: i32| !tree.root.contains(k) by {
                tree.root.lemma_contains_unfold(k);
            }
            assert(tree@ =~= Set::<i32>::empty());
        }
        tree
    }

    /// Inserts a key. Negative keys and keys already present are refused
    /// and leave the tree as it was.
    pub fn insert(&mut self, key: i32) -> (r: Result<(), String>)
        requires
            old(self).wf(),
            1 <= old(self).degree_of() <= usize::MAX / 2,
        ensures
            final(self).wf(),
            final(self).degree_of() == old(self).degree_of(),
            (final(self)@, message_result(r)) == key_insert_outcome(old(self)@, key),
            r is Ok ==> final(self).layout() == layout_after_insert(old(self).layout(), key, old(self).degree_of() as int),
            r is Err ==> final(self).layout() == old(self).layout(),
    {
        if key < 0 {
            return Err(String::from_str("插入的关键字不能为负数"));
        }
        if self.search(key) {
            let mut message = String::from_str("主键 '");
            push_i32(&mut message, key);
            message.append("' 已存在");
            return Err(message);
        }
        let ghost old_root = self.root;
        let degree = self.degree;
        if self.root.keys.len() == 2 * degree - 1 {
            let mut old_root_node = BPlusTreeNode::new_internal();
            std::mem::swap(&mut self.root, &mut old_root_node);
            self.root.children.push(old_root_node);
            proof {
                let r = self.root;
                assert(r.children@ =~= seq![old_root]);
                r.lemma_layout_children();
                assert(r.layout().children =~= seq![old_root.layout()]);
                assert(r.layout() =~= Layout { is_leaf: false, keys: Seq::empty(), children: seq![old_root.layout()] });
                r.lemma_wf_unfold(below_all(), above_all());
                assert(r.children@[0] == old_root);
                r.lemma_capped_unfold(2 * degree - 1);
                r.lemma_filled_unfold(degree - 1);
                r.lemma_balanced_unfold(old_root.height() as int + 1);
                r.lemma_balanced_height(old_root.height() as int + 1);
                assert forall|k: i32| r.contains(k) == old_root.contains(k) by {
                    r.lemma_contains_unfold(k);
                }
            }
            BPlusTreeNode::split_child_node(degree, &mut self.root, 0, Ghost(below_all()), Ghost(above_all()));
            proof {
                let r = self.root;
                assert forall|i: int| 0 <= i < r.children@.len() implies #[trigger] r.children@[i].keys@.len() < 2 * degree - 1 by {
                    assert(i == 0 || i == 1);
                }
                r.lemma_balanced_height(old_root.height() as int + 1);
            }
        }
        let ghost before = self.root;
        BPlusTreeNode::insert_non_full_node(degree, &mut self.root, key, Ghost(below_all()), Ghost(above_all()));
        proof {
            self.root.lemma_balanced_height(before.height() as int);
            assert(final(self)@ =~= old(self)@.insert(key));
        }
        Ok(())
    }

    /// Whether the key is stored in the tree.
    pub fn search(&self, key: i32) -> (r: bool)
        requires
            self.wf(),
        ensures
            r == self@.contains(key),
    {
        self.root.search_node(key, Ghost(below_all()), Ghost(above_all()))
    }

    /// All keys, in increasing order.
    pub fn search_sorted(&self) -> (keys: Vec<i32>)
        requires
            self.wf(),
        ensures
            strictly_sorted(keys@),
            forall|k: i32| keys@.contains(k) == self@.contains(k),
            keys@ == self.sorted_keys(),
    {
        let mut result = Vec::new();
        self.root.collect_keys(&mut result, Ghost(below_all()), Ghost(above_all()));
        proof {
            assert(result@.subrange(0, result@.len() as int) =~= result@);
            let s = self.sorted_keys();
            assert(strictly_sorted(s) && forall|k: i32| s.contains(k) == self.root.contains(k));
            lemma_sorted_sets_equal(result@, s);
        }
        result
    }

    /// The printout of the tree's structure, level by level: one line
    /// `Level <depth>: [<keys>]` per node, each node before its children.
    pub fn print_tree(&self) -> (text: String)
        ensures
            text@ == self.tree_text(),
    {
        let mut out = String::new();
        let mut zero: Vec<char> = Vec::new();
        zero.push('0');
        assert(zero@ =~= nat_decimal(0));
        self.root.print_node(&zero, Ghost(0nat), &mut out);
        assert(out@ =~= self.tree_text());
        out
    }
}

/// Two strictly increasing sequences with the same elements are equal.
pub proof fn lemma_sorted_sets_equal(a: Seq<i32>, b: Seq<i32>)
    requires
        strictly_sorted(a),
        strictly_sorted(b),
        forall|k: i32| a.contains(k) == b.contains(k),
    ensures
        a == b,
    decreases a.len() + b.len(),
{
    if a.len() == 0 {
        if b.len() > 0 {
            assert(b.contains(b[0]));
        }
        assert(a =~= b);
    } else if b.len() == 0 {
        assert(a.contains(a[0]));
    } else {
        let x = a.last();
        let y = b.last();
        assert(a.contains(x));
        assert(b.contains(y));
        let i = choose|i: int| 0 <= i < b.len() && b[i] == x;
        let j = choose|j: int| 0 <= j < a.len() && a[j] == y;
        if x < y {
            assert(a[j] <= a[a.len() - 1]);
        } else if y < x {
            assert(b[i] <= b[b.len() - 1]);
        }
        assert(x == y);
        let a1 = a.drop_last();
        let b1 = b.drop_last();
        assert forall|k: i32| a1.contains(k) == b1.contains(k) by {
            if a1.contains(k) {
                let w = choose|w: int| 0 <= w < a1.len() && a1[w] == k;
                assert(a[w] < x);
                assert(b.contains(k));
                let v = choose|v: int| 0 <= v < b.len() && b[v] == k;
                assert(v != b.len() - 1);
                assert(b1[v] == k);
            }
            if b1.contains(k) {
                let w = choose|w: int| 0 <= w < b1.len() && b1[w] == k;
                assert(b[w] < y);
                assert(a.contains(k));
                let v = choose|v: int| 0 <= v < a.len() && a[v] == k;
                assert(v != a.len() - 1);
                assert(a1[v] == k);
            }
        }
        lemma_sorted_sets_equal(a1, b1);
        assert(a =~= a1.push(x));
        assert(b =~= b1.push(y));
    }
}

/// In a well-formed tree (which `new` makes and `insert` keeps) the keys
/// are ordered within and across nodes, no node holds more than
/// `2 * degree - 1` keys, every node but the root holds at least
/// `degree - 1`, and every leaf lies at the same depth.
pub proof fn law_tree_shape(tree: &BPlusTree)
    requires
        tree.wf(),
    ensures
        layout_ordered(tree.layout(), below_all(), above_all()),
        tree.degree_of() >= 1 ==> layout_capped(tree.layout(), 2 * tree.degree_of() - 1),
        layout_filled(tree.layout(), tree.degree_of() - 1),
        exists|h: int| layout_balanced(tree.layout(), h),
{
    tree.root.lemma_layout_ordered(below_all(), above_all());
    if tree.degree >= 1 {
        tree.root.lemma_layout_capped(2 * tree.degree - 1);
    }
    tree.root.lemma_layout_filled(tree.degree - 1);
    tree.root.lemma_layout_balanced(tree.root.height() as int);
}

/// The keys of a tree after the keys of `ks` are inserted in order,
/// starting from `keys`.
pub open spec fn keys_after_inserts(keys: Set<i32>, ks: Seq<i32>) -> Set<i32>
    decreases ks.len(),
{
    if ks.len() == 0 {
        keys
    } else {
        key_insert_outcome(keys_after_inserts(keys, ks.drop_last()), ks.last()).0
    }
}

proof fn lemma_keys_after_inserts(ks: Seq<i32>, k: i32)
    ensures
        keys_after_inserts(Set::empty(), ks).contains(k) == (k >= 0 && ks.contains(k)),
    decreases ks.len(),
{
    if ks.len() > 0 {
        lemma_keys_after_inserts(ks.drop_last(), k);
        if ks.drop_last().contains(k) {
            let i = choose|i: int| 0 <= i < ks.drop_last().len() && ks.drop_last()[i] == k;
            assert(ks[i] == k);
        }
        if ks.contains(k) && k != ks.last() {
            let i = choose|i: int| 0 <= i < ks.len() && ks[i] == k;
            assert(ks.drop_last()[i] == k);
        }
    }
}

/// Starting from an empty tree, a run of insertions leaves exactly the
/// non-negative keys that were inserted, and a listing with the tree's
/// keys in increasing order (what `search_sorted` returns) holds exactly
/// those keys, each once.
pub proof fn law_inserts_then_sorted(ks: Seq<i32>, listed: Seq<i32>)
    requires
        strictly_sorted(listed),
        forall|k: i32| #[trigger] listed.contains(k) == keys_after_inserts(Set::empty(), ks).contains(k),
    ensures
        forall|k: i32| #[trigger] keys_after_inserts(Set::empty(), ks).contains(k) == (k >= 0 && ks.contains(k)),
        forall|k: i32| #[trigger] listed.contains(k) == (k >= 0 && ks.contains(k)),
        listed.no_duplicates(),
{
    assert forall|k: i32| #[trigger] keys_after_inserts(Set::empty(), ks).contains(k) == (k >= 0 && ks.contains(k)) by {
        lemma_keys_after_inserts(ks, k);
    }
    assert forall|k: i32| #[trigger] listed.contains(k) == (k >= 0 && ks.contains(k)) by {
        lemma_keys_after_inserts(ks, k);
    }
    assert forall|i: int, j: int| 0 <= i < listed.len() && 0 <= j < listed.len() && i != j implies listed[i] != listed[j] by {
        if i < j {
            assert(listed[i] < listed[j]);
        } else {
            assert(listed[j] < listed[i]);
        }
    }
}

/// After a key is inserted, `search` finds it, and finds every other key
/// exactly when it found it before.
pub proof fn law_insert_then_search(keys: Set<i32>, key: i32, other: i32)
    requires
        key_insert_outcome(keys, key).1 is Ok,
    ensures
        key_insert_outcome(keys, key).0.contains(key),
        other != key ==> key_insert_outcome(keys, key).0.contains(other) == keys.contains(other),
{
}

/// Only non-negative keys that are not yet present are inserted; every
/// other insertion is refused and leaves the keys as they were.
pub proof fn law_insert_refused_unchanged(keys: Set<i32>, key: i32)
    ensures
        key_insert_outcome(keys, key).1 is Ok <==> (key >= 0 && !keys.contains(key)),
        key_insert_outcome(keys, key).1 is Err ==> key_insert_outcome(keys, key).0 == keys,
{
}

/// Inserting a key a second time is refused as a duplicate and changes
/// nothing: keys are unique.
pub proof fn law_insert_twice(keys: Set<i32>, key: i32)
    requires
        key_insert_outcome(keys, key).1 is Ok,
    ensures
        key_insert_outcome(key_insert_outcome(keys, key).0, key) == (
            key_insert_outcome(keys, key).0,
            Err::<(), Seq<char>>(duplicate_key_message(key)),
        ),
{
}

/// Two keys inserted one after the other give the same keys in either
/// order.
pub proof fn law_insert_order_irrelevant(keys: Set<i32>, a: i32, b: i32)
    requires
        a != b,
        key_insert_outcome(keys, a).1 is Ok,
        key_insert_outcome(keys, b).1 is Ok,
    ensures
        key_insert_outcome(key_insert_outcome(keys, a).0, b).1 is Ok,
        key_insert_outcome(key_insert_outcome(keys, b).0, a).1 is Ok,
        key_insert_outcome(key_insert_outcome(keys, a).0, b).0 == key_insert_outcome(key_insert_outcome(keys, b).0, a).0,
{
    assert(keys.insert(a).insert(b) =~= keys.insert(b).insert(a));
}

} // verus!
