use rand::Rng;
use vstd::multiset::*;
use vstd::prelude::*;
use vstd::seq_lib::*;

verus! {

broadcast use {group_to_multiset_ensures, group_multiset_axioms};

/// Relies on rand::thread_rng and Rng::gen_range over `0..3`: an index drawn at random
/// from that range, so always below 3.
#[verifier::external_body]
fn random_axis() -> (r: usize)
    ensures
        r < 3,
{
    rand::thread_rng().gen_range(0..3usize)
}

/// The place of an IEEE-754 double, given by its bit pattern, in the total order of doubles
/// (the order of `f64::total_cmp`): sign and magnitude, where `-0.0` comes just below
/// `+0.0` and a larger magnitude comes first among negative values.
pub open spec fn total_order_rank(bits: u64) -> int {
    if bits >= 0x8000_0000_0000_0000 {
        -((bits - 0x8000_0000_0000_0000) as int) - 1
    } else {
        bits as int
    }
}

/// An unsigned key for the double with bit pattern `bits`, whose order is the total order
/// of doubles: the rank shifted up by 2^63.
pub fn box_key(bits: u64) -> (r: u64)
    ensures
        r as int == total_order_rank(bits) + 0x8000_0000_0000_0000,
{
    if bits >> 63u64 == 1 {
        assert(!bits == 0xFFFF_FFFF_FFFF_FFFFu64 - bits) by (bit_vector);
        assert(bits >> 63u64 == 1 ==> bits >= 0x8000_0000_0000_0000u64) by (bit_vector);
        !bits
    } else {
        assert(bits >> 63u64 != 1 ==> bits < 0x8000_0000_0000_0000u64) by (bit_vector);
        assert(bits < 0x8000_0000_0000_0000u64 ==> bits | 0x8000_0000_0000_0000u64 == bits
            + 0x8000_0000_0000_0000u64) by (bit_vector);
        bits | 0x8000_0000_0000_0000u64
    }
}

/// The sort key of a primitive on one axis. A key holds, for x, y and z, an integer whose
/// order is the order of the lower bounds of the primitive's bounding box on that axis.
pub open spec fn key_on(key: (u64, u64, u64), axis: usize) -> u64 {
    if axis == 0 {
        key.0
    } else if axis == 1 {
        key.1
    } else {
        key.2
    }
}

fn key_at(key: (u64, u64, u64), axis: usize) -> (r: u64)
    ensures
        r == key_on(key, axis),
{
    if axis == 0 {
        key.0
    } else if axis == 1 {
        key.1
    } else {
        key.2
    }
}

/// The key of the primitive at position `i` of `s`.
pub open spec fn key_of(s: Seq<usize>, keys: Seq<(u64, u64, u64)>, axis: usize, i: int) -> u64 {
    key_on(keys[s[i] as int], axis)
}

/// Positions `lo..hi` of `s` are in ascending key order on `axis`.
pub open spec fn sorted_between(
    s: Seq<usize>,
    keys: Seq<(u64, u64, u64)>,
    axis: usize,
    lo: int,
    hi: int,
) -> bool {
    forall|a: int, b: int|
        lo <= a < b < hi ==> #[trigger] key_of(s, keys, axis, a) <= #[trigger] key_of(
            s,
            keys,
            axis,
            b,
        )
}

/// Every primitive named in `s` has a key.
pub open spec fn all_keyed(s: Seq<usize>, n: nat) -> bool {
    forall|k: int| 0 <= k < s.len() ==> #[trigger] s[k] < n
}

/// `t` equals `s` outside positions `lo..hi`.
pub open spec fn same_outside(s: Seq<usize>, t: Seq<usize>, lo: int, hi: int) -> bool {
    &&& t.len() == s.len()
    &&& forall|k: int| 0 <= k < s.len() && !(lo <= k < hi) ==> #[trigger] t[k] == s[k]
}

/// A node of a bounding-volume hierarchy over primitives named by index. The boxes
/// themselves are kept by whoever owns the primitives; this is the tree's shape.
pub enum BVHNode {
    /// One primitive, a child of a split.
    Primitive { index: usize },
    /// An inner node: its children were separated along `axis`.
    Split { axis: usize, left: Box<BVHNode>, right: Box<BVHNode> },
}

impl BVHNode {
    /// The primitives at the bottom of the tree, left to right, each as often as it is
    /// referenced.
    pub open spec fn leaves(self) -> Seq<usize>
        decreases self,
    {
        match self {
            BVHNode::Primitive { index } => seq![index],
            BVHNode::Split { left, right, .. } => left.leaves() + right.leaves(),
        }
    }

    /// A split whose two children are the primitives `p` and `q`.
    pub open spec fn splits_into(self, p: usize, q: usize) -> bool {
        &&& self matches BVHNode::Split { left, right, .. }
        &&& left.leaf_index() == Some(p)
        &&& right.leaf_index() == Some(q)
    }

    /// The primitive of a leaf.
    pub open spec fn leaf_index(self) -> Option<usize> {
        match self {
            BVHNode::Primitive { index } => Some(index),
            BVHNode::Split { .. } => None,
        }
    }

    /// The tree is the one built over the arrangement `s`: one primitive is a split whose
    /// two children are that primitive, two are a split over the two, and more are a
    /// split over the trees built on the two halves at the midpoint.
    pub open spec fn built_over(self, s: Seq<usize>) -> bool
        decreases self,
    {
        match self {
            BVHNode::Primitive { .. } => false,
            BVHNode::Split { left, right, .. } => {
                if s.len() == 1 {
                    self.splits_into(s[0], s[0])
                } else if s.len() == 2 {
                    self.splits_into(s[0], s[1])
                } else {
                    s.len() > 2 && left.built_over(s.subrange(0, s.len() as int / 2)) && right.built_over(
                        s.subrange(s.len() as int / 2, s.len() as int),
                    )
                }
            },
        }
    }

    /// At every split, each primitive on the left has a key on the split's axis no larger
    /// than that of each primitive on the right.
    pub open spec fn ordered(self, keys: Seq<(u64, u64, u64)>) -> bool
        decreases self,
    {
        match self {
            BVHNode::Primitive { .. } => true,
            BVHNode::Split { axis, left, right } => {
                &&& axis < 3
                &&& left.ordered(keys)
                &&& right.ordered(keys)
                &&& forall|p: usize, q: usize|
                    #[trigger] left.leaves().contains(p) && #[trigger] right.leaves().contains(q)
                        ==> key_on(keys[p as int], axis) <= key_on(keys[q as int], axis)
            },
        }
    }

    /// Builds the hierarchy over the primitives `prims`, reordering them: at each node an
    /// axis is drawn at random, the node's primitives are sorted by their key on it, and the
    /// sorted run is split at its midpoint.
    pub fn new(prims: &mut Vec<usize>, keys: &Vec<(u64, u64, u64)>) -> (r: BVHNode)
        requires
            old(prims).len() >= 1,
            all_keyed(old(prims)@, keys.len() as nat),
        ensures
            final(prims)@.to_multiset() == old(prims)@.to_multiset(),
            r.built_over(final(prims)@),
            r.ordered(keys@),
            old(prims).len() == 1 ==> r.splits_into(old(prims)[0], old(prims)[0]),
            old(prims).len() == 2 ==> r.splits_into(final(prims)[0], final(prims)[1]),
    {
        let n = prims.len();
        let r = build_range(prims, keys, 0, n);
        proof {
            assert(prims@.subrange(0, n as int) =~= prims@);
            assert(old(prims)@.subrange(0, n as int) =~= old(prims)@);
            if n == 1 {
                lemma_single_multiset(old(prims)@, prims@);
            }
        }
        r
    }
}

/// Two sequences of one element with the same multiset are equal.
proof fn lemma_single_multiset(s: Seq<usize>, t: Seq<usize>)
    requires
        s.len() == 1,
        t.to_multiset() == s.to_multiset(),
    ensures
        t =~= s,
{
    assert(s.to_multiset().count(s[0]) > 0);
    assert(t.contains(s[0]));
    assert(t.to_multiset().len() == t.len());
    assert(s.to_multiset().len() == s.len());
    assert(t.len() == 1);
}

/// The only element of a one-element sequence.
proof fn lemma_single_contains(p: usize, x: usize)
    requires
        seq![p].contains(x),
    ensures
        x == p,
{
    let i = choose|i: int| 0 <= i < 1 && seq![p][i] == x;
    assert(i == 0);
}

/// Exchanging two positions inside `lo..hi` keeps the multiset of that range.
proof fn lemma_swap_keeps_multiset(s: Seq<usize>, lo: int, hi: int, a: int, b: int)
    requires
        0 <= lo <= a < b < hi <= s.len(),
    ensures
        s.update(a, s[b]).update(b, s[a]).subrange(lo, hi).to_multiset() == s.subrange(
            lo,
            hi,
        ).to_multiset(),
{
    let t = s.subrange(lo, hi);
    let u = t.update(a - lo, t[b - lo]);
    assert(s.update(a, s[b]).update(b, s[a]).subrange(lo, hi) =~= u.update(b - lo, t[a - lo]));
    assert(u.update(b - lo, t[a - lo]).to_multiset() =~= t.to_multiset());
}

/// The multiset of `lo..hi` is that of `lo..mid` and `mid..hi` together.
proof fn lemma_split_multiset(s: Seq<usize>, lo: int, mid: int, hi: int)
    requires
        0 <= lo <= mid <= hi <= s.len(),
    ensures
        s.subrange(lo, hi).to_multiset() == s.subrange(lo, mid).to_multiset().add(
            s.subrange(mid, hi).to_multiset(),
        ),
{
    assert(s.subrange(lo, hi) =~= s.subrange(lo, mid) + s.subrange(mid, hi));
    lemma_multiset_commutative(s.subrange(lo, mid), s.subrange(mid, hi));
}

/// Sorts positions `lo..hi` of `prims` by key on `axis`, by insertion.
fn sort_range(
    prims: &mut Vec<usize>,
    keys: &Vec<(u64, u64, u64)>,
    axis: usize,
    lo: usize,
    hi: usize,
)
    requires
        lo <= hi <= old(prims).len(),
        axis < 3,
        all_keyed(old(prims)@, keys.len() as nat),
    ensures
        same_outside(old(prims)@, final(prims)@, lo as int, hi as int),
        final(prims)@.subrange(lo as int, hi as int).to_multiset() == old(prims)@.subrange(
            lo as int,
            hi as int,
        ).to_multiset(),
        all_keyed(final(prims)@, keys.len() as nat),
        sorted_between(final(prims)@, keys@, axis, lo as int, hi as int),
{
    if hi - lo < 2 {
        return;
    }
    let ghost orig = prims@;
    let mut i: usize = lo + 1;
    while i < hi
        invariant
            lo < i <= hi <= prims.len(),
            axis < 3,
            same_outside(orig, prims@, lo as int, hi as int),
            prims@.subrange(lo as int, hi as int).to_multiset() == orig.subrange(
                lo as int,
                hi as int,
            ).to_multiset(),
            all_keyed(prims@, keys.len() as nat),
            sorted_between(prims@, keys@, axis, lo as int, i as int),
        decreases hi - i,
    {
        let mut j: usize = i;
        while j > lo && key_at(keys[prims[j - 1]], axis) > key_at(keys[prims[j]], axis)
            invariant
                lo <= j <= i < hi <= prims.len(),
                axis < 3,
                same_outside(orig, prims@, lo as int, hi as int),
                prims@.subrange(lo as int, hi as int).to_multiset() == orig.subrange(
                    lo as int,
                    hi as int,
                ).to_multiset(),
                all_keyed(prims@, keys.len() as nat),
                forall|a: int, b: int|
                    lo <= a < b <= i && a != j && b != j ==> #[trigger] key_of(
                        prims@,
                        keys@,
                        axis,
                        a,
                    ) <= #[trigger] key_of(prims@, keys@, axis, b),
                forall|b: int|
                    j < b <= i ==> key_of(prims@, keys@, axis, j as int) <= #[trigger] key_of(
                        prims@,
                        keys@,
                        axis,
                        b,
                    ),
            decreases j,
        {
            let x = prims[j - 1];
            let y = prims[j];
            let ghost pre = prims@;
            proof {
                lemma_swap_keeps_multiset(prims@, lo as int, hi as int, j - 1, j as int);
            }
            prims[j - 1] = y;
            prims[j] = x;
            proof {
                assert(prims@ == pre.update(j - 1, y).update(j as int, x));
                assert forall|a: int, b: int|
                    lo <= a < b <= i && a != j - 1 && b != j - 1 implies #[trigger] key_of(
                    prims@,
                    keys@,
                    axis,
                    a,
                ) <= #[trigger] key_of(prims@, keys@, axis, b) by {
                    let a0 = if a == j {
                        j - 1
                    } else {
                        a
                    };
                    let b0 = if b == j {
                        j - 1
                    } else {
                        b
                    };
                    assert(key_of(prims@, keys@, axis, a) == key_of(pre, keys@, axis, a0));
                    assert(key_of(prims@, keys@, axis, b) == key_of(pre, keys@, axis, b0));
                }
                assert forall|b: int| j - 1 < b <= i implies key_of(prims@, keys@, axis, j - 1)
                    <= #[trigger] key_of(prims@, keys@, axis, b) by {
                    if b > j {
                        assert(key_of(prims@, keys@, axis, b) == key_of(pre, keys@, axis, b));
                        assert(key_of(pre, keys@, axis, j as int) <= key_of(pre, keys@, axis, b));
                    }
                }
            }
            j = j - 1;
        }
        proof {
            assert forall|a: int, b: int|
                lo <= a < b < i + 1 implies #[trigger] key_of(prims@, keys@, axis, a)
                <= #[trigger] key_of(prims@, keys@, axis, b) by {
                if b == j && a < j - 1 {
                    assert(key_of(prims@, keys@, axis, a) <= key_of(
                        prims@,
                        keys@,
                        axis,
                        j - 1,
                    ));
                }
            }
        }
        i = i + 1;
    }
}

/// Builds the tree over positions `lo..hi` of `prims`, reordering only those positions.
fn build_range(prims: &mut Vec<usize>, keys: &Vec<(u64, u64, u64)>, lo: usize, hi: usize) -> (r:
    BVHNode)
    requires
        lo < hi <= old(prims).len(),
        all_keyed(old(prims)@, keys.len() as nat),
    ensures
        same_outside(old(prims)@, final(prims)@, lo as int, hi as int),
        final(prims)@.subrange(lo as int, hi as int).to_multiset() == old(prims)@.subrange(
            lo as int,
            hi as int,
        ).to_multiset(),
        all_keyed(final(prims)@, keys.len() as nat),
        r.built_over(final(prims)@.subrange(lo as int, hi as int)),
        r.ordered(keys@),
    decreases hi - lo,
{
    let axis = random_axis();
    sort_range(prims, keys, axis, lo, hi);
    let n = hi - lo;
    if n == 1 {
        let p = prims[lo];
        let r = BVHNode::Split {
            axis,
            left: Box::new(BVHNode::Primitive { index: p }),
            right: Box::new(BVHNode::Primitive { index: p }),
        };
        proof {
            assert(r.built_over(prims@.subrange(lo as int, hi as int)));
            assert forall|pa: usize, qa: usize|
                #[trigger] seq![p].contains(pa) && #[trigger] seq![p].contains(qa) implies key_on(
                keys@[pa as int],
                axis,
            ) <= key_on(keys@[qa as int], axis) by {
                lemma_single_contains(p, pa);
                lemma_single_contains(p, qa);
            }
            assert(BVHNode::Primitive { index: p }.leaves() == seq![p]);
            assert(BVHNode::Primitive { index: p }.ordered(keys@));
            assert(r.ordered(keys@));
        }
        r
    } else if n == 2 {
        let p = prims[lo];
        let q = prims[lo + 1];
        let r = BVHNode::Split {
            axis,
            left: Box::new(BVHNode::Primitive { index: p }),
            right: Box::new(BVHNode::Primitive { index: q }),
        };
        proof {
            assert(key_of(prims@, keys@, axis, lo as int) <= key_of(
                prims@,
                keys@,
                axis,
                lo + 1,
            ));
            assert(r.built_over(prims@.subrange(lo as int, hi as int)));
            assert forall|pa: usize, qa: usize|
                #[trigger] seq![p].contains(pa) && #[trigger] seq![q].contains(qa) implies key_on(
                keys@[pa as int],
                axis,
            ) <= key_on(keys@[qa as int], axis) by {
                lemma_single_contains(p, pa);
                lemma_single_contains(q, qa);
            }
            assert(BVHNode::Primitive { index: p }.leaves() == seq![p]);
            assert(BVHNode::Primitive { index: q }.leaves() == seq![q]);
            assert(BVHNode::Primitive { index: p }.ordered(keys@));
            assert(BVHNode::Primitive { index: q }.ordered(keys@));
            assert(r.ordered(keys@));
        }
        r
    } else {
        let mid = lo + n / 2;
        let ghost sorted = prims@;
        let left = build_range(prims, keys, lo, mid);
        let ghost after_left = prims@;
        let right = build_range(prims, keys, mid, hi);
        proof {
            let s = prims@.subrange(lo as int, hi as int);
            assert(s.subrange(0, s.len() as int / 2) =~= prims@.subrange(lo as int, mid as int));
            assert(s.subrange(s.len() as int / 2, s.len() as int) =~= prims@.subrange(
                mid as int,
                hi as int,
            ));
            assert(prims@.subrange(lo as int, mid as int) =~= after_left.subrange(
                lo as int,
                mid as int,
            ));
            assert(after_left.subrange(mid as int, hi as int) =~= sorted.subrange(
                mid as int,
                hi as int,
            ));
            lemma_split_multiset(prims@, lo as int, mid as int, hi as int);
            lemma_split_multiset(sorted, lo as int, mid as int, hi as int);
            lemma_built_over_covers(left, prims@.subrange(lo as int, mid as int));
            lemma_built_over_covers(right, prims@.subrange(mid as int, hi as int));
            assert forall|p: usize, q: usize|
                #[trigger] left.leaves().contains(p) && #[trigger] right.leaves().contains(
                    q,
                ) implies key_on(keys@[p as int], axis) <= key_on(keys@[q as int], axis) by {
                let ls = sorted.subrange(lo as int, mid as int);
                let rs = sorted.subrange(mid as int, hi as int);
                assert(prims@.subrange(lo as int, mid as int).to_multiset().count(p) > 0);
                assert(ls.to_multiset().count(p) > 0);
                assert(prims@.subrange(mid as int, hi as int).to_multiset().count(q) > 0);
                assert(rs.to_multiset().count(q) > 0);
                let a = choose|a: int| 0 <= a < ls.len() && ls[a] == p;
                let b = choose|b: int| 0 <= b < rs.len() && rs[b] == q;
                assert(key_of(sorted, keys@, axis, lo + a) <= key_of(
                    sorted,
                    keys@,
                    axis,
                    mid + b,
                ));
            }
        }
        let r = BVHNode::Split { axis, left: Box::new(left), right: Box::new(right) };
        assert(r.ordered(keys@));
        r
    }
}

/// A tree built over an arrangement reaches exactly the primitives of that arrangement.
proof fn lemma_built_over_covers(t: BVHNode, s: Seq<usize>)
    requires
        t.built_over(s),
    ensures
        forall|p: usize| #[trigger] t.leaves().contains(p) <==> s.contains(p),
    decreases t,
{
    match t {
        BVHNode::Primitive { .. } => {},
        BVHNode::Split { left, right, .. } => {
            if s.len() == 1 {
                assert(left.leaves() =~= seq![s[0]]);
                assert(right.leaves() =~= seq![s[0]]);
                assert(s =~= seq![s[0]]);
                assert forall|p: usize| #[trigger] t.leaves().contains(p) <==> s.contains(p) by {
                    lemma_seq_concat_contains_all_elements(left.leaves(), right.leaves(), p);
                    if s.contains(p) {
                        lemma_single_contains(s[0], p);
                        assert(left.leaves()[0] == p);
                    }
                    if left.leaves().contains(p) {
                        lemma_single_contains(s[0], p);
                        assert(s[0] == p);
                    }
                    if right.leaves().contains(p) {
                        lemma_single_contains(s[0], p);
                        assert(s[0] == p);
                    }
                }
            } else if s.len() == 2 {
                assert(left.leaves() =~= seq![s[0]]);
                assert(right.leaves() =~= seq![s[1]]);
                assert(t.leaves() =~= s);
            } else {
                let h = s.len() as int / 2;
                let l = s.subrange(0, h);
                let r = s.subrange(h, s.len() as int);
                lemma_built_over_covers(*left, l);
                lemma_built_over_covers(*right, r);
                assert(s =~= l + r);
                assert forall|p: usize| #[trigger] t.leaves().contains(p) <==> s.contains(p) by {
                    lemma_seq_concat_contains_all_elements(left.leaves(), right.leaves(), p);
                    lemma_seq_concat_contains_all_elements(l, r, p);
                }
            }
        },
    }
}

/// Every primitive handed to the hierarchy is reached by it, and nothing else is: a tree
/// built over a reordering of `input` has exactly the primitives of `input` at its leaves.
pub proof fn lemma_bvh_reaches_every_primitive(input: Seq<usize>, arranged: Seq<usize>, t: BVHNode)
    requires
        arranged.to_multiset() == input.to_multiset(),
        t.built_over(arranged),
    ensures
        forall|p: usize| #[trigger] t.leaves().contains(p) <==> input.contains(p),
{
    lemma_built_over_covers(t, arranged);
    assert forall|p: usize| #[trigger] t.leaves().contains(p) <==> input.contains(p) by {
        assert(arranged.contains(p) <==> arranged.to_multiset().count(p) > 0);
        assert(input.contains(p) <==> input.to_multiset().count(p) > 0);
    }
}


/// The nearer of two optional hit distances; a miss loses to any hit.
pub open spec fn closer(a: Option<int>, b: Option<int>) -> Option<int> {
    match (a, b) {
        (Some(x), Some(y)) => if y < x {
            Some(y)
        } else {
            Some(x)
        },
        (Some(x), None) => Some(x),
        (None, _) => b,
    }
}

/// The nearest hit found by a linear scan over `s`, where `d` gives the distance at which
/// the ray hits each primitive, if it does.
pub open spec fn scan_nearest(s: Seq<usize>, d: spec_fn(usize) -> Option<int>) -> Option<int>
    decreases s.len(),
{
    if s.len() == 0 {
        None
    } else {
        closer(scan_nearest(s.drop_last(), d), d(s.last()))
    }
}

/// `r` is the nearest hit among the primitives of `s`: none when no primitive is hit, else
/// a distance at which one is hit and that no hit undercuts.
pub open spec fn is_nearest(r: Option<int>, s: Seq<usize>, d: spec_fn(usize) -> Option<int>) -> bool {
    &&& (r is None <==> forall|p: usize| #[trigger] s.contains(p) ==> d(p) is None)
    &&& forall|m: int|
        r == Some(m) ==> (exists|p: usize| #[trigger] s.contains(p) && d(p) == Some(m))
            && forall|p: usize| #[trigger] s.contains(p) && d(p) is Some ==> m <= d(p)->0
}

impl BVHNode {
    /// The nearest hit a traversal reports when it visits both children of every split
    /// and keeps the nearer of their answers.
    pub open spec fn nearest(self, d: spec_fn(usize) -> Option<int>) -> Option<int>
        decreases self,
    {
        match self {
            BVHNode::Primitive { index } => d(index),
            BVHNode::Split { left, right, .. } => closer(left.nearest(d), right.nearest(d)),
        }
    }
}

proof fn lemma_closer_is_nearest(
    ra: Option<int>,
    sa: Seq<usize>,
    rb: Option<int>,
    sb: Seq<usize>,
    d: spec_fn(usize) -> Option<int>,
)
    requires
        is_nearest(ra, sa, d),
        is_nearest(rb, sb, d),
    ensures
        is_nearest(closer(ra, rb), sa + sb, d),
{
    assert forall|p: usize| #[trigger] (sa + sb).contains(p) <==> sa.contains(p) || sb.contains(p) by {
        lemma_seq_concat_contains_all_elements(sa, sb, p);
    }
    let r = closer(ra, rb);
    let s = sa + sb;
    if r is None {
        assert forall|p: usize| #[trigger] s.contains(p) implies d(p) is None by {
            if sa.contains(p) {
                assert(d(p) is None);
            } else {
                assert(sb.contains(p));
            }
        }
    } else {
        if ra is Some {
            let p = choose|p: usize| #[trigger] sa.contains(p) && d(p) == ra;
            assert(s.contains(p) && d(p) is Some);
        } else {
            let p = choose|p: usize| #[trigger] sb.contains(p) && d(p) == rb;
            assert(s.contains(p) && d(p) is Some);
        }
    }
    assert forall|m: int| r == Some(m) implies (exists|p: usize| #[trigger] s.contains(p) && d(p)
        == Some(m)) && forall|p: usize| #[trigger] s.contains(p) && d(p) is Some ==> m <= d(
        p,
    )->0 by {
        if ra == Some(m) {
            let p = choose|p: usize| #[trigger] sa.contains(p) && d(p) == Some(m);
            assert(s.contains(p));
        } else {
            let p = choose|p: usize| #[trigger] sb.contains(p) && d(p) == Some(m);
            assert(s.contains(p));
        }
        assert forall|p: usize| #[trigger] s.contains(p) && d(p) is Some implies m <= d(p)->0 by {
            if sa.contains(p) {
                assert(ra is Some);
                assert(ra->0 <= d(p)->0);
            } else {
                assert(sb.contains(p));
                assert(rb is Some);
                assert(rb->0 <= d(p)->0);
            }
        }
    }
}

proof fn lemma_single_is_nearest(p: usize, d: spec_fn(usize) -> Option<int>)
    ensures
        is_nearest(d(p), seq![p], d),
{
    assert(seq![p][0] == p);
    assert(seq![p].contains(p));
    assert forall|q: usize| #[trigger] seq![p].contains(q) implies q == p by {
        lemma_single_contains(p, q);
    }
}

/// A traversal that compares the children's answers finds the nearest hit among the
/// tree's leaves.
proof fn lemma_tree_nearest(t: BVHNode, d: spec_fn(usize) -> Option<int>)
    ensures
        is_nearest(t.nearest(d), t.leaves(), d),
    decreases t,
{
    match t {
        BVHNode::Primitive { index } => {
            lemma_single_is_nearest(index, d);
        },
        BVHNode::Split { left, right, .. } => {
            lemma_tree_nearest(*left, d);
            lemma_tree_nearest(*right, d);
            lemma_closer_is_nearest(left.nearest(d), left.leaves(), right.nearest(d), right.leaves(), d);
        },
    }
}

/// A linear scan finds the nearest hit among the primitives it scans.
proof fn lemma_scan_nearest(s: Seq<usize>, d: spec_fn(usize) -> Option<int>)
    ensures
        is_nearest(scan_nearest(s, d), s, d),
    decreases s.len(),
{
    if s.len() == 0 {
        assert forall|p: usize| #[trigger] s.contains(p) implies d(p) is None by {}
    } else {
        lemma_scan_nearest(s.drop_last(), d);
        lemma_single_is_nearest(s.last(), d);
        lemma_closer_is_nearest(scan_nearest(s.drop_last(), d), s.drop_last(), d(s.last()), seq![s.last()], d);
        assert(s.drop_last() + seq![s.last()] =~= s);
    }
}

/// There is only one nearest hit.
proof fn lemma_nearest_unique(r1: Option<int>, r2: Option<int>, s: Seq<usize>, d: spec_fn(usize) -> Option<int>)
    requires
        is_nearest(r1, s, d),
        is_nearest(r2, s, d),
    ensures
        r1 == r2,
{
    if r1 is Some && r2 is Some {
        let m1 = r1->0;
        let m2 = r2->0;
        let pa = choose|p: usize| #[trigger] s.contains(p) && d(p) == Some(m1);
        let pb = choose|p: usize| #[trigger] s.contains(p) && d(p) == Some(m2);
        assert(m1 <= m2 && m2 <= m1);
    }
}

/// The hierarchy is sound: for any distances at which the ray hits the primitives, the
/// nearest hit that a traversal of a tree built over a reordering of `input` reports, comparing
/// the two children at every split, is the nearest hit of a linear scan over `input`.
pub proof fn lemma_bvh_nearest_equals_scan(
    input: Seq<usize>,
    arranged: Seq<usize>,
    t: BVHNode,
    d: spec_fn(usize) -> Option<int>,
)
    requires
        arranged.to_multiset() == input.to_multiset(),
        t.built_over(arranged),
    ensures
        t.nearest(d) == scan_nearest(input, d),
{
    lemma_bvh_reaches_every_primitive(input, arranged, t);
    lemma_tree_nearest(t, d);
    lemma_scan_nearest(input, d);
    let r = t.nearest(d);
    assert(is_nearest(r, input, d)) by {
        assert forall|p: usize| #[trigger] input.contains(p) implies t.leaves().contains(p) by {}
        if r is None {
            assert forall|p: usize| #[trigger] input.contains(p) implies d(p) is None by {
                assert(t.leaves().contains(p));
            }
        } else {
            let m = r->0;
            assert(r == Some(m));
            let p = choose|p: usize| #[trigger] t.leaves().contains(p) && d(p) == Some(m);
            assert(input.contains(p));
        }
        assert forall|m: int| r == Some(m) implies (exists|p: usize| #[trigger] input.contains(p)
            && d(p) == Some(m)) && forall|p: usize| #[trigger] input.contains(p) && d(p) is Some
            ==> m <= d(p)->0 by {
            let p = choose|p: usize| #[trigger] t.leaves().contains(p) && d(p) == Some(m);
            assert(input.contains(p));
            assert forall|q: usize| #[trigger] input.contains(q) && d(q) is Some implies m <= d(
                q,
            )->0 by {
                assert(t.leaves().contains(q));
            }
        }
    }
    lemma_nearest_unique(r, scan_nearest(input, d), input, d);
}

} // verus!
