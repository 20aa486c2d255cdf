//! Multiway tree nodes: sorted keys, the parallel element indices, and the
//! child nodes. A node holds at most `ORDER` keys; a node that has grown to
//! `ORDER` keys is split around its median before it is descended into.

use crate::element::{Element, ElementPool, Link};
use crate::fixed::weight_spec;
use crate::text::{dec_digits, dec_int, i64_dec, u64_dec};
use vstd::string::StringExecFns;
use vstd::prelude::*;

verus! {

/// One stored key together with the index of the element that carries it.
pub ghost struct Entry {
    pub key: i32,
    pub eid: int,
}

/// Strictly ascending keys.
pub open spec fn entries_sorted(s: Seq<Entry>) -> bool {
    forall|a: int, b: int| 0 <= a < b < s.len() ==> s[a].key < s[b].key
}

/// Every key in the run lies strictly below `key`.
pub open spec fn all_keys_lt(s: Seq<Entry>, key: i32) -> bool {
    forall|j: int| 0 <= j < s.len() ==> (#[trigger] s[j]).key < key
}

/// Every key in the run lies strictly above `key`.
pub open spec fn all_keys_gt(s: Seq<Entry>, key: i32) -> bool {
    forall|j: int| 0 <= j < s.len() ==> (#[trigger] s[j]).key > key
}

/// Every entry names an element of the pool that carries the entry's key.
pub open spec fn keys_match(s: Seq<Entry>, pool: Seq<Element>) -> bool {
    forall|i: int|
        0 <= i < s.len() ==> 0 <= #[trigger] s[i].eid < pool.len() && pool[s[i].eid].key
            == s[i].key
}

/// The middle run of a sorted concatenation is sorted.
pub proof fn lemma_sorted_middle(a: Seq<Entry>, b: Seq<Entry>, c: Seq<Entry>)
    requires
        entries_sorted(a + b + c),
    ensures
        entries_sorted(b),
{
    let s = a + b + c;
    assert forall|i: int, j: int| 0 <= i < j < b.len() implies b[i].key < b[j].key by {
        assert(b[i] == s[a.len() + i]);
        assert(b[j] == s[a.len() + j]);
    }
}

/// How the pool changes when a fresh element is spliced into the chain at
/// global position `gpos` of the run `all`: the new element at the end of the
/// pool carries `key` once, its links point at the run's neighbours with
/// weights drawn from `range`, the neighbours' facing links are redirected to
/// it, and every other element is untouched.
pub open spec fn splice_ok(
    p0: Seq<Element>,
    p1: Seq<Element>,
    all: Seq<Entry>,
    gpos: int,
    key: i32,
    range: int,
) -> bool {
    let ne = p0.len() as int;
    &&& p1.len() == p0.len() + 1
    &&& p1[ne].key == key
    &&& p1[ne].counter == 1
    &&& p1[ne].activation == 0
    &&& p1[ne].definitions@ == Seq::<u64>::empty()
    &&& p1[ne].prev == (if gpos > 0 {
        Some(
            Link {
                to: all[gpos - 1].eid as usize,
                weight: weight_spec(key as int, all[gpos - 1].key as int, range),
            },
        )
    } else {
        None::<Link>
    })
    &&& p1[ne].next == (if gpos < all.len() {
        Some(
            Link {
                to: all[gpos].eid as usize,
                weight: weight_spec(key as int, all[gpos].key as int, range),
            },
        )
    } else {
        None::<Link>
    })
    &&& (gpos > 0 ==> p1[all[gpos - 1].eid].next == Some(
        Link {
            to: ne as usize,
            weight: weight_spec(key as int, all[gpos - 1].key as int, range),
        },
    ) && p1[all[gpos - 1].eid].prev == p0[all[gpos - 1].eid].prev && p1[all[gpos
        - 1].eid].same_but_links(p0[all[gpos - 1].eid]))
    &&& (gpos < all.len() ==> p1[all[gpos].eid].prev == Some(
        Link { to: ne as usize, weight: weight_spec(key as int, all[gpos].key as int, range) },
    ) && p1[all[gpos].eid].next == p0[all[gpos].eid].next && p1[all[gpos].eid].same_but_links(
        p0[all[gpos].eid],
    ))
    &&& (forall|e: int|
        0 <= e < ne && (gpos <= 0 || e != all[gpos - 1].eid) && (gpos >= all.len() || e != all[
            gpos
        ].eid) ==> p1[e] == #[trigger] p0[e])
}

/// How the pool changes when an existing element's key is inserted again:
/// only that element's counter moves, by one.
pub open spec fn bump_ok(p0: Seq<Element>, p1: Seq<Element>, eid: int) -> bool {
    &&& p1.len() == p0.len()
    &&& 0 <= eid < p0.len()
    &&& p1[eid].counter == p0[eid].counter + 1
    &&& p1[eid].key == p0[eid].key
    &&& p1[eid].activation == p0[eid].activation
    &&& p1[eid].prev == p0[eid].prev
    &&& p1[eid].next == p0[eid].next
    &&& p1[eid].definitions@ == p0[eid].definitions@
    &&& (forall|e: int| 0 <= e < p0.len() && e != eid ==> p1[e] == #[trigger] p0[e])
}

pub struct BNode {
    pub keys: Vec<i32>,
    pub elems: Vec<usize>,
    pub children: Vec<BNode>,
}

impl BNode {
    /// The node's own entries, in key order.
    pub open spec fn kv(self) -> Seq<Entry> {
        Seq::new(
            self.keys@.len(),
            |j: int| Entry { key: self.keys@[j], eid: self.elems@[j] as int },
        )
    }

    /// Structural well-formedness: parallel slices, the capacity bound, a
    /// child on each side of every key for internal nodes, and the minimum
    /// fill of every non-root node — the smaller half of a split,
    /// `order - order / 2 - 1` keys.
    pub open spec fn wf(self, order: int) -> bool
        decreases self, 0int,
    {
        &&& self.keys@.len() == self.elems@.len()
        &&& self.keys@.len() <= order
        &&& (self.children@.len() == 0 || self.children@.len() == self.keys@.len() + 1)
        &&& (forall|j: int|
            0 <= j < self.children@.len() ==> (#[trigger] self.children@[j]).wf(order))
        &&& (forall|j: int|
            0 <= j < self.children@.len() ==> (#[trigger] self.children@[j]).keys@.len() >= order
                - order / 2 - 1)
    }

    /// The in-order sequence of all entries of the subtree.
    pub open spec fn entries(self) -> Seq<Entry>
        decreases self, 0int,
    {
        if self.children@.len() == 0 {
            self.kv()
        } else {
            Self::inter(self.children@, self.kv(), 0)
        }
    }

    /// In-order interleaving of children and keys, from child `i` onward.
    pub open spec fn inter(c: Seq<BNode>, kv: Seq<Entry>, i: int) -> Seq<Entry>
        decreases c, c.len() - i,
    {
        if i < 0 || i >= c.len() {
            Seq::empty()
        } else if i < kv.len() {
            c[i].entries() + seq![kv[i]] + Self::inter(c, kv, i + 1)
        } else {
            c[i].entries() + Self::inter(c, kv, i + 1)
        }
    }

    /// In-order interleaving of children and keys strictly before child `i`.
    pub open spec fn pre(c: Seq<BNode>, kv: Seq<Entry>, i: int) -> Seq<Entry>
        decreases c, i,
    {
        if i <= 0 {
            Seq::empty()
        } else {
            Self::pre(c, kv, i - 1) + c[i - 1].entries() + seq![kv[i - 1]]
        }
    }

    /// Height of the subtree: zero at the leaves.
    pub open spec fn height(self) -> nat
        decreases self, 0int,
    {
        if self.children@.len() == 0 {
            0
        } else {
            1 + Self::height_max(self.children@, 0)
        }
    }

    pub open spec fn height_max(c: Seq<BNode>, i: int) -> nat
        decreases c, c.len() - i,
    {
        if i < 0 || i >= c.len() {
            0
        } else {
            let h = c[i].height();
            let rest = Self::height_max(c, i + 1);
            if h >= rest {
                h
            } else {
                rest
            }
        }
    }

    /// `inter` from `0` splits at any child position into `pre` and the rest.
    pub proof fn lemma_pre_inter(c: Seq<BNode>, kv: Seq<Entry>, j: int)
        requires
            c.len() == kv.len() + 1,
            0 <= j < c.len(),
        ensures
            Self::inter(c, kv, 0) == Self::pre(c, kv, j) + Self::inter(c, kv, j),
        decreases j,
    {
        if j == 0 {
            assert(Self::pre(c, kv, 0) + Self::inter(c, kv, 0) =~= Self::inter(c, kv, 0));
        } else {
            Self::lemma_pre_inter(c, kv, j - 1);
            assert(Self::inter(c, kv, j - 1) == c[j - 1].entries() + seq![kv[j - 1]] + Self::inter(
                c,
                kv,
                j,
            ));
            assert(Self::pre(c, kv, j - 1) + (c[j - 1].entries() + seq![kv[j - 1]] + Self::inter(
                c,
                kv,
                j,
            )) =~= (Self::pre(c, kv, j - 1) + c[j - 1].entries() + seq![kv[j - 1]]) + Self::inter(
                c,
                kv,
                j,
            ));
        }
    }

    /// `inter` depends only on the children and keys from its start onward.
    pub proof fn lemma_inter_congr(
        c1: Seq<BNode>,
        kv1: Seq<Entry>,
        i1: int,
        c2: Seq<BNode>,
        kv2: Seq<Entry>,
        i2: int,
    )
        requires
            0 <= i1 <= c1.len(),
            0 <= i2 <= c2.len(),
            c1.len() - i1 == c2.len() - i2,
            kv1.len() - i1 == kv2.len() - i2,
            forall|d: int| 0 <= d < c1.len() - i1 ==> c1[i1 + d] == #[trigger] c2[i2 + d],
            forall|d: int|
                0 <= d < kv1.len() - i1 && 0 <= i1 + d ==> kv1[i1 + d] == #[trigger] kv2[i2 + d],
        ensures
            Self::inter(c1, kv1, i1) == Self::inter(c2, kv2, i2),
        decreases c1.len() - i1,
    {
        if i1 < c1.len() {
            assert(c1[i1 + 0] == c2[i2 + 0]);
            if i1 < kv1.len() && 0 <= i1 {
                assert(kv1[i1 + 0] == kv2[i2 + 0]);
            }
            assert forall|d: int| 0 <= d < c1.len() - (i1 + 1) implies c1[(i1 + 1) + d]
                == #[trigger] c2[(i2 + 1) + d] by {
                assert(c1[i1 + (d + 1)] == c2[i2 + (d + 1)]);
            }
            assert forall|d: int| 0 <= d < kv1.len() - (i1 + 1) && 0 <= (i1 + 1) + d implies kv1[(i1
                + 1) + d] == #[trigger] kv2[(i2 + 1) + d] by {
                assert(kv1[i1 + (d + 1)] == kv2[i2 + (d + 1)]);
            }
            Self::lemma_inter_congr(c1, kv1, i1 + 1, c2, kv2, i2 + 1);
        }
    }

    /// `pre` depends only on the children and keys before its end.
    pub proof fn lemma_pre_congr(
        c1: Seq<BNode>,
        kv1: Seq<Entry>,
        c2: Seq<BNode>,
        kv2: Seq<Entry>,
        j: int,
    )
        requires
            0 <= j <= c1.len(),
            j <= c2.len(),
            j <= kv1.len(),
            j <= kv2.len(),
            forall|d: int| 0 <= d < j ==> c1[d] == #[trigger] c2[d],
            forall|d: int| 0 <= d < j ==> kv1[d] == #[trigger] kv2[d],
        ensures
            Self::pre(c1, kv1, j) == Self::pre(c2, kv2, j),
        decreases j,
    {
        if j > 0 {
            Self::lemma_pre_congr(c1, kv1, c2, kv2, j - 1);
        }
    }

    /// Every child's height is bounded by the running maximum.
    pub proof fn lemma_height_le(c: Seq<BNode>, j: int, i: int)
        requires
            0 <= j <= i < c.len(),
        ensures
            c[i].height() <= Self::height_max(c, j),
        decreases i - j,
    {
        if j < i {
            Self::lemma_height_le(c, j + 1, i);
        }
    }

    /// The running maximum is realized by some child (or the range is empty).
    pub proof fn lemma_height_max_is_some(c: Seq<BNode>, j: int)
        requires
            0 <= j,
        ensures
            Self::height_max(c, j) == 0 || exists|k: int|
                j <= k < c.len() && Self::height_max(c, j) == #[trigger] c[k].height(),
        decreases c.len() - j,
    {
        if j < c.len() {
            Self::lemma_height_max_is_some(c, j + 1);
            let h = c[j].height();
            let rest = Self::height_max(c, j + 1);
            if h >= rest {
                assert(j <= j < c.len() && Self::height_max(c, j) == c[j].height());
            } else {
                let k = choose|k: int|
                    j + 1 <= k < c.len() && Self::height_max(c, j + 1) == #[trigger] c[k].height();
                assert(j <= k < c.len() && Self::height_max(c, j) == c[k].height());
            }
        }
    }

    /// Inserting an entry inside the middle part of a three-way concatenation.
    pub proof fn lemma_insert_concat(a: Seq<Entry>, b: Seq<Entry>, z: Seq<Entry>, j: int, e: Entry)
        requires
            0 <= j <= b.len(),
        ensures
            (a + b + z).insert(a.len() + j, e) == a + b.insert(j, e) + z,
    {
        assert((a + b + z).insert(a.len() + j, e) =~= a + b.insert(j, e) + z);
    }

    /// Scans the node for `key`, from whichever end the caller asks for.
    /// Either direction finds the same match or the same descent index.
    pub fn scan(&self, key: i32, from_right: bool) -> (r: (Option<usize>, usize))
        requires
            forall|a: int, b: int|
                0 <= a < b < self.keys@.len() ==> self.keys@[a] < self.keys@[b],
        ensures
            r.0 is Some ==> r.0.unwrap() < self.keys@.len() && self.keys@[r.0.unwrap() as int]
                == key,
            r.0 is None ==> r.1 <= self.keys@.len() && (forall|j: int|
                0 <= j < r.1 ==> self.keys@[j] < key) && (forall|j: int|
                r.1 <= j < self.keys@.len() ==> self.keys@[j] > key),
    {
        let n = self.keys.len();
        if from_right {
            if n == 0 {
                return (None, 0);
            }
            let mut i: usize = n - 1;
            while i > 0 && key < self.keys[i]
                invariant
                    0 <= i < n,
                    n == self.keys@.len(),
                    forall|a: int, b: int|
                        0 <= a < b < self.keys@.len() ==> self.keys@[a] < self.keys@[b],
                    forall|j: int| i < j < n ==> self.keys@[j] > key,
                decreases i,
            {
                i = i - 1;
            }
            if self.keys[i] == key {
                (Some(i), 0)
            } else if key > self.keys[i] {
                (None, i + 1)
            } else {
                (None, i)
            }
        } else {
            let mut i: usize = 0;
            while i < n && key > self.keys[i]
                invariant
                    0 <= i <= n,
                    n == self.keys@.len(),
                    forall|a: int, b: int|
                        0 <= a < b < self.keys@.len() ==> self.keys@[a] < self.keys@[b],
                    forall|j: int| 0 <= j < i ==> self.keys@[j] < key,
                decreases n - i,
            {
                i = i + 1;
            }
            if i < n && self.keys[i] == key {
                (Some(i), 0)
            } else {
                (None, i)
            }
        }
    }

    /// Splits the full child at `i` around its median, promoting the median
    /// key and its element into this node. The subtree's in-order entries are
    /// unchanged.
    #[verifier::rlimit(100)]
    pub fn split_child(&mut self, i: usize, order: usize)
        requires
            order >= 3,
            old(self).wf(order as int),
            old(self).children@.len() > 0,
            i < old(self).children@.len(),
            old(self).children@[i as int].keys@.len() == order,
            old(self).keys@.len() < order,
        ensures
            final(self).wf(order as int),
            final(self).entries() == old(self).entries(),
            final(self).keys@ == old(self).keys@.insert(
                i as int,
                old(self).children@[i as int].keys@[(order / 2) as int],
            ),
            final(self).elems@ == old(self).elems@.insert(
                i as int,
                old(self).children@[i as int].elems@[(order / 2) as int],
            ),
            final(self).children@.len() == old(self).children@.len() + 1,
            final(self).children@[i as int].keys@.len() == order / 2,
            final(self).children@[i as int + 1].keys@.len() == order - order / 2 - 1,
            final(self).children@[i as int].height() <= old(self).children@[i as int].height(),
            final(self).children@[i as int + 1].height() <= old(self).children@[i as int].height(),
            forall|j: int| 0 <= j < i ==> final(self).children@[j] == old(self).children@[j],
            forall|j: int|
                i + 1 < j < final(self).children@.len() ==> final(self).children@[j] == old(
                    self,
                ).children@[j - 1],
    {
        let ghost o = *old(self);
        let ghost oc = old(self).children@;
        let ghost okv = old(self).kv();
        let ghost child = oc[i as int];
        let m = order / 2;
        proof {
            assert(oc[i as int].wf(order as int));
        }
        let right_keys = self.children[i].keys.split_off(m + 1);
        let med_key = self.children[i].keys.pop().unwrap();
        let right_elems = self.children[i].elems.split_off(m + 1);
        let med_elem = self.children[i].elems.pop().unwrap();
        let child_is_leaf = self.children[i].children.len() == 0;
        let right_children = if child_is_leaf {
            Vec::new()
        } else {
            self.children[i].children.split_off(m + 1)
        };
        let right = BNode { keys: right_keys, elems: right_elems, children: right_children };
        self.keys.insert(i, med_key);
        self.elems.insert(i, med_elem);
        self.children.insert(i + 1, right);
        proof {
            let mi = m as int;
            let ii = i as int;
            let ord = order as int;
            let nc = self.children@;
            let nkv = self.kv();
            let left = nc[ii];
            let rightg = nc[ii + 1];
            let med = Entry { key: med_key, eid: med_elem as int };

            // shapes of left and right
            assert(left.keys@ == child.keys@.subrange(0, mi));
            assert(left.elems@ == child.elems@.subrange(0, mi));
            assert(rightg.keys@ == child.keys@.subrange(mi + 1, ord));
            assert(rightg.elems@ == child.elems@.subrange(mi + 1, ord));
            assert(child.wf(ord));
            if child.children@.len() == 0 {
                assert(left.children@.len() == 0);
                assert(rightg.children@.len() == 0);
            } else {
                assert(left.children@ == child.children@.subrange(0, mi + 1));
                assert(rightg.children@ == child.children@.subrange(
                    mi + 1,
                    child.children@.len() as int,
                ));
            }
            assert(med_key == child.keys@[mi]);
            assert(med_elem == child.elems@[mi]);

            // new node vectors
            assert(self.keys@ == o.keys@.insert(ii, med_key));
            assert(self.elems@ == o.elems@.insert(ii, med_elem));
            assert(nc =~= oc.update(ii, left).insert(ii + 1, rightg));
            assert(nkv =~= okv.insert(ii, med));

            Self::lemma_split_halves(child, left, rightg, mi, ord);
            Self::lemma_split_parent(o, *self, child, left, rightg, med, ii, ord);
        }
    }

    /// A node of `ord` keys, cut around its median `m`, carries the same
    /// entries as the left half, the median entry and the right half; neither
    /// half is taller than the node.
    proof fn lemma_split_halves(child: BNode, left: BNode, rightg: BNode, mi: int, ord: int)
        requires
            ord >= 3,
            0 <= mi < ord,
            child.wf(ord),
            child.keys@.len() == ord,
            left.keys@ == child.keys@.subrange(0, mi),
            left.elems@ == child.elems@.subrange(0, mi),
            rightg.keys@ == child.keys@.subrange(mi + 1, ord),
            rightg.elems@ == child.elems@.subrange(mi + 1, ord),
            child.children@.len() == 0 ==> left.children@.len() == 0 && rightg.children@.len()
                == 0,
            child.children@.len() > 0 ==> left.children@ == child.children@.subrange(0, mi + 1)
                && rightg.children@ == child.children@.subrange(
                mi + 1,
                child.children@.len() as int,
            ),
        ensures
            child.entries() == left.entries() + seq![
                Entry { key: child.keys@[mi], eid: child.elems@[mi] as int },
            ] + rightg.entries(),
            left.height() <= child.height(),
            rightg.height() <= child.height(),
            left.wf(ord),
            rightg.wf(ord),
    {
        let cc = child.children@;
        let ckv = child.kv();
        let med = Entry { key: child.keys@[mi], eid: child.elems@[mi] as int };
        assert(child.entries() == left.entries() + seq![med] + rightg.entries()) by {
            if child.children@.len() == 0 {
                assert(left.entries() == left.kv());
                assert(rightg.entries() == rightg.kv());
                assert(child.kv() =~= left.kv() + seq![med] + rightg.kv());
            } else {
                let lc = left.children@;
                let lkv = left.kv();
                let rc = rightg.children@;
                let rkv = rightg.kv();
                assert(cc.len() == ord + 1);
                assert(ckv.len() == ord);
                // whole child = pre(m) + child_m + [median] + inter(m+1)
                Self::lemma_pre_inter(cc, ckv, mi);
                assert(Self::inter(cc, ckv, mi) == cc[mi].entries() + seq![ckv[mi]] + Self::inter(
                    cc,
                    ckv,
                    mi + 1,
                ));
                assert(ckv[mi] == med);
                // left = pre(m) + child_m
                assert(lkv.len() == mi);
                assert(lc.len() == mi + 1);
                Self::lemma_pre_inter(lc, lkv, mi);
                assert(Self::inter(lc, lkv, mi + 1) =~= Seq::<Entry>::empty());
                assert(Self::inter(lc, lkv, mi) =~= lc[mi].entries());
                assert(forall|d: int| 0 <= d < mi ==> lc[d] == #[trigger] cc[d]);
                assert(forall|d: int| 0 <= d < mi ==> lkv[d] == #[trigger] ckv[d]);
                Self::lemma_pre_congr(lc, lkv, cc, ckv, mi);
                assert(lc[mi] == cc[mi]);
                assert(left.entries() == Self::pre(cc, ckv, mi) + cc[mi].entries());
                // right = inter(m+1)
                assert(rc.len() == cc.len() - (mi + 1));
                assert(rkv.len() == ckv.len() - (mi + 1));
                assert(forall|d: int| 0 <= d < rc.len() ==> #[trigger] rc[d] == cc[mi + 1 + d]);
                assert forall|d: int| 0 <= d < rkv.len() && 0 <= 0 + d implies rkv[0 + d]
                    == #[trigger] ckv[(mi + 1) + d] by {
                    assert(rkv[d].key == rightg.keys@[d]);
                    assert(rightg.keys@[d] == child.keys@[mi + 1 + d]);
                }
                assert forall|d: int| 0 <= d < rc.len() implies rc[0 + d] == #[trigger] cc[(mi + 1)
                    + d] by {}
                Self::lemma_inter_congr(rc, rkv, 0, cc, ckv, mi + 1);
                assert(rightg.entries() == Self::inter(cc, ckv, mi + 1));
                assert(child.entries() == Self::pre(cc, ckv, mi) + Self::inter(cc, ckv, mi));
                assert(Self::pre(cc, ckv, mi) + (cc[mi].entries() + seq![ckv[mi]] + Self::inter(
                    cc,
                    ckv,
                    mi + 1,
                )) =~= (Self::pre(cc, ckv, mi) + cc[mi].entries()) + seq![med] + Self::inter(
                    cc,
                    ckv,
                    mi + 1,
                ));
            }
        }
        assert(left.height() <= child.height() && rightg.height() <= child.height()) by {
            if child.children@.len() == 0 {
                assert(left.height() == 0);
                assert(rightg.height() == 0);
            } else {
                let lc = left.children@;
                let rc = rightg.children@;
                assert(child.height() == 1 + Self::height_max(cc, 0));
                if lc.len() > 0 {
                    Self::lemma_height_max_is_some(lc, 0);
                    if Self::height_max(lc, 0) != 0 {
                        let k = choose|k: int|
                            0 <= k < lc.len() && Self::height_max(lc, 0) == #[trigger] lc[
                                k
                            ].height();
                        assert(lc[k] == cc[k]);
                        Self::lemma_height_le(cc, 0, k);
                    }
                    assert(left.height() <= child.height());
                }
                if rc.len() > 0 {
                    Self::lemma_height_max_is_some(rc, 0);
                    if Self::height_max(rc, 0) != 0 {
                        let k = choose|k: int|
                            0 <= k < rc.len() && Self::height_max(rc, 0) == #[trigger] rc[
                                k
                            ].height();
                        assert(rc[k] == cc[mi + 1 + k]);
                        Self::lemma_height_le(cc, 0, mi + 1 + k);
                    }
                    assert(rightg.height() <= child.height());
                }
            }
        }
        assert(left.wf(ord)) by {
            if child.children@.len() > 0 {
                assert forall|t: int| 0 <= t < left.children@.len() implies (
                #[trigger] left.children@[t]).wf(ord) && left.children@[t].keys@.len() >= ord - ord
                    / 2 - 1 by {
                    assert(left.children@[t] == cc[t]);
                }
            }
        }
        assert(rightg.wf(ord)) by {
            if child.children@.len() > 0 {
                assert forall|t: int| 0 <= t < rightg.children@.len() implies (
                #[trigger] rightg.children@[t]).wf(ord) && rightg.children@[t].keys@.len() >= ord
                    - ord / 2 - 1 by {
                    assert(rightg.children@[t] == cc[mi + 1 + t]);
                }
            }
        }
    }

    /// Replacing the child at `ii` by its two halves and promoting the median
    /// keeps the parent's entries and well-formedness.
    proof fn lemma_split_parent(
        o: BNode,
        n: BNode,
        child: BNode,
        left: BNode,
        rightg: BNode,
        med: Entry,
        ii: int,
        ord: int,
    )
        requires
            ord >= 3,
            o.wf(ord),
            o.children@.len() > 0,
            0 <= ii < o.children@.len(),
            o.keys@.len() < ord,
            child == o.children@[ii],
            child.entries() == left.entries() + seq![med] + rightg.entries(),
            left.wf(ord),
            rightg.wf(ord),
            left.keys@.len() < ord,
            rightg.keys@.len() < ord,
            left.keys@.len() >= ord - ord / 2 - 1,
            rightg.keys@.len() >= ord - ord / 2 - 1,
            n.keys@.len() == n.elems@.len(),
            n.kv() == o.kv().insert(ii, med),
            n.children@ == o.children@.update(ii, left).insert(ii + 1, rightg),
        ensures
            n.entries() == o.entries(),
            n.wf(ord),
        decreases 0int,
    {
        let oc = o.children@;
        let okv = o.kv();
        let nc = n.children@;
        let nkv = n.kv();
        assert(n.entries() == o.entries()) by {
            assert(o.entries() == Self::inter(oc, okv, 0));
            assert(n.entries() == Self::inter(nc, nkv, 0));
            Self::lemma_pre_inter(oc, okv, ii);
            Self::lemma_pre_inter(nc, nkv, ii);
            assert(forall|d: int| 0 <= d < ii ==> nc[d] == #[trigger] oc[d]);
            assert(forall|d: int| 0 <= d < ii ==> nkv[d] == #[trigger] okv[d]);
            Self::lemma_pre_congr(nc, nkv, oc, okv, ii);
            // unfold the new side twice
            assert(Self::inter(nc, nkv, ii) == left.entries() + seq![nkv[ii]] + Self::inter(
                nc,
                nkv,
                ii + 1,
            ));
            assert(nkv[ii] == med);
            if ii < okv.len() {
                assert(Self::inter(nc, nkv, ii + 1) == rightg.entries() + seq![nkv[ii + 1]]
                    + Self::inter(nc, nkv, ii + 2));
                assert(nkv[ii + 1] == okv[ii]);
                assert forall|d: int|
                    0 <= d < nc.len() - (ii + 2) implies nc[(ii + 2) + d] == #[trigger] oc[(ii + 1)
                    + d] by {}
                assert forall|d: int|
                    0 <= d < nkv.len() - (ii + 2) && 0 <= (ii + 2) + d implies nkv[(ii + 2) + d]
                    == #[trigger] okv[(ii + 1) + d] by {}
                Self::lemma_inter_congr(nc, nkv, ii + 2, oc, okv, ii + 1);
                assert(Self::inter(oc, okv, ii) == child.entries() + seq![okv[ii]] + Self::inter(
                    oc,
                    okv,
                    ii + 1,
                ));
                assert(Self::pre(oc, okv, ii) + (left.entries() + seq![med] + (rightg.entries()
                    + seq![okv[ii]] + Self::inter(oc, okv, ii + 1))) =~= Self::pre(oc, okv, ii) + ((
                left.entries() + seq![med] + rightg.entries()) + seq![okv[ii]] + Self::inter(
                    oc,
                    okv,
                    ii + 1,
                )));
                assert(Self::pre(nc, nkv, ii) + Self::inter(nc, nkv, ii) =~= Self::pre(oc, okv, ii)
                    + Self::inter(oc, okv, ii));
            } else {
                // the split child was the last one
                assert(ii == okv.len());
                assert(Self::inter(nc, nkv, ii + 1) == rightg.entries() + Self::inter(
                    nc,
                    nkv,
                    ii + 2,
                ));
                assert(ii + 2 >= nc.len());
                assert(Self::inter(nc, nkv, ii + 2) == Seq::<Entry>::empty());
                assert(Self::inter(oc, okv, ii) == child.entries() + Self::inter(oc, okv, ii + 1));
                assert(ii + 1 >= oc.len());
                assert(Self::inter(oc, okv, ii + 1) == Seq::<Entry>::empty());
                assert(Self::pre(nc, nkv, ii) + Self::inter(nc, nkv, ii) =~= Self::pre(oc, okv, ii)
                    + Self::inter(oc, okv, ii));
            }
        }
        assert(n.wf(ord)) by {
            assert(n.keys@.len() == nkv.len());
            assert(nkv.len() == okv.len() + 1);
            assert forall|j: int| 0 <= j < nc.len() implies (#[trigger] nc[j]).wf(ord) && nc[
                j
            ].keys@.len() >= ord - ord / 2 - 1 by {
                if j < ii {
                    assert(nc[j] == oc[j]);
                } else if j == ii + 1 {
                    assert(nc[j] == rightg);
                } else if j > ii + 1 {
                    assert(nc[j] == oc[j - 1]);
                }
            }
        }
    }

    /// `pre` grows by at least one entry per step.
    pub proof fn lemma_pre_len_increases(c: Seq<BNode>, kv: Seq<Entry>, a: int, b: int)
        requires
            0 <= a <= b,
        ensures
            Self::pre(c, kv, a).len() + (b - a) <= Self::pre(c, kv, b).len(),
        decreases b - a,
    {
        if a < b {
            Self::lemma_pre_len_increases(c, kv, a, b - 1);
        }
    }

    /// The `j`-th key of an internal node sits in the subtree's entry run,
    /// right at the end of `pre(j + 1)`.
    pub proof fn lemma_kv_position(self, ord: int, j: int)
        requires
            self.wf(ord),
            self.children@.len() > 0,
            0 <= j < self.keys@.len(),
        ensures
            0 <= Self::pre(self.children@, self.kv(), j + 1).len() - 1 < self.entries().len(),
            self.entries()[Self::pre(self.children@, self.kv(), j + 1).len() - 1] == self.kv()[j],
    {
        let c = self.children@;
        let kv = self.kv();
        Self::lemma_pre_inter(c, kv, j + 1);
        assert(Self::pre(c, kv, j + 1) == Self::pre(c, kv, j) + c[j].entries() + seq![kv[j]]);
        let p = Self::pre(c, kv, j + 1).len() - 1;
        assert(Self::pre(c, kv, j + 1)[p] == kv[j]);
        assert(self.entries() == Self::pre(c, kv, j + 1) + Self::inter(c, kv, j + 1));
        assert(self.entries()[p] == kv[j]);
    }

    /// In a well-formed node whose entry run is strictly sorted, the node's
    /// own keys are strictly sorted as well.
    pub proof fn lemma_keys_sorted(self, ord: int)
        requires
            self.wf(ord),
            entries_sorted(self.entries()),
        ensures
            forall|a: int, b: int|
                0 <= a < b < self.keys@.len() ==> self.keys@[a] < self.keys@[b],
    {
        if self.children@.len() == 0 {
            assert(self.entries() == self.kv());
            assert forall|a: int, b: int|
                0 <= a < b < self.keys@.len() implies self.keys@[a] < self.keys@[b] by {
                assert(self.entries()[a].key == self.keys@[a]);
                assert(self.entries()[b].key == self.keys@[b]);
            }
        } else {
            let c = self.children@;
            let kv = self.kv();
            assert forall|a: int, b: int|
                0 <= a < b < self.keys@.len() implies self.keys@[a] < self.keys@[b] by {
                self.lemma_kv_position(ord, a);
                self.lemma_kv_position(ord, b);
                let pa = Self::pre(c, kv, a + 1).len() - 1;
                let pb = Self::pre(c, kv, b + 1).len() - 1;
                Self::lemma_pre_len_increases(c, kv, a + 1, b + 1);
                assert(pa < pb);
                assert(self.entries()[pa].key < self.entries()[pb].key);
            }
        }
    }

    /// Descending into child `i` refines the sorted context: everything to
    /// the left of the child stays below `key`, everything to its right stays
    /// above, and the nearest entries on either side are the node's own.
    pub proof fn lemma_descend_ctx(
        self,
        ord: int,
        i: int,
        key: i32,
        ctx_a: Seq<Entry>,
        ctx_b: Seq<Entry>,
    )
        requires
            self.wf(ord),
            self.children@.len() > 0,
            0 <= i <= self.keys@.len(),
            entries_sorted(ctx_a + self.entries() + ctx_b),
            all_keys_lt(ctx_a, key),
            all_keys_gt(ctx_b, key),
            forall|j: int| 0 <= j < i ==> self.keys@[j] < key,
            forall|j: int| i <= j < self.keys@.len() ==> self.keys@[j] > key,
        ensures
            ({
                let c = self.children@;
                let kv = self.kv();
                let na = ctx_a + Self::pre(c, kv, i);
                let nb = (if i < kv.len() {
                    seq![kv[i]] + Self::inter(c, kv, i + 1)
                } else {
                    Seq::<Entry>::empty()
                }) + ctx_b;
                &&& ctx_a + self.entries() + ctx_b == na + c[i].entries() + nb
                &&& entries_sorted(na + c[i].entries() + nb)
                &&& all_keys_lt(na, key)
                &&& all_keys_gt(nb, key)
                &&& (i > 0 ==> na.len() > 0 && na.last() == kv[i - 1])
                &&& (i == 0 ==> na == ctx_a)
                &&& (i < kv.len() ==> nb.len() > 0 && nb.first() == kv[i])
                &&& (i == kv.len() ==> nb == ctx_b)
            }),
    {
        let c = self.children@;
        let kv = self.kv();
        let na = ctx_a + Self::pre(c, kv, i);
        let nb = (if i < kv.len() {
            seq![kv[i]] + Self::inter(c, kv, i + 1)
        } else {
            Seq::<Entry>::empty()
        }) + ctx_b;
        let s = ctx_a + self.entries() + ctx_b;
        Self::lemma_pre_inter(c, kv, i);
        assert(self.entries() == Self::pre(c, kv, i) + Self::inter(c, kv, i));
        if i < kv.len() {
            assert(Self::inter(c, kv, i) == c[i].entries() + seq![kv[i]] + Self::inter(
                c,
                kv,
                i + 1,
            ));
        } else {
            assert(Self::inter(c, kv, i) == c[i].entries() + Self::inter(c, kv, i + 1));
            assert(Self::inter(c, kv, i + 1) == Seq::<Entry>::empty());
            assert(Self::inter(c, kv, i) =~= c[i].entries());
        }
        assert(s =~= na + c[i].entries() + nb);
        if i > 0 {
            assert(Self::pre(c, kv, i) == Self::pre(c, kv, i - 1) + c[i - 1].entries() + seq![
                kv[i - 1],
            ]);
            assert(na.last() == kv[i - 1]);
            assert(na[na.len() - 1] == s[na.len() - 1]);
            assert(kv[i - 1].key < key);
            assert forall|j: int| 0 <= j < na.len() implies (#[trigger] na[j]).key < key by {
                if j < na.len() - 1 {
                    assert(na[j] == s[j]);
                    assert(s[j].key < s[na.len() - 1].key);
                }
            }
        } else {
            assert(Self::pre(c, kv, 0) == Seq::<Entry>::empty());
            assert(na =~= ctx_a);
        }
        if i < kv.len() {
            let base = na.len() as int + c[i].entries().len() as int;
            assert(nb.first() == kv[i]);
            assert(kv[i].key > key);
            assert forall|j: int| 0 <= j < nb.len() implies (#[trigger] nb[j]).key > key by {
                assert(nb[j] == s[base + j]);
                if j > 0 {
                    assert(s[base].key < s[base + j].key);
                    assert(s[base] == nb.first());
                }
            }
        } else {
            assert(nb =~= ctx_b);
        }
    }

    /// Replacing the child at `ii` (and nothing else) rewrites this node's
    /// entry run only inside that child's segment.
    proof fn lemma_recompose(mid: BNode, n: BNode, cs: BNode, child2: BNode, ii: int, ord: int)
        requires
            ord >= 3,
            mid.wf(ord),
            mid.children@.len() > 0,
            0 <= ii < mid.children@.len(),
            cs == mid.children@[ii],
            child2.wf(ord),
            child2.keys@.len() >= ord - ord / 2 - 1,
            n.keys@.len() == n.elems@.len(),
            n.kv() == mid.kv(),
            n.keys@.len() == mid.keys@.len(),
            n.children@ == mid.children@.update(ii, child2),
        ensures
            ({
                let preseq = Self::pre(mid.children@, mid.kv(), ii);
                let tail = (if ii < mid.kv().len() {
                    seq![mid.kv()[ii]] + Self::inter(mid.children@, mid.kv(), ii + 1)
                } else {
                    Seq::<Entry>::empty()
                });
                &&& n.entries() == preseq + child2.entries() + tail
                &&& mid.entries() == preseq + cs.entries() + tail
            }),
            n.wf(ord),
    {
        let nc = n.children@;
        let nkv = n.kv();
        Self::lemma_pre_inter(mid.children@, mid.kv(), ii);
        Self::lemma_pre_inter(nc, nkv, ii);
        assert(forall|d: int| 0 <= d < ii ==> nc[d] == #[trigger] mid.children@[d]);
        assert(forall|d: int| 0 <= d < ii ==> nkv[d] == #[trigger] mid.kv()[d]);
        Self::lemma_pre_congr(nc, nkv, mid.children@, mid.kv(), ii);
        let preseq = Self::pre(mid.children@, mid.kv(), ii);
        let tail = (if ii < mid.kv().len() {
            seq![mid.kv()[ii]] + Self::inter(mid.children@, mid.kv(), ii + 1)
        } else {
            Seq::<Entry>::empty()
        });
        assert forall|d: int|
            0 <= d < nc.len() - (ii + 1) implies nc[(ii + 1) + d] == #[trigger] mid.children@[(ii
            + 1) + d] by {}
        assert forall|d: int|
            0 <= d < nkv.len() - (ii + 1) && 0 <= (ii + 1) + d implies nkv[(ii + 1) + d]
            == #[trigger] mid.kv()[(ii + 1) + d] by {}
        Self::lemma_inter_congr(nc, nkv, ii + 1, mid.children@, mid.kv(), ii + 1);
        if ii < mid.kv().len() {
            assert(Self::inter(nc, nkv, ii) == child2.entries() + seq![nkv[ii]] + Self::inter(
                nc,
                nkv,
                ii + 1,
            ));
            assert(Self::inter(mid.children@, mid.kv(), ii) == cs.entries() + seq![mid.kv()[ii]]
                + Self::inter(mid.children@, mid.kv(), ii + 1));
            assert(n.entries() =~= preseq + child2.entries() + tail);
            assert(mid.entries() =~= preseq + cs.entries() + tail);
        } else {
            assert(Self::inter(nc, nkv, ii) =~= child2.entries());
            assert(Self::inter(mid.children@, mid.kv(), ii) =~= cs.entries());
            assert(n.entries() =~= preseq + child2.entries() + tail);
            assert(mid.entries() =~= preseq + cs.entries() + tail);
        }
        assert(n.wf(ord)) by {
            assert forall|t: int| 0 <= t < nc.len() implies (#[trigger] nc[t]).wf(ord) && nc[
                t
            ].keys@.len() >= ord - ord / 2 - 1 by {
                if t != ii {
                    assert(nc[t] == mid.children@[t]);
                }
            }
        }
    }

    /// Entry ordering around an insertion point inside the middle segment of
    /// a three-way decomposition.
    proof fn lemma_order_facts(
        preseq: Seq<Entry>,
        csents: Seq<Entry>,
        tail: Seq<Entry>,
        key: i32,
        p: int,
    )
        requires
            0 <= p <= csents.len(),
            all_keys_lt(preseq, key),
            all_keys_gt(tail, key),
            forall|j: int| 0 <= j < p ==> (#[trigger] csents[j]).key < key,
            forall|j: int| p <= j < csents.len() ==> (#[trigger] csents[j]).key > key,
        ensures
            forall|j: int|
                0 <= j < preseq.len() + p ==> (#[trigger] (preseq + csents + tail)[j]).key < key,
            forall|j: int|
                preseq.len() + p <= j < (preseq + csents + tail).len() ==> (#[trigger] (preseq
                    + csents + tail)[j]).key > key,
    {
        let s = preseq + csents + tail;
        assert forall|j: int| 0 <= j < preseq.len() + p implies (#[trigger] s[j]).key < key by {
            if j < preseq.len() {
                assert(s[j] == preseq[j]);
            } else {
                assert(s[j] == csents[j - preseq.len()]);
            }
        }
        assert forall|j: int| preseq.len() + p <= j < s.len() implies (#[trigger] s[j]).key
            > key by {
            if j < preseq.len() + csents.len() {
                assert(s[j] == csents[j - preseq.len()]);
            } else {
                assert(s[j] == tail[j - preseq.len() - csents.len()]);
            }
        }
    }

    /// Places a fresh element for `key` at slot `i` of this leaf and splices
    /// it into the chain between `pred` and `succ`.
    #[verifier::rlimit(100)]
    fn leaf_insert(
        &mut self,
        pool: &mut ElementPool,
        order: usize,
        key: i32,
        i: usize,
        pred: Option<usize>,
        succ: Option<usize>,
        range: u64,
        Ghost(ctx_a): Ghost<Seq<Entry>>,
        Ghost(ctx_b): Ghost<Seq<Entry>>,
    ) -> (eid: usize)
        requires
            order >= 3,
            range >= 1,
            old(self).wf(order as int),
            old(self).keys@.len() < order,
            old(self).children@.len() == 0,
            i <= old(self).keys@.len(),
            entries_sorted(ctx_a + old(self).entries() + ctx_b),
            keys_match(ctx_a + old(self).entries() + ctx_b, old(pool)@),
            all_keys_lt(ctx_a, key),
            all_keys_gt(ctx_b, key),
            forall|j: int| 0 <= j < i ==> old(self).keys@[j] < key,
            forall|j: int| i <= j < old(self).keys@.len() ==> old(self).keys@[j] > key,
            pred == (if ctx_a.len() > 0 {
                Some(ctx_a.last().eid as usize)
            } else {
                None::<usize>
            }),
            succ == (if ctx_b.len() > 0 {
                Some(ctx_b.first().eid as usize)
            } else {
                None::<usize>
            }),
        ensures
            final(self).wf(order as int),
            final(self).keys@.len() == old(self).keys@.len() + 1,
            eid == old(pool)@.len(),
            final(self).entries() == old(self).entries().insert(
                i as int,
                Entry { key, eid: eid as int },
            ),
            splice_ok(
                old(pool)@,
                final(pool)@,
                ctx_a + old(self).entries() + ctx_b,
                ctx_a.len() + i,
                key,
                range as int,
            ),
    {
        let ghost o = *old(self);
        let ghost ents0 = old(self).entries();
        let ghost all = ctx_a + ents0 + ctx_b;
        let n0 = self.keys.len();
        let p_n = if i > 0 {
            Some(self.elems[i - 1])
        } else {
            pred
        };
        let s_n = if i < n0 {
            Some(self.elems[i])
        } else {
            succ
        };
        let eid = pool.create(key);
        self.keys.insert(i, key);
        self.elems.insert(i, eid);
        proof {
            let ii = i as int;
            let gpos = ctx_a.len() + ii;
            assert(ents0 == o.kv());
            if gpos > 0 {
                assert(all[gpos - 1] == (if ii > 0 {
                    ents0[ii - 1]
                } else {
                    ctx_a.last()
                })) by {
                    if ii > 0 {
                        assert(all[ctx_a.len() + (ii - 1)] == ents0[ii - 1]);
                    } else {
                        assert(all[ctx_a.len() - 1] == ctx_a[ctx_a.len() - 1]);
                    }
                }
            }
            if gpos < all.len() {
                assert(all[gpos] == (if ii < ents0.len() {
                    ents0[ii]
                } else {
                    ctx_b.first()
                })) by {
                    if ii < ents0.len() {
                        assert(all[ctx_a.len() + ii] == ents0[ii]);
                    } else {
                        assert(all[ctx_a.len() as int + ents0.len() as int + 0] == ctx_b[0]);
                    }
                }
            }
            // the chain neighbours exist in the pool and are distinct
            if gpos > 0 {
                assert(0 <= all[gpos - 1].eid < old(pool)@.len() && old(pool)@[all[gpos
                    - 1].eid].key == all[gpos - 1].key);
                assert(all[gpos - 1].key < key);
            }
            if gpos < all.len() {
                assert(0 <= all[gpos].eid < old(pool)@.len() && old(pool)@[all[gpos].eid].key
                    == all[gpos].key);
                assert(all[gpos].key > key);
            }
            if gpos > 0 && gpos < all.len() {
                assert(all[gpos - 1].eid != all[gpos].eid);
            }
            assert(p_n == (if gpos > 0 {
                Some(all[gpos - 1].eid as usize)
            } else {
                None::<usize>
            }));
            assert(s_n == (if gpos < all.len() {
                Some(all[gpos].eid as usize)
            } else {
                None::<usize>
            }));
        }
        pool.set_connections(eid, p_n, s_n, range);
        proof {
            let ii = i as int;
            assert(self.kv() =~= o.kv().insert(ii, Entry { key, eid: eid as int }));
            assert(self.entries() == ents0.insert(ii, Entry { key, eid: eid as int }));
            assert(self.wf(order as int));
            assert(splice_ok(old(pool)@, pool@, all, ctx_a.len() + ii, key, range as int));
        }
        eid
    }

    /// After a split inserted the promoted key at `idx`, the scan's findings
    /// carry over to the descent index `i` chosen against the promoted key.
    proof fn lemma_split_scan_facts(okeys: Seq<i32>, mkeys: Seq<i32>, idx: int, i: int, key: i32)
        requires
            0 <= idx <= okeys.len(),
            mkeys.len() == okeys.len() + 1,
            forall|d: int| 0 <= d < idx ==> mkeys[d] == #[trigger] okeys[d],
            forall|d: int| idx < d < mkeys.len() ==> #[trigger] mkeys[d] == okeys[d - 1],
            forall|j: int| 0 <= j < idx ==> #[trigger] okeys[j] < key,
            forall|j: int| idx <= j < okeys.len() ==> #[trigger] okeys[j] > key,
            (i == idx && key < mkeys[idx]) || (i == idx + 1 && key > mkeys[idx]),
        ensures
            forall|j: int| 0 <= j < i ==> #[trigger] mkeys[j] < key,
            forall|j: int| i <= j < mkeys.len() ==> #[trigger] mkeys[j] > key,
    {
        assert forall|j: int| 0 <= j < i implies #[trigger] mkeys[j] < key by {
            if j < idx {
                assert(mkeys[j] == okeys[j]);
            } else if j > idx {
                assert(mkeys[j] == okeys[j - 1]);
            }
        }
        assert forall|j: int| i <= j < mkeys.len() implies #[trigger] mkeys[j] > key by {
            if j < idx {
                assert(mkeys[j] == okeys[j]);
            } else if j > idx {
                assert(mkeys[j] == okeys[j - 1]);
            }
        }
    }

    /// Inserts `key` below this node: counts it again on an existing element,
    /// or grows a fresh element, placing it into the leaf and the chain.
    /// Returns the element, whether it is new, and where the entry sits in
    /// this subtree's run.
    #[verifier::rlimit(100)]
    pub fn insert_at(
        &mut self,
        pool: &mut ElementPool,
        order: usize,
        key: i32,
        from_right: bool,
        pred: Option<usize>,
        succ: Option<usize>,
        range: u64,
        Ghost(ctx_a): Ghost<Seq<Entry>>,
        Ghost(ctx_b): Ghost<Seq<Entry>>,
    ) -> (r: (usize, bool, Ghost<int>))
        requires
            order >= 3,
            range >= 1,
            old(self).wf(order as int),
            old(self).keys@.len() < order,
            entries_sorted(ctx_a + old(self).entries() + ctx_b),
            keys_match(ctx_a + old(self).entries() + ctx_b, old(pool)@),
            all_keys_lt(ctx_a, key),
            all_keys_gt(ctx_b, key),
            pred == (if ctx_a.len() > 0 {
                Some(ctx_a.last().eid as usize)
            } else {
                None::<usize>
            }),
            succ == (if ctx_b.len() > 0 {
                Some(ctx_b.first().eid as usize)
            } else {
                None::<usize>
            }),
            forall|e: int|
                0 <= e < old(pool)@.len() ==> (#[trigger] old(pool)@[e]).counter < usize::MAX,
        ensures
            final(self).wf(order as int),
            final(self).keys@.len() >= old(self).keys@.len(),
            ({
                let all = ctx_a + old(self).entries() + ctx_b;
                let ents0 = old(self).entries();
                let pos = r.2@;
                if r.1 {
                    &&& r.0 == old(pool)@.len()
                    &&& 0 <= pos <= ents0.len()
                    &&& final(self).entries() == ents0.insert(
                        pos,
                        Entry { key, eid: r.0 as int },
                    )
                    &&& (forall|j: int| 0 <= j < pos ==> (#[trigger] ents0[j]).key < key)
                    &&& (forall|j: int|
                        pos <= j < ents0.len() ==> (#[trigger] ents0[j]).key > key)
                    &&& splice_ok(
                        old(pool)@,
                        final(pool)@,
                        all,
                        ctx_a.len() + pos,
                        key,
                        range as int,
                    )
                } else {
                    &&& 0 <= pos < ents0.len()
                    &&& ents0[pos] == Entry { key, eid: r.0 as int }
                    &&& final(self).entries() == ents0
                    &&& bump_ok(old(pool)@, final(pool)@, r.0 as int)
                }
            }),
        decreases old(self).height(), 1int,
    {
        let ghost o = *old(self);
        let ghost ents0 = old(self).entries();
        let ghost all = ctx_a + ents0 + ctx_b;
        proof {
            lemma_sorted_middle(ctx_a, ents0, ctx_b);
            o.lemma_keys_sorted(order as int);
        }
        let (found, idx) = self.scan(key, from_right);
        if let Some(j) = found {
            let eid = self.elems[j];
            let ghost pos_g: int = if o.children@.len() == 0 {
                j as int
            } else {
                Self::pre(o.children@, o.kv(), j as int + 1).len() - 1
            };
            proof {
                if o.children@.len() == 0 {
                    assert(ents0 == o.kv());
                } else {
                    o.lemma_kv_position(order as int, j as int);
                }
                assert(ents0[pos_g] == o.kv()[j as int]);
                assert(o.kv()[j as int] == Entry { key, eid: eid as int });
                assert(all[ctx_a.len() + pos_g] == ents0[pos_g]);
                assert(0 <= ents0[pos_g].eid < pool@.len() && pool@[ents0[pos_g].eid].key
                    == ents0[pos_g].key);
            }
            pool.increment_counter(eid);
            return (eid, false, Ghost(pos_g));
        }
        let mut i = idx;
        if self.children.len() == 0 {
            let eid = self.leaf_insert(
                pool,
                order,
                key,
                i,
                pred,
                succ,
                range,
                Ghost(ctx_a),
                Ghost(ctx_b),
            );
            proof {
                assert(forall|j: int| 0 <= j < i ==> (#[trigger] ents0[j]).key < key);
                assert(forall|j: int| i <= j < ents0.len() ==> (#[trigger] ents0[j]).key > key);
            }
            (eid, true, Ghost(i as int))
        } else {
            proof {
                assert(forall|j: int| 0 <= j < i ==> old(self).keys@[j] < key);
            }
            self.insert_descend(
                pool,
                order,
                key,
                from_right,
                i,
                pred,
                succ,
                range,
                Ghost(ctx_a),
                Ghost(ctx_b),
            )
        }
    }

    /// The internal-node step of the insertion: splits a full child first,
    /// then descends into the child that covers `key`.
    #[verifier::rlimit(100)]
    fn insert_descend(
        &mut self,
        pool: &mut ElementPool,
        order: usize,
        key: i32,
        from_right: bool,
        idx: usize,
        pred: Option<usize>,
        succ: Option<usize>,
        range: u64,
        Ghost(ctx_a): Ghost<Seq<Entry>>,
        Ghost(ctx_b): Ghost<Seq<Entry>>,
    ) -> (r: (usize, bool, Ghost<int>))
        requires
            order >= 3,
            range >= 1,
            old(self).wf(order as int),
            old(self).keys@.len() < order,
            old(self).children@.len() > 0,
            idx <= old(self).keys@.len(),
            forall|j: int| 0 <= j < idx ==> old(self).keys@[j] < key,
            forall|j: int| idx <= j < old(self).keys@.len() ==> old(self).keys@[j] > key,
            entries_sorted(ctx_a + old(self).entries() + ctx_b),
            keys_match(ctx_a + old(self).entries() + ctx_b, old(pool)@),
            all_keys_lt(ctx_a, key),
            all_keys_gt(ctx_b, key),
            pred == (if ctx_a.len() > 0 {
                Some(ctx_a.last().eid as usize)
            } else {
                None::<usize>
            }),
            succ == (if ctx_b.len() > 0 {
                Some(ctx_b.first().eid as usize)
            } else {
                None::<usize>
            }),
            forall|e: int|
                0 <= e < old(pool)@.len() ==> (#[trigger] old(pool)@[e]).counter < usize::MAX,
        ensures
            final(self).wf(order as int),
            final(self).keys@.len() >= old(self).keys@.len(),
            ({
                let all = ctx_a + old(self).entries() + ctx_b;
                let ents0 = old(self).entries();
                let pos = r.2@;
                if r.1 {
                    &&& r.0 == old(pool)@.len()
                    &&& 0 <= pos <= ents0.len()
                    &&& final(self).entries() == ents0.insert(
                        pos,
                        Entry { key, eid: r.0 as int },
                    )
                    &&& (forall|j: int| 0 <= j < pos ==> (#[trigger] ents0[j]).key < key)
                    &&& (forall|j: int|
                        pos <= j < ents0.len() ==> (#[trigger] ents0[j]).key > key)
                    &&& splice_ok(
                        old(pool)@,
                        final(pool)@,
                        all,
                        ctx_a.len() + pos,
                        key,
                        range as int,
                    )
                } else {
                    &&& 0 <= pos < ents0.len()
                    &&& ents0[pos] == Entry { key, eid: r.0 as int }
                    &&& final(self).entries() == ents0
                    &&& bump_ok(old(pool)@, final(pool)@, r.0 as int)
                }
            }),
        decreases old(self).height(), 0int,
    {
        let ghost o = *old(self);
        let ghost ents0 = old(self).entries();
        let ghost all = ctx_a + ents0 + ctx_b;
        let mut i = idx;
            // internal: split a full child first, then descend
            let clen = self.children[i].keys.len();
            let ghost did_split = clen == order;
            if clen == order {
                self.split_child(i, order);
                if key > self.keys[i] {
                    i = i + 1;
                } else if key == self.keys[i] {
                    let eid = self.elems[i];
                    proof {
                        assert(self.entries() == ents0);
                        lemma_sorted_middle(ctx_a, self.entries(), ctx_b);
                        self.lemma_kv_position(order as int, i as int);
                    }
                    let ghost pos_g: int = Self::pre(
                        self.children@,
                        self.kv(),
                        i as int + 1,
                    ).len() - 1;
                    proof {
                        assert(ents0[pos_g] == Entry { key, eid: eid as int });
                        assert(all[ctx_a.len() + pos_g] == ents0[pos_g]);
                        assert(0 <= ents0[pos_g].eid < pool@.len() && pool@[ents0[pos_g].eid].key
                            == ents0[pos_g].key);
                    }
                    pool.increment_counter(eid);
                    return (eid, false, Ghost(pos_g));
                }
            }
            let ghost mid = *self;
            proof {
                assert(mid.entries() == ents0);
                assert(mid.wf(order as int));
                lemma_sorted_middle(ctx_a, mid.entries(), ctx_b);
                mid.lemma_keys_sorted(order as int);
                if did_split {
                    // relate the post-split keys to the scan's findings
                    assert(mid.keys@ == o.keys@.insert(
                        idx as int,
                        o.children@[idx as int].keys@[(order / 2) as int],
                    ));
                    assert(forall|d: int|
                        0 <= d < idx ==> mid.keys@[d] == #[trigger] o.keys@[d]);
                    assert(forall|d: int|
                        idx < d < mid.keys@.len() ==> #[trigger] mid.keys@[d] == o.keys@[d - 1]);
                    Self::lemma_split_scan_facts(
                        o.keys@,
                        mid.keys@,
                        idx as int,
                        i as int,
                        key,
                    );
                } else {
                    assert(mid == o);
                }
                mid.lemma_descend_ctx(order as int, i as int, key, ctx_a, ctx_b);
                // the child we descend into is lower than this node
                if did_split {
                    Self::lemma_height_le(o.children@, 0, idx as int);
                } else {
                    Self::lemma_height_le(o.children@, 0, i as int);
                }
            }
            let p2 = if i > 0 {
                Some(self.elems[i - 1])
            } else {
                pred
            };
            let s2 = if i < self.keys.len() {
                Some(self.elems[i])
            } else {
                succ
            };
            let ghost na = ctx_a + Self::pre(mid.children@, mid.kv(), i as int);
            let ghost nb = (if (i as int) < mid.kv().len() {
                seq![mid.kv()[i as int]] + Self::inter(mid.children@, mid.kv(), i as int + 1)
            } else {
                Seq::<Entry>::empty()
            }) + ctx_b;
            proof {
                assert(p2 == (if na.len() > 0 {
                    Some(na.last().eid as usize)
                } else {
                    None::<usize>
                })) by {
                    if i > 0 {
                        assert(na.last() == mid.kv()[i as int - 1]);
                    }
                }
                assert(s2 == (if nb.len() > 0 {
                    Some(nb.first().eid as usize)
                } else {
                    None::<usize>
                }));
                assert(keys_match(na + mid.children@[i as int].entries() + nb, pool@)) by {
                    assert(na + mid.children@[i as int].entries() + nb == all);
                }
                assert(mid.children@[i as int].wf(order as int));
                assert(mid.children@[i as int].keys@.len() < order);
            }
            let ghost cs = self.children@[i as int];
            let rr = self.children[i].insert_at(
                pool,
                order,
                key,
                from_right,
                p2,
                s2,
                range,
                Ghost(na),
                Ghost(nb),
            );
            proof {
                let ii = i as int;
                let nc = self.children@;
                let nkv = self.kv();
                let child2 = nc[ii];
                assert(nc == mid.children@.update(ii, child2));
                assert(nkv == mid.kv());
                Self::lemma_recompose(mid, *self, cs, child2, ii, order as int);
                let preseq = Self::pre(mid.children@, mid.kv(), ii);
                let tail = (if ii < mid.kv().len() {
                    seq![mid.kv()[ii]] + Self::inter(mid.children@, mid.kv(), ii + 1)
                } else {
                    Seq::<Entry>::empty()
                });
                assert(ents0 == preseq + cs.entries() + tail);
                let p_in = rr.2@;
                if rr.1 {
                    let e = Entry { key, eid: rr.0 as int };
                    assert(child2.entries() == cs.entries().insert(p_in, e));
                    Self::lemma_insert_concat(preseq, cs.entries(), tail, p_in, e);
                    assert(self.entries() == ents0.insert(preseq.len() + p_in, e));
                    assert(na + cs.entries() + nb == all);
                    assert forall|j: int| 0 <= j < preseq.len() implies (#[trigger] preseq[j]).key
                        < key by {
                        assert(na[ctx_a.len() + j] == preseq[j]);
                    }
                    assert forall|j: int| 0 <= j < tail.len() implies (#[trigger] tail[j]).key
                        > key by {
                        assert(nb[j] == tail[j]);
                    }
                    Self::lemma_order_facts(preseq, cs.entries(), tail, key, p_in);
                    assert(ctx_a.len() + (preseq.len() + p_in) == na.len() + p_in);
                    assert(splice_ok(old(pool)@, pool@, all, na.len() + p_in, key, range as int));
                } else {
                    assert(child2.entries() == cs.entries());
                    assert(self.entries() =~= ents0);
                    assert(ents0[preseq.len() + p_in] == cs.entries()[p_in]);
                }
            }
            (rr.0, rr.1, Ghost(Self::pre(mid.children@, mid.kv(), i as int).len() + rr.2@))
    }

    /// Finds the element that carries `key` anywhere in this subtree.
    #[verifier::rlimit(100)]
    pub fn search_at(&self, order: usize, key: i32, from_right: bool) -> (r: Option<usize>)
        requires
            order >= 3,
            self.wf(order as int),
            entries_sorted(self.entries()),
        ensures
            (r is Some) ==> (exists|t: int|
                0 <= t < self.entries().len() && self.entries()[t] == (Entry {
                    key,
                    eid: r.unwrap() as int,
                })),
            (r is None) ==> (forall|t: int|
                0 <= t < self.entries().len() ==> (#[trigger] self.entries()[t]).key != key),
        decreases self.height(),
    {
        proof {
            self.lemma_keys_sorted(order as int);
        }
        let (found, idx) = self.scan(key, from_right);
        if let Some(j) = found {
            let eid = self.elems[j];
            proof {
                if self.children@.len() == 0 {
                    assert(self.entries() == self.kv());
                    assert(self.entries()[j as int] == Entry { key, eid: eid as int });
                } else {
                    self.lemma_kv_position(order as int, j as int);
                    let p = Self::pre(self.children@, self.kv(), j as int + 1).len() - 1;
                    assert(self.entries()[p] == Entry { key, eid: eid as int });
                }
            }
            return Some(eid);
        }
        let i = idx;
        if self.children.len() == 0 {
            proof {
                assert(self.entries() == self.kv());
                assert forall|t: int|
                    0 <= t < self.entries().len() implies (#[trigger] self.entries()[t]).key
                    != key by {
                    assert(self.entries()[t].key == self.keys@[t]);
                }
            }
            return None;
        }
        proof {
            assert(Seq::<Entry>::empty() + self.entries() + Seq::<Entry>::empty()
                =~= self.entries());
            self.lemma_descend_ctx(
                order as int,
                i as int,
                key,
                Seq::<Entry>::empty(),
                Seq::<Entry>::empty(),
            );
            let c = self.children@;
            let kv = self.kv();
            let na = Seq::<Entry>::empty() + Self::pre(c, kv, i as int);
            let nb = (if (i as int) < kv.len() {
                seq![kv[i as int]] + Self::inter(c, kv, i as int + 1)
            } else {
                Seq::<Entry>::empty()
            }) + Seq::<Entry>::empty();
            assert(self.entries() == na + c[i as int].entries() + nb);
            lemma_sorted_middle(na, c[i as int].entries(), nb);
            Self::lemma_height_le(self.children@, 0, i as int);
        }
        let r = self.children[i].search_at(order, key, from_right);
        proof {
            let c = self.children@;
            let kv = self.kv();
            let na = Seq::<Entry>::empty() + Self::pre(c, kv, i as int);
            let nb = (if (i as int) < kv.len() {
                seq![kv[i as int]] + Self::inter(c, kv, i as int + 1)
            } else {
                Seq::<Entry>::empty()
            }) + Seq::<Entry>::empty();
            let ce = c[i as int].entries();
            if r is Some {
                let t = choose|t: int|
                    0 <= t < ce.len() && ce[t] == Entry { key, eid: r.unwrap() as int };
                assert(self.entries()[na.len() + t] == ce[t]);
            } else {
                assert forall|t: int|
                    0 <= t < self.entries().len() implies (#[trigger] self.entries()[t]).key
                    != key by {
                    if t < na.len() {
                        assert(self.entries()[t] == na[t]);
                    } else if t < na.len() + ce.len() {
                        assert(self.entries()[t] == ce[t - na.len()]);
                    } else {
                        assert(self.entries()[t] == nb[t - na.len() - ce.len()]);
                    }
                }
            }
        }
        r
    }

    /// Grows the tree by one level: this full root becomes a child of a new
    /// root holding only the promoted median. The entries are unchanged.
    pub fn split_root(&mut self, order: usize)
        requires
            order >= 3,
            old(self).wf(order as int),
            old(self).keys@.len() == order,
        ensures
            final(self).wf(order as int),
            final(self).entries() == old(self).entries(),
            final(self).keys@.len() == 1,
            final(self).children@.len() == 2,
    {
        let ghost o = *old(self);
        let my_keys = self.keys.split_off(0);
        let my_elems = self.elems.split_off(0);
        let my_children = self.children.split_off(0);
        let child = BNode { keys: my_keys, elems: my_elems, children: my_children };
        proof {
            assert(child.keys@ =~= o.keys@);
            assert(child.elems@ =~= o.elems@);
            assert(child.children@ =~= o.children@);
            assert(child.kv() =~= o.kv());
            assert(child.entries() == o.entries()) by {
                if child.children@.len() == 0 {
                } else {
                    assert(Self::inter(child.children@, child.kv(), 0) == Self::inter(
                        o.children@,
                        o.kv(),
                        0,
                    ));
                }
            }
            assert(child.wf(order as int)) by {
                assert forall|j: int| 0 <= j < child.children@.len() implies (
                #[trigger] child.children@[j]).wf(order as int) by {
                    assert(child.children@[j] == o.children@[j]);
                }
            }
            assert(self.keys@ =~= Seq::<i32>::empty());
            assert(self.elems@ =~= Seq::<usize>::empty());
            assert(self.children@ =~= Seq::<BNode>::empty());
        }
        self.children.push(child);
        proof {
            assert(self.children@ =~= seq![child]);
            assert(self.kv() =~= Seq::<Entry>::empty());
            assert(Self::inter(self.children@, self.kv(), 1) =~= Seq::<Entry>::empty());
            assert(Self::inter(self.children@, self.kv(), 0) =~= child.entries());
            assert(self.entries() == o.entries());
            assert(self.wf(order as int)) by {
                assert forall|j: int| 0 <= j < self.children@.len() implies (
                #[trigger] self.children@[j]).wf(order as int) by {
                    assert(self.children@[j] == child);
                }
            }
        }
        self.split_child(0, order);
    }

    /// The nodes of the subtree that sit exactly `k` levels below this node,
    /// left to right.
    pub open spec fn nodes_at(self, k: int) -> Seq<BNode>
        decreases self, 0int,
    {
        if k <= 0 {
            seq![self]
        } else {
            Self::nodes_at_seq(self.children@, k, 0)
        }
    }

    pub open spec fn nodes_at_seq(c: Seq<BNode>, k: int, i: int) -> Seq<BNode>
        decreases c, c.len() - i,
    {
        if i < 0 || i >= c.len() {
            Seq::empty()
        } else {
            c[i].nodes_at(k - 1) + Self::nodes_at_seq(c, k, i + 1)
        }
    }

    /// The printed text of this node's own entries from slot `j` on:
    /// `key:counter|` for each.
    pub open spec fn entries_text(kv: Seq<Entry>, pool: Seq<Element>, j: int) -> Seq<char>
        decreases kv.len() - j,
    {
        if j < 0 || j >= kv.len() {
            Seq::empty()
        } else {
            dec_int(kv[j].key as int) + seq![':'] + dec_digits(pool[kv[j].eid].counter as int)
                + seq!['|'] + Self::entries_text(kv, pool, j + 1)
        }
    }

    /// The printed text of one node: `||` then its entries then `| `.
    pub open spec fn node_text(self, pool: Seq<Element>) -> Seq<char> {
        seq!['|', '|'] + Self::entries_text(self.kv(), pool, 0) + seq!['|', ' ']
    }

    /// The printed text of one tree level.
    pub open spec fn line_text(ns: Seq<BNode>, pool: Seq<Element>) -> Seq<char>
        decreases ns.len(),
    {
        if ns.len() == 0 {
            Seq::empty()
        } else {
            ns[0].node_text(pool) + Self::line_text(ns.drop_first(), pool)
        }
    }

    /// The printed text of the levels `k ..= h` of this subtree, one line
    /// each.
    pub open spec fn levels_text(self, pool: Seq<Element>, k: int, h: int) -> Seq<char>
        decreases h - k + 1,
    {
        if k < 0 || k > h {
            Seq::empty()
        } else {
            Self::line_text(self.nodes_at(k), pool) + seq!['\n'] + self.levels_text(
                pool,
                k + 1,
                h,
            )
        }
    }

    /// Lines distribute over splitting a level list.
    pub proof fn lemma_line_concat(a: Seq<BNode>, b: Seq<BNode>, pool: Seq<Element>)
        ensures
            Self::line_text(a + b, pool) == Self::line_text(a, pool) + Self::line_text(b, pool),
        decreases a.len(),
    {
        if a.len() == 0 {
            assert(a + b =~= b);
            assert(Self::line_text(a, pool) + Self::line_text(b, pool) =~= Self::line_text(
                b,
                pool,
            ));
        } else {
            assert((a + b).drop_first() =~= a.drop_first() + b);
            assert((a + b)[0] == a[0]);
            Self::lemma_line_concat(a.drop_first(), b, pool);
            assert(a[0].node_text(pool) + (Self::line_text(a.drop_first(), pool)
                + Self::line_text(b, pool)) =~= (a[0].node_text(pool) + Self::line_text(
                a.drop_first(),
                pool,
            )) + Self::line_text(b, pool));
        }
    }

    /// Some node sits at every depth up to the height.
    pub proof fn lemma_nodes_at_nonempty(self, k: int)
        requires
            0 <= k <= self.height(),
        ensures
            self.nodes_at(k).len() > 0,
        decreases self, 0int,
    {
        if k > 0 {
            let c = self.children@;
            Self::lemma_height_max_is_some(c, 0);
            if Self::height_max(c, 0) == 0 {
                assert(k == 1);
                assert(c.len() > 0);
                c[0].lemma_nodes_at_nonempty(0);
                Self::lemma_nodes_at_seq_ge(c, k, 0, 0);
            } else {
                let m = choose|m: int|
                    0 <= m < c.len() && Self::height_max(c, 0) == #[trigger] c[m].height();
                c[m].lemma_nodes_at_nonempty(k - 1);
                Self::lemma_nodes_at_seq_ge(c, k, 0, m);
            }
        }
    }

    /// The level list over a run of children contains each child's part.
    pub proof fn lemma_nodes_at_seq_ge(c: Seq<BNode>, k: int, i0: int, i: int)
        requires
            0 <= i0 <= i < c.len(),
        ensures
            Self::nodes_at_seq(c, k, i0).len() >= c[i].nodes_at(k - 1).len(),
        decreases i - i0,
    {
        if i0 < i {
            Self::lemma_nodes_at_seq_ge(c, k, i0 + 1, i);
        }
    }

    /// No node sits below the height.
    pub proof fn lemma_nodes_at_empty(self, k: int)
        requires
            k > self.height(),
        ensures
            self.nodes_at(k).len() == 0,
        decreases self, 0int,
    {
        let c = self.children@;
        assert forall|i: int| 0 <= i < c.len() implies (#[trigger] c[i].nodes_at(
            k - 1,
        )).len() == 0 by {
            Self::lemma_height_le(c, 0, i);
            c[i].lemma_nodes_at_empty(k - 1);
        }
        Self::lemma_nodes_at_seq_empty(c, k, 0);
    }

    pub proof fn lemma_nodes_at_seq_empty(c: Seq<BNode>, k: int, i: int)
        requires
            forall|j: int| 0 <= j < c.len() ==> (#[trigger] c[j].nodes_at(k - 1)).len() == 0,
            0 <= i,
        ensures
            Self::nodes_at_seq(c, k, i).len() == 0,
        decreases c.len() - i,
    {
        if i < c.len() {
            assert(c[i].nodes_at(k - 1).len() == 0);
            Self::lemma_nodes_at_seq_empty(c, k, i + 1);
        }
    }

    /// A child's entries all stand in the parent's run.
    pub proof fn lemma_keys_match_child(self, ord: int, i: int, pool: Seq<Element>)
        requires
            self.wf(ord),
            self.children@.len() > 0,
            0 <= i < self.children@.len(),
            keys_match(self.entries(), pool),
        ensures
            keys_match(self.children@[i].entries(), pool),
    {
        let c = self.children@;
        let kv = self.kv();
        Self::lemma_pre_inter(c, kv, i);
        assert(self.entries() == Self::pre(c, kv, i) + Self::inter(c, kv, i));
        if i < kv.len() {
            assert(Self::inter(c, kv, i) == c[i].entries() + seq![kv[i]] + Self::inter(
                c,
                kv,
                i + 1,
            ));
        } else {
            assert(Self::inter(c, kv, i) == c[i].entries() + Self::inter(c, kv, i + 1));
        }
        let base = Self::pre(c, kv, i).len() as int;
        assert forall|t: int|
            0 <= t < c[i].entries().len() implies 0 <= (#[trigger] c[i].entries()[t]).eid
            < pool.len() && pool[c[i].entries()[t].eid].key == c[i].entries()[t].key by {
            assert(self.entries()[base + t] == c[i].entries()[t]);
        }
    }

    /// Renders the text of the tree level `k` below this node, and says
    /// whether any node sits there.
    #[verifier::rlimit(100)]
    pub fn render_level(&self, pool: &ElementPool, k: usize, order: usize) -> (r: (String, bool))
        requires
            order >= 3,
            self.wf(order as int),
            keys_match(self.entries(), pool@),
        ensures
            r.0@ == Self::line_text(self.nodes_at(k as int), pool@),
            r.1 == (self.nodes_at(k as int).len() > 0),
        decreases *self, 0int,
    {
        if k == 0 {
            proof {
                assert(self.nodes_at(0) =~= seq![*self]);
                assert(self.nodes_at(0).drop_first() =~= Seq::<BNode>::empty());
                reveal_strlit("||");
                reveal_strlit(":");
                reveal_strlit("|");
                reveal_strlit("| ");
            }
            let mut s = ("||").to_owned();
            let n = self.keys.len();
            let mut j: usize = 0;
            while j < n
                invariant
                    order >= 3,
                    self.wf(order as int),
                    keys_match(self.entries(), pool@),
                    n == self.keys@.len(),
                    0 <= j <= n,
                    s@ + Self::entries_text(self.kv(), pool@, j as int) == seq!['|', '|']
                        + Self::entries_text(self.kv(), pool@, 0),
                decreases n - j,
            {
                proof {
                    if self.children@.len() == 0 {
                        assert(self.entries() == self.kv());
                        assert(self.entries()[j as int] == self.kv()[j as int]);
                    } else {
                        self.lemma_kv_position(order as int, j as int);
                    }
                    assert(0 <= self.kv()[j as int].eid < pool@.len());
                }
                let key = self.keys[j];
                let eid = self.elems[j];
                let counter = match pool.element(eid) {
                    Some(e) => e.counter,
                    None => 0,
                };
                let ghost s_pre = s@;
                proof {
                    reveal_strlit(":");
                    reveal_strlit("|");
                }
                s.append(i64_dec(key as i64).as_str());
                s.append(":");
                s.append(u64_dec(counter as u64).as_str());
                s.append("|");
                proof {
                    let kv = self.kv();
                    let jj = j as int;
                    assert(Self::entries_text(kv, pool@, jj) == dec_int(kv[jj].key as int) + seq![
                        ':',
                    ] + dec_digits(pool@[kv[jj].eid].counter as int) + seq!['|']
                        + Self::entries_text(kv, pool@, jj + 1));
                    assert(s@ =~= s_pre + (dec_int(kv[jj].key as int) + seq![':'] + dec_digits(
                        pool@[kv[jj].eid].counter as int,
                    ) + seq!['|']));
                    assert(s@ + Self::entries_text(kv, pool@, jj + 1) =~= s_pre
                        + Self::entries_text(kv, pool@, jj));
                }
                j = j + 1;
            }
            proof {
                assert(Self::entries_text(self.kv(), pool@, n as int) =~= Seq::<char>::empty());
                assert(s@ + Seq::<char>::empty() =~= s@);
            }
            s.append("| ");
            proof {
                assert(s@ =~= self.node_text(pool@));
                assert(Self::line_text(self.nodes_at(0), pool@) =~= self.node_text(pool@)
                    + Self::line_text(Seq::<BNode>::empty(), pool@));
                assert(self.node_text(pool@) + Seq::<char>::empty() =~= self.node_text(pool@));
            }
            (s, true)
        } else {
            let mut s = String::new();
            let mut any = false;
            let n = self.children.len();
            let mut i: usize = 0;
            proof {
                assert(self.nodes_at(k as int) == Self::nodes_at_seq(self.children@, k as int, 0));
            }
            while i < n
                invariant
                    order >= 3,
                    self.wf(order as int),
                    keys_match(self.entries(), pool@),
                    n == self.children@.len(),
                    0 <= i <= n,
                    1 <= k,
                    s@ + Self::line_text(
                        Self::nodes_at_seq(self.children@, k as int, i as int),
                        pool@,
                    ) == Self::line_text(
                        Self::nodes_at_seq(self.children@, k as int, 0),
                        pool@,
                    ),
                    any == (exists|j: int|
                        0 <= j < i && (#[trigger] self.children@[j].nodes_at(
                            k as int - 1,
                        )).len() > 0),
                decreases n - i,
            {
                proof {
                    assert(self.children@[i as int].wf(order as int));
                    self.lemma_keys_match_child(order as int, i as int, pool@);
                }
                let sub = self.children[i].render_level(pool, k - 1, order);
                proof {
                    Self::lemma_line_concat(
                        self.children@[i as int].nodes_at(k as int - 1),
                        Self::nodes_at_seq(self.children@, k as int, i as int + 1),
                        pool@,
                    );
                }
                s.append(sub.0.as_str());
                if sub.1 {
                    any = true;
                }
                i = i + 1;
            }
            proof {
                assert(Self::nodes_at_seq(self.children@, k as int, n as int)
                    =~= Seq::<BNode>::empty());
                assert(s@ + Seq::<char>::empty() =~= s@);
                if any {
                    let j = choose|j: int|
                        0 <= j < n && (#[trigger] self.children@[j].nodes_at(
                            k as int - 1,
                        )).len() > 0;
                    Self::lemma_nodes_at_seq_ge(self.children@, k as int, 0, j);
                } else {
                    Self::lemma_nodes_at_seq_empty(self.children@, k as int, 0);
                }
            }
            (s, any)
        }
    }
}

} // verus!
