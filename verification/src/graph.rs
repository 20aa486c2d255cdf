//! The ASA-graph: a multiway search tree over `i32` keys whose leaf records
//! form a doubly linked chain in ascending key order, with cached extrema and
//! range-derived edge weights.

use crate::element::{Element, ElementPool, Link};
use crate::fixed::{
    dist_spec, distance, sat_add_spec, scale_by_weight, scale_spec, weight_spec,
    INTERELEMENT_ACTIVATION_THRESHOLD,
};
use crate::node::{
    all_keys_gt, all_keys_lt, bump_ok, entries_sorted, keys_match, splice_ok, BNode, Entry,
};
use crate::sensor::{bump_act, defs_in, fuzz_left, fuzz_right, fuzzy_spec, hop_act, zero_acts};
use crate::types::{ActivationOutcome, DataCategory, DataType, SensorError};
use vstd::prelude::*;

verus! {

/// What one chain position looks like from outside: its key, how many times
/// the key was inserted, and the current activation in micro-units.
pub ghost struct ElemModel {
    pub key: i32,
    pub counter: nat,
    pub activation: int,
}

/// Total number of recorded insertions across a run of the chain.
pub open spec fn sum_counters(s: Seq<ElemModel>) -> nat
    decreases s.len(),
{
    if s.len() == 0 {
        0
    } else {
        sum_counters(s.drop_last()) + s.last().counter
    }
}

/// The links of the element at chain position `t`, in both directions.
pub open spec fn topo_at(ch: Seq<Entry>, pool: Seq<Element>, t: int) -> bool {
    let e = ch[t].eid;
    &&& (t + 1 < ch.len() ==> pool[e].next is Some && pool[e].next.unwrap().to == ch[t + 1].eid)
    &&& (t + 1 == ch.len() ==> pool[e].next is None)
    &&& (t > 0 ==> pool[e].prev is Some && pool[e].prev.unwrap().to == ch[t - 1].eid)
    &&& (t == 0 ==> pool[e].prev is None)
}

/// The chain links of the pool realize `ch`, in both directions.
pub open spec fn chain_topo(ch: Seq<Entry>, pool: Seq<Element>) -> bool {
    forall|t: int| 0 <= t < ch.len() ==> #[trigger] topo_at(ch, pool, t)
}

/// The cached weights of the edge between chain positions `t` and `t + 1`
/// equal `1 - dist / range`, on both sides.
pub open spec fn weights_at(ch: Seq<Entry>, pool: Seq<Element>, range: int, t: int) -> bool {
    &&& pool[ch[t].eid].next.unwrap().weight == weight_spec(
        ch[t].key as int,
        ch[t + 1].key as int,
        range,
    )
    &&& pool[ch[t + 1].eid].prev.unwrap().weight == weight_spec(
        ch[t].key as int,
        ch[t + 1].key as int,
        range,
    )
}

/// Every cached edge weight equals `1 - dist / range` for the current range.
pub open spec fn chain_weights(ch: Seq<Entry>, pool: Seq<Element>, range: int) -> bool {
    forall|t: int| 0 <= t < ch.len() - 1 ==> #[trigger] weights_at(ch, pool, range, t)
}

/// Some chain position names the element `e`.
pub open spec fn has_eid(ch: Seq<Entry>, e: int) -> bool {
    exists|t: int| 0 <= t < ch.len() && (#[trigger] ch[t]).eid == e
}

/// Distinct chain positions name distinct elements.
pub proof fn lemma_eids_distinct(ch: Seq<Entry>, pool: Seq<Element>)
    requires
        entries_sorted(ch),
        keys_match(ch, pool),
    ensures
        forall|t1: int, t2: int|
            0 <= t1 < t2 < ch.len() ==> (#[trigger] ch[t1]).eid != (#[trigger] ch[t2]).eid,
{
    assert forall|t1: int, t2: int|
        0 <= t1 < t2 < ch.len() implies (#[trigger] ch[t1]).eid != (#[trigger] ch[t2]).eid by {
        assert(ch[t1].key < ch[t2].key);
        assert(pool[ch[t1].eid].key == ch[t1].key);
        assert(pool[ch[t2].eid].key == ch[t2].key);
    }
}

/// Inserting an entry at its sorted slot keeps the run sorted.
pub proof fn lemma_sorted_insert(ch: Seq<Entry>, pos: int, e: Entry)
    requires
        entries_sorted(ch),
        0 <= pos <= ch.len(),
        forall|j: int| 0 <= j < pos ==> (#[trigger] ch[j]).key < e.key,
        forall|j: int| pos <= j < ch.len() ==> (#[trigger] ch[j]).key > e.key,
    ensures
        entries_sorted(ch.insert(pos, e)),
{
    let c2 = ch.insert(pos, e);
    assert forall|a: int, b: int| 0 <= a < b < c2.len() implies c2[a].key < c2[b].key by {
        if a < pos {
            assert(c2[a] == ch[a]);
        } else if a > pos {
            assert(c2[a] == ch[a - 1]);
        }
        if b < pos {
            assert(c2[b] == ch[b]);
        } else if b > pos {
            assert(c2[b] == ch[b - 1]);
        }
    }
}

/// The sum grows by the inserted model's counter.
pub proof fn lemma_sum_insert(s: Seq<ElemModel>, t: int, m: ElemModel)
    requires
        0 <= t <= s.len(),
    ensures
        sum_counters(s.insert(t, m)) == sum_counters(s) + m.counter,
    decreases s.len() - t,
{
    let s2 = s.insert(t, m);
    if t == s.len() {
        assert(s2.drop_last() =~= s);
        assert(s2.last() == m);
    } else {
        assert(s2.drop_last() =~= s.drop_last().insert(t, m));
        assert(s2.last() == s.last());
        lemma_sum_insert(s.drop_last(), t, m);
    }
}

/// The sum moves exactly with the changed position.
pub proof fn lemma_sum_update(s: Seq<ElemModel>, t: int, m: ElemModel)
    requires
        0 <= t < s.len(),
    ensures
        sum_counters(s.update(t, m)) == sum_counters(s) - s[t].counter + m.counter,
    decreases s.len(),
{
    let s2 = s.update(t, m);
    if t == s.len() - 1 {
        assert(s2.drop_last() =~= s.drop_last());
        assert(s2.last() == m);
    } else {
        assert(s2.drop_last() =~= s.drop_last().update(t, m));
        assert(s2.last() == s.last());
        lemma_sum_update(s.drop_last(), t, m);
    }
}

/// No single counter exceeds the sum.
pub proof fn lemma_sum_ge(s: Seq<ElemModel>, t: int)
    requires
        0 <= t < s.len(),
    ensures
        s[t].counter <= sum_counters(s),
    decreases s.len(),
{
    if t < s.len() - 1 {
        assert(s.drop_last()[t] == s[t]);
        lemma_sum_ge(s.drop_last(), t);
    }
}

/// A prefix never sums to more than the whole run.
pub proof fn lemma_sum_prefix(s: Seq<ElemModel>, t: int)
    requires
        0 <= t <= s.len(),
    ensures
        sum_counters(s.subrange(0, t)) <= sum_counters(s),
    decreases s.len() - t,
{
    if t == s.len() {
        assert(s.subrange(0, t) =~= s);
    } else {
        assert(s.subrange(0, t) =~= s.subrange(0, t + 1).drop_last());
        assert(s.subrange(0, t + 1)[t] == s[t]);
        lemma_sum_prefix(s, t + 1);
    }
}

/// The ASA-graph itself. `ORDER` is the branching factor: a node splits when
/// it has grown to `ORDER` keys.
pub struct ASAGraph<const ORDER: usize> {
    name: String,
    data_category: DataCategory,
    root: BNode,
    elements: ElementPool,
    element_min: Option<usize>,
    element_max: Option<usize>,
    key_min: Option<i32>,
    key_max: Option<i32>,
}

impl<const ORDER: usize> View for ASAGraph<ORDER> {
    type V = Seq<ElemModel>;

    /// The graph as seen through its chain, in ascending key order.
    closed spec fn view(&self) -> Seq<ElemModel> {
        Seq::new(
            self.chain().len(),
            |t: int|
                ElemModel {
                    key: self.chain()[t].key,
                    counter: self.pool()[self.chain()[t].eid].counter as nat,
                    activation: self.pool()[self.chain()[t].eid].activation as int,
                },
        )
    }
}

impl<const ORDER: usize> ASAGraph<ORDER> {
    /// The entries of the tree in ascending key order; also the shape of the
    /// element chain.
    pub closed spec fn chain(self) -> Seq<Entry> {
        self.root.entries()
    }

    /// The backing element pool.
    pub closed spec fn pool(self) -> Seq<Element> {
        self.elements@
    }

    pub closed spec fn name_spec(self) -> Seq<char> {
        self.name@
    }

    pub closed spec fn data_category_spec(self) -> DataCategory {
        self.data_category
    }

    pub closed spec fn key_min_spec(self) -> Option<i32> {
        self.key_min
    }

    pub closed spec fn key_max_spec(self) -> Option<i32> {
        self.key_max
    }

    pub closed spec fn element_min_spec(self) -> Option<usize> {
        self.element_min
    }

    pub closed spec fn element_max_spec(self) -> Option<usize> {
        self.element_max
    }

    pub closed spec fn root_spec(self) -> BNode {
        self.root
    }

    /// `max(dist(key_min, key_max), 1)`, the denominator of every weight.
    pub closed spec fn range_spec(self) -> int {
        if self.key_min is Some && self.key_max is Some {
            let d = dist_spec(self.key_min.unwrap() as int, self.key_max.unwrap() as int);
            if d == 0 {
                1
            } else {
                d
            }
        } else {
            1
        }
    }

    /// Total number of insertions recorded so far.
    pub closed spec fn total(self) -> nat {
        sum_counters(self@)
    }

    /// Whether `k` was ever inserted.
    pub closed spec fn has_key(self, k: i32) -> bool {
        exists|t: int| 0 <= t < self.chain().len() && (#[trigger] self.chain()[t]).key == k
    }

    /// The cached extrema agree with the ends of the chain.
    pub closed spec fn extrema_ok(self) -> bool {
        if self.chain().len() == 0 {
            &&& self.key_min is None
            &&& self.key_max is None
            &&& self.element_min is None
            &&& self.element_max is None
        } else {
            &&& self.key_min == Some(self.chain()[0].key)
            &&& self.element_min == Some(self.chain()[0].eid as usize)
            &&& self.key_max == Some(self.chain().last().key)
            &&& self.element_max == Some(self.chain().last().eid as usize)
        }
    }

    /// Everything except the extrema cache and the weight values.
    pub closed spec fn wf_inner(self) -> bool {
        &&& ORDER >= 3
        &&& self.root.wf(ORDER as int)
        &&& entries_sorted(self.chain())
        &&& keys_match(self.chain(), self.pool())
        &&& self.chain().len() == self.pool().len()
        &&& (forall|e: int| 0 <= e < self.pool().len() ==> has_eid(self.chain(), e))
        &&& chain_topo(self.chain(), self.pool())
        &&& (forall|e: int|
            0 <= e < self.pool().len() ==> (#[trigger] self.pool()[e]).counter >= 1)
        &&& (self.chain().len() == 0 ==> self.root.keys@.len() == 0 && self.root.children@.len()
            == 0)
        &&& self.total() <= usize::MAX
    }

    /// The full invariant: every public operation preserves it.
    pub closed spec fn wf(self) -> bool {
        &&& self.wf_inner()
        &&& self.extrema_ok()
        &&& chain_weights(self.chain(), self.pool(), self.range_spec())
    }

    /// Builds an empty graph. The branching factor must be at least three.
    pub fn new(name: &str, data_category: DataCategory) -> (r: ASAGraph<ORDER>)
        requires
            ORDER >= 3,
        ensures
            r.wf(),
            r@ == Seq::<ElemModel>::empty(),
            r.chain() == Seq::<Entry>::empty(),
            r.pool() == Seq::<Element>::empty(),
            r.total() == 0,
            forall|k: i32| !r.has_key(k),
            r.root_spec().height() == 0,
            r.name_spec() == name@,
            r.data_category_spec() == data_category,
            r.key_min_spec() is None,
            r.key_max_spec() is None,
    {
        let r = ASAGraph {
            name: name.to_owned(),
            data_category,
            root: BNode { keys: Vec::new(), elems: Vec::new(), children: Vec::new() },
            elements: ElementPool::new(),
            element_min: None,
            element_max: None,
            key_min: None,
            key_max: None,
        };
        proof {
            assert(r.chain() =~= Seq::<Entry>::empty());
            assert(r@ =~= Seq::<ElemModel>::empty());
            assert(r.pool() =~= Seq::<Element>::empty());
            assert(r.total() == 0);
            assert(r.root_spec().height() == 0);
        }
        r
    }

    /// Refreshes every cached edge weight along the chain against `range`.
    /// Nothing but the links of the pool's elements changes.
    fn reweight_chain(pool: &mut ElementPool, start: usize, range: u64, Ghost(ch): Ghost<
        Seq<Entry>,
    >)
        requires
            range >= 1,
            ch.len() >= 1,
            ch.len() == old(pool)@.len(),
            entries_sorted(ch),
            keys_match(ch, old(pool)@),
            chain_topo(ch, old(pool)@),
            start as int == ch[0].eid,
        ensures
            final(pool)@.len() == old(pool)@.len(),
            chain_topo(ch, final(pool)@),
            keys_match(ch, final(pool)@),
            chain_weights(ch, final(pool)@, range as int),
            forall|e: int|
                0 <= e < old(pool)@.len() ==> (#[trigger] final(pool)@[e]).same_but_links(
                    old(pool)@[e],
                ),
    {
        proof {
            lemma_eids_distinct(ch, old(pool)@);
        }
        let n = pool.len();
        let mut cur = start;
        let mut t: usize = 0;
        while t + 1 < n
            invariant
                range >= 1,
                n == ch.len(),
                0 <= t < ch.len(),
                cur as int == ch[t as int].eid,
                pool@.len() == old(pool)@.len(),
                ch.len() == pool@.len(),
                entries_sorted(ch),
                keys_match(ch, pool@),
                chain_topo(ch, pool@),
                forall|t1: int, t2: int|
                    0 <= t1 < t2 < ch.len() ==> (#[trigger] ch[t1]).eid != (#[trigger] ch[t2]).eid,
                forall|e: int|
                    0 <= e < old(pool)@.len() ==> (#[trigger] pool@[e]).same_but_links(
                        old(pool)@[e],
                    ),
                forall|j: int| 0 <= j < t ==> #[trigger] weights_at(ch, pool@, range as int, j),
            decreases n - t,
        {
            proof {
                assert(topo_at(ch, pool@, t as int));
                assert(pool@[ch[t as int].eid].key == ch[t as int].key);
                assert(pool@[ch[t as int + 1].eid].key == ch[t as int + 1].key);
            }
            let l = pool.element(cur).unwrap().next.unwrap();
            let ghost pool_pre = pool@;
            proof {
                assert(l.to as int == ch[t as int + 1].eid);
                assert(ch[t as int].eid != ch[t as int + 1].eid);
            }
            pool.reweight_edge(cur, l.to, range);
            proof {
                let ti = t as int;
                assert(pool@[ch[ti].eid].key == ch[ti].key);
                assert(pool@[ch[ti + 1].eid].key == ch[ti + 1].key);
                assert(chain_topo(ch, pool@)) by {
                    assert forall|j: int| 0 <= j < ch.len() implies #[trigger] topo_at(
                        ch,
                        pool@,
                        j,
                    ) by {
                        assert(topo_at(ch, pool_pre, j));
                        if j != ti && j != ti + 1 {
                            assert(ch[j].eid != ch[ti].eid);
                            assert(ch[j].eid != ch[ti + 1].eid);
                            assert(pool@[ch[j].eid] == pool_pre[ch[j].eid]);
                        }
                    }
                }
                assert forall|j: int| 0 <= j < ti + 1 implies #[trigger] weights_at(
                    ch,
                    pool@,
                    range as int,
                    j,
                ) by {
                    if j < ti {
                        assert(weights_at(ch, pool_pre, range as int, j));
                        assert(ch[j].eid != ch[ti].eid && ch[j].eid != ch[ti + 1].eid);
                        if j + 1 != ti && j + 1 != ti + 1 {
                            assert(pool@[ch[j + 1].eid] == pool_pre[ch[j + 1].eid]);
                        }
                        assert(pool@[ch[j].eid].next == pool_pre[ch[j].eid].next);
                        assert(pool@[ch[j + 1].eid].prev == pool_pre[ch[j + 1].eid].prev);
                    }
                }
            }
            cur = l.to;
            t = t + 1;
        }
        proof {
            if n == 1 {
                assert(ch.len() as int - 1 == 0);
            }
        }
    }

    /// `max(dist(key_min, key_max), 1)` as an executable value.
    fn range_now(&self) -> (r: u64)
        requires
            self.key_min_spec() is Some,
            self.key_max_spec() is Some,
        ensures
            r as int == self.range_spec(),
            r >= 1,
    {
        let a = self.key_min.unwrap();
        let b = self.key_max.unwrap();
        let d = distance(a, b);
        if d == 0 {
            1
        } else {
            d
        }
    }

    /// First insertion ever: the root takes the key, and all four extrema
    /// point at the single fresh element.
    #[verifier::rlimit(100)]
    fn insert_first_element(&mut self, key: &i32) -> (eid: usize)
        requires
            old(self).wf(),
            old(self).chain().len() == 0,
        ensures
            final(self).wf(),
            eid == 0,
            final(self).pool().len() == 1,
            final(self).pool()[0].definitions@ == Seq::<u64>::empty(),
            final(self).chain() =~= seq![Entry { key: *key, eid: 0 }],
            final(self)@ =~= seq![ElemModel { key: *key, counter: 1nat, activation: 0int }],
            final(self).name_spec() == old(self).name_spec(),
            final(self).data_category_spec() == old(self).data_category_spec(),
    {
        let ghost o = *old(self);
        let eid = self.elements.create(*key);
        self.root.keys.push(*key);
        self.root.elems.push(eid);
        self.key_min = Some(*key);
        self.key_max = Some(*key);
        self.element_min = Some(eid);
        self.element_max = Some(eid);
        proof {
            assert(o.root.keys@.len() == 0);
            assert(o.root.children@.len() == 0);
            assert(self.root.children@.len() == 0);
            assert(self.root.kv() =~= seq![Entry { key: *key, eid: 0 }]);
            assert(self.chain() =~= seq![Entry { key: *key, eid: 0 }]);
            assert(self@ =~= seq![ElemModel { key: *key, counter: 1nat, activation: 0int }]);
            assert(self.root.wf(ORDER as int));
            assert(sum_counters(self@) == 1) by {
                assert(self@.len() == 1);
                assert(self@.drop_last() =~= Seq::<ElemModel>::empty());
                assert(sum_counters(Seq::<ElemModel>::empty()) == 0);
                assert(self@.last().counter == 1);
            }
            assert(self.wf());
        }
        eid
    }

    /// Takes note of a fresh element: when its key extends the range, the
    /// extrema move to it and every cached weight is recomputed against the
    /// new range.
    fn set_extrema(&mut self, eid: usize, Ghost(pos): Ghost<int>)
        requires
            old(self).wf_inner(),
            old(self).chain().len() >= 2,
            0 <= pos < old(self).chain().len(),
            old(self).chain()[pos].eid == eid as int,
            ({
                let rest = old(self).chain().remove(pos);
                &&& old(self).key_min_spec() == Some(rest[0].key)
                &&& old(self).element_min_spec() == Some(rest[0].eid as usize)
                &&& old(self).key_max_spec() == Some(rest.last().key)
                &&& old(self).element_max_spec() == Some(rest.last().eid as usize)
            }),
            chain_weights(old(self).chain(), old(self).pool(), old(self).range_spec()),
        ensures
            final(self).wf(),
            final(self).chain() == old(self).chain(),
            final(self)@ == old(self)@,
            final(self).name_spec() == old(self).name_spec(),
            final(self).data_category_spec() == old(self).data_category_spec(),
            final(self).pool().len() == old(self).pool().len(),
            forall|e: int|
                0 <= e < old(self).pool().len() ==> (#[trigger] final(self).pool()[e]).same_but_links(
                    old(self).pool()[e],
                ),
    {
        let ghost o = *old(self);
        let ghost ch = o.chain();
        let ghost rest = ch.remove(pos);
        // reading the length pins the pool's size within `usize`
        let n_bound = self.elements.len();
        proof {
            assert(o.pool().len() <= usize::MAX);
            assert(o.pool()[ch[pos].eid].key == ch[pos].key);
            assert forall|j: int| 0 <= j < rest.len() implies #[trigger] rest[j] == (if j < pos {
                ch[j]
            } else {
                ch[j + 1]
            }) by {}
        }
        let key = self.elements.element(eid).unwrap().key;
        let mut changed = false;
        if key < self.key_min.unwrap() {
            self.key_min = Some(key);
            self.element_min = Some(eid);
            changed = true;
            proof {
                assert(pos == 0) by {
                    if pos > 0 {
                        assert(rest[0] == ch[0]);
                        assert(ch[0].key < ch[pos].key);
                    }
                }
            }
        } else {
            proof {
                assert(pos > 0) by {
                    if pos == 0 {
                        assert(rest[0] == ch[1]);
                        assert(ch[0].key < ch[1].key);
                    }
                }
                assert(rest[0] == ch[0]);
            }
        }
        if key > self.key_max.unwrap() {
            self.key_max = Some(key);
            self.element_max = Some(eid);
            changed = true;
            proof {
                assert(pos == ch.len() - 1) by {
                    if pos < ch.len() - 1 {
                        assert(rest.last() == ch[ch.len() - 1]);
                        assert(ch[pos].key < ch[ch.len() - 1].key);
                    }
                }
            }
        } else {
            proof {
                assert(pos < ch.len() - 1) by {
                    if pos == ch.len() - 1 {
                        assert(rest.last() == ch[ch.len() - 2]);
                        assert(ch[ch.len() - 2].key < ch[pos].key);
                    }
                }
                assert(rest.last() == ch.last());
            }
        }
        proof {
            assert(self.extrema_ok());
        }
        if changed {
            let rng = self.range_now();
            let start = self.element_min.unwrap();
            proof {
                assert(o.pool()[ch[0].eid].key == ch[0].key);
                assert(o.pool()[ch[ch.len() - 1].eid].key == ch[ch.len() - 1].key);
                if ch.len() >= 2 {
                    assert(o.pool()[ch[1].eid].key == ch[1].key);
                }
                assert(start as int == ch[0].eid);
            }
            Self::reweight_chain(&mut self.elements, start, rng, Ghost(ch));
            proof {
                assert(self@ =~= o@);
            }
        } else {
            proof {
                assert(self.range_spec() == o.range_spec());
                assert(self@ =~= o@);
                assert(forall|e: int|
                    0 <= e < o.pool().len() ==> (#[trigger] self.pool()[e]).same_but_links(
                        o.pool()[e],
                    ));
            }
        }
    }

    /// Counts `key` once more: a duplicate only moves its element's counter,
    /// a new key gains an element placed in the tree, the chain and, when it
    /// extends the range, the extrema. Returns the element's index.
    pub fn insert(&mut self, key: &i32) -> (eid: usize)
        requires
            old(self).wf(),
            old(self).total() < usize::MAX,
        ensures
            final(self).wf(),
            final(self).name_spec() == old(self).name_spec(),
            final(self).data_category_spec() == old(self).data_category_spec(),
            final(self).total() == old(self).total() + 1,
            eid < final(self).pool().len(),
            final(self).pool()[eid as int].key == *key,
            final(self).has_key(*key),
            old(self).has_key(*key) ==> final(self).pool().len() == old(self).pool().len(),
            !old(self).has_key(*key) ==> final(self).pool().len() == old(self).pool().len() + 1
                && final(self).pool()[old(self).pool().len() as int].definitions@ == Seq::<
                u64,
            >::empty(),
            forall|e: int|
                0 <= e < old(self).pool().len() ==> (#[trigger] final(self).pool()[e]).definitions@
                    == old(self).pool()[e].definitions@,
            (exists|t: int|
                0 <= t < final(self).chain().len() && #[trigger] final(self).chain()[t] == (Entry {
                    key: *key,
                    eid: eid as int,
                })),
            old(self).has_key(*key) ==> (exists|t: int|
                {
                    &&& 0 <= t < old(self).chain().len()
                    &&& (#[trigger] old(self).chain()[t]).key == *key
                    &&& final(self).chain() == old(self).chain()
                    &&& final(self)@ == old(self)@.update(
                        t,
                        ElemModel {
                            key: *key,
                            counter: (old(self)@[t].counter + 1) as nat,
                            activation: old(self)@[t].activation,
                        },
                    )
                }),
            !old(self).has_key(*key) ==> (exists|t: int|
                {
                    &&& 0 <= t <= old(self).chain().len()
                    &&& eid == old(self).pool().len()
                    &&& final(self).chain() == old(self).chain().insert(
                        t,
                        Entry { key: *key, eid: eid as int },
                    )
                    &&& final(self)@ == old(self)@.insert(
                        t,
                        ElemModel { key: *key, counter: 1nat, activation: 0int },
                    )
                    &&& (forall|j: int|
                        0 <= j < t ==> (#[trigger] old(self).chain()[j]).key < *key)
                    &&& (forall|j: int|
                        t <= j < old(self).chain().len() ==> (#[trigger] old(
                            self,
                        ).chain()[j]).key > *key)
                }),
    {
        let ghost o = *old(self);
        if self.elements.len() == 0 {
            let eid = self.insert_first_element(key);
            proof {
                assert(!o.has_key(*key));
                assert(self.chain() =~= o.chain().insert(0, Entry { key: *key, eid: 0 }));
                assert(self@ =~= o@.insert(
                    0,
                    ElemModel { key: *key, counter: 1nat, activation: 0int },
                ));
                assert(sum_counters(o@) == 0);
                assert(self@.drop_last() =~= Seq::<ElemModel>::empty());
                assert(sum_counters(Seq::<ElemModel>::empty()) == 0);
                assert(sum_counters(self@) == 1);
                assert(self.chain()[0] == (Entry { key: *key, eid: 0 }));
                assert(self.pool()[0].key == *key);
            }
            eid
        } else {
            self.insert_nonempty(key)
        }
    }

    /// The descent part of [`Self::insert`], for a graph that holds at least
    /// one element.
    #[verifier::rlimit(100)]
    fn insert_nonempty(&mut self, key: &i32) -> (eid: usize)
        requires
            old(self).wf(),
            old(self).total() < usize::MAX,
            old(self).chain().len() >= 1,
        ensures
            final(self).wf(),
            final(self).name_spec() == old(self).name_spec(),
            final(self).data_category_spec() == old(self).data_category_spec(),
            final(self).total() == old(self).total() + 1,
            eid < final(self).pool().len(),
            final(self).pool()[eid as int].key == *key,
            final(self).has_key(*key),
            old(self).has_key(*key) ==> final(self).pool().len() == old(self).pool().len(),
            !old(self).has_key(*key) ==> final(self).pool().len() == old(self).pool().len() + 1
                && final(self).pool()[old(self).pool().len() as int].definitions@ == Seq::<
                u64,
            >::empty(),
            forall|e: int|
                0 <= e < old(self).pool().len() ==> (#[trigger] final(self).pool()[e]).definitions@
                    == old(self).pool()[e].definitions@,
            (exists|t: int|
                0 <= t < final(self).chain().len() && #[trigger] final(self).chain()[t] == (Entry {
                    key: *key,
                    eid: eid as int,
                })),
            old(self).has_key(*key) ==> (exists|t: int|
                {
                    &&& 0 <= t < old(self).chain().len()
                    &&& (#[trigger] old(self).chain()[t]).key == *key
                    &&& final(self).chain() == old(self).chain()
                    &&& final(self)@ == old(self)@.update(
                        t,
                        ElemModel {
                            key: *key,
                            counter: (old(self)@[t].counter + 1) as nat,
                            activation: old(self)@[t].activation,
                        },
                    )
                }),
            !old(self).has_key(*key) ==> (exists|t: int|
                {
                    &&& 0 <= t <= old(self).chain().len()
                    &&& eid == old(self).pool().len()
                    &&& final(self).chain() == old(self).chain().insert(
                        t,
                        Entry { key: *key, eid: eid as int },
                    )
                    &&& final(self)@ == old(self)@.insert(
                        t,
                        ElemModel { key: *key, counter: 1nat, activation: 0int },
                    )
                    &&& (forall|j: int|
                        0 <= j < t ==> (#[trigger] old(self).chain()[j]).key < *key)
                    &&& (forall|j: int|
                        t <= j < old(self).chain().len() ==> (#[trigger] old(
                            self,
                        ).chain()[j]).key > *key)
                }),
    {
        let ghost o = *old(self);
        if self.root.keys.len() == ORDER {
            self.root.split_root(ORDER);
        }
        let ghost mid = *self;
        proof {
            assert(mid.chain() == o.chain());
            assert(mid.pool() == o.pool());
            assert(mid@ =~= o@);
        }
        let kmin = self.key_min.unwrap();
        let kmax = self.key_max.unwrap();
        let from_right = distance(*key, kmax) > distance(*key, kmin);
        let rng = self.range_now();
        proof {
            assert(Seq::<Entry>::empty() + mid.chain() + Seq::<Entry>::empty() =~= mid.chain());
            assert forall|e: int|
                0 <= e < mid.pool().len() implies (#[trigger] mid.pool()[e]).counter
                < usize::MAX by {
                assert(has_eid(mid.chain(), e));
                let t = choose|t: int|
                    0 <= t < mid.chain().len() && (#[trigger] mid.chain()[t]).eid == e;
                lemma_sum_ge(mid@, t);
                assert(mid@[t].counter == mid.pool()[e].counter);
            }
        }
        let rr = self.root.insert_at(
            &mut self.elements,
            ORDER,
            *key,
            from_right,
            None,
            None,
            rng,
            Ghost(Seq::<Entry>::empty()),
            Ghost(Seq::<Entry>::empty()),
        );
        let eid = rr.0;
        let is_new = rr.1;
        let ghost pos = rr.2@;
        // reading the length pins the pool's size within `usize`
        let pool_n = self.elements.len();
        if is_new {
            proof {
                assert(self.pool().len() <= usize::MAX);
                lemma_insert_new_case(mid, *self, pos, *key, rng as int, eid as int);
            }
            self.set_extrema(eid, Ghost(pos));
            proof {
                assert(self.chain()[pos] == (Entry { key: *key, eid: eid as int }));
                assert(self.pool()[self.chain()[pos].eid].key == self.chain()[pos].key);
                assert(!o.has_key(*key));
            }
        } else {
            proof {
                lemma_insert_dup_case(mid, *self, pos, *key);
                assert(mid.chain()[pos] == (Entry { key: *key, eid: eid as int }));
                assert(self.pool()[self.chain()[pos].eid].key == self.chain()[pos].key);
            }
        }
        eid
    }
    /// Name of the graph, shared as the parent of every element's identity.
    pub fn name(&self) -> (r: &str)
        ensures
            r@ == self.name_spec(),
    {
        self.name.as_str()
    }

    /// Identity of the sensor: its name.
    pub fn id(&self) -> (r: String)
        ensures
            r@ == self.name_spec(),
    {
        self.name.clone()
    }

    /// Identity of an element when presented as a neuron: its printed key
    /// and the graph's name.
    pub fn neuron_id(&self, eid: usize) -> (r: Option<crate::types::NeuronID>)
        ensures
            eid < self.pool().len() ==> r is Some && r.unwrap().id@ == crate::text::dec_int(
                self.pool()[eid as int].key as int,
            ) && r.unwrap().parent_id@ == self.name_spec(),
            eid >= self.pool().len() ==> r is None,
    {
        match self.elements.element(eid) {
            Some(e) => Some(
                crate::types::NeuronID {
                    id: crate::text::i64_dec(e.key as i64),
                    parent_id: self.name.clone(),
                },
            ),
            None => None,
        }
    }

    /// The concrete type of the keys this sensor holds.
    pub fn data_type(&self) -> (r: DataType)
        ensures
            r == DataType::I32,
    {
        DataType::I32
    }

    pub fn data_category(&self) -> (r: DataCategory)
        ensures
            r == self.data_category_spec(),
    {
        self.data_category
    }

    pub fn key_min(&self) -> (r: Option<i32>)
        ensures
            r == self.key_min_spec(),
    {
        self.key_min
    }

    pub fn key_max(&self) -> (r: Option<i32>)
        ensures
            r == self.key_max_spec(),
    {
        self.key_max
    }

    pub fn element_min(&self) -> (r: Option<usize>)
        ensures
            r == self.element_min_spec(),
    {
        self.element_min
    }

    pub fn element_max(&self) -> (r: Option<usize>)
        ensures
            r == self.element_max_spec(),
    {
        self.element_max
    }

    /// Read access to an element by its index.
    pub fn element(&self, eid: usize) -> (r: Option<&Element>)
        ensures
            eid < self.pool().len() ==> r == Some(&self.pool()[eid as int]),
            eid >= self.pool().len() ==> r is None,
    {
        self.elements.element(eid)
    }

    /// The first key held by the root node, if any.
    pub fn root_first_key(&self) -> (r: Option<i32>)
        ensures
            self.root_spec().keys@.len() > 0 ==> r == Some(self.root_spec().keys@[0]),
            self.root_spec().keys@.len() == 0 ==> r is None,
    {
        if self.root.keys.len() > 0 {
            Some(self.root.keys[0])
        } else {
            None
        }
    }

    /// `max(dist(key_min, key_max), 1)`; undefined while the graph is empty.
    pub fn range(&self) -> (r: Option<u64>)
        requires
            self.wf(),
        ensures
            self@.len() == 0 ==> r is None,
            self@.len() > 0 ==> r == Some(self.range_spec() as u64) && r.unwrap() as int
                == self.range_spec(),
    {
        if self.key_min.is_none() || self.key_max.is_none() {
            return None;
        }
        Some(self.range_now())
    }

    /// Finds the element carrying `key`: some element exactly when `key` was
    /// inserted before, and then the element's key equals `key`.
    pub fn search(&self, key: &i32) -> (r: Option<usize>)
        requires
            self.wf(),
        ensures
            (r is Some) <==> self.has_key(*key),
            (r is Some) ==> r.unwrap() < self.pool().len() && self.pool()[r.unwrap() as int].key
                == *key,
            (r is Some) ==> (exists|t: int|
                0 <= t < self.chain().len() && #[trigger] self.chain()[t] == (Entry {
                    key: *key,
                    eid: r.unwrap() as int,
                })),
    {
        if self.key_min.is_none() || self.key_max.is_none() {
            proof {
                assert(self.chain().len() == 0);
                assert(!self.has_key(*key));
            }
            return None;
        }
        let kmin = self.key_min.unwrap();
        let kmax = self.key_max.unwrap();
        let from_right = !(distance(*key, kmax) > distance(*key, kmin));
        let r = self.root.search_at(ORDER, *key, from_right);
        proof {
            if r is Some {
                let t = choose|t: int|
                    0 <= t < self.chain().len() && self.chain()[t] == (Entry {
                        key: *key,
                        eid: r.unwrap() as int,
                    });
                assert(self.has_key(*key)) by {
                    assert(self.chain()[t].key == *key);
                }
                assert(self.pool()[self.chain()[t].eid].key == self.chain()[t].key);
            } else {
                assert(!self.has_key(*key)) by {
                    if self.has_key(*key) {
                        let t = choose|t: int|
                            0 <= t < self.chain().len() && (#[trigger] self.chain()[t]).key
                                == *key;
                        assert(self.chain()[t].key == *key);
                    }
                }
            }
        }
        r
    }

    /// Number of unique keys: the length of the chain, counted by walking it.
    pub fn count_elements_unique(&self) -> (n: usize)
        requires
            self.wf(),
        ensures
            n == self@.len(),
    {
        let mut counter: usize = 0;
        // reading the length pins the pool's size within `usize`
        let pool_n = self.elements.len();
        let mut cur = match self.element_min {
            Some(e) => e,
            None => {
                proof {
                    assert(self.chain().len() == 0);
                }
                return 0;
            },
        };
        let ghost t: int = 0;
        proof {
            assert(self.chain().len() > 0);
            assert(self.pool()[self.chain()[0].eid].key == self.chain()[0].key);
        }
        loop
            invariant_except_break
                self.wf(),
                0 <= t < self.chain().len(),
                cur as int == self.chain()[t].eid,
                counter == t,
            ensures
                counter == self@.len(),
            decreases self.chain().len() - t,
        {
            proof {
                assert(topo_at(self.chain(), self.pool(), t));
                assert(self.pool()[self.chain()[t].eid].key == self.chain()[t].key);
                assert(self.total() <= usize::MAX);
                assert forall|j: int|
                    0 <= j < self@.len() implies (#[trigger] self@[j]).counter >= 1 by {
                    assert(self.pool()[self.chain()[j].eid].key == self.chain()[j].key);
                }
                lemma_sum_prefix_each(self@, t);
                assert(counter < usize::MAX);
            }
            counter = counter + 1;
            let nxt = self.elements.element(cur).unwrap().next;
            match nxt {
                Some(l) => {
                    proof {
                        assert(l.to as int == self.chain()[t + 1].eid);
                        assert(self.pool()[self.chain()[t + 1].eid].key == self.chain()[t
                            + 1].key);
                    }
                    cur = l.to;
                    proof {
                        t = t + 1;
                    }
                },
                None => {
                    proof {
                        assert(t + 1 == self.chain().len());
                    }
                    break ;
                },
            }
        }
        counter
    }

    /// Total number of insertions: the sum of all counters, by walking the
    /// chain.
    pub fn count_elements_agg(&self) -> (n: usize)
        requires
            self.wf(),
        ensures
            n as nat == self.total(),
    {
        let mut acc: usize = 0;
        // reading the length pins the pool's size within `usize`
        let pool_n = self.elements.len();
        let mut cur = match self.element_min {
            Some(e) => e,
            None => {
                proof {
                    assert(self.chain().len() == 0);
                    assert(self@ =~= Seq::<ElemModel>::empty());
                }
                return 0;
            },
        };
        let ghost t: int = 0;
        proof {
            assert(self.chain().len() > 0);
            assert(self.pool()[self.chain()[0].eid].key == self.chain()[0].key);
            assert(self@.subrange(0, 0) =~= Seq::<ElemModel>::empty());
        }
        loop
            invariant_except_break
                self.wf(),
                0 <= t < self.chain().len(),
                cur as int == self.chain()[t].eid,
                acc as nat == sum_counters(self@.subrange(0, t)),
            ensures
                acc as nat == self.total(),
            decreases self.chain().len() - t,
        {
            proof {
                assert(topo_at(self.chain(), self.pool(), t));
                assert(self.pool()[self.chain()[t].eid].key == self.chain()[t].key);
                lemma_sum_prefix(self@, t + 1);
                assert(self@.subrange(0, t + 1).drop_last() =~= self@.subrange(0, t));
                assert(self@.subrange(0, t + 1).last() == self@[t]);
                assert(sum_counters(self@.subrange(0, t + 1)) == sum_counters(
                    self@.subrange(0, t),
                ) + self@[t].counter);
                assert(self.total() <= usize::MAX);
                assert(self@[t].counter == self.pool()[self.chain()[t].eid].counter);
            }
            let e = self.elements.element(cur).unwrap();
            let c = e.counter;
            let nxt = e.next;
            proof {
                assert(acc + c == sum_counters(self@.subrange(0, t + 1)));
                assert(acc + c <= usize::MAX);
            }
            acc = acc + c;
            match nxt {
                Some(l) => {
                    proof {
                        assert(l.to as int == self.chain()[t + 1].eid);
                        assert(self.pool()[self.chain()[t + 1].eid].key == self.chain()[t
                            + 1].key);
                    }
                    cur = l.to;
                    proof {
                        t = t + 1;
                    }
                },
                None => {
                    proof {
                        assert(t + 1 == self.chain().len());
                        assert(self@.subrange(0, t + 1) =~= self@);
                    }
                    break ;
                },
            }
        }
        acc
    }

    /// The indices of all elements in ascending key order, by walking the
    /// chain from `element_min`.
    pub fn ordered_elements(&self) -> (r: Vec<usize>)
        requires
            self.wf(),
        ensures
            r@.len() == self@.len(),
            forall|t: int| 0 <= t < r@.len() ==> (#[trigger] r@[t]) as int == self.chain()[t].eid,
    {
        let mut out: Vec<usize> = Vec::new();
        // reading the length pins the pool's size within `usize`
        let pool_n = self.elements.len();
        let mut cur = match self.element_min {
            Some(e) => e,
            None => {
                proof {
                    assert(self.chain().len() == 0);
                }
                return Vec::new();
            },
        };
        let ghost t: int = 0;
        proof {
            assert(self.chain().len() > 0);
            assert(self.pool()[self.chain()[0].eid].key == self.chain()[0].key);
        }
        loop
            invariant_except_break
                self.wf(),
                0 <= t < self.chain().len(),
                cur as int == self.chain()[t].eid,
                out@.len() == t,
                forall|j: int|
                    0 <= j < t ==> (#[trigger] out@[j]) as int == self.chain()[j].eid,
            ensures
                out@.len() == self@.len(),
                forall|j: int|
                    0 <= j < out@.len() ==> (#[trigger] out@[j]) as int == self.chain()[j].eid,
            decreases self.chain().len() - t,
        {
            proof {
                assert(topo_at(self.chain(), self.pool(), t));
                assert(self.pool()[self.chain()[t].eid].key == self.chain()[t].key);
            }
            out.push(cur);
            let nxt = self.elements.element(cur).unwrap().next;
            match nxt {
                Some(l) => {
                    proof {
                        assert(l.to as int == self.chain()[t + 1].eid);
                        assert(self.pool()[self.chain()[t + 1].eid].key == self.chain()[t
                            + 1].key);
                    }
                    cur = l.to;
                    proof {
                        t = t + 1;
                    }
                },
                None => {
                    proof {
                        assert(t + 1 == self.chain().len());
                    }
                    break ;
                },
            }
        }
        out
    }

    /// Activates the element holding `item` with `signal`. A missing key is
    /// inserted first for numerical and ordinal sensors when horizontal
    /// propagation is on; otherwise the activation fails. With horizontal
    /// propagation the activation spreads along the chain (fuzzy activation),
    /// without it only the element itself moves. The outcome carries the
    /// harvested neuron handles for the caller's vertical propagation.
    #[verifier::rlimit(100)]
    pub fn activate(
        &mut self,
        item: &i32,
        signal: i64,
        propagate_horizontal: bool,
        propagate_vertical: bool,
    ) -> (r: Result<ActivationOutcome, SensorError>)
        requires
            old(self).wf(),
            old(self).total() < usize::MAX,
        ensures
            final(self).name_spec() == old(self).name_spec(),
            final(self).data_category_spec() == old(self).data_category_spec(),
            (r is Err) ==> *final(self) == *old(self) && !old(self).has_key(*item),
            (r is Err) ==> r == Err::<ActivationOutcome, SensorError>(
                if old(self).data_category_spec() == DataCategory::Categorical {
                    SensorError::ActivationMissingCategorical(*item)
                } else {
                    SensorError::ActivationMissingNonCategorical(*item)
                },
            ),
            (r is Err) <==> !old(self).has_key(*item) && (old(self).data_category_spec()
                == DataCategory::Categorical || !propagate_horizontal),
            (r is Ok) ==> final(self).wf() && r.unwrap().neurons@.no_duplicates(),
            final(self).pool().len() >= old(self).pool().len(),
            forall|e: int|
                0 <= e < old(self).pool().len() ==> (#[trigger] final(self).pool()[e]).definitions@
                    == old(self).pool()[e].definitions@,
            ((r is Ok) && old(self).has_key(*item)) ==> final(self).pool().len() == old(
                self,
            ).pool().len() && (forall|e: int|
                0 <= e < old(self).pool().len() ==> (#[trigger] final(self).pool()[e]).same_but_activation(
                    old(self).pool()[e],
                )),
            ((r is Ok) && !old(self).has_key(*item)) ==> final(self).pool().len() == old(
                self,
            ).pool().len() + 1 && final(self).pool()[old(self).pool().len() as int].definitions@
                == Seq::<u64>::empty(),
            ((r is Ok) && old(self).has_key(*item)) ==> final(self).total() == old(self).total()
                && final(self).chain() == old(self).chain() && (exists|t: int|
                {
                    &&& 0 <= t < old(self).chain().len()
                    &&& (#[trigger] old(self).chain()[t]).key == *item
                    &&& (if propagate_horizontal {
                        let f = fuzzy_spec(
                            old(self)@,
                            old(self).range_spec(),
                            t,
                            signal as int,
                        );
                        final(self)@ == f.0 && r.unwrap().neurons@.to_set() == defs_in(
                            old(self).pool(),
                            old(self).chain(),
                            f.1,
                            f.2,
                        )
                    } else {
                        final(self)@ == bump_act(
                            old(self)@,
                            t,
                            sat_add_spec(old(self)@[t].activation, signal as int),
                        ) && r.unwrap().neurons@.to_set() == old(self).pool()[old(
                            self,
                        ).chain()[t].eid].definitions@.to_set()
                    })
                    &&& r.unwrap().source_activation as int == final(self)@[t].activation
                }),
            ((r is Ok) && !old(self).has_key(*item)) ==> propagate_horizontal
                && final(self).total() == old(self).total() + 1 && (exists|t: int|
                {
                    &&& 0 <= t <= old(self).chain().len()
                    &&& final(self).chain() == old(self).chain().insert(
                        t,
                        Entry { key: *item, eid: old(self).pool().len() as int },
                    )
                    &&& ({
                        let v1 = old(self)@.insert(
                            t,
                            ElemModel { key: *item, counter: 1nat, activation: 0int },
                        );
                        let f = fuzzy_spec(v1, final(self).range_spec(), t, signal as int);
                        &&& final(self)@ == f.0
                        &&& r.unwrap().neurons@.to_set() == defs_in(
                            final(self).pool(),
                            final(self).chain(),
                            f.1,
                            f.2,
                        )
                        &&& r.unwrap().source_activation as int == final(self)@[t].activation
                    })
                }),
    {
        let ghost o = *old(self);
        let found = self.search(item);
        let eid = match found {
            Some(e) => e,
            None => {
                match self.data_category {
                    DataCategory::Categorical => {
                        return Err(SensorError::ActivationMissingCategorical(*item));
                    },
                    _ => {
                        if propagate_horizontal {
                            self.insert(item)
                        } else {
                            return Err(SensorError::ActivationMissingNonCategorical(*item));
                        }
                    },
                }
            },
        };
        let ghost mid = *self;
        let ghost t = choose|t: int|
            0 <= t < mid.chain().len() && #[trigger] mid.chain()[t] == (Entry {
                key: *item,
                eid: eid as int,
            });
        proof {
            if found is Some {
                assert(mid == o);
            }
        }
        let out;
        if propagate_horizontal {
            out = self.fuzzy_activate_at(eid, signal, Ghost(t));
        } else {
            // reading the length pins the pool's size within `usize`
        let pool_n = self.elements.len();
            proof {
                lemma_eids_distinct(mid.chain(), mid.pool());
                assert(mid.pool()[mid.chain()[t].eid].key == mid.chain()[t].key);
            }
            self.elements.add_activation(eid, signal);
            let mut harvested: Vec<u64> = Vec::new();
            merge_defs(&mut harvested, &self.elements.element(eid).unwrap().definitions);
            proof {
                Self::lemma_wf_frame(mid, *self);
                assert forall|e: int|
                    0 <= e < mid.pool().len() implies (#[trigger] self.pool()[e]).same_but_activation(
                    mid.pool()[e],
                ) by {}
                assert(self@ =~= bump_act(
                    mid@,
                    t,
                    sat_add_spec(mid@[t].activation, signal as int),
                )) by {
                    assert forall|j: int| 0 <= j < self@.len() implies self@[j] == bump_act(
                        mid@,
                        t,
                        sat_add_spec(mid@[t].activation, signal as int),
                    )[j] by {
                        assert(mid.pool()[mid.chain()[j].eid].key == mid.chain()[j].key);
                        if j != t {
                            assert(mid.chain()[j].eid != mid.chain()[t].eid);
                        }
                    }
                }
                assert(harvested@.to_set() =~= mid.pool()[mid.chain()[t].eid].definitions@.to_set());
            }
            out = harvested;
        }
        let src = match self.elements.element(eid) {
            Some(e) => e.activation,
            None => 0,
        };
        proof {
            assert(self.pool()[self.chain()[t].eid].key == self.chain()[t].key);
            assert(src as int == self@[t].activation);
            assert forall|e: int|
                0 <= e < o.pool().len() implies (#[trigger] self.pool()[e]).definitions@
                == o.pool()[e].definitions@ by {
                assert(self.pool()[e].same_but_activation(mid.pool()[e]));
            }
            if !o.has_key(*item) {
                assert(self.pool()[mid.pool().len() - 1].same_but_activation(
                    mid.pool()[mid.pool().len() - 1],
                ));
            }
            if !o.has_key(*item) {
                // the element was inserted first: line its position up with
                // the insertion position reported by `insert`
                let t2 = choose|t2: int|
                    {
                        &&& 0 <= t2 <= o.chain().len()
                        &&& mid.chain() == o.chain().insert(
                            t2,
                            Entry { key: *item, eid: o.pool().len() as int },
                        )
                        &&& mid@ == o@.insert(
                            t2,
                            ElemModel { key: *item, counter: 1nat, activation: 0int },
                        )
                    };
                lemma_eids_distinct(mid.chain(), mid.pool());
                assert(mid.chain()[t2] == (Entry { key: *item, eid: o.pool().len() as int }));
                assert(eid as int == o.pool().len() as int);
                assert(t == t2);
                assert(self.range_spec() == mid.range_spec());
                assert(forall|e: int|
                    0 <= e < mid.pool().len() ==> (#[trigger] self.pool()[e]).definitions@
                        == mid.pool()[e].definitions@);
                let f = fuzzy_spec(mid@, mid.range_spec(), t, signal as int);
                if propagate_horizontal {
                    lemma_eids_distinct(mid.chain(), mid.pool());
                    assert(0 <= f.1 < mid.chain().len() && 0 <= f.2 < mid.chain().len()) by {
                        lemma_fuzz_bounds(mid@, mid.range_spec(), t, signal as int);
                        assert(mid@.len() == mid.chain().len());
                    }
                    lemma_defs_in_same(mid.pool(), self.pool(), mid.chain(), f.1, f.2);
                }
            }
        }
        Ok(ActivationOutcome { neurons: out, source_activation: src })
    }

    /// Deactivates the element holding `item`: its activation is reset to
    /// zero, and with horizontal propagation so is every neighbour's, to both
    /// ends of the chain. Returns the element's defining handles for the
    /// caller's vertical propagation.
    pub fn deactivate(
        &mut self,
        item: &i32,
        propagate_horizontal: bool,
        propagate_vertical: bool,
    ) -> (r: Result<Vec<u64>, SensorError>)
        requires
            old(self).wf(),
        ensures
            final(self).name_spec() == old(self).name_spec(),
            final(self).data_category_spec() == old(self).data_category_spec(),
            (r is Err) ==> *final(self) == *old(self) && r == Err::<Vec<u64>, SensorError>(
                SensorError::DeactivationMissing(*item),
            ),
            (r is Ok) <==> old(self).has_key(*item),
            final(self).pool().len() == old(self).pool().len(),
            forall|e: int|
                0 <= e < old(self).pool().len() ==> (#[trigger] final(self).pool()[e]).same_but_activation(
                    old(self).pool()[e],
                ),
            (r is Ok) ==> final(self).wf() && final(self).chain() == old(self).chain()
                && final(self).total() == old(self).total() && (exists|t: int|
                {
                    &&& 0 <= t < old(self).chain().len()
                    &&& (#[trigger] old(self).chain()[t]).key == *item
                    &&& (if propagate_horizontal {
                        final(self)@ == zero_acts(old(self)@)
                    } else {
                        final(self)@ == bump_act(old(self)@, t, 0)
                    })
                    &&& r.unwrap()@ == old(self).pool()[old(self).chain()[t].eid].definitions@
                }),
    {
        let ghost o = *old(self);
        let found = self.search(item);
        let eid = match found {
            Some(e) => e,
            None => {
                return Err(SensorError::DeactivationMissing(*item));
            },
        };
        let ghost t = choose|t: int|
            0 <= t < o.chain().len() && #[trigger] o.chain()[t] == (Entry {
                key: *item,
                eid: eid as int,
            });
        // reading the length pins the pool's size within `usize`
        let pool_n = self.elements.len();
        proof {
            lemma_eids_distinct(o.chain(), o.pool());
            assert(o.pool()[o.chain()[t].eid].key == o.chain()[t].key);
        }
        let defs = copy_handles(&self.elements.element(eid).unwrap().definitions);
        self.elements.reset_activation(eid);
        proof {
            Self::lemma_wf_frame(o, *self);
            assert(self@ =~= bump_act(o@, t, 0)) by {
                assert forall|j: int| 0 <= j < self@.len() implies self@[j] == bump_act(
                    o@,
                    t,
                    0,
                )[j] by {
                    assert(o.pool()[o.chain()[j].eid].key == o.chain()[j].key);
                    if j != t {
                        assert(o.chain()[j].eid != o.chain()[t].eid);
                    }
                }
            }
        }
        if propagate_horizontal {
            self.zero_chain_right(eid, Ghost(t));
            self.zero_chain_left(eid, Ghost(t));
            proof {
                assert(self@ =~= zero_acts(o@)) by {
                    assert forall|j: int| 0 <= j < self@.len() implies self@[j] == zero_acts(
                        o@,
                    )[j] by {}
                }
            }
        }
        proof {
            assert forall|e: int|
                0 <= e < o.pool().len() implies (#[trigger] self.pool()[e]).same_but_activation(
                o.pool()[e],
            ) by {}
        }
        Ok(defs)
    }

    /// Appends a defining connection from the element at `eid` towards the
    /// higher-order neuron handle `to`. Any other connection kind is refused.
    pub fn connect(&mut self, eid: usize, to: u64, kind: crate::types::ConnectionKind) -> (r:
        Result<(), SensorError>)
        requires
            old(self).wf(),
            eid < old(self).pool().len(),
        ensures
            final(self).wf(),
            final(self).chain() == old(self).chain(),
            final(self)@ == old(self)@,
            final(self).total() == old(self).total(),
            final(self).name_spec() == old(self).name_spec(),
            final(self).data_category_spec() == old(self).data_category_spec(),
            final(self).pool().len() == old(self).pool().len(),
            forall|e: int|
                0 <= e < old(self).pool().len() && e != eid ==> (#[trigger] final(self).pool()[e])
                    == old(self).pool()[e],
            final(self).pool()[eid as int].same_core(old(self).pool()[eid as int]),
            final(self).pool()[eid as int].activation == old(self).pool()[eid as int].activation,
            (kind is Defining) ==> r is Ok && final(self).pool()[eid as int].definitions@ == old(
                self,
            ).pool()[eid as int].definitions@.push(to),
            !(kind is Defining) ==> r == Err::<(), SensorError>(
                SensorError::UnsupportedConnection,
            ) && final(self).pool() == old(self).pool(),
    {
        let ghost o = *old(self);
        let r = self.elements.connect(eid, to, kind);
        proof {
            Self::lemma_wf_frame(o, *self);
            assert(self@ =~= o@) by {
                assert forall|j: int| 0 <= j < self@.len() implies self@[j] == o@[j] by {
                    assert(o.pool()[o.chain()[j].eid].key == o.chain()[j].key);
                }
            }
            if !(kind is Defining) {
                assert(self.pool() =~= o.pool());
            }
        }
        r
    }

    /// The level-order dump of the tree: one line per level, each node as
    /// `||key:counter|...| `, with a line break after every level. The
    /// height bound is a machine limit on the depth of the tree.
    pub fn print_graph(&self) -> (s: String)
        requires
            self.wf(),
            self.root_spec().height() < usize::MAX,
        ensures
            s@ == self.root_spec().levels_text(
                self.pool(),
                0,
                self.root_spec().height() as int,
            ),
    {
        let ghost h = self.root_spec().height() as int;
        let ghost full = self.root_spec().levels_text(self.pool(), 0, h);
        let mut s = String::new();
        let mut k: usize = 0;
        proof {
            assert(s@ + self.root_spec().levels_text(self.pool(), 0, h) =~= full);
        }
        loop
            invariant_except_break
                self.wf(),
                self.root_spec().height() < usize::MAX,
                h == self.root_spec().height() as int,
                full == self.root_spec().levels_text(self.pool(), 0, h),
                0 <= k as int <= h + 1,
                s@ + self.root_spec().levels_text(self.pool(), k as int, h) == full,
            ensures
                s@ == full,
            decreases h + 2 - k as int,
        {
            let level = self.root.render_level(&self.elements, k, ORDER);
            if !level.1 {
                proof {
                    if k as int <= h {
                        self.root_spec().lemma_nodes_at_nonempty(k as int);
                    }
                    assert(k as int > h);
                    assert(self.root_spec().levels_text(self.pool(), k as int, h)
                        == Seq::<char>::empty());
                    assert(s@ + Seq::<char>::empty() =~= s@);
                }
                break ;
            }
            proof {
                if k as int > h {
                    self.root_spec().lemma_nodes_at_empty(k as int);
                }
                assert(k as int <= h);
                reveal_strlit("\n");
            }
            let ghost s_pre = s@;
            s.append(level.0.as_str());
            s.append("\n");
            proof {
                assert(self.root_spec().levels_text(self.pool(), k as int, h) == BNode::line_text(
                    self.root_spec().nodes_at(k as int),
                    self.pool(),
                ) + seq!['\n'] + self.root_spec().levels_text(self.pool(), k as int + 1, h));
                assert(s@ + self.root_spec().levels_text(self.pool(), k as int + 1, h) =~= s_pre
                    + self.root_spec().levels_text(self.pool(), k as int, h));
            }
            k = k + 1;
        }
        s
    }

    /// Bridge: the view lines up with the chain and the pool, position by
    /// position — same length, same key, and the pool element at that chain
    /// position carries the view's counter and activation.
    pub proof fn lemma_view_chain_pool(self)
        requires
            self.wf(),
        ensures
            self@.len() == self.chain().len(),
            self.chain().len() == self.pool().len(),
            forall|t: int|
                0 <= t < self@.len() ==> {
                    let e = (#[trigger] self.chain()[t]).eid;
                    &&& 0 <= e < self.pool().len()
                    &&& self@[t].key == self.chain()[t].key
                    &&& self@[t].key == self.pool()[e].key
                    &&& self@[t].counter == self.pool()[e].counter
                    &&& self@[t].activation == self.pool()[e].activation
                },
    {
        assert forall|t: int|
            0 <= t < self@.len() implies {
            let e = (#[trigger] self.chain()[t]).eid;
            &&& 0 <= e < self.pool().len()
            &&& self@[t].key == self.chain()[t].key
            &&& self@[t].key == self.pool()[e].key
            &&& self@[t].counter == self.pool()[e].counter
            &&& self@[t].activation == self.pool()[e].activation
        } by {
            assert(self.pool()[self.chain()[t].eid].key == self.chain()[t].key);
        }
    }

    /// Bridge: a key was inserted exactly when some view position carries it.
    pub proof fn lemma_has_key_view(self, k: i32)
        requires
            self.wf(),
        ensures
            self.has_key(k) <==> (exists|t: int|
                0 <= t < self@.len() && (#[trigger] self@[t]).key == k),
    {
        if self.has_key(k) {
            let t = choose|t: int|
                0 <= t < self.chain().len() && (#[trigger] self.chain()[t]).key == k;
            assert(self@[t].key == k);
        }
        if exists|t: int| 0 <= t < self@.len() && (#[trigger] self@[t]).key == k {
            let t = choose|t: int| 0 <= t < self@.len() && (#[trigger] self@[t]).key == k;
            assert(self.chain()[t].key == k);
        }
    }

    /// Bridge: the running total of insertions is the sum of the view's
    /// counters.
    pub proof fn lemma_total_is_sum(self)
        ensures
            self.total() == sum_counters(self@),
    {
    }

    /// Law: the chain is exactly the in-order traversal of the tree — the
    /// `next` links realize the tree's sorted entry run, starting at
    /// `element_min` and ending at `element_max`.
    pub proof fn lemma_chain_tree_agreement(self)
        requires
            self.wf(),
        ensures
            self.chain() == self.root_spec().entries(),
            chain_topo(self.chain(), self.pool()),
            self@.len() > 0 ==> self.element_min_spec() == Some(
                self.chain()[0].eid as usize,
            ) && self.element_max_spec() == Some(self.chain().last().eid as usize),
            self@.len() == 0 ==> self.element_min_spec() is None && self.element_max_spec() is None,
    {
    }

    /// Law: the number of elements equals the number of distinct keys ever
    /// inserted — every pool element sits at exactly one chain position, and
    /// the chain's keys are strictly ascending.
    pub proof fn lemma_uniqueness(self)
        requires
            self.wf(),
        ensures
            self.pool().len() == self.chain().len(),
            forall|t1: int, t2: int|
                0 <= t1 < t2 < self.chain().len() ==> (#[trigger] self.chain()[t1]).key < (
                #[trigger] self.chain()[t2]).key,
            forall|e: int| 0 <= e < self.pool().len() ==> has_eid(self.chain(), e),
    {
    }

    /// Law: `key_min` and `key_max` are the least and greatest keys under the
    /// total order, and the extremal elements carry them.
    pub proof fn lemma_extrema(self)
        requires
            self.wf(),
            self@.len() > 0,
        ensures
            self.key_min_spec() == Some(self.chain()[0].key),
            self.key_max_spec() == Some(self.chain().last().key),
            forall|t: int|
                0 <= t < self.chain().len() ==> self.chain()[0].key <= (
                #[trigger] self.chain()[t]).key <= self.chain().last().key,
            self.element_min_spec() == Some(self.chain()[0].eid as usize),
            self.element_max_spec() == Some(self.chain().last().eid as usize),
    {
    }

    /// Law: every cached chain edge weight equals `1 - dist(a, b) / range`
    /// with `range = max(dist(key_min, key_max), 1)`.
    pub proof fn lemma_weight_consistency(self)
        requires
            self.wf(),
        ensures
            chain_weights(self.chain(), self.pool(), self.range_spec()),
            self@.len() > 0 ==> self.range_spec() == (if dist_spec(
                self.key_min_spec().unwrap() as int,
                self.key_max_spec().unwrap() as int,
            ) == 0 {
                1int
            } else {
                dist_spec(
                    self.key_min_spec().unwrap() as int,
                    self.key_max_spec().unwrap() as int,
                )
            }),
    {
    }

    /// Law: size bounds of the tree. Every node holds at most `ORDER` keys —
    /// a node that has grown to `ORDER` keys is split around its median
    /// before it is next descended into, so the resting capacity is `ORDER`,
    /// not `ORDER - 1`. Every non-root node holds at least
    /// `ORDER - ORDER / 2 - 1` keys, the smaller half of a split. Both bounds
    /// are conjuncts of the open [`BNode::wf`] predicate, stated here for the
    /// root and recursively for every node below it.
    pub proof fn lemma_btree_bound(self)
        requires
            self.wf(),
        ensures
            self.root_spec().wf(ORDER as int),
    {
    }
    /// Frame rule: changes that keep every element's key, counter and links
    /// keep the whole invariant; only the view's activations may move.
    proof fn lemma_wf_frame(a: Self, b: Self)
        requires
            a.wf(),
            b.root_spec() == a.root_spec(),
            b.key_min_spec() == a.key_min_spec(),
            b.key_max_spec() == a.key_max_spec(),
            b.element_min_spec() == a.element_min_spec(),
            b.element_max_spec() == a.element_max_spec(),
            b.pool().len() == a.pool().len(),
            forall|e: int|
                0 <= e < a.pool().len() ==> (#[trigger] b.pool()[e]).same_core(a.pool()[e]),
        ensures
            b.wf(),
            b.chain() == a.chain(),
            b.total() == a.total(),
            forall|t: int|
                0 <= t < b@.len() ==> (#[trigger] b@[t]).key == a@[t].key && b@[t].counter
                    == a@[t].counter,
    {
        assert(b.chain() == a.chain());
        assert(keys_match(b.chain(), b.pool())) by {
            assert forall|t: int|
                0 <= t < b.chain().len() implies 0 <= (#[trigger] b.chain()[t]).eid
                < b.pool().len() && b.pool()[b.chain()[t].eid].key == b.chain()[t].key by {
                assert(a.pool()[a.chain()[t].eid].key == a.chain()[t].key);
            }
        }
        assert(chain_topo(b.chain(), b.pool())) by {
            assert forall|t: int| 0 <= t < b.chain().len() implies #[trigger] topo_at(
                b.chain(),
                b.pool(),
                t,
            ) by {
                assert(topo_at(a.chain(), a.pool(), t));
                assert(a.pool()[a.chain()[t].eid].key == a.chain()[t].key);
                assert(b.pool()[b.chain()[t].eid].next == a.pool()[a.chain()[t].eid].next);
                assert(b.pool()[b.chain()[t].eid].prev == a.pool()[a.chain()[t].eid].prev);
            }
        }
        assert(chain_weights(b.chain(), b.pool(), b.range_spec())) by {
            assert forall|t: int| 0 <= t < b.chain().len() - 1 implies #[trigger] weights_at(
                b.chain(),
                b.pool(),
                b.range_spec(),
                t,
            ) by {
                assert(weights_at(a.chain(), a.pool(), a.range_spec(), t));
                assert(a.pool()[a.chain()[t].eid].key == a.chain()[t].key);
                assert(a.pool()[a.chain()[t + 1].eid].key == a.chain()[t + 1].key);
                assert(b.pool()[b.chain()[t].eid].next == a.pool()[a.chain()[t].eid].next);
                assert(b.pool()[b.chain()[t + 1].eid].prev == a.pool()[a.chain()[t
                    + 1].eid].prev);
            }
        }
        assert forall|e: int|
            0 <= e < b.pool().len() implies (#[trigger] b.pool()[e]).counter >= 1 by {
            assert(a.pool()[e].counter >= 1);
        }
        assert forall|t: int|
            0 <= t < b@.len() implies (#[trigger] b@[t]).key == a@[t].key && b@[t].counter
            == a@[t].counter by {
            assert(a.pool()[a.chain()[t].eid].key == a.chain()[t].key);
        }
        lemma_sum_same_counters(b@, a@);
        assert(b.wf());
    }

    /// Resets every activation from chain position `p` rightwards to zero.
    fn zero_chain_right(&mut self, start: usize, Ghost(p): Ghost<int>)
        requires
            old(self).wf(),
            0 <= p < old(self).chain().len(),
            old(self).chain()[p].eid == start as int,
        ensures
            final(self).wf(),
            final(self).chain() == old(self).chain(),
            final(self).total() == old(self).total(),
            final(self).name_spec() == old(self).name_spec(),
            final(self).data_category_spec() == old(self).data_category_spec(),
            final(self).pool().len() == old(self).pool().len(),
            forall|e: int|
                0 <= e < old(self).pool().len() ==> (#[trigger] final(self).pool()[e]).same_but_activation(
                    old(self).pool()[e],
                ),
            final(self)@ =~= Seq::new(
                old(self)@.len(),
                |t: int|
                    if t >= p {
                        ElemModel {
                            key: old(self)@[t].key,
                            counter: old(self)@[t].counter,
                            activation: 0,
                        }
                    } else {
                        old(self)@[t]
                    },
            ),
    {
        let ghost g0 = *old(self);
        let mut cur = start;
        let ghost t: int = p;
        // reading the length pins the pool's size within `usize`
        let pool_n = self.elements.len();
        proof {
            assert(g0.pool()[g0.chain()[p].eid].key == g0.chain()[p].key);
        }
        loop
            invariant_except_break
                g0.wf(),
                0 <= p <= t < g0.chain().len(),
                cur as int == g0.chain()[t].eid,
                self.name_spec() == g0.name_spec(),
                self.data_category_spec() == g0.data_category_spec(),
                self.root_spec() == g0.root_spec(),
                self.key_min_spec() == g0.key_min_spec(),
                self.key_max_spec() == g0.key_max_spec(),
                self.element_min_spec() == g0.element_min_spec(),
                self.element_max_spec() == g0.element_max_spec(),
                self.pool().len() == g0.pool().len(),
                forall|e: int|
                    0 <= e < g0.pool().len() ==> (#[trigger] self.pool()[e]).same_but_activation(
                        g0.pool()[e],
                    ),
                forall|j: int|
                    0 <= j < g0.chain().len() ==> (#[trigger] self.pool()[g0.chain()[j].eid]).activation
                        == (if p <= j < t { 0int } else { g0.pool()[g0.chain()[j].eid].activation as int }),
            ensures
                self.name_spec() == g0.name_spec(),
                self.data_category_spec() == g0.data_category_spec(),
                self.root_spec() == g0.root_spec(),
                self.key_min_spec() == g0.key_min_spec(),
                self.key_max_spec() == g0.key_max_spec(),
                self.element_min_spec() == g0.element_min_spec(),
                self.element_max_spec() == g0.element_max_spec(),
                self.pool().len() == g0.pool().len(),
                forall|e: int|
                    0 <= e < g0.pool().len() ==> (#[trigger] self.pool()[e]).same_but_activation(
                        g0.pool()[e],
                    ),
                forall|j: int|
                    0 <= j < g0.chain().len() ==> (#[trigger] self.pool()[g0.chain()[j].eid]).activation
                        == (if p <= j { 0int } else { g0.pool()[g0.chain()[j].eid].activation as int }),
            decreases g0.chain().len() - t,
        {
            proof {
                assert(topo_at(g0.chain(), g0.pool(), t));
                assert(g0.pool()[g0.chain()[t].eid].key == g0.chain()[t].key);
                lemma_eids_distinct(g0.chain(), g0.pool());
            }
            self.elements.reset_activation(cur);
            let nxt = self.elements.element(cur).unwrap().next;
            match nxt {
                Some(l) => {
                    proof {
                        assert(self.pool()[g0.chain()[t].eid].next == g0.pool()[g0.chain()[
                            t
                        ].eid].next);
                        assert(l.to as int == g0.chain()[t + 1].eid);
                        assert(g0.pool()[g0.chain()[t + 1].eid].key == g0.chain()[t + 1].key);
                    }
                    cur = l.to;
                    proof {
                        t = t + 1;
                    }
                },
                None => {
                    proof {
                        assert(self.pool()[g0.chain()[t].eid].next == g0.pool()[g0.chain()[
                            t
                        ].eid].next);
                        assert(t + 1 == g0.chain().len());
                    }
                    break ;
                },
            }
        }
        proof {
            assert forall|e: int|
                0 <= e < g0.pool().len() implies (#[trigger] self.pool()[e]).same_core(
                g0.pool()[e],
            ) by {}
            Self::lemma_wf_frame(g0, *self);
            lemma_eids_distinct(g0.chain(), g0.pool());
            assert forall|j: int| 0 <= j < self@.len() implies self@[j] == (if j >= p {
                ElemModel { key: g0@[j].key, counter: g0@[j].counter, activation: 0 }
            } else {
                g0@[j]
            }) by {
                assert(g0.pool()[g0.chain()[j].eid].key == g0.chain()[j].key);
            }
        }
    }

    /// Resets every activation from chain position `p` leftwards to zero.
    fn zero_chain_left(&mut self, start: usize, Ghost(p): Ghost<int>)
        requires
            old(self).wf(),
            0 <= p < old(self).chain().len(),
            old(self).chain()[p].eid == start as int,
        ensures
            final(self).wf(),
            final(self).chain() == old(self).chain(),
            final(self).total() == old(self).total(),
            final(self).name_spec() == old(self).name_spec(),
            final(self).data_category_spec() == old(self).data_category_spec(),
            final(self).pool().len() == old(self).pool().len(),
            forall|e: int|
                0 <= e < old(self).pool().len() ==> (#[trigger] final(self).pool()[e]).same_but_activation(
                    old(self).pool()[e],
                ),
            final(self)@ =~= Seq::new(
                old(self)@.len(),
                |t: int|
                    if t <= p {
                        ElemModel {
                            key: old(self)@[t].key,
                            counter: old(self)@[t].counter,
                            activation: 0,
                        }
                    } else {
                        old(self)@[t]
                    },
            ),
    {
        let ghost g0 = *old(self);
        let mut cur = start;
        let ghost t: int = p;
        // reading the length pins the pool's size within `usize`
        let pool_n = self.elements.len();
        proof {
            assert(g0.pool()[g0.chain()[p].eid].key == g0.chain()[p].key);
        }
        loop
            invariant_except_break
                g0.wf(),
                0 <= t <= p,
                cur as int == g0.chain()[t].eid,
                p < g0.chain().len(),
                self.name_spec() == g0.name_spec(),
                self.data_category_spec() == g0.data_category_spec(),
                self.root_spec() == g0.root_spec(),
                self.key_min_spec() == g0.key_min_spec(),
                self.key_max_spec() == g0.key_max_spec(),
                self.element_min_spec() == g0.element_min_spec(),
                self.element_max_spec() == g0.element_max_spec(),
                self.pool().len() == g0.pool().len(),
                forall|e: int|
                    0 <= e < g0.pool().len() ==> (#[trigger] self.pool()[e]).same_but_activation(
                        g0.pool()[e],
                    ),
                forall|j: int|
                    0 <= j < g0.chain().len() ==> (#[trigger] self.pool()[g0.chain()[j].eid]).activation
                        == (if t < j <= p { 0int } else { g0.pool()[g0.chain()[j].eid].activation as int }),
            ensures
                self.name_spec() == g0.name_spec(),
                self.data_category_spec() == g0.data_category_spec(),
                self.root_spec() == g0.root_spec(),
                self.key_min_spec() == g0.key_min_spec(),
                self.key_max_spec() == g0.key_max_spec(),
                self.element_min_spec() == g0.element_min_spec(),
                self.element_max_spec() == g0.element_max_spec(),
                self.pool().len() == g0.pool().len(),
                forall|e: int|
                    0 <= e < g0.pool().len() ==> (#[trigger] self.pool()[e]).same_but_activation(
                        g0.pool()[e],
                    ),
                forall|j: int|
                    0 <= j < g0.chain().len() ==> (#[trigger] self.pool()[g0.chain()[j].eid]).activation
                        == (if j <= p { 0int } else { g0.pool()[g0.chain()[j].eid].activation as int }),
            decreases t,
        {
            proof {
                assert(topo_at(g0.chain(), g0.pool(), t));
                assert(g0.pool()[g0.chain()[t].eid].key == g0.chain()[t].key);
                lemma_eids_distinct(g0.chain(), g0.pool());
            }
            self.elements.reset_activation(cur);
            let prv = self.elements.element(cur).unwrap().prev;
            match prv {
                Some(l) => {
                    proof {
                        assert(self.pool()[g0.chain()[t].eid].prev == g0.pool()[g0.chain()[
                            t
                        ].eid].prev);
                        assert(l.to as int == g0.chain()[t - 1].eid);
                        assert(g0.pool()[g0.chain()[t - 1].eid].key == g0.chain()[t - 1].key);
                    }
                    cur = l.to;
                    proof {
                        t = t - 1;
                    }
                },
                None => {
                    proof {
                        assert(self.pool()[g0.chain()[t].eid].prev == g0.pool()[g0.chain()[
                            t
                        ].eid].prev);
                        assert(t == 0);
                    }
                    break ;
                },
            }
        }
        proof {
            assert forall|e: int|
                0 <= e < g0.pool().len() implies (#[trigger] self.pool()[e]).same_core(
                g0.pool()[e],
            ) by {}
            Self::lemma_wf_frame(g0, *self);
            lemma_eids_distinct(g0.chain(), g0.pool());
            assert forall|j: int| 0 <= j < self@.len() implies self@[j] == (if j <= p {
                ElemModel { key: g0@[j].key, counter: g0@[j].counter, activation: 0 }
            } else {
                g0@[j]
            }) by {
                assert(g0.pool()[g0.chain()[j].eid].key == g0.chain()[j].key);
            }
        }
    }

    /// Fuzzy activation of the element at chain position `p`: the element
    /// takes `signal`, and the resulting activation propagates to both sides
    /// while it stays above the interelement threshold. Returns the handles
    /// of every higher-order neuron defined by an element that was reached.
    #[verifier::rlimit(100)]
    fn fuzzy_activate_at(&mut self, eid: usize, signal: i64, Ghost(p): Ghost<int>) -> (out: Vec<
        u64,
    >)
        requires
            old(self).wf(),
            0 <= p < old(self).chain().len(),
            old(self).chain()[p].eid == eid as int,
        ensures
            final(self).wf(),
            final(self).chain() == old(self).chain(),
            final(self).total() == old(self).total(),
            final(self).name_spec() == old(self).name_spec(),
            final(self).data_category_spec() == old(self).data_category_spec(),
            final(self).pool().len() == old(self).pool().len(),
            forall|e: int|
                0 <= e < old(self).pool().len() ==> (#[trigger] final(self).pool()[e]).same_but_activation(
                    old(self).pool()[e],
                ),
            ({
                let f = fuzzy_spec(old(self)@, old(self).range_spec(), p, signal as int);
                &&& final(self)@ == f.0
                &&& out@.no_duplicates()
                &&& out@.to_set() == defs_in(old(self).pool(), old(self).chain(), f.1, f.2)
                &&& final(self)@[p].activation == sat_add_spec(
                    old(self)@[p].activation,
                    signal as int,
                )
            }),
    {
        let ghost g0 = *old(self);
        let ghost ch = g0.chain();
        let ghost rng = g0.range_spec();
        // reading the length pins the pool's size within `usize`
        let pool_n = self.elements.len();
        proof {
            lemma_eids_distinct(ch, g0.pool());
            assert(g0.pool()[ch[p].eid].key == ch[p].key);
        }
        self.elements.add_activation(eid, signal);
        let a0 = match self.elements.element(eid) {
            Some(e) => e.activation,
            None => 0,
        };
        let ghost v0 = bump_act(g0@, p, a0 as int);
        proof {
            assert(self@ =~= v0) by {
                assert forall|j: int| 0 <= j < self@.len() implies self@[j] == v0[j] by {
                    assert(g0.pool()[ch[j].eid].key == ch[j].key);
                    if j != p {
                        assert(ch[j].eid != ch[p].eid);
                    }
                }
            }
        }
        let mut out: Vec<u64> = Vec::new();
        merge_defs(&mut out, &self.elements.element(eid).unwrap().definitions);
        proof {
            assert(defs_in(g0.pool(), ch, p, p) =~= Set::<u64>::empty().union(
                g0.pool()[ch[p].eid].definitions@.to_set(),
            )) by {
                assert(defs_in(g0.pool(), ch, p + 1, p) == Set::<u64>::empty());
            }
            assert(out@.to_set() =~= defs_in(g0.pool(), ch, p, p));
        }
        // walk towards greater keys
        let mut prop: i64 = a0;
        let mut cur: usize = eid;
        let ghost mut q: int = p;
        loop
            invariant_except_break
                g0.wf(),
                0 <= p <= q < ch.len(),
                ch == g0.chain(),
                rng == g0.range_spec(),
                v0 == bump_act(g0@, p, a0 as int),
                g0@.len() == ch.len(),
                cur as int == ch[q].eid,
                self.name_spec() == g0.name_spec(),
                self.data_category_spec() == g0.data_category_spec(),
                self.root_spec() == g0.root_spec(),
                self.key_min_spec() == g0.key_min_spec(),
                self.key_max_spec() == g0.key_max_spec(),
                self.element_min_spec() == g0.element_min_spec(),
                self.element_max_spec() == g0.element_max_spec(),
                self.pool().len() == g0.pool().len(),
                forall|e: int|
                    0 <= e < g0.pool().len() ==> (#[trigger] self.pool()[e]).same_but_activation(
                        g0.pool()[e],
                    ),
                prop as int == self@[q].activation,
                fuzz_right(self@, rng, q, prop as int) == fuzz_right(v0, rng, p, a0 as int),
                out@.no_duplicates(),
                out@.to_set() == defs_in(g0.pool(), ch, p, q),
            ensures
                g0.wf(),
                0 <= p <= q < ch.len(),
                self.name_spec() == g0.name_spec(),
                self.data_category_spec() == g0.data_category_spec(),
                self.root_spec() == g0.root_spec(),
                self.key_min_spec() == g0.key_min_spec(),
                self.key_max_spec() == g0.key_max_spec(),
                self.element_min_spec() == g0.element_min_spec(),
                self.element_max_spec() == g0.element_max_spec(),
                self.pool().len() == g0.pool().len(),
                forall|e: int|
                    0 <= e < g0.pool().len() ==> (#[trigger] self.pool()[e]).same_but_activation(
                        g0.pool()[e],
                    ),
                self@ == fuzz_right(v0, rng, p, a0 as int).0,
                q == fuzz_right(v0, rng, p, a0 as int).1,
                self@[p].activation == a0 as int,
                out@.no_duplicates(),
                out@.to_set() == defs_in(g0.pool(), ch, p, q),
            decreases ch.len() - q,
        {
            if !(prop > INTERELEMENT_ACTIVATION_THRESHOLD) {
                proof {
                    assert(fuzz_right(self@, rng, q, prop as int) == (self@, q));
                    assert(self@[p].activation == v0[p].activation) by {
                        lemma_fuzz_right_below(v0, rng, p, a0 as int);
                    }
                }
                break ;
            }
            proof {
                assert(topo_at(ch, g0.pool(), q));
                assert(g0.pool()[ch[q].eid].key == ch[q].key);
            }
            let lnk = self.elements.element(cur).unwrap().next;
            match lnk {
                None => {
                    proof {
                        assert(self.pool()[ch[q].eid].next == g0.pool()[ch[q].eid].next);
                        assert(q + 1 == ch.len());
                        assert(fuzz_right(self@, rng, q, prop as int) == (self@, q));
                        assert(self@[p].activation == v0[p].activation) by {
                            lemma_fuzz_right_below(v0, rng, p, a0 as int);
                        }
                    }
                    break ;
                },
                Some(l) => {
                    proof {
                        assert(self.pool()[ch[q].eid].next == g0.pool()[ch[q].eid].next);
                        assert(l.to as int == ch[q + 1].eid);
                        assert(g0.pool()[ch[q + 1].eid].key == ch[q + 1].key);
                        assert(weights_at(ch, g0.pool(), rng, q));
                        assert(l.weight == weight_spec(ch[q].key as int, ch[q + 1].key as int, rng));
                        assert(l.weight.den >= 1 && l.weight.num <= l.weight.den);
                    }
                    let contribution = scale_by_weight(prop, l.weight);
                    let ghost vpre = self@;
                    self.elements.add_activation(l.to, contribution);
                    let na = match self.elements.element(l.to) {
                        Some(e) => e.activation,
                        None => 0,
                    };
                    merge_defs(&mut out, &self.elements.element(l.to).unwrap().definitions);
                    proof {
                        assert(self@ =~= bump_act(vpre, q + 1, na as int)) by {
                            assert forall|j: int|
                                0 <= j < self@.len() implies self@[j] == bump_act(
                                vpre,
                                q + 1,
                                na as int,
                            )[j] by {
                                assert(g0.pool()[ch[j].eid].key == ch[j].key);
                                if j != q + 1 {
                                    assert(ch[j].eid != ch[q + 1].eid);
                                }
                            }
                        }
                        assert(na as int == hop_act(vpre, rng, q, q + 1, prop as int));
                        assert(fuzz_right(vpre, rng, q, prop as int) == fuzz_right(
                            self@,
                            rng,
                            q + 1,
                            na as int,
                        ));
                        lemma_defs_snoc(g0.pool(), ch, p, q + 1);
                        assert(self.pool()[ch[q + 1].eid].definitions@ == g0.pool()[ch[q
                            + 1].eid].definitions@);
                        assert(out@.to_set() =~= defs_in(g0.pool(), ch, p, q + 1));
                    }
                    cur = l.to;
                    prop = na;
                    proof {
                        q = q + 1;
                    }
                },
            }
        }
        let ghost v1 = self@;
        let ghost rstop = q;
        // walk towards smaller keys
        let mut prop2: i64 = a0;
        let mut cur2: usize = eid;
        let ghost mut q2: int = p;
        loop
            invariant_except_break
                g0.wf(),
                0 <= q2 <= p < ch.len(),
                0 <= p <= rstop < ch.len(),
                ch == g0.chain(),
                rng == g0.range_spec(),
                cur2 as int == ch[q2].eid,
                self.name_spec() == g0.name_spec(),
                self.data_category_spec() == g0.data_category_spec(),
                self.root_spec() == g0.root_spec(),
                self.key_min_spec() == g0.key_min_spec(),
                self.key_max_spec() == g0.key_max_spec(),
                self.element_min_spec() == g0.element_min_spec(),
                self.element_max_spec() == g0.element_max_spec(),
                self.pool().len() == g0.pool().len(),
                forall|e: int|
                    0 <= e < g0.pool().len() ==> (#[trigger] self.pool()[e]).same_but_activation(
                        g0.pool()[e],
                    ),
                prop2 as int == self@[q2].activation || q2 == p,
                q2 == p ==> prop2 == a0,
                fuzz_left(self@, rng, q2, prop2 as int) == fuzz_left(v1, rng, p, a0 as int),
                out@.no_duplicates(),
                out@.to_set() == defs_in(g0.pool(), ch, q2, p - 1).union(
                    defs_in(g0.pool(), ch, p, rstop),
                ),
            ensures
                self.name_spec() == g0.name_spec(),
                self.data_category_spec() == g0.data_category_spec(),
                self.root_spec() == g0.root_spec(),
                self.key_min_spec() == g0.key_min_spec(),
                self.key_max_spec() == g0.key_max_spec(),
                self.element_min_spec() == g0.element_min_spec(),
                self.element_max_spec() == g0.element_max_spec(),
                self.pool().len() == g0.pool().len(),
                forall|e: int|
                    0 <= e < g0.pool().len() ==> (#[trigger] self.pool()[e]).same_but_activation(
                        g0.pool()[e],
                    ),
                self@ == fuzz_left(v1, rng, p, a0 as int).0,
                0 <= fuzz_left(v1, rng, p, a0 as int).1 <= p,
                out@.no_duplicates(),
                out@.to_set() == defs_in(g0.pool(), ch, fuzz_left(v1, rng, p, a0 as int).1, p
                    - 1).union(defs_in(g0.pool(), ch, p, rstop)),
            decreases q2,
        {
            if !(prop2 > INTERELEMENT_ACTIVATION_THRESHOLD) {
                proof {
                    assert(fuzz_left(self@, rng, q2, prop2 as int) == (self@, q2));
                }
                break ;
            }
            proof {
                assert(topo_at(ch, g0.pool(), q2));
                assert(g0.pool()[ch[q2].eid].key == ch[q2].key);
            }
            let lnk = self.elements.element(cur2).unwrap().prev;
            match lnk {
                None => {
                    proof {
                        assert(self.pool()[ch[q2].eid].prev == g0.pool()[ch[q2].eid].prev);
                        assert(q2 == 0);
                        assert(fuzz_left(self@, rng, q2, prop2 as int) == (self@, q2));
                    }
                    break ;
                },
                Some(l) => {
                    proof {
                        assert(self.pool()[ch[q2].eid].prev == g0.pool()[ch[q2].eid].prev);
                        assert(l.to as int == ch[q2 - 1].eid);
                        assert(g0.pool()[ch[q2 - 1].eid].key == ch[q2 - 1].key);
                        assert(weights_at(ch, g0.pool(), rng, q2 - 1));
                        assert(l.weight == weight_spec(
                            ch[q2 - 1].key as int,
                            ch[q2].key as int,
                            rng,
                        ));
                        assert(l.weight == weight_spec(
                            ch[q2].key as int,
                            ch[q2 - 1].key as int,
                            rng,
                        ));
                        assert(l.weight.den >= 1 && l.weight.num <= l.weight.den);
                    }
                    let contribution = scale_by_weight(prop2, l.weight);
                    let ghost vpre = self@;
                    self.elements.add_activation(l.to, contribution);
                    let na = match self.elements.element(l.to) {
                        Some(e) => e.activation,
                        None => 0,
                    };
                    merge_defs(&mut out, &self.elements.element(l.to).unwrap().definitions);
                    proof {
                        assert(self@ =~= bump_act(vpre, q2 - 1, na as int)) by {
                            assert forall|j: int|
                                0 <= j < self@.len() implies self@[j] == bump_act(
                                vpre,
                                q2 - 1,
                                na as int,
                            )[j] by {
                                assert(g0.pool()[ch[j].eid].key == ch[j].key);
                                if j != q2 - 1 {
                                    assert(ch[j].eid != ch[q2 - 1].eid);
                                }
                            }
                        }
                        assert(na as int == hop_act(vpre, rng, q2, q2 - 1, prop2 as int));
                        assert(fuzz_left(vpre, rng, q2, prop2 as int) == fuzz_left(
                            self@,
                            rng,
                            q2 - 1,
                            na as int,
                        ));
                        assert(self.pool()[ch[q2 - 1].eid].definitions@ == g0.pool()[ch[q2
                            - 1].eid].definitions@);
                        assert(defs_in(g0.pool(), ch, q2 - 1, p - 1) =~= g0.pool()[ch[q2
                            - 1].eid].definitions@.to_set().union(defs_in(g0.pool(), ch, q2, p - 1)));
                        assert(out@.to_set() =~= defs_in(g0.pool(), ch, q2 - 1, p - 1).union(
                            defs_in(g0.pool(), ch, p, rstop),
                        ));
                    }
                    cur2 = l.to;
                    prop2 = na;
                    proof {
                        q2 = q2 - 1;
                    }
                },
            }
        }
        proof {
            Self::lemma_wf_frame(g0, *self);
            let f = fuzzy_spec(g0@, rng, p, signal as int);
            let lstop = fuzz_left(v1, rng, p, a0 as int).1;
            lemma_defs_split(g0.pool(), ch, lstop, p - 1, rstop);
            assert(out@.to_set() =~= defs_in(g0.pool(), ch, lstop, rstop));
            assert(self@ == f.0);
            assert(self@[p].activation == a0 as int) by {
                lemma_fuzz_left_above(v1, rng, p, a0 as int);
            }
        }
        out
    }

    /// Resets every element of the sensor to activation zero, walking the
    /// chain from `element_min`.
    pub fn deactivate_sensor(&mut self)
        requires
            old(self).wf(),
        ensures
            final(self).wf(),
            final(self).chain() == old(self).chain(),
            final(self).total() == old(self).total(),
            final(self).name_spec() == old(self).name_spec(),
            final(self).data_category_spec() == old(self).data_category_spec(),
            final(self)@ == zero_acts(old(self)@),
            final(self).pool().len() == old(self).pool().len(),
            forall|e: int|
                0 <= e < old(self).pool().len() ==> (#[trigger] final(self).pool()[e]).same_but_activation(
                    old(self).pool()[e],
                ),
    {
        let ghost g0 = *old(self);
        let start = match self.element_min {
            Some(e) => e,
            None => {
                proof {
                    assert(self.chain().len() == 0);
                    assert(self@ =~= zero_acts(g0@));
                    assert(forall|e: int|
                        0 <= e < g0.pool().len() ==> (#[trigger] self.pool()[e]).same_but_activation(
                            g0.pool()[e],
                        ));
                }
                return ;
            },
        };
        // reading the length pins the pool's size within `usize`
        let pool_n = self.elements.len();
        proof {
            assert(g0.chain().len() > 0);
            assert(g0.pool()[g0.chain()[0].eid].key == g0.chain()[0].key);
        }
        self.zero_chain_right(start, Ghost(0));
        proof {
            assert(self@ =~= zero_acts(g0@));
        }
    }
}

/// Counting the first `t` positions never exceeds the length of the run
/// itself, counter by counter.
pub proof fn lemma_sum_prefix_each(s: Seq<ElemModel>, t: int)
    requires
        0 <= t < s.len(),
        forall|j: int| 0 <= j < s.len() ==> (#[trigger] s[j]).counter >= 1,
    ensures
        t < sum_counters(s),
    decreases s.len(),
{
    if t == s.len() - 1 {
        lemma_sum_prefix(s, t);
        lemma_sum_each_ge_len(s.subrange(0, t));
    } else {
        assert(s.drop_last()[t] == s[t]);
        assert forall|j: int|
            0 <= j < s.drop_last().len() implies (#[trigger] s.drop_last()[j]).counter >= 1 by {
            assert(s.drop_last()[j] == s[j]);
        }
        lemma_sum_prefix_each(s.drop_last(), t);
    }
}

/// A run of counters that are each at least one sums to at least its length.
pub proof fn lemma_sum_each_ge_len(s: Seq<ElemModel>)
    requires
        forall|j: int| 0 <= j < s.len() ==> (#[trigger] s[j]).counter >= 1,
    ensures
        sum_counters(s) >= s.len(),
    decreases s.len(),
{
    if s.len() > 0 {
        assert forall|j: int|
            0 <= j < s.drop_last().len() implies (#[trigger] s.drop_last()[j]).counter >= 1 by {
            assert(s.drop_last()[j] == s[j]);
        }
        lemma_sum_each_ge_len(s.drop_last());
    }
}

/// A plain copy of a run of handles.
fn copy_handles(v: &Vec<u64>) -> (r: Vec<u64>)
    ensures
        r@ == v@,
{
    let mut r: Vec<u64> = Vec::new();
    let n = v.len();
    let mut i: usize = 0;
    while i < n
        invariant
            n == v@.len(),
            0 <= i <= n,
            r@ == v@.subrange(0, i as int),
        decreases n - i,
    {
        r.push(v[i]);
        proof {
            assert(r@ =~= v@.subrange(0, i + 1));
        }
        i = i + 1;
    }
    proof {
        assert(v@.subrange(0, n as int) =~= v@);
    }
    r
}

/// Adds `x` to the run unless it is already there.
fn push_unique(out: &mut Vec<u64>, x: u64)
    requires
        old(out)@.no_duplicates(),
    ensures
        final(out)@.no_duplicates(),
        final(out)@.to_set() == old(out)@.to_set().insert(x),
{
    let n = out.len();
    let mut i: usize = 0;
    while i < n
        invariant
            out@ == old(out)@,
            old(out)@.no_duplicates(),
            n == out@.len(),
            0 <= i <= n,
            forall|j: int| 0 <= j < i ==> out@[j] != x,
        decreases n - i,
    {
        if out[i] == x {
            proof {
                assert(out@.contains(x));
                assert(out@.to_set() =~= out@.to_set().insert(x));
            }
            return ;
        }
        i = i + 1;
    }
    proof {
        assert(!out@.contains(x)) by {
            if out@.contains(x) {
                let j = choose|j: int| 0 <= j < out@.len() && out@[j] == x;
            }
        }
    }
    let ghost s0 = out@;
    out.push(x);
    proof {
        assert(out@.no_duplicates()) by {
            assert forall|a: int, b: int|
                0 <= a < b < out@.len() implies out@[a] != out@[b] by {
                if b < s0.len() {
                    assert(out@[a] == s0[a] && out@[b] == s0[b]);
                } else {
                    assert(out@[b] == x);
                    assert(out@[a] == s0[a]);
                    assert(s0.contains(s0[a]));
                }
            }
        }
        assert(out@.to_set() =~= s0.to_set().insert(x)) by {
            assert forall|y: u64| #[trigger] out@.to_set().contains(y) implies s0.to_set().insert(
                x,
            ).contains(y) by {
                let j = choose|j: int| 0 <= j < out@.len() && out@[j] == y;
                if j < s0.len() {
                    assert(s0[j] == y);
                    assert(s0.contains(y));
                }
            }
            assert forall|y: u64| s0.to_set().insert(x).contains(y) implies #[trigger] out@.to_set().contains(
                y,
            ) by {
                if y == x {
                    assert(out@[s0.len() as int] == y);
                    assert(out@.contains(y));
                } else {
                    let j = choose|j: int| 0 <= j < s0.len() && s0[j] == y;
                    assert(out@[j] == y);
                    assert(out@.contains(y));
                }
            }
        }
    }
}

/// Adds every handle of `defs` to the run, without duplicates.
fn merge_defs(out: &mut Vec<u64>, defs: &Vec<u64>)
    requires
        old(out)@.no_duplicates(),
    ensures
        final(out)@.no_duplicates(),
        final(out)@.to_set() == old(out)@.to_set().union(defs@.to_set()),
{
    let ghost s0 = old(out)@;
    let n = defs.len();
    let mut i: usize = 0;
    while i < n
        invariant
            n == defs@.len(),
            0 <= i <= n,
            out@.no_duplicates(),
            out@.to_set() == s0.to_set().union(defs@.subrange(0, i as int).to_set()),
        decreases n - i,
    {
        let d = defs[i];
        push_unique(out, d);
        proof {
            assert(defs@.subrange(0, i + 1) =~= defs@.subrange(0, i as int).push(d));
            lemma_to_set_push(defs@.subrange(0, i as int), d);
            assert(out@.to_set() =~= s0.to_set().union(defs@.subrange(0, i + 1).to_set()));
        }
        i = i + 1;
    }
    proof {
        assert(defs@.subrange(0, n as int) =~= defs@);
    }
}

/// Appending one handle to a run inserts it into the run's set.
pub proof fn lemma_to_set_push(s: Seq<u64>, x: u64)
    ensures
        s.push(x).to_set() == s.to_set().insert(x),
{
    assert(s.push(x).to_set() =~= s.to_set().insert(x)) by {
        assert forall|y: u64| #[trigger] s.push(x).to_set().contains(y) implies s.to_set().insert(
            x,
        ).contains(y) by {
            let j = choose|j: int| 0 <= j < s.push(x).len() && s.push(x)[j] == y;
            if j < s.len() {
                assert(s[j] == y);
                assert(s.contains(y));
            }
        }
        assert forall|y: u64| s.to_set().insert(x).contains(y) implies #[trigger] s.push(
            x,
        ).to_set().contains(y) by {
            if y == x {
                assert(s.push(x)[s.len() as int] == y);
                assert(s.push(x).contains(y));
            } else {
                let j = choose|j: int| 0 <= j < s.len() && s[j] == y;
                assert(s.push(x)[j] == y);
                assert(s.push(x).contains(y));
            }
        }
    }
}

/// `defs_in` grows at the top end by the defining handles of the added
/// position.
pub proof fn lemma_defs_snoc(pool: Seq<Element>, ch: Seq<Entry>, lo: int, hi: int)
    requires
        lo <= hi,
    ensures
        defs_in(pool, ch, lo, hi) == defs_in(pool, ch, lo, hi - 1).union(
            pool[ch[hi].eid].definitions@.to_set(),
        ),
    decreases hi - lo,
{
    if lo == hi {
        assert(defs_in(pool, ch, lo, hi - 1) == Set::<u64>::empty());
        assert(defs_in(pool, ch, lo + 1, hi) == Set::<u64>::empty());
        assert(defs_in(pool, ch, lo, hi) =~= defs_in(pool, ch, lo, hi - 1).union(
            pool[ch[hi].eid].definitions@.to_set(),
        ));
    } else {
        lemma_defs_snoc(pool, ch, lo + 1, hi);
        assert(defs_in(pool, ch, lo, hi) =~= defs_in(pool, ch, lo, hi - 1).union(
            pool[ch[hi].eid].definitions@.to_set(),
        ));
    }
}

/// A rightward walk never touches positions at or below its start.
pub proof fn lemma_fuzz_right_below(v: Seq<ElemModel>, range: int, p: int, prop: int)
    ensures
        forall|j: int|
            0 <= j <= p && j < v.len() ==> (#[trigger] fuzz_right(v, range, p, prop).0[j]) == v[j],
        p <= fuzz_right(v, range, p, prop).1,
        fuzz_right(v, range, p, prop).0.len() == v.len(),
        p < v.len() ==> fuzz_right(v, range, p, prop).1 < v.len(),
    decreases v.len() - p,
{
    if !(p < 0 || p + 1 >= v.len() || prop <= INTERELEMENT_ACTIVATION_THRESHOLD as int) {
        let a2 = hop_act(v, range, p, p + 1, prop);
        lemma_fuzz_right_below(bump_act(v, p + 1, a2), range, p + 1, a2);
    }
}

/// A leftward walk never touches positions at or above its start.
pub proof fn lemma_fuzz_left_above(v: Seq<ElemModel>, range: int, p: int, prop: int)
    ensures
        forall|j: int|
            p <= j < v.len() ==> (#[trigger] fuzz_left(v, range, p, prop).0[j]) == v[j],
        0 <= p ==> 0 <= fuzz_left(v, range, p, prop).1 <= p,
        fuzz_left(v, range, p, prop).0.len() == v.len(),
    decreases p,
{
    if !(p <= 0 || p >= v.len() || prop <= INTERELEMENT_ACTIVATION_THRESHOLD as int) {
        let a2 = hop_act(v, range, p, p - 1, prop);
        lemma_fuzz_left_above(bump_act(v, p - 1, a2), range, p - 1, a2);
    }
}

/// The stops of a fuzzy activation stay within the run.
pub proof fn lemma_fuzz_bounds(v: Seq<ElemModel>, range: int, p: int, signal: int)
    requires
        0 <= p < v.len(),
    ensures
        ({
            let f = fuzzy_spec(v, range, p, signal);
            &&& 0 <= f.1 <= p
            &&& p <= f.2 < v.len()
            &&& f.0.len() == v.len()
        }),
{
    let a0 = sat_add_spec(v[p].activation, signal);
    let v0 = bump_act(v, p, a0);
    lemma_fuzz_right_below(v0, range, p, a0);
    let r = fuzz_right(v0, range, p, a0);
    lemma_fuzz_left_above(r.0, range, p, a0);
}

/// `defs_in` only reads the defining handles: pools that agree on them give
/// the same set.
pub proof fn lemma_defs_in_same(
    pool1: Seq<Element>,
    pool2: Seq<Element>,
    ch: Seq<Entry>,
    lo: int,
    hi: int,
)
    requires
        pool1.len() == pool2.len(),
        forall|e: int|
            0 <= e < pool1.len() ==> (#[trigger] pool2[e]).definitions@ == pool1[e].definitions@,
        forall|j: int| 0 <= j < ch.len() ==> 0 <= (#[trigger] ch[j]).eid < pool1.len(),
        0 <= lo,
        hi < ch.len(),
    ensures
        defs_in(pool2, ch, lo, hi) == defs_in(pool1, ch, lo, hi),
    decreases hi - lo + 1,
{
    if lo <= hi {
        lemma_defs_in_same(pool1, pool2, ch, lo + 1, hi);
        assert(pool2[ch[lo].eid].definitions@ == pool1[ch[lo].eid].definitions@);
    }
}

/// Splitting a definition run at any point splits its handle set.
pub proof fn lemma_defs_split(pool: Seq<Element>, ch: Seq<Entry>, lo: int, mid: int, hi: int)
    requires
        lo - 1 <= mid <= hi,
    ensures
        defs_in(pool, ch, lo, hi) == defs_in(pool, ch, lo, mid).union(
            defs_in(pool, ch, mid + 1, hi),
        ),
    decreases mid - lo + 1,
{
    if mid < lo {
        assert(defs_in(pool, ch, lo, mid) == Set::<u64>::empty());
        assert(defs_in(pool, ch, lo, hi) =~= defs_in(pool, ch, lo, mid).union(
            defs_in(pool, ch, mid + 1, hi),
        ));
    } else {
        lemma_defs_split(pool, ch, lo + 1, mid, hi);
        assert(defs_in(pool, ch, lo, hi) =~= defs_in(pool, ch, lo, mid).union(
            defs_in(pool, ch, mid + 1, hi),
        ));
    }
}

/// Sums are equal when the counters agree pointwise.
pub proof fn lemma_sum_same_counters(a: Seq<ElemModel>, b: Seq<ElemModel>)
    requires
        a.len() == b.len(),
        forall|t: int| 0 <= t < a.len() ==> (#[trigger] a[t]).counter == b[t].counter,
    ensures
        sum_counters(a) == sum_counters(b),
    decreases a.len(),
{
    if a.len() > 0 {
        assert forall|t: int|
            0 <= t < a.drop_last().len() implies (#[trigger] a.drop_last()[t]).counter
            == b.drop_last()[t].counter by {
            assert(a[t].counter == b[t].counter);
        }
        lemma_sum_same_counters(a.drop_last(), b.drop_last());
        assert(a.last().counter == b.last().counter);
    }
}

proof fn lemma_splice_topo_at(
    ch0: Seq<Entry>,
    pool0: Seq<Element>,
    pool1: Seq<Element>,
    pos: int,
    key: i32,
    range: int,
    t: int,
)
    requires
        0 <= pos <= ch0.len(),
        ch0.len() == pool0.len(),
        chain_topo(ch0, pool0),
        splice_ok(pool0, pool1, ch0, pos, key, range),
        pool1.len() <= usize::MAX,
        forall|q: int| 0 <= q < ch0.len() ==> 0 <= (#[trigger] ch0[q]).eid < pool0.len(),
        forall|t1: int, t2: int|
            0 <= t1 < t2 < ch0.len() ==> (#[trigger] ch0[t1]).eid != (#[trigger] ch0[t2]).eid,
        0 <= t < ch0.len() + 1,
    ensures
        topo_at(ch0.insert(pos, Entry { key, eid: pool0.len() as int }), pool1, t),
{
    let ne = pool0.len() as int;
    let ch1 = ch0.insert(pos, Entry { key, eid: ne });
    if t < pos - 1 {
        assert(topo_at(ch0, pool0, t));
        assert(ch1[t] == ch0[t]);
        assert(pool1[ch0[t].eid] == pool0[ch0[t].eid]);
        assert(ch1[t + 1] == ch0[t + 1]);
        if t > 0 {
            assert(ch1[t - 1] == ch0[t - 1]);
        }
    } else if t == pos - 1 {
        assert(topo_at(ch0, pool0, t));
        assert(ch1[t] == ch0[t]);
        assert(pool1[ch0[pos - 1].eid].next == Some(
            Link {
                to: ne as usize,
                weight: weight_spec(key as int, ch0[pos - 1].key as int, range),
            },
        ));
        assert(pool1[ch0[pos - 1].eid].prev == pool0[ch0[pos - 1].eid].prev);
        if t > 0 {
            assert(ch1[t - 1] == ch0[t - 1]);
        }
    } else if t == pos {
        if pos > 0 {
            assert(ch1[t - 1] == ch0[pos - 1]);
            assert(0 <= ch0[pos - 1].eid < pool0.len());
            assert((ch0[pos - 1].eid as usize) as int == ch0[pos - 1].eid);
        }
        if pos < ch0.len() {
            assert(ch1[t + 1] == ch0[pos]);
            assert(0 <= ch0[pos].eid < pool0.len());
            assert((ch0[pos].eid as usize) as int == ch0[pos].eid);
        }
    } else if t == pos + 1 {
        assert(topo_at(ch0, pool0, pos));
        assert(ch1[t] == ch0[pos]);
        assert(pool1[ch0[pos].eid].prev == Some(
            Link {
                to: ne as usize,
                weight: weight_spec(key as int, ch0[pos].key as int, range),
            },
        ));
        assert(pool1[ch0[pos].eid].next == pool0[ch0[pos].eid].next);
        if t + 1 < ch1.len() {
            assert(ch1[t + 1] == ch0[t]);
        }
    } else {
        assert(topo_at(ch0, pool0, t - 1));
        assert(ch1[t] == ch0[t - 1]);
        assert(ch0[t - 1].eid != ch0[pos].eid);
        assert(pos <= 0 || ch0[t - 1].eid != ch0[pos - 1].eid);
        assert(pool1[ch0[t - 1].eid] == pool0[ch0[t - 1].eid]);
        assert(ch1[t + 1] == ch0[t] || t + 1 >= ch1.len());
        assert(ch1[t - 1] == ch0[t - 2] || t - 1 == pos);
    }
}

proof fn lemma_splice_topo(
    ch0: Seq<Entry>,
    pool0: Seq<Element>,
    pool1: Seq<Element>,
    pos: int,
    key: i32,
    range: int,
)
    requires
        0 <= pos <= ch0.len(),
        ch0.len() == pool0.len(),
        chain_topo(ch0, pool0),
        splice_ok(pool0, pool1, ch0, pos, key, range),
        pool1.len() <= usize::MAX,
        forall|q: int| 0 <= q < ch0.len() ==> 0 <= (#[trigger] ch0[q]).eid < pool0.len(),
        forall|t1: int, t2: int|
            0 <= t1 < t2 < ch0.len() ==> (#[trigger] ch0[t1]).eid != (#[trigger] ch0[t2]).eid,
    ensures
        chain_topo(ch0.insert(pos, Entry { key, eid: pool0.len() as int }), pool1),
{
    let ne = pool0.len() as int;
    let ch1 = ch0.insert(pos, Entry { key, eid: ne });
    assert forall|t: int| 0 <= t < ch1.len() implies #[trigger] topo_at(ch1, pool1, t) by {
        lemma_splice_topo_at(ch0, pool0, pool1, pos, key, range, t);
    }
}

proof fn lemma_splice_weights_at(
    ch0: Seq<Entry>,
    pool0: Seq<Element>,
    pool1: Seq<Element>,
    pos: int,
    key: i32,
    range: int,
    t: int,
)
    requires
        0 <= pos <= ch0.len(),
        ch0.len() == pool0.len(),
        chain_weights(ch0, pool0, range),
        splice_ok(pool0, pool1, ch0, pos, key, range),
        pool1.len() <= usize::MAX,
        forall|q: int| 0 <= q < ch0.len() ==> 0 <= (#[trigger] ch0[q]).eid < pool0.len(),
        forall|t1: int, t2: int|
            0 <= t1 < t2 < ch0.len() ==> (#[trigger] ch0[t1]).eid != (#[trigger] ch0[t2]).eid,
        0 <= t < ch0.len(),
    ensures
        weights_at(ch0.insert(pos, Entry { key, eid: pool0.len() as int }), pool1, range, t),
{
    let ne = pool0.len() as int;
    let ch1 = ch0.insert(pos, Entry { key, eid: ne });
    if t + 1 < pos {
        assert(weights_at(ch0, pool0, range, t));
        assert(ch1[t] == ch0[t]);
        assert(ch1[t + 1] == ch0[t + 1]);
        assert(pool1[ch0[t].eid] == pool0[ch0[t].eid]);
        if t + 1 == pos - 1 {
            assert(pool1[ch0[pos - 1].eid].prev == pool0[ch0[pos - 1].eid].prev);
        } else {
            assert(pool1[ch0[t + 1].eid] == pool0[ch0[t + 1].eid]);
        }
    } else if t + 1 == pos {
        assert(ch1[t] == ch0[t]);
        assert(t == pos - 1);
        assert(pool1[ch0[pos - 1].eid].next == Some(
            Link {
                to: ne as usize,
                weight: weight_spec(key as int, ch0[pos - 1].key as int, range),
            },
        ));
        assert(pool1[ne].prev == Some(
            Link {
                to: ch0[pos - 1].eid as usize,
                weight: weight_spec(key as int, ch0[pos - 1].key as int, range),
            },
        ));
    } else if t == pos {
        assert(ch1[t + 1] == ch0[pos]);
        assert(pool1[ch0[pos].eid].prev == Some(
            Link {
                to: ne as usize,
                weight: weight_spec(key as int, ch0[pos].key as int, range),
            },
        ));
        assert(pool1[ne].next == Some(
            Link {
                to: ch0[pos].eid as usize,
                weight: weight_spec(key as int, ch0[pos].key as int, range),
            },
        ));
    } else {
        assert(weights_at(ch0, pool0, range, t - 1));
        assert(ch1[t] == ch0[t - 1]);
        assert(ch1[t + 1] == ch0[t]);
        assert(t - 1 >= pos);
        if t - 1 == pos {
            assert(pool1[ch0[t - 1].eid].next == pool0[ch0[t - 1].eid].next);
        } else {
            assert(pool1[ch0[t - 1].eid] == pool0[ch0[t - 1].eid]);
        }
        assert(pool1[ch0[t].eid].prev == pool0[ch0[t].eid].prev);
    }
}

proof fn lemma_splice_weights(
    ch0: Seq<Entry>,
    pool0: Seq<Element>,
    pool1: Seq<Element>,
    pos: int,
    key: i32,
    range: int,
)
    requires
        0 <= pos <= ch0.len(),
        ch0.len() == pool0.len(),
        chain_weights(ch0, pool0, range),
        splice_ok(pool0, pool1, ch0, pos, key, range),
        pool1.len() <= usize::MAX,
        forall|q: int| 0 <= q < ch0.len() ==> 0 <= (#[trigger] ch0[q]).eid < pool0.len(),
        forall|t1: int, t2: int|
            0 <= t1 < t2 < ch0.len() ==> (#[trigger] ch0[t1]).eid != (#[trigger] ch0[t2]).eid,
    ensures
        chain_weights(ch0.insert(pos, Entry { key, eid: pool0.len() as int }), pool1, range),
{
    let ne = pool0.len() as int;
    let ch1 = ch0.insert(pos, Entry { key, eid: ne });
    assert forall|t: int| 0 <= t < ch1.len() - 1 implies #[trigger] weights_at(
        ch1,
        pool1,
        range,
        t,
    ) by {
        lemma_splice_weights_at(ch0, pool0, pool1, pos, key, range, t);
    }
}

/// The pool changes of a chain splice preserve every chain-level invariant,
/// with the new entry at its sorted slot.
#[verifier::rlimit(100)]
pub proof fn lemma_splice_chain(
    ch0: Seq<Entry>,
    pool0: Seq<Element>,
    pool1: Seq<Element>,
    pos: int,
    key: i32,
    range: int,
)
    requires
        range >= 1,
        entries_sorted(ch0),
        keys_match(ch0, pool0),
        chain_topo(ch0, pool0),
        ch0.len() == pool0.len(),
        0 <= pos <= ch0.len(),
        forall|j: int| 0 <= j < pos ==> (#[trigger] ch0[j]).key < key,
        forall|j: int| pos <= j < ch0.len() ==> (#[trigger] ch0[j]).key > key,
        splice_ok(pool0, pool1, ch0, pos, key, range),
        pool1.len() <= usize::MAX,
        forall|e: int| 0 <= e < pool0.len() ==> (#[trigger] pool0[e]).counter >= 1,
        forall|e: int| 0 <= e < pool0.len() ==> has_eid(ch0, e),
        chain_weights(ch0, pool0, range),
    ensures
        ({
            let ch1 = ch0.insert(pos, Entry { key, eid: pool0.len() as int });
            &&& entries_sorted(ch1)
            &&& keys_match(ch1, pool1)
            &&& chain_topo(ch1, pool1)
            &&& chain_weights(ch1, pool1, range)
            &&& ch1.len() == pool1.len()
            &&& (forall|e: int| 0 <= e < pool1.len() ==> (#[trigger] pool1[e]).counter >= 1)
            &&& (forall|e: int| 0 <= e < pool1.len() ==> has_eid(ch1, e))
        }),
{
    let ne = pool0.len() as int;
    let ch1 = ch0.insert(pos, Entry { key, eid: ne });
    lemma_eids_distinct(ch0, pool0);
    lemma_sorted_insert(ch0, pos, Entry { key, eid: ne });
    // element indices touched by the splice
    assert forall|t: int| 0 <= t < ch0.len() implies 0 <= (#[trigger] ch0[t]).eid < ne by {}
    lemma_splice_topo(ch0, pool0, pool1, pos, key, range);
    lemma_splice_weights(ch0, pool0, pool1, pos, key, range);
    assert(keys_match(ch1, pool1)) by {
        assert forall|t: int|
            0 <= t < ch1.len() implies 0 <= (#[trigger] ch1[t]).eid < pool1.len() && pool1[ch1[
            t
        ].eid].key == ch1[t].key by {
            if t < pos {
                assert(ch1[t] == ch0[t]);
                assert(pool1[ch0[t].eid].key == pool0[ch0[t].eid].key);
            } else if t == pos {
            } else {
                assert(ch1[t] == ch0[t - 1]);
                assert(pool1[ch0[t - 1].eid].key == pool0[ch0[t - 1].eid].key);
            }
        }
    }
    assert forall|e: int| 0 <= e < pool1.len() implies (#[trigger] pool1[e]).counter >= 1 by {
        if e < ne {
            assert(pool1[e].counter == pool0[e].counter);
        }
    }
    assert forall|e: int| 0 <= e < pool1.len() implies has_eid(ch1, e) by {
        if e < ne {
            assert(has_eid(ch0, e));
            let t = choose|t: int| 0 <= t < ch0.len() && (#[trigger] ch0[t]).eid == e;
            if t < pos {
                assert(ch1[t] == ch0[t]);
            } else {
                assert(ch1[t + 1] == ch0[t]);
            }
        } else {
            assert(ch1[pos].eid == e);
        }
    }
}

/// After the tree and pool spliced a fresh element in, everything of the
/// invariant except the extrema cache holds, and the view gained one model.
#[verifier::rlimit(100)]
proof fn lemma_insert_new_case<const ORDER: usize>(
    mid: ASAGraph<ORDER>,
    cur: ASAGraph<ORDER>,
    pos: int,
    key: i32,
    rng: int,
    eid: int,
)
    requires
        mid.wf(),
        mid.total() < usize::MAX,
        mid.chain().len() >= 1,
        rng == mid.range_spec(),
        0 <= pos <= mid.chain().len(),
        eid == mid.pool().len(),
        cur.chain() == mid.chain().insert(pos, Entry { key, eid }),
        cur.pool().len() <= usize::MAX,
        splice_ok(mid.pool(), cur.pool(), mid.chain(), pos, key, rng),
        forall|j: int| 0 <= j < pos ==> (#[trigger] mid.chain()[j]).key < key,
        forall|j: int| pos <= j < mid.chain().len() ==> (#[trigger] mid.chain()[j]).key > key,
        cur.root_spec().wf(ORDER as int),
        cur.key_min_spec() == mid.key_min_spec(),
        cur.key_max_spec() == mid.key_max_spec(),
        cur.element_min_spec() == mid.element_min_spec(),
        cur.element_max_spec() == mid.element_max_spec(),
    ensures
        cur.wf_inner(),
        entries_sorted(cur.chain()),
        chain_weights(cur.chain(), cur.pool(), cur.range_spec()),
        cur@ == mid@.insert(pos, ElemModel { key, counter: 1nat, activation: 0int }),
        cur.total() == mid.total() + 1,
        cur.chain().remove(pos) == mid.chain(),
        cur.chain()[pos] == (Entry { key, eid }),
        !mid.has_key(key),
{
    lemma_eids_distinct(mid.chain(), mid.pool());
    lemma_splice_chain(mid.chain(), mid.pool(), cur.pool(), pos, key, rng);
    lemma_view_splice(mid, cur, pos, key);
    lemma_sum_insert(mid@, pos, ElemModel { key, counter: 1nat, activation: 0int });
    assert(cur.chain().remove(pos) =~= mid.chain());
    assert(cur.range_spec() == mid.range_spec());
    assert(!mid.has_key(key)) by {
        assert(forall|t: int|
            0 <= t < mid.chain().len() ==> (#[trigger] mid.chain()[t]).key != key);
    }
    assert(cur.total() == mid.total() + 1);
    assert(cur.total() <= usize::MAX);
    assert(cur.wf_inner());
}

/// Counting a duplicate again only moves one counter: the whole invariant
/// survives untouched.
#[verifier::rlimit(100)]
proof fn lemma_insert_dup_case<const ORDER: usize>(
    mid: ASAGraph<ORDER>,
    cur: ASAGraph<ORDER>,
    pos: int,
    key: i32,
)
    requires
        mid.wf(),
        mid.total() < usize::MAX,
        0 <= pos < mid.chain().len(),
        cur.chain() == mid.chain(),
        mid.chain()[pos].key == key,
        bump_ok(mid.pool(), cur.pool(), mid.chain()[pos].eid),
        cur.root_spec().wf(ORDER as int),
        cur.key_min_spec() == mid.key_min_spec(),
        cur.key_max_spec() == mid.key_max_spec(),
        cur.element_min_spec() == mid.element_min_spec(),
        cur.element_max_spec() == mid.element_max_spec(),
    ensures
        cur.wf(),
        mid.has_key(key),
        cur@ == mid@.update(
            pos,
            ElemModel {
                key,
                counter: (mid@[pos].counter + 1) as nat,
                activation: mid@[pos].activation,
            },
        ),
        cur.total() == mid.total() + 1,
{
    let m2 = ElemModel {
        key,
        counter: (mid@[pos].counter + 1) as nat,
        activation: mid@[pos].activation,
    };
    lemma_eids_distinct(mid.chain(), mid.pool());
    assert(mid.has_key(key)) by {
        assert(mid.chain()[pos].key == key);
    }
    assert(cur@ =~= mid@.update(pos, m2)) by {
        assert forall|t: int| 0 <= t < cur@.len() implies cur@[t] == mid@.update(pos, m2)[t] by {
            if t != pos {
                assert(mid.chain()[t].eid != mid.chain()[pos].eid);
            }
        }
    }
    lemma_sum_update(mid@, pos, m2);
    assert(cur.range_spec() == mid.range_spec());
    assert(chain_topo(cur.chain(), cur.pool())) by {
        assert forall|t: int| 0 <= t < cur.chain().len() implies #[trigger] topo_at(
            cur.chain(),
            cur.pool(),
            t,
        ) by {
            assert(topo_at(mid.chain(), mid.pool(), t));
            assert(cur.pool()[cur.chain()[t].eid].next == mid.pool()[mid.chain()[t].eid].next);
            assert(cur.pool()[cur.chain()[t].eid].prev == mid.pool()[mid.chain()[t].eid].prev);
        }
    }
    assert(chain_weights(cur.chain(), cur.pool(), cur.range_spec())) by {
        assert forall|t: int| 0 <= t < cur.chain().len() - 1 implies #[trigger] weights_at(
            cur.chain(),
            cur.pool(),
            cur.range_spec(),
            t,
        ) by {
            assert(weights_at(mid.chain(), mid.pool(), mid.range_spec(), t));
            assert(cur.pool()[cur.chain()[t].eid].next == mid.pool()[mid.chain()[t].eid].next);
            assert(cur.pool()[cur.chain()[t + 1].eid].prev == mid.pool()[mid.chain()[t
                + 1].eid].prev);
        }
    }
    assert(keys_match(cur.chain(), cur.pool())) by {
        assert forall|t: int|
            0 <= t < cur.chain().len() implies 0 <= (#[trigger] cur.chain()[t]).eid
            < cur.pool().len() && cur.pool()[cur.chain()[t].eid].key == cur.chain()[t].key by {
            assert(cur.pool()[mid.chain()[t].eid].key == mid.pool()[mid.chain()[t].eid].key);
        }
    }
    assert forall|e: int|
        0 <= e < cur.pool().len() implies (#[trigger] cur.pool()[e]).counter >= 1 by {
        assert(mid.pool()[e].counter >= 1);
        assert(cur.pool().len() == mid.pool().len());
    }
    assert forall|e: int| 0 <= e < cur.pool().len() implies has_eid(cur.chain(), e) by {
        assert(has_eid(mid.chain(), e));
    }
    assert(cur.total() <= usize::MAX);
    assert(cur.wf_inner());
    assert(cur.extrema_ok());
    assert(cur.wf());
}

/// The abstract view of a splice is a plain sequence insertion.
proof fn lemma_view_splice<const ORDER: usize>(
    mid: ASAGraph<ORDER>,
    new: ASAGraph<ORDER>,
    pos: int,
    key: i32,
)
    requires
        entries_sorted(mid.chain()),
        keys_match(mid.chain(), mid.pool()),
        0 <= pos <= mid.chain().len(),
        new.chain() == mid.chain().insert(
            pos,
            Entry { key, eid: mid.pool().len() as int },
        ),
        new.pool().len() == mid.pool().len() + 1,
        new.pool()[mid.pool().len() as int].counter == 1,
        new.pool()[mid.pool().len() as int].activation == 0,
        forall|e: int|
            0 <= e < mid.pool().len() ==> (#[trigger] new.pool()[e]).counter == mid.pool()[
                e
            ].counter && new.pool()[e].activation == mid.pool()[e].activation,
    ensures
        new@ =~= mid@.insert(pos, ElemModel { key, counter: 1nat, activation: 0int }),
{
    assert forall|t: int| 0 <= t < new@.len() implies new@[t] == mid@.insert(
        pos,
        ElemModel { key, counter: 1nat, activation: 0int },
    )[t] by {
        if t < pos {
            assert(new.chain()[t] == mid.chain()[t]);
        } else if t > pos {
            assert(new.chain()[t] == mid.chain()[t - 1]);
        }
    }
}

} // verus!
