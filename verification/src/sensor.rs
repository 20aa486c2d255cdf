//! The sensor facade: activation and deactivation of elements, with lateral
//! (fuzzy) propagation along the chain and the category policy for missing
//! keys. Vertical propagation towards higher-order neurons is returned to the
//! caller as the set of neuron handles to drive, together with the signal.

use crate::element::{Element, ElementPool};
use crate::fixed::{
    sat_add_spec, scale_by_weight, scale_spec, weight_spec, INTERELEMENT_ACTIVATION_THRESHOLD,
};
use crate::graph::{
    chain_topo, chain_weights, has_eid, sum_counters, topo_at, weights_at, ASAGraph, ElemModel,
};
use crate::node::{entries_sorted, keys_match, Entry};
use crate::types::{DataCategory, SensorError};
use vstd::prelude::*;

verus! {

/// The run of models with position `t`'s activation replaced by `a`.
pub open spec fn bump_act(v: Seq<ElemModel>, t: int, a: int) -> Seq<ElemModel> {
    v.update(t, ElemModel { key: v[t].key, counter: v[t].counter, activation: a })
}

/// The run of models with every activation reset to zero.
pub open spec fn zero_acts(v: Seq<ElemModel>) -> Seq<ElemModel> {
    Seq::new(v.len(), |t: int| ElemModel { key: v[t].key, counter: v[t].counter, activation: 0 })
}

/// The resulting activation of position `to` when the propagating activation
/// `prop` crosses the edge between `from` and `to` under `range`.
pub open spec fn hop_act(v: Seq<ElemModel>, range: int, from: int, to: int, prop: int) -> int {
    let w = weight_spec(v[from].key as int, v[to].key as int, range);
    sat_add_spec(v[to].activation, scale_spec(prop, w.num as int, w.den as int))
}

/// Rightward fuzzy propagation: starting from the element at `p` whose
/// resulting activation is `prop`, each hop adds the scaled propagating
/// activation to the next neighbour and continues with the neighbour's
/// resulting activation, while that stays above the threshold. Returns the
/// updated run and the last position reached.
pub open spec fn fuzz_right(v: Seq<ElemModel>, range: int, p: int, prop: int) -> (
    Seq<ElemModel>,
    int,
)
    decreases v.len() - p,
{
    if p < 0 || p + 1 >= v.len() || prop <= INTERELEMENT_ACTIVATION_THRESHOLD as int {
        (v, p)
    } else {
        let a2 = hop_act(v, range, p, p + 1, prop);
        fuzz_right(bump_act(v, p + 1, a2), range, p + 1, a2)
    }
}

/// Leftward fuzzy propagation, the mirror of [`fuzz_right`].
pub open spec fn fuzz_left(v: Seq<ElemModel>, range: int, p: int, prop: int) -> (
    Seq<ElemModel>,
    int,
)
    decreases p,
{
    if p <= 0 || p >= v.len() || prop <= INTERELEMENT_ACTIVATION_THRESHOLD as int {
        (v, p)
    } else {
        let a2 = hop_act(v, range, p, p - 1, prop);
        fuzz_left(bump_act(v, p - 1, a2), range, p - 1, a2)
    }
}

/// The whole fuzzy activation of position `p` by `signal`: the source takes
/// the signal, then its resulting activation propagates right and left.
/// Returns the updated run and the leftmost and rightmost positions reached.
pub open spec fn fuzzy_spec(v: Seq<ElemModel>, range: int, p: int, signal: int) -> (
    Seq<ElemModel>,
    int,
    int,
) {
    let a0 = sat_add_spec(v[p].activation, signal);
    let v0 = bump_act(v, p, a0);
    let r = fuzz_right(v0, range, p, a0);
    let l = fuzz_left(r.0, range, p, a0);
    (l.0, l.1, r.1)
}

/// Handles of all higher-order neurons defined by the elements at chain
/// positions `lo ..= hi`.
pub open spec fn defs_in(pool: Seq<Element>, ch: Seq<Entry>, lo: int, hi: int) -> Set<u64>
    decreases hi - lo + 1,
{
    if lo > hi {
        Set::empty()
    } else {
        pool[ch[lo].eid].definitions@.to_set().union(defs_in(pool, ch, lo + 1, hi))
    }
}

} // verus!
