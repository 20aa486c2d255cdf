//! Leaf-level records of the graph: unique key, occurrence counter, current
//! activation, and weighted links to the chain neighbours.
//!
//! Elements live in a pool and refer to each other by index, so the doubly
//! linked chain carries no shared-ownership cycles.

use crate::fixed::{sat_add, sat_add_spec, weight_of, weight_spec, Weight};
use crate::types::{ConnectionKind, SensorError};
use vstd::prelude::*;

verus! {

/// One direction of a chain edge: the neighbour's index and the cached weight.
#[derive(Clone, Copy, PartialEq, Eq, Structural, Debug)]
pub struct Link {
    pub to: usize,
    pub weight: Weight,
}

/// A leaf record. The `definitions` hold opaque handles of the higher-order
/// neurons this element defines.
pub struct Element {
    pub key: i32,
    pub counter: usize,
    pub activation: i64,
    pub prev: Option<Link>,
    pub next: Option<Link>,
    pub definitions: Vec<u64>,
}

impl Element {
    /// Equal in everything but the two chain links.
    pub open spec fn same_but_links(self, o: Element) -> bool {
        &&& self.key == o.key
        &&& self.counter == o.counter
        &&& self.activation == o.activation
        &&& self.definitions@ == o.definitions@
    }

    /// Equal in key, counter and both links: what the structural invariant
    /// reads.
    pub open spec fn same_core(self, o: Element) -> bool {
        &&& self.key == o.key
        &&& self.counter == o.counter
        &&& self.prev == o.prev
        &&& self.next == o.next
    }

    /// Equal in everything but the activation.
    pub open spec fn same_but_activation(self, o: Element) -> bool {
        &&& self.key == o.key
        &&& self.counter == o.counter
        &&& self.prev == o.prev
        &&& self.next == o.next
        &&& self.definitions@ == o.definitions@
    }

    /// The weight of the edge between this element and `other` under `range`.
    pub fn weight(&self, other: &Element, range: u64) -> (w: Weight)
        requires
            range >= 1,
        ensures
            w == weight_spec(self.key as int, other.key as int, range as int),
    {
        weight_of(self.key, other.key, range)
    }
}

/// The pool that owns every element of one graph.
pub struct ElementPool {
    pub items: Vec<Element>,
}

impl View for ElementPool {
    type V = Seq<Element>;

    open spec fn view(&self) -> Seq<Element> {
        self.items@
    }
}

impl ElementPool {
    pub fn new() -> (p: ElementPool)
        ensures
            p@ == Seq::<Element>::empty(),
    {
        ElementPool { items: Vec::new() }
    }

    pub fn len(&self) -> (n: usize)
        ensures
            n == self@.len(),
    {
        self.items.len()
    }

    /// Creates a fresh, unlinked element holding `key` once.
    pub fn create(&mut self, key: i32) -> (eid: usize)
        ensures
            eid == old(self)@.len(),
            final(self)@.len() == old(self)@.len() + 1,
            final(self)@ =~= old(self)@.push(final(self)@[eid as int]),
            final(self)@[eid as int].key == key,
            final(self)@[eid as int].counter == 1,
            final(self)@[eid as int].activation == 0,
            final(self)@[eid as int].prev is None,
            final(self)@[eid as int].next is None,
            final(self)@[eid as int].definitions@ == Seq::<u64>::empty(),
    {
        let eid = self.items.len();
        self.items.push(
            Element {
                key,
                counter: 1,
                activation: 0,
                prev: None,
                next: None,
                definitions: Vec::new(),
            },
        );
        eid
    }

    pub fn element(&self, eid: usize) -> (r: Option<&Element>)
        ensures
            eid < self@.len() ==> r == Some(&self@[eid as int]),
            eid >= self@.len() ==> r is None,
    {
        if eid < self.items.len() {
            Some(&self.items[eid])
        } else {
            None
        }
    }

    /// Replaces both endpoints' links of `elem` and recomputes the affected
    /// weights against `range`, exactly as the neighbours are given.
    pub fn set_connections(
        &mut self,
        elem: usize,
        prev_opt: Option<usize>,
        next_opt: Option<usize>,
        range: u64,
    )
        requires
            range >= 1,
            elem < old(self)@.len(),
            prev_opt is Some ==> prev_opt.unwrap() < old(self)@.len() && prev_opt.unwrap() != elem,
            next_opt is Some ==> next_opt.unwrap() < old(self)@.len() && next_opt.unwrap() != elem,
            prev_opt is Some && next_opt is Some ==> prev_opt.unwrap() != next_opt.unwrap(),
        ensures
            final(self)@.len() == old(self)@.len(),
            forall|j: int|
                0 <= j < old(self)@.len() ==> (#[trigger] final(self)@[j]).same_but_links(
                    old(self)@[j],
                ),
            final(self)@[elem as int].prev == match prev_opt {
                Some(p) => Some(
                    Link {
                        to: p,
                        weight: weight_spec(
                            old(self)@[elem as int].key as int,
                            old(self)@[p as int].key as int,
                            range as int,
                        ),
                    },
                ),
                None => None::<Link>,
            },
            final(self)@[elem as int].next == match next_opt {
                Some(nx) => Some(
                    Link {
                        to: nx,
                        weight: weight_spec(
                            old(self)@[elem as int].key as int,
                            old(self)@[nx as int].key as int,
                            range as int,
                        ),
                    },
                ),
                None => None::<Link>,
            },
            prev_opt is Some ==> final(self)@[prev_opt.unwrap() as int].next == Some(
                Link {
                    to: elem,
                    weight: weight_spec(
                        old(self)@[elem as int].key as int,
                        old(self)@[prev_opt.unwrap() as int].key as int,
                        range as int,
                    ),
                },
            ) && final(self)@[prev_opt.unwrap() as int].prev == old(self)@[prev_opt.unwrap() as int].prev,
            next_opt is Some ==> final(self)@[next_opt.unwrap() as int].prev == Some(
                Link {
                    to: elem,
                    weight: weight_spec(
                        old(self)@[elem as int].key as int,
                        old(self)@[next_opt.unwrap() as int].key as int,
                        range as int,
                    ),
                },
            ) && final(self)@[next_opt.unwrap() as int].next == old(self)@[next_opt.unwrap() as int].next,
            forall|j: int|
                0 <= j < old(self)@.len() && j != elem && prev_opt != Some(j as usize) && next_opt
                    != Some(j as usize) ==> #[trigger] final(self)@[j] == old(self)@[j],
    {
        match prev_opt {
            Some(p) => {
                let w = self.items[elem].weight(&self.items[p], range);
                self.items[elem].prev = Some(Link { to: p, weight: w });
                self.items[p].next = Some(Link { to: elem, weight: w });
            },
            None => {
                self.items[elem].prev = None;
            },
        }
        match next_opt {
            Some(nx) => {
                let w = self.items[elem].weight(&self.items[nx], range);
                self.items[elem].next = Some(Link { to: nx, weight: w });
                self.items[nx].prev = Some(Link { to: elem, weight: w });
            },
            None => {
                self.items[elem].next = None;
            },
        }
    }

    /// Refreshes the cached weight of the edge from `a` to its successor `b`
    /// against `range`, on both sides of the edge.
    pub fn reweight_edge(&mut self, a: usize, b: usize, range: u64)
        requires
            range >= 1,
            a < old(self)@.len(),
            b < old(self)@.len(),
            a != b,
        ensures
            final(self)@.len() == old(self)@.len(),
            final(self)@[a as int].next == Some(
                Link {
                    to: b,
                    weight: weight_spec(
                        old(self)@[a as int].key as int,
                        old(self)@[b as int].key as int,
                        range as int,
                    ),
                },
            ),
            final(self)@[a as int].prev == old(self)@[a as int].prev,
            final(self)@[a as int].same_but_links(old(self)@[a as int]),
            final(self)@[b as int].prev == Some(
                Link {
                    to: a,
                    weight: weight_spec(
                        old(self)@[a as int].key as int,
                        old(self)@[b as int].key as int,
                        range as int,
                    ),
                },
            ),
            final(self)@[b as int].next == old(self)@[b as int].next,
            final(self)@[b as int].same_but_links(old(self)@[b as int]),
            forall|j: int|
                0 <= j < old(self)@.len() && j != a && j != b ==> #[trigger] final(self)@[j]
                    == old(self)@[j],
    {
        let w = self.items[a].weight(&self.items[b], range);
        self.items[a].next = Some(Link { to: b, weight: w });
        self.items[b].prev = Some(Link { to: a, weight: w });
    }

    /// Counts one more occurrence of the element's key.
    pub fn increment_counter(&mut self, eid: usize)
        requires
            eid < old(self)@.len(),
            old(self)@[eid as int].counter < usize::MAX,
        ensures
            final(self)@.len() == old(self)@.len(),
            final(self)@[eid as int].counter == old(self)@[eid as int].counter + 1,
            final(self)@[eid as int].key == old(self)@[eid as int].key,
            final(self)@[eid as int].activation == old(self)@[eid as int].activation,
            final(self)@[eid as int].prev == old(self)@[eid as int].prev,
            final(self)@[eid as int].next == old(self)@[eid as int].next,
            final(self)@[eid as int].definitions@ == old(self)@[eid as int].definitions@,
            forall|j: int|
                0 <= j < old(self)@.len() && j != eid ==> #[trigger] final(self)@[j] == old(
                    self,
                )@[j],
    {
        self.items[eid].counter = self.items[eid].counter + 1;
    }

    /// Adds `signal` to the element's activation, saturating at the limits.
    pub fn add_activation(&mut self, eid: usize, signal: i64)
        requires
            eid < old(self)@.len(),
        ensures
            final(self)@.len() == old(self)@.len(),
            final(self)@[eid as int].activation == sat_add_spec(
                old(self)@[eid as int].activation as int,
                signal as int,
            ),
            final(self)@[eid as int].same_but_activation(old(self)@[eid as int]),
            forall|j: int|
                0 <= j < old(self)@.len() && j != eid ==> #[trigger] final(self)@[j] == old(
                    self,
                )@[j],
    {
        let a = sat_add(self.items[eid].activation, signal);
        self.items[eid].activation = a;
    }

    /// Resets the element's activation to zero.
    pub fn reset_activation(&mut self, eid: usize)
        requires
            eid < old(self)@.len(),
        ensures
            final(self)@.len() == old(self)@.len(),
            final(self)@[eid as int].activation == 0,
            final(self)@[eid as int].same_but_activation(old(self)@[eid as int]),
            forall|j: int|
                0 <= j < old(self)@.len() && j != eid ==> #[trigger] final(self)@[j] == old(
                    self,
                )@[j],
    {
        self.items[eid].activation = 0;
    }

    /// Appends a defining connection towards the neuron handle `to`; any other
    /// kind of connection is refused.
    pub fn connect(&mut self, eid: usize, to: u64, kind: ConnectionKind) -> (r: Result<
        (),
        SensorError,
    >)
        requires
            eid < old(self)@.len(),
        ensures
            final(self)@.len() == old(self)@.len(),
            kind is Defining ==> r is Ok && final(self)@[eid as int].definitions@ == old(
                self,
            )@[eid as int].definitions@.push(to),
            !(kind is Defining) ==> r == Err::<(), SensorError>(SensorError::UnsupportedConnection)
                && final(self)@[eid as int] == old(self)@[eid as int],
            final(self)@[eid as int].key == old(self)@[eid as int].key,
            final(self)@[eid as int].counter == old(self)@[eid as int].counter,
            final(self)@[eid as int].activation == old(self)@[eid as int].activation,
            final(self)@[eid as int].prev == old(self)@[eid as int].prev,
            final(self)@[eid as int].next == old(self)@[eid as int].next,
            forall|j: int|
                0 <= j < old(self)@.len() && j != eid ==> #[trigger] final(self)@[j] == old(
                    self,
                )@[j],
    {
        match kind {
            ConnectionKind::Defining => {
                self.items[eid].definitions.push(to);
                Ok(())
            },
            _ => Err(SensorError::UnsupportedConnection),
        }
    }
}

} // verus!
