//! The wire set: every connection of a graph, each one held once.

use vstd::prelude::*;

use crate::pins::{InPinId, OutPinId, Wire};

verus! {

/// Which wires a removal takes out.
enum Cut {
    /// The one wire given.
    Exact(Wire),
    /// Every wire with an end on the node.
    Node(usize),
    /// Every wire into the input pin.
    Inputs(InPinId),
    /// Every wire out of the output pin.
    Outputs(OutPinId),
}

impl Cut {
    spec fn cuts(self, w: Wire) -> bool {
        match self {
            Cut::Exact(x) => w == x,
            Cut::Node(n) => w.touches(n),
            Cut::Inputs(p) => w.in_pin == p,
            Cut::Outputs(p) => w.out_pin == p,
        }
    }

    fn cuts_exec(&self, w: &Wire) -> (r: bool)
        ensures
            r == self.cuts(*w),
    {
        match self {
            Cut::Exact(x) => *w == *x,
            Cut::Node(n) => w.out_pin.node == *n || w.in_pin.node == *n,
            Cut::Inputs(p) => w.in_pin == *p,
            Cut::Outputs(p) => w.out_pin == *p,
        }
    }
}

/// A set of wires, held in a vector without repeats.
pub struct Wires {
    wires: Vec<Wire>,
}

impl View for Wires {
    type V = Set<Wire>;

    closed spec fn view(&self) -> Set<Wire> {
        self.wires@.to_set()
    }
}

impl Wires {
    /// No wire is held twice.
    pub closed spec fn wf(&self) -> bool {
        self.wires@.no_duplicates()
    }

    /// The set of wires is finite.
    pub proof fn lemma_finite(&self)
        ensures
            self@.finite(),
    {
        vstd::seq_lib::seq_to_set_is_finite(self.wires@);
    }

    /// An empty set of wires.
    pub fn new() -> (r: Wires)
        ensures
            r.wf(),
            r@ == Set::<Wire>::empty(),
    {
        let r = Wires { wires: Vec::new() };
        assert(r@ =~= Set::<Wire>::empty());
        r
    }

    /// The number of wires.
    pub fn len(&self) -> (r: usize)
        requires
            self.wf(),
        ensures
            r == self@.len(),
    {
        proof {
            self.wires@.unique_seq_to_set();
        }
        self.wires.len()
    }

    /// Whether the set holds `wire`.
    pub fn contains(&self, wire: &Wire) -> (r: bool)
        ensures
            r == self@.contains(*wire),
    {
        let n = self.wires.len();
        let mut i: usize = 0;
        while i < n
            invariant
                n == self.wires@.len(),
                i <= n,
                forall|j: int| 0 <= j < i ==> self.wires@[j] != *wire,
            decreases n - i,
        {
            if self.wires[i] == *wire {
                return true;
            }
            i += 1;
        }
        false
    }

    /// Adds `wire`. Returns `false`, and changes nothing, where it was there already.
    pub fn insert(&mut self, wire: Wire) -> (r: bool)
        requires
            old(self).wf(),
        ensures
            final(self).wf(),
            r == !old(self)@.contains(wire),
            final(self)@ == old(self)@.insert(wire),
    {
        if self.contains(&wire) {
            assert(self@ =~= self@.insert(wire));
            false
        } else {
            let ghost before = self.wires@;
            self.wires.push(wire);
            proof {
                assert(self.wires@ =~= before.push(wire));
                assert forall|i: int, j: int|
                    0 <= i < self.wires@.len() && 0 <= j < self.wires@.len() && i != j implies
                    self.wires@[i] != self.wires@[j] by {
                    if i == before.len() as int {
                        assert(!before.contains(wire));
                        assert(before[j] == self.wires@[j]);
                    } else if j == before.len() as int {
                        assert(!before.contains(wire));
                        assert(before[i] == self.wires@[i]);
                    }
                }
                assert forall|x: Wire| self@.contains(x) <==> before.to_set().insert(wire).contains(x) by {
                    if before.contains(x) {
                        let k = choose|k: int| 0 <= k < before.len() && before[k] == x;
                        assert(self.wires@[k] == x);
                    }
                    if x == wire {
                        assert(self.wires@[before.len() as int] == x);
                    }
                }
                assert(self@ =~= before.to_set().insert(wire));
            }
            true
        }
    }

    /// Takes `wire` out. Returns whether it was there.
    pub fn remove(&mut self, wire: &Wire) -> (r: bool)
        requires
            old(self).wf(),
        ensures
            final(self).wf(),
            r == old(self)@.contains(*wire),
            final(self)@ == old(self)@.remove(*wire),
    {
        let r = self.contains(wire);
        let ghost before = self@;
        self.retain_uncut(Cut::Exact(*wire));
        assert(self@ =~= before.remove(*wire));
        r
    }

    /// Takes out every wire with an end on `node`.
    pub fn drop_node(&mut self, node: usize)
        requires
            old(self).wf(),
        ensures
            final(self).wf(),
            final(self)@ == old(self)@.filter(|w: Wire| !w.touches(node)),
    {
        let ghost before = self@;
        self.retain_uncut(Cut::Node(node));
        assert(self@ =~= before.filter(|w: Wire| !w.touches(node)));
    }

    /// Takes out every wire into the input pin `pin`.
    pub fn drop_inputs(&mut self, pin: InPinId)
        requires
            old(self).wf(),
        ensures
            final(self).wf(),
            final(self)@ == old(self)@.filter(|w: Wire| w.in_pin != pin),
    {
        let ghost before = self@;
        self.retain_uncut(Cut::Inputs(pin));
        assert(self@ =~= before.filter(|w: Wire| w.in_pin != pin));
    }

    /// Takes out every wire out of the output pin `pin`.
    pub fn drop_outputs(&mut self, pin: OutPinId)
        requires
            old(self).wf(),
        ensures
            final(self).wf(),
            final(self)@ == old(self)@.filter(|w: Wire| w.out_pin != pin),
    {
        let ghost before = self@;
        self.retain_uncut(Cut::Outputs(pin));
        assert(self@ =~= before.filter(|w: Wire| w.out_pin != pin));
    }

    /// The input pins that `out_pin` is wired to, each once.
    pub fn wired_inputs(&self, out_pin: OutPinId) -> (r: Vec<InPinId>)
        requires
            self.wf(),
        ensures
            r@.no_duplicates(),
            forall|p: InPinId| r@.contains(p) <==> self@.contains(Wire { out_pin, in_pin: p }),
    {
        let mut r: Vec<InPinId> = Vec::new();
        let n = self.wires.len();
        let mut i: usize = 0;
        while i < n
            invariant
                n == self.wires@.len(),
                i <= n,
                self.wf(),
                r@.no_duplicates(),
                forall|p: InPinId|
                    r@.contains(p) <==> (exists|j: int|
                        0 <= j < i && self.wires@[j] == (Wire { out_pin, in_pin: p })),
            decreases n - i,
        {
            let w = self.wires[i];
            if w.out_pin == out_pin {
                let ghost before = r@;
                proof {
                    if before.contains(w.in_pin) {
                        let j = choose|j: int|
                            0 <= j < i && self.wires@[j] == (Wire { out_pin, in_pin: w.in_pin });
                        assert(self.wires@[j] == self.wires@[i as int]);
                    }
                }
                r.push(w.in_pin);
                proof {
                    assert(r@ =~= before.push(w.in_pin));
                    assert forall|a: int, b: int|
                        0 <= a < r@.len() && 0 <= b < r@.len() && a != b implies r@[a] != r@[b] by {
                        if a == before.len() as int {
                            assert(r@[b] == before[b]);
                        } else if b == before.len() as int {
                            assert(r@[a] == before[a]);
                        }
                    }
                    assert forall|p: InPinId|
                        r@.contains(p) <==> (exists|j: int|
                            0 <= j < i + 1 && self.wires@[j] == (Wire { out_pin, in_pin: p })) by {
                        if r@.contains(p) {
                            let k = choose|k: int| 0 <= k < r@.len() && r@[k] == p;
                            if k < before.len() {
                                assert(before[k] == p);
                                assert(before.contains(p));
                            } else {
                                assert(self.wires@[i as int] == (Wire { out_pin, in_pin: p }));
                            }
                        }
                        if exists|j: int|
                            0 <= j < i + 1 && self.wires@[j] == (Wire { out_pin, in_pin: p }) {
                            let j = choose|j: int|
                                0 <= j < i + 1 && self.wires@[j] == (Wire { out_pin, in_pin: p });
                            if j < i {
                                assert(before.contains(p));
                                let k = choose|k: int| 0 <= k < before.len() && before[k] == p;
                                assert(r@[k] == p);
                            } else {
                                assert(r@[before.len() as int] == p);
                            }
                        }
                    }
                }
            } else {
                proof {
                    assert forall|p: InPinId|
                        r@.contains(p) <==> (exists|j: int|
                            0 <= j < i + 1 && self.wires@[j] == (Wire { out_pin, in_pin: p })) by {
                        if exists|j: int|
                            0 <= j < i + 1 && self.wires@[j] == (Wire { out_pin, in_pin: p }) {
                            let j = choose|j: int|
                                0 <= j < i + 1 && self.wires@[j] == (Wire { out_pin, in_pin: p });
                            assert(j < i);
                        }
                    }
                }
            }
            i += 1;
        }
        r
    }

    /// The output pins wired to `in_pin`, each once.
    pub fn wired_outputs(&self, in_pin: InPinId) -> (r: Vec<OutPinId>)
        requires
            self.wf(),
        ensures
            r@.no_duplicates(),
            forall|p: OutPinId| r@.contains(p) <==> self@.contains(Wire { out_pin: p, in_pin }),
    {
        let mut r: Vec<OutPinId> = Vec::new();
        let n = self.wires.len();
        let mut i: usize = 0;
        while i < n
            invariant
                n == self.wires@.len(),
                i <= n,
                self.wf(),
                r@.no_duplicates(),
                forall|p: OutPinId|
                    r@.contains(p) <==> (exists|j: int|
                        0 <= j < i && self.wires@[j] == (Wire { out_pin: p, in_pin })),
            decreases n - i,
        {
            let w = self.wires[i];
            if w.in_pin == in_pin {
                let ghost before = r@;
                proof {
                    if before.contains(w.out_pin) {
                        let j = choose|j: int|
                            0 <= j < i && self.wires@[j] == (Wire { out_pin: w.out_pin, in_pin });
                        assert(self.wires@[j] == self.wires@[i as int]);
                    }
                }
                r.push(w.out_pin);
                proof {
                    assert(r@ =~= before.push(w.out_pin));
                    assert forall|a: int, b: int|
                        0 <= a < r@.len() && 0 <= b < r@.len() && a != b implies r@[a] != r@[b] by {
                        if a == before.len() as int {
                            assert(r@[b] == before[b]);
                        } else if b == before.len() as int {
                            assert(r@[a] == before[a]);
                        }
                    }
                    assert forall|p: OutPinId|
                        r@.contains(p) <==> (exists|j: int|
                            0 <= j < i + 1 && self.wires@[j] == (Wire { out_pin: p, in_pin })) by {
                        if r@.contains(p) {
                            let k = choose|k: int| 0 <= k < r@.len() && r@[k] == p;
                            if k < before.len() {
                                assert(before[k] == p);
                                assert(before.contains(p));
                            } else {
                                assert(self.wires@[i as int] == (Wire { out_pin: p, in_pin }));
                            }
                        }
                        if exists|j: int|
                            0 <= j < i + 1 && self.wires@[j] == (Wire { out_pin: p, in_pin }) {
                            let j = choose|j: int|
                                0 <= j < i + 1 && self.wires@[j] == (Wire { out_pin: p, in_pin });
                            if j < i {
                                assert(before.contains(p));
                                let k = choose|k: int| 0 <= k < before.len() && before[k] == p;
                                assert(r@[k] == p);
                            } else {
                                assert(r@[before.len() as int] == p);
                            }
                        }
                    }
                }
            } else {
                proof {
                    assert forall|p: OutPinId|
                        r@.contains(p) <==> (exists|j: int|
                            0 <= j < i + 1 && self.wires@[j] == (Wire { out_pin: p, in_pin })) by {
                        if exists|j: int|
                            0 <= j < i + 1 && self.wires@[j] == (Wire { out_pin: p, in_pin }) {
                            let j = choose|j: int|
                                0 <= j < i + 1 && self.wires@[j] == (Wire { out_pin: p, in_pin });
                            assert(j < i);
                        }
                    }
                }
            }
            i += 1;
        }
        r
    }

    /// Every wire, each once.
    pub fn to_vec(&self) -> (r: Vec<Wire>)
        requires
            self.wf(),
        ensures
            r@.no_duplicates(),
            r@.to_set() == self@,
    {
        let mut r: Vec<Wire> = Vec::new();
        let n = self.wires.len();
        let mut i: usize = 0;
        while i < n
            invariant
                n == self.wires@.len(),
                i <= n,
                r@ == self.wires@.subrange(0, i as int),
            decreases n - i,
        {
            r.push(self.wires[i]);
            assert(r@ =~= self.wires@.subrange(0, i + 1));
            i += 1;
        }
        assert(r@ =~= self.wires@);
        r
    }

    /// Keeps the wires that `cut` does not take out.
    fn retain_uncut(&mut self, cut: Cut)
        requires
            old(self).wf(),
        ensures
            final(self).wf(),
            final(self)@ == old(self)@.filter(|w: Wire| !cut.cuts(w)),
    {
        let mut kept: Vec<Wire> = Vec::new();
        let n = self.wires.len();
        let mut i: usize = 0;
        while i < n
            invariant
                n == self.wires@.len(),
                i <= n,
                self.wf(),
                kept@.no_duplicates(),
                forall|x: Wire|
                    kept@.contains(x) <==> (exists|j: int|
                        0 <= j < i && self.wires@[j] == x && !cut.cuts(x)),
            decreases n - i,
        {
            let w = self.wires[i];
            let ghost before = kept@;
            if !cut.cuts_exec(&w) {
                proof {
                    if before.contains(w) {
                        let j = choose|j: int| 0 <= j < i && self.wires@[j] == w && !cut.cuts(w);
                        assert(self.wires@[j] == self.wires@[i as int]);
                    }
                }
                kept.push(w);
                proof {
                    assert(kept@ =~= before.push(w));
                    assert forall|a: int, b: int|
                        0 <= a < kept@.len() && 0 <= b < kept@.len() && a != b implies
                        kept@[a] != kept@[b] by {
                        if a == before.len() as int {
                            assert(kept@[b] == before[b]);
                        } else if b == before.len() as int {
                            assert(kept@[a] == before[a]);
                        }
                    }
                    assert forall|x: Wire|
                        kept@.contains(x) <==> (exists|j: int|
                            0 <= j < i + 1 && self.wires@[j] == x && !cut.cuts(x)) by {
                        if kept@.contains(x) {
                            let k = choose|k: int| 0 <= k < kept@.len() && kept@[k] == x;
                            if k < before.len() {
                                assert(before[k] == x);
                                assert(before.contains(x));
                            } else {
                                assert(self.wires@[i as int] == x);
                            }
                        }
                        if exists|j: int| 0 <= j < i + 1 && self.wires@[j] == x && !cut.cuts(x) {
                            let j = choose|j: int|
                                0 <= j < i + 1 && self.wires@[j] == x && !cut.cuts(x);
                            if j < i {
                                assert(before.contains(x));
                                let k = choose|k: int| 0 <= k < before.len() && before[k] == x;
                                assert(kept@[k] == x);
                            } else {
                                assert(kept@[before.len() as int] == x);
                            }
                        }
                    }
                }
            } else {
                proof {
                    assert forall|x: Wire|
                        kept@.contains(x) <==> (exists|j: int|
                            0 <= j < i + 1 && self.wires@[j] == x && !cut.cuts(x)) by {
                        if exists|j: int| 0 <= j < i + 1 && self.wires@[j] == x && !cut.cuts(x) {
                            let j = choose|j: int|
                                0 <= j < i + 1 && self.wires@[j] == x && !cut.cuts(x);
                            assert(j < i);
                        }
                    }
                }
            }
            i += 1;
        }
        let ghost old_view = self@;
        self.wires = kept;
        proof {
            assert forall|x: Wire|
                self@.contains(x) <==> old_view.filter(|w: Wire| !cut.cuts(w)).contains(x) by {
                if old_view.contains(x) && !cut.cuts(x) {
                    let k = choose|k: int| 0 <= k < n && self.wires@[k] == x;
                }
            }
            assert(self@ =~= old_view.filter(|w: Wire| !cut.cuts(w)));
        }
    }
}

} // verus!
