//! The graph container: nodes, their draw order, and the wires between them.

use vstd::prelude::*;

use crate::pins::{InPinId, OutPinId, Wire};
use crate::slots::{keys_distinct, lemma_pairs_to_map, pairs_to_map, Node, NodeSlab};
use crate::wires::Wires;

verus! {

/// A container taken apart into plain values: each node with its index, the
/// draw order, and the wires.
pub struct SnarlParts<T> {
    pub nodes: Vec<(usize, Node<T>)>,
    pub draw_order: Vec<usize>,
    pub wires: Vec<Wire>,
}

/// The parts do not describe a container: two nodes share an index, the draw
/// order does not list each node once, or a wire has an end on no node.
#[derive(Clone, Copy, Debug, PartialEq, Eq, Structural)]
pub struct MalformedGraph;

impl<T> SnarlParts<T> {
    /// The parts describe a container.
    pub open spec fn valid(&self) -> bool {
        let m = pairs_to_map(self.nodes@);
        &&& keys_distinct(self.nodes@)
        &&& self.draw_order@.no_duplicates()
        &&& forall|d: usize| #[trigger] self.draw_order@.contains(d) <==> m.contains_key(d)
        &&& forall|w: Wire| #[trigger]
            self.wires@.contains(w) ==> m.contains_key(w.out_pin.node) && m.contains_key(
                w.in_pin.node,
            )
    }
}

/// Whether `x` is in `v`.
fn vec_has(v: &Vec<usize>, x: usize) -> (r: bool)
    ensures
        r == v@.contains(x),
{
    let n = v.len();
    let mut i: usize = 0;
    while i < n
        invariant
            n == v@.len(),
            i <= n,
            forall|j: int| 0 <= j < i ==> v@[j] != x,
        decreases n - i,
    {
        if v[i] == x {
            return true;
        }
        i += 1;
    }
    false
}

/// Whether no index is in `v` twice.
fn all_distinct(v: &Vec<usize>) -> (r: bool)
    ensures
        r == v@.no_duplicates(),
{
    let n = v.len();
    let mut i: usize = 0;
    while i < n
        invariant
            n == v@.len(),
            i <= n,
            forall|a: int, b: int| 0 <= a < b < n && a < i ==> v@[a] != v@[b],
        decreases n - i,
    {
        let mut j: usize = i + 1;
        while j < n
            invariant
                n == v@.len(),
                i < n,
                i < j <= n,
                forall|a: int, b: int| 0 <= a < b < n && a < i ==> v@[a] != v@[b],
                forall|b: int| i < b < j ==> v@[i as int] != v@[b],
            decreases n - j,
        {
            if v[i] == v[j] {
                return false;
            }
            j += 1;
        }
        i += 1;
    }
    true
}

/// Whether no two pairs share a key.
fn pair_keys_distinct<T>(v: &Vec<(usize, Node<T>)>) -> (r: bool)
    ensures
        r == keys_distinct(v@),
{
    let n = v.len();
    let mut i: usize = 0;
    while i < n
        invariant
            n == v@.len(),
            i <= n,
            forall|a: int, b: int| 0 <= a < b < n && a < i ==> v@[a].0 != v@[b].0,
        decreases n - i,
    {
        let mut j: usize = i + 1;
        while j < n
            invariant
                n == v@.len(),
                i < n,
                i < j <= n,
                forall|a: int, b: int| 0 <= a < b < n && a < i ==> v@[a].0 != v@[b].0,
                forall|b: int| i < b < j ==> v@[i as int].0 != v@[b].0,
            decreases n - j,
        {
            if v[i].0 == v[j].0 {
                return false;
            }
            j += 1;
        }
        i += 1;
    }
    true
}

/// A node-graph container.
///
/// It holds positioned nodes, the order in which they are drawn, and the wires
/// between their pins.
#[verifier::reject_recursive_types(T)]
pub struct Snarl<T> {
    nodes: NodeSlab<T>,
    draw_order: Vec<usize>,
    wires: Wires,
}

impl<T> Snarl<T> {
    /// The live nodes, by index.
    pub closed spec fn nodes_view(&self) -> Map<usize, Node<T>> {
        self.nodes@
    }

    /// The order in which the nodes are drawn.
    pub closed spec fn draw_order_view(&self) -> Seq<usize> {
        self.draw_order@
    }

    /// The wires.
    pub closed spec fn wire_set(&self) -> Set<Wire> {
        self.wires@
    }

    /// The wire set keeps no wire twice in its storage.
    pub closed spec fn wires_stored_once(&self) -> bool {
        self.wires.wf()
    }

    /// Whether `idx` is a live node.
    pub open spec fn is_live(&self, idx: usize) -> bool {
        self.nodes_view().contains_key(idx)
    }

    /// The wires with an end on `node`.
    pub open spec fn wires_touching(&self, node: usize) -> Set<Wire> {
        self.wire_set().filter(|w: Wire| w.touches(node))
    }

    /// The draw order lists each live node once and nothing else.
    pub open spec fn draw_order_ok(&self) -> bool {
        &&& self.draw_order_view().no_duplicates()
        &&& forall|i: usize| #[trigger]
            self.draw_order_view().contains(i) <==> self.nodes_view().contains_key(i)
    }

    /// Every wire joins two live nodes.
    pub open spec fn wires_ok(&self) -> bool {
        forall|w: Wire| #[trigger]
            self.wire_set().contains(w) ==> self.is_live(w.out_pin.node) && self.is_live(
                w.in_pin.node,
            )
    }

    /// The container's invariant.
    pub open spec fn wf(&self) -> bool {
        &&& self.wires_stored_once()
        &&& self.draw_order_ok()
        &&& self.wires_ok()
    }

    /// What `connect(from, to)` returning `r` does, from `self` to `after`.
    pub open spec fn connect_post(&self, after: Self, from: OutPinId, to: InPinId, r: bool) -> bool {
        &&& r == !self.wire_set().contains(Wire { out_pin: from, in_pin: to })
        &&& after.wire_set() == self.wire_set().insert(Wire { out_pin: from, in_pin: to })
        &&& after.nodes_view() == self.nodes_view()
        &&& after.draw_order_view() == self.draw_order_view()
    }

    /// What `remove_node(idx)` returning `value` does, from `self` to `after`.
    pub open spec fn remove_node_post(&self, after: Self, idx: usize, value: T) -> bool {
        &&& value == self.nodes_view()[idx].value
        &&& after.nodes_view() == self.nodes_view().remove(idx)
        &&& exists|k: int|
            0 <= k < self.draw_order_view().len() && self.draw_order_view()[k] == idx
                && after.draw_order_view() == self.draw_order_view().remove(k)
        &&& after.wire_set() == self.wire_set().filter(|w: Wire| !w.touches(idx))
    }

    /// What adding `value` at `pos` as open or collapsed, returning `idx`, does,
    /// from `self` to `after`.
    pub open spec fn add_node_post(
        &self,
        after: Self,
        value: T,
        pos: egui::Pos2,
        open: bool,
        idx: usize,
    ) -> bool {
        &&& !self.nodes_view().contains_key(idx)
        &&& after.nodes_view() == self.nodes_view().insert(idx, Node { value, pos, open })
        &&& after.draw_order_view() == self.draw_order_view().push(idx)
        &&& after.wire_set() == self.wire_set()
    }

    /// The set of wires is finite.
    pub proof fn lemma_wire_set_finite(&self)
        ensures
            self.wire_set().finite(),
    {
        self.wires.lemma_finite();
    }

    /// What `into_parts` returning `parts` gives of `self`.
    pub open spec fn into_parts_post(&self, parts: SnarlParts<T>) -> bool {
        &&& forall|i: int, j: int|
            0 <= i < j < parts.nodes@.len() ==> parts.nodes@[i].0 < parts.nodes@[j].0
        &&& pairs_to_map(parts.nodes@) == self.nodes_view()
        &&& parts.draw_order@ == self.draw_order_view()
        &&& parts.wires@.no_duplicates()
        &&& parts.wires@.to_set() == self.wire_set()
    }

    /// What `from_parts(parts)` returning `r` gives.
    pub open spec fn from_parts_post(parts: SnarlParts<T>, r: Result<Snarl<T>, MalformedGraph>) -> bool {
        &&& r is Ok <==> parts.valid()
        &&& r is Ok ==> {
            let s = r->Ok_0;
            &&& s.wf()
            &&& s.nodes_view() == pairs_to_map(parts.nodes@)
            &&& s.draw_order_view() == parts.draw_order@
            &&& s.wire_set() == parts.wires@.to_set()
        }
    }

    /// Takes the container apart: the nodes by rising index, the draw order,
    /// and each wire once.
    pub fn into_parts(self) -> (parts: SnarlParts<T>)
        requires
            self.wf(),
        ensures
            self.into_parts_post(parts),
    {
        let wires = self.wires.to_vec();
        SnarlParts { nodes: self.nodes.into_pairs(), draw_order: self.draw_order, wires }
    }

    /// Puts a container together from its parts, or reports that they describe
    /// none. A wire listed twice is kept once.
    pub fn from_parts(parts: SnarlParts<T>) -> (r: Result<Snarl<T>, MalformedGraph>)
        ensures
            Self::from_parts_post(parts, r),
    {
        let SnarlParts { nodes, draw_order, wires } = parts;
        if !pair_keys_distinct(&nodes) {
            return Err(MalformedGraph);
        }
        proof {
            lemma_pairs_to_map(nodes@);
        }
        let n = nodes.len();
        let mut i: usize = 0;
        while i < n
            invariant
                n == nodes@.len(),
                i <= n,
                parts.nodes@ == nodes@,
                parts.draw_order@ == draw_order@,
                keys_distinct(nodes@),
                forall|j: int| 0 <= j < i ==> draw_order@.contains(#[trigger] nodes@[j].0),
            decreases n - i,
        {
            if !vec_has(&draw_order, nodes[i].0) {
                proof {
                    lemma_pairs_to_map(nodes@);
                    assert(pairs_to_map(nodes@).contains_key(nodes@[i as int].0));
                }
                return Err(MalformedGraph);
            }
            i += 1;
        }
        if !all_distinct(&draw_order) {
            return Err(MalformedGraph);
        }
        let ghost m = pairs_to_map(nodes@);
        let slab = NodeSlab::from_pairs(nodes);
        let d = draw_order.len();
        let mut k: usize = 0;
        while k < d
            invariant
                d == draw_order@.len(),
                k <= d,
                slab@ == m,
                m == pairs_to_map(parts.nodes@),
                parts.draw_order@ == draw_order@,
                forall|j: int| 0 <= j < k ==> m.contains_key(#[trigger] draw_order@[j]),
            decreases d - k,
        {
            if !slab.contains(draw_order[k]) {
                proof {
                    assert(draw_order@.contains(draw_order@[k as int]));
                }
                return Err(MalformedGraph);
            }
            k += 1;
        }
        proof {
            lemma_pairs_to_map(nodes@);
            assert forall|x: usize| #[trigger] draw_order@.contains(x) <==> m.contains_key(x) by {
                if draw_order@.contains(x) {
                    let j = choose|j: int| 0 <= j < d && draw_order@[j] == x;
                    assert(m.contains_key(draw_order@[j]));
                }
                if m.contains_key(x) {
                    let j = choose|j: int| 0 <= j < n && nodes@[j].0 == x;
                    assert(draw_order@.contains(nodes@[j].0));
                }
            }
        }
        let mut set = Wires::new();
        let w_len = wires.len();
        let mut t: usize = 0;
        while t < w_len
            invariant
                w_len == wires@.len(),
                t <= w_len,
                slab@ == m,
                m == pairs_to_map(parts.nodes@),
                parts.wires@ == wires@,
                set.wf(),
                set@ == wires@.subrange(0, t as int).to_set(),
                forall|j: int|
                    0 <= j < t ==> m.contains_key(#[trigger] wires@[j].out_pin.node)
                        && m.contains_key(wires@[j].in_pin.node),
            decreases w_len - t,
        {
            let w = wires[t];
            if !slab.contains(w.out_pin.node) || !slab.contains(w.in_pin.node) {
                proof {
                    assert(wires@.contains(wires@[t as int]));
                }
                return Err(MalformedGraph);
            }
            let ghost before = set@;
            set.insert(w);
            proof {
                let pre = wires@.subrange(0, t as int);
                let cur = wires@.subrange(0, t + 1);
                assert forall|x: Wire| set@.contains(x) <==> cur.to_set().contains(x) by {
                    if pre.contains(x) {
                        let j = choose|j: int| 0 <= j < pre.len() && pre[j] == x;
                        assert(cur[j] == x);
                    }
                    if x == w {
                        assert(cur[t as int] == x);
                    }
                    if cur.contains(x) && x != w {
                        let j = choose|j: int| 0 <= j < cur.len() && cur[j] == x;
                        assert(pre[j] == x);
                    }
                }
                assert(set@ =~= cur.to_set());
            }
            t += 1;
        }
        let r = Snarl { nodes: slab, draw_order, wires: set };
        proof {
            assert(wires@.subrange(0, w_len as int) =~= wires@);
            assert forall|w: Wire| #[trigger] wires@.contains(w) implies m.contains_key(
                w.out_pin.node,
            ) && m.contains_key(w.in_pin.node) by {
                let j = choose|j: int| 0 <= j < w_len && wires@[j] == w;
                assert(m.contains_key(wires@[j].out_pin.node));
            }
            assert forall|w: Wire| #[trigger] r.wire_set().contains(w) implies r.is_live(
                w.out_pin.node,
            ) && r.is_live(w.in_pin.node) by {
                assert(wires@.contains(w));
            }
        }
        Ok(r)
    }

    /// Creates an empty container.
    pub fn new() -> (r: Snarl<T>)
        ensures
            r.wf(),
            r.nodes_view().dom() == Set::<usize>::empty(),
            r.draw_order_view() == Seq::<usize>::empty(),
            r.wire_set() == Set::<Wire>::empty(),
    {
        let r = Snarl { nodes: NodeSlab::new(), draw_order: Vec::new(), wires: Wires::new() };
        assert(r.draw_order@ =~= Seq::<usize>::empty());
        r
    }

    fn insert_node(&mut self, value: T, pos: egui::Pos2, open: bool) -> (idx: usize)
        requires
            old(self).wf(),
        ensures
            final(self).wf(),
            old(self).add_node_post(*final(self), value, pos, open, idx),
    {
        let idx = self.nodes.insert(Node { value, pos, open });
        let ghost before = self.draw_order@;
        self.draw_order.push(idx);
        proof {
            assert(self.draw_order@ =~= before.push(idx));
            assert(!before.contains(idx));
            assert forall|a: int, b: int|
                0 <= a < self.draw_order@.len() && 0 <= b < self.draw_order@.len() && a != b
                implies self.draw_order@[a] != self.draw_order@[b] by {
                if a == before.len() as int {
                    assert(self.draw_order@[b] == before[b]);
                } else if b == before.len() as int {
                    assert(self.draw_order@[a] == before[a]);
                }
            }
            assert forall|i: usize|
                #[trigger] self.draw_order@.contains(i) <==> self.nodes@.contains_key(i) by {
                if before.contains(i) {
                    let k = choose|k: int| 0 <= k < before.len() && before[k] == i;
                    assert(self.draw_order@[k] == i);
                }
                if i == idx {
                    assert(self.draw_order@[before.len() as int] == i);
                }
                if self.draw_order@.contains(i) && i != idx {
                    let k = choose|k: int| 0 <= k < self.draw_order@.len() && self.draw_order@[k] == i;
                    assert(before[k] == i);
                    assert(before.contains(i));
                }
            }
            assert forall|w: Wire| #[trigger] self.wire_set().contains(w) implies self.is_live(
                w.out_pin.node,
            ) && self.is_live(w.in_pin.node) by {
                assert(old(self).wire_set().contains(w));
            }
        }
        idx
    }

    /// Adds an open node holding `node` at `pos`. Returns its index.
    pub fn add_node(&mut self, node: T, pos: egui::Pos2) -> (idx: usize)
        requires
            old(self).wf(),
        ensures
            final(self).wf(),
            old(self).add_node_post(*final(self), node, pos, true, idx),
    {
        self.insert_node(node, pos, true)
    }

    /// Adds a collapsed node holding `node` at `pos`. Returns its index.
    pub fn add_node_collapsed(&mut self, node: T, pos: egui::Pos2) -> (idx: usize)
        requires
            old(self).wf(),
        ensures
            final(self).wf(),
            old(self).add_node_post(*final(self), node, pos, false, idx),
    {
        self.insert_node(node, pos, false)
    }
    /// Where `idx` stands in the draw order.
    fn draw_position(&self, idx: usize) -> (k: usize)
        requires
            self.draw_order@.contains(idx),
        ensures
            k < self.draw_order@.len(),
            self.draw_order@[k as int] == idx,
    {
        let n = self.draw_order.len();
        let mut k: usize = 0;
        while k < n
            invariant
                n == self.draw_order@.len(),
                k <= n,
                self.draw_order@.contains(idx),
                forall|j: int| 0 <= j < k ==> self.draw_order@[j] != idx,
            decreases n - k,
        {
            if self.draw_order[k] == idx {
                return k;
            }
            k += 1;
        }
        k
    }

    /// Removes the node `idx`, every wire with an end on it, and its place in
    /// the draw order. Returns its payload.
    pub fn remove_node(&mut self, idx: usize) -> (value: T)
        requires
            old(self).wf(),
            old(self).is_live(idx),
        ensures
            final(self).wf(),
            old(self).remove_node_post(*final(self), idx, value),
    {
        let k = self.draw_position(idx);
        let node = self.nodes.remove(idx);
        self.wires.drop_node(idx);
        let ghost before = self.draw_order@;
        self.draw_order.remove(k);
        proof {
            let after = self.draw_order@;
            assert(after =~= before.remove(k as int));
            assert forall|a: int, b: int|
                0 <= a < after.len() && 0 <= b < after.len() && a != b implies after[a]
                != after[b] by {
                let a2 = if a < k { a } else { a + 1 };
                let b2 = if b < k { b } else { b + 1 };
                assert(after[a] == before[a2]);
                assert(after[b] == before[b2]);
            }
            assert forall|i: usize| #[trigger]
                after.contains(i) <==> self.nodes@.contains_key(i) by {
                if after.contains(i) {
                    let m = choose|m: int| 0 <= m < after.len() && after[m] == i;
                    let m2 = if m < k { m } else { m + 1 };
                    assert(before[m2] == i);
                    assert(before.contains(i));
                }
                if self.nodes@.contains_key(i) {
                    assert(old(self).draw_order@.contains(i));
                    let j = choose|j: int| 0 <= j < before.len() && before[j] == i;
                    if j < k {
                        assert(after[j] == i);
                    } else {
                        assert(after[j - 1] == i);
                    }
                }
            }
            assert forall|w: Wire| #[trigger] self.wire_set().contains(w) implies self.is_live(
                w.out_pin.node,
            ) && self.is_live(w.in_pin.node) by {
                assert(old(self).wire_set().contains(w));
            }
        }
        node.value
    }

    /// Wires the output pin `from` to the input pin `to`; both nodes must be
    /// live. Returns `false`, and changes nothing, where the two were wired
    /// already.
    pub fn connect(&mut self, from: OutPinId, to: InPinId) -> (r: bool)
        requires
            old(self).wf(),
            old(self).is_live(from.node),
            old(self).is_live(to.node),
        ensures
            final(self).wf(),
            old(self).connect_post(*final(self), from, to, r),
    {
        let wire = Wire { out_pin: from, in_pin: to };
        let r = self.wires.insert(wire);
        proof {
            assert forall|w: Wire| #[trigger] self.wire_set().contains(w) implies self.is_live(
                w.out_pin.node,
            ) && self.is_live(w.in_pin.node) by {
                if w != wire {
                    assert(old(self).wire_set().contains(w));
                }
            }
        }
        r
    }

    /// Takes out the wire from `from` to `to`. Returns whether it was there.
    pub fn disconnect(&mut self, from: OutPinId, to: InPinId) -> (r: bool)
        requires
            old(self).wf(),
        ensures
            final(self).wf(),
            r == old(self).wire_set().contains(Wire { out_pin: from, in_pin: to }),
            final(self).wire_set() == old(self).wire_set().remove(Wire { out_pin: from, in_pin: to }),
            final(self).nodes_view() == old(self).nodes_view(),
            final(self).draw_order_view() == old(self).draw_order_view(),
    {
        let wire = Wire { out_pin: from, in_pin: to };
        let r = self.wires.remove(&wire);
        proof {
            assert forall|w: Wire| #[trigger] self.wire_set().contains(w) implies self.is_live(
                w.out_pin.node,
            ) && self.is_live(w.in_pin.node) by {
                assert(old(self).wire_set().contains(w));
            }
        }
        r
    }

    /// Takes out every wire into the input pin `pin`.
    pub fn drop_inputs(&mut self, pin: InPinId)
        requires
            old(self).wf(),
        ensures
            final(self).wf(),
            final(self).wire_set() == old(self).wire_set().filter(|w: Wire| w.in_pin != pin),
            final(self).nodes_view() == old(self).nodes_view(),
            final(self).draw_order_view() == old(self).draw_order_view(),
    {
        self.wires.drop_inputs(pin);
        proof {
            assert forall|w: Wire| #[trigger] self.wire_set().contains(w) implies self.is_live(
                w.out_pin.node,
            ) && self.is_live(w.in_pin.node) by {
                assert(old(self).wire_set().contains(w));
            }
        }
    }

    /// Takes out every wire out of the output pin `pin`.
    pub fn drop_outputs(&mut self, pin: OutPinId)
        requires
            old(self).wf(),
        ensures
            final(self).wf(),
            final(self).wire_set() == old(self).wire_set().filter(|w: Wire| w.out_pin != pin),
            final(self).nodes_view() == old(self).nodes_view(),
            final(self).draw_order_view() == old(self).draw_order_view(),
    {
        self.wires.drop_outputs(pin);
        proof {
            assert forall|w: Wire| #[trigger] self.wire_set().contains(w) implies self.is_live(
                w.out_pin.node,
            ) && self.is_live(w.in_pin.node) by {
                assert(old(self).wire_set().contains(w));
            }
        }
    }

    /// The input pins that `pin` is wired to, each once, in no set order.
    pub fn wired_inputs(&self, pin: OutPinId) -> (r: Vec<InPinId>)
        requires
            self.wf(),
        ensures
            r@.no_duplicates(),
            forall|p: InPinId|
                r@.contains(p) <==> self.wire_set().contains(Wire { out_pin: pin, in_pin: p }),
    {
        self.wires.wired_inputs(pin)
    }

    /// The output pins wired to `pin`, each once, in no set order.
    pub fn wired_outputs(&self, pin: InPinId) -> (r: Vec<OutPinId>)
        requires
            self.wf(),
        ensures
            r@.no_duplicates(),
            forall|p: OutPinId|
                r@.contains(p) <==> self.wire_set().contains(Wire { out_pin: p, in_pin: pin }),
    {
        self.wires.wired_outputs(pin)
    }

    /// Every wire, each once, in no set order.
    pub fn wires(&self) -> (r: Vec<Wire>)
        requires
            self.wf(),
        ensures
            r@.no_duplicates(),
            r@.to_set() == self.wire_set(),
    {
        self.wires.to_vec()
    }

    /// The number of wires.
    pub fn wire_count(&self) -> (r: usize)
        requires
            self.wf(),
        ensures
            r == self.wire_set().len(),
    {
        self.wires.len()
    }

    /// Whether `idx` is a live node.
    pub fn contains_node(&self, idx: usize) -> (r: bool)
        ensures
            r == self.is_live(idx),
    {
        self.nodes.contains(idx)
    }

    /// The payload of node `idx`, if it is live.
    pub fn get_node(&self, idx: usize) -> (r: Option<&T>)
        ensures
            r.is_some() == self.is_live(idx),
            r.is_some() ==> *r.unwrap() == self.nodes_view()[idx].value,
    {
        match self.nodes.get(idx) {
            Some(node) => Some(&node.value),
            None => None,
        }
    }

    /// The position of node `idx`, if it is live.
    pub fn node_pos(&self, idx: usize) -> (r: Option<egui::Pos2>)
        ensures
            r.is_some() == self.is_live(idx),
            r.is_some() ==> r.unwrap() == self.nodes_view()[idx].pos,
    {
        match self.nodes.get(idx) {
            Some(node) => Some(node.pos),
            None => None,
        }
    }

    /// Whether node `idx` is open, if it is live.
    pub fn node_open(&self, idx: usize) -> (r: Option<bool>)
        ensures
            r.is_some() == self.is_live(idx),
            r.is_some() ==> r.unwrap() == self.nodes_view()[idx].open,
    {
        match self.nodes.get(idx) {
            Some(node) => Some(node.open),
            None => None,
        }
    }

    /// Changing what the live nodes hold, but not which nodes live, keeps the
    /// invariant.
    pub proof fn lemma_same_nodes_keep_wf(before: Self, after: Self)
        requires
            before.wf(),
            after.wires_stored_once() == before.wires_stored_once(),
            after.nodes_view().dom() == before.nodes_view().dom(),
            after.draw_order_view() == before.draw_order_view(),
            after.wire_set() == before.wire_set(),
        ensures
            after.wf(),
    {
        assert forall|i: usize| #[trigger]
            after.draw_order_view().contains(i) <==> after.nodes_view().contains_key(i) by {
            assert(before.draw_order_view().contains(i) <==> before.nodes_view().contains_key(i));
        }
        assert forall|w: Wire| #[trigger] after.wire_set().contains(w) implies after.is_live(
            w.out_pin.node,
        ) && after.is_live(w.in_pin.node) by {
            assert(before.wire_set().contains(w));
        }
    }

    /// The payload of node `idx`, for writing, if it is live.
    pub fn get_node_mut(&mut self, idx: usize) -> (r: Option<&mut T>)
        requires
            old(self).wf(),
        ensures
            r.is_some() == old(self).is_live(idx),
            r.is_some() ==> *r.unwrap() == old(self).nodes_view()[idx].value
                && final(self).nodes_view() == old(self).nodes_view().insert(
                idx,
                Node { value: *final(r.unwrap()), ..old(self).nodes_view()[idx] },
            ),
            r.is_none() ==> final(self).nodes_view() == old(self).nodes_view(),
            final(self).draw_order_view() == old(self).draw_order_view(),
            final(self).wire_set() == old(self).wire_set(),
            final(self).wires_stored_once() == old(self).wires_stored_once(),
    {
        match self.nodes.get_mut(idx) {
            Some(node) => Some(&mut node.value),
            None => None,
        }
    }

    /// Moves node `idx` to `pos`. Returns whether the node is live; where it is
    /// not, nothing changes.
    pub fn set_node_pos(&mut self, idx: usize, pos: egui::Pos2) -> (r: bool)
        requires
            old(self).wf(),
        ensures
            final(self).wf(),
            r == old(self).is_live(idx),
            r ==> final(self).nodes_view() == old(self).nodes_view().insert(
                idx,
                Node { pos, ..old(self).nodes_view()[idx] },
            ),
            !r ==> final(self).nodes_view() == old(self).nodes_view(),
            final(self).draw_order_view() == old(self).draw_order_view(),
            final(self).wire_set() == old(self).wire_set(),
    {
        let r = match self.nodes.get_mut(idx) {
            Some(node) => {
                node.pos = pos;
                true
            },
            None => false,
        };
        proof {
            assert(self.nodes@.dom() =~= old(self).nodes@.dom());
            Self::lemma_same_nodes_keep_wf(*old(self), *self);
        }
        r
    }

    /// Opens or collapses node `idx`. Returns whether the node is live; where
    /// it is not, nothing changes.
    pub fn set_node_open(&mut self, idx: usize, open: bool) -> (r: bool)
        requires
            old(self).wf(),
        ensures
            final(self).wf(),
            r == old(self).is_live(idx),
            r ==> final(self).nodes_view() == old(self).nodes_view().insert(
                idx,
                Node { open, ..old(self).nodes_view()[idx] },
            ),
            !r ==> final(self).nodes_view() == old(self).nodes_view(),
            final(self).draw_order_view() == old(self).draw_order_view(),
            final(self).wire_set() == old(self).wire_set(),
    {
        let r = match self.nodes.get_mut(idx) {
            Some(node) => {
                node.open = open;
                true
            },
            None => false,
        };
        proof {
            assert(self.nodes@.dom() =~= old(self).nodes@.dom());
            Self::lemma_same_nodes_keep_wf(*old(self), *self);
        }
        r
    }

    /// Puts `value` in node `idx` as its payload. Returns the payload it held,
    /// or `None`, and changes nothing, where the node is not live.
    pub fn replace_node(&mut self, idx: usize, value: T) -> (r: Option<T>)
        requires
            old(self).wf(),
        ensures
            final(self).wf(),
            r.is_some() == old(self).is_live(idx),
            r.is_some() ==> r.unwrap() == old(self).nodes_view()[idx].value
                && final(self).nodes_view() == old(self).nodes_view().insert(
                idx,
                Node { value, ..old(self).nodes_view()[idx] },
            ),
            r.is_none() ==> final(self).nodes_view() == old(self).nodes_view(),
            final(self).draw_order_view() == old(self).draw_order_view(),
            final(self).wire_set() == old(self).wire_set(),
    {
        let r = match self.nodes.get_mut(idx) {
            Some(node) => {
                let mut value = value;
                core::mem::swap(&mut node.value, &mut value);
                Some(value)
            },
            None => None,
        };
        proof {
            assert(self.nodes@.dom() =~= old(self).nodes@.dom());
            Self::lemma_same_nodes_keep_wf(*old(self), *self);
        }
        r
    }

    /// The live nodes in the order in which they are drawn.
    pub fn draw_order(&self) -> (r: Vec<usize>)
        ensures
            r@ == self.draw_order_view(),
    {
        let mut r: Vec<usize> = Vec::new();
        let n = self.draw_order.len();
        let mut i: usize = 0;
        while i < n
            invariant
                n == self.draw_order@.len(),
                i <= n,
                r@ == self.draw_order@.subrange(0, i as int),
            decreases n - i,
        {
            r.push(self.draw_order[i]);
            assert(r@ =~= self.draw_order@.subrange(0, i + 1));
            i += 1;
        }
        assert(r@ =~= self.draw_order@);
        r
    }
}

impl<T> Default for Snarl<T> {
    fn default() -> (r: Snarl<T>)
        ensures
            r.wf(),
            r.nodes_view().dom() == Set::<usize>::empty(),
            r.draw_order_view() == Seq::<usize>::empty(),
            r.wire_set() == Set::<Wire>::empty(),
    {
        Snarl::new()
    }
}

} // verus!
