//! Properties that hold across calls of the container's operations.

use vstd::prelude::*;

use crate::pins::{InPinId, OutPinId, Wire};
use crate::slots::keys_distinct;
use crate::snarl::{MalformedGraph, Snarl, SnarlParts};

verus! {

/// Connecting the same two unwired pins twice returns `true` and then `false`,
/// and leaves exactly one wire more than there was before.
pub proof fn lemma_connect_twice<T>(
    s0: Snarl<T>,
    s1: Snarl<T>,
    s2: Snarl<T>,
    from: OutPinId,
    to: InPinId,
    r1: bool,
    r2: bool,
)
    requires
        s0.wf(),
        !s0.wire_set().contains(Wire { out_pin: from, in_pin: to }),
        s0.connect_post(s1, from, to, r1),
        s1.connect_post(s2, from, to, r2),
    ensures
        r1,
        !r2,
        s2.wire_set() == s1.wire_set(),
        s2.wire_set().len() == s0.wire_set().len() + 1,
{
    let w = Wire { out_pin: from, in_pin: to };
    s0.lemma_wire_set_finite();
    assert(s1.wire_set().contains(w));
    assert(s2.wire_set() =~= s1.wire_set());
}

/// Removing a node takes out exactly the wires with an end on it, and its
/// entry in the draw order; no wire left touches it.
pub proof fn lemma_remove_node_cascades<T>(s0: Snarl<T>, s1: Snarl<T>, n: usize, value: T)
    requires
        s0.wf(),
        s1.wf(),
        s0.is_live(n),
        s0.remove_node_post(s1, n, value),
    ensures
        s1.wire_set().len() == s0.wire_set().len() - s0.wires_touching(n).len(),
        !s1.draw_order_view().contains(n),
        forall|w: Wire| #[trigger] s1.wire_set().contains(w) ==> !w.touches(n),
{
    let a = s0.wires_touching(n);
    let b = s1.wire_set();
    s0.lemma_wire_set_finite();
    s1.lemma_wire_set_finite();
    vstd::set_lib::lemma_len_subset(a, s0.wire_set());
    assert(a.disjoint(b));
    assert(a + b =~= s0.wire_set());
    vstd::set_lib::lemma_set_disjoint_lens(a, b);
}

/// The draw order lists every live node once, and nothing else: as many
/// entries as live nodes.
pub proof fn lemma_draw_order_is_permutation<T>(s: Snarl<T>)
    requires
        s.wf(),
    ensures
        s.draw_order_view().no_duplicates(),
        forall|i: usize| #[trigger] s.draw_order_view().contains(i) <==> s.is_live(i),
        s.draw_order_view().len() == s.nodes_view().dom().len(),
{
    let d = s.draw_order_view();
    d.unique_seq_to_set();
    assert forall|i: usize| d.to_set().contains(i) <==> s.nodes_view().dom().contains(i) by {
        assert(d.contains(i) <==> s.nodes_view().contains_key(i));
    }
    assert(d.to_set() =~= s.nodes_view().dom());
}

/// Taking a container apart and putting the parts together again gives a
/// container with the same nodes, draw order and wires.
pub proof fn lemma_parts_round_trip<T>(
    s: Snarl<T>,
    parts: SnarlParts<T>,
    r: Result<Snarl<T>, MalformedGraph>,
)
    requires
        s.wf(),
        s.into_parts_post(parts),
        Snarl::<T>::from_parts_post(parts, r),
    ensures
        r is Ok,
        r->Ok_0.nodes_view() == s.nodes_view(),
        r->Ok_0.draw_order_view() == s.draw_order_view(),
        r->Ok_0.wire_set() == s.wire_set(),
{
    assert(keys_distinct(parts.nodes@));
    assert forall|w: Wire| #[trigger] parts.wires@.contains(w) implies s.is_live(w.out_pin.node)
        && s.is_live(w.in_pin.node) by {
        assert(parts.wires@.to_set().contains(w));
        assert(s.wire_set().contains(w));
    }
    assert(parts.valid());
}

/// Output `from` is wired, after the first `m` calls, to the first `m` inputs.
proof fn lemma_fan_out_prefix<T>(
    states: Seq<Snarl<T>>,
    from: OutPinId,
    ins: Seq<InPinId>,
    rs: Seq<bool>,
    m: int,
)
    requires
        states.len() == ins.len() + 1,
        rs.len() == ins.len(),
        0 <= m <= ins.len(),
        ins.no_duplicates(),
        forall|p: InPinId| !states[0].wire_set().contains(Wire { out_pin: from, in_pin: p }),
        forall|i: int|
            0 <= i < ins.len() ==> #[trigger] states[i].connect_post(
                states[i + 1],
                from,
                ins[i],
                rs[i],
            ),
    ensures
        forall|i: int| 0 <= i < m ==> rs[i],
        forall|p: InPinId|
            states[m].wire_set().contains(Wire { out_pin: from, in_pin: p }) <==> ins.subrange(
                0,
                m,
            ).contains(p),
    decreases m,
{
    if m > 0 {
        lemma_fan_out_prefix(states, from, ins, rs, m - 1);
        let i = m - 1;
        assert(states[i].connect_post(states[i + 1], from, ins[i], rs[i]));
        assert(i + 1 == m);
        let pre = ins.subrange(0, m - 1);
        assert(ins.subrange(0, m) =~= pre.push(ins[m - 1]));
        assert(!pre.contains(ins[m - 1])) by {
            if pre.contains(ins[m - 1]) {
                let j = choose|j: int| 0 <= j < pre.len() && pre[j] == ins[m - 1];
                assert(ins[j] == ins[m - 1]);
            }
        }
        assert forall|p: InPinId|
            states[m].wire_set().contains(Wire { out_pin: from, in_pin: p }) <==> ins.subrange(
                0,
                m,
            ).contains(p) by {
            let cur = ins.subrange(0, m);
            if pre.contains(p) {
                let j = choose|j: int| 0 <= j < pre.len() && pre[j] == p;
                assert(cur[j] == p);
            }
            if p == ins[m - 1] {
                assert(cur[m - 1] == p);
            }
            if cur.contains(p) && p != ins[m - 1] {
                let j = choose|j: int| 0 <= j < cur.len() && cur[j] == p;
                assert(pre[j] == p);
            }
        }
    } else {
        assert forall|p: InPinId| !ins.subrange(0, 0).contains(p) by {}
    }
}

/// Wiring one output, which had no wires, to distinct inputs one after
/// another: every call returns `true`, and afterwards the output is wired to
/// exactly those inputs.
pub proof fn lemma_fan_out<T>(
    states: Seq<Snarl<T>>,
    from: OutPinId,
    ins: Seq<InPinId>,
    rs: Seq<bool>,
)
    requires
        states.len() == ins.len() + 1,
        rs.len() == ins.len(),
        ins.no_duplicates(),
        forall|p: InPinId| !states[0].wire_set().contains(Wire { out_pin: from, in_pin: p }),
        forall|i: int|
            0 <= i < ins.len() ==> #[trigger] states[i].connect_post(
                states[i + 1],
                from,
                ins[i],
                rs[i],
            ),
    ensures
        forall|i: int| 0 <= i < rs.len() ==> rs[i],
        forall|p: InPinId|
            states.last().wire_set().contains(Wire { out_pin: from, in_pin: p }) <==> ins.contains(
                p,
            ),
{
    lemma_fan_out_prefix(states, from, ins, rs, ins.len() as int);
    assert(ins.subrange(0, ins.len() as int) =~= ins);
}

/// Input `to` is wired, after the first `m` calls, from the first `m` outputs.
proof fn lemma_fan_in_prefix<T>(
    states: Seq<Snarl<T>>,
    to: InPinId,
    outs: Seq<OutPinId>,
    rs: Seq<bool>,
    m: int,
)
    requires
        states.len() == outs.len() + 1,
        rs.len() == outs.len(),
        0 <= m <= outs.len(),
        outs.no_duplicates(),
        forall|p: OutPinId| !states[0].wire_set().contains(Wire { out_pin: p, in_pin: to }),
        forall|i: int|
            0 <= i < outs.len() ==> #[trigger] states[i].connect_post(
                states[i + 1],
                outs[i],
                to,
                rs[i],
            ),
    ensures
        forall|i: int| 0 <= i < m ==> rs[i],
        forall|p: OutPinId|
            states[m].wire_set().contains(Wire { out_pin: p, in_pin: to }) <==> outs.subrange(
                0,
                m,
            ).contains(p),
    decreases m,
{
    if m > 0 {
        lemma_fan_in_prefix(states, to, outs, rs, m - 1);
        let i = m - 1;
        assert(states[i].connect_post(states[i + 1], outs[i], to, rs[i]));
        assert(i + 1 == m);
        let pre = outs.subrange(0, m - 1);
        assert(outs.subrange(0, m) =~= pre.push(outs[m - 1]));
        assert(!pre.contains(outs[m - 1])) by {
            if pre.contains(outs[m - 1]) {
                let j = choose|j: int| 0 <= j < pre.len() && pre[j] == outs[m - 1];
                assert(outs[j] == outs[m - 1]);
            }
        }
        assert forall|p: OutPinId|
            states[m].wire_set().contains(Wire { out_pin: p, in_pin: to }) <==> outs.subrange(
                0,
                m,
            ).contains(p) by {
            let cur = outs.subrange(0, m);
            if pre.contains(p) {
                let j = choose|j: int| 0 <= j < pre.len() && pre[j] == p;
                assert(cur[j] == p);
            }
            if p == outs[m - 1] {
                assert(cur[m - 1] == p);
            }
            if cur.contains(p) && p != outs[m - 1] {
                let j = choose|j: int| 0 <= j < cur.len() && cur[j] == p;
                assert(pre[j] == p);
            }
        }
    } else {
        assert forall|p: OutPinId| !outs.subrange(0, 0).contains(p) by {}
    }
}

/// Wiring distinct outputs one after another to one input, which had no
/// wires: every call returns `true`, and afterwards the input is wired from
/// exactly those outputs.
pub proof fn lemma_fan_in<T>(
    states: Seq<Snarl<T>>,
    to: InPinId,
    outs: Seq<OutPinId>,
    rs: Seq<bool>,
)
    requires
        states.len() == outs.len() + 1,
        rs.len() == outs.len(),
        outs.no_duplicates(),
        forall|p: OutPinId| !states[0].wire_set().contains(Wire { out_pin: p, in_pin: to }),
        forall|i: int|
            0 <= i < outs.len() ==> #[trigger] states[i].connect_post(
                states[i + 1],
                outs[i],
                to,
                rs[i],
            ),
    ensures
        forall|i: int| 0 <= i < rs.len() ==> rs[i],
        forall|p: OutPinId|
            states.last().wire_set().contains(Wire { out_pin: p, in_pin: to }) <==> outs.contains(
                p,
            ),
{
    lemma_fan_in_prefix(states, to, outs, rs, outs.len() as int);
    assert(outs.subrange(0, outs.len() as int) =~= outs);
}

} // verus!
