use egui::pos2;
use egui_snarl::{InPinId, MalformedGraph, Node, OutPinId, Snarl, SnarlParts, Wire};

fn wire(out_node: usize, output: usize, in_node: usize, input: usize) -> Wire {
    Wire {
        out_pin: OutPinId { node: out_node, output },
        in_pin: InPinId { node: in_node, input },
    }
}

fn node(value: &'static str, x: f32, open: bool) -> Node<&'static str> {
    Node { value, pos: pos2(x, 0.0), open }
}

fn sample() -> Snarl<&'static str> {
    let mut snarl = Snarl::new();
    let a = snarl.add_node("a", pos2(0.0, 1.0));
    let b = snarl.add_node_collapsed("b", pos2(2.0, 3.0));
    let c = snarl.add_node("c", pos2(4.0, 5.0));
    let d = snarl.add_node("d", pos2(6.0, 7.0));
    assert_eq!(snarl.remove_node(b), "b");
    assert_eq!(snarl.add_node_collapsed("e", pos2(8.0, 9.0)), b);
    assert!(snarl.connect(OutPinId { node: a, output: 0 }, InPinId { node: c, input: 0 }));
    assert!(snarl.connect(OutPinId { node: a, output: 0 }, InPinId { node: b, input: 0 }));
    assert!(snarl.connect(OutPinId { node: d, output: 1 }, InPinId { node: c, input: 1 }));
    snarl
}

fn same_wires(mut got: Vec<Wire>, want: &[Wire]) {
    assert_eq!(got.len(), want.len());
    for w in want {
        let at = got.iter().position(|g| g == w).expect("wire missing");
        got.swap_remove(at);
    }
}

#[test]
fn parts_round_trip_keeps_everything() {
    let snarl = sample();
    let draw = snarl.draw_order();
    let wires = snarl.wires();
    let parts = snarl.into_parts();
    let keys: Vec<usize> = parts.nodes.iter().map(|(k, _)| *k).collect();
    assert_eq!(keys, vec![0, 1, 2, 3]);
    let back = Snarl::from_parts(parts).expect("valid parts");
    assert_eq!(back.draw_order(), draw);
    assert_eq!(back.draw_order(), vec![0, 2, 3, 1]);
    same_wires(back.wires(), &wires);
    assert_eq!(back.get_node(0), Some(&"a"));
    assert_eq!(back.get_node(1), Some(&"e"));
    assert_eq!(back.node_open(1), Some(false));
    assert_eq!(back.node_open(2), Some(true));
    assert_eq!(back.node_pos(1), Some(pos2(8.0, 9.0)));
    assert_eq!(back.node_pos(3), Some(pos2(6.0, 7.0)));
    assert!(!back.contains_node(4));
}

#[test]
fn from_parts_with_gaps_in_indices() {
    let parts = SnarlParts {
        nodes: vec![(4, node("x", 1.0, true)), (1, node("y", 2.0, false))],
        draw_order: vec![1, 4],
        wires: vec![wire(4, 0, 1, 0), wire(1, 0, 4, 0), wire(4, 0, 1, 0)],
    };
    let mut snarl = Snarl::from_parts(parts).expect("valid parts");
    assert_eq!(snarl.draw_order(), vec![1, 4]);
    assert_eq!(snarl.wire_count(), 2);
    assert!(!snarl.contains_node(0));
    assert_eq!(snarl.get_node(4), Some(&"x"));
    assert_eq!(snarl.remove_node(4), "x");
    assert_eq!(snarl.wire_count(), 0);
    assert_eq!(snarl.draw_order(), vec![1]);
}

#[test]
fn from_parts_rejects_shared_index() {
    let parts = SnarlParts {
        nodes: vec![(0, node("x", 0.0, true)), (0, node("y", 0.0, true))],
        draw_order: vec![0],
        wires: vec![],
    };
    assert_eq!(Snarl::from_parts(parts).err(), Some(MalformedGraph));
}

#[test]
fn from_parts_rejects_undrawn_node() {
    let parts = SnarlParts {
        nodes: vec![(0, node("x", 0.0, true)), (1, node("y", 0.0, true))],
        draw_order: vec![1],
        wires: vec![],
    };
    assert_eq!(Snarl::from_parts(parts).err(), Some(MalformedGraph));
}

#[test]
fn from_parts_rejects_dead_draw_entry() {
    let parts = SnarlParts {
        nodes: vec![(0, node("x", 0.0, true))],
        draw_order: vec![0, 7],
        wires: vec![],
    };
    assert_eq!(Snarl::from_parts(parts).err(), Some(MalformedGraph));
}

#[test]
fn from_parts_rejects_repeated_draw_entry() {
    let parts = SnarlParts {
        nodes: vec![(0, node("x", 0.0, true))],
        draw_order: vec![0, 0],
        wires: vec![],
    };
    assert_eq!(Snarl::from_parts(parts).err(), Some(MalformedGraph));
}

#[test]
fn from_parts_rejects_dangling_wire() {
    let parts = SnarlParts {
        nodes: vec![(0, node("x", 0.0, true)), (1, node("y", 0.0, true))],
        draw_order: vec![0, 1],
        wires: vec![wire(0, 0, 1, 0), wire(0, 0, 2, 0)],
    };
    assert_eq!(Snarl::from_parts(parts).err(), Some(MalformedGraph));
}

#[test]
fn empty_parts_give_empty_container() {
    let parts: SnarlParts<u8> = SnarlParts { nodes: vec![], draw_order: vec![], wires: vec![] };
    let snarl = Snarl::from_parts(parts).expect("valid parts");
    assert!(snarl.draw_order().is_empty());
    assert_eq!(snarl.wire_count(), 0);
}
