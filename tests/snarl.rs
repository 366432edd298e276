use egui::pos2;
use egui_snarl::{wire_pins, InPinId, OutPinId, Snarl, Wire};

fn out(node: usize, output: usize) -> OutPinId {
    OutPinId { node, output }
}

fn inp(node: usize, input: usize) -> InPinId {
    InPinId { node, input }
}

fn same_items<A: PartialEq + std::fmt::Debug>(got: &[A], want: &[A]) {
    assert_eq!(got.len(), want.len(), "got {:?}, want {:?}", got, want);
    for w in want {
        assert!(got.contains(w), "got {:?}, want {:?}", got, want);
    }
}

#[test]
fn scenario_add_connect_remove() {
    let mut snarl = Snarl::new();
    assert_eq!(snarl.add_node("A", pos2(0.0, 0.0)), 0);
    assert_eq!(snarl.add_node("B", pos2(10.0, 10.0)), 1);
    assert!(snarl.connect(out(0, 0), inp(1, 0)));
    assert!(!snarl.connect(out(0, 0), inp(1, 0)));
    assert_eq!(snarl.remove_node(0), "A");
    assert!(!snarl.contains_node(0));
    assert!(snarl.contains_node(1));
    assert_eq!(snarl.wire_count(), 0);
    assert!(snarl.wires().is_empty());
    assert_eq!(snarl.draw_order(), vec![1]);
    assert_eq!(snarl.get_node(1), Some(&"B"));
}

#[test]
fn connect_twice_adds_one_wire() {
    let mut snarl = Snarl::new();
    let a = snarl.add_node(1u32, pos2(0.0, 0.0));
    let b = snarl.add_node(2u32, pos2(5.0, 0.0));
    assert!(snarl.connect(out(a, 0), inp(b, 0)));
    let before = snarl.wire_count();
    assert!(snarl.connect(out(a, 1), inp(b, 0)));
    assert!(!snarl.connect(out(a, 1), inp(b, 0)));
    assert_eq!(snarl.wire_count(), before + 1);
}

#[test]
fn different_pin_index_is_a_different_wire() {
    let mut snarl = Snarl::new();
    let a = snarl.add_node((), pos2(0.0, 0.0));
    let b = snarl.add_node((), pos2(0.0, 0.0));
    assert!(snarl.connect(out(a, 0), inp(b, 0)));
    assert!(snarl.connect(out(a, 0), inp(b, 1)));
    assert!(snarl.connect(out(a, 1), inp(b, 0)));
    assert_eq!(snarl.wire_count(), 3);
}

#[test]
fn remove_node_cascades_wires() {
    let mut snarl = Snarl::new();
    let a = snarl.add_node('a', pos2(0.0, 0.0));
    let b = snarl.add_node('b', pos2(1.0, 0.0));
    let c = snarl.add_node('c', pos2(2.0, 0.0));
    assert!(snarl.connect(out(a, 0), inp(b, 0)));
    assert!(snarl.connect(out(b, 0), inp(c, 0)));
    assert!(snarl.connect(out(b, 1), inp(b, 1)));
    assert!(snarl.connect(out(a, 0), inp(c, 1)));
    assert_eq!(snarl.wire_count(), 4);
    assert_eq!(snarl.remove_node(b), 'b');
    assert_eq!(snarl.wire_count(), 1);
    assert_eq!(snarl.wires(), vec![wire_pins(out(a, 0), inp(c, 1))]);
    assert_eq!(snarl.draw_order(), vec![a, c]);
    assert!(snarl.wired_inputs(out(b, 0)).is_empty());
    assert!(snarl.wired_inputs(out(b, 1)).is_empty());
    assert!(snarl.wired_outputs(inp(b, 0)).is_empty());
    assert!(snarl.wired_outputs(inp(b, 1)).is_empty());
    same_items(&snarl.wired_inputs(out(a, 0)), &[inp(c, 1)]);
}

#[test]
fn draw_order_after_adds_and_removes() {
    let mut snarl = Snarl::new();
    for i in 0..4u8 {
        assert_eq!(snarl.add_node(i, pos2(0.0, 0.0)), i as usize);
    }
    assert_eq!(snarl.remove_node(1), 1);
    assert_eq!(snarl.draw_order(), vec![0, 2, 3]);
    let reused = snarl.add_node_collapsed(9, pos2(3.0, 4.0));
    assert_eq!(reused, 1);
    assert_eq!(snarl.draw_order(), vec![0, 2, 3, 1]);
    assert_eq!(snarl.get_node(1), Some(&9));
    assert_eq!(snarl.remove_node(0), 0);
    assert_eq!(snarl.remove_node(3), 3);
    assert_eq!(snarl.draw_order(), vec![2, 1]);
    for i in 0..5usize {
        assert_eq!(snarl.contains_node(i), i == 1 || i == 2);
    }
}

#[test]
fn fan_out_to_distinct_inputs() {
    let mut snarl = Snarl::new();
    let src = snarl.add_node(0, pos2(0.0, 0.0));
    let mut want = Vec::new();
    for i in 0..4usize {
        let dst = snarl.add_node(i + 1, pos2(0.0, 0.0));
        want.push(inp(dst, i));
    }
    for p in &want {
        assert!(snarl.connect(out(src, 2), *p));
    }
    same_items(&snarl.wired_inputs(out(src, 2)), &want);
    assert!(snarl.wired_inputs(out(src, 0)).is_empty());
}

#[test]
fn fan_in_from_distinct_outputs() {
    let mut snarl = Snarl::new();
    let dst = snarl.add_node(0, pos2(0.0, 0.0));
    let mut want = Vec::new();
    for i in 0..3usize {
        let src = snarl.add_node(i + 1, pos2(0.0, 0.0));
        want.push(out(src, 0));
        want.push(out(src, 1));
    }
    for p in &want {
        assert!(snarl.connect(*p, inp(dst, 0)));
    }
    same_items(&snarl.wired_outputs(inp(dst, 0)), &want);
    assert!(snarl.wired_outputs(inp(dst, 1)).is_empty());
}

#[test]
fn disconnect_reports_presence() {
    let mut snarl = Snarl::new();
    let a = snarl.add_node((), pos2(0.0, 0.0));
    let b = snarl.add_node((), pos2(0.0, 0.0));
    assert!(!snarl.disconnect(out(a, 0), inp(b, 0)));
    assert!(snarl.connect(out(a, 0), inp(b, 0)));
    assert!(snarl.connect(out(a, 0), inp(b, 1)));
    assert!(snarl.disconnect(out(a, 0), inp(b, 0)));
    assert!(!snarl.disconnect(out(a, 0), inp(b, 0)));
    assert_eq!(snarl.wires(), vec![Wire { out_pin: out(a, 0), in_pin: inp(b, 1) }]);
}

#[test]
fn drop_inputs_clears_one_input_pin() {
    let mut snarl = Snarl::new();
    let a = snarl.add_node((), pos2(0.0, 0.0));
    let b = snarl.add_node((), pos2(0.0, 0.0));
    assert!(snarl.connect(out(a, 0), inp(b, 0)));
    assert!(snarl.connect(out(a, 1), inp(b, 0)));
    assert!(snarl.connect(out(a, 1), inp(b, 1)));
    snarl.drop_inputs(inp(b, 0));
    assert_eq!(snarl.wires(), vec![wire_pins(out(a, 1), inp(b, 1))]);
    snarl.drop_inputs(inp(b, 0));
    assert_eq!(snarl.wire_count(), 1);
}

#[test]
fn drop_outputs_clears_one_output_pin() {
    let mut snarl = Snarl::new();
    let a = snarl.add_node((), pos2(0.0, 0.0));
    let b = snarl.add_node((), pos2(0.0, 0.0));
    assert!(snarl.connect(out(a, 0), inp(b, 0)));
    assert!(snarl.connect(out(a, 0), inp(b, 1)));
    assert!(snarl.connect(out(a, 1), inp(b, 1)));
    snarl.drop_outputs(out(a, 0));
    assert_eq!(snarl.wires(), vec![wire_pins(out(a, 1), inp(b, 1))]);
}

#[test]
fn nodes_keep_position_and_open_flag() {
    let mut snarl = Snarl::new();
    let a = snarl.add_node(String::from("open"), pos2(1.5, -2.0));
    let b = snarl.add_node_collapsed(String::from("shut"), pos2(7.0, 8.0));
    assert_eq!(snarl.node_open(a), Some(true));
    assert_eq!(snarl.node_open(b), Some(false));
    assert_eq!(snarl.node_pos(a), Some(pos2(1.5, -2.0)));
    assert_eq!(snarl.node_pos(b), Some(pos2(7.0, 8.0)));
    assert_eq!(snarl.get_node(b).map(|s| s.as_str()), Some("shut"));
    assert_eq!(snarl.node_open(5), None);
    assert_eq!(snarl.node_pos(5), None);
    assert_eq!(snarl.get_node(5), None);
}

#[test]
fn new_and_default_are_empty() {
    let a: Snarl<u8> = Snarl::new();
    let b: Snarl<u8> = Snarl::default();
    for s in [&a, &b] {
        assert!(s.draw_order().is_empty());
        assert!(s.wires().is_empty());
        assert_eq!(s.wire_count(), 0);
        assert!(!s.contains_node(0));
    }
}

#[test]
fn wire_pins_joins_the_two_pins() {
    let w = wire_pins(out(3, 4), inp(5, 6));
    assert_eq!(w.out_pin, out(3, 4));
    assert_eq!(w.in_pin, inp(5, 6));
}

#[test]
fn node_setters_change_one_node() {
    let mut snarl = Snarl::new();
    let a = snarl.add_node(10, pos2(0.0, 0.0));
    let b = snarl.add_node(20, pos2(1.0, 1.0));
    assert!(snarl.set_node_pos(a, pos2(5.0, 6.0)));
    assert!(snarl.set_node_open(b, false));
    assert_eq!(snarl.node_pos(a), Some(pos2(5.0, 6.0)));
    assert_eq!(snarl.node_pos(b), Some(pos2(1.0, 1.0)));
    assert_eq!(snarl.node_open(a), Some(true));
    assert_eq!(snarl.node_open(b), Some(false));
    assert!(!snarl.set_node_pos(7, pos2(0.0, 0.0)));
    assert!(!snarl.set_node_open(7, true));
    assert_eq!(snarl.draw_order(), vec![a, b]);
}

#[test]
fn payload_can_be_written_in_place() {
    let mut snarl = Snarl::new();
    let a = snarl.add_node(vec![1u8], pos2(0.0, 0.0));
    let b = snarl.add_node(vec![2u8], pos2(0.0, 0.0));
    if let Some(v) = snarl.get_node_mut(a) {
        v.push(3);
    }
    assert_eq!(snarl.get_node(a), Some(&vec![1, 3]));
    assert_eq!(snarl.get_node(b), Some(&vec![2]));
    assert!(snarl.get_node_mut(9).is_none());
    assert_eq!(snarl.replace_node(b, vec![4]), Some(vec![2]));
    assert_eq!(snarl.get_node(b), Some(&vec![4]));
    assert_eq!(snarl.replace_node(9, vec![5]), None);
    assert_eq!(snarl.remove_node(a), vec![1, 3]);
}
