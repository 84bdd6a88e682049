use logic_sim::{Circuit, GateKind, LogicState, UsageError, Wire, WireOutput, STEPS_PER_WIRE};

#[test]
fn wire_reports_last_pushed_value() {
    let mut wire = Wire::new();
    assert_eq!(wire.get_state(), LogicState::INVALID);
    wire.set_state(LogicState::HIGH);
    assert_eq!(wire.get_state(), LogicState::HIGH);
    wire.set_state(LogicState::LOW);
    assert_eq!(wire.get_state(), LogicState::LOW);
    let mut gate = logic_sim::new_and_gate();
    let k = gate.add_input();
    wire.add_output(WireOutput::new(0, k));
    assert_eq!(wire.outputs.len(), 1);
    assert_eq!(wire.outputs[0].logic_block, 0);
    assert_eq!(wire.get_state(), LogicState::LOW);
}

#[test]
fn fan_out_delivers_the_same_value_to_every_target() {
    let mut c = Circuit::new();
    let g1 = c.add_gate(GateKind::And);
    let g2 = c.add_gate(GateKind::Or);
    let k1 = c.add_input(g1).unwrap();
    let k2 = c.add_input(g2).unwrap();
    let k3 = c.add_input(g2).unwrap();
    let w = c.add_wire();
    assert_eq!(c.add_target(w, g1, k1), Ok(()));
    assert_eq!(c.add_target(w, g2, k2), Ok(()));
    assert_eq!(c.drive(w, LogicState::HIGH), Ok(()));
    assert_eq!(c.wire_state(w), Some(LogicState::HIGH));
    assert_eq!(c.pending(), 1);
    assert!(c.step());
    assert_eq!(c.input_state(g1, k1), Some(LogicState::HIGH));
    assert_eq!(c.input_state(g2, k2), Some(LogicState::HIGH));
    assert_eq!(c.input_state(g2, k3), Some(LogicState::LOW));
    assert_eq!(c.gate_output(g1), Some(LogicState::HIGH));
    assert_eq!(c.gate_output(g2), Some(LogicState::HIGH));
    assert!(!c.step());
}

#[test]
fn usage_errors() {
    let mut c = Circuit::new();
    let g = c.add_gate(GateKind::And);
    let k = c.add_input(g).unwrap();
    let w = c.add_wire();
    let w2 = c.add_wire();
    assert_eq!(c.add_input(7), Err(UsageError::UnknownGate));
    assert_eq!(c.drive(9, LogicState::HIGH), Err(UsageError::UnknownWire));
    assert_eq!(c.add_target(9, g, k), Err(UsageError::UnknownWire));
    assert_eq!(c.add_target(w, 4, k), Err(UsageError::UnknownGate));
    assert_eq!(c.connect_output(4, w), Err(UsageError::UnknownGate));
    assert_eq!(c.connect_output(g, 9), Err(UsageError::UnknownWire));
    assert_eq!(c.invert_output(4, true), Err(UsageError::UnknownGate));
    let g2 = c.add_gate(GateKind::Or);
    let _ = c.add_input(g2).unwrap();
    let other = c.add_input(g2).unwrap();
    assert_eq!(c.add_target(w, g, other), Err(UsageError::UnknownPort));
    assert_eq!(c.add_target(w, g, k), Ok(()));
    assert_eq!(c.add_target(w2, g, k), Err(UsageError::PortAlreadyDriven));
    assert_eq!(c.add_target(w, g, k), Err(UsageError::PortAlreadyDriven));
    assert_eq!(c.gate_output(5), None);
    assert_eq!(c.wire_state(5), None);
}

#[test]
fn or_feeding_and_settles_in_one_drain() {
    let mut c = Circuit::new();
    let or_gate = c.add_gate(GateKind::Or);
    let and_gate = c.add_gate(GateKind::And);
    let or_a = c.add_input(or_gate).unwrap();
    let or_b = c.add_input(or_gate).unwrap();
    let and_1 = c.add_input(and_gate).unwrap();
    let and_2 = c.add_input(and_gate).unwrap();
    let wa = c.add_wire();
    let wb = c.add_wire();
    let w1 = c.add_wire();
    let w_or = c.add_wire();
    let w_and = c.add_wire();
    c.add_target(wa, or_gate, or_a).unwrap();
    c.add_target(wb, or_gate, or_b).unwrap();
    c.add_target(w1, and_gate, and_1).unwrap();
    c.add_target(w_or, and_gate, and_2).unwrap();
    c.connect_output(or_gate, w_or).unwrap();
    c.connect_output(and_gate, w_and).unwrap();

    c.drive(wa, LogicState::LOW).unwrap();
    c.drive(wb, LogicState::LOW).unwrap();
    c.drive(w1, LogicState::LOW).unwrap();
    let report = c.drain();
    assert!(report.settled);
    assert_eq!(c.gate_output(or_gate), Some(LogicState::LOW));
    assert_eq!(c.gate_output(and_gate), Some(LogicState::LOW));

    c.drive(wa, LogicState::HIGH).unwrap();
    let report = c.drain();
    assert!(report.settled);
    assert_eq!(c.gate_output(or_gate), Some(LogicState::HIGH));
    assert_eq!(c.wire_state(w_or), Some(LogicState::HIGH));
    assert_eq!(c.input_state(and_gate, and_2), Some(LogicState::HIGH));
    assert_eq!(c.gate_output(and_gate), Some(LogicState::LOW));

    c.drive(w1, LogicState::HIGH).unwrap();
    let report = c.drain();
    assert!(report.settled);
    assert_eq!(c.gate_output(and_gate), Some(LogicState::HIGH));
    assert_eq!(c.wire_state(w_and), Some(LogicState::HIGH));
}

#[test]
fn chain_settles_within_its_length() {
    let mut c = Circuit::new();
    let w0 = c.add_wire();
    let mut prev = w0;
    for _ in 0..3 {
        let g = c.add_gate(GateKind::And);
        let k = c.add_input(g).unwrap();
        c.add_target(prev, g, k).unwrap();
        let next = c.add_wire();
        c.connect_output(g, next).unwrap();
        prev = next;
    }
    c.drive(w0, LogicState::HIGH).unwrap();
    let report = c.drain();
    assert!(report.settled);
    assert_eq!(report.steps, 4);
    assert_eq!(c.wire_state(prev), Some(LogicState::HIGH));
    assert_eq!(c.pending(), 0);
}

#[test]
fn oscillating_loop_trips_the_guard() {
    let mut c = Circuit::new();
    let g = c.add_gate(GateKind::Or);
    c.invert_output(g, true).unwrap();
    let k = c.add_input(g).unwrap();
    let w = c.add_wire();
    c.add_target(w, g, k).unwrap();
    c.connect_output(g, w).unwrap();
    c.drive(w, LogicState::LOW).unwrap();
    let report = c.drain();
    assert!(!report.settled);
    assert_eq!(report.steps, STEPS_PER_WIRE);
    assert_eq!(c.pending(), 1);
}

#[test]
fn empty_circuit_settles_at_once() {
    let mut c = Circuit::new();
    let report = c.drain();
    assert!(report.settled);
    assert_eq!(report.steps, 0);
}

#[test]
fn removing_an_input_drops_its_wire_target() {
    let mut c = Circuit::new();
    let g = c.add_gate(GateKind::Or);
    let a = c.add_input(g).unwrap();
    let b = c.add_input(g).unwrap();
    let w = c.add_wire();
    let w2 = c.add_wire();
    c.add_target(w, g, a).unwrap();
    c.add_target(w, g, b).unwrap();
    assert_eq!(c.find_target(g, b), Some((w, 1)));
    assert_eq!(c.remove_input(g, a), Ok(()));
    assert_eq!(c.find_target(g, a), None);
    assert_eq!(c.find_target(g, b), Some((w, 0)));
    assert_eq!(c.input_state(g, a), None);
    assert_eq!(c.add_target(w2, g, a), Err(UsageError::UnknownPort));
    assert_eq!(c.remove_input(g, a), Ok(()));
    assert_eq!(c.remove_input(3, a), Err(UsageError::UnknownGate));
    c.drive(w, LogicState::HIGH).unwrap();
    let report = c.drain();
    assert!(report.settled);
    assert_eq!(c.input_state(g, b), Some(LogicState::HIGH));
    assert_eq!(c.gate_output(g), Some(LogicState::HIGH));
}

#[test]
fn primary_input_drives_gate_and_queues_its_wire() {
    let mut c = Circuit::new();
    let or_gate = c.add_gate(GateKind::Or);
    let and_gate = c.add_gate(GateKind::And);
    let x = c.add_input(or_gate).unwrap();
    let _y = c.add_input(or_gate).unwrap();
    let a = c.add_input(and_gate).unwrap();
    let b = c.add_input(and_gate).unwrap();
    let w_or = c.add_wire();
    c.add_target(w_or, and_gate, b).unwrap();
    c.connect_output(or_gate, w_or).unwrap();

    assert_eq!(c.set_gate_input(or_gate, x, LogicState::HIGH), Ok(true));
    assert_eq!(c.wire_state(w_or), Some(LogicState::HIGH));
    assert_eq!(c.pending(), 1);
    assert_eq!(c.set_gate_input(or_gate, x, LogicState::HIGH), Ok(false));
    assert_eq!(c.pending(), 1);
    let report = c.drain();
    assert!(report.settled);
    assert_eq!(report.steps, 1);
    assert_eq!(c.input_state(and_gate, b), Some(LogicState::HIGH));
    assert_eq!(c.gate_output(and_gate), Some(LogicState::LOW));

    assert_eq!(c.set_gate_input(and_gate, a, LogicState::HIGH), Ok(true));
    assert_eq!(c.gate_output(and_gate), Some(LogicState::HIGH));
    assert_eq!(c.pending(), 0);
}

#[test]
fn primary_input_errors_change_nothing() {
    let mut c = Circuit::new();
    let g = c.add_gate(GateKind::And);
    let k = c.add_input(g).unwrap();
    let h = c.add_gate(GateKind::Or);
    let _ = c.add_input(h).unwrap();
    let other = c.add_input(h).unwrap();
    assert_eq!(c.set_gate_input(5, k, LogicState::HIGH), Err(UsageError::UnknownGate));
    assert_eq!(c.set_gate_input(g, other, LogicState::HIGH), Err(UsageError::UnknownPort));
    assert_eq!(c.input_state(g, k), Some(LogicState::LOW));
    assert_eq!(c.pending(), 0);
}
