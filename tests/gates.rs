use logic_sim::{new_and_gate, new_or_gate, GateKind, LogicBlock, LogicBlockPort, LogicState, UsageError, MAX_CACHE_INPUTS};

#[test]
fn test_not_state() {
    assert_eq!(LogicState::HIGH.not(), LogicState::LOW);
    assert_eq!(LogicState::LOW.not(), LogicState::HIGH);
}

#[test]
fn not_leaves_invalid_unchanged() {
    assert_eq!(LogicState::INVALID.not(), LogicState::INVALID);
}

#[test]
fn port_inversion_applies_on_set() {
    let mut port = LogicBlockPort::new();
    assert_eq!(port.get_output(), LogicState::LOW);
    port.invert(true);
    port.set_state(LogicState::HIGH);
    assert_eq!(port.get_output(), LogicState::LOW);
    port.set_state(LogicState::INVALID);
    assert_eq!(port.get_output(), LogicState::INVALID);
    port.invert(false);
    port.set_state(LogicState::HIGH);
    assert_eq!(port.get_output(), LogicState::HIGH);
}

#[test]
fn test_and_gate() {
    let mut and_gate = new_and_gate();
    let in_1 = and_gate.add_input();
    let in_2 = and_gate.add_input();
    and_gate.update();
    assert_eq!(and_gate.get_output(), LogicState::LOW);

    let _ = and_gate.set_input(in_1, LogicState::HIGH);
    assert_eq!(and_gate.get_output(), LogicState::LOW);

    let _ = and_gate.set_input(in_2, LogicState::HIGH);
    assert_eq!(and_gate.get_output(), LogicState::HIGH);
}

#[test]
fn test_and_gate_invert_output() {
    let mut and_gate = new_and_gate();
    and_gate.invert_output(true);
    let in_1 = and_gate.add_input();
    let in_2 = and_gate.add_input();
    and_gate.update();
    assert_eq!(and_gate.get_output(), LogicState::HIGH);

    let _ = and_gate.set_input(in_1, LogicState::HIGH);
    assert_eq!(and_gate.get_output(), LogicState::HIGH);

    let _ = and_gate.set_input(in_2, LogicState::HIGH);
    assert_eq!(and_gate.get_output(), LogicState::LOW);
}

#[test]
fn test_or_gate() {
    let mut or_gate = new_or_gate();
    let in_1 = or_gate.add_input();
    let in_2 = or_gate.add_input();
    or_gate.update();
    assert_eq!(or_gate.get_output(), LogicState::LOW);

    let _ = or_gate.set_input(in_1, LogicState::HIGH);
    assert_eq!(or_gate.get_output(), LogicState::HIGH);

    let _ = or_gate.set_input(in_2, LogicState::HIGH);
    assert_eq!(or_gate.get_output(), LogicState::HIGH);
}

#[test]
fn test_or_gate_invert_output() {
    let mut or_gate = new_or_gate();
    or_gate.invert_output(true);
    let in_1 = or_gate.add_input();
    let in_2 = or_gate.add_input();
    or_gate.update();
    assert_eq!(or_gate.get_output(), LogicState::HIGH);

    let _ = or_gate.set_input(in_1, LogicState::HIGH);
    assert_eq!(or_gate.get_output(), LogicState::LOW);

    let _ = or_gate.set_input(in_2, LogicState::HIGH);
    assert_eq!(or_gate.get_output(), LogicState::LOW);
}

#[test]
fn and_gate_example_sequence() {
    let mut gate = new_and_gate();
    let a = gate.add_input();
    let b = gate.add_input();
    assert_eq!(gate.set_input(a, LogicState::HIGH), Ok(false));
    assert_eq!(gate.set_input(b, LogicState::LOW), Ok(false));
    assert_eq!(gate.get_output(), LogicState::LOW);
    assert_eq!(gate.set_input(b, LogicState::HIGH), Ok(true));
    assert_eq!(gate.get_output(), LogicState::HIGH);

    let mut nand = new_and_gate();
    nand.invert_output(true);
    let a = nand.add_input();
    let b = nand.add_input();
    let _ = nand.set_input(a, LogicState::HIGH);
    let _ = nand.set_input(b, LogicState::LOW);
    assert_eq!(nand.get_output(), LogicState::HIGH);
    let _ = nand.set_input(b, LogicState::HIGH);
    assert_eq!(nand.get_output(), LogicState::LOW);
}

#[test]
fn invalid_inputs_count_as_not_high() {
    let mut and_gate = new_and_gate();
    let a = and_gate.add_input();
    let b = and_gate.add_input();
    let _ = and_gate.set_input(a, LogicState::HIGH);
    let _ = and_gate.set_input(b, LogicState::INVALID);
    assert_eq!(and_gate.get_output(), LogicState::LOW);
    assert_eq!(and_gate.input_state(b), Some(LogicState::INVALID));

    let mut or_gate = new_or_gate();
    let c = or_gate.add_input();
    let _ = or_gate.set_input(c, LogicState::INVALID);
    assert_eq!(or_gate.get_output(), LogicState::LOW);
    let _ = or_gate.set_input(c, LogicState::HIGH);
    assert_eq!(or_gate.get_output(), LogicState::HIGH);
}

#[test]
fn empty_gates_follow_their_kind() {
    let mut and_gate = LogicBlock::new(GateKind::And);
    assert_eq!(and_gate.update(), LogicState::HIGH);
    let mut or_gate = LogicBlock::new(GateKind::Or);
    assert_eq!(or_gate.update(), LogicState::LOW);
}

#[test]
fn set_input_on_unknown_port_is_an_error() {
    let mut gate = new_and_gate();
    let a = gate.add_input();
    gate.remove_input(a);
    assert_eq!(gate.set_input(a, LogicState::HIGH), Err(UsageError::UnknownPort));
    assert_eq!(gate.input_state(a), None);
}

#[test]
fn test_add_input() {
    let mut logic_block = new_and_gate();
    logic_block.add_input();
    assert_eq!(logic_block.num_inputs(), 1);
}

#[test]
fn test_add_and_remove_input() {
    let mut logic_block = new_and_gate();
    let in_1 = logic_block.add_input();
    assert_eq!(logic_block.num_inputs(), 1);
    logic_block.remove_input(in_1);
    assert_eq!(logic_block.num_inputs(), 0);
}

#[test]
fn handles_stay_stable_after_removal() {
    let mut gate = new_or_gate();
    let a = gate.add_input();
    let b = gate.add_input();
    let c = gate.add_input();
    gate.remove_input(b);
    assert_ne!(a, c);
    assert_eq!(gate.set_input(c, LogicState::HIGH), Ok(true));
    assert_eq!(gate.input_state(c), Some(LogicState::HIGH));
    assert_eq!(gate.input_state(a), Some(LogicState::LOW));
    let d = gate.add_input();
    assert_ne!(d, b);
    assert_eq!(gate.num_inputs(), 3);
}

#[test]
fn test_cache_output() {
    let mut logic_block = new_and_gate();
    let in_1 = logic_block.add_input();
    let _ = logic_block.set_input(in_1, LogicState::HIGH);

    assert_eq!(logic_block.input_state(in_1), Some(LogicState::HIGH));
    assert_eq!(logic_block.num_inputs(), 1);
    assert_eq!(logic_block.input_mask(), 1 << 0);
    assert!(logic_block.cache_contains(logic_block.input_mask()));
}

#[test]
fn test_max_cache() {
    let mut expected_cache_mask: u32 = 0;
    let mut logic_block = new_and_gate();
    let mut inputs = Vec::new();
    for _ in 0..MAX_CACHE_INPUTS {
        inputs.push(logic_block.add_input());
    }
    for i in 0..inputs.len() {
        let _ = logic_block.set_input(inputs[i], LogicState::HIGH);
        expected_cache_mask |= 1 << i;
        assert_eq!(logic_block.input_mask(), expected_cache_mask);
        assert_eq!(logic_block.cache_len(), i + 1);
        assert_eq!(logic_block.cache_valid(), true);
    }
    assert_eq!(logic_block.cache_len(), MAX_CACHE_INPUTS);
    assert_eq!(logic_block.num_inputs(), MAX_CACHE_INPUTS);
}

#[test]
fn test_above_max_cache() {
    let mut expected_cache_mask: u32 = 0;
    let mut logic_block = new_and_gate();
    let mut inputs = Vec::new();
    for _ in 0..MAX_CACHE_INPUTS {
        inputs.push(logic_block.add_input());
    }
    for i in 0..inputs.len() {
        let _ = logic_block.set_input(inputs[i], LogicState::HIGH);
        expected_cache_mask |= 1 << i;
        assert_eq!(logic_block.input_mask(), expected_cache_mask);
        assert_eq!(logic_block.cache_len(), i + 1);
        assert_eq!(logic_block.cache_valid(), true);
    }
    logic_block.add_input();
    assert_eq!(logic_block.num_inputs(), 33);
    assert_eq!(logic_block.cache_len(), 0);
    assert_eq!(logic_block.cache_valid(), false);
}

#[test]
fn test_remove_one_after_max() {
    let mut logic_block = new_and_gate();
    let mut inputs = Vec::new();
    for _ in 0..MAX_CACHE_INPUTS + 1 {
        inputs.push(logic_block.add_input());
    }
    assert_eq!(logic_block.num_inputs(), 33);
    assert_eq!(logic_block.cache_valid(), false);
    logic_block.remove_input(inputs[0]);
    assert_eq!(logic_block.num_inputs(), 32);
    assert_eq!(logic_block.cache_valid(), true);
}

#[test]
fn test_remove_with_no_inputs() {
    let mut logic_block = new_and_gate();
    let in_1 = logic_block.add_input();
    assert_eq!(logic_block.num_inputs(), 1);
    logic_block.remove_input(in_1);
    assert_eq!(logic_block.num_inputs(), 0);
    logic_block.remove_input(in_1);
    assert_eq!(logic_block.num_inputs(), 0);
}

#[test]
fn disabled_cache_still_evaluates_correctly() {
    let mut gate = new_or_gate();
    let mut inputs = Vec::new();
    for _ in 0..MAX_CACHE_INPUTS + 1 {
        inputs.push(gate.add_input());
    }
    assert!(!gate.cache_valid());
    let _ = gate.set_input(inputs[32], LogicState::HIGH);
    assert_eq!(gate.get_output(), LogicState::HIGH);
    assert_eq!(gate.cache_len(), 0);
    assert_eq!(gate.input_mask(), 0);
    let _ = gate.set_input(inputs[32], LogicState::LOW);
    assert_eq!(gate.get_output(), LogicState::LOW);
    assert_eq!(gate.evaluations(), 2);
}

#[test]
fn revisited_combination_is_read_from_cache() {
    let mut gate = new_and_gate();
    let a = gate.add_input();
    let b = gate.add_input();
    let _ = gate.set_input(a, LogicState::HIGH);
    let _ = gate.set_input(b, LogicState::HIGH);
    assert_eq!(gate.get_output(), LogicState::HIGH);
    assert_eq!(gate.evaluations(), 2);
    assert_eq!(gate.cache_len(), 2);
    // only `a` HIGH again: seen after the first change, answered from the cache
    let _ = gate.set_input(b, LogicState::LOW);
    assert_eq!(gate.get_output(), LogicState::LOW);
    assert_eq!(gate.evaluations(), 2);
    // both HIGH again: answered from the cache
    let _ = gate.set_input(b, LogicState::HIGH);
    assert_eq!(gate.get_output(), LogicState::HIGH);
    assert_eq!(gate.evaluations(), 2);
    // only `b` HIGH: a new combination, computed once
    let _ = gate.set_input(a, LogicState::LOW);
    assert_eq!(gate.get_output(), LogicState::LOW);
    assert_eq!(gate.evaluations(), 3);
    assert_eq!(gate.cache_len(), 3);
}

#[test]
fn clearing_a_bit_keeps_the_others() {
    let mut gate = new_or_gate();
    let a = gate.add_input();
    let b = gate.add_input();
    let c = gate.add_input();
    let _ = gate.set_input(a, LogicState::HIGH);
    let _ = gate.set_input(b, LogicState::HIGH);
    let _ = gate.set_input(c, LogicState::HIGH);
    assert_eq!(gate.input_mask(), 0b111);
    let _ = gate.set_input(b, LogicState::LOW);
    assert_eq!(gate.input_mask().count_ones(), 2);
    assert_eq!(gate.get_output(), LogicState::HIGH);
}
