use intcode::{parse_ascii_program, Fault, Machine};

fn load(text: &str) -> Machine {
    Machine::from_ascii_program(text).expect("program text")
}

#[test]
fn self_modifying_add_doubles_cell_zero() {
    let mut m = load("1,0,0,0,99");
    assert_eq!(m.eval(), Ok(0));
    assert_eq!(m.mem_get(0), 2);
    assert_eq!(m.mem(), &[2, 0, 0, 0, 99][..]);
}

#[test]
fn day_two_example_leaves_3500() {
    let mut m = load("1,9,10,3,2,3,11,0,99,30,40,50");
    m.eval().unwrap();
    assert_eq!(m.mem_get(0), 3500);
}

#[test]
fn equals_in_position_mode() {
    for (input, expected) in [(8, 1), (7, 0), (9, 0)] {
        let mut m = load("3,9,8,9,10,9,4,9,99,-1,8");
        m.feed(input);
        assert_eq!(m.eval(), Ok(expected));
    }
}

#[test]
fn less_than_in_immediate_mode() {
    for (input, expected) in [(7, 1), (8, 0), (9, 0)] {
        let mut m = load("3,3,1107,-1,8,3,4,3,99");
        m.feed(input);
        assert_eq!(m.eval(), Ok(expected));
    }
}

#[test]
fn jumps_compare_against_eight() {
    let text = "3,21,1008,21,8,20,5,20,22,107,8,21,20,6,20,31,106,0,36,98,0,0,1002,21,125,20,4,20,105,1,46,104,999,105,1,46,1101,1000,1,20,4,20,105,1,46,98,99";
    for (input, expected) in [(7, 999), (8, 1000), (9, 1001)] {
        let mut m = load(text);
        m.feed(input);
        assert_eq!(m.eval(), Ok(expected));
    }
}

#[test]
fn quine_outputs_itself() {
    let text = "109,1,204,-1,1001,100,1,100,1008,100,16,101,6,101,0,99";
    let mut m = load(text);
    assert_eq!(m.eval_multi(), Ok(parse_ascii_program(text).unwrap()));
}

#[test]
fn large_numbers() {
    let mut m = load("1102,34915192,34915192,7,4,7,99,0");
    assert_eq!(m.eval(), Ok(1219070632396864));
    let mut m = load("104,1125899906842624,99");
    assert_eq!(m.eval(), Ok(1125899906842624));
}

#[test]
fn step_returns_at_each_output_and_at_halt() {
    let mut m = load("104,1,104,2,99");
    assert_eq!(m.step(), Ok(()));
    assert!(!m.halted());
    assert_eq!(m.last_output(), 1);
    assert_eq!(m.ip(), 2);
    assert_eq!(m.step(), Ok(()));
    assert!(!m.halted());
    assert_eq!(m.last_output(), 2);
    assert_eq!(m.step(), Ok(()));
    assert!(m.halted());
    assert_eq!(m.last_output(), 2);
    assert_eq!(m.ip(), 4);
}

#[test]
fn step_after_halt_changes_nothing() {
    let mut m = load("1,0,0,0,99");
    m.step().unwrap();
    assert!(m.halted());
    let mem: Vec<i64> = m.mem().to_vec();
    m.step().unwrap();
    assert!(m.halted());
    assert_eq!(m.mem(), &mem[..]);
    assert_eq!(m.ip(), 4);
}

#[test]
fn stepping_matches_running_to_the_end() {
    let text = "3,0,4,0,104,7,1001,0,1,0,4,0,99";
    let mut a = load(text);
    a.feed(5);
    let all = a.eval_multi().unwrap();
    let mut b = load(text);
    b.feed(5);
    let mut stepped = Vec::new();
    loop {
        b.step().unwrap();
        if b.halted() {
            break;
        }
        stepped.push(b.last_output());
    }
    assert_eq!(all, vec![5, 7, 6]);
    assert_eq!(stepped, all);
}

#[test]
fn relative_write_reads_back_by_position() {
    // base 10, then 3 + 4 written relative to it at offset 0, read at 10
    let mut m = load("109,10,21101,3,4,0,4,10,99");
    assert_eq!(m.eval(), Ok(7));
    assert_eq!(m.mem_get(10), 7);
}

#[test]
fn relative_base_adjusted_twice() {
    // base 5, then base 8; input goes to 8 + 2, output reads 8 + 2
    let mut m = load("109,5,109,3,203,2,204,2,99");
    m.feed(42);
    assert_eq!(m.eval(), Ok(42));
    assert_eq!(m.mem_get(10), 42);
    assert_eq!(m.mem().len(), 11);
}

#[test]
fn relative_base_adjusted_by_negative_amount() {
    // base 20, then 20 - 15 = 5; output reads the cell at 5 + 1
    let mut m = load("109,20,109,-15,204,1,99,77");
    assert_eq!(m.eval(), Ok(99));
}

#[test]
fn memory_growth_keeps_old_cells_and_zero_fills() {
    let mut m = Machine::new(&[1, 2, 3]);
    m.mem_set(6, 9);
    assert_eq!(m.mem(), &[1, 2, 3, 0, 0, 0, 9][..]);
    m.mem_set(1, 5);
    assert_eq!(m.mem(), &[1, 5, 3, 0, 0, 0, 9][..]);
    assert_eq!(m.mem_get(100), 0);
}

#[test]
fn input_reads_queue_then_latch() {
    let mut m = load("3,20,3,21,3,22,1,20,21,23,4,23,99");
    m.set_mem_input(100);
    m.feed(1);
    assert_eq!(m.eval(), Ok(1 + 100));
    assert_eq!(m.mem_get(20), 1);
    assert_eq!(m.mem_get(22), 100);
}

#[test]
fn input_without_queue_or_latch_reads_zero() {
    let mut m = load("3,5,4,5,99");
    assert_eq!(m.eval(), Ok(0));
}

#[test]
fn unknown_opcode_faults() {
    let mut m = Machine::new(&[98]);
    assert_eq!(m.step(), Err(Fault::UnknownOpcode(98)));
    assert!(!m.halted());
    assert_eq!(m.ip(), 0);
    let mut m = Machine::new(&[-1]);
    assert_eq!(m.step(), Err(Fault::UnknownOpcode(-1)));
    let mut m = Machine::new(&[1, 0, 0, 0]);
    assert_eq!(m.eval(), Err(Fault::UnknownOpcode(0)));
    assert_eq!(m.ip(), 4);
}

#[test]
fn invalid_mode_faults() {
    let mut m = Machine::new(&[301, 0, 0, 0, 99]);
    assert_eq!(m.step(), Err(Fault::InvalidMode(301)));
    assert_eq!(m.mem(), &[301, 0, 0, 0, 99][..]);
}

#[test]
fn immediate_write_faults() {
    let mut m = Machine::new(&[11101, 1, 1, 0, 99]);
    assert_eq!(m.step(), Err(Fault::ImmediateWrite(11101)));
    assert_eq!(m.mem_get(0), 11101);
}

#[test]
fn negative_write_address_faults() {
    let mut m = Machine::new(&[21101, 1, 1, -5, 99]);
    assert_eq!(m.step(), Err(Fault::InvalidAddress(-5)));
}

#[test]
fn negative_jump_faults() {
    let mut m = Machine::new(&[105, 1, -1]);
    assert_eq!(m.step(), Err(Fault::InvalidJump(-1)));
}

#[test]
fn jump_target_is_an_address() {
    // position mode: the raw operand 4 is the new instruction pointer
    let mut m = Machine::new(&[105, 1, 4, 99, 99]);
    assert_eq!(m.step(), Ok(()));
    assert!(m.halted());
    assert_eq!(m.ip(), 4);
    // jump-if-false with a zero condition, to the raw operand
    let mut m = Machine::new(&[106, 0, 5, 104, 1, 104, 2, 99]);
    assert_eq!(m.eval_multi(), Ok(vec![2]));
    // jump-if-true with a zero condition falls through
    let mut m = Machine::new(&[105, 0, 5, 104, 1, 104, 2, 99]);
    assert_eq!(m.eval_multi(), Ok(vec![1, 2]));
}

#[test]
fn relative_jump_target() {
    // base 3, then jump to 3 + 3 = 6
    let mut m = Machine::new(&[109, 3, 2105, 1, 3, 99, 104, 7, 99]);
    assert_eq!(m.eval(), Ok(7));
}

#[test]
fn immediate_jump_target_faults() {
    let mut m = Machine::new(&[1105, 1, 4, 99, 99]);
    assert_eq!(m.step(), Err(Fault::ImmediateWrite(1105)));
    assert_eq!(m.ip(), 0);
}

#[test]
fn arithmetic_wraps_at_64_bits() {
    let mut m = Machine::new(&[1101, i64::MAX, 1, 7, 4, 7, 99, 0]);
    assert_eq!(m.eval(), Ok(i64::MIN));
}

#[test]
fn parse_trims_and_reads_signs() {
    assert_eq!(parse_ascii_program(" +5,-3,0\n"), Some(vec![5, -3, 0]));
    assert_eq!(parse_ascii_program("-9223372036854775808"), Some(vec![i64::MIN]));
    assert_eq!(parse_ascii_program("9223372036854775807"), Some(vec![i64::MAX]));
}

#[test]
fn parse_rejects_malformed_tokens() {
    assert_eq!(parse_ascii_program(""), None);
    assert_eq!(parse_ascii_program("1, 2"), None);
    assert_eq!(parse_ascii_program("1,,2"), None);
    assert_eq!(parse_ascii_program("1,2,"), None);
    assert_eq!(parse_ascii_program("1,x"), None);
    assert_eq!(parse_ascii_program("-"), None);
    assert_eq!(parse_ascii_program("9223372036854775808"), None);
    assert!(Machine::from_ascii_program("1,a").is_none());
}

#[test]
fn machines_share_no_state() {
    let text = "3,9,8,9,10,9,4,9,99,-1,8";
    let mut a = load(text);
    let mut b = load(text);
    a.feed(8);
    b.feed(7);
    assert_eq!(a.eval(), Ok(1));
    assert_eq!(b.eval(), Ok(0));
    assert_eq!(a.mem_get(9), 1);
    assert_eq!(b.mem_get(9), 0);
}
