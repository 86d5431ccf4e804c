use synacor::synacor_vm::{HaltReason, LoadError, Status, SynacorVM, VmError};

fn loaded(words: Vec<u16>) -> SynacorVM {
    let mut vm = SynacorVM::new(false);
    vm.load_mem(words).unwrap();
    vm
}

#[test]
fn add_then_halt_leaves_eleven_in_register_zero() {
    let mut vm = loaded(vec![9, 32768, 5, 6, 0]);
    vm.execute();
    assert_eq!(vm.get_register(0), 11);
    assert_eq!(vm.status(), Status::Halted(HaltReason::Clean));
    assert!(vm.is_halted());
    assert_eq!(vm.get_mem_ptr(), 5);
}

#[test]
fn registers_round_trip() {
    let mut vm = SynacorVM::new(false);
    for i in 0..8usize {
        vm.set_register(i, 1000 + i as u16);
    }
    for i in 0..8usize {
        assert_eq!(vm.get_register(i), 1000 + i as u16);
    }
    vm.set_register(8, 77);
    assert_eq!(vm.get_register(8), 0);
    assert_eq!(vm.get_register(100), 0);
}

#[test]
fn arithmetic_wraps_at_32768() {
    // add r0 = 32767 + 5; mult r1 = 200 * 200; mod r2 = 10 % 3; halt
    let mut vm = loaded(vec![
        9, 32768, 32767, 5, 10, 32769, 200, 200, 11, 32770, 10, 3, 0,
    ]);
    vm.execute();
    assert_eq!(vm.get_register(0), 4);
    assert_eq!(vm.get_register(1), 7232);
    assert_eq!(vm.get_register(2), 1);
    for i in 0..3 {
        assert!(vm.get_register(i) <= 32767);
    }
}

#[test]
fn bitwise_and_comparisons() {
    // and r0 = 12 & 10; or r1 = 12 | 10; not r2 = !0; eq r3 = (r0 == 8); gt r4 = (r1 > 20); halt
    let mut vm = loaded(vec![
        12, 32768, 12, 10, 13, 32769, 12, 10, 14, 32770, 0, 4, 32771, 32768, 8, 5, 32772,
        32769, 20, 0,
    ]);
    vm.execute();
    assert_eq!(vm.get_register(0), 8);
    assert_eq!(vm.get_register(1), 14);
    assert_eq!(vm.get_register(2), 32767);
    assert_eq!(vm.get_register(3), 1);
    assert_eq!(vm.get_register(4), 0);
}

#[test]
fn clone_is_independent() {
    let mut a = loaded(vec![9, 32768, 5, 6, 0]);
    a.set_register(3, 42);
    let mut b = a.clone();
    b.set_register(3, 7);
    b.set_mem(100, 9).unwrap();
    assert_eq!(a.get_register(3), 42);
    assert_eq!(a.get_mem(100), Ok(0));
    assert_eq!(b.get_register(3), 7);
    assert_eq!(b.get_mem(100), Ok(9));
    a.execute();
    assert_eq!(a.get_register(0), 11);
    assert_eq!(b.get_register(0), 0);
    assert!(!b.is_halted());
}

#[test]
fn feed_line_only_when_waiting() {
    // in r0; in r1; in r2; halt
    let mut vm = loaded(vec![20, 32768, 20, 32769, 20, 32770, 0]);
    vm.input_line("x");
    assert_eq!(vm.status(), Status::Running);
    assert_eq!(vm.get_mem_ptr(), 0);
    assert_eq!(vm.get_register(0), 0);
    vm.execute();
    assert!(vm.is_awaiting_input());
    assert_eq!(vm.get_mem_ptr(), 0);
    vm.input_line("ab");
    assert_eq!(vm.get_register(0), 'a' as u16);
    assert_eq!(vm.get_register(1), 'b' as u16);
    assert_eq!(vm.get_register(2), '\n' as u16);
    assert!(vm.is_halted());
}

#[test]
fn input_waits_again_when_the_line_runs_out() {
    // in r0; in r1; in r2; halt
    let mut vm = loaded(vec![20, 32768, 20, 32769, 20, 32770, 0]);
    vm.execute();
    vm.input_line_string(String::from("q\n"));
    assert_eq!(vm.get_register(0), 'q' as u16);
    assert_eq!(vm.get_register(1), '\n' as u16);
    assert!(vm.is_awaiting_input());
    assert_eq!(vm.get_mem_ptr(), 4);
    vm.input_line("z");
    assert_eq!(vm.get_register(2), 'z' as u16);
    assert!(vm.is_halted());
}

#[test]
fn prime_line_then_step_by_hand() {
    let mut vm = loaded(vec![20, 32768, 0]);
    vm.execute();
    assert!(vm.is_awaiting_input());
    vm.set_input_line("k");
    // still waiting, with the line ready for the next step
    assert_eq!(vm.status(), Status::AwaitingInput);
    assert!(vm.is_awaiting_input());
    assert_eq!(vm.get_mem_ptr(), 0);
    vm.execute_once();
    assert_eq!(vm.get_register(0), 'k' as u16);
    assert_eq!(vm.get_mem_ptr(), 2);
    vm.execute_once();
    assert!(vm.is_halted());
    vm.execute_once();
    assert_eq!(vm.get_mem_ptr(), 3);
}

#[test]
fn output_is_buffered_and_drained() {
    let mut vm = loaded(vec![19, 72, 19, 105, 19, 32768, 0]);
    vm.set_register(0, 300);
    vm.execute();
    assert_eq!(vm.output_line(false), "Hi,");
    assert_eq!(vm.output_line(true), "Hi,");
    assert_eq!(vm.output_line(true), "");
}

#[test]
fn calls_jumps_and_stack() {
    // 0: call 6; 2: out 'B'; 4: halt; 6: push 65; 8: pop r0; 10: jt 1 13; 13: jf 0 16; 16: out r0; 18: ret
    let mut vm = loaded(vec![
        17, 6, 19, 66, 0, 0, 2, 65, 3, 32768, 7, 1, 13, 8, 0, 16, 19, 32768, 18,
    ]);
    vm.execute();
    assert_eq!(vm.output_line(true), "AB");
    assert_eq!(vm.status(), Status::Halted(HaltReason::Clean));
}

#[test]
fn memory_read_and_write() {
    // wmem 50 <- 1234; rmem r0 <- [50]; halt
    let mut vm = loaded(vec![16, 50, 1234, 15, 32768, 50, 0]);
    vm.execute();
    assert_eq!(vm.get_register(0), 1234);
    assert_eq!(vm.get_mem(50), Ok(1234));
    assert_eq!(vm.get_mem(40000), Err(VmError::AddressOutOfRange));
    assert_eq!(vm.set_mem(40000, 1), Err(VmError::AddressOutOfRange));
}

#[test]
fn undefined_opcode_halts_with_error() {
    let mut vm = loaded(vec![22]);
    vm.execute();
    assert_eq!(vm.status(), Status::Halted(HaltReason::Error(VmError::UndefinedOpcode)));
}

#[test]
fn pop_on_empty_stack_underflows() {
    let mut vm = loaded(vec![3, 32768]);
    vm.execute();
    assert_eq!(vm.status(), Status::Halted(HaltReason::Error(VmError::StackUnderflow)));
    let mut vm = loaded(vec![18]);
    vm.execute();
    assert_eq!(vm.status(), Status::Halted(HaltReason::Error(VmError::StackUnderflow)));
}

#[test]
fn literal_destination_is_out_of_range() {
    let mut vm = loaded(vec![1, 5, 0]);
    vm.execute();
    assert_eq!(vm.status(), Status::Halted(HaltReason::Error(VmError::OperandOutOfRange)));
    let mut vm = loaded(vec![2, 32776]);
    vm.execute();
    assert_eq!(vm.status(), Status::Halted(HaltReason::Error(VmError::OperandOutOfRange)));
}

#[test]
fn read_beyond_memory_is_address_error() {
    let mut vm = loaded(vec![15, 32768, 32769]);
    vm.set_register(1, 40000);
    vm.execute();
    assert_eq!(vm.status(), Status::Halted(HaltReason::Error(VmError::AddressOutOfRange)));
}

#[test]
fn modulo_by_zero_halts() {
    let mut vm = loaded(vec![11, 32768, 5, 0]);
    vm.execute();
    assert_eq!(vm.status(), Status::Halted(HaltReason::Error(VmError::DivideByZero)));
}

#[test]
fn oversized_image_is_refused() {
    let mut vm = SynacorVM::new(false);
    assert_eq!(vm.load_mem(vec![0; 32769]), Err(LoadError::ImageTooLarge));
    assert_eq!(vm.load_mem(vec![7; 32768]), Ok(()));
    assert_eq!(vm.get_mem(32767), Ok(7));
}

#[test]
fn interactive_flag_is_kept() {
    let mut vm = SynacorVM::new(false);
    assert!(!vm.is_interactive());
    vm.set_interactive(true);
    assert!(vm.is_interactive());
}

#[test]
fn interactive_mode_ends_a_wait() {
    let mut vm = loaded(vec![20, 32768, 0]);
    vm.execute();
    assert!(vm.is_awaiting_input());
    vm.set_interactive(true);
    assert!(!vm.is_awaiting_input());
    assert_eq!(vm.status(), Status::Running);
    assert_eq!(vm.get_mem_ptr(), 0);
    // the input instruction runs again and waits for a line
    vm.execute();
    assert!(vm.is_awaiting_input());
    vm.input_line("z");
    assert_eq!(vm.get_register(0), 'z' as u16);
    assert!(vm.is_halted());
}
