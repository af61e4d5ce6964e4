use bfvm::vm::InputSource;
use bfvm::vm::Node;
use bfvm::vm::State;
use bfvm::vm::run_block;
use bfvm::vm::TAPE_LEN;

const BUDGET: u64 = 10_000_000;

#[test]
fn it_should_increment_the_data_pointer() {
    let mut stdin = InputSource::new(vec![]);
    let mut stdout = vec![];
    let initial_state = State { pos: 0, cells: vec![0; TAPE_LEN] };
    let mut s = initial_state.clone();

    Node::Shift(1)
        .execute(&mut stdin, &mut stdout, &mut s, BUDGET)
        .unwrap()
        .unwrap();

    assert_eq!(s.cells[0..], initial_state.cells[0..]);
    assert_eq!(s.pos, 1);
}

#[test]
fn it_should_overflow_the_data_pointer() {
    let mut stdin = InputSource::new(vec![]);
    let mut stdout = vec![];
    let initial_state = State { pos: TAPE_LEN - 1, cells: vec![0; TAPE_LEN] };
    let mut s = initial_state.clone();

    Node::Shift(3)
        .execute(&mut stdin, &mut stdout, &mut s, BUDGET)
        .unwrap()
        .unwrap();

    assert_eq!(s.cells[0..], initial_state.cells[0..]);
    assert_eq!(s.pos, 2);
}

#[test]
fn it_should_decrement_the_data_pointer() {
    let mut stdin = InputSource::new(vec![]);
    let mut stdout = vec![];
    let initial_state = State { pos: 1, cells: vec![0; TAPE_LEN] };
    let mut s = initial_state.clone();

    Node::Shift(-1)
        .execute(&mut stdin, &mut stdout, &mut s, BUDGET)
        .unwrap()
        .unwrap();

    assert_eq!(s.cells[0..], initial_state.cells[0..]);
    assert_eq!(s.pos, 0);
}

#[test]
fn it_should_underflow_the_data_pointer() {
    let mut stdin = InputSource::new(vec![]);
    let mut stdout = vec![];
    let initial_state = State { pos: 0, cells: vec![0; TAPE_LEN] };
    let mut s = initial_state.clone();

    Node::Shift(-3)
        .execute(&mut stdin, &mut stdout, &mut s, BUDGET)
        .unwrap()
        .unwrap();

    assert_eq!(s.cells[0..], initial_state.cells[0..]);
    assert_eq!(s.pos, TAPE_LEN - 3);
}

#[test]
fn it_should_increment_cells() {
    let mut stdin = InputSource::new(vec![]);
    let mut stdout = vec![];
    let initial_state = State { pos: 0, cells: vec![0; TAPE_LEN] };
    let mut s = initial_state.clone();

    Node::Inc(1, 0, false)
        .execute(&mut stdin, &mut stdout, &mut s, BUDGET)
        .unwrap()
        .unwrap();

    assert_eq!(s.pos, initial_state.pos);
    assert_eq!(s.cells[1..], initial_state.cells[1..]);
    assert_eq!(s.cells[0], 1);
}

#[test]
fn it_should_increment_cells_at_offset() {
    let mut stdin = InputSource::new(vec![]);
    let mut stdout = vec![];
    let initial_state = State { pos: 0, cells: vec![0; TAPE_LEN] };
    let mut s = initial_state.clone();

    Node::Inc(1, 1, false)
        .execute(&mut stdin, &mut stdout, &mut s, BUDGET)
        .unwrap()
        .unwrap();

    assert_eq!(s.pos, initial_state.pos);
    assert_eq!(s.cells[2..], initial_state.cells[2..]);
    assert_eq!(s.cells[0], 0);
    assert_eq!(s.cells[1], 1);
}

#[test]
fn it_should_increment_cells_at_offset_and_move_pointer() {
    let mut stdin = InputSource::new(vec![]);
    let mut stdout = vec![];
    let initial_state = State { pos: 0, cells: vec![0; TAPE_LEN] };
    let mut s = initial_state.clone();

    Node::Inc(1, 1, true)
        .execute(&mut stdin, &mut stdout, &mut s, BUDGET)
        .unwrap()
        .unwrap();

    assert_eq!(s.pos, 1);
    assert_eq!(s.cells[2..], initial_state.cells[2..]);
    assert_eq!(s.cells[0], 0);
    assert_eq!(s.cells[1], 1);
}

#[test]
fn it_should_increment_cells_at_overflowing_offset() {
    let mut stdin = InputSource::new(vec![]);
    let mut stdout = vec![];
    let initial_state = State { pos: TAPE_LEN - 1, cells: vec![0; TAPE_LEN] };
    let mut s = initial_state.clone();

    Node::Inc(1, 1, false)
        .execute(&mut stdin, &mut stdout, &mut s, BUDGET)
        .unwrap()
        .unwrap();

    assert_eq!(s.pos, initial_state.pos);
    assert_eq!(s.cells[1..], initial_state.cells[1..]);
    assert_eq!(s.cells[0], 1);
}

#[test]
fn it_should_increment_cells_at_underflowing_offset() {
    let mut stdin = InputSource::new(vec![]);
    let mut stdout = vec![];
    let initial_state = State { pos: 0, cells: vec![0; TAPE_LEN] };
    let mut s = initial_state.clone();

    Node::Inc(1, -1, false)
        .execute(&mut stdin, &mut stdout, &mut s, BUDGET)
        .unwrap()
        .unwrap();

    assert_eq!(s.pos, initial_state.pos);
    assert_eq!(
        s.cells[0..(TAPE_LEN - 2)],
        initial_state.cells[0..(TAPE_LEN - 2)]
    );
    assert_eq!(s.cells[TAPE_LEN - 1], 1);
}

#[test]
fn it_should_multiply_cells() {
    let mut stdin = InputSource::new(vec![]);
    let mut stdout = vec![];
    let initial_state = State { pos: 1, cells: vec![2; TAPE_LEN] };
    let mut s = initial_state.clone();

    Node::Mul(2, -1, 0, false)
        .execute(&mut stdin, &mut stdout, &mut s, BUDGET)
        .unwrap()
        .unwrap();
    Node::Mul(3, 1, 0, false)
        .execute(&mut stdin, &mut stdout, &mut s, BUDGET)
        .unwrap()
        .unwrap();

    assert_eq!(s.pos, initial_state.pos);
    assert_eq!(s.cells[4..], initial_state.cells[4..]);
    assert_eq!(s.cells[0], 6);
    assert_eq!(s.cells[1], 2);
    assert_eq!(s.cells[2], 8);
}

#[test]
fn it_should_multiply_cells_at_offset() {
    let mut stdin = InputSource::new(vec![]);
    let mut stdout = vec![];
    let initial_state = State { pos: 0, cells: vec![2; TAPE_LEN] };
    let mut s = initial_state.clone();

    Node::Mul(2, -1, 1, false)
        .execute(&mut stdin, &mut stdout, &mut s, BUDGET)
        .unwrap()
        .unwrap();
    Node::Mul(3, 1, 1, false)
        .execute(&mut stdin, &mut stdout, &mut s, BUDGET)
        .unwrap()
        .unwrap();

    assert_eq!(s.pos, initial_state.pos);
    assert_eq!(s.cells[4..], initial_state.cells[4..]);
    assert_eq!(s.cells[0], 6);
    assert_eq!(s.cells[1], 2);
    assert_eq!(s.cells[2], 8);
}

#[test]
fn it_should_multiply_cells_at_offset_and_move_pointer() {
    let mut stdin = InputSource::new(vec![]);
    let mut stdout = vec![];
    let initial_state = State { pos: 1, cells: vec![2; TAPE_LEN] };
    let mut s = initial_state.clone();

    Node::Mul(2, -1, 0, false)
        .execute(&mut stdin, &mut stdout, &mut s, BUDGET)
        .unwrap()
        .unwrap();
    Node::Mul(3, 0, 1, true)
        .execute(&mut stdin, &mut stdout, &mut s, BUDGET)
        .unwrap()
        .unwrap();

    assert_eq!(s.pos, 2);
    assert_eq!(s.cells[4..], initial_state.cells[4..]);
    assert_eq!(s.cells[0], 6);
    assert_eq!(s.cells[1], 2);
    assert_eq!(s.cells[2], 8);
}

#[test]
fn it_should_overflow_cells() {
    let mut stdin = InputSource::new(vec![]);
    let mut stdout = vec![];
    let initial_state = State { pos: 0, cells: vec![0; TAPE_LEN] };
    let mut s = initial_state.clone();

    s.cells[0] = 255;
    Node::Inc(5, 0, false)
        .execute(&mut stdin, &mut stdout, &mut s, BUDGET)
        .unwrap()
        .unwrap();

    assert_eq!(s.pos, initial_state.pos);
    assert_eq!(s.cells[1..], initial_state.cells[1..]);
    assert_eq!(s.cells[0], 4);
}

#[test]
fn it_should_decrement_cells() {
    let mut stdin = InputSource::new(vec![]);
    let mut stdout = vec![];
    let initial_state = State { pos: 0, cells: vec![1; TAPE_LEN] };
    let mut s = initial_state.clone();

    Node::Dec(1, 0, false)
        .execute(&mut stdin, &mut stdout, &mut s, BUDGET)
        .unwrap()
        .unwrap();

    assert_eq!(s.pos, initial_state.pos);
    assert_eq!(s.cells[1..], initial_state.cells[1..]);
    assert_eq!(s.cells[0], 0);
}

#[test]
fn it_should_decrement_cells_at_offset() {
    let mut stdin = InputSource::new(vec![]);
    let mut stdout = vec![];
    let initial_state = State { pos: 0, cells: vec![1; TAPE_LEN] };
    let mut s = initial_state.clone();

    Node::Dec(1, 1, false)
        .execute(&mut stdin, &mut stdout, &mut s, BUDGET)
        .unwrap()
        .unwrap();

    assert_eq!(s.pos, initial_state.pos);
    assert_eq!(s.cells[2..], initial_state.cells[2..]);
    assert_eq!(s.cells[0], 1);
    assert_eq!(s.cells[1], 0);
}

#[test]
fn it_should_decrement_cells_at_offset_and_move_pointer() {
    let mut stdin = InputSource::new(vec![]);
    let mut stdout = vec![];
    let initial_state = State { pos: 0, cells: vec![0; TAPE_LEN] };
    let mut s = initial_state.clone();

    Node::Dec(1, 1, true)
        .execute(&mut stdin, &mut stdout, &mut s, BUDGET)
        .unwrap()
        .unwrap();

    assert_eq!(s.pos, 1);
    assert_eq!(s.cells[2..], initial_state.cells[2..]);
    assert_eq!(s.cells[0], 0);
    assert_eq!(s.cells[1], 255);
}

#[test]
fn it_should_decrement_cells_at_overflowing_offset() {
    let mut stdin = InputSource::new(vec![]);
    let mut stdout = vec![];
    let initial_state = State { pos: TAPE_LEN - 1, cells: vec![1; TAPE_LEN] };
    let mut s = initial_state.clone();

    Node::Dec(1, 1, false)
        .execute(&mut stdin, &mut stdout, &mut s, BUDGET)
        .unwrap()
        .unwrap();

    assert_eq!(s.pos, initial_state.pos);
    assert_eq!(s.cells[1..], initial_state.cells[1..]);
    assert_eq!(s.cells[0], 0);
}

#[test]
fn it_should_decrement_cells_at_underflowing_offset() {
    let mut stdin = InputSource::new(vec![]);
    let mut stdout = vec![];
    let initial_state = State { pos: 0, cells: vec![1; TAPE_LEN] };
    let mut s = initial_state.clone();

    Node::Dec(1, -1, false)
        .execute(&mut stdin, &mut stdout, &mut s, BUDGET)
        .unwrap()
        .unwrap();

    assert_eq!(s.pos, initial_state.pos);
    assert_eq!(
        s.cells[0..(TAPE_LEN - 2)],
        initial_state.cells[0..(TAPE_LEN - 2)]
    );
    assert_eq!(s.cells[TAPE_LEN - 1], 0);
}

#[test]
fn it_should_underflow_cells() {
    let mut stdin = InputSource::new(vec![]);
    let mut stdout = vec![];
    let initial_state = State { pos: 0, cells: vec![0; TAPE_LEN] };
    let mut s = initial_state.clone();

    Node::Dec(5, 0, false)
        .execute(&mut stdin, &mut stdout, &mut s, BUDGET)
        .unwrap()
        .unwrap();

    assert_eq!(s.pos, initial_state.pos);
    assert_eq!(s.cells[1..], initial_state.cells[1..]);
    assert_eq!(s.cells[0], 251);
}

#[test]
fn it_should_assign_cells() {
    let mut stdin = InputSource::new(vec![]);
    let mut stdout = vec![];
    let initial_state = State { pos: 0, cells: vec![0; TAPE_LEN] };
    let mut s = initial_state.clone();

    Node::Assign(5, 0, false)
        .execute(&mut stdin, &mut stdout, &mut s, BUDGET)
        .unwrap()
        .unwrap();

    assert_eq!(s.pos, initial_state.pos);
    assert_eq!(s.cells[1..], initial_state.cells[1..]);
    assert_eq!(s.cells[0], 5);
}

#[test]
fn it_should_assign_cells_at_offset() {
    let mut stdin = InputSource::new(vec![]);
    let mut stdout = vec![];
    let initial_state = State { pos: 0, cells: vec![0; TAPE_LEN] };
    let mut s = initial_state.clone();

    Node::Assign(5, 1, false)
        .execute(&mut stdin, &mut stdout, &mut s, BUDGET)
        .unwrap()
        .unwrap();

    assert_eq!(s.pos, initial_state.pos);
    assert_eq!(s.cells[2..], initial_state.cells[2..]);
    assert_eq!(s.cells[0], 0);
    assert_eq!(s.cells[1], 5);
}

#[test]
fn it_should_assign_cells_at_offset_and_move_pointer() {
    let mut stdin = InputSource::new(vec![]);
    let mut stdout = vec![];
    let initial_state = State { pos: 0, cells: vec![0; TAPE_LEN] };
    let mut s = initial_state.clone();

    Node::Assign(5, 1, true)
        .execute(&mut stdin, &mut stdout, &mut s, BUDGET)
        .unwrap()
        .unwrap();

    assert_eq!(s.pos, 1);
    assert_eq!(s.cells[2..], initial_state.cells[2..]);
    assert_eq!(s.cells[0], 0);
    assert_eq!(s.cells[1], 5);
}

#[test]
fn it_should_assign_cells_at_overflowing_offset() {
    let mut stdin = InputSource::new(vec![]);
    let mut stdout = vec![];
    let initial_state = State { pos: TAPE_LEN - 1, cells: vec![0; TAPE_LEN] };
    let mut s = initial_state.clone();

    Node::Assign(5, 1, false)
        .execute(&mut stdin, &mut stdout, &mut s, BUDGET)
        .unwrap()
        .unwrap();

    assert_eq!(s.pos, initial_state.pos);
    assert_eq!(s.cells[1..], initial_state.cells[1..]);
    assert_eq!(s.cells[0], 5);
}

#[test]
fn it_should_assign_cells_at_underflowing_offset() {
    let mut stdin = InputSource::new(vec![]);
    let mut stdout = vec![];
    let initial_state = State { pos: 0, cells: vec![1; TAPE_LEN] };
    let mut s = initial_state.clone();

    Node::Assign(5, -1, false)
        .execute(&mut stdin, &mut stdout, &mut s, BUDGET)
        .unwrap()
        .unwrap();

    assert_eq!(s.pos, initial_state.pos);
    assert_eq!(
        s.cells[0..(TAPE_LEN - 2)],
        initial_state.cells[0..(TAPE_LEN - 2)]
    );
    assert_eq!(s.cells[TAPE_LEN - 1], 5);
}

#[test]
fn it_should_read_from_stdin() {
    let mut stdin = InputSource::new(vec![b'b']);
    let mut stdout = vec![];
    let initial_state = State { pos: 0, cells: vec![b'a'; TAPE_LEN] };
    let mut s = initial_state.clone();

    Node::In(0, false)
        .execute(&mut stdin, &mut stdout, &mut s, BUDGET)
        .unwrap()
        .unwrap();

    assert_eq!(s.pos, initial_state.pos);
    assert_eq!(s.cells[1..], initial_state.cells[1..]);
    assert_eq!(s.cells[0], b'b');
}

#[test]
fn it_should_read_from_stdin_with_offset() {
    let mut stdin = InputSource::new(vec![b'b']);
    let mut stdout = vec![];
    let initial_state = State { pos: 0, cells: vec![b'a'; TAPE_LEN] };
    let mut s = initial_state.clone();

    Node::In(1, false)
        .execute(&mut stdin, &mut stdout, &mut s, BUDGET)
        .unwrap()
        .unwrap();

    assert_eq!(s.pos, initial_state.pos);
    assert_eq!(s.cells[2..], initial_state.cells[2..]);
    assert_eq!(s.cells[0], b'a');
    assert_eq!(s.cells[1], b'b');
}

#[test]
fn it_should_read_from_stdin_with_offset_and_move_pointer() {
    let mut stdin = InputSource::new(vec![b'b']);
    let mut stdout = vec![];
    let initial_state = State { pos: 0, cells: vec![b'a'; TAPE_LEN] };
    let mut s = initial_state.clone();

    Node::In(1, true)
        .execute(&mut stdin, &mut stdout, &mut s, BUDGET)
        .unwrap()
        .unwrap();

    assert_eq!(s.pos, 1);
    assert_eq!(s.cells[2..], initial_state.cells[2..]);
    assert_eq!(s.cells[0], b'a');
    assert_eq!(s.cells[1], b'b');
}

#[test]
fn it_should_write_to_stdout() {
    let mut stdin = InputSource::new(vec![]);
    let mut stdout = vec![];
    let initial_state = State { pos: 0, cells: vec![b'a'; TAPE_LEN] };
    let mut s = initial_state.clone();

    Node::Out(0, false)
        .execute(&mut stdin, &mut stdout, &mut s, BUDGET)
        .unwrap()
        .unwrap();

    assert_eq!(s.pos, initial_state.pos);
    assert_eq!(s.cells[0..], initial_state.cells[0..]);
    assert_eq!(stdout.len(), 1);
    assert_eq!(stdout.get(0), Some(&(b'a')));
}

#[test]
fn it_should_write_to_stdout_with_offset() {
    let mut stdin = InputSource::new(vec![]);
    let mut stdout = vec![];
    let mut initial_state = State { pos: 0, cells: vec![b'a'; TAPE_LEN] };
    initial_state.cells[1] = b'b';

    let mut s = initial_state.clone();

    Node::Out(1, false)
        .execute(&mut stdin, &mut stdout, &mut s, BUDGET)
        .unwrap()
        .unwrap();

    assert_eq!(s.pos, initial_state.pos);
    assert_eq!(s.cells[0..], initial_state.cells[0..]);
    assert_eq!(stdout.len(), 1);
    assert_eq!(stdout.get(0), Some(&(b'b')));
}

#[test]
fn it_should_write_to_stdout_with_offset_and_move_pointer() {
    let mut stdin = InputSource::new(vec![]);
    let mut stdout = vec![];
    let mut initial_state = State { pos: 0, cells: vec![b'a'; TAPE_LEN] };
    initial_state.cells[1] = b'b';

    let mut s = initial_state.clone();

    Node::Out(1, true)
        .execute(&mut stdin, &mut stdout, &mut s, BUDGET)
        .unwrap()
        .unwrap();

    assert_eq!(s.pos, 1);
    assert_eq!(s.cells[0..], initial_state.cells[0..]);
    assert_eq!(stdout.len(), 1);
    assert_eq!(stdout.get(0), Some(&(b'b')));
}

#[test]
fn it_should_scan_left() {
    let mut stdin = InputSource::new(vec![]);
    let mut stdout = vec![];
    let mut initial_state = State { pos: 21, cells: vec![1u8; TAPE_LEN] };
    initial_state.cells[10] = 0;

    let mut s = initial_state.clone();

    Node::Scan(-1)
        .execute(&mut stdin, &mut stdout, &mut s, BUDGET)
        .unwrap()
        .unwrap();

    assert_eq!(s.pos, 10);
    assert_eq!(s.cells[0..], initial_state.cells[0..]);
}

#[test]
fn it_should_scan_left_with_interval() {
    let mut stdin = InputSource::new(vec![]);
    let mut stdout = vec![];
    let mut initial_state = State { pos: 10, cells: vec![1u8; TAPE_LEN] };
    initial_state.cells[9] = 0;
    initial_state.cells[8] = 0;

    let mut s = initial_state.clone();

    Node::Scan(-2)
        .execute(&mut stdin, &mut stdout, &mut s, BUDGET)
        .unwrap()
        .unwrap();

    assert_eq!(s.pos, 8);
    assert_eq!(s.cells[0..], initial_state.cells[0..]);
}

#[test]
fn it_should_scan_right() {
    let mut stdin = InputSource::new(vec![]);
    let mut stdout = vec![];
    let mut initial_state = State { pos: 0, cells: vec![1u8; TAPE_LEN] };
    initial_state.cells[9] = 0;

    let mut s = initial_state.clone();

    Node::Scan(1)
        .execute(&mut stdin, &mut stdout, &mut s, BUDGET)
        .unwrap()
        .unwrap();

    assert_eq!(s.pos, 9);
    assert_eq!(s.cells[0..], initial_state.cells[0..]);
}

#[test]
fn it_should_scan_right_with_interval() {
    let mut stdin = InputSource::new(vec![]);
    let mut stdout = vec![];
    let mut initial_state = State { pos: 0, cells: vec![1u8; TAPE_LEN] };
    initial_state.cells[1] = 0;
    initial_state.cells[2] = 0;

    let mut s = initial_state.clone();

    Node::Scan(2)
        .execute(&mut stdin, &mut stdout, &mut s, BUDGET)
        .unwrap()
        .unwrap();

    assert_eq!(s.pos, 2);
    assert_eq!(s.cells[0..], initial_state.cells[0..]);
}

#[test]
fn it_should_run_nested_code_if_condition_is_true() {
    let mut stdin = InputSource::new(vec![]);
    let mut stdout = vec![];
    let initial_state = State { pos: 0, cells: vec![0; TAPE_LEN] };
    let mut s = initial_state.clone();

    s.cells[0] = 255;

    // This code piece moves the value of the current cell (cell0) two cells to the right (cell2)
    let code = vec![Node::Conditional(vec![
        Node::Shift(2),
        Node::Assign(0, 0, false),
        Node::Shift(-2),
        Node::Conditional(vec![
            Node::Dec(1, 0, false),
            Node::Shift(2),
            Node::Inc(1, 0, false),
            Node::Shift(-2),
        ]),
    ])];

    run_block(&mut stdin, &mut stdout, &code, &mut s, BUDGET)
        .unwrap()
        .unwrap();

    assert_eq!(s.pos, 0);
    assert_eq!(s.cells[0], initial_state.cells[0]);
    assert_eq!(s.cells[1], initial_state.cells[1]);
    assert_eq!(s.cells[2], 255);
    assert_eq!(s.cells[3..], initial_state.cells[3..]);
}

#[test]
fn it_should_not_run_nested_code_if_condition_is_false() {
    let mut stdin = InputSource::new(vec![]);
    let mut stdout = vec![];
    let initial_state = State { pos: 0, cells: vec![0; TAPE_LEN] };
    let mut s = initial_state.clone();

    // This code piece moves the value of the current cell (cell0) two cells to the right (cell2)
    let code = vec![Node::Conditional(vec![
        Node::Shift(2),
        Node::Assign(0, 0, false),
        Node::Shift(-2),
        Node::Conditional(vec![
            Node::Dec(1, 0, false),
            Node::Shift(2),
            Node::Inc(1, 0, false),
            Node::Shift(2),
        ]),
    ])];

    run_block(&mut stdin, &mut stdout, &code, &mut s, BUDGET)
        .unwrap()
        .unwrap();

    assert_eq!(s.pos, 0);
    assert_eq!(s.cells[0..], initial_state.cells[0..]);
}
