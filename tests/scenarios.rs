use bfa::{Instruction, Program, Table};

fn minimized(text: &str, cells: usize) -> Table {
    let program = Program::new(text, cells);
    let mut table = Table::build(&program);
    table.minimize();
    table
}

#[test]
fn from_char_maps_each_symbol() {
    assert!(matches!(Instruction::from_char('<'), Some(Instruction::MoveLeft)));
    assert!(matches!(Instruction::from_char('>'), Some(Instruction::MoveRight)));
    assert!(matches!(Instruction::from_char('+'), Some(Instruction::Increment)));
    assert!(matches!(Instruction::from_char('-'), Some(Instruction::Decrement)));
    assert!(matches!(Instruction::from_char('['), Some(Instruction::StartLoop)));
    assert!(matches!(Instruction::from_char(']'), Some(Instruction::EndLoop)));
    assert!(matches!(Instruction::from_char(','), Some(Instruction::Read)));
    assert!(matches!(Instruction::from_char('.'), Some(Instruction::Accept)));
    assert!(Instruction::from_char('a').is_none());
    assert!(Instruction::from_char(' ').is_none());
}

#[test]
fn new_drops_other_characters() {
    let program = Program::new("a,b [ x.\n]!", 3);
    assert_eq!(program.cell_count, 3);
    assert_eq!(
        program.instructions,
        vec![
            Instruction::Read,
            Instruction::StartLoop,
            Instruction::Accept,
            Instruction::EndLoop
        ]
    );
}

#[test]
fn read_loop_accepts_nonzero_inputs() {
    // a zero input ends the loop and the program, so it leads to a sink
    let table = minimized(",[.,]", 1);
    assert_eq!(table.len(), 3);
    assert_eq!(
        table.dot(),
        "digraph G {\n    0 -> 1 [label=\"1-F\"];\n    0 -> 2 [label=\"0\"];\n    1 -> 1 [label=\"1-F\"];\n    1 -> 2 [label=\"0\"];\n    2 -> 2 [label=\"0-F\"];\n    1[peripheries=2];\n}\n"
    );
}

#[test]
fn accept_after_every_input() {
    let table = minimized("+[,.]", 1);
    assert_eq!(table.len(), 2);
    assert_eq!(
        table.dot(),
        "digraph G {\n    0 -> 1 [label=\"0-F\"];\n    1 -> 1 [label=\"0-F\"];\n    1[peripheries=2];\n}\n"
    );
}

#[test]
fn stray_end_loop_stays_small() {
    let table = minimized(",[-[-]]]", 1);
    assert!(table.len() <= 3);
    let dot = table.dot();
    assert!(dot.starts_with("digraph G {\n"));
    assert!(dot.ends_with("}\n"));
    assert!(!dot.contains("peripheries"));
}

#[test]
fn two_deep_layers() {
    let table = minimized("+[>,,.<]", 2);
    assert_eq!(table.len(), 3);
    assert_eq!(
        table.dot(),
        "digraph G {\n    0 -> 2 [label=\"0-F\"];\n    1 -> 2 [label=\"0-F\"];\n    2 -> 1 [label=\"0-F\"];\n    1[peripheries=2];\n}\n"
    );
}

#[test]
fn build_is_deterministic() {
    let first = minimized(",>,[-<->]<[>.,<]", 2).dot();
    let second = minimized(",>,[-<->]<[>.,<]", 2).dot();
    assert_eq!(first, second);
    let program = Program::new(",>,[-<->]<[>.,<]", 2);
    assert_eq!(Table::build(&program).dot(), Table::build(&program).dot());
}

#[test]
fn two_cell_benchmarks_terminate() {
    for text in ["+[>,,.<]", ",>,[-<->]<[>.,<]", "+[>.,[<->[-]]<[,]+]", ",[-[-]]]"] {
        let cells = if text == ",[-[-]]]" { 1 } else { 2 };
        let table = minimized(text, cells);
        assert!(table.len() >= 1);
    }
}

#[test]
fn single_cell_moves_are_no_ops() {
    assert_eq!(minimized(",<>[.,]", 1).dot(), minimized(",[.,]", 1).dot());
    assert_eq!(minimized("+<[,>.]", 1).dot(), minimized("+[,.]", 1).dot());
}

#[test]
fn empty_program_is_one_sink() {
    let program = Program::new("", 1);
    let table = Table::build(&program);
    assert_eq!(table.len(), 1);
    assert_eq!(table.dot(), "digraph G {\n    0 -> 0 [label=\"0-F\"];\n}\n");
}

#[test]
fn no_read_gives_sink_start() {
    let table = Table::build(&Program::new("+++.", 2));
    assert_eq!(table.len(), 1);
    assert_eq!(
        table.dot(),
        "digraph G {\n    0 -> 0 [label=\"0-F\"];\n    0[peripheries=2];\n}\n"
    );
    let silent = Table::build(&Program::new("+[-]>+<", 3));
    assert_eq!(silent.len(), 1);
    assert!(!silent.dot().contains("peripheries"));
}

#[test]
fn no_accept_gives_no_accepting_state() {
    let table = Table::build(&Program::new(",[-],", 1));
    assert!(!table.dot().contains("peripheries=2"));
    let mut smaller = Table::build(&Program::new(",>,[-<->]<", 2));
    smaller.minimize();
    assert!(!smaller.dot().contains("peripheries=2"));
}

#[test]
fn cells_wrap_modulo_sixteen() {
    // 0 - 1 = 15 is non-zero, so the loop is entered and accepts
    let down = Table::build(&Program::new("-[.,]", 1));
    assert!(down.dot().contains("    0[peripheries=2];\n"));
    // 15 + 1 = 0, so the loop is skipped and the program ends
    let up = Table::build(&Program::new("-+[.,]", 1));
    assert_eq!(up.len(), 1);
    assert!(!up.dot().contains("peripheries"));
}

#[test]
fn odd_cell_count_keeps_cells_apart() {
    // three cells: the third one is written and read back on its own
    let table = minimized(",>>+<<[>>.<<,]", 3);
    let dot = table.dot();
    assert!(dot.contains("peripheries=2"));
    assert!(table.len() >= 2);
}

#[test]
fn three_cell_benchmarks_terminate() {
    for text in ["+[>,]+[[.,]+]", ">+[>.,[>]<<]", ",>>+[.[,<<[->+>-<<]>[-<+>]>]+]"] {
        let table = minimized(text, 3);
        assert!(table.len() >= 1);
        assert!(table.dot().starts_with("digraph G {\n"));
    }
}
