use bfa::{Program, Table};

fn row(targets: [usize; 16]) -> (bool, [usize; 16]) {
    (false, targets)
}

#[test]
fn labels_compress_runs() {
    let table = Table {
        states: vec![
            row([0, 0, 1, 1, 1, 1, 0, 1, 0, 0, 0, 1, 1, 1, 1, 1]),
            (true, [1; 16]),
        ],
    };
    assert_eq!(
        table.dot(),
        "digraph G {\n    0 -> 0 [label=\"01689A\"];\n    0 -> 1 [label=\"2-57B-F\"];\n    1 -> 1 [label=\"0-F\"];\n    1[peripheries=2];\n}\n"
    );
}

#[test]
fn labels_of_runs_of_three_and_four() {
    let table = Table {
        states: vec![row([1, 1, 1, 0, 0, 0, 0, 1, 1, 1, 1, 0, 1, 0, 1, 0]), row([1; 16])],
    };
    assert_eq!(
        table.dot(),
        "digraph G {\n    0 -> 0 [label=\"3-6BDF\"];\n    0 -> 1 [label=\"0127-ACE\"];\n    1 -> 1 [label=\"0-F\"];\n}\n"
    );
}

#[test]
fn state_numbers_are_decimal() {
    let mut states = Vec::new();
    for i in 0..12usize {
        states.push((i == 11, [(i + 1) % 12; 16]));
    }
    let table = Table { states };
    let dot = table.dot();
    assert!(dot.contains("    10 -> 11 [label=\"0-F\"];\n"));
    assert!(dot.contains("    11 -> 0 [label=\"0-F\"];\n"));
    assert!(dot.contains("    11[peripheries=2];\n"));
}

#[test]
fn minimize_merges_equivalent_rows() {
    let mut table = Table {
        states: vec![
            row([1; 16]),
            row([3; 16]),
            row([3; 16]),
            (true, [2; 16]),
        ],
    };
    table.minimize();
    assert_eq!(table.len(), 3);
    assert_eq!(
        table.dot(),
        "digraph G {\n    0 -> 2 [label=\"0-F\"];\n    1 -> 2 [label=\"0-F\"];\n    2 -> 1 [label=\"0-F\"];\n    1[peripheries=2];\n}\n"
    );
}

#[test]
fn minimize_keeps_distinct_rows() {
    let mut table = Table {
        states: vec![
            row([1, 2, 2, 2, 2, 2, 2, 2, 2, 2, 2, 2, 2, 2, 2, 2]),
            (true, [2; 16]),
            row([2; 16]),
        ],
    };
    table.minimize();
    assert_eq!(table.len(), 3);
    assert_eq!(
        table.dot(),
        "digraph G {\n    0 -> 1 [label=\"0\"];\n    0 -> 2 [label=\"1-F\"];\n    1 -> 2 [label=\"0-F\"];\n    2 -> 2 [label=\"0-F\"];\n    1[peripheries=2];\n}\n"
    );
}

#[test]
fn minimize_of_all_equal_rows_is_one_state() {
    let mut table = Table { states: vec![(true, [1; 16]), (true, [0; 16]), (true, [1; 16])] };
    table.minimize();
    assert_eq!(table.len(), 1);
    assert_eq!(table.dot(), "digraph G {\n    0 -> 0 [label=\"0-F\"];\n    0[peripheries=2];\n}\n");
}

#[test]
fn minimize_twice_changes_nothing() {
    for (text, cells) in [(",>,[-<->]<[>.,<]", 2), (",[.,]", 1), ("+[>,,.<]", 2)] {
        let mut table = Table::build(&Program::new(text, cells));
        table.minimize();
        let once = table.dot();
        table.minimize();
        assert_eq!(table.dot(), once);
    }
}

#[test]
fn minimize_keeps_language_on_samples() {
    let program = Program::new(",>,[-<->]<[>.,<]", 2);
    let full = Table::build(&program);
    let mut small = Table::build(&program);
    small.minimize();
    let words: [&[usize]; 6] = [&[], &[3], &[3, 3], &[3, 5, 1], &[0, 0, 7, 2], &[15, 1, 15, 1, 9]];
    for word in words {
        let (mut a, mut b) = (0usize, 0usize);
        for &s in word {
            a = full.states[a].1[s];
            b = small.states[b].1[s];
        }
        assert_eq!(full.states[a].0, small.states[b].0);
    }
}

fn ascending() -> [usize; 16] {
    let mut row = [0usize; 16];
    for (i, slot) in row.iter_mut().enumerate() {
        *slot = i + 1;
    }
    row
}

#[test]
fn build_numbers_states_in_discovery_order() {
    let table = Table::build(&Program::new("+[,.]", 1));
    assert_eq!(table.len(), 17);
    assert_eq!(table.states[0], (false, ascending()));
    assert_eq!(table.states[1], (true, [1; 16]));
    for k in 2..17 {
        assert_eq!(table.states[k], (true, ascending()));
    }
    let mut small = table;
    small.minimize();
    assert_eq!(small.states, vec![(false, [1; 16]), (true, [1; 16])]);
}

#[test]
fn stray_end_loop_table_collapses_to_one_row() {
    let mut table = Table::build(&Program::new(",[-[-]]]", 1));
    assert_eq!(table.states, vec![(false, [1; 16]), (false, [1; 16])]);
    table.minimize();
    assert_eq!(table.states, vec![(false, [0; 16])]);
}

#[test]
fn minimize_appends_split_classes() {
    let mut table = Table { states: vec![(false, [1; 16]), (false, [2; 16]), (true, [2; 16])] };
    table.minimize();
    assert_eq!(table.states, vec![(false, [2; 16]), (true, [1; 16]), (false, [1; 16])]);
}

#[test]
fn minimize_two_deep_layers_rows() {
    let mut table = Table::build(&Program::new("+[>,,.<]", 2));
    table.minimize();
    assert_eq!(table.states, vec![(false, [2; 16]), (true, [2; 16]), (false, [1; 16])]);
}

#[test]
fn build_twice_gives_same_rows() {
    let program = Program::new(",>,[-<->]<[>.,<]", 2);
    assert_eq!(Table::build(&program).states, Table::build(&program).states);
}

#[test]
fn moves_on_one_cell_leave_the_table_unchanged() {
    assert_eq!(
        Table::build(&Program::new(",<[>.<,]>", 1)).states,
        Table::build(&Program::new(",[.,]", 1)).states
    );
}
