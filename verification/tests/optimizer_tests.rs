use bfvm::optimizer::optimize_code;
use bfvm::optimizer::CollapseSimpleLoops;
use bfvm::optimizer::OptimizationOptions;
use bfvm::vm::Node;

#[test]
fn it_should_optimize_away_comments() {
    let code = vec![
        Node::Comment('a'),
        Node::Shift(1),
        Node::Comment('b'),
        Node::Conditional(vec![
            Node::Comment('a'),
            Node::Shift(1),
            Node::Conditional(vec![Node::Comment('a'), Node::Inc(1, 0, false)]),
        ]),
    ];
    let result = optimize_code(&code, &OptimizationOptions::default());

    assert_eq!(
        result,
        vec!(
            Node::Shift(1),
            Node::Conditional(vec!(
                Node::Shift(1),
                Node::Conditional(vec!(Node::Inc(1, 0, false),))
            ))
        )
    );
}

#[test]
fn it_should_optimize_away_repeated_operators() {
    let code = vec![
        Node::Shift(1),
        Node::Comment('a'),
        Node::Shift(1),
        Node::Shift(1),
        Node::Shift(-1),
        Node::Shift(-1),
        Node::Shift(1),
        Node::Conditional(vec![
            Node::Inc(1, 1, false),
            Node::Comment('a'),
            Node::Inc(1, 1, false),
            Node::Conditional(vec![
                Node::Comment('a'),
                Node::Shift(1),
                Node::Dec(1, 1, false),
                Node::Shift(1),
                Node::Dec(1, 1, false),
                Node::Dec(1, 1, false),
            ]),
        ]),
    ];
    let result = optimize_code(
        &code,
        &OptimizationOptions {
            collapsed_scan_loops: false,
            collapsed_operators: true,
            collapsed_loops: false,
            collapsed_assignments: false,
            collapsed_offsets: false,
        },
    );

    assert_eq!(
        result,
        vec!(
            Node::Shift(2),
            Node::Conditional(vec!(
                Node::Inc(2, 1, false),
                Node::Conditional(vec!(
                    Node::Shift(1),
                    Node::Dec(1, 1, false),
                    Node::Shift(1),
                    Node::Dec(2, 1, false)
                ))
            ))
        )
    );
}

#[test]
fn it_should_not_optimize_operators_that_would_overflow() {
    let code = vec![
        Node::Shift(i32::MAX - 1),
        Node::Shift(1),
        Node::Shift(1),
    ];
    let result = optimize_code(&code, &OptimizationOptions::default());

    assert_eq!(result, vec!(Node::Shift(i32::MAX), Node::Shift(1)));
}

#[test]
fn it_should_not_optimize_operators_with_different_offsets() {
    let code = vec![
        Node::Inc(1, 0, false),
        Node::Inc(1, 1, false),
        Node::Dec(1, 0, false),
        Node::Dec(1, 1, false),
        Node::Assign(1, 0, false),
        Node::Assign(1, 1, false),
    ];
    let result = optimize_code(&code, &OptimizationOptions::default());

    assert_eq!(
        result,
        vec!(
            Node::Inc(1, 0, false),
            Node::Inc(1, 1, false),
            Node::Dec(1, 0, false),
            Node::Dec(1, 1, false),
            Node::Assign(1, 0, false),
            Node::Assign(1, 1, false),
        )
    );
}

#[test]
fn it_should_optimize_zero_loops() {
    let code = vec![
        Node::Conditional(vec![Node::Dec(1, 0, false)]),
        Node::Conditional(vec![Node::Conditional(vec![Node::Dec(1, 0, false)])]),
    ];
    let result = optimize_code(&code, &OptimizationOptions::default());

    assert_eq!(
        result,
        vec!(
            Node::Assign(0, 0, false),
            Node::Conditional(vec!(Node::Assign(0, 0, false),))
        )
    );
}

#[test]
fn it_should_optimize_assignment_loops() {
    let code = vec![
        Node::Conditional(vec![Node::Dec(1, 0, false)]),
        Node::Inc(100, 0, false),
        Node::Conditional(vec![Node::Dec(1, 0, false)]),
        Node::Dec(1, 0, false),
        Node::Conditional(vec![
            Node::Conditional(vec![Node::Dec(1, 0, false)]),
            Node::Inc(100, 0, false),
        ]),
    ];
    let result = optimize_code(&code, &OptimizationOptions::default());

    assert_eq!(
        result,
        vec!(
            Node::Assign(100, 0, false),
            Node::Assign(255, 0, false),
            Node::Conditional(vec!(Node::Assign(100, 0, false),))
        )
    );
}

#[test]
fn it_should_collapse_to_positive_offsets() {
    let code = vec![
        Node::Shift(5),
        Node::Inc(1, 0, false),
        Node::Shift(5),
        Node::Dec(1, 0, false),
        Node::Shift(5),
        Node::Assign(1, 0, false),
        Node::Shift(5),
        Node::In(0, false),
        Node::Shift(5),
        Node::Out(0, false),
        Node::Conditional(vec![
            Node::Shift(5),
            Node::Inc(1, 0, false),
            Node::Shift(5),
            Node::Dec(1, 0, false),
            Node::Shift(5),
            Node::Assign(1, 0, false),
        ]),
    ];
    let result = optimize_code(
        &code,
        &OptimizationOptions {
            collapsed_scan_loops: false,
            collapsed_operators: false,
            collapsed_loops: false,
            collapsed_assignments: false,
            collapsed_offsets: true,
        },
    );

    assert_eq!(
        result,
        vec!(
            Node::Inc(1, 5, true),
            Node::Dec(1, 5, true),
            Node::Assign(1, 5, true),
            Node::In(5, true),
            Node::Out(5, true),
            Node::Conditional(vec!(
                Node::Inc(1, 5, true),
                Node::Dec(1, 5, true),
                Node::Assign(1, 5, true),
            ))
        )
    );
}

#[test]
fn it_should_collapse_to_negative_offsets() {
    let code = vec![
        Node::Shift(-5),
        Node::Inc(1, 0, false),
        Node::Shift(-5),
        Node::Dec(1, 0, false),
        Node::Shift(-5),
        Node::Assign(1, 0, false),
        Node::Shift(-5),
        Node::In(0, false),
        Node::Shift(-5),
        Node::Out(0, false),
        Node::Conditional(vec![
            Node::Shift(-5),
            Node::Inc(1, 0, false),
            Node::Shift(-5),
            Node::Dec(1, 0, false),
            Node::Shift(-5),
            Node::Assign(1, 0, false),
        ]),
    ];
    let result = optimize_code(
        &code,
        &OptimizationOptions {
            collapsed_scan_loops: false,
            collapsed_operators: false,
            collapsed_loops: false,
            collapsed_assignments: false,
            collapsed_offsets: true,
        },
    );

    assert_eq!(
        result,
        vec!(
            Node::Inc(1, -5, true),
            Node::Dec(1, -5, true),
            Node::Assign(1, -5, true),
            Node::In(-5, true),
            Node::Out(-5, true),
            Node::Conditional(vec!(
                Node::Inc(1, -5, true),
                Node::Dec(1, -5, true),
                Node::Assign(1, -5, true),
            ))
        )
    );
}

#[test]
fn it_should_collapse_non_moving_inc_nodes() {
    let code = vec![
        Node::Shift(-5),
        Node::Inc(1, 0, false),
        Node::Shift(5),
        Node::Shift(5),
        Node::Inc(2, 0, false),
        Node::Shift(-5),
    ];
    let result = optimize_code(
        &code,
        &OptimizationOptions {
            collapsed_scan_loops: false,
            collapsed_operators: false,
            collapsed_loops: false,
            collapsed_assignments: false,
            collapsed_offsets: true,
        },
    );

    assert_eq!(
        result,
        vec!(Node::Inc(1, -5, false), Node::Inc(2, 5, false),)
    );
}

#[test]
fn it_should_collapse_imbalanced_inc_nodes() {
    let code = vec![Node::Shift(-5), Node::Inc(1, 0, false), Node::Shift(7)];
    let result = optimize_code(
        &code,
        &OptimizationOptions {
            collapsed_scan_loops: false,
            collapsed_operators: false,
            collapsed_loops: false,
            collapsed_assignments: false,
            collapsed_offsets: true,
        },
    );

    assert_eq!(result, vec!(Node::Inc(1, -5, false), Node::Shift(2),));
}

#[test]
fn it_should_collapse_imbalanced_inc_nodes_2() {
    let code = vec![Node::Shift(-7), Node::Inc(1, 0, false), Node::Shift(5)];
    let result = optimize_code(
        &code,
        &OptimizationOptions {
            collapsed_scan_loops: false,
            collapsed_operators: false,
            collapsed_loops: false,
            collapsed_assignments: false,
            collapsed_offsets: true,
        },
    );

    assert_eq!(result, vec!(Node::Shift(-2), Node::Inc(1, -5, false),));
}

#[test]
fn it_should_collapse_imbalanced_inc_nodes_3() {
    let code = vec![Node::Shift(7), Node::Inc(1, 0, false), Node::Shift(-5)];
    let result = optimize_code(
        &code,
        &OptimizationOptions {
            collapsed_scan_loops: false,
            collapsed_operators: false,
            collapsed_loops: false,
            collapsed_assignments: false,
            collapsed_offsets: true,
        },
    );

    assert_eq!(result, vec!(Node::Shift(2), Node::Inc(1, 5, false),));
}

#[test]
fn it_should_collapse_imbalanced_inc_nodes_4() {
    let code = vec![Node::Shift(5), Node::Inc(1, 0, false), Node::Shift(-9)];
    let result = optimize_code(
        &code,
        &OptimizationOptions {
            collapsed_scan_loops: false,
            collapsed_operators: false,
            collapsed_loops: false,
            collapsed_assignments: false,
            collapsed_offsets: true,
        },
    );

    assert_eq!(result, vec!(Node::Inc(1, 5, false), Node::Shift(-4),));
}

#[test]
fn it_should_collapse_non_moving_in_nodes() {
    let code = vec![
        Node::Shift(-5),
        Node::In(0, false),
        Node::Shift(5),
        Node::Shift(5),
        Node::In(0, false),
        Node::Shift(-5),
    ];
    let result = optimize_code(
        &code,
        &OptimizationOptions {
            collapsed_scan_loops: false,
            collapsed_operators: false,
            collapsed_loops: false,
            collapsed_assignments: false,
            collapsed_offsets: true,
        },
    );

    assert_eq!(result, vec!(Node::In(-5, false), Node::In(5, false),));
}

#[test]
fn it_should_collapse_non_moving_nodes() {
    let code = vec![
        Node::Shift(-5),
        Node::Inc(1, 0, false),
        Node::Shift(5),
        Node::Shift(-5),
        Node::Dec(1, 0, false),
        Node::Shift(5),
        Node::Shift(5),
        Node::Assign(1, 0, false),
        Node::Shift(-5),
        Node::Shift(5),
        Node::In(0, false),
        Node::Shift(-5),
        Node::Shift(5),
        Node::Out(0, false),
        Node::Shift(-5),
        Node::Conditional(vec![
            Node::Shift(-5),
            Node::Inc(1, 0, false),
            Node::Shift(5),
            Node::Shift(-5),
            Node::Dec(1, 0, false),
            Node::Shift(5),
            Node::Shift(5),
            Node::Assign(1, 0, false),
            Node::Shift(-5),
        ]),
    ];
    let result = optimize_code(
        &code,
        &OptimizationOptions {
            collapsed_scan_loops: false,
            collapsed_operators: false,
            collapsed_loops: false,
            collapsed_assignments: false,
            collapsed_offsets: true,
        },
    );

    assert_eq!(
        result,
        vec!(
            Node::Inc(1, -5, false),
            Node::Dec(1, -5, false),
            Node::Assign(1, 5, false),
            Node::In(5, false),
            Node::Out(5, false),
            Node::Conditional(vec!(
                Node::Inc(1, -5, false),
                Node::Dec(1, -5, false),
                Node::Assign(1, 5, false),
            ))
        )
    );
}

#[test]
fn it_should_collapse_imbalanced_non_moving_nodes() {
    let code = vec![
        Node::Shift(-7),
        Node::Inc(1, 0, false),
        Node::Shift(5),
        Node::Shift(-5),
        Node::Inc(1, 0, false),
        Node::Shift(7),
    ];
    let result = optimize_code(
        &code,
        &OptimizationOptions {
            collapsed_scan_loops: false,
            collapsed_operators: false,
            collapsed_loops: false,
            collapsed_assignments: false,
            collapsed_offsets: true,
        },
    );

    assert_eq!(
        result,
        vec!(
            Node::Shift(-2),
            Node::Inc(1, -5, false),
            Node::Inc(1, -5, false),
            Node::Shift(2)
        )
    );
}

#[test]
fn it_should_defer_movement() {
    let code = vec![
        Node::Shift(-1),
        Node::Shift(6),
        Node::Inc(1, 5, true),
        Node::Inc(1, 5, false),
        Node::Mul(1, -5, 5, false),
        Node::Conditional(vec![Node::Dec(1, 5, true), Node::Out(-5, true)]),
        Node::Shift(-10),
        Node::Inc(1, 5, true),
    ];
    let result = optimize_code(&code, &OptimizationOptions::default());

    assert_eq!(
        result,
        vec!(
            Node::Inc(1, 10, false),
            Node::Inc(1, 15, false),
            Node::Mul(1, -5, 15, false),
            Node::Shift(10),
            Node::Conditional(vec!(Node::Dec(1, 5, false), Node::Out(0, false))),
            Node::Inc(1, -5, false),
            Node::Shift(-5),
        )
    );
}

#[test]
fn it_should_collapse_simple_loops() {
    let code = vec![
        Node::Conditional(vec![
            Node::Inc(2, 5, false),
            Node::Inc(4, -5, false),
            Node::Dec(4, -5, false),
            Node::Dec(1, 0, false),
        ]),
        Node::Conditional(vec![Node::Conditional(vec![
            Node::Inc(2, 5, false),
            Node::Dec(1, 0, false),
            Node::Inc(4, -5, false),
        ])]),
    ];
    let result = optimize_code(&code, &OptimizationOptions::default());

    assert_eq!(
        result,
        vec!(
            Node::Mul(2, 5, 0, false),
            Node::Mul(4, -5, 0, false),
            Node::Mul(-4, -5, 0, false),
            Node::Assign(0, 0, false),
            Node::Conditional(vec!(
                Node::Mul(2, 5, 0, false),
                Node::Mul(4, -5, 0, false),
                Node::Assign(0, 0, false),
            )),
        )
    );
}

#[test]
fn it_should_collapse_scan_loops() {
    let code = vec![
        Node::Conditional(vec![Node::Shift(-1)]),
        Node::Conditional(vec![Node::Shift(3)]),
        Node::Conditional(vec![
            Node::Conditional(vec![Node::Shift(-1)]),
            Node::Conditional(vec![Node::Shift(3)]),
        ]),
    ];
    let result = optimize_code(&code, &OptimizationOptions::default());

    assert_eq!(
        result,
        vec!(
            Node::Scan(-1),
            Node::Scan(3),
            Node::Conditional(vec!(Node::Scan(-1), Node::Scan(3),)),
        )
    );
}

#[test]
fn it_should_leave_already_optimized_trees_unchanged() {
    let programs = [
        "[-]+++",
        "[>>+++<<-]",
        "[>>]",
        "abc>>><<-[+[,.]>]",
        "++[->+<]>>.",
    ];
    for program in programs {
        let parsed =
            bfvm::parser::parse_code(&program.as_bytes().to_vec()).unwrap();
        let options = OptimizationOptions::default();
        let once = optimize_code(&parsed, &options);
        let twice = optimize_code(&once, &options);
        assert_eq!(twice, once);
    }
}

#[test]
fn it_should_only_strip_comments_when_all_passes_are_disabled() {
    let code = vec![
        Node::Comment('a'),
        Node::Shift(1),
        Node::Shift(1),
        Node::Conditional(vec![Node::Comment('x'), Node::Dec(1, 0, false)]),
    ];
    let options = OptimizationOptions {
        collapsed_operators: false,
        collapsed_assignments: false,
        collapsed_offsets: false,
        collapsed_loops: false,
        collapsed_scan_loops: false,
    };
    let result = optimize_code(&code, &options);

    assert_eq!(
        result,
        vec!(
            Node::Shift(1),
            Node::Shift(1),
            Node::Conditional(vec!(Node::Dec(1, 0, false),)),
        )
    );
}

#[test]
fn it_should_recognize_collapsible_loops() {
    let collapsible = vec![
        Node::Inc(2, 5, false),
        Node::Dec(1, 0, false),
    ];
    let no_counter = vec![Node::Inc(2, 5, false)];
    let moves_pointer = vec![
        Node::Dec(1, 0, false),
        Node::Inc(2, 5, true),
    ];
    let other_kinds = vec![
        Node::Dec(1, 0, false),
        Node::Shift(1),
    ];
    let empty: Vec<Node> = vec![];

    assert!(CollapseSimpleLoops::is_collapsible_loop(&collapsible));
    assert!(!CollapseSimpleLoops::is_collapsible_loop(&no_counter));
    assert!(!CollapseSimpleLoops::is_collapsible_loop(&moves_pointer));
    assert!(!CollapseSimpleLoops::is_collapsible_loop(&other_kinds));
    assert!(!CollapseSimpleLoops::is_collapsible_loop(&empty));
}

#[test]
fn it_should_keep_the_shift_after_a_zero_committed_offset() {
    // `><` merges to Shift(0), which a following `+` absorbs as a committed
    // offset of zero; the reduction against the final `>` must keep that
    // shift's movement.
    let parsed = bfvm::parser::parse_code(&"><+>".as_bytes().to_vec()).unwrap();
    let result = optimize_code(&parsed, &OptimizationOptions::default());

    assert_eq!(result, vec![Node::Inc(1, 0, false), Node::Shift(1)]);

    let mut stdin = bfvm::vm::InputSource::new(vec![]);
    let mut stdout = vec![];
    let mut s = bfvm::vm::State::default();
    bfvm::vm::run_block(&mut stdin, &mut stdout, &result, &mut s, 1_000)
        .unwrap()
        .unwrap();

    let mut stdin_p = bfvm::vm::InputSource::new(vec![]);
    let mut stdout_p = vec![];
    let mut sp = bfvm::vm::State::default();
    bfvm::vm::run_block(&mut stdin_p, &mut stdout_p, &parsed, &mut sp, 1_000)
        .unwrap()
        .unwrap();

    assert_eq!(s.pos, sp.pos);
    assert_eq!(s.cells[0..], sp.cells[0..]);
}

#[test]
fn it_should_defer_movement_in_a_single_node_run() {
    let code = vec![
        Node::Conditional(vec![Node::Shift(3)]),
        Node::Inc(1, 5, true),
    ];
    let result = optimize_code(
        &code,
        &OptimizationOptions {
            collapsed_scan_loops: false,
            collapsed_operators: false,
            collapsed_loops: true,
            collapsed_assignments: false,
            collapsed_offsets: false,
        },
    );

    assert_eq!(
        result,
        vec![
            Node::Conditional(vec![Node::Shift(3)]),
            Node::Inc(1, 5, false),
            Node::Shift(5),
        ]
    );
}
