use regex_engine::ndfa::parse;
use regex_engine::ndfa::Branch::Finish;
use regex_engine::ndfa::Branch::StateId;
use regex_engine::ndfa::State;
use regex_engine::ndfa::StateType::Branching;
use regex_engine::ndfa::StateType::Literal;

#[test]
fn ndfa_basic_concat() {
    let correct = vec![
        State {
            id: 0,
            machine_type: Literal('a'),
            branch: StateId(1),
        },
        State {
            id: 1,
            machine_type: Literal('b'),
            branch: Finish,
        },
    ];

    assert_eq!(parse("ab").unwrap(), correct);
}

#[test]
fn ndfa_basic_kleen_closure() {
    let correct = vec![
        State {
            id: 0,
            machine_type: Literal('a'),
            branch: StateId(1),
        },
        State {
            id: 1,
            machine_type: Branching(StateId(3)),
            branch: StateId(2),
        },
        State {
            id: 2,
            machine_type: Literal('b'),
            branch: StateId(1),
        },
        State {
            id: 3,
            machine_type: Literal('c'),
            branch: Finish,
        },
    ];

    assert_eq!(parse("ab*c").unwrap(), correct);
}

#[test]
fn ndfa_bracket() {
    let correct = vec![
        State {
            id: 0,
            machine_type: Literal('a'),
            branch: StateId(1),
        },
        State {
            id: 1,
            machine_type: Literal('b'),
            branch: StateId(2),
        },
        State {
            id: 2,
            machine_type: Literal('c'),
            branch: Finish,
        },
    ];

    assert_eq!(parse("(ab)c").unwrap(), correct);
}

#[test]
fn ndfa_bracket_kleene_closure() {
    let correct = vec![
        State {
            id: 0,
            machine_type: Branching(StateId(3)),
            branch: StateId(1),
        },
        State {
            id: 1,
            machine_type: Literal('a'),
            branch: StateId(2),
        },
        State {
            id: 2,
            machine_type: Literal('b'),
            branch: StateId(0),
        },
        State {
            id: 3,
            machine_type: Literal('c'),
            branch: Finish,
        },
    ];

    assert_eq!(parse("(ab)*c").unwrap(), correct);
}

#[test]
fn ndfa_basic_plus() {
    let corrct = vec![
        State {
            id: 0,
            machine_type: Literal('a'),
            branch: StateId(1),
        },
        State {
            id: 1,
            machine_type: Branching(Finish),
            branch: StateId(0),
        },
    ];
    assert_eq!(parse("a+").unwrap(), corrct);
}

#[test]
fn ndfa_plus_bracket() {
    let correct = vec![
        State {
            id: 0,
            machine_type: Literal('a'),
            branch: StateId(1),
        },
        State {
            id: 1,
            machine_type: Literal('b'),
            branch: StateId(2),
        },
        State {
            id: 2,
            machine_type: Branching(StateId(3)),
            branch: StateId(0),
        },
        State {
            id: 3,
            machine_type: Literal('c'),
            branch: Finish,
        },
    ];

    assert_eq!(parse("(ab)+c").unwrap(), correct);
}

#[test]
fn ndfa_basic_disjunction() {
    let correct = vec![
        State {
            id: 0,
            machine_type: Branching(StateId(2)),
            branch: StateId(1),
        },
        State {
            id: 1,
            machine_type: Literal('a'),
            branch: Finish,
        },
        State {
            id: 2,
            machine_type: Literal('b'),
            branch: Finish,
        },
    ];
    assert_eq!(parse("a|b").unwrap(), correct);
}

#[test]
fn ndfa_grouped_disjunction() {
    let correct = vec![
        State {
            id: 0,
            machine_type: Branching(StateId(3)),
            branch: StateId(1),
        },
        State {
            id: 1,
            machine_type: Literal('a'),
            branch: StateId(2),
        },
        State {
            id: 2,
            machine_type: Literal('b'),
            branch: StateId(5),
        },
        State {
            id: 3,
            machine_type: Literal('b'),
            branch: StateId(4),
        },
        State {
            id: 4,
            machine_type: Literal('c'),
            branch: StateId(5),
        },
        State {
            id: 5,
            machine_type: Literal('d'),
            branch: Finish,
        },
    ];
    assert_eq!(parse("(ab|bc)d").unwrap(), correct);
}

#[test]
fn ndfa_multiple_disjunction() {
    let correct = vec![
        State {
            id: 0,
            machine_type: Branching(StateId(4)),
            branch: StateId(1),
        },
        State {
            id: 1,
            machine_type: Branching(StateId(3)),
            branch: StateId(2),
        },
        State {
            id: 2,
            machine_type: Literal('a'),
            branch: StateId(5),
        },
        State {
            id: 3,
            machine_type: Literal('b'),
            branch: StateId(5),
        },
        State {
            id: 4,
            machine_type: Literal('c'),
            branch: StateId(5),
        },
        State {
            id: 5,
            machine_type: Literal('d'),
            branch: Finish,
        },
    ];

    assert_eq!(parse("(a|b|c)d").unwrap(), correct);
}

#[test]
fn bad_bracketing() {
    assert!(parse("((a)").is_err())
}

#[test]
fn excess_quantifier() {
    assert!(parse("a+*").is_err());
}

#[test]
fn empty_pattern_rejected() {
    assert_eq!(parse(""), Err("No regex"));
}

#[test]
fn over_closed_brackets_rejected() {
    assert_eq!(parse("a)b("), Err("invalid bracketing"));
}

#[test]
fn unbalanced_brackets_rejected() {
    assert_eq!(parse("(a(b)"), Err("mismatched number of brackets"));
}

#[test]
fn empty_alternative_rejected() {
    assert_eq!(parse("a||b"), Err("invalid regex"));
}

#[test]
fn dangling_escape_rejected() {
    assert_eq!(parse("ab\\"), Err("invalid regex"));
}

#[test]
fn escaped_quantifier_is_a_literal() {
    let correct = vec![
        State {
            id: 0,
            machine_type: Literal('a'),
            branch: StateId(1),
        },
        State {
            id: 1,
            machine_type: Literal('*'),
            branch: Finish,
        },
    ];
    assert_eq!(parse("a\\*").unwrap(), correct);
}

#[test]
fn ids_stay_contiguous_after_splicing() {
    for pattern in ["a", "abc", "a*", "a+b", "(ab)*c", "(a|b|c)d", "x(y|z)+w", "\\(a\\)"] {
        let fsm = parse(pattern).unwrap();
        for (pos, state) in fsm.iter().enumerate() {
            assert_eq!(state.id as usize, pos);
            let edges = match state.machine_type {
                Branching(b) => vec![state.branch, b],
                Literal(_) => vec![state.branch],
            };
            for edge in edges {
                if let StateId(t) = edge {
                    assert!((t as usize) < fsm.len());
                }
            }
        }
    }
}

#[test]
fn lone_open_bracket_rejected() {
    assert_eq!(parse("("), Err("mismatched number of brackets"));
}

#[test]
fn lone_close_bracket_rejected() {
    assert_eq!(parse(")"), Err("invalid bracketing"));
}

#[test]
fn nested_kleene_loops_back_to_outer_branch() {
    // The renumbering pass bends every shifted edge at the old group end —
    // a branching state's second edge included — back to the spliced-in
    // branch state, so the outer repetition stays reachable.
    let correct = vec![
        State {
            id: 0,
            machine_type: Branching(Finish),
            branch: StateId(1),
        },
        State {
            id: 1,
            machine_type: Literal('a'),
            branch: StateId(2),
        },
        State {
            id: 2,
            machine_type: Branching(StateId(0)),
            branch: StateId(3),
        },
        State {
            id: 3,
            machine_type: Literal('b'),
            branch: StateId(2),
        },
    ];
    assert_eq!(parse("(ab*)*").unwrap(), correct);
}
