use regex_engine::nfda::parse;
use regex_engine::nfda::Branch::Finish;
use regex_engine::nfda::Branch::StateId;
use regex_engine::nfda::State;
use regex_engine::nfda::Symbol::Branching;
use regex_engine::nfda::Symbol::Matched;

#[test]
fn nfda_basic_concat() {
    let correct = vec![
        State {
            id: 0,
            matching_symbol: Matched('a'),
            branch_1: StateId(1),
            branch_2: StateId(1),
        },
        State {
            id: 1,
            matching_symbol: Matched('b'),
            branch_1: Finish,
            branch_2: Finish,
        },
    ];

    assert_eq!(parse("ab"), correct);
}

#[test]
fn nfda_basic_kleen_closure() {
    let correct = vec![
        State {
            id: 0,
            matching_symbol: Matched('a'),
            branch_1: StateId(1),
            branch_2: StateId(1),
        },
        State {
            id: 1,
            matching_symbol: Branching,
            branch_1: StateId(2),
            branch_2: StateId(3),
        },
        State {
            id: 2,
            matching_symbol: Matched('b'),
            branch_1: StateId(1),
            branch_2: StateId(1),
        },
        State {
            id: 3,
            matching_symbol: Matched('c'),
            branch_1: Finish,
            branch_2: Finish,
        },
    ];

    assert_eq!(parse("ab*c"), correct);
}

#[test]
fn nfda_bracket() {
    let correct = vec![
        State {
            id: 0,
            matching_symbol: Matched('a'),
            branch_1: StateId(1),
            branch_2: StateId(1),
        },
        State {
            id: 1,
            matching_symbol: Matched('b'),
            branch_1: StateId(2),
            branch_2: StateId(2),
        },
        State {
            id: 2,
            matching_symbol: Matched('c'),
            branch_1: Finish,
            branch_2: Finish,
        },
    ];

    assert_eq!(parse("(ab)c"), correct);
}

#[test]
fn nfda_bracket_kleene_closure() {
    let correct = vec![
        State {
            id: 0,
            matching_symbol: Branching,
            branch_1: StateId(1),
            branch_2: StateId(3),
        },
        State {
            id: 1,
            matching_symbol: Matched('a'),
            branch_1: StateId(2),
            branch_2: StateId(2),
        },
        State {
            id: 2,
            matching_symbol: Matched('b'),
            branch_1: StateId(3),
            branch_2: StateId(3),
        },
        State {
            id: 3,
            matching_symbol: Matched('c'),
            branch_1: Finish,
            branch_2: Finish,
        },
    ];

    assert_eq!(parse("(ab)*c"), correct);
}

#[test]
fn nfda_basic_plus() {
    let corrct = vec![
        State {
            id: 0,
            matching_symbol: Matched('a'),
            branch_1: StateId(1),
            branch_2: StateId(1),
        },
        State {
            id: 1,
            matching_symbol: Branching,
            branch_1: StateId(0),
            branch_2: Finish,
        },
    ];
    assert_eq!(parse("a+"), corrct);
}

#[test]
fn nfda_plus_bracket() {
    let correct = vec![
        State {
            id: 0,
            matching_symbol: Matched('a'),
            branch_1: StateId(1),
            branch_2: StateId(1),
        },
        State {
            id: 1,
            matching_symbol: Matched('b'),
            branch_1: StateId(2),
            branch_2: StateId(2),
        },
        State {
            id: 2,
            matching_symbol: Branching,
            branch_1: StateId(0),
            branch_2: StateId(3),
        },
        State {
            id: 3,
            matching_symbol: Matched('c'),
            branch_1: Finish,
            branch_2: Finish,
        },
    ];

    assert_eq!(parse("(ab)+c"), correct);
}

#[test]
fn nfda_basic_disjunction() {
    let correct = vec![
        State {
            id: 0,
            matching_symbol: Branching,
            branch_1: StateId(1),
            branch_2: StateId(2),
        },
        State {
            id: 1,
            matching_symbol: Matched('a'),
            branch_1: Finish,
            branch_2: Finish,
        },
        State {
            id: 2,
            matching_symbol: Matched('b'),
            branch_1: Finish,
            branch_2: Finish,
        },
    ];
    assert_eq!(parse("a|b"), correct);
}

#[test]
fn nfda_grouped_disjunction() {
    let correct = vec![
        State {
            id: 0,
            matching_symbol: Branching,
            branch_1: StateId(1),
            branch_2: StateId(3),
        },
        State {
            id: 1,
            matching_symbol: Matched('a'),
            branch_1: StateId(2),
            branch_2: StateId(2),
        },
        State {
            id: 2,
            matching_symbol: Matched('b'),
            branch_1: StateId(5),
            branch_2: StateId(5),
        },
        State {
            id: 3,
            matching_symbol: Matched('b'),
            branch_1: StateId(4),
            branch_2: StateId(4),
        },
        State {
            id: 4,
            matching_symbol: Matched('c'),
            branch_1: StateId(5),
            branch_2: StateId(5),
        },
        State {
            id: 5,
            matching_symbol: Matched('d'),
            branch_1: Finish,
            branch_2: Finish,
        },
    ];
    assert_eq!(parse("(ab|bc)d"), correct);
}

#[test]
fn nfda_multiple_disjunction() {
    let correct = vec![
        State {
            id: 0,
            matching_symbol: Branching,
            branch_1: StateId(1),
            branch_2: StateId(4),
        },
        State {
            id: 1,
            matching_symbol: Branching,
            branch_1: StateId(2),
            branch_2: StateId(3),
        },
        State {
            id: 2,
            matching_symbol: Matched('a'),
            branch_1: StateId(5),
            branch_2: StateId(5),
        },
        State {
            id: 3,
            matching_symbol: Matched('b'),
            branch_1: StateId(5),
            branch_2: StateId(5),
        },
        State {
            id: 4,
            matching_symbol: Matched('c'),
            branch_1: StateId(5),
            branch_2: StateId(5),
        },
        State {
            id: 5,
            matching_symbol: Matched('d'),
            branch_1: Finish,
            branch_2: Finish,
        },
    ];

    assert_eq!(parse("(a|b|c)d"), correct);
}

#[test]
fn nfda_unparsable_pattern_yields_empty() {
    assert!(parse("a||b").is_empty());
}
