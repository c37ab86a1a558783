use regex_engine::dfa::convert;
use regex_engine::dfa::NextState;
use regex_engine::dfa::Transition;
use regex_engine::ndfa::parse;
use regex_engine::search::find_matching;

fn compile(pattern: &str) -> Vec<regex_engine::dfa::State> {
    convert(parse(pattern).unwrap())
}

fn matches_of(pattern: &str, text: &str) -> Vec<String> {
    let dfsm = compile(pattern);
    find_matching(text, &dfsm)
}

#[test]
fn literal_chain_determinizes_to_a_chain() {
    let dfsm = compile("ab");
    assert_eq!(dfsm.len(), 3);
    assert!(dfsm[0].looping_chars.is_empty());
    match &dfsm[0].tran {
        Transition::NextStates(ns) => {
            assert_eq!(ns, &vec![NextState { matched: 'a', id: 1 }]);
        }
        Transition::Finish => panic!("start state must consume 'a'"),
    }
    match &dfsm[1].tran {
        Transition::NextStates(ns) => {
            assert_eq!(ns, &vec![NextState { matched: 'b', id: 2 }]);
        }
        Transition::Finish => panic!("second state must consume 'b'"),
    }
    assert_eq!(dfsm[2].tran, Transition::Finish);
}

#[test]
fn kleene_dfa_has_looping_state() {
    let dfsm = compile("ab*c");
    assert_eq!(dfsm.len(), 4);
    match &dfsm[1].tran {
        Transition::NextStates(ns) => {
            assert_eq!(
                ns,
                &vec![
                    NextState { matched: 'b', id: 2 },
                    NextState { matched: 'c', id: 3 },
                ]
            );
        }
        Transition::Finish => panic!("state after 'a' must branch on 'b' and 'c'"),
    }
    assert_eq!(dfsm[2].looping_chars, vec!['b']);
    match &dfsm[2].tran {
        Transition::NextStates(ns) => {
            assert_eq!(ns, &vec![NextState { matched: 'c', id: 3 }]);
        }
        Transition::Finish => panic!("looping state must still exit on 'c'"),
    }
    assert_eq!(dfsm[3].tran, Transition::Finish);
}

#[test]
fn determinization_is_repeatable() {
    let first = convert(parse("(ab|bc)d*e").unwrap());
    let second = convert(parse("(ab|bc)d*e").unwrap());
    assert_eq!(first, second);
}

#[test]
fn literal_pattern_matches_exactly_its_string() {
    assert_eq!(matches_of("ab", "ab"), vec!["ab".to_string()]);
    assert_eq!(matches_of("ab", "xxabyy"), vec!["ab".to_string()]);
    assert!(matches_of("ab", "ba\nca\nb\naxb").is_empty());
}

#[test]
fn kleene_star_accepts_repetitions() {
    assert_eq!(matches_of("a*", "a"), vec!["a".to_string()]);
    assert_eq!(matches_of("a*", "aaaa"), vec!["aaaa".to_string()]);
}

#[test]
fn kleene_star_match_is_greedy_at_first_viable_offset() {
    assert_eq!(matches_of("a*", "baaab"), vec!["aaa".to_string()]);
}

#[test]
fn alternation_matches_either_arm_and_nothing_else() {
    assert_eq!(matches_of("(ab|bc)d", "abd"), vec!["abd".to_string()]);
    assert_eq!(matches_of("(ab|bc)d", "bcd"), vec!["bcd".to_string()]);
    assert!(matches_of("(ab|bc)d", "acd").is_empty());
}

#[test]
fn scanner_reports_per_line_matches() {
    assert_eq!(matches_of("ab*c", "aaaabd\nacd\na"), vec!["ac".to_string()]);
    assert_eq!(
        matches_of("ab*c", "abbbc\nacd\nno\nxabc"),
        vec!["abbbc".to_string(), "ac".to_string(), "abc".to_string()]
    );
}

#[test]
fn plus_requires_at_least_one_repetition() {
    assert_eq!(matches_of("a+b", "aab"), vec!["aab".to_string()]);
    assert!(matches_of("a+b", "b").is_empty());
}

#[test]
fn escaped_star_matches_a_literal_star() {
    assert_eq!(matches_of("\\*", "x*y"), vec!["*".to_string()]);
}

#[test]
fn empty_text_has_no_matches() {
    assert!(matches_of("ab", "").is_empty());
}

#[test]
fn three_way_alternation_matches_each_arm() {
    assert_eq!(matches_of("(a|b|c)d", "ad"), vec!["ad".to_string()]);
    assert_eq!(matches_of("(a|b|c)d", "bd"), vec!["bd".to_string()]);
    assert_eq!(matches_of("(a|b|c)d", "cd"), vec!["cd".to_string()]);
    assert!(matches_of("(a|b|c)d", "dd").is_empty());
}

#[test]
fn grouped_plus_requires_one_full_group() {
    assert_eq!(matches_of("(ab)+c", "ababc"), vec!["ababc".to_string()]);
    assert!(matches_of("(ab)+c", "c").is_empty());
}

#[test]
fn failed_whole_line_walk_retries_later_offsets() {
    // From offset 0 the walk consumes the whole line and runs out in a
    // non-accepting state; the scan then retries and the second
    // alternative accepts at offset 1.
    assert_eq!(matches_of("ba*c|a", "ba"), vec!["a".to_string()]);
}

#[test]
fn escaped_literal_pattern_matches_its_denoted_string() {
    assert_eq!(matches_of("\\a\\b", "xaby"), vec!["ab".to_string()]);
    assert_eq!(matches_of("a\\bc", "xabcy"), vec!["abc".to_string()]);
    assert!(matches_of("\\a\\b", "xy\nba").is_empty());
}
