//! Pattern parser and NFA builder.
//!
//! A pattern is parsed by recursive descent over the grammar
//! `regex := term ('|' term)*`, `term := factor*`, `factor := base ('*'|'+')?`,
//! `base := literal | '\' literal | '(' regex ')'`, emitting a flat automaton
//! of states addressed by dense integer ids. The id of a state equals its
//! position in the finished state sequence, the start state has id 0, and
//! every edge points either at a state of the automaton or at the `Finish`
//! sentinel.

use vstd::prelude::*;

verus! {

/// What a state does: consume one literal character, or branch without
/// consuming anything.
#[derive(Clone, Copy, Debug, PartialEq, Eq, Hash)]
pub enum StateType {
    Literal(char),
    Branching(Branch),
}

/// An outgoing edge: either the id of another state of the same automaton or
/// the accepting `Finish` sentinel.
#[derive(Clone, Copy, Debug, PartialEq, Eq, Hash)]
pub enum Branch {
    StateId(u32),
    Finish,
}

/// A single NFA state. A `Literal` state consumes its character and follows
/// `branch`; a `Branching` state consumes nothing and may follow either
/// `branch` or the edge carried inside its `StateType`.
#[derive(Clone, Copy, Debug, PartialEq, Eq, Hash)]
pub struct State {
    pub id: u32,
    pub machine_type: StateType,
    pub branch: Branch,
}

/// Outcome of the structural pre-check of a pattern.
pub enum PatternCheck {
    Fine,
    Empty,
    BadBracketing,
    DanglingQuantifier,
    UnbalancedBrackets,
}

/// Runs the bracket and quantifier counters over the windows `(s[i-1], s[i])`
/// for `i, i+1, ...`, with `left`/`right` open and close bracket counts seen
/// so far and `lastq` recording whether the previous window ended in an
/// unescaped quantifier.
pub open spec fn spec_check_from(
    s: Seq<char>,
    i: int,
    left: int,
    right: int,
    lastq: bool,
) -> PatternCheck
    decreases s.len() - i,
{
    if i < 1 || i >= s.len() {
        if right != left {
            PatternCheck::UnbalancedBrackets
        } else {
            PatternCheck::Fine
        }
    } else {
        let prev = s[i - 1];
        let cur = s[i];
        if (cur == '*' || cur == '+') && prev != '\\' && lastq {
            PatternCheck::DanglingQuantifier
        } else {
            let left2 = if cur == '(' && prev != '\\' {
                left + 1
            } else {
                left
            };
            let right2 = if cur == ')' && prev != '\\' {
                right + 1
            } else {
                right
            };
            let lastq2 = (cur == '*' || cur == '+') && prev != '\\';
            if right2 > left2 {
                PatternCheck::BadBracketing
            } else {
                spec_check_from(s, i + 1, left2, right2, lastq2)
            }
        }
    }
}

/// The structural validity of a whole pattern: non-empty, brackets balanced
/// and never over-closed — so a pattern opening with `)` is invalid however
/// short it is — and no unescaped quantifier applied to another quantifier.
pub open spec fn spec_check(s: Seq<char>) -> PatternCheck {
    if s.len() == 0 {
        PatternCheck::Empty
    } else if s[0] == '(' {
        spec_check_from(s, 1, 1, 0, false)
    } else if s[0] == ')' {
        PatternCheck::BadBracketing
    } else {
        spec_check_from(s, 1, 0, 0, false)
    }
}

/// The error message reported for each failed structural check.
pub open spec fn spec_check_msg(c: PatternCheck) -> Seq<char> {
    match c {
        PatternCheck::Fine => Seq::empty(),
        PatternCheck::Empty => "No regex"@,
        PatternCheck::BadBracketing => "invalid bracketing"@,
        PatternCheck::DanglingQuantifier => "nothing to quantify"@,
        PatternCheck::UnbalancedBrackets => "mismatched number of brackets"@,
    }
}

/// Checks that a pattern is well formed before any state is built, so that no
/// partial automaton is ever constructed for invalid input.
fn check_valid_regex(chars: &Vec<char>) -> (r: Result<(), &'static str>)
    ensures
        r is Ok <==> spec_check(chars@) is Fine,
        r matches Err(m) ==> m@ == spec_check_msg(spec_check(chars@)),
{
    let count = chars.len();
    if count == 0 {
        return Err("No regex");
    }
    let mut last_was_quantifier = false;
    let mut left_bracket_count: usize = 0;
    let mut right_bracket_count: usize = 0;

    if chars[0] == '(' {
        left_bracket_count = 1;
    } else if chars[0] == ')' {
        return Err("invalid bracketing");
    }

    let mut i: usize = 1;
    while i < count
        invariant
            1 <= i <= count,
            count == chars@.len(),
            left_bracket_count <= i,
            right_bracket_count <= left_bracket_count,
            spec_check(chars@) == spec_check_from(
                chars@,
                i as int,
                left_bracket_count as int,
                right_bracket_count as int,
                last_was_quantifier,
            ),
        decreases count - i,
    {
        let fst = chars[i - 1];
        let snd = chars[i];
        if (snd == '*' || snd == '+') && fst != '\\' {
            if last_was_quantifier {
                return Err("nothing to quantify");
            }
            last_was_quantifier = true;
        } else {
            if snd == '(' && fst != '\\' {
                left_bracket_count = left_bracket_count + 1;
            } else if snd == ')' && fst != '\\' {
                right_bracket_count = right_bracket_count + 1;
            }
            last_was_quantifier = false;
        }
        if right_bracket_count > left_bracket_count {
            return Err("invalid bracketing");
        }
        i = i + 1;
    }
    if right_bracket_count != left_bracket_count {
        return Err("mismatched number of brackets");
    }
    Ok(())
}

// ---------------------------------------------------------------------------
// Mathematical model of construction
//
// The parser is modelled by one spec function per grammar production. Each
// takes the pattern, the current position, the states built so far and the
// next unused state id, and yields the grown automaton, the new position and
// the new next id — or nothing, when the pattern cannot be parsed. The
// executable parser is proved to return exactly what the model describes.
// ---------------------------------------------------------------------------

/// A literal state: consumes `c`, then moves to `target`.
pub open spec fn spec_lit_state(id: u32, c: char, target: u32) -> State {
    State { id, machine_type: StateType::Literal(c), branch: Branch::StateId(target) }
}

/// A branching state: consumes nothing and moves to `branch_1` or `branch_2`.
pub open spec fn spec_branch_state(id: u32, branch_1: u32, branch_2: u32) -> State {
    State {
        id,
        machine_type: StateType::Branching(Branch::StateId(branch_2)),
        branch: Branch::StateId(branch_1),
    }
}

/// Moves an edge up by one position.
pub open spec fn spec_incr_edge(b: Branch) -> Branch {
    match b {
        Branch::StateId(l) => Branch::StateId((l + 1) as u32),
        Branch::Finish => Branch::Finish,
    }
}

/// Moves a state and all its edges up by one position.
pub open spec fn spec_incr_state(x: State) -> State {
    State {
        id: (x.id + 1) as u32,
        machine_type: match x.machine_type {
            StateType::Branching(br) => StateType::Branching(spec_incr_edge(br)),
            m => m,
        },
        branch: spec_incr_edge(x.branch),
    }
}

/// Renumbering applied to each state when a `*` branch is spliced in before a
/// parenthesized group starting at `g`: states at or past `g` move up by one,
/// and any moved edge — the shared `branch` or a branching state's second
/// edge alike — that now points at the new end `fin` is bent back to the
/// branch state at `g`, closing the repetition loop.
pub open spec fn spec_star_shift(x: State, g: u32, fin: u32) -> State {
    if x.id >= g {
        let y = spec_incr_state(x);
        State {
            id: y.id,
            machine_type: match y.machine_type {
                StateType::Branching(Branch::StateId(l)) => if l == fin {
                    StateType::Branching(Branch::StateId(g))
                } else {
                    y.machine_type
                },
                m => m,
            },
            branch: if y.branch == Branch::StateId(fin) {
                Branch::StateId(g)
            } else {
                y.branch
            },
        }
    } else {
        x
    }
}

/// The cheap `*` path for a single literal that is not yet appended: the
/// literal itself moves after the new branch state at `g` and loops back to
/// it.
pub open spec fn spec_star_single(x: State, new_id: u32, g: u32) -> State {
    match x.machine_type {
        StateType::Literal(_) => State {
            id: new_id,
            machine_type: x.machine_type,
            branch: Branch::StateId(g),
        },
        _ => x,
    }
}

/// Edge renumbering for alternation splicing: an edge that pointed at the end
/// of the left alternative (`looped`) is redirected to the combined end
/// (`result + 1`); every other edge moves up by one.
pub open spec fn spec_alt_edge(b: Branch, looped: u32, result: u32) -> Branch {
    match b {
        Branch::StateId(l) => if l == looped {
            Branch::StateId((result + 1) as u32)
        } else {
            Branch::StateId((l + 1) as u32)
        },
        Branch::Finish => Branch::Finish,
    }
}

/// State renumbering for alternation splicing, applied to states at or past
/// the start `g` of the alternation.
pub open spec fn spec_alt_shift(x: State, g: u32, looped: u32, result: u32) -> State {
    if x.id >= g {
        State {
            id: (x.id + 1) as u32,
            machine_type: match x.machine_type {
                StateType::Branching(br) => StateType::Branching(
                    spec_alt_edge(br, looped, result),
                ),
                m => m,
            },
            branch: spec_alt_edge(x.branch, looped, result),
        }
    } else {
        x
    }
}

/// Model of `base`: a literal, an escaped literal, or a parenthesized group.
/// Yields the pending literal state (not yet appended), the automaton, the
/// new position, the id one past the construct, and the id of the construct's
/// first state (absent for a bare `)`, which is left for the caller).
pub open spec fn spec_base(s: Seq<char>, pos: int, states: Seq<State>, next: u32) -> Option<
    (Option<State>, Seq<State>, int, u32, Option<u32>),
>
    decreases s.len() - pos, 0int,
{
    if pos < 0 || pos >= s.len() {
        None
    } else if s[pos] == '(' {
        match spec_regex(s, pos + 1, states, next) {
            Some((st2, pos2, next2)) => if pos2 < s.len() && s[pos2] == ')' {
                Some((None, st2, pos2 + 1, next2, Some(next)))
            } else {
                None
            },
            None => None,
        }
    } else if s[pos] == ')' {
        Some((None, states, pos, next, None))
    } else if s[pos] == '\\' {
        if pos + 1 < s.len() {
            Some(
                (
                    Some(spec_lit_state(next, s[pos + 1], (next + 1) as u32)),
                    states,
                    pos + 2,
                    (next + 1) as u32,
                    Some(next),
                ),
            )
        } else {
            None
        }
    } else {
        Some(
            (
                Some(spec_lit_state(next, s[pos], (next + 1) as u32)),
                states,
                pos + 1,
                (next + 1) as u32,
                Some(next),
            ),
        )
    }
}

/// Model of `factor`: a `base` optionally followed by `*` or `+`. For `*` a
/// branch state is spliced in before the construct; for `+` it is appended
/// after the construct, looping back to its start.
pub open spec fn spec_factor(s: Seq<char>, pos: int, states: Seq<State>, next: u32) -> Option<
    (Seq<State>, int, u32),
>
    decreases s.len() - pos, 1int,
{
    match spec_base(s, pos, states, next) {
        None => None,
        Some((cur, st2, pos2, tn, tg)) => if 0 <= pos2 < s.len() && s[pos2] == '*' {
            match tg {
                None => None,
                Some(g) => {
                    let fin = (tn + 1) as u32;
                    let st3 = match cur {
                        Some(x) => st2.push(spec_star_single(x, tn, g)),
                        None => st2.map_values(|x: State| spec_star_shift(x, g, fin)),
                    };
                    Some((st3.push(spec_branch_state(g, (g + 1) as u32, fin)), pos2 + 1, fin))
                },
            }
        } else if 0 <= pos2 < s.len() && s[pos2] == '+' {
            match tg {
                None => None,
                Some(g) => {
                    let st3 = match cur {
                        Some(x) => st2.push(x),
                        None => st2,
                    };
                    Some(
                        (
                            st3.push(spec_branch_state(tn, g, (tn + 1) as u32)),
                            pos2 + 1,
                            (tn + 1) as u32,
                        ),
                    )
                },
            }
        } else {
            let st3 = match cur {
                Some(x) => st2.push(x),
                None => st2,
            };
            Some((st3, pos2, tn))
        },
    }
}

/// Model of the factor loop inside `term`: factors are consumed until the
/// input ends or an alternation or closing bracket begins.
pub open spec fn spec_term_tail(s: Seq<char>, pos: int, states: Seq<State>, next: u32) -> Option<
    (Seq<State>, int, u32),
>
    decreases s.len() - pos, 2int,
{
    if 0 <= pos < s.len() && s[pos] != '|' && s[pos] != ')' {
        match spec_factor(s, pos, states, next) {
            None => None,
            Some((st2, pos2, next2)) => if pos2 <= pos || pos2 > s.len() {
                None
            } else {
                spec_term_tail(s, pos2, st2, next2)
            },
        }
    } else {
        Some((states, pos, next))
    }
}

/// Model of `term`: a possibly empty run of factors; a term may not begin
/// with `|`.
pub open spec fn spec_term(s: Seq<char>, pos: int, states: Seq<State>, next: u32) -> Option<
    (Seq<State>, int, u32),
>
    decreases s.len() - pos, 3int,
{
    if 0 <= pos < s.len() && s[pos] == '|' {
        None
    } else if pos >= s.len() {
        Some((states, pos, next))
    } else {
        match spec_factor(s, pos, states, next) {
            None => None,
            Some((st2, pos2, next2)) => if pos2 < pos || pos2 > s.len() {
                None
            } else {
                spec_term_tail(s, pos2, st2, next2)
            },
        }
    }
}

/// Model of the alternation loop inside `regex`: for each further `|`-term, a
/// branch state is spliced in at the alternation start `g` and the right
/// alternative is renumbered past it.
pub open spec fn spec_regex_tail(
    s: Seq<char>,
    pos: int,
    states: Seq<State>,
    next: u32,
    g: u32,
) -> Option<(Seq<State>, int, u32)>
    decreases s.len() - pos, 4int,
{
    if 0 <= pos < s.len() && s[pos] == '|' {
        match spec_term(s, pos + 1, states, next) {
            None => None,
            Some((st2, pos2, next2)) => if pos2 <= pos || pos2 > s.len() {
                None
            } else {
                let shifted = st2.map_values(|x: State| spec_alt_shift(x, g, next, next2));
                spec_regex_tail(
                    s,
                    pos2,
                    shifted.push(spec_branch_state(g, (g + 1) as u32, (next + 1) as u32)),
                    (next2 + 1) as u32,
                    g,
                )
            },
        }
    } else {
        Some((states, pos, next))
    }
}

/// Model of `regex`: a term followed by any number of `|`-terms.
pub open spec fn spec_regex(s: Seq<char>, pos: int, states: Seq<State>, next: u32) -> Option<
    (Seq<State>, int, u32),
>
    decreases s.len() - pos, 5int,
{
    match spec_term(s, pos, states, next) {
        None => None,
        Some((st, p, n)) => if p < pos || p > s.len() {
            None
        } else {
            spec_regex_tail(s, p, st, n, next)
        },
    }
}

/// Index of the first state in `v` carrying id `k`.
pub open spec fn spec_find_id(v: Seq<State>, k: u32) -> int
    decreases v.len(),
{
    if v.len() == 0 {
        0
    } else if v[0].id == k {
        0
    } else {
        1 + spec_find_id(v.drop_first(), k)
    }
}

/// The automaton reordered so that the state with id `k` sits at position
/// `k`.
pub open spec fn spec_sorted_by_id(v: Seq<State>) -> Seq<State> {
    Seq::new(v.len(), |k: int| v[spec_find_id(v, k as u32)])
}

/// An edge equal to the automaton's final id becomes the `Finish` sentinel.
pub open spec fn spec_final_edge(b: Branch, fin: u32) -> Branch {
    match b {
        Branch::StateId(l) => if l == fin {
            Branch::Finish
        } else {
            b
        },
        Branch::Finish => b,
    }
}

/// Rewrites both edges of a state for the final id `fin`.
pub open spec fn spec_finalize(x: State, fin: u32) -> State {
    State {
        id: x.id,
        machine_type: match x.machine_type {
            StateType::Branching(br) => StateType::Branching(spec_final_edge(br, fin)),
            m => m,
        },
        branch: spec_final_edge(x.branch, fin),
    }
}

/// The complete model of `parse`: validate, run the recursive descent from
/// position 0 with an empty automaton, order states by id, and resolve edges
/// at the final id into `Finish`.
pub open spec fn spec_parse(s: Seq<char>) -> Option<Seq<State>> {
    if !(spec_check(s) is Fine) {
        None
    } else {
        match spec_regex(s, 0, Seq::empty(), 0) {
            None => None,
            Some((st, p, n)) => Some(
                spec_sorted_by_id(st).map_values(|x: State| spec_finalize(x, n)),
            ),
        }
    }
}

// ---------------------------------------------------------------------------
// Well-formedness
// ---------------------------------------------------------------------------

/// An edge of a finished automaton of `n` states: a valid state id or
/// `Finish`.
pub open spec fn edge_wf(b: Branch, n: int) -> bool {
    match b {
        Branch::StateId(l) => l < n,
        Branch::Finish => true,
    }
}

/// Both edges of a state stay inside an automaton of `n` states.
pub open spec fn state_wf(x: State, n: int) -> bool {
    edge_wf(x.branch, n) && match x.machine_type {
        StateType::Branching(br) => edge_wf(br, n),
        StateType::Literal(_) => true,
    }
}

/// A finished automaton is well formed when every state's id equals its
/// position — so ids are exactly the contiguous range `0 .. len` — and every
/// edge points inside the automaton or at `Finish`.
pub open spec fn nfa_wf(v: Seq<State>) -> bool {
    forall|i: int|
        0 <= i < v.len() ==> (#[trigger] v[i]).id == i && state_wf(v[i], v.len() as int)
}

/// An edge under construction: ids as large as `n` are allowed, because the
/// final id is only resolved into `Finish` after the whole pattern is parsed.
pub open spec fn edge_le(b: Branch, n: u32) -> bool {
    match b {
        Branch::StateId(l) => l <= n,
        Branch::Finish => true,
    }
}

/// Both edges of a state under construction are bounded by `n`.
pub open spec fn state_le(x: State, n: u32) -> bool {
    edge_le(x.branch, n) && match x.machine_type {
        StateType::Branching(br) => edge_le(br, n),
        StateType::Literal(_) => true,
    }
}

/// No two states under construction share an id.
pub open spec fn ids_distinct(v: Seq<State>) -> bool {
    forall|i: int, j: int| 0 <= i < j < v.len() ==> v[i].id != v[j].id
}

/// The invariant of the automaton while it is being built: one state per id
/// in `0 .. next`, and every edge bounded by `next` (the future end of the
/// construct, later either shifted or resolved into `Finish`).
pub open spec fn building_wf(v: Seq<State>, next: u32) -> bool {
    &&& v.len() == next
    &&& ids_distinct(v)
    &&& forall|i: int|
        0 <= i < v.len() ==> (#[trigger] v[i]).id < next && state_le(v[i], next)
}

// ---------------------------------------------------------------------------
// Executable construction
// ---------------------------------------------------------------------------

/// State machine creation methods. A freshly created machine never carries
/// `Finish`: the accepting edge is only resolved once the whole pattern is
/// parsed and the final id is known.
impl State {
    /// Creates a machine that matches a literal and then branches on.
    fn new_literal_machine(id: u32, lit: char, branch: u32) -> (r: State)
        ensures
            r == spec_lit_state(id, lit, branch),
    {
        State { id, machine_type: StateType::Literal(lit), branch: Branch::StateId(branch) }
    }

    /// Creates a machine that can branch two ways without consuming input.
    fn new_branching_machine(id: u32, branch_1: u32, branch_2: u32) -> (r: State)
        ensures
            r == spec_branch_state(id, branch_1, branch_2),
    {
        State {
            id,
            machine_type: StateType::Branching(Branch::StateId(branch_2)),
            branch: Branch::StateId(branch_1),
        }
    }

    /// Rewrites edges pointing at the automaton's final id into `Finish`.
    fn change_state_id_to_final(&mut self, final_state_id: u32)
        ensures
            *final(self) == spec_finalize(*old(self), final_state_id),
    {
        if let Branch::StateId(l) = self.branch {
            if l == final_state_id {
                self.branch = Branch::Finish;
            }
        }
        if let StateType::Branching(br) = self.machine_type {
            if let Branch::StateId(l) = br {
                if l == final_state_id {
                    self.machine_type = StateType::Branching(Branch::Finish);
                }
            }
        }
    }

    /// Moves this state and its edges up by one position.
    fn increment_states(&mut self)
        requires
            old(self).id < 0xFFFF_FFFFu32,
            state_le(*old(self), 0xFFFF_FFFEu32),
        ensures
            *final(self) == spec_incr_state(*old(self)),
    {
        self.id = self.id + 1;
        if let Branch::StateId(l) = self.branch {
            self.branch = Branch::StateId(l + 1);
        }
        if let StateType::Branching(br) = self.machine_type {
            if let Branch::StateId(l) = br {
                self.machine_type = StateType::Branching(Branch::StateId(l + 1));
            }
        }
    }
}

/// Collects the characters of a pattern into a vector, so that the parser can
/// address positions directly.
pub(crate) fn str_chars(s: &str) -> (r: Vec<char>)
    ensures
        r@ == s@,
{
    let n = s.unicode_len();
    let mut v: Vec<char> = Vec::new();
    let mut i: usize = 0;
    while i < n
        invariant
            i <= n,
            n == s@.len(),
            v@ == s@.take(i as int),
        decreases n - i,
    {
        let c = s.get_char(i);
        v.push(c);
        i = i + 1;
        proof {
            assert(v@ =~= s@.take(i as int));
        }
    }
    proof {
        assert(s@.take(n as int) =~= s@);
    }
    v
}

/// Relates an executable parse step to the model's.
pub open spec fn step_rel(r: Option<(Vec<State>, usize, u32)>, m: Option<(Seq<State>, int, u32)>) -> bool {
    match (r, m) {
        (Some((st1, p1, n1)), Some((st2, p2, n2))) => st1@ == st2 && p1 == p2 && n1 == n2,
        (None, None) => true,
        _ => false,
    }
}

/// Relates an executable `base` step to the model's.
pub open spec fn base_rel(
    r: Option<(Option<State>, Vec<State>, usize, u32, Option<u32>)>,
    m: Option<(Option<State>, Seq<State>, int, u32, Option<u32>)>,
) -> bool {
    match (r, m) {
        (Some((c1, st1, p1, n1, g1)), Some((c2, st2, p2, n2, g2))) => c1 == c2 && st1@ == st2
            && p1 == p2 && n1 == n2 && g1 == g2,
        (None, None) => true,
        _ => false,
    }
}

/// Parses a single literal, an escaped literal, or a parenthesized group.
///
/// A fresh literal state is handed back separately, not yet appended, because
/// a following quantifier may still rewrite it. The returned ids are the one
/// past the construct and the construct's first state (absent when the next
/// character is a bare `)`, which is left for the enclosing group).
fn base(chars: &Vec<char>, pos: usize, states: Vec<State>, next_state_id: u32) -> (r: Option<
    (Option<State>, Vec<State>, usize, u32, Option<u32>),
>)
    requires
        pos <= chars@.len(),
        chars@.len() <= 0x4000_0000,
        building_wf(states@, next_state_id),
        next_state_id as int <= 2 * pos,
    ensures
        base_rel(r, spec_base(chars@, pos as int, states@, next_state_id)),
        r matches Some((cur, st, p, n, g)) ==> {
            &&& pos <= p <= chars@.len()
            &&& next_state_id <= n
            &&& n as int <= next_state_id as int + 2 * (p - pos)
            &&& (chars@[pos as int] != ')' ==> p > pos)
            &&& match g {
                Some(gv) => gv == next_state_id,
                None => p == pos && n == next_state_id && cur is None && st@ == states@,
            }
            &&& match cur {
                Some(x) => st@ == states@ && n == next_state_id + 1 && x.id == next_state_id
                    && x.branch == Branch::StateId(n) && x.machine_type is Literal,
                None => building_wf(st@, n),
            }
        },
    decreases chars@.len() - pos, 0int,
{
    if pos >= chars.len() {
        return None;
    }
    let next_char = chars[pos];
    if next_char == '(' {
        match regex(chars, pos + 1, states, next_state_id) {
            Some((result_states, result_pos, result_next)) => {
                if result_pos < chars.len() && chars[result_pos] == ')' {
                    Some((None, result_states, result_pos + 1, result_next, Some(next_state_id)))
                } else {
                    None
                }
            },
            None => None,
        }
    } else if next_char == ')' {
        Some((None, states, pos, next_state_id, None))
    } else if next_char == '\\' {
        if pos + 1 < chars.len() {
            let escaped_char = chars[pos + 1];
            let branched_to_id = next_state_id + 1;
            let nstate = State::new_literal_machine(next_state_id, escaped_char, branched_to_id);
            Some((Some(nstate), states, pos + 2, branched_to_id, Some(next_state_id)))
        } else {
            None
        }
    } else {
        let branched_to_id = next_state_id + 1;
        let nstate = State::new_literal_machine(next_state_id, next_char, branched_to_id);
        Some((Some(nstate), states, pos + 1, branched_to_id, Some(next_state_id)))
    }
}

/// Parses a factor: a `base` optionally followed by `*` or `+`.
///
/// For `*` a new branching state is spliced in before the construct so that
/// zero repetitions are possible: a single pending literal is simply
/// rewritten to sit after the branch and loop back to it, while a
/// parenthesized group forces a renumbering pass over every state at or past
/// the group start. For `+` the branching state is appended after the
/// construct, looping back to its start.
fn factor(chars: &Vec<char>, pos: usize, states: Vec<State>, next_state_id: u32) -> (r: Option<
    (Vec<State>, usize, u32),
>)
    requires
        pos <= chars@.len(),
        chars@.len() <= 0x4000_0000,
        building_wf(states@, next_state_id),
        next_state_id as int <= 2 * pos,
    ensures
        step_rel(r, spec_factor(chars@, pos as int, states@, next_state_id)),
        r matches Some((st, p, n)) ==> {
            &&& pos <= p <= chars@.len()
            &&& next_state_id <= n
            &&& n as int <= next_state_id as int + 2 * (p - pos)
            &&& (chars@[pos as int] != ')' ==> p > pos)
            &&& building_wf(st@, n)
        },
    decreases chars@.len() - pos, 1int,
{
    match base(chars, pos, states, next_state_id) {
        None => None,
        Some((result_current_state, result_states, result_pos, result_next, result_group)) => {
            let ghost base_states = result_states@;
            let mut result_states = result_states;
            if result_pos < chars.len() && chars[result_pos] == '*' {
                match result_group {
                    None => None,
                    Some(group_start_id) => {
                        let final_state_id = result_next + 1;
                        let new_branch = State::new_branching_machine(
                            group_start_id,
                            group_start_id + 1,
                            final_state_id,
                        );
                        match result_current_state {
                            Some(nstate) => {
                                // A bare literal: move it after the new branch
                                // state and loop it back, no renumbering pass.
                                let mut nstate = nstate;
                                if let StateType::Literal(_) = nstate.machine_type {
                                    nstate.id = result_next;
                                    nstate.branch = Branch::StateId(group_start_id);
                                }
                                result_states.push(nstate);
                            },
                            None => {
                                // A group: renumber every state at or past the
                                // group start to make room for the branch.
                                let ghost orig = result_states@;
                                let mut k: usize = 0;
                                while k < result_states.len()
                                    invariant
                                        k <= orig.len(),
                                        result_states@.len() == orig.len(),
                                        forall|i: int|
                                            k <= i < orig.len() ==> result_states@[i] == orig[i],
                                        forall|i: int|
                                            0 <= i < k ==> result_states@[i] == spec_star_shift(
                                                orig[i],
                                                group_start_id,
                                                final_state_id,
                                            ),
                                        building_wf(orig, result_next),
                                        result_next < 0xFFFF_FFFFu32,
                                    decreases orig.len() - k,
                                {
                                    if result_states[k].id >= group_start_id {
                                        let mut res = result_states[k];
                                        res.increment_states();
                                        if let Branch::StateId(nn) = res.branch {
                                            if nn == final_state_id {
                                                res.branch = Branch::StateId(group_start_id);
                                            }
                                        }
                                        if let StateType::Branching(br) = res.machine_type {
                                            if let Branch::StateId(nn) = br {
                                                if nn == final_state_id {
                                                    res.machine_type = StateType::Branching(
                                                        Branch::StateId(group_start_id),
                                                    );
                                                }
                                            }
                                        }
                                        result_states.set(k, res);
                                    }
                                    k = k + 1;
                                }
                                proof {
                                    assert(result_states@ =~= orig.map_values(
                                        |x: State|
                                            spec_star_shift(x, group_start_id, final_state_id),
                                    ));
                                }
                            },
                        }
                        result_states.push(new_branch);
                        proof {
                            lemma_star_splice_wf(
                                result_current_state,
                                base_states,
                                result_states@,
                                next_state_id,
                                group_start_id,
                                result_next,
                                final_state_id,
                            );
                        }
                        Some((result_states, result_pos + 1, final_state_id))
                    },
                }
            } else if result_pos < chars.len() && chars[result_pos] == '+' {
                match result_group {
                    None => None,
                    Some(group_start_id) => {
                        let new_branch = State::new_branching_machine(
                            result_next,
                            group_start_id,
                            result_next + 1,
                        );
                        if let Some(nstate) = result_current_state {
                            result_states.push(nstate);
                        }
                        result_states.push(new_branch);
                        Some((result_states, result_pos + 1, result_next + 1))
                    },
                }
            } else {
                if let Some(nstate) = result_current_state {
                    result_states.push(nstate);
                }
                Some((result_states, result_pos, result_next))
            }
        },
    }
}

#[verifier::loop_isolation(false)]
/// Parses a term: a run of factors ending at the input's end, an alternation
/// bar, or a closing bracket. A term may not begin with `|`.
fn term(chars: &Vec<char>, pos: usize, states: Vec<State>, next_state_id: u32) -> (r: Option<
    (Vec<State>, usize, u32),
>)
    requires
        pos <= chars@.len(),
        chars@.len() <= 0x4000_0000,
        building_wf(states@, next_state_id),
        next_state_id as int <= 2 * pos,
    ensures
        step_rel(r, spec_term(chars@, pos as int, states@, next_state_id)),
        r matches Some((st, p, n)) ==> {
            &&& pos <= p <= chars@.len()
            &&& next_state_id <= n
            &&& n as int <= next_state_id as int + 2 * (p - pos)
            &&& building_wf(st@, n)
        },
    decreases chars@.len() - pos, 2int,
{
    let ghost states0 = states@;
    if pos < chars.len() && chars[pos] == '|' {
        return None;
    }
    if pos >= chars.len() {
        return Some((states, pos, next_state_id));
    }
    match factor(chars, pos, states, next_state_id) {
        None => None,
        Some((st0, p0, n0)) => {
            let mut looped_states = st0;
            let mut looped_pos = p0;
            let mut looped_next = n0;
            while looped_pos < chars.len() && chars[looped_pos] != '|' && chars[looped_pos] != ')'
                invariant
                    pos <= looped_pos <= chars@.len(),
                    chars@.len() <= 0x4000_0000,
                    building_wf(looped_states@, looped_next),
                    next_state_id <= looped_next,
                    looped_next as int <= next_state_id as int + 2 * (looped_pos - pos),
                    next_state_id as int <= 2 * pos,
                    spec_term(chars@, pos as int, states0, next_state_id) == spec_term_tail(
                        chars@,
                        looped_pos as int,
                        looped_states@,
                        looped_next,
                    ),
                decreases chars@.len() - looped_pos,
            {
                let ghost pre_states = looped_states@;
                let ghost pre_pos = looped_pos as int;
                let ghost pre_next = looped_next;
                match factor(chars, looped_pos, looped_states, looped_next) {
                    None => {
                        proof {
                            assert(spec_term_tail(chars@, pre_pos, pre_states, pre_next)
                                is None);
                        }
                        return None;
                    },
                    Some((result_states, result_pos, result_next)) => {
                        looped_states = result_states;
                        looped_pos = result_pos;
                        looped_next = result_next;
                        proof {
                            assert(spec_term_tail(chars@, pre_pos, pre_states, pre_next)
                                == spec_term_tail(
                                chars@,
                                looped_pos as int,
                                looped_states@,
                                looped_next,
                            ));
                        }
                    },
                }
            }
            Some((looped_states, looped_pos, looped_next))
        },
    }
}

#[verifier::loop_isolation(false)]
/// Parses a whole alternation: a term followed by any number of `|`-terms.
///
/// For each further alternative one branching state is spliced in at the
/// alternation's start, pointing at the two alternatives, and every state of
/// the right alternative (and beyond) is renumbered up by one, with edges at
/// the left alternative's old end remapped to the combined end.
fn regex(chars: &Vec<char>, pos: usize, states: Vec<State>, next_state_id: u32) -> (r: Option<
    (Vec<State>, usize, u32),
>)
    requires
        pos <= chars@.len(),
        chars@.len() <= 0x4000_0000,
        building_wf(states@, next_state_id),
        next_state_id as int <= 2 * pos,
    ensures
        step_rel(r, spec_regex(chars@, pos as int, states@, next_state_id)),
        r matches Some((st, p, n)) ==> {
            &&& pos <= p <= chars@.len()
            &&& next_state_id <= n
            &&& n as int <= next_state_id as int + 2 * (p - pos)
            &&& building_wf(st@, n)
        },
    decreases chars@.len() - pos, 3int,
{
    let ghost states0 = states@;
    let group_start_id = next_state_id;
    match term(chars, pos, states, next_state_id) {
        None => None,
        Some((st0, p0, n0)) => {
            let mut looped_states = st0;
            let mut looped_pos = p0;
            let mut looped_next = n0;
            while looped_pos < chars.len() && chars[looped_pos] == '|'
                invariant
                    pos <= looped_pos <= chars@.len(),
                    chars@.len() <= 0x4000_0000,
                    building_wf(looped_states@, looped_next),
                    next_state_id <= looped_next,
                    looped_next as int <= next_state_id as int + 2 * (looped_pos - pos),
                    next_state_id as int <= 2 * pos,
                    group_start_id == next_state_id,
                    spec_regex(chars@, pos as int, states0, next_state_id) == spec_regex_tail(
                        chars@,
                        looped_pos as int,
                        looped_states@,
                        looped_next,
                        group_start_id,
                    ),
                decreases chars@.len() - looped_pos,
            {
                let ghost looped0 = looped_next;
                let ghost pre_states = looped_states@;
                let ghost pre_pos = looped_pos as int;
                match term(chars, looped_pos + 1, looped_states, looped_next) {
                    None => {
                        proof {
                            assert(spec_regex_tail(
                                chars@,
                                pre_pos,
                                pre_states,
                                looped0,
                                group_start_id,
                            ) is None);
                        }
                        return None;
                    },
                    Some((result_states, result_pos, result_next)) => {
                        let new_branch = State::new_branching_machine(
                            group_start_id,
                            group_start_id + 1,
                            looped_next + 1,
                        );
                        // The new branch sits before the right alternative:
                        // renumber everything at or past the alternation
                        // start, rejoining edges at the left alternative's
                        // end to the combined end.
                        let ghost orig = result_states@;
                        let mut new_states = result_states;
                        let mut k: usize = 0;
                        while k < new_states.len()
                            invariant
                                k <= orig.len(),
                                new_states@.len() == orig.len(),
                                forall|i: int| k <= i < orig.len() ==> new_states@[i] == orig[i],
                                forall|i: int|
                                    0 <= i < k ==> new_states@[i] == spec_alt_shift(
                                        orig[i],
                                        group_start_id,
                                        looped0,
                                        result_next,
                                    ),
                                looped0 == looped_next,
                                building_wf(orig, result_next),
                                result_next < 0xFFFF_FFFFu32,
                            decreases orig.len() - k,
                        {
                            if new_states[k].id >= group_start_id {
                                let mut t = new_states[k];
                                t.id = t.id + 1;
                                if let Branch::StateId(l) = t.branch {
                                    if l == looped_next {
                                        t.branch = Branch::StateId(result_next + 1);
                                    } else {
                                        t.branch = Branch::StateId(l + 1);
                                    }
                                }
                                if let StateType::Branching(br) = t.machine_type {
                                    if let Branch::StateId(l) = br {
                                        if l == looped_next {
                                            t.machine_type = StateType::Branching(
                                                Branch::StateId(result_next + 1),
                                            );
                                        } else {
                                            t.machine_type = StateType::Branching(
                                                Branch::StateId(l + 1),
                                            );
                                        }
                                    }
                                }
                                new_states.set(k, t);
                            }
                            k = k + 1;
                        }
                        proof {
                            assert(new_states@ =~= orig.map_values(
                                |x: State|
                                    spec_alt_shift(x, group_start_id, looped0, result_next),
                            ));
                        }
                        new_states.push(new_branch);
                        proof {
                            lemma_alt_splice_wf(
                                orig,
                                new_states@,
                                group_start_id,
                                looped0,
                                result_next,
                            );
                        }
                        looped_states = new_states;
                        looped_pos = result_pos;
                        looped_next = result_next + 1;
                    },
                }
            }
            Some((looped_states, looped_pos, looped_next))
        },
    }
}

/// The renumbering pass of `*` splicing preserves the construction
/// invariant.
proof fn lemma_star_splice_wf(
    cur: Option<State>,
    before: Seq<State>,
    after: Seq<State>,
    next0: u32,
    g: u32,
    tn: u32,
    fin: u32,
)
    requires
        fin == tn + 1,
        next0 <= g <= tn,
        tn < 0xFFFF_FFFFu32,
        match cur {
            Some(x) => {
                &&& building_wf(before, next0)
                &&& g == next0
                &&& tn == next0 + 1
                &&& after == before.push(spec_star_single(x, tn, g)).push(
                    spec_branch_state(g, (g + 1) as u32, fin),
                )
                &&& x.id == next0
                &&& x.branch == Branch::StateId(tn)
                &&& x.machine_type is Literal
            },
            None => {
                &&& building_wf(before, tn)
                &&& after == before.map_values(|x: State| spec_star_shift(x, g, fin)).push(
                    spec_branch_state(g, (g + 1) as u32, fin),
                )
            },
        },
    ensures
        building_wf(after, fin),
{
    match cur {
        Some(x) => {
            assert forall|i: int, j: int| 0 <= i < j < after.len() implies after[i].id
                != after[j].id by {}
        },
        None => {
            let shifted = before.map_values(|x: State| spec_star_shift(x, g, fin));
            assert forall|i: int| 0 <= i < after.len() implies (#[trigger] after[i]).id < fin
                && state_le(after[i], fin) by {
                if i < before.len() {
                    assert(after[i] == spec_star_shift(before[i], g, fin));
                }
            }
            assert forall|i: int, j: int| 0 <= i < j < after.len() implies after[i].id
                != after[j].id by {
                if j < before.len() {
                    assert(after[i] == spec_star_shift(before[i], g, fin));
                    assert(after[j] == spec_star_shift(before[j], g, fin));
                } else if i < before.len() {
                    assert(after[i] == spec_star_shift(before[i], g, fin));
                }
            }
        },
    }
}

/// The renumbering pass of alternation splicing preserves the construction
/// invariant.
proof fn lemma_alt_splice_wf(before: Seq<State>, after: Seq<State>, g: u32, looped: u32, rn: u32)
    requires
        building_wf(before, rn),
        g <= looped <= rn,
        rn < 0xFFFF_FFFFu32,
        after == before.map_values(|x: State| spec_alt_shift(x, g, looped, rn)).push(
            spec_branch_state(g, (g + 1) as u32, (looped + 1) as u32),
        ),
    ensures
        building_wf(after, (rn + 1) as u32),
{
    assert forall|i: int| 0 <= i < after.len() implies (#[trigger] after[i]).id < rn + 1
        && state_le(after[i], (rn + 1) as u32) by {
        if i < before.len() {
            assert(after[i] == spec_alt_shift(before[i], g, looped, rn));
        }
    }
    assert forall|i: int, j: int| 0 <= i < j < after.len() implies after[i].id != after[j].id by {
        if j < before.len() {
            assert(after[i] == spec_alt_shift(before[i], g, looped, rn));
            assert(after[j] == spec_alt_shift(before[j], g, looped, rn));
        } else if i < before.len() {
            assert(after[i] == spec_alt_shift(before[i], g, looped, rn));
        }
    }
}

/// The first occurrence of id `k` is found within bounds whenever some state
/// carries that id, and nothing before it carries it.
proof fn lemma_find_id(v: Seq<State>, k: u32)
    requires
        exists|i: int| 0 <= i < v.len() && v[i].id == k,
    ensures
        0 <= spec_find_id(v, k) < v.len(),
        v[spec_find_id(v, k)].id == k,
        forall|m: int| 0 <= m < spec_find_id(v, k) ==> v[m].id != k,
    decreases v.len(),
{
    if v.len() == 0 {
    } else if v[0].id == k {
    } else {
        let w = choose|i: int| 0 <= i < v.len() && v[i].id == k;
        assert(v.drop_first()[w - 1] == v[w]);
        lemma_find_id(v.drop_first(), k);
        let f = spec_find_id(v.drop_first(), k);
        assert(v.drop_first()[f] == v[f + 1]);
        assert forall|m: int| 0 <= m < spec_find_id(v, k) implies v[m].id != k by {
            if m > 0 {
                assert(v.drop_first()[m - 1] == v[m]);
            }
        }
    }
}

/// Pigeonhole: in a collection of states with pairwise distinct ids all below
/// the collection's length, every id below the length occurs.
proof fn lemma_ids_cover(v: Seq<State>, k: u32)
    requires
        ids_distinct(v),
        forall|i: int| 0 <= i < v.len() ==> (#[trigger] v[i]).id < v.len(),
        k < v.len(),
    ensures
        exists|i: int| 0 <= i < v.len() && v[i].id == k,
{
    let ids = Seq::new(v.len(), |i: int| v[i].id as int);
    assert(ids.no_duplicates());
    ids.unique_seq_to_set();
    let range = vstd::set_lib::set_int_range(0, v.len() as int);
    vstd::set_lib::lemma_int_range(0, v.len() as int);
    assert(ids.to_set().subset_of(range)) by {
        assert forall|x: int| ids.to_set().contains(x) implies range.contains(x) by {
            let i = choose|i: int| 0 <= i < ids.len() && ids[i] == x;
            assert(v[i].id < v.len());
        }
    }
    vstd::set_lib::lemma_len_subset(ids.to_set(), range);
    vstd::set_lib::lemma_subset_equality(ids.to_set(), range);
    assert(range.contains(k as int));
    assert(ids.contains(k as int));
    let i = choose|i: int| 0 <= i < ids.len() && ids[i] == k as int;
    assert(v[i].id == k);
}

/// Reorders a finished automaton so that the state carrying id `k` sits at
/// position `k`.
#[verifier::loop_isolation(false)]
fn sort_states_by_id(fsm: &Vec<State>) -> (r: Vec<State>)
    requires
        ids_distinct(fsm@),
        forall|i: int| 0 <= i < fsm@.len() ==> (#[trigger] fsm@[i]).id < fsm@.len(),
    ensures
        r@ == spec_sorted_by_id(fsm@),
{
    let n = fsm.len();
    let mut out: Vec<State> = Vec::new();
    let mut k: usize = 0;
    while k < n
        invariant
            k <= n,
            out@ == spec_sorted_by_id(fsm@).take(k as int),
        decreases n - k,
    {
        proof {
            lemma_ids_cover(fsm@, k as u32);
            lemma_find_id(fsm@, k as u32);
        }
        let mut j: usize = 0;
        while j < n && fsm[j].id != k as u32
            invariant
                j <= spec_find_id(fsm@, k as u32),
                k < n,
            decreases n - j,
        {
            j = j + 1;
        }
        proof {
            assert(j == spec_find_id(fsm@, k as u32));
        }
        out.push(fsm[j]);
        k = k + 1;
        proof {
            assert(out@ =~= spec_sorted_by_id(fsm@).take(k as int));
        }
    }
    proof {
        assert(spec_sorted_by_id(fsm@).take(n as int) =~= spec_sorted_by_id(fsm@));
    }
    out
}

/// Walks every state and resolves edges at the automaton's final id into the
/// `Finish` sentinel — deferred to here because the final id is only known
/// once parsing completes.
#[verifier::loop_isolation(false)]
fn resolve_finish(fsm: Vec<State>, final_state: u32) -> (r: Vec<State>)
    ensures
        r@ == fsm@.map_values(|x: State| spec_finalize(x, final_state)),
{
    let ghost orig = fsm@;
    let mut fsm = fsm;
    let mut x: usize = 0;
    while x < fsm.len()
        invariant
            x <= orig.len(),
            fsm@.len() == orig.len(),
            forall|i: int| x <= i < orig.len() ==> fsm@[i] == orig[i],
            forall|i: int| 0 <= i < x ==> fsm@[i] == spec_finalize(orig[i], final_state),
        decreases orig.len() - x,
    {
        let mut st = fsm[x];
        st.change_state_id_to_final(final_state);
        fsm.set(x, st);
        x = x + 1;
    }
    proof {
        assert(fsm@ =~= orig.map_values(|s: State| spec_finalize(s, final_state)));
    }
    fsm
}

/// Translates a regex string into an NFA.
///
/// On success the returned automaton is exactly the one the construction
/// model describes, its state ids form the contiguous range `0 .. len`, and
/// every edge points inside the automaton or at `Finish`.
///
/// # Errors
///
/// An empty pattern, mismatched or improperly ordered brackets, and a
/// quantifier with nothing to quantify are rejected before construction;
/// patterns the grammar cannot derive (such as an alternative that is
/// missing) are rejected during construction.
pub fn parse(regex_str: &str) -> (r: Result<Vec<State>, &'static str>)
    requires
        regex_str@.len() <= 0x4000_0000,
    ensures
        r matches Ok(v) ==> spec_parse(regex_str@) == Some(v@) && nfa_wf(v@),
        r is Err <==> spec_parse(regex_str@) is None,
        r matches Err(m) ==> m@ == if spec_check(regex_str@) is Fine {
            "invalid regex"@
        } else {
            spec_check_msg(spec_check(regex_str@))
        },
{
    let chars = str_chars(regex_str);
    match check_valid_regex(&chars) {
        Ok(_) => {},
        Err(e) => {
            return Err(e);
        },
    }
    let optfsm = regex(&chars, 0, Vec::new(), 0);
    match optfsm {
        Some((fsm, _, final_state)) => {
            let sorted = sort_states_by_id(&fsm);
            let finished = resolve_finish(sorted, final_state);
            proof {
                let srt = spec_sorted_by_id(fsm@);
                assert forall|k: int| 0 <= k < srt.len() implies (#[trigger] srt[k]).id == k
                    && srt[k].id < final_state && state_le(srt[k], final_state) by {
                    lemma_ids_cover(fsm@, k as u32);
                    lemma_find_id(fsm@, k as u32);
                }
                assert(nfa_wf(finished@));
                assert(spec_parse(regex_str@) == Some(finished@));
            }
            Ok(finished)
        },
        None => Err("invalid regex"),
    }
}

// ---------------------------------------------------------------------------
// The shape of literal-only patterns
// ---------------------------------------------------------------------------

/// A metacharacter of the pattern grammar; everything else is a plain
/// literal.
pub open spec fn spec_is_meta(c: char) -> bool {
    c == '(' || c == ')' || c == '|' || c == '*' || c == '+' || c == '\\'
}

/// A pattern made only of literals from `pos` on: plain characters and
/// escapes, never an unescaped metacharacter.
pub open spec fn spec_literal_only(s: Seq<char>, pos: int) -> bool
    decreases s.len() - pos,
{
    if pos < 0 || pos >= s.len() {
        pos == s.len()
    } else if s[pos] == '\\' {
        pos + 1 < s.len() && spec_literal_only(s, pos + 2)
    } else {
        !spec_is_meta(s[pos]) && spec_literal_only(s, pos + 1)
    }
}

/// The character sequence a literal-only pattern denotes, escapes resolved.
pub open spec fn spec_literals_of(s: Seq<char>, pos: int) -> Seq<char>
    decreases s.len() - pos,
{
    if pos < 0 || pos >= s.len() {
        Seq::empty()
    } else if s[pos] == '\\' && pos + 1 < s.len() {
        seq![s[pos + 1]] + spec_literals_of(s, pos + 2)
    } else {
        seq![s[pos]] + spec_literals_of(s, pos + 1)
    }
}

/// The literal chain for a character sequence, starting at state id `next`:
/// one literal state per character, each pointing at the next.
pub open spec fn spec_chain_lits(lits: Seq<char>, next: u32) -> Seq<State>
    decreases lits.len(),
{
    if lits.len() == 0 {
        Seq::empty()
    } else {
        seq![spec_lit_state(next, lits[0], (next + 1) as u32)] + spec_chain_lits(
            lits.drop_first(),
            (next + 1) as u32,
        )
    }
}

/// Length and shape of a literal chain.
proof fn lemma_chain_lits_props(lits: Seq<char>, next: u32)
    requires
        next as int + lits.len() < 0x1_0000_0000,
    ensures
        spec_chain_lits(lits, next).len() == lits.len(),
        forall|i: int|
            0 <= i < lits.len() ==> spec_chain_lits(lits, next)[i] == (State {
                id: (next + i) as u32,
                machine_type: StateType::Literal(lits[i]),
                branch: Branch::StateId((next + i + 1) as u32),
            }),
    decreases lits.len(),
{
    if lits.len() > 0 {
        lemma_chain_lits_props(lits.drop_first(), (next + 1) as u32);
        let whole = spec_chain_lits(lits, next);
        let rest = spec_chain_lits(lits.drop_first(), (next + 1) as u32);
        assert(((next + 1) as u32) as int == next as int + 1);
        assert forall|i: int|
            0 <= i < lits.len() implies whole[i] == (State {
            id: (next + i) as u32,
            machine_type: StateType::Literal(lits[i]),
            branch: Branch::StateId((next + i + 1) as u32),
        }) by {
            if i > 0 {
                assert(whole[i] == rest[i - 1]);
                assert(lits.drop_first()[i - 1] == lits[i]);
            }
        }
    }
}

/// A literal-only pattern denotes at most one character per pattern
/// character.
proof fn lemma_literals_len(s: Seq<char>, pos: int)
    requires
        0 <= pos <= s.len(),
    ensures
        spec_literals_of(s, pos).len() <= s.len() - pos,
    decreases s.len() - pos,
{
    if pos < s.len() {
        if s[pos] == '\\' && pos + 1 < s.len() {
            lemma_literals_len(s, pos + 2);
        } else {
            lemma_literals_len(s, pos + 1);
        }
    }
}

/// In a literal-only pattern, every counted metacharacter sits right after
/// a backslash.
proof fn lemma_literal_only_windows(s: Seq<char>, pos: int)
    requires
        0 <= pos,
        spec_literal_only(s, pos),
    ensures
        forall|j: int|
            pos <= j < s.len() && ((#[trigger] s[j]) == '(' || s[j] == ')' || s[j] == '*'
                || s[j] == '+') ==> j >= 1 && s[j - 1] == '\\',
    decreases s.len() - pos,
{
    if pos < s.len() {
        if s[pos] == '\\' {
            lemma_literal_only_windows(s, pos + 2);
        } else {
            lemma_literal_only_windows(s, pos + 1);
        }
    }
}

/// Over windows whose counted metacharacters are all escaped, the
/// structural check neither counts nor rejects: it just runs to the end of
/// the pattern.
proof fn lemma_escaped_check_from(s: Seq<char>, i: int, left: int, right: int)
    requires
        1 <= i,
        right <= left,
        forall|j: int|
            i <= j < s.len() && ((#[trigger] s[j]) == '(' || s[j] == ')' || s[j] == '*' || s[j]
                == '+') ==> j >= 1 && s[j - 1] == '\\',
    ensures
        spec_check_from(s, i, left, right, false) == if right != left {
            PatternCheck::UnbalancedBrackets
        } else {
            PatternCheck::Fine
        },
    decreases s.len() - i,
{
    if i < s.len() {
        lemma_escaped_check_from(s, i + 1, left, right);
    }
}

/// Over a literal-only suffix, a term is one literal state per denoted
/// character, chained in order.
#[verifier::rlimit(50)]
proof fn lemma_literal_term_tail(s: Seq<char>, pos: int, states: Seq<State>, next: u32)
    requires
        0 <= pos <= s.len(),
        spec_literal_only(s, pos),
        next as int + (s.len() - pos) < 0x1_0000_0000,
    ensures
        spec_term_tail(s, pos, states, next) == Some(
            (
                states + spec_chain_lits(spec_literals_of(s, pos), next),
                s.len() as int,
                (next + spec_literals_of(s, pos).len()) as u32,
            ),
        ),
    decreases s.len() - pos,
{
    lemma_literals_len(s, pos);
    let lits = spec_literals_of(s, pos);
    if pos >= s.len() {
        assert(states + spec_chain_lits(lits, next) =~= states);
    } else if s[pos] == '\\' {
        let lit = spec_lit_state(next, s[pos + 1], (next + 1) as u32);
        let grown = states.push(lit);
        assert(spec_literal_only(s, pos + 2));
        if pos + 2 < s.len() {
            // The next token starts with a backslash or a plain character,
            // never a quantifier.
            assert(s[pos + 2] == '\\' || !spec_is_meta(s[pos + 2]));
        }
        assert(spec_base(s, pos, states, next) == Some(
            (Some(lit), states, pos + 2, (next + 1) as u32, Some(next)),
        ));
        assert(spec_factor(s, pos, states, next) == Some((grown, pos + 2, (next + 1) as u32)));
        assert(spec_term_tail(s, pos, states, next) == spec_term_tail(
            s,
            pos + 2,
            grown,
            (next + 1) as u32,
        ));
        lemma_literal_term_tail(s, pos + 2, grown, (next + 1) as u32);
        assert(((next + 1) as u32) as int == next as int + 1);
        let rest = spec_literals_of(s, pos + 2);
        assert(lits == seq![s[pos + 1]] + rest);
        assert(lits.drop_first() =~= rest);
        assert(lits[0] == s[pos + 1]);
        assert(grown + spec_chain_lits(rest, (next + 1) as u32) =~= states + (seq![lit]
            + spec_chain_lits(rest, (next + 1) as u32)));
        assert(spec_chain_lits(lits, next) == seq![lit] + spec_chain_lits(
            lits.drop_first(),
            (next + 1) as u32,
        ));
        assert(states + spec_chain_lits(lits, next) == grown + spec_chain_lits(
            rest,
            (next + 1) as u32,
        ));
        lemma_literals_len(s, pos + 2);
    } else {
        let lit = spec_lit_state(next, s[pos], (next + 1) as u32);
        let grown = states.push(lit);
        assert(!spec_is_meta(s[pos]));
        assert(spec_literal_only(s, pos + 1));
        if pos + 1 < s.len() {
            assert(s[pos + 1] == '\\' || !spec_is_meta(s[pos + 1]));
        }
        assert(spec_base(s, pos, states, next) == Some(
            (Some(lit), states, pos + 1, (next + 1) as u32, Some(next)),
        ));
        assert(spec_factor(s, pos, states, next) == Some((grown, pos + 1, (next + 1) as u32)));
        assert(spec_term_tail(s, pos, states, next) == spec_term_tail(
            s,
            pos + 1,
            grown,
            (next + 1) as u32,
        ));
        lemma_literal_term_tail(s, pos + 1, grown, (next + 1) as u32);
        assert(((next + 1) as u32) as int == next as int + 1);
        let rest = spec_literals_of(s, pos + 1);
        assert(lits == seq![s[pos]] + rest);
        assert(lits.drop_first() =~= rest);
        assert(lits[0] == s[pos]);
        assert(grown + spec_chain_lits(rest, (next + 1) as u32) =~= states + (seq![lit]
            + spec_chain_lits(rest, (next + 1) as u32)));
        assert(spec_chain_lits(lits, next) == seq![lit] + spec_chain_lits(
            lits.drop_first(),
            (next + 1) as u32,
        ));
        assert(states + spec_chain_lits(lits, next) == grown + spec_chain_lits(
            rest,
            (next + 1) as u32,
        ));
        lemma_literals_len(s, pos + 1);
    }
}

/// In an automaton whose state at position `i` already carries id `i`,
/// reordering by id changes nothing.
proof fn lemma_sorted_identity(v: Seq<State>)
    requires
        forall|i: int| 0 <= i < v.len() ==> (#[trigger] v[i]).id == i,
        v.len() <= 0xFFFF_FFFF,
    ensures
        spec_sorted_by_id(v) == v,
{
    assert forall|k: int| 0 <= k < v.len() implies spec_sorted_by_id(v)[k] == v[k] by {
        assert(v[k].id == k as u32);
        lemma_find_id(v, k as u32);
        let f = spec_find_id(v, k as u32);
        assert(v[f].id == f);
    }
    assert(spec_sorted_by_id(v) =~= v);
}

/// For a literal-only pattern — plain and escaped characters, no unescaped
/// metacharacter — the parser accepts and builds exactly the chain
/// automaton of the denoted characters: one literal state per character, in
/// order, each pointing at the next and the last one at `Finish`.
#[verifier::rlimit(50)]
pub proof fn lemma_literal_pattern_builds_chain(s: Seq<char>)
    requires
        1 <= s.len() <= 0x4000_0000,
        spec_literal_only(s, 0),
    ensures
        spec_parse(s) matches Some(v) && v.len() == spec_literals_of(s, 0).len() && (forall|i: int|
            0 <= i < spec_literals_of(s, 0).len() ==> v[i] == (State {
                id: i as u32,
                machine_type: StateType::Literal(spec_literals_of(s, 0)[i]),
                branch: if i == spec_literals_of(s, 0).len() - 1 {
                    Branch::Finish
                } else {
                    Branch::StateId((i + 1) as u32)
                },
            })),
{
    let lits = spec_literals_of(s, 0);
    lemma_literals_len(s, 0);
    // The structural check passes: every counted metacharacter is escaped.
    lemma_literal_only_windows(s, 0);
    lemma_escaped_check_from(s, 1, 0, 0);
    assert(s[0] == '\\' || !spec_is_meta(s[0]));
    assert(spec_check(s) is Fine);
    // The recursive descent builds the chain of the denoted characters.
    lemma_literal_term_tail(s, 0, Seq::empty(), 0);
    let n = lits.len() as int;
    assert(n >= 1) by {
        if s[0] == '\\' {
            assert(lits == seq![s[1]] + spec_literals_of(s, 2));
        } else {
            assert(lits == seq![s[0]] + spec_literals_of(s, 1));
        }
    }
    let chain = spec_chain_lits(lits, 0);
    assert(Seq::<State>::empty() + chain =~= chain);
    assert(spec_term_tail(s, 0, Seq::empty(), 0) == Some((chain, s.len() as int, n as u32)));
    // `spec_term` takes the same first step as `spec_term_tail` here.
    assert(s[0] != '|' && s[0] != ')');
    if s[0] == '\\' {
        let lit0 = spec_lit_state(0, s[1], 1);
        assert(spec_literal_only(s, 2));
        if 2 < s.len() {
            assert(s[2] == '\\' || !spec_is_meta(s[2]));
        }
        assert(spec_base(s, 0, Seq::empty(), 0) == Some(
            (Some(lit0), Seq::<State>::empty(), 2int, 1u32, Some(0u32)),
        ));
        assert(spec_factor(s, 0, Seq::empty(), 0) == Some(
            (Seq::empty().push(lit0), 2int, 1u32),
        ));
        assert(spec_term(s, 0, Seq::empty(), 0) == spec_term_tail(
            s,
            2,
            Seq::empty().push(lit0),
            1,
        ));
        assert(spec_term_tail(s, 0, Seq::empty(), 0) == spec_term_tail(
            s,
            2,
            Seq::empty().push(lit0),
            1,
        ));
    } else {
        let lit0 = spec_lit_state(0, s[0], 1);
        assert(spec_literal_only(s, 1));
        if 1 < s.len() {
            assert(s[1] == '\\' || !spec_is_meta(s[1]));
        }
        assert(spec_base(s, 0, Seq::empty(), 0) == Some(
            (Some(lit0), Seq::<State>::empty(), 1int, 1u32, Some(0u32)),
        ));
        assert(spec_factor(s, 0, Seq::empty(), 0) == Some(
            (Seq::empty().push(lit0), 1int, 1u32),
        ));
        assert(spec_term(s, 0, Seq::empty(), 0) == spec_term_tail(
            s,
            1,
            Seq::empty().push(lit0),
            1,
        ));
        assert(spec_term_tail(s, 0, Seq::empty(), 0) == spec_term_tail(
            s,
            1,
            Seq::empty().push(lit0),
            1,
        ));
    }
    assert(spec_term(s, 0, Seq::empty(), 0) == spec_term_tail(s, 0, Seq::empty(), 0));
    assert(spec_regex_tail(s, s.len() as int, chain, n as u32, 0) == Some(
        (chain, s.len() as int, n as u32),
    ));
    assert(spec_regex(s, 0, Seq::empty(), 0) == Some((chain, s.len() as int, n as u32)));
    // The chain is already in id order, and only its last edge reaches the
    // final id.
    lemma_chain_lits_props(lits, 0);
    assert forall|i: int| 0 <= i < chain.len() implies (#[trigger] chain[i]).id == i by {
        assert(((0 + i) as u32) as int == i);
    }
    lemma_sorted_identity(chain);
    let finished = chain.map_values(|x: State| spec_finalize(x, n as u32));
    assert forall|i: int|
        0 <= i < chain.len() implies finished[i] == (State {
        id: i as u32,
        machine_type: StateType::Literal(lits[i]),
        branch: if i == n - 1 {
            Branch::Finish
        } else {
            Branch::StateId((i + 1) as u32)
        },
    }) by {
        assert(finished[i] == spec_finalize(chain[i], n as u32));
        assert(chain[i].branch == Branch::StateId((i + 1) as u32));
        if i == n - 1 {
            assert((i + 1) as u32 == n as u32);
        } else {
            assert(((i + 1) as u32) as int == i + 1);
            assert((n as u32) as int == n);
        }
    }
    assert(finished.len() == n);
}

} // verus!