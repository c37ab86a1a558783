//! An earlier, two-edge variant of the pattern parser and NFA builder.
//!
//! States here carry a matching symbol and two explicit outgoing edges
//! instead of [`crate::ndfa`]'s literal/branching split with a shared edge.
//! The grammar and the recursive-descent construction are the same; this
//! variant performs no structural pre-check and yields an empty automaton
//! for a pattern it cannot derive. The executable parser is proved to return
//! exactly what the construction model below describes; on success the state
//! ids form the contiguous range `0 .. len` and every edge points inside the
//! automaton or at `Finish`.

use vstd::prelude::*;

verus! {

/// What a state consumes: one literal character, or nothing (a branch).
#[derive(Clone, Copy, Debug, PartialEq, Eq)]
pub enum Symbol {
    Matched(char),
    Branching,
}

/// An outgoing edge: another state's id or the accepting sentinel.
#[derive(Clone, Copy, Debug, PartialEq, Eq)]
pub enum Branch {
    StateId(u32),
    Finish,
}

/// A single NFA state with two explicit outgoing edges. A `Matched` state
/// consumes its character and follows either edge (they coincide by
/// construction); a `Branching` state consumes nothing and offers both.
#[derive(Clone, Copy, Debug, PartialEq, Eq)]
pub struct State {
    pub id: u32,
    pub matching_symbol: Symbol,
    pub branch_1: Branch,
    pub branch_2: Branch,
}

/// An edge of a finished automaton of `n` states: a valid id or `Finish`.
pub open spec fn edge_wf(b: Branch, n: int) -> bool {
    match b {
        Branch::StateId(l) => l < n,
        Branch::Finish => true,
    }
}

/// A finished automaton is well formed: each state's id equals its position
/// and both edges stay inside the automaton or end at `Finish`.
pub open spec fn nfa_wf(v: Seq<State>) -> bool {
    forall|i: int|
        0 <= i < v.len() ==> (#[trigger] v[i]).id == i && edge_wf(v[i].branch_1, v.len() as int)
            && edge_wf(v[i].branch_2, v.len() as int)
}

/// An edge under construction, bounded by the next unused id.
pub open spec fn edge_le(b: Branch, n: u32) -> bool {
    match b {
        Branch::StateId(l) => l <= n,
        Branch::Finish => true,
    }
}

/// No two states under construction share an id.
pub open spec fn ids_distinct(v: Seq<State>) -> bool {
    forall|i: int, j: int| 0 <= i < j < v.len() ==> v[i].id != v[j].id
}

/// The invariant of the automaton while it is being built: one state per id
/// in `0 .. next`, both edges bounded by `next`.
pub open spec fn building_wf(v: Seq<State>, next: u32) -> bool {
    &&& v.len() == next
    &&& ids_distinct(v)
    &&& forall|i: int|
        0 <= i < v.len() ==> (#[trigger] v[i]).id < next && edge_le(v[i].branch_1, next)
            && edge_le(v[i].branch_2, next)
}

// ---------------------------------------------------------------------------
// Mathematical model of construction
// ---------------------------------------------------------------------------

/// A literal state: consumes `c`, then moves on through both edges.
pub open spec fn spec_lit_state(id: u32, c: char, target: u32) -> State {
    State {
        id,
        matching_symbol: Symbol::Matched(c),
        branch_1: Branch::StateId(target),
        branch_2: Branch::StateId(target),
    }
}

/// A branching state spliced in at `id`, offering `branch_1` and `branch_2`.
pub open spec fn spec_branch_state(id: u32, branch_1: u32, branch_2: u32) -> State {
    State {
        id,
        matching_symbol: Symbol::Branching,
        branch_1: Branch::StateId(branch_1),
        branch_2: Branch::StateId(branch_2),
    }
}

/// An edge moved up by one position.
pub open spec fn spec_incr_edge(b: Branch) -> Branch {
    match b {
        Branch::StateId(l) => Branch::StateId((l + 1) as u32),
        Branch::Finish => Branch::Finish,
    }
}

/// The renumbering applied when a `*` branch is spliced in before a group
/// starting at `g`: states at or past `g` move up by one, edges with them.
pub open spec fn spec_star_shift(x: State, g: u32) -> State {
    if x.id >= g {
        State {
            id: (x.id + 1) as u32,
            matching_symbol: x.matching_symbol,
            branch_1: spec_incr_edge(x.branch_1),
            branch_2: spec_incr_edge(x.branch_2),
        }
    } else {
        x
    }
}

/// The `*` rewrite of a bare literal: it moves after the new branch state at
/// `g` and loops back to it through both edges.
pub open spec fn spec_star_single(x: State, new_id: u32, g: u32) -> State {
    State {
        id: new_id,
        matching_symbol: x.matching_symbol,
        branch_1: Branch::StateId(g),
        branch_2: Branch::StateId(g),
    }
}

/// The edge renumbering for alternation splicing: an edge at the left
/// alternative's end (`looped`) is redirected to the combined end, any other
/// moves up by one.
pub open spec fn spec_alt_edge(b: Branch, looped: u32, result: u32) -> Branch {
    match b {
        Branch::StateId(l) => if l == looped {
            Branch::StateId((result + 1) as u32)
        } else {
            Branch::StateId((l + 1) as u32)
        },
        Branch::Finish => Branch::Finish,
    }
}

/// The state renumbering for alternation splicing.
pub open spec fn spec_alt_shift(x: State, g: u32, looped: u32, result: u32) -> State {
    if x.id >= g {
        State {
            id: (x.id + 1) as u32,
            matching_symbol: x.matching_symbol,
            branch_1: spec_alt_edge(x.branch_1, looped, result),
            branch_2: spec_alt_edge(x.branch_2, looped, result),
        }
    } else {
        x
    }
}

/// Model of `base`: a literal, an escaped literal, or a parenthesized group.
pub open spec fn spec_base(s: Seq<char>, pos: int, states: Seq<State>, next: u32) -> Option<
    (Option<State>, Seq<State>, int, u32, Option<u32>),
>
    decreases s.len() - pos, 0int,
{
    if pos < 0 || pos >= s.len() {
        None
    } else if s[pos] == '(' {
        match spec_regex(s, pos + 1, states, next) {
            Some((st2, pos2, next2)) => if pos2 < s.len() && s[pos2] == ')' {
                Some((None, st2, pos2 + 1, next2, Some(next)))
            } else {
                None
            },
            None => None,
        }
    } else if s[pos] == ')' {
        Some((None, states, pos, next, None))
    } else if s[pos] == '\\' {
        if pos + 1 < s.len() {
            Some(
                (
                    Some(spec_lit_state(next, s[pos + 1], (next + 1) as u32)),
                    states,
                    pos + 2,
                    (next + 1) as u32,
                    Some(next),
                ),
            )
        } else {
            None
        }
    } else {
        Some(
            (
                Some(spec_lit_state(next, s[pos], (next + 1) as u32)),
                states,
                pos + 1,
                (next + 1) as u32,
                Some(next),
            ),
        )
    }
}

/// Model of `factor`: a `base` optionally followed by `*` or `+`.
pub open spec fn spec_factor(s: Seq<char>, pos: int, states: Seq<State>, next: u32) -> Option<
    (Seq<State>, int, u32),
>
    decreases s.len() - pos, 1int,
{
    match spec_base(s, pos, states, next) {
        None => None,
        Some((cur, st2, pos2, tn, tg)) => if 0 <= pos2 < s.len() && s[pos2] == '*' {
            match tg {
                None => None,
                Some(g) => {
                    let st3 = match cur {
                        Some(x) => st2.push(spec_star_single(x, tn, g)),
                        None => st2.map_values(|x: State| spec_star_shift(x, g)),
                    };
                    Some(
                        (
                            st3.push(spec_branch_state(g, (g + 1) as u32, (tn + 1) as u32)),
                            pos2 + 1,
                            (tn + 1) as u32,
                        ),
                    )
                },
            }
        } else if 0 <= pos2 < s.len() && s[pos2] == '+' {
            match tg {
                None => None,
                Some(g) => {
                    let st3 = match cur {
                        Some(x) => st2.push(x),
                        None => st2,
                    };
                    Some(
                        (
                            st3.push(spec_branch_state(tn, g, (tn + 1) as u32)),
                            pos2 + 1,
                            (tn + 1) as u32,
                        ),
                    )
                },
            }
        } else {
            let st3 = match cur {
                Some(x) => st2.push(x),
                None => st2,
            };
            Some((st3, pos2, tn))
        },
    }
}

/// Model of the factor loop inside `term`.
pub open spec fn spec_term_tail(s: Seq<char>, pos: int, states: Seq<State>, next: u32) -> Option<
    (Seq<State>, int, u32),
>
    decreases s.len() - pos, 2int,
{
    if 0 <= pos < s.len() && s[pos] != '|' && s[pos] != ')' {
        match spec_factor(s, pos, states, next) {
            None => None,
            Some((st2, pos2, next2)) => if pos2 <= pos || pos2 > s.len() {
                None
            } else {
                spec_term_tail(s, pos2, st2, next2)
            },
        }
    } else {
        Some((states, pos, next))
    }
}

/// Model of `term`: a possibly empty run of factors, never starting at `|`.
pub open spec fn spec_term(s: Seq<char>, pos: int, states: Seq<State>, next: u32) -> Option<
    (Seq<State>, int, u32),
>
    decreases s.len() - pos, 3int,
{
    if 0 <= pos < s.len() && s[pos] == '|' {
        None
    } else if pos >= s.len() {
        Some((states, pos, next))
    } else {
        match spec_factor(s, pos, states, next) {
            None => None,
            Some((st2, pos2, next2)) => if pos2 < pos || pos2 > s.len() {
                None
            } else {
                spec_term_tail(s, pos2, st2, next2)
            },
        }
    }
}

/// Model of the alternation loop inside `regex`.
pub open spec fn spec_regex_tail(
    s: Seq<char>,
    pos: int,
    states: Seq<State>,
    next: u32,
    g: u32,
) -> Option<(Seq<State>, int, u32)>
    decreases s.len() - pos, 4int,
{
    if 0 <= pos < s.len() && s[pos] == '|' {
        match spec_term(s, pos + 1, states, next) {
            None => None,
            Some((st2, pos2, next2)) => if pos2 <= pos || pos2 > s.len() {
                None
            } else {
                let shifted = st2.map_values(|x: State| spec_alt_shift(x, g, next, next2));
                spec_regex_tail(
                    s,
                    pos2,
                    shifted.push(spec_branch_state(g, (g + 1) as u32, (next + 1) as u32)),
                    (next2 + 1) as u32,
                    g,
                )
            },
        }
    } else {
        Some((states, pos, next))
    }
}

/// Model of `regex`: a term followed by any number of `|`-terms.
pub open spec fn spec_regex(s: Seq<char>, pos: int, states: Seq<State>, next: u32) -> Option<
    (Seq<State>, int, u32),
>
    decreases s.len() - pos, 5int,
{
    match spec_term(s, pos, states, next) {
        None => None,
        Some((st, p, n)) => if p < pos || p > s.len() {
            None
        } else {
            spec_regex_tail(s, p, st, n, next)
        },
    }
}

/// Index of the first state in `v` carrying id `k`.
pub open spec fn spec_find_id(v: Seq<State>, k: u32) -> int
    decreases v.len(),
{
    if v.len() == 0 {
        0
    } else if v[0].id == k {
        0
    } else {
        1 + spec_find_id(v.drop_first(), k)
    }
}

/// The automaton reordered so that the state with id `k` sits at position
/// `k`.
pub open spec fn spec_sorted_by_id(v: Seq<State>) -> Seq<State> {
    Seq::new(v.len(), |k: int| v[spec_find_id(v, k as u32)])
}

/// An edge equal to the automaton's final id becomes the `Finish` sentinel.
pub open spec fn spec_final_edge(b: Branch, fin: u32) -> Branch {
    match b {
        Branch::StateId(l) => if l == fin {
            Branch::Finish
        } else {
            b
        },
        Branch::Finish => b,
    }
}

/// Rewrites both edges of a state for the final id `fin`.
pub open spec fn spec_finalize(x: State, fin: u32) -> State {
    State {
        id: x.id,
        matching_symbol: x.matching_symbol,
        branch_1: spec_final_edge(x.branch_1, fin),
        branch_2: spec_final_edge(x.branch_2, fin),
    }
}

/// The complete model of `parse`: run the recursive descent from position 0,
/// order states by id, and resolve edges at the final id into `Finish`; a
/// pattern the grammar cannot derive yields an empty automaton.
pub open spec fn spec_parse(s: Seq<char>) -> Seq<State> {
    match spec_regex(s, 0, Seq::empty(), 0) {
        None => Seq::empty(),
        Some((st, p, n)) => spec_sorted_by_id(st).map_values(|x: State| spec_finalize(x, n)),
    }
}

// ---------------------------------------------------------------------------
// Renumbering lemmas
// ---------------------------------------------------------------------------

/// The `*` renumbering pass preserves the construction invariant.
proof fn lemma_star_splice_wf(before: Seq<State>, after: Seq<State>, g: u32, tn: u32)
    requires
        building_wf(before, tn),
        g <= tn,
        tn < 0xFFFF_FFFFu32,
        after == before.map_values(|x: State| spec_star_shift(x, g)).push(
            spec_branch_state(g, (g + 1) as u32, (tn + 1) as u32),
        ),
    ensures
        building_wf(after, (tn + 1) as u32),
{
    assert forall|i: int|
        0 <= i < after.len() implies (#[trigger] after[i]).id < tn + 1 && edge_le(
        after[i].branch_1,
        (tn + 1) as u32,
    ) && edge_le(after[i].branch_2, (tn + 1) as u32) by {
        if i < before.len() {
            assert(after[i] == spec_star_shift(before[i], g));
        }
    }
    assert forall|i: int, j: int| 0 <= i < j < after.len() implies after[i].id != after[j].id by {
        if j < before.len() {
            assert(after[i] == spec_star_shift(before[i], g));
            assert(after[j] == spec_star_shift(before[j], g));
        } else if i < before.len() {
            assert(after[i] == spec_star_shift(before[i], g));
        }
    }
}

/// The alternation renumbering pass preserves the construction invariant.
proof fn lemma_alt_splice_wf(before: Seq<State>, after: Seq<State>, g: u32, looped: u32, rn: u32)
    requires
        building_wf(before, rn),
        g <= looped <= rn,
        rn < 0xFFFF_FFFFu32,
        after == before.map_values(|x: State| spec_alt_shift(x, g, looped, rn)).push(
            spec_branch_state(g, (g + 1) as u32, (looped + 1) as u32),
        ),
    ensures
        building_wf(after, (rn + 1) as u32),
{
    assert forall|i: int|
        0 <= i < after.len() implies (#[trigger] after[i]).id < rn + 1 && edge_le(
        after[i].branch_1,
        (rn + 1) as u32,
    ) && edge_le(after[i].branch_2, (rn + 1) as u32) by {
        if i < before.len() {
            assert(after[i] == spec_alt_shift(before[i], g, looped, rn));
        }
    }
    assert forall|i: int, j: int| 0 <= i < j < after.len() implies after[i].id != after[j].id by {
        if j < before.len() {
            assert(after[i] == spec_alt_shift(before[i], g, looped, rn));
            assert(after[j] == spec_alt_shift(before[j], g, looped, rn));
        } else if i < before.len() {
            assert(after[i] == spec_alt_shift(before[i], g, looped, rn));
        }
    }
}

// ---------------------------------------------------------------------------
// Executable construction
// ---------------------------------------------------------------------------

/// Relates an executable parse step to the model's.
pub open spec fn step_rel(r: Option<(Vec<State>, usize, u32)>, m: Option<(Seq<State>, int, u32)>) -> bool {
    match (r, m) {
        (Some((st1, p1, n1)), Some((st2, p2, n2))) => st1@ == st2 && p1 == p2 && n1 == n2,
        (None, None) => true,
        _ => false,
    }
}

/// Relates an executable `base` step to the model's.
pub open spec fn base_rel(
    r: Option<(Option<State>, Vec<State>, usize, u32, Option<u32>)>,
    m: Option<(Option<State>, Seq<State>, int, u32, Option<u32>)>,
) -> bool {
    match (r, m) {
        (Some((c1, st1, p1, n1, g1)), Some((c2, st2, p2, n2, g2))) => c1 == c2 && st1@ == st2
            && p1 == p2 && n1 == n2 && g1 == g2,
        (None, None) => true,
        _ => false,
    }
}

/// Parses a single literal, an escaped literal, or a parenthesized group;
/// the fresh literal state is handed back separately, not yet appended.
fn base(chars: &Vec<char>, pos: usize, states: Vec<State>, next_state_id: u32) -> (r: Option<
    (Option<State>, Vec<State>, usize, u32, Option<u32>),
>)
    requires
        pos <= chars@.len(),
        chars@.len() <= 0x4000_0000,
        building_wf(states@, next_state_id),
        next_state_id as int <= 2 * pos,
    ensures
        base_rel(r, spec_base(chars@, pos as int, states@, next_state_id)),
        r matches Some((cur, st, p, n, g)) ==> {
            &&& pos <= p <= chars@.len()
            &&& next_state_id <= n
            &&& n as int <= next_state_id as int + 2 * (p - pos)
            &&& (chars@[pos as int] != ')' ==> p > pos)
            &&& match g {
                Some(gv) => gv == next_state_id,
                None => p == pos && n == next_state_id && cur is None && st@ == states@,
            }
            &&& match cur {
                Some(x) => st@ == states@ && n == next_state_id + 1 && x.id == next_state_id
                    && x.branch_1 == Branch::StateId(n) && x.branch_2 == Branch::StateId(n)
                    && x.matching_symbol is Matched,
                None => building_wf(st@, n),
            }
        },
    decreases chars@.len() - pos, 0int,
{
    if pos >= chars.len() {
        return None;
    }
    let next_char = chars[pos];
    if next_char == '(' {
        match regex(chars, pos + 1, states, next_state_id) {
            Some((result_states, result_pos, result_next)) => {
                if result_pos < chars.len() && chars[result_pos] == ')' {
                    Some((None, result_states, result_pos + 1, result_next, Some(next_state_id)))
                } else {
                    None
                }
            },
            None => None,
        }
    } else if next_char == ')' {
        Some((None, states, pos, next_state_id, None))
    } else if next_char == '\\' {
        if pos + 1 < chars.len() {
            let escaped_char = chars[pos + 1];
            let branched_to_id = next_state_id + 1;
            let nstate = State {
                id: next_state_id,
                matching_symbol: Symbol::Matched(escaped_char),
                branch_1: Branch::StateId(branched_to_id),
                branch_2: Branch::StateId(branched_to_id),
            };
            Some((Some(nstate), states, pos + 2, branched_to_id, Some(next_state_id)))
        } else {
            None
        }
    } else {
        let branched_to_id = next_state_id + 1;
        let nstate = State {
            id: next_state_id,
            matching_symbol: Symbol::Matched(next_char),
            branch_1: Branch::StateId(branched_to_id),
            branch_2: Branch::StateId(branched_to_id),
        };
        Some((Some(nstate), states, pos + 1, branched_to_id, Some(next_state_id)))
    }
}

/// Parses a factor: a `base` optionally followed by `*` or `+`. A single
/// pending literal under `*` is rewritten to follow the new branch state; a
/// group forces the renumbering pass.
#[verifier::loop_isolation(false)]
fn factor(chars: &Vec<char>, pos: usize, states: Vec<State>, next_state_id: u32) -> (r: Option<
    (Vec<State>, usize, u32),
>)
    requires
        pos <= chars@.len(),
        chars@.len() <= 0x4000_0000,
        building_wf(states@, next_state_id),
        next_state_id as int <= 2 * pos,
    ensures
        step_rel(r, spec_factor(chars@, pos as int, states@, next_state_id)),
        r matches Some((st, p, n)) ==> {
            &&& pos <= p <= chars@.len()
            &&& next_state_id <= n
            &&& n as int <= next_state_id as int + 2 * (p - pos)
            &&& (chars@[pos as int] != ')' ==> p > pos)
            &&& building_wf(st@, n)
        },
    decreases chars@.len() - pos, 1int,
{
    match base(chars, pos, states, next_state_id) {
        None => None,
        Some((result_current_state, result_states, result_pos, result_next, result_group)) => {
            let ghost base_states = result_states@;
            let mut result_states = result_states;
            if result_pos < chars.len() && chars[result_pos] == '*' {
                match result_group {
                    None => None,
                    Some(group_start_id) => {
                        let new_branch = State {
                            id: group_start_id,
                            matching_symbol: Symbol::Branching,
                            branch_1: Branch::StateId(group_start_id + 1),
                            branch_2: Branch::StateId(result_next + 1),
                        };
                        match result_current_state {
                            Some(nstate) => {
                                // A bare literal moves after the branch state
                                // and loops back to it.
                                let mut nstate = nstate;
                                nstate.id = result_next;
                                nstate.branch_1 = Branch::StateId(group_start_id);
                                nstate.branch_2 = Branch::StateId(group_start_id);
                                result_states.push(nstate);
                            },
                            None => {
                                // A group: renumber everything at or past the
                                // group start to make room for the branch.
                                let ghost orig = result_states@;
                                let mut k: usize = 0;
                                while k < result_states.len()
                                    invariant
                                        k <= orig.len(),
                                        result_states@.len() == orig.len(),
                                        forall|i: int|
                                            k <= i < orig.len() ==> result_states@[i] == orig[i],
                                        forall|i: int|
                                            0 <= i < k ==> result_states@[i] == spec_star_shift(
                                                orig[i],
                                                group_start_id,
                                            ),
                                        building_wf(orig, result_next),
                                        result_next < 0xFFFF_FFFFu32,
                                    decreases orig.len() - k,
                                {
                                    if result_states[k].id >= group_start_id {
                                        let mut t = result_states[k];
                                        t.id = t.id + 1;
                                        if let Branch::StateId(l) = t.branch_1 {
                                            t.branch_1 = Branch::StateId(l + 1);
                                        }
                                        if let Branch::StateId(l) = t.branch_2 {
                                            t.branch_2 = Branch::StateId(l + 1);
                                        }
                                        result_states.set(k, t);
                                    }
                                    k = k + 1;
                                }
                                proof {
                                    assert(result_states@ =~= orig.map_values(
                                        |x: State| spec_star_shift(x, group_start_id),
                                    ));
                                }
                            },
                        }
                        result_states.push(new_branch);
                        proof {
                            match result_current_state {
                                Some(_) => {},
                                None => {
                                    lemma_star_splice_wf(
                                        base_states,
                                        result_states@,
                                        group_start_id,
                                        result_next,
                                    );
                                },
                            }
                        }
                        Some((result_states, result_pos + 1, result_next + 1))
                    },
                }
            } else if result_pos < chars.len() && chars[result_pos] == '+' {
                match result_group {
                    None => None,
                    Some(group_start_id) => {
                        let new_branch = State {
                            id: result_next,
                            matching_symbol: Symbol::Branching,
                            branch_1: Branch::StateId(group_start_id),
                            branch_2: Branch::StateId(result_next + 1),
                        };
                        if let Some(nstate) = result_current_state {
                            result_states.push(nstate);
                        }
                        result_states.push(new_branch);
                        Some((result_states, result_pos + 1, result_next + 1))
                    },
                }
            } else {
                if let Some(nstate) = result_current_state {
                    result_states.push(nstate);
                }
                Some((result_states, result_pos, result_next))
            }
        },
    }
}

/// Parses a term: a run of factors ending at the input's end, an alternation
/// bar, or a closing bracket. A term may not begin with `|`.
#[verifier::loop_isolation(false)]
fn term(chars: &Vec<char>, pos: usize, states: Vec<State>, next_state_id: u32) -> (r: Option<
    (Vec<State>, usize, u32),
>)
    requires
        pos <= chars@.len(),
        chars@.len() <= 0x4000_0000,
        building_wf(states@, next_state_id),
        next_state_id as int <= 2 * pos,
    ensures
        step_rel(r, spec_term(chars@, pos as int, states@, next_state_id)),
        r matches Some((st, p, n)) ==> {
            &&& pos <= p <= chars@.len()
            &&& next_state_id <= n
            &&& n as int <= next_state_id as int + 2 * (p - pos)
            &&& building_wf(st@, n)
        },
    decreases chars@.len() - pos, 2int,
{
    let ghost states0 = states@;
    if pos < chars.len() && chars[pos] == '|' {
        return None;
    }
    if pos >= chars.len() {
        return Some((states, pos, next_state_id));
    }
    match factor(chars, pos, states, next_state_id) {
        None => None,
        Some((st0, p0, n0)) => {
            let mut looped_states = st0;
            let mut looped_pos = p0;
            let mut looped_next = n0;
            while looped_pos < chars.len() && chars[looped_pos] != '|' && chars[looped_pos] != ')'
                invariant
                    pos <= looped_pos <= chars@.len(),
                    building_wf(looped_states@, looped_next),
                    next_state_id <= looped_next,
                    looped_next as int <= next_state_id as int + 2 * (looped_pos - pos),
                    spec_term(chars@, pos as int, states0, next_state_id) == spec_term_tail(
                        chars@,
                        looped_pos as int,
                        looped_states@,
                        looped_next,
                    ),
                decreases chars@.len() - looped_pos,
            {
                let ghost pre_states = looped_states@;
                let ghost pre_pos = looped_pos as int;
                let ghost pre_next = looped_next;
                match factor(chars, looped_pos, looped_states, looped_next) {
                    None => {
                        proof {
                            assert(spec_term_tail(chars@, pre_pos, pre_states, pre_next)
                                is None);
                        }
                        return None;
                    },
                    Some((result_states, result_pos, result_next)) => {
                        looped_states = result_states;
                        looped_pos = result_pos;
                        looped_next = result_next;
                        proof {
                            assert(spec_term_tail(chars@, pre_pos, pre_states, pre_next)
                                == spec_term_tail(
                                chars@,
                                looped_pos as int,
                                looped_states@,
                                looped_next,
                            ));
                        }
                    },
                }
            }
            Some((looped_states, looped_pos, looped_next))
        },
    }
}

/// Parses a whole alternation: a term followed by any number of `|`-terms,
/// splicing one branching state in front per further alternative.
#[verifier::loop_isolation(false)]
fn regex(chars: &Vec<char>, pos: usize, states: Vec<State>, next_state_id: u32) -> (r: Option<
    (Vec<State>, usize, u32),
>)
    requires
        pos <= chars@.len(),
        chars@.len() <= 0x4000_0000,
        building_wf(states@, next_state_id),
        next_state_id as int <= 2 * pos,
    ensures
        step_rel(r, spec_regex(chars@, pos as int, states@, next_state_id)),
        r matches Some((st, p, n)) ==> {
            &&& pos <= p <= chars@.len()
            &&& next_state_id <= n
            &&& n as int <= next_state_id as int + 2 * (p - pos)
            &&& building_wf(st@, n)
        },
    decreases chars@.len() - pos, 3int,
{
    let ghost states0 = states@;
    let group_start_id = next_state_id;
    match term(chars, pos, states, next_state_id) {
        None => None,
        Some((st0, p0, n0)) => {
            let mut looped_states = st0;
            let mut looped_pos = p0;
            let mut looped_next = n0;
            while looped_pos < chars.len() && chars[looped_pos] == '|'
                invariant
                    pos <= looped_pos <= chars@.len(),
                    building_wf(looped_states@, looped_next),
                    next_state_id <= looped_next,
                    looped_next as int <= next_state_id as int + 2 * (looped_pos - pos),
                    group_start_id == next_state_id,
                    spec_regex(chars@, pos as int, states0, next_state_id) == spec_regex_tail(
                        chars@,
                        looped_pos as int,
                        looped_states@,
                        looped_next,
                        group_start_id,
                    ),
                decreases chars@.len() - looped_pos,
            {
                let ghost looped0 = looped_next;
                let ghost pre_states = looped_states@;
                let ghost pre_pos = looped_pos as int;
                match term(chars, looped_pos + 1, looped_states, looped_next) {
                    None => {
                        proof {
                            assert(spec_regex_tail(
                                chars@,
                                pre_pos,
                                pre_states,
                                looped0,
                                group_start_id,
                            ) is None);
                        }
                        return None;
                    },
                    Some((result_states, result_pos, result_next)) => {
                        let new_branch = State {
                            id: group_start_id,
                            matching_symbol: Symbol::Branching,
                            branch_1: Branch::StateId(group_start_id + 1),
                            branch_2: Branch::StateId(looped_next + 1),
                        };
                        let ghost orig = result_states@;
                        let mut new_states = result_states;
                        let mut k: usize = 0;
                        while k < new_states.len()
                            invariant
                                k <= orig.len(),
                                new_states@.len() == orig.len(),
                                forall|i: int| k <= i < orig.len() ==> new_states@[i] == orig[i],
                                forall|i: int|
                                    0 <= i < k ==> new_states@[i] == spec_alt_shift(
                                        orig[i],
                                        group_start_id,
                                        looped0,
                                        result_next,
                                    ),
                                looped0 == looped_next,
                                building_wf(orig, result_next),
                                result_next < 0xFFFF_FFFFu32,
                            decreases orig.len() - k,
                        {
                            if new_states[k].id >= group_start_id {
                                let mut t = new_states[k];
                                t.id = t.id + 1;
                                if let Branch::StateId(l) = t.branch_1 {
                                    if l == looped_next {
                                        t.branch_1 = Branch::StateId(result_next + 1);
                                    } else {
                                        t.branch_1 = Branch::StateId(l + 1);
                                    }
                                }
                                if let Branch::StateId(l) = t.branch_2 {
                                    if l == looped_next {
                                        t.branch_2 = Branch::StateId(result_next + 1);
                                    } else {
                                        t.branch_2 = Branch::StateId(l + 1);
                                    }
                                }
                                new_states.set(k, t);
                            }
                            k = k + 1;
                        }
                        proof {
                            assert(new_states@ =~= orig.map_values(
                                |x: State|
                                    spec_alt_shift(x, group_start_id, looped0, result_next),
                            ));
                        }
                        new_states.push(new_branch);
                        proof {
                            lemma_alt_splice_wf(
                                orig,
                                new_states@,
                                group_start_id,
                                looped0,
                                result_next,
                            );
                        }
                        looped_states = new_states;
                        looped_pos = result_pos;
                        looped_next = result_next + 1;
                    },
                }
            }
            Some((looped_states, looped_pos, looped_next))
        },
    }
}

/// The first occurrence of id `k` is found within bounds whenever some state
/// carries that id, and nothing before it carries it.
proof fn lemma_find_id(v: Seq<State>, k: u32)
    requires
        exists|i: int| 0 <= i < v.len() && v[i].id == k,
    ensures
        0 <= spec_find_id(v, k) < v.len(),
        v[spec_find_id(v, k)].id == k,
        forall|m: int| 0 <= m < spec_find_id(v, k) ==> v[m].id != k,
    decreases v.len(),
{
    if v.len() == 0 {
    } else if v[0].id == k {
    } else {
        let w = choose|i: int| 0 <= i < v.len() && v[i].id == k;
        assert(v.drop_first()[w - 1] == v[w]);
        lemma_find_id(v.drop_first(), k);
        let f = spec_find_id(v.drop_first(), k);
        assert(v.drop_first()[f] == v[f + 1]);
        assert forall|m: int| 0 <= m < spec_find_id(v, k) implies v[m].id != k by {
            if m > 0 {
                assert(v.drop_first()[m - 1] == v[m]);
            }
        }
    }
}

/// Pigeonhole: with pairwise distinct ids all below the collection's
/// length, every id below the length occurs.
proof fn lemma_ids_cover(v: Seq<State>, k: u32)
    requires
        ids_distinct(v),
        forall|i: int| 0 <= i < v.len() ==> (#[trigger] v[i]).id < v.len(),
        k < v.len(),
    ensures
        exists|i: int| 0 <= i < v.len() && v[i].id == k,
{
    let ids = Seq::new(v.len(), |i: int| v[i].id as int);
    assert(ids.no_duplicates());
    ids.unique_seq_to_set();
    let range = vstd::set_lib::set_int_range(0, v.len() as int);
    vstd::set_lib::lemma_int_range(0, v.len() as int);
    assert(ids.to_set().subset_of(range)) by {
        assert forall|x: int| ids.to_set().contains(x) implies range.contains(x) by {
            let i = choose|i: int| 0 <= i < ids.len() && ids[i] == x;
            assert(v[i].id < v.len());
        }
    }
    vstd::set_lib::lemma_len_subset(ids.to_set(), range);
    vstd::set_lib::lemma_subset_equality(ids.to_set(), range);
    assert(range.contains(k as int));
    assert(ids.contains(k as int));
    let i = choose|i: int| 0 <= i < ids.len() && ids[i] == k as int;
    assert(v[i].id == k);
}

/// Reorders a finished automaton so that the state carrying id `k` sits at
/// position `k`.
#[verifier::loop_isolation(false)]
fn sort_states_by_id(fsm: &Vec<State>) -> (r: Vec<State>)
    requires
        fsm@.len() <= 0xFFFF_FFFF,
        ids_distinct(fsm@),
        forall|i: int| 0 <= i < fsm@.len() ==> (#[trigger] fsm@[i]).id < fsm@.len(),
    ensures
        r@ == spec_sorted_by_id(fsm@),
{
    let n = fsm.len();
    let mut out: Vec<State> = Vec::new();
    let mut k: usize = 0;
    while k < n
        invariant
            k <= n,
            out@ == spec_sorted_by_id(fsm@).take(k as int),
        decreases n - k,
    {
        proof {
            lemma_ids_cover(fsm@, k as u32);
            lemma_find_id(fsm@, k as u32);
        }
        let mut j: usize = 0;
        while j < n && fsm[j].id != k as u32
            invariant
                j <= spec_find_id(fsm@, k as u32),
                k < n,
            decreases n - j,
        {
            j = j + 1;
        }
        proof {
            assert(j == spec_find_id(fsm@, k as u32));
        }
        out.push(fsm[j]);
        k = k + 1;
        proof {
            assert(out@ =~= spec_sorted_by_id(fsm@).take(k as int));
        }
    }
    proof {
        assert(spec_sorted_by_id(fsm@).take(n as int) =~= spec_sorted_by_id(fsm@));
    }
    out
}

/// Walks every state and resolves edges at the automaton's final id into the
/// `Finish` sentinel.
#[verifier::loop_isolation(false)]
fn resolve_finish(fsm: Vec<State>, final_state: u32) -> (r: Vec<State>)
    ensures
        r@ == fsm@.map_values(|x: State| spec_finalize(x, final_state)),
{
    let ghost orig = fsm@;
    let mut fsm = fsm;
    let mut x: usize = 0;
    while x < fsm.len()
        invariant
            x <= orig.len(),
            fsm@.len() == orig.len(),
            forall|i: int| x <= i < orig.len() ==> fsm@[i] == orig[i],
            forall|i: int| 0 <= i < x ==> fsm@[i] == spec_finalize(orig[i], final_state),
        decreases orig.len() - x,
    {
        let mut st = fsm[x];
        if let Branch::StateId(l) = st.branch_1 {
            if l == final_state {
                st.branch_1 = Branch::Finish;
            }
        }
        if let Branch::StateId(l) = st.branch_2 {
            if l == final_state {
                st.branch_2 = Branch::Finish;
            }
        }
        fsm.set(x, st);
        x = x + 1;
    }
    proof {
        assert(fsm@ =~= orig.map_values(|s: State| spec_finalize(s, final_state)));
    }
    fsm
}

/// Translates a regex string into an NFA of two-edge states.
///
/// The result is exactly what the construction model describes: a pattern
/// the grammar cannot derive yields an empty automaton, and on success the
/// state ids form the contiguous range `0 .. len` with every edge pointing
/// inside the automaton or at `Finish`.
pub fn parse(regex_str: &str) -> (r: Vec<State>)
    requires
        regex_str@.len() <= 0x4000_0000,
    ensures
        r@ == spec_parse(regex_str@),
        nfa_wf(r@),
{
    let chars = crate::ndfa::str_chars(regex_str);
    let optfsm = regex(&chars, 0, Vec::new(), 0);
    match optfsm {
        Some((fsm, _, final_state)) => {
            let sorted = sort_states_by_id(&fsm);
            let finished = resolve_finish(sorted, final_state);
            proof {
                let srt = spec_sorted_by_id(fsm@);
                assert forall|k: int|
                    0 <= k < srt.len() implies (#[trigger] srt[k]).id == k && srt[k].id
                    < final_state && edge_le(srt[k].branch_1, final_state) && edge_le(
                    srt[k].branch_2,
                    final_state,
                ) by {
                    lemma_ids_cover(fsm@, k as u32);
                    lemma_find_id(fsm@, k as u32);
                }
                assert(nfa_wf(finished@));
                assert(finished@ == spec_parse(regex_str@));
            }
            finished
        },
        None => Vec::new(),
    }
}

} // verus!
