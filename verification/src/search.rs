//! DFA matcher / scanner.
//!
//! Given a finished DFA and a block of text, each newline-delimited line is
//! scanned left to right: for every candidate start offset the DFA is walked
//! forward from state 0, and the first accepted substring of the line is
//! reported. A line with no accepting offset contributes nothing.

use vstd::prelude::*;

use crate::dfa::dfa_view;
use crate::dfa::dfa_wf;
use crate::dfa::is_chain_nfa;
use crate::dfa::spec_convert;
use crate::dfa::NextState;
use crate::dfa::State;
use crate::dfa::Transition;
use crate::ndfa::State as NDFAState;

verus! {

/// The index of the first transition matching `s`, or -1 when none does.
pub open spec fn spec_first_edge(ns: Seq<NextState>, s: char) -> int
    decreases ns.len(),
{
    if ns.len() == 0 {
        -1
    } else if ns[0].matched == s {
        0
    } else {
        let r = spec_first_edge(ns.drop_first(), s);
        if r == -1 {
            -1
        } else {
            1 + r
        }
    }
}

proof fn lemma_first_edge(ns: Seq<NextState>, s: char)
    ensures
        (exists|j: int| 0 <= j < ns.len() && ns[j].matched == s) ==> {
            let f = spec_first_edge(ns, s);
            0 <= f < ns.len() && ns[f].matched == s && forall|m: int|
                0 <= m < f ==> ns[m].matched != s
        },
        !(exists|j: int| 0 <= j < ns.len() && ns[j].matched == s) ==> spec_first_edge(ns, s)
            == -1,
    decreases ns.len(),
{
    if ns.len() == 0 {
    } else if ns[0].matched == s {
    } else {
        lemma_first_edge(ns.drop_first(), s);
        assert forall|j: int| 0 <= j < ns.len() && ns[j].matched == s implies j >= 1 by {}
        if exists|j: int| 0 <= j < ns.len() && ns[j].matched == s {
            let w = choose|j: int| 0 <= j < ns.len() && ns[j].matched == s;
            assert(ns.drop_first()[w - 1] == ns[w]);
            let f = spec_first_edge(ns.drop_first(), s);
            assert(ns.drop_first()[f] == ns[f + 1]);
            assert forall|m: int| 0 <= m < spec_first_edge(ns, s) implies ns[m].matched != s by {
                if m > 0 {
                    assert(ns.drop_first()[m - 1] == ns[m]);
                }
            }
        } else {
            assert forall|j: int|
                0 <= j < ns.drop_first().len() implies ns.drop_first()[j].matched != s by {
                assert(ns.drop_first()[j] == ns[j + 1]);
            }
        }
    }
}

/// How one walk of the scanner ends: accepting at an end position, stuck on
/// a character with no edge, or out of input in a non-accepting state.
pub enum WalkOutcome {
    Matched(int),
    NoEdge,
    RanOut,
}

/// The scanner's walk from `state` at position `i`: a looping character is
/// consumed in place, the `Finish` outcome accepts before consuming, a
/// matching transition advances, a missing one ends the walk, and exhausted
/// input accepts exactly in a `Finish` state.
pub open spec fn spec_walk(line: Seq<char>, dfa: Seq<State>, i: int, state: int) -> WalkOutcome
    decreases line.len() - i,
{
    if i < 0 || i >= line.len() {
        if dfa[state].tran is Finish {
            WalkOutcome::Matched(line.len() as int)
        } else {
            WalkOutcome::RanOut
        }
    } else {
        let s = line[i];
        if dfa[state].looping_chars@.contains(s) {
            spec_walk(line, dfa, i + 1, state)
        } else {
            match dfa[state].tran {
                Transition::Finish => WalkOutcome::Matched(i),
                Transition::NextStates(ns) => {
                    let f = spec_first_edge(ns@, s);
                    if f == -1 {
                        WalkOutcome::NoEdge
                    } else {
                        spec_walk(line, dfa, i + 1, ns@[f].id as int)
                    }
                },
            }
        }
    }
}

/// The first accepted substring of a line, scanning candidate start offsets
/// left to right: a walk that matches yields `(start, end)`; any failed
/// attempt — stuck on a missing edge or out of input in a non-accepting
/// state — retries from the next offset, until none is left.
pub open spec fn spec_find_from(line: Seq<char>, dfa: Seq<State>, start: int) -> Option<(int, int)>
    decreases line.len() - start,
{
    if start < 0 || start > line.len() {
        None
    } else {
        match spec_walk(line, dfa, start, 0) {
            WalkOutcome::Matched(end) => Some((start, end)),
            WalkOutcome::RanOut => if start + 1 <= line.len() {
                spec_find_from(line, dfa, start + 1)
            } else {
                None
            },
            WalkOutcome::NoEdge => if start + 1 <= line.len() {
                spec_find_from(line, dfa, start + 1)
            } else {
                None
            },
        }
    }
}

/// The matched substring of one line, if any.
pub open spec fn spec_find_line(line: Seq<char>, dfa: Seq<State>) -> Option<Seq<char>> {
    match spec_find_from(line, dfa, 0) {
        Some((s, e)) => Some(line.subrange(s, e)),
        None => None,
    }
}

/// The newline-split of `text`, with the current line started at `start`
/// and scanned up to `i`: `n` separators yield `n + 1` lines.
pub open spec fn spec_lines_from(text: Seq<char>, start: int, i: int) -> Seq<Seq<char>>
    decreases text.len() - i,
{
    if i < start || i > text.len() || start < 0 {
        seq![]
    } else if i == text.len() {
        seq![text.subrange(start, i)]
    } else if text[i] == '\n' {
        seq![text.subrange(start, i)] + spec_lines_from(text, i + 1, i + 1)
    } else {
        spec_lines_from(text, start, i + 1)
    }
}

/// The newline-delimited lines of a text block.
pub open spec fn spec_lines(text: Seq<char>) -> Seq<Seq<char>> {
    spec_lines_from(text, 0, 0)
}

/// The matched substrings of a sequence of lines, in line order; lines
/// without a match contribute nothing.
pub open spec fn spec_matches(lines: Seq<Seq<char>>, dfa: Seq<State>) -> Seq<Seq<char>>
    decreases lines.len(),
{
    if lines.len() == 0 {
        seq![]
    } else {
        let rest = spec_matches(lines.drop_first(), dfa);
        match spec_find_line(lines[0], dfa) {
            Some(m) => seq![m] + rest,
            None => rest,
        }
    }
}

/// The matcher's whole model: per line of the text, the first substring the
/// DFA accepts.
pub open spec fn spec_find_matching(text: Seq<char>, dfa: Seq<State>) -> Seq<Seq<char>> {
    spec_matches(spec_lines(text), dfa)
}

/// Whether a character vector holds `s`.
fn contains_char(v: &Vec<char>, s: char) -> (r: bool)
    ensures
        r == v@.contains(s),
{
    let mut i: usize = 0;
    while i < v.len()
        invariant
            i <= v@.len(),
            forall|j: int| 0 <= j < i ==> v@[j] != s,
        decreases v@.len() - i,
    {
        if v[i] == s {
            return true;
        }
        i = i + 1;
    }
    false
}

/// How one executable walk of a line ends.
enum WalkEnd {
    Matched(usize),
    NoEdge,
    RanOut,
}

/// Walks the DFA from state 0 over `searched_line[from..]`.
#[verifier::loop_isolation(false)]
fn walk_line(searched_line: &str, from: usize, dfsm: &Vec<State>) -> (r: WalkEnd)
    requires
        dfa_wf(dfsm@),
        from <= searched_line@.len(),
    ensures
        match (r, spec_walk(searched_line@, dfsm@, from as int, 0)) {
            (WalkEnd::Matched(e1), WalkOutcome::Matched(e2)) => e1 == e2 && from <= e1
                <= searched_line@.len(),
            (WalkEnd::NoEdge, WalkOutcome::NoEdge) => from < searched_line@.len(),
            (WalkEnd::RanOut, WalkOutcome::RanOut) => true,
            _ => false,
        },
{
    let n = searched_line.unicode_len();
    let mut i = from;
    let mut next_id: usize = 0;
    while i < n
        invariant
            from <= i <= n,
            n == searched_line@.len(),
            next_id < dfsm@.len(),
            spec_walk(searched_line@, dfsm@, from as int, 0) == spec_walk(
                searched_line@,
                dfsm@,
                i as int,
                next_id as int,
            ),
        decreases n - i,
    {
        let s = searched_line.get_char(i);
        if contains_char(&dfsm[next_id].looping_chars, s) {
            i = i + 1;
        } else {
            match &dfsm[next_id].tran {
                Transition::Finish => {
                    return WalkEnd::Matched(i);
                },
                Transition::NextStates(ns) => {
                    proof {
                        lemma_first_edge(ns@, s);
                    }
                    let mut t: usize = 0;
                    while t < ns.len() && ns[t].matched != s
                        invariant
                            t <= ns@.len(),
                            forall|j: int| 0 <= j < t ==> ns@[j].matched != s,
                        decreases ns@.len() - t,
                    {
                        t = t + 1;
                    }
                    if t < ns.len() {
                        proof {
                            assert(t as int == spec_first_edge(ns@, s));
                        }
                        next_id = ns[t].id;
                        i = i + 1;
                    } else {
                        return WalkEnd::NoEdge;
                    }
                },
            }
        }
    }
    match &dfsm[next_id].tran {
        Transition::Finish => WalkEnd::Matched(n),
        _ => WalkEnd::RanOut,
    }
}

/// Finds the first substring of one line accepted by the DFA, restarting at
/// the next offset on every failed attempt.
#[verifier::loop_isolation(false)]
fn find_line(searched_line: &str, dfsm: &Vec<State>) -> (r: Option<String>)
    requires
        dfa_wf(dfsm@),
    ensures
        match (r, spec_find_line(searched_line@, dfsm@)) {
            (Some(s), Some(m)) => s@ == m,
            (None, None) => true,
            _ => false,
        },
{
    let n = searched_line.unicode_len();
    let mut search_start_index: usize = 0;
    loop
        invariant
            search_start_index <= n,
            n == searched_line@.len(),
            spec_find_from(searched_line@, dfsm@, 0) == spec_find_from(
                searched_line@,
                dfsm@,
                search_start_index as int,
            ),
        decreases n - search_start_index,
    {
        match walk_line(searched_line, search_start_index, dfsm) {
            WalkEnd::Matched(end) => {
                let found = searched_line.substring_char(search_start_index, end);
                return Some(String::from_str(found));
            },
            WalkEnd::RanOut => {
                if search_start_index == n {
                    return None;
                }
                search_start_index = search_start_index + 1;
            },
            WalkEnd::NoEdge => {
                search_start_index = search_start_index + 1;
            },
        }
    }
}

/// Scans each newline-delimited line of `searched_str` with the DFA and
/// returns the matched substrings, one per matching line, in line order.
#[verifier::loop_isolation(false)]
pub fn find_matching(searched_str: &str, dfsm: &Vec<State>) -> (r: Vec<String>)
    requires
        dfa_wf(dfsm@),
    ensures
        r@.len() == spec_find_matching(searched_str@, dfsm@).len(),
        forall|i: int|
            0 <= i < r@.len() ==> (#[trigger] r@[i])@ == spec_find_matching(
                searched_str@,
                dfsm@,
            )[i],
{
    let ghost text = searched_str@;
    let ghost full = spec_find_matching(searched_str@, dfsm@);
    let n = searched_str.unicode_len();
    let mut result: Vec<String> = Vec::new();
    let mut line_start: usize = 0;
    let mut i: usize = 0;
    while i < n
        invariant
            line_start <= i <= n,
            n == text.len(),
            text == searched_str@,
            full == result@.map_values(|s: String| s@) + spec_matches(
                spec_lines_from(text, line_start as int, i as int),
                dfsm@,
            ),
        decreases n - i,
    {
        if searched_str.get_char(i) == '\n' {
            let ghost pre = result@;
            let line = searched_str.substring_char(line_start, i);
            let found = find_line(line, dfsm);
            proof {
                let lines_here = spec_lines_from(text, line_start as int, i as int);
                let rest = spec_lines_from(text, i + 1, i + 1);
                assert(lines_here == seq![text.subrange(line_start as int, i as int)] + rest);
                assert((seq![text.subrange(line_start as int, i as int)]
                    + rest).drop_first() =~= rest);
            }
            match found {
                Some(m) => {
                    result.push(m);
                    proof {
                        assert(result@.map_values(|s: String| s@) =~= pre.map_values(
                            |s: String| s@,
                        ).push(result@[result@.len() - 1]@));
                    }
                },
                None => {},
            }
            line_start = i + 1;
        }
        i = i + 1;
    }
    let ghost pre = result@;
    let line = searched_str.substring_char(line_start, n);
    let found = find_line(line, dfsm);
    proof {
        assert(spec_lines_from(text, line_start as int, n as int) == seq![
            text.subrange(line_start as int, n as int),
        ]);
        assert((seq![text.subrange(line_start as int, n as int)]).drop_first()
            =~= Seq::<Seq<char>>::empty());
    }
    match found {
        Some(m) => {
            result.push(m);
            proof {
                assert(result@.map_values(|s: String| s@) =~= pre.map_values(
                    |s: String| s@,
                ).push(result@[result@.len() - 1]@));
            }
        },
        None => {},
    }
    proof {
        assert(spec_matches(Seq::<Seq<char>>::empty(), dfsm@) =~= Seq::<Seq<char>>::empty());
        assert(full =~= result@.map_values(|s: String| s@));
    }
    result
}

// ---------------------------------------------------------------------------
// The literal-only round trip, scanner half
// ---------------------------------------------------------------------------

/// The pattern `s` occurs in `line` at offset `o`.
pub open spec fn spec_occurs_at(line: Seq<char>, o: int, s: Seq<char>) -> bool {
    0 <= o && o + s.len() <= line.len() && forall|q: int| 0 <= q < s.len() ==> line[o + q] == s[q]
}

/// The chain DFA of a literal-only pattern, as the scanner sees it: state
/// `p` consumes exactly `s[p]` toward state `p + 1`, nothing loops, and the
/// one state past the end accepts with no way on.
spec fn chain_dfa(s: Seq<char>, d: Seq<State>) -> bool {
    &&& d.len() == s.len() + 1
    &&& forall|p: int|
        0 <= p < s.len() ==> (#[trigger] d[p]).looping_chars@.len() == 0 && d[p].tran
            is NextStates && d[p].tran->NextStates_0@.len() == 1
            && d[p].tran->NextStates_0@[0].matched == s[p]
            && d[p].tran->NextStates_0@[0].id as int == p + 1
    &&& d[s.len() as int].looping_chars@.len() == 0
    &&& d[s.len() as int].tran is Finish
}

/// The tail of the pattern from `p` sits in the line at position `i`.
spec fn spec_tail_at(line: Seq<char>, i: int, s: Seq<char>, p: int) -> bool {
    i + (s.len() - p) <= line.len() && (forall|q: int|
        0 <= q < s.len() - p ==> #[trigger] line[i + q] == s[p + q])
}

/// A walk of the chain DFA matches exactly when the rest of the pattern
/// sits at the current position.
#[verifier::rlimit(100)]
proof fn lemma_chain_walk(s: Seq<char>, d: Seq<State>, line: Seq<char>, i: int, p: int)
    requires
        1 <= s.len(),
        chain_dfa(s, d),
        0 <= i <= line.len(),
        0 <= p <= s.len(),
    ensures
        spec_tail_at(line, i, s, p) ==> spec_walk(line, d, i, p) == WalkOutcome::Matched(
            i + (s.len() - p),
        ),
        !spec_tail_at(line, i, s, p) ==> !(spec_walk(line, d, i, p) is Matched),
    decreases line.len() - i,
{
    let n = s.len() as int;
    if p == n {
        assert(spec_tail_at(line, i, s, p));
        if i >= line.len() {
            assert(spec_walk(line, d, i, p) == WalkOutcome::Matched(line.len() as int));
        } else {
            assert(!d[p].looping_chars@.contains(line[i])) by {
                assert(d[p].looping_chars@.len() == 0);
            }
            assert(spec_walk(line, d, i, p) == WalkOutcome::Matched(i));
        }
    } else {
        if i >= line.len() {
            assert(!(spec_walk(line, d, i, p) is Matched));
            assert(!spec_tail_at(line, i, s, p));
        } else {
            let c = line[i];
            assert(!d[p].looping_chars@.contains(c)) by {
                assert(d[p].looping_chars@.len() == 0);
            }
            assert(d[p].tran is NextStates);
            let ns = d[p].tran->NextStates_0;
            assert(ns@.len() == 1);
            assert(ns@[0].matched == s[p]);
            if c == s[p] {
                assert(spec_first_edge(ns@, c) == 0);
                assert(ns@[0].id as int == p + 1);
                lemma_chain_walk(s, d, line, i + 1, p + 1);
                assert(spec_walk(line, d, i, p) == spec_walk(line, d, i + 1, p + 1));
                if spec_tail_at(line, i, s, p) {
                    assert(spec_tail_at(line, i + 1, s, p + 1)) by {
                        assert forall|q: int|
                            0 <= q < n - (p + 1) implies #[trigger] line[i + 1 + q] == s[p + 1
                            + q] by {
                            assert(line[i + (q + 1)] == s[p + (q + 1)]);
                        }
                    }
                } else {
                    assert(!spec_tail_at(line, i + 1, s, p + 1)) by {
                        if spec_tail_at(line, i + 1, s, p + 1) {
                            assert forall|q: int|
                                0 <= q < n - p implies #[trigger] line[i + q] == s[p + q] by {
                                if q > 0 {
                                    assert(line[i + 1 + (q - 1)] == s[p + 1 + (q - 1)]);
                                }
                            }
                            assert(spec_tail_at(line, i, s, p));
                        }
                    }
                }
            } else {
                assert(spec_first_edge(ns@.drop_first(), c) == -1) by {
                    assert(ns@.drop_first().len() == 0);
                }
                assert(spec_first_edge(ns@, c) == -1);
                assert(spec_walk(line, d, i, p) == WalkOutcome::NoEdge);
                assert(!spec_tail_at(line, i, s, p)) by {
                    if spec_tail_at(line, i, s, p) {
                        assert(line[i + 0] == s[p + 0]);
                    }
                }
            }
        }
    }
}

/// The scan of the chain DFA from `start` succeeds exactly when the pattern
/// occurs at or after `start`, and what it matches is an occurrence of the
/// pattern.
proof fn lemma_chain_find_from(s: Seq<char>, d: Seq<State>, line: Seq<char>, start: int)
    requires
        1 <= s.len(),
        chain_dfa(s, d),
        0 <= start <= line.len(),
    ensures
        (exists|o: int| start <= o && spec_occurs_at(line, o, s)) ==> (spec_find_from(
            line,
            d,
            start,
        ) matches Some((o2, e2)) && start <= o2 && e2 == o2 + s.len() && spec_occurs_at(
            line,
            o2,
            s,
        )),
        !(exists|o: int| start <= o && spec_occurs_at(line, o, s)) ==> spec_find_from(
            line,
            d,
            start,
        ) is None,
    decreases line.len() - start,
{
    let n = s.len() as int;
    lemma_chain_walk(s, d, line, start, 0);
    if start + n <= line.len() && (forall|q: int| 0 <= q < n ==> #[trigger] line[start + q] == s[
        0 + q
    ]) {
        assert(spec_walk(line, d, start, 0) == WalkOutcome::Matched(start + n));
        assert(spec_occurs_at(line, start, s)) by {
            assert forall|q: int| 0 <= q < n implies #[trigger] line[start + q] == s[q] by {
                assert(line[start + q] == s[0 + q]);
            }
        }
    } else {
        assert(!(spec_walk(line, d, start, 0) is Matched));
        assert(!spec_occurs_at(line, start, s)) by {
            if spec_occurs_at(line, start, s) {
                assert forall|q: int| 0 <= q < n implies #[trigger] line[start + q] == s[0
                    + q] by {
                    assert(line[start + q] == s[q]);
                }
            }
        }
        if exists|o: int| start <= o && spec_occurs_at(line, o, s) {
            let o = choose|o: int| start <= o && spec_occurs_at(line, o, s);
            assert(o + n <= line.len());
            assert(o != start);
            assert(start + 1 <= o);
            assert(start + 1 <= line.len());
            lemma_chain_find_from(s, d, line, start + 1);
        } else {
            if start + 1 <= line.len() {
                lemma_chain_find_from(s, d, line, start + 1);
                assert(!(exists|o: int| start + 1 <= o && spec_occurs_at(line, o, s)));
            }
        }
    }
}

/// The literal-only round trip, end to end at the model level: for the DFA
/// the determinizer builds from the chain automaton of a literal-only
/// pattern, a line's scan finds a match exactly when the pattern occurs in
/// the line, and what it finds is the pattern itself, nothing else.
pub proof fn lemma_literal_round_trip(
    s: Seq<char>,
    nfa: Seq<NDFAState>,
    d: Seq<State>,
    line: Seq<char>,
)
    requires
        1 <= s.len() <= 0x4000_0000,
        is_chain_nfa(s, nfa),
        dfa_view(d) == spec_convert(nfa),
        forall|i: int|
            0 <= i < d.len() ==> ((#[trigger] d[i]).tran is Finish <==> dfa_view(d)[i].1.len()
                == 0),
    ensures
        spec_find_line(line, d) is Some <==> (exists|o: int| spec_occurs_at(line, o, s)),
        spec_find_line(line, d) matches Some(m) ==> m == s,
{
    let n = s.len() as int;
    crate::dfa::lemma_literal_chain_determinizes(s, nfa);
    assert(dfa_view(d).len() == d.len());
    assert(d.len() == n + 1);
    // The executable DFA has the chain shape.
    assert(chain_dfa(s, d)) by {
        assert forall|p: int|
            0 <= p < n implies (#[trigger] d[p]).looping_chars@.len() == 0 && d[p].tran
            is NextStates && d[p].tran->NextStates_0@.len() == 1
            && d[p].tran->NextStates_0@[0].matched == s[p]
            && d[p].tran->NextStates_0@[0].id as int == p + 1 by {
            assert(dfa_view(d)[p] == crate::dfa::dfa_state_view(d[p]));
            assert(crate::dfa::dfa_state_view(d[p]) == ((
                Seq::<char>::empty(),
                seq![(s[p], p + 1)],
            )));
            assert(dfa_view(d)[p].1.len() == 1);
            assert(d[p].tran is NextStates);
            let ns = d[p].tran->NextStates_0;
            let v = ns@.map_values(|t: NextState| (t.matched, t.id as int));
            assert(v == seq![(s[p], p + 1)]);
            assert(v.len() == 1);
            assert(ns@.len() == 1);
            assert(v[0] == (ns@[0].matched, ns@[0].id as int));
            assert(ns@[0].matched == s[p]);
            assert(ns@[0].id as int == p + 1);
        }
        assert(dfa_view(d)[n] == crate::dfa::dfa_state_view(d[n]));
        assert(crate::dfa::dfa_state_view(d[n]) == ((
            Seq::<char>::empty(),
            Seq::<(char, int)>::empty(),
        )));
        assert(d[n].tran is Finish);
    }
    lemma_chain_find_from(s, d, line, 0);
    if exists|o: int| spec_occurs_at(line, o, s) {
        let o = choose|o: int| spec_occurs_at(line, o, s);
        assert(0 <= o && spec_occurs_at(line, o, s));
        assert(spec_find_from(line, d, 0) matches Some((o2, e2)) && e2 == o2 + n
            && spec_occurs_at(line, o2, s));
        match spec_find_from(line, d, 0) {
            Some((o2, e2)) => {
                assert(spec_find_line(line, d) == Some(line.subrange(o2, e2)));
                assert(line.subrange(o2, o2 + n) =~= s);
            },
            None => {
                assert(false);
            },
        }
    } else {
        assert(spec_find_from(line, d, 0) is None);
    }
}


/// The number of lines in which the pattern occurs.
pub open spec fn spec_count_matching(lines: Seq<Seq<char>>, s: Seq<char>) -> int
    decreases lines.len(),
{
    if lines.len() == 0 {
        0
    } else {
        (if exists|o: int| #[trigger] spec_occurs_at(lines[0], o, s) {
            1int
        } else {
            0int
        }) + spec_count_matching(lines.drop_first(), s)
    }
}

/// Per line of a line list, the literal pattern's DFA reports only the
/// pattern itself, one report per line containing it, and nothing else.
proof fn lemma_literal_matches(
    s: Seq<char>,
    nfa: Seq<NDFAState>,
    d: Seq<State>,
    lines: Seq<Seq<char>>,
)
    requires
        1 <= s.len() <= 0x4000_0000,
        is_chain_nfa(s, nfa),
        dfa_view(d) == spec_convert(nfa),
        forall|i: int|
            0 <= i < d.len() ==> ((#[trigger] d[i]).tran is Finish <==> dfa_view(d)[i].1.len()
                == 0),
    ensures
        forall|j: int|
            0 <= j < spec_matches(lines, d).len() ==> #[trigger] spec_matches(lines, d)[j] == s,
        spec_matches(lines, d).len() == spec_count_matching(lines, s),
        spec_matches(lines, d).len() > 0 <==> (exists|li: int, o: int|
            0 <= li < lines.len() && #[trigger] spec_occurs_at(lines[li], o, s)),
    decreases lines.len(),
{
    if lines.len() == 0 {
    } else {
        lemma_literal_round_trip(s, nfa, d, lines[0]);
        lemma_literal_matches(s, nfa, d, lines.drop_first());
        let rest = spec_matches(lines.drop_first(), d);
        match spec_find_line(lines[0], d) {
            Some(m) => {
                assert(m == s);
                assert(spec_matches(lines, d) == seq![m] + rest);
                assert forall|j: int|
                    0 <= j < spec_matches(lines, d).len() implies #[trigger] spec_matches(
                    lines,
                    d,
                )[j] == s by {
                    if j > 0 {
                        assert(spec_matches(lines, d)[j] == rest[j - 1]);
                    }
                }
                let o = choose|o: int| spec_occurs_at(lines[0], o, s);
                assert(spec_occurs_at(lines[0], o, s));
            },
            None => {
                assert(spec_matches(lines, d) == rest);
                assert(!(exists|o: int| spec_occurs_at(lines[0], o, s)));
                if rest.len() > 0 {
                    let (li, o) = choose|li: int, o: int|
                        0 <= li < lines.drop_first().len() && #[trigger] spec_occurs_at(
                            lines.drop_first()[li],
                            o,
                            s,
                        );
                    assert(lines.drop_first()[li] == lines[li + 1]);
                    assert(spec_occurs_at(lines[li + 1], o, s));
                }
                if exists|li: int, o: int|
                    0 <= li < lines.len() && #[trigger] spec_occurs_at(lines[li], o, s) {
                    let (li, o) = choose|li: int, o: int|
                        0 <= li < lines.len() && #[trigger] spec_occurs_at(lines[li], o, s);
                    assert(li != 0);
                    assert(lines.drop_first()[li - 1] == lines[li]);
                    assert(spec_occurs_at(lines.drop_first()[li - 1], o, s));
                    assert(rest.len() > 0);
                }
            },
        }
    }
}

/// The matcher half of the literal-only round trip, over a whole text: for
/// the DFA the determinizer builds from a literal-only pattern's chain
/// automaton, every substring the matcher reports is the pattern itself,
/// there is exactly one report per line containing the pattern, and nothing
/// is reported otherwise.
pub proof fn lemma_literal_find_matching(
    s: Seq<char>,
    nfa: Seq<NDFAState>,
    d: Seq<State>,
    text: Seq<char>,
)
    requires
        1 <= s.len() <= 0x4000_0000,
        is_chain_nfa(s, nfa),
        dfa_view(d) == spec_convert(nfa),
        forall|i: int|
            0 <= i < d.len() ==> ((#[trigger] d[i]).tran is Finish <==> dfa_view(d)[i].1.len()
                == 0),
    ensures
        forall|j: int|
            0 <= j < spec_find_matching(text, d).len() ==> #[trigger] spec_find_matching(
                text,
                d,
            )[j] == s,
        spec_find_matching(text, d).len() == spec_count_matching(spec_lines(text), s),
        spec_find_matching(text, d).len() > 0 <==> (exists|li: int, o: int|
            0 <= li < spec_lines(text).len() && #[trigger] spec_occurs_at(
                spec_lines(text)[li],
                o,
                s,
            )),
{
    lemma_literal_matches(s, nfa, d, spec_lines(text));
}

} // verus!