//! NFA → DFA determinizer.
//!
//! Classic subset construction specialized to the automaton shape of
//! [`crate::ndfa`]: sets of concurrently active NFA state ids become single
//! DFA states, characters that lead from a configuration back to itself are
//! recorded as looping characters instead of explicit transitions, and
//! configurations are merged by structural equality on their canonical
//! (strictly ascending) id sets.
//!
//! The worklist terminates because every configuration carries a distinct
//! subset of the NFA's ids, and a collection of distinct subsets of
//! `0 .. n` can hold at most `2^n` members; this bound is proved below via
//! the injective bitmask encoding of canonical id sets.

use vstd::prelude::*;
use vstd::set_lib::lemma_int_range;
use vstd::set_lib::lemma_len_subset;
use vstd::set_lib::set_int_range;

use crate::ndfa;
use crate::ndfa::Branch;
use crate::ndfa::State as NDFAState;
use crate::ndfa::StateType;

verus! {

/// A transition of a configuration under construction: the matched character
/// and the canonical NFA id set it leads to.
#[derive(Debug)]
pub(crate) struct IntermediateTransition {
    pub(crate) matched: char,
    pub(crate) id: Vec<u32>,
}

/// A DFA configuration under construction: the canonical set of NFA ids it
/// stands for, the characters that simply return to this configuration, and
/// its outgoing transitions.
#[derive(Debug)]
pub(crate) struct IntermediateState {
    pub(crate) ndfsa_ids: Vec<u32>,
    pub(crate) looping_chars: Vec<char>,
    pub(crate) tran: Vec<IntermediateTransition>,
}

impl IntermediateState {
    /// Creates a fresh configuration for a canonical id set.
    pub(crate) fn new(
        ndfsa_ids: Vec<u32>,
        looping_chars: Vec<char>,
        tran: Vec<IntermediateTransition>,
    ) -> (r: IntermediateState)
        ensures
            r.ndfsa_ids == ndfsa_ids,
            r.looping_chars == looping_chars,
            r.tran == tran,
    {
        IntermediateState { ndfsa_ids, looping_chars, tran }
    }
}

/// One outgoing transition of a finished DFA state.
#[derive(Clone, Copy, Debug, PartialEq, Eq)]
pub struct NextState {
    pub matched: char,
    pub id: usize,
}

/// The outcome of a finished DFA state: accepting with nothing further to
/// consume, or a list of transitions.
#[derive(Debug, PartialEq, Eq)]
pub enum Transition {
    Finish,
    NextStates(Vec<NextState>),
}

/// A finished DFA state: the characters that loop back to this same state,
/// and the tagged outcome.
#[derive(Debug, PartialEq, Eq)]
pub struct State {
    pub looping_chars: Vec<char>,
    pub tran: Transition,
}

/// Every transition of a finished DFA state points inside a DFA of `n`
/// states.
pub open spec fn dfa_state_wf(s: State, n: int) -> bool {
    match s.tran {
        Transition::Finish => true,
        Transition::NextStates(ts) => forall|i: int|
            0 <= i < ts@.len() ==> (#[trigger] ts@[i]).id < n,
    }
}

/// A finished DFA is well formed: it has a start state at id 0 and every
/// transition of every state targets a state of the DFA.
pub open spec fn dfa_wf(d: Seq<State>) -> bool {
    d.len() >= 1 && forall|i: int| 0 <= i < d.len() ==> dfa_state_wf(#[trigger] d[i], d.len() as int)
}

// ---------------------------------------------------------------------------
// Canonical id sets
// ---------------------------------------------------------------------------

/// A canonical id set: strictly ascending, hence free of duplicates.
pub open spec fn sorted_ids(v: Seq<u32>) -> bool {
    forall|i: int, j: int| 0 <= i < j < v.len() ==> v[i] < v[j]
}

/// All ids below `n`.
pub open spec fn ids_bounded(v: Seq<u32>, n: int) -> bool {
    forall|i: int| 0 <= i < v.len() ==> v[i] < n
}

/// A canonical id set over an automaton of `n` states.
pub open spec fn idset_wf(v: Seq<u32>, n: int) -> bool {
    sorted_ids(v) && ids_bounded(v, n)
}

/// 2 to the power `n`.
pub open spec fn spec_two_to(n: nat) -> nat
    decreases n,
{
    if n == 0 {
        1
    } else {
        2 * spec_two_to((n - 1) as nat)
    }
}

proof fn lemma_two_to_pos(n: nat)
    ensures
        spec_two_to(n) >= 1,
    decreases n,
{
    if n > 0 {
        lemma_two_to_pos((n - 1) as nat);
    }
}

proof fn lemma_two_to_mono(a: nat, b: nat)
    requires
        a <= b,
    ensures
        spec_two_to(a) <= spec_two_to(b),
    decreases b,
{
    if a < b {
        lemma_two_to_mono(a, (b - 1) as nat);
        lemma_two_to_pos((b - 1) as nat);
    }
}

/// The bitmask encoding of an id set: the sum of `2^id` over its members.
pub open spec fn ids_mask(v: Seq<u32>) -> nat
    decreases v.len(),
{
    if v.len() == 0 {
        0
    } else {
        ids_mask(v.drop_last()) + spec_two_to(v.last() as nat)
    }
}

/// The mask of a canonical set over `0 .. n` stays below `2^n`.
proof fn lemma_mask_bound(v: Seq<u32>, n: nat)
    requires
        sorted_ids(v),
        ids_bounded(v, n as int),
    ensures
        ids_mask(v) < spec_two_to(n),
    decreases v.len(),
{
    if v.len() == 0 {
        lemma_two_to_pos(n);
    } else {
        let last = v.last();
        lemma_mask_bound(v.drop_last(), last as nat);
        lemma_two_to_mono((last + 1) as nat, n);
    }
}

/// Two canonical sets with the same mask are the same set.
proof fn lemma_mask_injective(a: Seq<u32>, b: Seq<u32>)
    requires
        sorted_ids(a),
        sorted_ids(b),
        ids_mask(a) == ids_mask(b),
    ensures
        a == b,
    decreases a.len() + b.len(),
{
    if a.len() == 0 && b.len() == 0 {
        assert(a =~= b);
    } else if a.len() == 0 {
        lemma_two_to_pos(b.last() as nat);
        assert(false);
    } else if b.len() == 0 {
        lemma_two_to_pos(a.last() as nat);
        assert(false);
    } else {
        if a.last() < b.last() {
            lemma_mask_bound(a, (a.last() + 1) as nat);
            lemma_two_to_mono((a.last() + 1) as nat, b.last() as nat);
            assert(false);
        } else if b.last() < a.last() {
            lemma_mask_bound(b, (b.last() + 1) as nat);
            lemma_two_to_mono((b.last() + 1) as nat, a.last() as nat);
            assert(false);
        } else {
            lemma_mask_injective(a.drop_last(), b.drop_last());
            assert(a.len() == b.len());
            assert forall|i: int| 0 <= i < a.len() implies a[i] == b[i] by {
                if i < a.len() - 1 {
                    assert(a.drop_last()[i] == b.drop_last()[i]);
                }
            }
            assert(a =~= b);
        }
    }
}

/// A collection of pairwise distinct canonical subsets of `0 .. n` has at
/// most `2^n` members — the bound behind the worklist's termination.
proof fn lemma_config_count(ss: Seq<Seq<u32>>, n: nat)
    requires
        forall|i: int| 0 <= i < ss.len() ==> idset_wf(#[trigger] ss[i], n as int),
        forall|i: int, k: int| 0 <= i < k < ss.len() ==> ss[i] != ss[k],
    ensures
        ss.len() <= spec_two_to(n),
{
    let masks = Seq::new(ss.len(), |i: int| ids_mask(ss[i]) as int);
    assert forall|i: int, k: int|
        0 <= i < ss.len() && 0 <= k < ss.len() && i != k implies masks[i] != masks[k] by {
        if masks[i] == masks[k] {
            lemma_mask_injective(ss[i], ss[k]);
        }
    }
    assert(masks.no_duplicates());
    masks.unique_seq_to_set();
    let range = set_int_range(0, spec_two_to(n) as int);
    lemma_int_range(0, spec_two_to(n) as int);
    assert(masks.to_set().subset_of(range)) by {
        assert forall|x: int| masks.to_set().contains(x) implies range.contains(x) by {
            let i = choose|i: int| 0 <= i < masks.len() && masks[i] == x;
            lemma_mask_bound(ss[i], n);
        }
    }
    lemma_len_subset(masks.to_set(), range);
}

/// A duplicate-free collection of ids below `n` has at most `n` members —
/// the bound behind the closure walk's termination.
proof fn lemma_distinct_bounded_len(v: Seq<u32>, n: nat)
    requires
        v.no_duplicates(),
        ids_bounded(v, n as int),
    ensures
        v.len() <= n,
{
    let ids = Seq::new(v.len(), |i: int| v[i] as int);
    assert(ids.no_duplicates());
    ids.unique_seq_to_set();
    let range = set_int_range(0, n as int);
    lemma_int_range(0, n as int);
    assert(ids.to_set().subset_of(range)) by {
        assert forall|x: int| ids.to_set().contains(x) implies range.contains(x) by {
            let i = choose|i: int| 0 <= i < ids.len() && ids[i] == x;
            assert(v[i] < n);
        }
    }
    lemma_len_subset(ids.to_set(), range);
}

// ---------------------------------------------------------------------------
// Mathematical model of determinization
//
// Like the parser, the determinizer is modelled by one spec function per
// step of the algorithm: the fused closure-and-move walk, the per-character
// folding of follow-on sets, the expansion of one configuration (with the
// looping special case), the worklist, and the finalization into DFA
// states. The executable code below is proved to return exactly what this
// model describes; `spec_convert` at the end composes the whole stage.
// ---------------------------------------------------------------------------

/// A configuration as the model sees it: its canonical NFA id set, its
/// looping characters, and its outgoing transitions as (character, id set)
/// pairs.
pub struct SpecConfig {
    pub ids: Seq<u32>,
    pub looping: Seq<char>,
    pub tran: Seq<(char, Seq<u32>)>,
}

/// The canonical id set of each modelled configuration.
pub open spec fn cfg_sets(cs: Seq<SpecConfig>) -> Seq<Seq<u32>> {
    cs.map_values(|c: SpecConfig| c.ids)
}

/// Insertion scan: the position where `x` belongs in an ascending id set.
pub open spec fn spec_insert_from(v: Seq<u32>, x: u32, idx: int) -> Seq<u32>
    decreases v.len() - idx,
{
    if 0 <= idx < v.len() && v[idx] < x {
        spec_insert_from(v, x, idx + 1)
    } else if 0 <= idx < v.len() && v[idx] == x {
        v
    } else if 0 <= idx <= v.len() {
        v.insert(idx, x)
    } else {
        v
    }
}

/// `x` inserted into an ascending id set, kept ascending and duplicate-free.
pub open spec fn spec_insert_sorted(v: Seq<u32>, x: u32) -> Seq<u32> {
    spec_insert_from(v, x, 0)
}

/// The ids of `ids[q ..]` folded one by one into an ascending set.
pub open spec fn spec_merge_from(entry: Seq<u32>, ids: Seq<u32>, q: int) -> Seq<u32>
    decreases ids.len() - q,
{
    if 0 <= q < ids.len() {
        spec_merge_from(spec_insert_sorted(entry, ids[q]), ids, q + 1)
    } else {
        entry
    }
}

/// The position of character `c` in a table kept ascending by character.
pub open spec fn spec_table_pos(table: Seq<(char, Seq<u32>)>, c: char, idx: int) -> int
    decreases table.len() - idx,
{
    if 0 <= idx < table.len() && (table[idx].0 as u32) < (c as u32) {
        spec_table_pos(table, c, idx + 1)
    } else {
        idx
    }
}

/// One traversal path folded into the per-character table: the ids join the
/// entry for `c`, deduplicated and ascending, or open a fresh entry in
/// character order.
pub open spec fn spec_table_merge(
    table: Seq<(char, Seq<u32>)>,
    c: char,
    ids: Seq<u32>,
) -> Seq<(char, Seq<u32>)> {
    let idx = spec_table_pos(table, c, 0);
    if 0 <= idx < table.len() && table[idx].0 == c {
        table.update(idx, (c, spec_merge_from(table[idx].1, ids, 0)))
    } else if 0 <= idx <= table.len() {
        table.insert(idx, (c, spec_merge_from(Seq::empty(), ids, 0)))
    } else {
        table
    }
}

/// All paths from `pi` on folded into the table.
pub open spec fn spec_fold_paths(
    table: Seq<(char, Seq<u32>)>,
    paths: Seq<(char, Seq<u32>)>,
    pi: int,
) -> Seq<(char, Seq<u32>)>
    decreases paths.len() - pi,
{
    if 0 <= pi < paths.len() {
        spec_fold_paths(spec_table_merge(table, paths[pi].0, paths[pi].1), paths, pi + 1)
    } else {
        table
    }
}

/// The branching states of the walked path that are kept in a recorded id
/// set: those not marking a genuine alternative.
pub open spec fn spec_filter_path(prev: Seq<u32>, nfa: Seq<NDFAState>, idx: int) -> Seq<u32>
    decreases idx,
{
    if idx <= 0 || idx > prev.len() {
        Seq::empty()
    } else {
        let rest = spec_filter_path(prev, nfa, idx - 1);
        let pid = prev[idx - 1];
        if pid < nfa.len() && !spec_two_literals(nfa[pid as int], nfa) {
            rest.push(pid)
        } else {
            rest
        }
    }
}

/// Model of `traverse`: the fused epsilon-closure-and-move walk. From the
/// state with id `cur`, branching states are followed through both edges —
/// never revisiting a state already on the path — and every literal reached
/// records its character together with the kept branching states of the
/// path and the literal's own id, first edge first.
pub open spec fn spec_traverse(cur: int, prev: Seq<u32>, nfa: Seq<NDFAState>) -> Seq<
    (char, Seq<u32>),
>
    decreases nfa.len() - prev.len(),
{
    if !(0 <= cur < nfa.len()) || prev.len() >= nfa.len() {
        Seq::empty()
    } else {
        let st = nfa[cur];
        match st.machine_type {
            StateType::Literal(l) => seq![
                (l, spec_filter_path(prev, nfa, prev.len() as int).push(st.id)),
            ],
            StateType::Branching(br) => {
                let prev2 = prev.push(st.id);
                let first = match st.branch {
                    Branch::StateId(i) => if !prev2.contains(i) {
                        spec_traverse(i as int, prev2, nfa)
                    } else {
                        Seq::empty()
                    },
                    Branch::Finish => Seq::empty(),
                };
                let second = match br {
                    Branch::StateId(i) => if !prev2.contains(i) {
                        spec_traverse(i as int, prev2, nfa)
                    } else {
                        Seq::empty()
                    },
                    Branch::Finish => Seq::empty(),
                };
                first + second
            },
        }
    }
}

/// Model of the configuration lookup: a configuration carrying `ids` is
/// created, unresolved and empty, only when neither a known configuration
/// nor one of the two sets still under construction carries it.
pub open spec fn spec_ensure(
    done: Seq<SpecConfig>,
    pending: Seq<SpecConfig>,
    a: Seq<u32>,
    b: Seq<u32>,
    ids: Seq<u32>,
) -> Seq<SpecConfig> {
    if ids == a || ids == b || cfg_sets(done).contains(ids) || cfg_sets(pending).contains(ids) {
        pending
    } else {
        pending.push(SpecConfig { ids, looping: Seq::empty(), tran: Seq::empty() })
    }
}

/// Model of `add_transitions_to_looping_state`: for every table character
/// other than the looping one, exactly one transition targeting that
/// character's set joins the configuration, and the target configuration is
/// looked up or created.
pub open spec fn spec_add_exits(
    table: Seq<(char, Seq<u32>)>,
    looping_char: char,
    done: Seq<SpecConfig>,
    pending: Seq<SpecConfig>,
    lcfg: SpecConfig,
    other: Seq<u32>,
    ti: int,
) -> (SpecConfig, Seq<SpecConfig>)
    decreases table.len() - ti,
{
    if 0 <= ti < table.len() {
        let k = table[ti].0;
        let v = table[ti].1;
        if k != looping_char {
            let lcfg2 = SpecConfig {
                ids: lcfg.ids,
                looping: lcfg.looping,
                tran: lcfg.tran.push((k, v)),
            };
            let pending2 = spec_ensure(done, pending, lcfg.ids, other, v);
            spec_add_exits(table, looping_char, done, pending2, lcfg2, other, ti + 1)
        } else {
            spec_add_exits(table, looping_char, done, pending, lcfg, other, ti + 1)
        }
    } else {
        (lcfg, pending)
    }
}

/// The branching states of a configuration that can fold into a loop.
pub open spec fn spec_loop_branchings(ids: Seq<u32>, nfa: Seq<NDFAState>, yi: int) -> Seq<u32>
    decreases yi,
{
    if yi <= 0 || yi > ids.len() {
        Seq::empty()
    } else {
        let rest = spec_loop_branchings(ids, nfa, yi - 1);
        let y = ids[yi - 1];
        if y < nfa.len() && nfa[y as int].machine_type is Branching && !spec_two_literals(
            nfa[y as int],
            nfa,
        ) {
            rest.push(y)
        } else {
            rest
        }
    }
}

/// The kept branching states folded into every entry of the loop table.
pub open spec fn spec_fold_branchings(
    table: Seq<(char, Seq<u32>)>,
    bs: Seq<u32>,
    e: int,
) -> Seq<(char, Seq<u32>)>
    decreases table.len() - e,
{
    if 0 <= e < table.len() {
        spec_fold_branchings(
            table.update(e, (table[e].0, spec_merge_from(table[e].1, bs, 0))),
            bs,
            e + 1,
        )
    } else {
        table
    }
}

/// The scan for a character's entry in the loop table.
pub open spec fn spec_char_pos(table: Seq<(char, Seq<u32>)>, c: char, ci: int) -> int
    decreases table.len() - ci,
{
    if 0 <= ci < table.len() && table[ci].0 != c {
        spec_char_pos(table, c, ci + 1)
    } else {
        ci
    }
}

/// Model of `create_looping_state`, the looping special case of §-style
/// subset construction: the closure of the loop target is folded per
/// character, the configuration's compatible branching states join every
/// follow-on set, and the follow-on set for the looping character either
/// equals the configuration's own set — the character joins its looping
/// characters, and the other follow-ons become its exits — or a transition
/// on the character is recorded and the configuration carrying that set,
/// looping on the character and with its own exits, is found or created
/// fully resolved. A loop table without the looping character leaves the
/// configuration untouched.
pub open spec fn spec_create_looping(
    cur: SpecConfig,
    done: Seq<SpecConfig>,
    pending: Seq<SpecConfig>,
    nfa: Seq<NDFAState>,
    branched_to: u32,
    c: char,
) -> (SpecConfig, Seq<SpecConfig>, Seq<SpecConfig>) {
    let paths = spec_traverse(branched_to as int, Seq::empty(), nfa);
    let table0 = spec_fold_paths(Seq::empty(), paths, 0);
    let bs = spec_loop_branchings(cur.ids, nfa, cur.ids.len() as int);
    let table = spec_fold_branchings(table0, bs, 0);
    let ci = spec_char_pos(table, c, 0);
    if !(0 <= ci < table.len()) {
        (cur, done, pending)
    } else {
        let follow = table[ci].1;
        if follow == cur.ids {
            let cur2 = SpecConfig {
                ids: cur.ids,
                looping: cur.looping.push(c),
                tran: cur.tran,
            };
            let r = spec_add_exits(table, c, done, pending, cur2, cur.ids, 0);
            (r.0, done, r.1)
        } else {
            let cur2 = SpecConfig {
                ids: cur.ids,
                looping: cur.looping,
                tran: cur.tran.push((c, follow)),
            };
            if cfg_sets(done).contains(follow) || cfg_sets(pending).contains(follow) {
                (cur2, done, pending)
            } else {
                let lcfg = SpecConfig {
                    ids: follow,
                    looping: seq![c],
                    tran: Seq::empty(),
                };
                let r = spec_add_exits(table, c, done, pending, lcfg, cur.ids, 0);
                (cur2, done.push(r.0), r.1)
            }
        }
    }
}

/// Model of the first half of a configuration's expansion: every literal of
/// its set either loops back into the set — the looping special case — or
/// contributes the closure of its target to the working table.
pub open spec fn spec_expand_ids(
    cur: SpecConfig,
    done: Seq<SpecConfig>,
    pending: Seq<SpecConfig>,
    table: Seq<(char, Seq<u32>)>,
    nfa: Seq<NDFAState>,
    xi: int,
) -> (SpecConfig, Seq<SpecConfig>, Seq<SpecConfig>, Seq<(char, Seq<u32>)>)
    decreases cur.ids.len() - xi,
{
    if 0 <= xi < cur.ids.len() {
        let x = cur.ids[xi];
        if x < nfa.len() {
            match nfa[x as int].machine_type {
                StateType::Literal(c) => match nfa[x as int].branch {
                    Branch::StateId(i) => if cur.ids.contains(i) {
                        let r = spec_create_looping(cur, done, pending, nfa, i, c);
                        let cur2 = SpecConfig {
                            ids: cur.ids,
                            looping: r.0.looping,
                            tran: r.0.tran,
                        };
                        spec_expand_ids(cur2, r.1, r.2, table, nfa, xi + 1)
                    } else {
                        let paths = spec_traverse(i as int, Seq::empty(), nfa);
                        let table2 = spec_fold_paths(table, paths, 0);
                        spec_expand_ids(cur, done, pending, table2, nfa, xi + 1)
                    },
                    Branch::Finish => spec_expand_ids(cur, done, pending, table, nfa, xi + 1),
                },
                StateType::Branching(_) => spec_expand_ids(cur, done, pending, table, nfa, xi + 1),
            }
        } else {
            spec_expand_ids(cur, done, pending, table, nfa, xi + 1)
        }
    } else {
        (cur, done, pending, table)
    }
}

/// Model of the second half of a configuration's expansion: a follow-on set
/// equal to the configuration's own becomes a looping character; any other
/// becomes a transition to the configuration carrying it, created if none
/// does.
pub open spec fn spec_resolve_table(
    cur: SpecConfig,
    done: Seq<SpecConfig>,
    pending: Seq<SpecConfig>,
    table: Seq<(char, Seq<u32>)>,
    ti: int,
) -> (SpecConfig, Seq<SpecConfig>)
    decreases table.len() - ti,
{
    if 0 <= ti < table.len() {
        let k = table[ti].0;
        let v = table[ti].1;
        if v == cur.ids {
            let cur2 = SpecConfig {
                ids: cur.ids,
                looping: cur.looping.push(k),
                tran: cur.tran,
            };
            spec_resolve_table(cur2, done, pending, table, ti + 1)
        } else {
            let cur2 = SpecConfig {
                ids: cur.ids,
                looping: cur.looping,
                tran: cur.tran.push((k, v)),
            };
            let pending2 = spec_ensure(done, pending, cur.ids, cur.ids, v);
            spec_resolve_table(cur2, done, pending2, table, ti + 1)
        }
    } else {
        (cur, pending)
    }
}

/// Model of the worklist: unresolved configurations are expanded in arrival
/// order until none remains. The guards on the recursion mirror the proved
/// facts that the resolved count climbs by at least one per step and can
/// never pass the number of distinct canonical subsets.
pub open spec fn spec_complete(
    done: Seq<SpecConfig>,
    pending: Seq<SpecConfig>,
    nfa: Seq<NDFAState>,
) -> Seq<SpecConfig>
    decreases spec_two_to(nfa.len()) - done.len(),
{
    if pending.len() == 0 || done.len() >= spec_two_to(nfa.len()) {
        done
    } else {
        let cur = pending[0];
        let rest = pending.drop_first();
        let e = spec_expand_ids(cur, done, rest, Seq::empty(), nfa, 0);
        let r = spec_resolve_table(e.0, e.1, e.2, e.3, 0);
        let done2 = e.1.push(r.0);
        if done.len() < done2.len() <= spec_two_to(nfa.len()) {
            spec_complete(done2, r.1, nfa)
        } else {
            done2
        }
    }
}

/// Model of the seeding pass: one transition on the initial configuration,
/// and one unresolved configuration, per distinct follow-on set of the NFA's
/// start state.
pub open spec fn spec_seed(
    initial: SpecConfig,
    table: Seq<(char, Seq<u32>)>,
    pending: Seq<SpecConfig>,
    ti: int,
) -> (SpecConfig, Seq<SpecConfig>)
    decreases table.len() - ti,
{
    if 0 <= ti < table.len() {
        let k = table[ti].0;
        let v = table[ti].1;
        let initial2 = SpecConfig {
            ids: initial.ids,
            looping: initial.looping,
            tran: initial.tran.push((k, v)),
        };
        let pending2 = spec_ensure(Seq::empty(), pending, initial.ids, initial.ids, v);
        spec_seed(initial2, table, pending2, ti + 1)
    } else {
        (initial, pending)
    }
}

/// The position of the first configuration carrying exactly `ids`.
pub open spec fn spec_seek_pos(cfgs: Seq<SpecConfig>, ids: Seq<u32>, loc: int) -> int
    decreases cfgs.len() - loc,
{
    if 0 <= loc < cfgs.len() && cfgs[loc].ids != ids {
        spec_seek_pos(cfgs, ids, loc + 1)
    } else {
        loc
    }
}

/// A configuration's transitions with each target set replaced by the
/// position of the first configuration carrying that set.
pub open spec fn spec_final_tran(
    cfgs: Seq<SpecConfig>,
    tran: Seq<(char, Seq<u32>)>,
    ti: int,
) -> Seq<(char, int)>
    decreases tran.len() - ti,
{
    if 0 <= ti < tran.len() {
        seq![(tran[ti].0, spec_seek_pos(cfgs, tran[ti].1, 0))] + spec_final_tran(
            cfgs,
            tran,
            ti + 1,
        )
    } else {
        Seq::empty()
    }
}

/// Model of `intermediate_to_final`: per configuration, its looping
/// characters and its transitions resolved to positions.
pub open spec fn spec_to_final(cfgs: Seq<SpecConfig>, si: int) -> Seq<(Seq<char>, Seq<(char, int)>)>
    decreases cfgs.len() - si,
{
    if 0 <= si < cfgs.len() {
        seq![(cfgs[si].looping, spec_final_tran(cfgs, cfgs[si].tran, 0))] + spec_to_final(
            cfgs,
            si + 1,
        )
    } else {
        Seq::empty()
    }
}

/// The whole determinizer as one function of the NFA: seed from the start
/// state's closure, run the worklist, and finalize the initial
/// configuration followed by the resolved ones.
pub open spec fn spec_convert(nfa: Seq<NDFAState>) -> Seq<(Seq<char>, Seq<(char, int)>)> {
    let paths = spec_traverse(0, Seq::empty(), nfa);
    let table = spec_fold_paths(Seq::empty(), paths, 0);
    let initial0 = SpecConfig { ids: Seq::empty(), looping: Seq::empty(), tran: Seq::empty() };
    let seeded = spec_seed(initial0, table, Seq::empty(), 0);
    let completed = spec_complete(Seq::empty(), seeded.1, nfa);
    spec_to_final(seq![seeded.0] + completed, 0)
}

/// Whether the looping special case for character `c`, looping through
/// `branched_to`, finds `c` among the folded follow-on characters. On the
/// opposite case the original determinizer aborts; the verified code rules
/// it out by precondition instead.
pub open spec fn spec_loop_char_found(
    ids: Seq<u32>,
    nfa: Seq<NDFAState>,
    branched_to: u32,
    c: char,
) -> bool {
    let table = spec_fold_branchings(
        spec_fold_paths(Seq::empty(), spec_traverse(branched_to as int, Seq::empty(), nfa), 0),
        spec_loop_branchings(ids, nfa, ids.len() as int),
        0,
    );
    spec_char_pos(table, c, 0) < table.len()
}

/// Every looping step of one configuration's expansion finds its character.
pub open spec fn spec_expand_clean(
    cur: SpecConfig,
    done: Seq<SpecConfig>,
    pending: Seq<SpecConfig>,
    nfa: Seq<NDFAState>,
    xi: int,
) -> bool
    decreases cur.ids.len() - xi,
{
    if 0 <= xi < cur.ids.len() {
        let x = cur.ids[xi];
        if x < nfa.len() && nfa[x as int].machine_type is Literal && nfa[x as int].branch
            is StateId && cur.ids.contains(nfa[x as int].branch->StateId_0) {
            let c = nfa[x as int].machine_type->Literal_0;
            let i = nfa[x as int].branch->StateId_0;
            spec_loop_char_found(cur.ids, nfa, i, c) && {
                let r = spec_create_looping(cur, done, pending, nfa, i, c);
                spec_expand_clean(
                    SpecConfig { ids: cur.ids, looping: r.0.looping, tran: r.0.tran },
                    r.1,
                    r.2,
                    nfa,
                    xi + 1,
                )
            }
        } else {
            spec_expand_clean(cur, done, pending, nfa, xi + 1)
        }
    } else {
        true
    }
}

/// Every looping step of the whole worklist finds its character.
pub open spec fn spec_complete_clean(
    done: Seq<SpecConfig>,
    pending: Seq<SpecConfig>,
    nfa: Seq<NDFAState>,
) -> bool
    decreases spec_two_to(nfa.len()) - done.len(),
{
    if pending.len() == 0 || done.len() >= spec_two_to(nfa.len()) {
        true
    } else {
        let cur = pending[0];
        let rest = pending.drop_first();
        spec_expand_clean(cur, done, rest, nfa, 0) && {
            let e = spec_expand_ids(cur, done, rest, Seq::empty(), nfa, 0);
            let r = spec_resolve_table(e.0, e.1, e.2, e.3, 0);
            let done2 = e.1.push(r.0);
            if done.len() < done2.len() <= spec_two_to(nfa.len()) {
                spec_complete_clean(done2, r.1, nfa)
            } else {
                true
            }
        }
    }
}

/// The determinizer meets no looping character without a continuation when
/// run on this automaton. Where the condition fails — it cannot, on what
/// the parser builds — the original aborts mid-run, so such inputs are left
/// out of `convert` by precondition rather than answered with a wrong DFA.
pub open spec fn spec_determinizable(nfa: Seq<NDFAState>) -> bool {
    let paths = spec_traverse(0, Seq::empty(), nfa);
    let table = spec_fold_paths(Seq::empty(), paths, 0);
    let initial0 = SpecConfig { ids: Seq::empty(), looping: Seq::empty(), tran: Seq::empty() };
    let seeded = spec_seed(initial0, table, Seq::empty(), 0);
    spec_complete_clean(Seq::empty(), seeded.1, nfa)
}

/// The model's view of one finished DFA state: its looping characters and
/// its transitions as (character, target) pairs — an accepting `Finish`
/// state carries no transitions.
pub open spec fn dfa_state_view(s: State) -> (Seq<char>, Seq<(char, int)>) {
    (
        s.looping_chars@,
        match s.tran {
            Transition::Finish => Seq::empty(),
            Transition::NextStates(ts) => ts@.map_values(|t: NextState| (t.matched, t.id as int)),
        },
    )
}

/// The model's view of a finished DFA.
pub open spec fn dfa_view(d: Seq<State>) -> Seq<(Seq<char>, Seq<(char, int)>)> {
    d.map_values(|s: State| dfa_state_view(s))
}

/// The model's view of a configuration under construction.
pub(crate) open spec fn cfg_view(c: IntermediateState) -> SpecConfig {
    SpecConfig {
        ids: c.ndfsa_ids@,
        looping: c.looping_chars@,
        tran: c.tran@.map_values(|t: IntermediateTransition| (t.matched, t.id@)),
    }
}

/// The model's view of a collection of configurations.
pub(crate) open spec fn cfgs_view(cs: Seq<IntermediateState>) -> Seq<SpecConfig> {
    cs.map_values(|c: IntermediateState| cfg_view(c))
}

/// The model's view of a per-character table.
pub(crate) open spec fn table_view(ts: Seq<IntermediateTransition>) -> Seq<(char, Seq<u32>)> {
    ts.map_values(|t: IntermediateTransition| (t.matched, t.id@))
}

/// The model's view of a traversal result.
pub(crate) open spec fn paths_view(ps: Seq<(char, Vec<u32>)>) -> Seq<(char, Seq<u32>)> {
    ps.map_values(|p: (char, Vec<u32>)| (p.0, p.1@))
}

// ---------------------------------------------------------------------------
// Small executable helpers on id sets
// ---------------------------------------------------------------------------

/// Whether an id vector holds `x`.
fn vec_contains(v: &Vec<u32>, x: u32) -> (r: bool)
    ensures
        r == v@.contains(x),
{
    let mut i: usize = 0;
    while i < v.len()
        invariant
            i <= v@.len(),
            forall|j: int| 0 <= j < i ==> v@[j] != x,
        decreases v@.len() - i,
    {
        if v[i] == x {
            return true;
        }
        i = i + 1;
    }
    false
}

/// Structural equality of two id vectors.
fn ids_eq(a: &Vec<u32>, b: &Vec<u32>) -> (r: bool)
    ensures
        r <==> a@ == b@,
{
    if a.len() != b.len() {
        return false;
    }
    let mut i: usize = 0;
    while i < a.len()
        invariant
            i <= a@.len(),
            a@.len() == b@.len(),
            forall|j: int| 0 <= j < i ==> a@[j] == b@[j],
        decreases a@.len() - i,
    {
        if a[i] != b[i] {
            return false;
        }
        i = i + 1;
    }
    proof {
        assert(a@ =~= b@);
    }
    true
}

/// A fresh copy of an id vector.
fn copy_ids(v: &Vec<u32>) -> (r: Vec<u32>)
    ensures
        r@ == v@,
{
    let mut out: Vec<u32> = Vec::new();
    let mut i: usize = 0;
    while i < v.len()
        invariant
            i <= v@.len(),
            out@ == v@.take(i as int),
        decreases v@.len() - i,
    {
        out.push(v[i]);
        i = i + 1;
        proof {
            assert(out@ =~= v@.take(i as int));
        }
    }
    proof {
        assert(v@.take(v@.len() as int) =~= v@);
    }
    out
}

/// Inserts `x` into a canonical id set, keeping it strictly ascending.
#[verifier::loop_isolation(false)]
fn insert_sorted(v: &mut Vec<u32>, x: u32)
    requires
        sorted_ids(old(v)@),
    ensures
        sorted_ids(final(v)@),
        final(v)@ == spec_insert_sorted(old(v)@, x),
        forall|y: u32| final(v)@.contains(y) <==> old(v)@.contains(y) || y == x,
        final(v)@.len() > 0,
{
    let mut idx: usize = 0;
    while idx < v.len() && v[idx] < x
        invariant
            idx <= v@.len(),
            forall|j: int| 0 <= j < idx ==> v@[j] < x,
            spec_insert_from(v@, x, idx as int) == spec_insert_sorted(v@, x),
        decreases v@.len() - idx,
    {
        idx = idx + 1;
    }
    if idx < v.len() && v[idx] == x {
        proof {
            assert(v@.contains(x));
            assert(spec_insert_from(v@, x, idx as int) == v@);
        }
        return;
    }
    proof {
        assert(spec_insert_from(old(v)@, x, idx as int) == old(v)@.insert(idx as int, x));
    }
    v.insert(idx, x);
    proof {
        let old_v = old(v)@;
        let new_v = v@;
        assert forall|y: u32| new_v.contains(y) implies old_v.contains(y) || y == x by {
            let i = choose|i: int| 0 <= i < new_v.len() && new_v[i] == y;
            if i < idx {
                assert(old_v[i] == y);
            } else if i > idx {
                assert(old_v[i - 1] == y);
            }
        }
        assert forall|y: u32| old_v.contains(y) || y == x implies new_v.contains(y) by {
            if y == x {
                assert(new_v[idx as int] == x);
            } else {
                let i = choose|i: int| 0 <= i < old_v.len() && old_v[i] == y;
                if i < idx {
                    assert(new_v[i] == y);
                } else {
                    assert(new_v[i + 1] == y);
                }
            }
        }
    }
}

// ---------------------------------------------------------------------------
// Configurations
// ---------------------------------------------------------------------------

/// The canonical id set of each configuration in a collection.
spec fn idsets(cs: Seq<IntermediateState>) -> Seq<Seq<u32>> {
    cs.map_values(|c: IntermediateState| c.ndfsa_ids@)
}

/// No two collected id sets are equal.
spec fn sets_distinct(ss: Seq<Seq<u32>>) -> bool {
    forall|i: int, k: int| 0 <= i < k < ss.len() ==> ss[i] != ss[k]
}

/// No collected id set equals `x`.
spec fn avoids(ss: Seq<Seq<u32>>, x: Seq<u32>) -> bool {
    forall|i: int| 0 <= i < ss.len() ==> ss[i] != x
}

/// Every configuration carries a canonical id set over `0 .. n`.
spec fn configs_wf(cs: Seq<IntermediateState>, n: int) -> bool {
    forall|i: int| 0 <= i < cs.len() ==> idset_wf((#[trigger] cs[i]).ndfsa_ids@, n)
}

/// Membership of every collected id set of `u1` in `u2`.
spec fn sub_membership(u1: Seq<Seq<u32>>, u2: Seq<Seq<u32>>) -> bool {
    forall|i: int| 0 <= i < u1.len() ==> u2.contains(#[trigger] u1[i])
}

/// Every transition of `tran` targets a set carried by some collected
/// configuration.
spec fn trans_in(tran: Seq<IntermediateTransition>, u: Seq<Seq<u32>>) -> bool {
    forall|j: int| 0 <= j < tran.len() ==> u.contains((#[trigger] tran[j]).id@)
}

/// Every transition of every configuration resolves within the collection
/// itself.
spec fn configs_resolvable(cs: Seq<IntermediateState>, u: Seq<Seq<u32>>) -> bool {
    forall|i: int| 0 <= i < cs.len() ==> trans_in((#[trigger] cs[i]).tran@, u)
}

/// Popping the first unresolved configuration and keeping its set aside
/// preserves membership both ways.
proof fn lemma_sub_pop(d: Seq<Seq<u32>>, p: Seq<Seq<u32>>)
    requires
        p.len() >= 1,
    ensures
        sub_membership(d + p, d + p.drop_first() + seq![p[0]]),
        sub_membership(d + p.drop_first() + seq![p[0]], d + p),
{
    let before = d + p;
    let after = d + p.drop_first() + seq![p[0]];
    assert forall|i: int| 0 <= i < before.len() implies after.contains(#[trigger] before[i]) by {
        if i < d.len() {
            assert(after[i] == before[i]);
        } else if i == d.len() {
            assert(after[after.len() - 1] == before[i]);
        } else {
            assert(after[i - 1] == before[i]);
        }
    }
    assert forall|i: int| 0 <= i < after.len() implies before.contains(#[trigger] after[i]) by {
        if i < d.len() {
            assert(before[i] == after[i]);
        } else if i == after.len() - 1 {
            assert(before[d.len() as int] == after[i]);
        } else {
            assert(before[i + 1] == after[i]);
        }
    }
}

/// Moving the kept-aside set into the resolved list preserves membership
/// both ways.
proof fn lemma_sub_requeue(d: Seq<Seq<u32>>, p: Seq<Seq<u32>>, c: Seq<u32>)
    ensures
        sub_membership(d + p + seq![c], d.push(c) + p),
        sub_membership(d.push(c) + p, d + p + seq![c]),
{
    let before = d + p + seq![c];
    let after = d.push(c) + p;
    assert forall|i: int| 0 <= i < before.len() implies after.contains(#[trigger] before[i]) by {
        if i < d.len() {
            assert(after[i] == before[i]);
        } else if i == before.len() - 1 {
            assert(after[d.len() as int] == before[i]);
        } else {
            assert(after[i + 1] == before[i]);
        }
    }
    assert forall|i: int| 0 <= i < after.len() implies before.contains(#[trigger] after[i]) by {
        if i < d.len() {
            assert(before[i] == after[i]);
        } else if i == d.len() {
            assert(before[before.len() - 1] == after[i]);
        } else {
            assert(before[i - 1] == after[i]);
        }
    }
}

/// Resolvable transitions stay resolvable in any collection that keeps the
/// membership.
proof fn lemma_trans_in_mono(tran: Seq<IntermediateTransition>, u1: Seq<Seq<u32>>, u2: Seq<Seq<u32>>)
    requires
        trans_in(tran, u1),
        sub_membership(u1, u2),
    ensures
        trans_in(tran, u2),
{
    assert forall|j: int| 0 <= j < tran.len() implies u2.contains((#[trigger] tran[j]).id@) by {
        let i = choose|i: int| 0 <= i < u1.len() && u1[i] == tran[j].id@;
    }
}

/// A collected membership carries single sets over.
proof fn lemma_contains_mono(u1: Seq<Seq<u32>>, u2: Seq<Seq<u32>>, x: Seq<u32>)
    requires
        u1.contains(x),
        sub_membership(u1, u2),
    ensures
        u2.contains(x),
{
    let i = choose|i: int| 0 <= i < u1.len() && u1[i] == x;
}

/// Collected membership is transitive.
proof fn lemma_sub_trans(u1: Seq<Seq<u32>>, u2: Seq<Seq<u32>>, u3: Seq<Seq<u32>>)
    requires
        sub_membership(u1, u2),
        sub_membership(u2, u3),
    ensures
        sub_membership(u1, u3),
{
    assert forall|i: int| 0 <= i < u1.len() implies u3.contains(#[trigger] u1[i]) by {
        lemma_contains_mono(u2, u3, u1[i]);
    }
}

/// A table entry carries a canonical, non-empty id set over `0 .. n`.
spec fn entry_wf(t: IntermediateTransition, n: int) -> bool {
    idset_wf(t.id@, n) && t.id@.len() > 0
}

/// Every entry of a per-character table is well formed.
spec fn table_wf(ts: Seq<IntermediateTransition>, n: int) -> bool {
    forall|i: int| 0 <= i < ts.len() ==> entry_wf(#[trigger] ts[i], n)
}

/// Popping the first unresolved configuration keeps the rest distinct, and
/// distinct from the popped set.
proof fn lemma_distinct_pop(d: Seq<Seq<u32>>, p: Seq<Seq<u32>>)
    requires
        p.len() >= 1,
        sets_distinct(d + p),
    ensures
        sets_distinct(d + p.drop_first()),
        avoids(d + p.drop_first(), p[0]),
{
    let rest = d + p.drop_first();
    assert forall|i: int, k: int| 0 <= i < k < rest.len() implies rest[i] != rest[k] by {
        let all = d + p;
        let i2 = if i < d.len() { i } else { i + 1 };
        let k2 = if k < d.len() { k } else { k + 1 };
        assert(all[i2] == rest[i]);
        assert(all[k2] == rest[k]);
    }
    assert forall|i: int| 0 <= i < rest.len() implies rest[i] != p[0] by {
        let all = d + p;
        let i2 = if i < d.len() { i } else { i + 1 };
        assert(all[i2] == rest[i]);
        assert(all[d.len() as int] == p[0]);
    }
}

/// Moving a finished configuration whose set is fresh into the resolved list
/// keeps everything distinct.
proof fn lemma_distinct_insert(d: Seq<Seq<u32>>, p: Seq<Seq<u32>>, x: Seq<u32>)
    requires
        sets_distinct(d + p),
        avoids(d + p, x),
    ensures
        sets_distinct(d.push(x) + p),
{
    let all = d + p;
    let grown = d.push(x) + p;
    assert forall|i: int, k: int| 0 <= i < k < grown.len() implies grown[i] != grown[k] by {
        if i == d.len() {
            let k2 = k - 1;
            assert(all[k2] == grown[k]);
        } else if k == d.len() {
            let i2 = i;
            assert(all[i2] == grown[i]);
        } else {
            let i2 = if i < d.len() { i } else { i - 1 };
            let k2 = if k < d.len() { k } else { k - 1 };
            assert(all[i2] == grown[i]);
            assert(all[k2] == grown[k]);
            if i2 == k2 {
                assert(false);
            } else if i2 < k2 {
            } else {
                assert(all[k2] != all[i2]);
            }
        }
    }
}

/// A fresh copy of a character vector.
fn copy_chars(v: &Vec<char>) -> (r: Vec<char>)
    ensures
        r@ == v@,
{
    let mut out: Vec<char> = Vec::new();
    let mut i: usize = 0;
    while i < v.len()
        invariant
            i <= v@.len(),
            out@ == v@.take(i as int),
        decreases v@.len() - i,
    {
        out.push(v[i]);
        i = i + 1;
        proof {
            assert(out@ =~= v@.take(i as int));
        }
    }
    proof {
        assert(v@.take(v@.len() as int) =~= v@);
    }
    out
}

/// Folds one traversal path into the per-character table: the ids join the
/// entry for that character, deduplicated and in ascending order, and a new
/// entry is inserted in character order when none exists yet.
#[verifier::loop_isolation(false)]
fn table_merge(table: &mut Vec<IntermediateTransition>, c: char, ids: &Vec<u32>, Ghost(n): Ghost<int>)
    requires
        table_wf(old(table)@, n),
        ids_bounded(ids@, n),
        ids@.len() > 0,
    ensures
        table_wf(final(table)@, n),
        table_view(final(table)@) == spec_table_merge(table_view(old(table)@), c, ids@),
{
    let ghost tv = table_view(table@);
    let mut idx: usize = 0;
    while idx < table.len() && (table[idx].matched as u32) < (c as u32)
        invariant
            idx <= table@.len(),
            spec_table_pos(tv, c, idx as int) == spec_table_pos(tv, c, 0),
        decreases table@.len() - idx,
    {
        proof {
            assert(tv[idx as int].0 == table@[idx as int].matched);
        }
        idx = idx + 1;
    }
    proof {
        assert(idx as int == spec_table_pos(tv, c, 0));
        if idx < table@.len() {
            assert(tv[idx as int].0 == table@[idx as int].matched);
        }
    }
    if idx < table.len() && table[idx].matched == c {
        let ghost pre = table@;
        let mut entry = table.remove(idx);
        let ghost entry0 = entry.id@;
        let mut q: usize = 0;
        while q < ids.len()
            invariant
                q <= ids@.len(),
                sorted_ids(entry.id@),
                ids_bounded(entry.id@, n),
                entry.id@.len() > 0,
                entry.matched == c,
                spec_merge_from(entry.id@, ids@, q as int) == spec_merge_from(entry0, ids@, 0),
            decreases ids@.len() - q,
        {
            insert_sorted(&mut entry.id, ids[q]);
            proof {
                assert forall|j: int| 0 <= j < entry.id@.len() implies entry.id@[j] < n by {
                    assert(entry.id@.contains(entry.id@[j]));
                }
            }
            q = q + 1;
        }
        table.insert(idx, entry);
        proof {
            assert forall|i: int| 0 <= i < table@.len() implies entry_wf(#[trigger] table@[i], n) by {
                if i < idx {
                    assert(table@[i] == pre[i]);
                } else if i > idx {
                    assert(table@[i] == pre[i]);
                }
            }
            assert(spec_merge_from(entry.id@, ids@, ids@.len() as int) == entry.id@);
            assert(table_view(table@) =~= tv.update(
                idx as int,
                (c, spec_merge_from(entry0, ids@, 0)),
            ));
        }
    } else {
        let ghost pre = table@;
        let mut fresh: Vec<u32> = Vec::new();
        let mut q: usize = 0;
        while q < ids.len()
            invariant
                q <= ids@.len(),
                sorted_ids(fresh@),
                ids_bounded(fresh@, n),
                q > 0 ==> fresh@.len() > 0,
                spec_merge_from(fresh@, ids@, q as int) == spec_merge_from(
                    Seq::empty(),
                    ids@,
                    0,
                ),
            decreases ids@.len() - q,
        {
            insert_sorted(&mut fresh, ids[q]);
            proof {
                assert forall|j: int| 0 <= j < fresh@.len() implies fresh@[j] < n by {
                    assert(fresh@.contains(fresh@[j]));
                }
            }
            q = q + 1;
        }
        proof {
            assert(spec_merge_from(fresh@, ids@, ids@.len() as int) == fresh@);
        }
        table.insert(idx, IntermediateTransition { matched: c, id: fresh });
        proof {
            assert forall|i: int| 0 <= i < table@.len() implies entry_wf(#[trigger] table@[i], n) by {
                if i < idx {
                    assert(table@[i] == pre[i]);
                } else if i > idx {
                    assert(table@[i] == pre[i - 1]);
                }
            }
            assert(table_view(table@) =~= tv.insert(
                idx as int,
                (c, spec_merge_from(Seq::empty(), ids@, 0)),
            ));
        }
    }
}

/// Whether a branching state's two edges lead to two different literal
/// states — the mark of a genuine alternative, which must not be folded into
/// a loop configuration.
pub open spec fn spec_two_literals(x: NDFAState, m: Seq<NDFAState>) -> bool {
    match x.machine_type {
        StateType::Branching(b) => match (x.branch, b) {
            (Branch::StateId(i), Branch::StateId(j)) => i < m.len() && j < m.len()
                && m[i as int].machine_type is Literal && m[j as int].machine_type is Literal
                && m[i as int].id != m[j as int].id,
            _ => false,
        },
        StateType::Literal(_) => false,
    }
}

/// Tests whether a branching state branches to two distinct literal
/// machines.
fn branches_to_two_literals(ndfa_state: &NDFAState, ndfsm: &Vec<NDFAState>) -> (r: bool)
    requires
        ndfa::nfa_wf(ndfsm@),
        ndfa_state.id < ndfsm@.len(),
        *ndfa_state == ndfsm@[ndfa_state.id as int],
    ensures
        r == spec_two_literals(*ndfa_state, ndfsm@),
{
    if let StateType::Branching(b) = ndfa_state.machine_type {
        if let Branch::StateId(state_id1) = ndfa_state.branch {
            if let Branch::StateId(state_id2) = b {
                let branched_to_1 = &ndfsm[state_id1 as usize];
                let branched_to_2 = &ndfsm[state_id2 as usize];
                if let StateType::Literal(_) = branched_to_1.machine_type {
                    if let StateType::Literal(_) = branched_to_2.machine_type {
                        return branched_to_1.id != branched_to_2.id;
                    }
                }
            }
        }
    }
    false
}

/// The fused epsilon-closure-and-move walk: from a state, follow branching
/// states through both edges — refusing to revisit a state already on the
/// current path, which guards against automaton cycles — and record, for each
/// literal state reached, its character together with the branching states
/// passed through (except those marking a genuine alternative) and the
/// literal itself. Returns exactly what the model `spec_traverse` describes.
#[verifier::loop_isolation(false)]
fn traverse(current_ndfa: &NDFAState, prev_states: &Vec<u32>, ndfsm: &Vec<NDFAState>) -> (r: Vec<
    (char, Vec<u32>),
>)
    requires
        ndfa::nfa_wf(ndfsm@),
        current_ndfa.id < ndfsm@.len(),
        *current_ndfa == ndfsm@[current_ndfa.id as int],
        prev_states@.no_duplicates(),
        ids_bounded(prev_states@, ndfsm@.len() as int),
        !prev_states@.contains(current_ndfa.id),
    ensures
        paths_view(r@) == spec_traverse(current_ndfa.id as int, prev_states@, ndfsm@),
        forall|i: int|
            0 <= i < r@.len() ==> ids_bounded((#[trigger] r@[i]).1@, ndfsm@.len() as int)
                && r@[i].1@.len() > 0,
    decreases ndfsm@.len() - prev_states@.len(),
{
    proof {
        lemma_distinct_bounded_len(
            prev_states@.push(current_ndfa.id),
            ndfsm@.len() as nat,
        );
    }
    match current_ndfa.machine_type {
        StateType::Literal(l) => {
            let mut traversed_states: Vec<u32> = Vec::new();
            let mut idx: usize = 0;
            while idx < prev_states.len()
                invariant
                    idx <= prev_states@.len(),
                    ids_bounded(traversed_states@, ndfsm@.len() as int),
                    traversed_states@ == spec_filter_path(prev_states@, ndfsm@, idx as int),
                decreases prev_states@.len() - idx,
            {
                let pid = prev_states[idx];
                if !branches_to_two_literals(&ndfsm[pid as usize], ndfsm) {
                    traversed_states.push(pid);
                }
                idx = idx + 1;
            }
            traversed_states.push(current_ndfa.id);
            let mut rvec: Vec<(char, Vec<u32>)> = Vec::new();
            rvec.push((l, traversed_states));
            proof {
                assert(paths_view(rvec@) =~= spec_traverse(
                    current_ndfa.id as int,
                    prev_states@,
                    ndfsm@,
                ));
            }
            rvec
        },
        StateType::Branching(br) => {
            let ghost prev2 = prev_states@.push(current_ndfa.id);
            let ghost first = match current_ndfa.branch {
                Branch::StateId(i) => if !prev2.contains(i) {
                    spec_traverse(i as int, prev2, ndfsm@)
                } else {
                    Seq::empty()
                },
                Branch::Finish => Seq::empty(),
            };
            let ghost second = match br {
                Branch::StateId(i) => if !prev2.contains(i) {
                    spec_traverse(i as int, prev2, ndfsm@)
                } else {
                    Seq::empty()
                },
                Branch::Finish => Seq::empty(),
            };
            let mut prev_vec = copy_ids(prev_states);
            prev_vec.push(current_ndfa.id);
            let mut rvec: Vec<(char, Vec<u32>)> = Vec::new();
            if let Branch::StateId(i) = current_ndfa.branch {
                if !vec_contains(&prev_vec, i) {
                    let mut sub = traverse(&ndfsm[i as usize], &prev_vec, ndfsm);
                    let ghost pre = rvec@;
                    let ghost subv = sub@;
                    rvec.append(&mut sub);
                    proof {
                        assert forall|q: int|
                            0 <= q < rvec@.len() implies ids_bounded(
                            (#[trigger] rvec@[q]).1@,
                            ndfsm@.len() as int,
                        ) && rvec@[q].1@.len() > 0 by {
                            if q < pre.len() {
                                assert(rvec@[q] == pre[q]);
                            } else {
                                assert(rvec@[q] == subv[q - pre.len()]);
                            }
                        }
                        assert(paths_view(rvec@) =~= first);
                    }
                }
            }
            proof {
                assert(paths_view(rvec@) =~= first);
            }
            if let Branch::StateId(i) = br {
                if !vec_contains(&prev_vec, i) {
                    let mut sub = traverse(&ndfsm[i as usize], &prev_vec, ndfsm);
                    let ghost pre = rvec@;
                    let ghost subv = sub@;
                    rvec.append(&mut sub);
                    proof {
                        assert forall|q: int|
                            0 <= q < rvec@.len() implies ids_bounded(
                            (#[trigger] rvec@[q]).1@,
                            ndfsm@.len() as int,
                        ) && rvec@[q].1@.len() > 0 by {
                            if q < pre.len() {
                                assert(rvec@[q] == pre[q]);
                            } else {
                                assert(rvec@[q] == subv[q - pre.len()]);
                            }
                        }
                        assert(paths_view(rvec@) =~= first + paths_view(subv));
                    }
                }
            }
            proof {
                assert(paths_view(rvec@) =~= first + second);
                assert(spec_traverse(current_ndfa.id as int, prev_states@, ndfsm@) == first
                    + second);
            }
            rvec
        },
    }
}

/// Reflexivity of collected membership.
proof fn lemma_sub_refl(u: Seq<Seq<u32>>)
    ensures
        sub_membership(u, u),
{
    assert forall|i: int| 0 <= i < u.len() implies u.contains(#[trigger] u[i]) by {
        assert(u[i] == u[i]);
    }
}

/// Looks an id set up among the resolved and unresolved configurations and
/// the two sets still under construction; only when none matches is a fresh
/// unresolved configuration created. Distinct configurations therefore always
/// carry distinct sets, and the set is afterwards known to be carried by
/// someone.
#[verifier::loop_isolation(false)]
fn ensure_config(
    done: &Vec<IntermediateState>,
    pending: &mut Vec<IntermediateState>,
    cur_a: &Vec<u32>,
    cur_b: &Vec<u32>,
    ids: &Vec<u32>,
    Ghost(n): Ghost<int>,
)
    requires
        configs_wf(old(pending)@, n),
        idset_wf(ids@, n),
        sets_distinct(idsets(done@) + idsets(old(pending)@)),
        avoids(idsets(done@) + idsets(old(pending)@), cur_a@),
        avoids(idsets(done@) + idsets(old(pending)@), cur_b@),
    ensures
        configs_wf(final(pending)@, n),
        sets_distinct(idsets(done@) + idsets(final(pending)@)),
        avoids(idsets(done@) + idsets(final(pending)@), cur_a@),
        avoids(idsets(done@) + idsets(final(pending)@), cur_b@),
        sub_membership(
            idsets(done@) + idsets(old(pending)@),
            idsets(done@) + idsets(final(pending)@),
        ),
        (idsets(done@) + idsets(final(pending)@)).contains(ids@) || ids@ == cur_a@ || ids@
            == cur_b@,
        final(pending)@.len() >= old(pending)@.len(),
        forall|i: int| 0 <= i < old(pending)@.len() ==> final(pending)@[i] == old(pending)@[i],
        forall|i: int|
            old(pending)@.len() <= i < final(pending)@.len() ==> final(pending)@[i].tran@.len()
                == 0,
        cfgs_view(final(pending)@) == spec_ensure(
            cfgs_view(done@),
            cfgs_view(old(pending)@),
            cur_a@,
            cur_b@,
            ids@,
        ),
{
    proof {
        lemma_sub_refl(idsets(done@) + idsets(pending@));
    }
    if ids_eq(cur_a, ids) {
        return;
    }
    if ids_eq(cur_b, ids) {
        return;
    }
    let mut i: usize = 0;
    while i < done.len()
        invariant
            i <= done@.len(),
            forall|j: int| 0 <= j < i ==> done@[j].ndfsa_ids@ != ids@,
        decreases done@.len() - i,
    {
        if ids_eq(&done[i].ndfsa_ids, ids) {
            proof {
                let all = idsets(done@) + idsets(pending@);
                assert(all[i as int] == done@[i as int].ndfsa_ids@);
                assert(cfg_sets(cfgs_view(done@))[i as int] == done@[i as int].ndfsa_ids@);
            }
            return;
        }
        i = i + 1;
    }
    let mut k: usize = 0;
    while k < pending.len()
        invariant
            k <= pending@.len(),
            forall|j: int| 0 <= j < k ==> pending@[j].ndfsa_ids@ != ids@,
        decreases pending@.len() - k,
    {
        if ids_eq(&pending[k].ndfsa_ids, ids) {
            proof {
                let all = idsets(done@) + idsets(pending@);
                assert(all[done@.len() + k as int] == pending@[k as int].ndfsa_ids@);
                assert(cfg_sets(cfgs_view(pending@))[k as int] == pending@[
                    k as int
                ].ndfsa_ids@);
            }
            return;
        }
        k = k + 1;
    }
    proof {
        let da = cfg_sets(cfgs_view(done@));
        let pa = cfg_sets(cfgs_view(pending@));
        assert forall|j: int| 0 <= j < da.len() implies da[j] != ids@ by {
            assert(da[j] == done@[j].ndfsa_ids@);
        }
        assert forall|j: int| 0 <= j < pa.len() implies pa[j] != ids@ by {
            assert(pa[j] == pending@[j].ndfsa_ids@);
        }
        assert(!da.contains(ids@));
        assert(!pa.contains(ids@));
    }
    let ghost pend_pre = pending@;
    pending.push(IntermediateState::new(copy_ids(ids), Vec::new(), Vec::new()));
    proof {
        assert(cfg_view(pending@[pending@.len() - 1]) == SpecConfig {
            ids: ids@,
            looping: Seq::empty(),
            tran: Seq::empty(),
        }) by {
            assert(pending@[pending@.len() - 1].tran@.map_values(
                |t: IntermediateTransition| (t.matched, t.id@),
            ) =~= Seq::<(char, Seq<u32>)>::empty());
        }
        assert(cfgs_view(pending@) =~= cfgs_view(pend_pre).push(
            SpecConfig { ids: ids@, looping: Seq::empty(), tran: Seq::empty() },
        ));
        let dd = idsets(done@);
        let po = idsets(pend_pre);
        let pn = idsets(pending@);
        assert(pn =~= po.push(ids@));
        let all_old = dd + po;
        let all_new = dd + pn;
        assert(all_new[all_new.len() - 1] == ids@);
        assert forall|x: int, y: int| 0 <= x < y < all_new.len() implies all_new[x]
            != all_new[y] by {
            if y == all_new.len() - 1 {
                assert(all_new[y] == ids@);
                if x < dd.len() {
                    assert(all_new[x] == done@[x].ndfsa_ids@);
                } else {
                    assert(all_new[x] == pend_pre[x - dd.len()].ndfsa_ids@);
                }
            } else {
                assert(all_new[x] == all_old[x]);
                assert(all_new[y] == all_old[y]);
            }
        }
        assert forall|x: int| 0 <= x < all_new.len() implies all_new[x] != cur_a@ && all_new[x]
            != cur_b@ by {
            if x < all_old.len() {
                assert(all_new[x] == all_old[x]);
            } else {
                assert(all_new[x] == ids@);
            }
        }
        assert forall|x: int| 0 <= x < all_old.len() implies all_new.contains(
            #[trigger] all_old[x],
        ) by {
            assert(all_new[x] == all_old[x]);
        }
    }
}

/// Whether some resolved or unresolved configuration already carries exactly
/// `ids`.
fn exists_config(
    done: &Vec<IntermediateState>,
    pending: &Vec<IntermediateState>,
    ids: &Vec<u32>,
) -> (r: bool)
    ensures
        !r ==> avoids(idsets(done@) + idsets(pending@), ids@),
        r ==> (idsets(done@) + idsets(pending@)).contains(ids@),
        r <==> cfg_sets(cfgs_view(done@)).contains(ids@) || cfg_sets(
            cfgs_view(pending@),
        ).contains(ids@),
{
    let mut i: usize = 0;
    while i < done.len()
        invariant
            i <= done@.len(),
            forall|j: int| 0 <= j < i ==> done@[j].ndfsa_ids@ != ids@,
        decreases done@.len() - i,
    {
        if ids_eq(&done[i].ndfsa_ids, ids) {
            proof {
                let all = idsets(done@) + idsets(pending@);
                assert(all[i as int] == done@[i as int].ndfsa_ids@);
                assert(cfg_sets(cfgs_view(done@))[i as int] == done@[i as int].ndfsa_ids@);
            }
            return true;
        }
        i = i + 1;
    }
    let mut k: usize = 0;
    while k < pending.len()
        invariant
            k <= pending@.len(),
            forall|j: int| 0 <= j < k ==> pending@[j].ndfsa_ids@ != ids@,
            forall|j: int| 0 <= j < done@.len() ==> done@[j].ndfsa_ids@ != ids@,
        decreases pending@.len() - k,
    {
        if ids_eq(&pending[k].ndfsa_ids, ids) {
            proof {
                let all = idsets(done@) + idsets(pending@);
                assert(all[done@.len() + k as int] == pending@[k as int].ndfsa_ids@);
                assert(cfg_sets(cfgs_view(pending@))[k as int] == pending@[
                    k as int
                ].ndfsa_ids@);
            }
            return true;
        }
        k = k + 1;
    }
    proof {
        let all = idsets(done@) + idsets(pending@);
        assert forall|x: int| 0 <= x < all.len() implies all[x] != ids@ by {
            if x < done@.len() {
                assert(all[x] == done@[x].ndfsa_ids@);
            } else {
                assert(all[x] == pending@[x - done@.len()].ndfsa_ids@);
            }
        }
        let da = cfg_sets(cfgs_view(done@));
        let pa = cfg_sets(cfgs_view(pending@));
        assert forall|j: int| 0 <= j < da.len() implies da[j] != ids@ by {
            assert(da[j] == done@[j].ndfsa_ids@);
        }
        assert forall|j: int| 0 <= j < pa.len() implies pa[j] != ids@ by {
            assert(pa[j] == pending@[j].ndfsa_ids@);
        }
    }
    false
}

/// Attaches, to a configuration that loops on `looping_char`, one outgoing
/// transition for every other character of the loop table, creating the
/// target configurations as needed; every added transition's target set is
/// afterwards carried by some configuration, or is one of the two sets still
/// under construction.
#[verifier::loop_isolation(false)]
fn add_transitions_to_looping_state(
    current_super_states: &Vec<IntermediateTransition>,
    looping_char: char,
    returned_dfsm: &Vec<IntermediateState>,
    dfsm: &mut Vec<IntermediateState>,
    looping_state: &mut IntermediateState,
    other: &Vec<u32>,
    Ghost(n): Ghost<int>,
)
    requires
        table_wf(current_super_states@, n),
        configs_wf(old(dfsm)@, n),
        sets_distinct(idsets(returned_dfsm@) + idsets(old(dfsm)@)),
        avoids(idsets(returned_dfsm@) + idsets(old(dfsm)@), old(looping_state).ndfsa_ids@),
        avoids(idsets(returned_dfsm@) + idsets(old(dfsm)@), other@),
    ensures
        final(looping_state).ndfsa_ids == old(looping_state).ndfsa_ids,
        final(looping_state).looping_chars == old(looping_state).looping_chars,
        configs_wf(final(dfsm)@, n),
        sets_distinct(idsets(returned_dfsm@) + idsets(final(dfsm)@)),
        avoids(idsets(returned_dfsm@) + idsets(final(dfsm)@), final(looping_state).ndfsa_ids@),
        avoids(idsets(returned_dfsm@) + idsets(final(dfsm)@), other@),
        sub_membership(
            idsets(returned_dfsm@) + idsets(old(dfsm)@),
            idsets(returned_dfsm@) + idsets(final(dfsm)@),
        ),
        final(dfsm)@.len() >= old(dfsm)@.len(),
        forall|i: int| 0 <= i < old(dfsm)@.len() ==> final(dfsm)@[i] == old(dfsm)@[i],
        forall|i: int|
            old(dfsm)@.len() <= i < final(dfsm)@.len() ==> final(dfsm)@[i].tran@.len() == 0,
        forall|j: int|
            0 <= j < old(looping_state).tran@.len() ==> final(looping_state).tran@[j] == old(
                looping_state,
            ).tran@[j],
        final(looping_state).tran@.len() >= old(looping_state).tran@.len(),
        forall|j: int|
            old(looping_state).tran@.len() <= j < final(looping_state).tran@.len() ==> {
                let t = (#[trigger] final(looping_state).tran@[j]).id@;
                (idsets(returned_dfsm@) + idsets(final(dfsm)@)).contains(t) || t == old(
                    looping_state,
                ).ndfsa_ids@ || t == other@
            },
        spec_add_exits(
            table_view(current_super_states@),
            looping_char,
            cfgs_view(returned_dfsm@),
            cfgs_view(old(dfsm)@),
            cfg_view(*old(looping_state)),
            other@,
            0,
        ) == (cfg_view(*final(looping_state)), cfgs_view(final(dfsm)@)),
{
    let ghost tv = table_view(current_super_states@);
    let ghost dv = cfgs_view(returned_dfsm@);
    let mut ti: usize = 0;
    while ti < current_super_states.len()
        invariant
            ti <= current_super_states@.len(),
            looping_state.ndfsa_ids == old(looping_state).ndfsa_ids,
            looping_state.looping_chars == old(looping_state).looping_chars,
            configs_wf(dfsm@, n),
            sets_distinct(idsets(returned_dfsm@) + idsets(dfsm@)),
            avoids(idsets(returned_dfsm@) + idsets(dfsm@), looping_state.ndfsa_ids@),
            avoids(idsets(returned_dfsm@) + idsets(dfsm@), other@),
            sub_membership(
                idsets(returned_dfsm@) + idsets(old(dfsm)@),
                idsets(returned_dfsm@) + idsets(dfsm@),
            ),
            dfsm@.len() >= old(dfsm)@.len(),
            forall|i: int| 0 <= i < old(dfsm)@.len() ==> dfsm@[i] == old(dfsm)@[i],
            forall|i: int|
                old(dfsm)@.len() <= i < dfsm@.len() ==> dfsm@[i].tran@.len() == 0,
            forall|j: int|
                0 <= j < old(looping_state).tran@.len() ==> looping_state.tran@[j] == old(
                    looping_state,
                ).tran@[j],
            looping_state.tran@.len() >= old(looping_state).tran@.len(),
            forall|j: int|
                old(looping_state).tran@.len() <= j < looping_state.tran@.len() ==> {
                    let t = (#[trigger] looping_state.tran@[j]).id@;
                    (idsets(returned_dfsm@) + idsets(dfsm@)).contains(t) || t == old(
                        looping_state,
                    ).ndfsa_ids@ || t == other@
                },
            spec_add_exits(tv, looping_char, dv, cfgs_view(old(dfsm)@), cfg_view(
                *old(looping_state),
            ), other@, 0) == spec_add_exits(
                tv,
                looping_char,
                dv,
                cfgs_view(dfsm@),
                cfg_view(*looping_state),
                other@,
                ti as int,
            ),
        decreases current_super_states@.len() - ti,
    {
        let ghost pend_at = cfgs_view(dfsm@);
        let ghost lcfg_at = cfg_view(*looping_state);
        let new_path_char = current_super_states[ti].matched;
        proof {
            assert(tv[ti as int] == (current_super_states@[ti as int].matched, current_super_states@[
                ti as int
            ].id@));
        }
        if new_path_char != looping_char {
            let ghost u_before = idsets(returned_dfsm@) + idsets(dfsm@);
            let ghost trans_before = looping_state.tran@;
            looping_state.tran.push(
                IntermediateTransition {
                    matched: new_path_char,
                    id: copy_ids(&current_super_states[ti].id),
                },
            );
            proof {
                assert(cfg_view(*looping_state) == SpecConfig {
                    ids: lcfg_at.ids,
                    looping: lcfg_at.looping,
                    tran: lcfg_at.tran.push((new_path_char, current_super_states@[
                        ti as int
                    ].id@)),
                }) by {
                    assert(looping_state.tran@.map_values(
                        |t: IntermediateTransition| (t.matched, t.id@),
                    ) =~= lcfg_at.tran.push(
                        (new_path_char, current_super_states@[ti as int].id@),
                    ));
                }
            }
            ensure_config(
                returned_dfsm,
                dfsm,
                &looping_state.ndfsa_ids,
                other,
                &current_super_states[ti].id,
                Ghost(n),
            );
            proof {
                assert(cfgs_view(dfsm@) == spec_ensure(
                    dv,
                    pend_at,
                    lcfg_at.ids,
                    other@,
                    current_super_states@[ti as int].id@,
                ));
                let u_after = idsets(returned_dfsm@) + idsets(dfsm@);
                lemma_sub_trans(
                    idsets(returned_dfsm@) + idsets(old(dfsm)@),
                    u_before,
                    u_after,
                );
                assert forall|j: int|
                    old(looping_state).tran@.len() <= j < looping_state.tran@.len() implies {
                    let t = (#[trigger] looping_state.tran@[j]).id@;
                    u_after.contains(t) || t == old(looping_state).ndfsa_ids@ || t == other@
                } by {
                    if j < trans_before.len() {
                        let t = trans_before[j].id@;
                        if u_before.contains(t) {
                            lemma_contains_mono(u_before, u_after, t);
                        }
                    }
                }
                assert(spec_add_exits(tv, looping_char, dv, pend_at, lcfg_at, other@, ti as int)
                    == spec_add_exits(
                    tv,
                    looping_char,
                    dv,
                    cfgs_view(dfsm@),
                    cfg_view(*looping_state),
                    other@,
                    ti as int + 1,
                ));
            }
        } else {
            proof {
                assert(spec_add_exits(tv, looping_char, dv, pend_at, lcfg_at, other@, ti as int)
                    == spec_add_exits(tv, looping_char, dv, pend_at, lcfg_at, other@, ti as int
                    + 1));
            }
        }
        ti = ti + 1;
    }
}

/// Handles a configuration holding a literal whose target loops back into
/// the configuration's own set: the compatible branching states are folded
/// into the follow-on sets, and the looping character either marks the
/// configuration itself or leads to a dedicated loop configuration with its
/// own exits. Performs exactly the step the model `spec_create_looping`
/// describes; the precondition guarantees the looping character a follow-on
/// entry, so the model's defensive arm is never taken.
#[verifier::loop_isolation(false)]
#[verifier::rlimit(100)]
fn create_looping_state(
    current_dfa: &mut IntermediateState,
    returned_dfsm: &mut Vec<IntermediateState>,
    dfsm: &mut Vec<IntermediateState>,
    ndfsm: &Vec<NDFAState>,
    branched_to_id: u32,
    c: char,
)
    requires
        ndfa::nfa_wf(ndfsm@),
        spec_loop_char_found(old(current_dfa).ndfsa_ids@, ndfsm@, branched_to_id, c),
        branched_to_id < ndfsm@.len(),
        idset_wf(old(current_dfa).ndfsa_ids@, ndfsm@.len() as int),
        configs_wf(old(returned_dfsm)@, ndfsm@.len() as int),
        configs_wf(old(dfsm)@, ndfsm@.len() as int),
        sets_distinct(idsets(old(returned_dfsm)@) + idsets(old(dfsm)@)),
        avoids(
            idsets(old(returned_dfsm)@) + idsets(old(dfsm)@),
            old(current_dfa).ndfsa_ids@,
        ),
    ensures
        final(current_dfa).ndfsa_ids == old(current_dfa).ndfsa_ids,
        configs_wf(final(returned_dfsm)@, ndfsm@.len() as int),
        configs_wf(final(dfsm)@, ndfsm@.len() as int),
        sets_distinct(idsets(final(returned_dfsm)@) + idsets(final(dfsm)@)),
        avoids(
            idsets(final(returned_dfsm)@) + idsets(final(dfsm)@),
            final(current_dfa).ndfsa_ids@,
        ),
        final(returned_dfsm)@.len() >= old(returned_dfsm)@.len(),
        forall|i: int|
            0 <= i < old(returned_dfsm)@.len() ==> final(returned_dfsm)@[i] == old(
                returned_dfsm,
            )@[i],
        final(dfsm)@.len() >= old(dfsm)@.len(),
        forall|i: int| 0 <= i < old(dfsm)@.len() ==> final(dfsm)@[i] == old(dfsm)@[i],
        forall|i: int|
            old(dfsm)@.len() <= i < final(dfsm)@.len() ==> final(dfsm)@[i].tran@.len() == 0,
        sub_membership(
            idsets(old(returned_dfsm)@) + idsets(old(dfsm)@) + seq![
                old(current_dfa).ndfsa_ids@,
            ],
            idsets(final(returned_dfsm)@) + idsets(final(dfsm)@) + seq![
                old(current_dfa).ndfsa_ids@,
            ],
        ),
        forall|i: int|
            old(returned_dfsm)@.len() <= i < final(returned_dfsm)@.len() ==> trans_in(
                (#[trigger] final(returned_dfsm)@[i]).tran@,
                idsets(final(returned_dfsm)@) + idsets(final(dfsm)@) + seq![
                    old(current_dfa).ndfsa_ids@,
                ],
            ),
        final(current_dfa).tran@.len() >= old(current_dfa).tran@.len(),
        forall|j: int|
            0 <= j < old(current_dfa).tran@.len() ==> final(current_dfa).tran@[j] == old(
                current_dfa,
            ).tran@[j],
        forall|j: int|
            old(current_dfa).tran@.len() <= j < final(current_dfa).tran@.len() ==> (idsets(
                final(returned_dfsm)@,
            ) + idsets(final(dfsm)@) + seq![old(current_dfa).ndfsa_ids@]).contains(
                (#[trigger] final(current_dfa).tran@[j]).id@,
            ),
        spec_create_looping(
            cfg_view(*old(current_dfa)),
            cfgs_view(old(returned_dfsm)@),
            cfgs_view(old(dfsm)@),
            ndfsm@,
            branched_to_id,
            c,
        ) == (
            cfg_view(*final(current_dfa)),
            cfgs_view(final(returned_dfsm)@),
            cfgs_view(final(dfsm)@),
        ),
{
    let ghost n = ndfsm@.len() as int;
    let ghost cur_ids = old(current_dfa).ndfsa_ids@;
    let ghost cur_v = cfg_view(*old(current_dfa));
    let ghost done_v = cfgs_view(old(returned_dfsm)@);
    let ghost pend_v = cfgs_view(old(dfsm)@);
    let empty_prev: Vec<u32> = Vec::new();
    let returned_paths = traverse(&ndfsm[branched_to_id as usize], &empty_prev, ndfsm);
    let ghost pview = paths_view(returned_paths@);
    let mut current_super_states: Vec<IntermediateTransition> = Vec::new();
    proof {
        assert(table_view(current_super_states@) =~= Seq::<(char, Seq<u32>)>::empty());
    }
    let mut pi: usize = 0;
    while pi < returned_paths.len()
        invariant
            pi <= returned_paths@.len(),
            table_wf(current_super_states@, n),
            spec_fold_paths(Seq::empty(), pview, 0) == spec_fold_paths(
                table_view(current_super_states@),
                pview,
                pi as int,
            ),
        decreases returned_paths@.len() - pi,
    {
        proof {
            assert(pview[pi as int] == (returned_paths@[pi as int].0, returned_paths@[
                pi as int
            ].1@));
        }
        table_merge(
            &mut current_super_states,
            returned_paths[pi].0,
            &returned_paths[pi].1,
            Ghost(n),
        );
        pi = pi + 1;
    }
    let ghost table0_v = table_view(current_super_states@);
    proof {
        assert(table0_v == spec_fold_paths(Seq::empty(), pview, 0));
    }
    // Branching states of this configuration that can validly co-occur with
    // the loop: ones that do not open a genuine alternative.
    let mut branching_states: Vec<u32> = Vec::new();
    let mut yi: usize = 0;
    while yi < current_dfa.ndfsa_ids.len()
        invariant
            yi <= current_dfa.ndfsa_ids@.len(),
            ids_bounded(branching_states@, n),
            current_dfa == old(current_dfa),
            branching_states@ == spec_loop_branchings(cur_ids, ndfsm@, yi as int),
        decreases current_dfa.ndfsa_ids@.len() - yi,
    {
        let y = current_dfa.ndfsa_ids[yi];
        let ystate = &ndfsm[y as usize];
        let mut folds_into_loop = false;
        if let StateType::Branching(_) = ystate.machine_type {
            if !branches_to_two_literals(ystate, ndfsm) {
                folds_into_loop = true;
            }
        }
        if folds_into_loop {
            branching_states.push(y);
        }
        yi = yi + 1;
    }
    proof {
        assert(branching_states@ == spec_loop_branchings(
            cur_ids,
            ndfsm@,
            cur_ids.len() as int,
        ));
    }
    let ghost bs = branching_states@;
    // Fold them into every per-character follow-on set.
    let mut e: usize = 0;
    while e < current_super_states.len()
        invariant
            e <= current_super_states@.len(),
            table_wf(current_super_states@, n),
            current_super_states@.len() == table0_v.len(),
            spec_fold_branchings(table0_v, bs, 0) == spec_fold_branchings(
                table_view(current_super_states@),
                bs,
                e as int,
            ),
        decreases current_super_states@.len() - e,
    {
        let ghost pre = current_super_states@;
        let ghost pre_v = table_view(current_super_states@);
        let mut entry = current_super_states.remove(e);
        let ghost entry0 = entry.id@;
        let mut bi: usize = 0;
        while bi < branching_states.len()
            invariant
                bi <= branching_states@.len(),
                sorted_ids(entry.id@),
                ids_bounded(entry.id@, n),
                entry.id@.len() > 0,
                entry.matched == pre[e as int].matched,
                spec_merge_from(entry.id@, bs, bi as int) == spec_merge_from(entry0, bs, 0),
            decreases branching_states@.len() - bi,
        {
            insert_sorted(&mut entry.id, branching_states[bi]);
            proof {
                assert forall|j: int| 0 <= j < entry.id@.len() implies entry.id@[j] < n by {
                    assert(entry.id@.contains(entry.id@[j]));
                }
            }
            bi = bi + 1;
        }
        current_super_states.insert(e, entry);
        proof {
            assert forall|i: int|
                0 <= i < current_super_states@.len() implies entry_wf(
                #[trigger] current_super_states@[i],
                n,
            ) by {
                if i < e {
                    assert(current_super_states@[i] == pre[i]);
                } else if i > e {
                    assert(current_super_states@[i] == pre[i]);
                }
            }
            assert(spec_merge_from(entry.id@, bs, bs.len() as int) == entry.id@);
            assert(table_view(current_super_states@) =~= pre_v.update(
                e as int,
                (pre_v[e as int].0, spec_merge_from(pre_v[e as int].1, bs, 0)),
            ));
        }
        e = e + 1;
    }
    let ghost table_v = table_view(current_super_states@);
    proof {
        assert(table_v == spec_fold_branchings(table0_v, bs, 0));
    }
    // The follow-on set for the looping character itself.
    let mut ci: usize = 0;
    while ci < current_super_states.len() && current_super_states[ci].matched != c
        invariant
            ci <= current_super_states@.len(),
            spec_char_pos(table_v, c, ci as int) == spec_char_pos(table_v, c, 0),
        decreases current_super_states@.len() - ci,
    {
        proof {
            assert(table_v[ci as int].0 == current_super_states@[ci as int].matched);
        }
        ci = ci + 1;
    }
    proof {
        assert(ci as int == spec_char_pos(table_v, c, 0));
        if ci < current_super_states@.len() {
            assert(table_v[ci as int] == (current_super_states@[ci as int].matched,
            current_super_states@[ci as int].id@));
        }
        lemma_sub_refl(idsets(returned_dfsm@) + idsets(dfsm@) + seq![cur_ids]);
    }
    if ci >= current_super_states.len() {
        // No continuation on the looping character: the configuration is
        // left untouched, exactly as the model says. This cannot arise from
        // automata the parser emits, where the loop re-reaches the literal
        // it came from.
        return;
    }
    if ids_eq(&current_dfa.ndfsa_ids, &current_super_states[ci].id) {
        // The loop stays within this very configuration: a self-transition,
        // recorded as a looping character instead of an edge.
        current_dfa.looping_chars.push(c);
        proof {
            assert(cfg_view(*current_dfa) == SpecConfig {
                ids: cur_v.ids,
                looping: cur_v.looping.push(c),
                tran: cur_v.tran,
            });
        }
        let cur_copy = copy_ids(&current_dfa.ndfsa_ids);
        let ghost done_pre = returned_dfsm@;
        let ghost pend_pre = dfsm@;
        add_transitions_to_looping_state(
            &current_super_states,
            c,
            returned_dfsm,
            dfsm,
            current_dfa,
            &cur_copy,
            Ghost(n),
        );
        proof {
            let u_new = idsets(done_pre) + idsets(dfsm@);
            let v_old = idsets(done_pre) + idsets(pend_pre) + seq![cur_ids];
            let v_new = idsets(done_pre) + idsets(dfsm@) + seq![cur_ids];
            assert forall|i: int| 0 <= i < v_old.len() implies v_new.contains(
                #[trigger] v_old[i],
            ) by {
                if i < v_old.len() - 1 {
                    lemma_contains_mono(
                        idsets(done_pre) + idsets(pend_pre),
                        u_new,
                        v_old[i],
                    );
                    let w = choose|w: int| 0 <= w < u_new.len() && u_new[w] == v_old[i];
                    assert(v_new[w] == v_old[i]);
                } else {
                    assert(v_new[v_new.len() - 1] == cur_ids);
                }
            }
            assert forall|j: int|
                old(current_dfa).tran@.len() <= j < current_dfa.tran@.len() implies v_new.contains(
                (#[trigger] current_dfa.tran@[j]).id@,
            ) by {
                let t = current_dfa.tran@[j].id@;
                if u_new.contains(t) {
                    let w = choose|w: int| 0 <= w < u_new.len() && u_new[w] == t;
                    assert(v_new[w] == t);
                } else {
                    assert(t == cur_ids);
                    assert(v_new[v_new.len() - 1] == cur_ids);
                }
            }
        }
    } else {
        let ids_c = copy_ids(&current_super_states[ci].id);
        let ghost follow = table_v[ci as int].1;
        current_dfa.tran.push(IntermediateTransition { matched: c, id: copy_ids(&ids_c) });
        proof {
            assert(cfg_view(*current_dfa) == SpecConfig {
                ids: cur_v.ids,
                looping: cur_v.looping,
                tran: cur_v.tran.push((c, follow)),
            }) by {
                assert(current_dfa.tran@.map_values(
                    |t: IntermediateTransition| (t.matched, t.id@),
                ) =~= cur_v.tran.push((c, follow)));
            }
        }
        if exists_config(returned_dfsm, dfsm, &ids_c) {
            // The loop configuration already exists; the transition
            // suffices.
            proof {
                let u = idsets(returned_dfsm@) + idsets(dfsm@);
                let v = u + seq![cur_ids];
                let w = choose|w: int| 0 <= w < u.len() && u[w] == ids_c@;
                assert(v[w] == ids_c@);
            }
        } else {
            let mut initial_loops: Vec<char> = Vec::new();
            initial_loops.push(c);
            let mut created_looping_state = IntermediateState::new(
                copy_ids(&ids_c),
                initial_loops,
                Vec::new(),
            );
            proof {
                assert(cfg_view(created_looping_state) == SpecConfig {
                    ids: follow,
                    looping: seq![c],
                    tran: Seq::empty(),
                }) by {
                    assert(created_looping_state.looping_chars@ =~= seq![c]);
                    assert(created_looping_state.tran@.map_values(
                        |t: IntermediateTransition| (t.matched, t.id@),
                    ) =~= Seq::<(char, Seq<u32>)>::empty());
                }
            }
            let cur_copy = copy_ids(&current_dfa.ndfsa_ids);
            let ghost done_pre = returned_dfsm@;
            let ghost pend_pre = dfsm@;
            add_transitions_to_looping_state(
                &current_super_states,
                c,
                returned_dfsm,
                dfsm,
                &mut created_looping_state,
                &cur_copy,
                Ghost(n),
            );
            let ghost pend_now = dfsm@;
            let ghost lstate = created_looping_state;
            returned_dfsm.push(created_looping_state);
            proof {
                assert(cfgs_view(returned_dfsm@) =~= cfgs_view(done_pre).push(
                    cfg_view(lstate),
                ));
                lemma_distinct_insert(idsets(done_pre), idsets(pend_now), ids_c@);
                assert(idsets(returned_dfsm@) =~= idsets(done_pre).push(ids_c@));
                assert(idsets(returned_dfsm@) + idsets(dfsm@) =~= idsets(done_pre).push(ids_c@)
                    + idsets(pend_now));
                let u_mid = idsets(done_pre) + idsets(pend_now);
                let u_new = idsets(returned_dfsm@) + idsets(dfsm@);
                let v_old = idsets(done_pre) + idsets(pend_pre) + seq![cur_ids];
                let v_new = u_new + seq![cur_ids];
                // Everything previously collected is still collected.
                assert forall|i: int| 0 <= i < u_mid.len() implies u_new.contains(
                    #[trigger] u_mid[i],
                ) by {
                    if i < done_pre.len() {
                        assert(u_new[i] == u_mid[i]);
                    } else {
                        assert(u_new[i + 1] == u_mid[i]);
                    }
                }
                assert forall|i: int| 0 <= i < v_old.len() implies v_new.contains(
                    #[trigger] v_old[i],
                ) by {
                    if i < v_old.len() - 1 {
                        lemma_contains_mono(
                            idsets(done_pre) + idsets(pend_pre),
                            u_mid,
                            v_old[i],
                        );
                        lemma_contains_mono(u_mid, u_new, v_old[i]);
                        let w = choose|w: int| 0 <= w < u_new.len() && u_new[w] == v_old[i];
                        assert(v_new[w] == v_old[i]);
                    } else {
                        assert(v_new[v_new.len() - 1] == cur_ids);
                    }
                }
                // The new configuration's set and this configuration's set
                // are both collected now.
                assert(u_new[done_pre.len() as int] == ids_c@);
                assert(v_new[done_pre.len() as int] == ids_c@);
                assert(v_new[v_new.len() - 1] == cur_ids);
                // The created configuration's own transitions resolve.
                assert forall|j: int| 0 <= j < lstate.tran@.len() implies v_new.contains(
                    (#[trigger] lstate.tran@[j]).id@,
                ) by {
                    let t = lstate.tran@[j].id@;
                    if (idsets(done_pre) + idsets(pend_now)).contains(t) {
                        lemma_contains_mono(u_mid, u_new, t);
                        let w = choose|w: int| 0 <= w < u_new.len() && u_new[w] == t;
                        assert(v_new[w] == t);
                    } else if t == ids_c@ {
                    } else {
                        assert(t == cur_ids);
                    }
                }
                // The avoids facts survive the push.
                assert forall|x: int| 0 <= x < u_new.len() implies u_new[x] != cur_ids by {
                    if x < done_pre.len() {
                        assert(u_new[x] == u_mid[x]);
                    } else if x == done_pre.len() {
                        assert(u_new[x] == ids_c@);
                    } else {
                        assert(u_new[x] == u_mid[x - 1]);
                    }
                }
            }
        }
    }
}

/// Resolvability survives any collection that keeps the membership.
proof fn lemma_configs_resolvable_mono(
    cs: Seq<IntermediateState>,
    u1: Seq<Seq<u32>>,
    u2: Seq<Seq<u32>>,
)
    requires
        configs_resolvable(cs, u1),
        sub_membership(u1, u2),
    ensures
        configs_resolvable(cs, u2),
{
    assert forall|i: int| 0 <= i < cs.len() implies trans_in((#[trigger] cs[i]).tran@, u2) by {
        lemma_trans_in_mono(cs[i].tran@, u1, u2);
    }
}

/// Expands unresolved configurations in arrival order until none remains,
/// performing exactly the steps the model `spec_complete` describes.
///
/// For every literal of the configuration under expansion, either its target
/// loops back into the configuration's own set — the looping special case —
/// or the closure of its target is folded, per character, into a working
/// table; each table entry then becomes a looping character or an outgoing
/// transition to the (possibly newly created) configuration with that set.
/// Afterwards every transition of every returned configuration targets a set
/// that some returned configuration carries, and the returned configurations
/// carry pairwise distinct canonical sets. The precondition guarantees every
/// looping step a follow-on entry for its character.
#[verifier::loop_isolation(false)]
#[verifier::rlimit(100)]
fn complete_intermediate_states(
    intial_dfsm: Vec<IntermediateState>,
    ndfsm: &Vec<NDFAState>,
) -> (r: Vec<IntermediateState>)
    requires
        ndfa::nfa_wf(ndfsm@),
        spec_complete_clean(Seq::empty(), cfgs_view(intial_dfsm@), ndfsm@),
        configs_wf(intial_dfsm@, ndfsm@.len() as int),
        sets_distinct(idsets(intial_dfsm@)),
        forall|i: int| 0 <= i < intial_dfsm@.len() ==> intial_dfsm@[i].tran@.len() == 0,
    ensures
        configs_wf(r@, ndfsm@.len() as int),
        configs_resolvable(r@, idsets(r@)),
        sets_distinct(idsets(r@)),
        sub_membership(idsets(intial_dfsm@), idsets(r@)),
        cfgs_view(r@) == spec_complete(Seq::empty(), cfgs_view(intial_dfsm@), ndfsm@),
{
    let ghost n = ndfsm@.len() as int;
    let ghost pend0_v = cfgs_view(intial_dfsm@);
    let mut dfsm = intial_dfsm;
    let mut returned_dfsm: Vec<IntermediateState> = Vec::new();
    proof {
        assert(idsets(returned_dfsm@) + idsets(dfsm@) =~= idsets(dfsm@));
        let all = idsets(dfsm@);
        assert forall|i: int| 0 <= i < all.len() implies idset_wf(#[trigger] all[i], n) by {
            assert(all[i] == dfsm@[i].ndfsa_ids@);
        }
        lemma_config_count(all, ndfsm@.len() as nat);
        lemma_sub_refl(idsets(dfsm@));
        assert(cfgs_view(returned_dfsm@) =~= Seq::<SpecConfig>::empty());
    }
    while dfsm.len() > 0
        invariant
            configs_wf(dfsm@, n),
            configs_wf(returned_dfsm@, n),
            sets_distinct(idsets(returned_dfsm@) + idsets(dfsm@)),
            returned_dfsm@.len() + dfsm@.len() <= spec_two_to(ndfsm@.len() as nat),
            forall|i: int| 0 <= i < dfsm@.len() ==> dfsm@[i].tran@.len() == 0,
            configs_resolvable(returned_dfsm@, idsets(returned_dfsm@) + idsets(dfsm@)),
            sub_membership(idsets(intial_dfsm@), idsets(returned_dfsm@) + idsets(dfsm@)),
            spec_complete(Seq::empty(), pend0_v, ndfsm@) == spec_complete(
                cfgs_view(returned_dfsm@),
                cfgs_view(dfsm@),
                ndfsm@,
            ),
            spec_complete_clean(cfgs_view(returned_dfsm@), cfgs_view(dfsm@), ndfsm@),
        decreases spec_two_to(ndfsm@.len() as nat) - returned_dfsm@.len(),
    {
        let ghost pending_pre = dfsm@;
        let ghost done_entry_v = cfgs_view(returned_dfsm@);
        let ghost pend_entry_v = cfgs_view(dfsm@);
        let mut current_dfa = dfsm.remove(0);
        let ghost cur_ids = current_dfa.ndfsa_ids@;
        let ghost cur_entry_v = cfg_view(current_dfa);
        proof {
            assert(idsets(dfsm@) =~= idsets(pending_pre).drop_first());
            assert(cfgs_view(dfsm@) =~= cfgs_view(pending_pre).drop_first());
            assert(pend_entry_v[0] == cur_entry_v);
            lemma_distinct_pop(idsets(returned_dfsm@), idsets(pending_pre));
            assert(idsets(pending_pre)[0] == cur_ids);
            lemma_sub_pop(idsets(returned_dfsm@), idsets(pending_pre));
            assert(pend_entry_v.len() > 0);
            assert(done_entry_v.len() < spec_two_to(ndfsm@.len() as nat));
            assert(spec_expand_clean(cur_entry_v, done_entry_v, cfgs_view(dfsm@), ndfsm@, 0));
        }
        let ghost done_at_pop = returned_dfsm@.len();
        let potential_searched_ids = copy_ids(&current_dfa.ndfsa_ids);
        let mut super_states: Vec<IntermediateTransition> = Vec::new();
        proof {
            assert(table_view(super_states@) =~= Seq::<(char, Seq<u32>)>::empty());
        }
        let mut xi: usize = 0;
        while xi < potential_searched_ids.len()
            invariant
                returned_dfsm@.len() >= done_at_pop,
                xi <= potential_searched_ids@.len(),
                potential_searched_ids@ == current_dfa.ndfsa_ids@,
                current_dfa.ndfsa_ids@ == cur_ids,
                idset_wf(current_dfa.ndfsa_ids@, n),
                table_wf(super_states@, n),
                configs_wf(dfsm@, n),
                configs_wf(returned_dfsm@, n),
                sets_distinct(idsets(returned_dfsm@) + idsets(dfsm@)),
                avoids(idsets(returned_dfsm@) + idsets(dfsm@), current_dfa.ndfsa_ids@),
                forall|i: int| 0 <= i < dfsm@.len() ==> dfsm@[i].tran@.len() == 0,
                configs_resolvable(
                    returned_dfsm@,
                    idsets(returned_dfsm@) + idsets(dfsm@) + seq![cur_ids],
                ),
                trans_in(
                    current_dfa.tran@,
                    idsets(returned_dfsm@) + idsets(dfsm@) + seq![cur_ids],
                ),
                sub_membership(
                    idsets(intial_dfsm@),
                    idsets(returned_dfsm@) + idsets(dfsm@) + seq![cur_ids],
                ),
                spec_expand_ids(
                    cur_entry_v,
                    done_entry_v,
                    cfgs_view(pending_pre).drop_first(),
                    Seq::empty(),
                    ndfsm@,
                    0,
                ) == spec_expand_ids(
                    cfg_view(current_dfa),
                    cfgs_view(returned_dfsm@),
                    cfgs_view(dfsm@),
                    table_view(super_states@),
                    ndfsm@,
                    xi as int,
                ),
                spec_expand_clean(
                    cfg_view(current_dfa),
                    cfgs_view(returned_dfsm@),
                    cfgs_view(dfsm@),
                    ndfsm@,
                    xi as int,
                ),
            decreases potential_searched_ids@.len() - xi,
        {
            let x = potential_searched_ids[xi];
            let current_ndfa = &ndfsm[x as usize];
            if let StateType::Literal(c) = current_ndfa.machine_type {
                if let Branch::StateId(i) = current_ndfa.branch {
                    if vec_contains(&current_dfa.ndfsa_ids, i) {
                        // A literal branching back into this very
                        // configuration: a true automaton cycle.
                        let ghost done_pre = returned_dfsm@;
                        let ghost pend_pre = dfsm@;
                        let ghost trans_pre = current_dfa.tran@;
                        let ghost cur_pre_v = cfg_view(current_dfa);
                        proof {
                            assert(ndfsm@[x as int].machine_type->Literal_0 == c);
                            assert(ndfsm@[x as int].branch->StateId_0 == i);
                            assert(current_dfa.ndfsa_ids@[xi as int] == x);
                            assert(spec_loop_char_found(
                                current_dfa.ndfsa_ids@,
                                ndfsm@,
                                i,
                                c,
                            ));
                        }
                        create_looping_state(
                            &mut current_dfa,
                            &mut returned_dfsm,
                            &mut dfsm,
                            ndfsm,
                            i,
                            c,
                        );
                        proof {
                            let v_old = idsets(done_pre) + idsets(pend_pre) + seq![cur_ids];
                            let v_new = idsets(returned_dfsm@) + idsets(dfsm@) + seq![cur_ids];
                            lemma_configs_resolvable_mono(done_pre, v_old, v_new);
                            assert forall|q: int|
                                0 <= q < returned_dfsm@.len() implies trans_in(
                                (#[trigger] returned_dfsm@[q]).tran@,
                                v_new,
                            ) by {
                                if q < done_pre.len() {
                                    assert(returned_dfsm@[q] == done_pre[q]);
                                }
                            }
                            assert forall|j: int|
                                0 <= j < current_dfa.tran@.len() implies v_new.contains(
                                (#[trigger] current_dfa.tran@[j]).id@,
                            ) by {
                                if j < trans_pre.len() {
                                    assert(current_dfa.tran@[j] == trans_pre[j]);
                                    lemma_contains_mono(
                                        v_old,
                                        v_new,
                                        current_dfa.tran@[j].id@,
                                    );
                                }
                            }
                            lemma_sub_trans(idsets(intial_dfsm@), v_old, v_new);
                            // The model takes the same looping step.
                            let r = spec_create_looping(
                                cur_pre_v,
                                cfgs_view(done_pre),
                                cfgs_view(pend_pre),
                                ndfsm@,
                                i,
                                c,
                            );
                            assert(r.0 == cfg_view(current_dfa));
                            assert(r.0.ids == cur_pre_v.ids);
                            assert(SpecConfig {
                                ids: cur_pre_v.ids,
                                looping: r.0.looping,
                                tran: r.0.tran,
                            } == r.0);
                            assert(spec_expand_clean(
                                cfg_view(current_dfa),
                                cfgs_view(returned_dfsm@),
                                cfgs_view(dfsm@),
                                ndfsm@,
                                xi as int + 1,
                            ));
                        }
                    } else {
                        let empty_prev: Vec<u32> = Vec::new();
                        let returned_paths = traverse(&ndfsm[i as usize], &empty_prev, ndfsm);
                        let ghost pview = paths_view(returned_paths@);
                        let ghost table_at = table_view(super_states@);
                        let mut pi: usize = 0;
                        while pi < returned_paths.len()
                            invariant
                                pi <= returned_paths@.len(),
                                table_wf(super_states@, n),
                                spec_fold_paths(table_at, pview, 0) == spec_fold_paths(
                                    table_view(super_states@),
                                    pview,
                                    pi as int,
                                ),
                            decreases returned_paths@.len() - pi,
                        {
                            proof {
                                assert(pview[pi as int] == (returned_paths@[pi as int].0,
                                returned_paths@[pi as int].1@));
                            }
                            table_merge(
                                &mut super_states,
                                returned_paths[pi].0,
                                &returned_paths[pi].1,
                                Ghost(n),
                            );
                            pi = pi + 1;
                        }
                        proof {
                            assert(table_view(super_states@) == spec_fold_paths(
                                table_at,
                                pview,
                                0,
                            ));
                        }
                    }
                }
            }
            proof {
                let cv = cfg_view(current_dfa);
                let dv = cfgs_view(returned_dfsm@);
                let pv = cfgs_view(dfsm@);
                if !(ndfsm@[x as int].machine_type is Literal && ndfsm@[x as int].branch
                    is StateId && current_dfa.ndfsa_ids@.contains(
                    ndfsm@[x as int].branch->StateId_0,
                )) {
                    assert(current_dfa.ndfsa_ids@[xi as int] == x);
                    assert(spec_expand_clean(cv, dv, pv, ndfsm@, xi as int)
                        == spec_expand_clean(cv, dv, pv, ndfsm@, xi as int + 1));
                }
            }
            xi = xi + 1;
        }
        let ghost expanded = spec_expand_ids(
            cur_entry_v,
            done_entry_v,
            cfgs_view(pending_pre).drop_first(),
            Seq::empty(),
            ndfsm@,
            0,
        );
        proof {
            assert(expanded == (
                cfg_view(current_dfa),
                cfgs_view(returned_dfsm@),
                cfgs_view(dfsm@),
                table_view(super_states@),
            ));
        }
        let ghost cur_mid_v = cfg_view(current_dfa);
        let ghost done_mid_v = cfgs_view(returned_dfsm@);
        let ghost table_v = table_view(super_states@);
        // Resolve the accumulated per-character sets: a set equal to this
        // configuration's own is a looping character; any other becomes a
        // transition to the configuration carrying it.
        let mut ti: usize = 0;
        while ti < super_states.len()
            invariant
                returned_dfsm@.len() >= done_at_pop,
                ti <= super_states@.len(),
                current_dfa.ndfsa_ids@ == cur_ids,
                idset_wf(current_dfa.ndfsa_ids@, n),
                table_wf(super_states@, n),
                table_view(super_states@) == table_v,
                cfgs_view(returned_dfsm@) == done_mid_v,
                configs_wf(dfsm@, n),
                configs_wf(returned_dfsm@, n),
                sets_distinct(idsets(returned_dfsm@) + idsets(dfsm@)),
                avoids(idsets(returned_dfsm@) + idsets(dfsm@), current_dfa.ndfsa_ids@),
                forall|i: int| 0 <= i < dfsm@.len() ==> dfsm@[i].tran@.len() == 0,
                configs_resolvable(
                    returned_dfsm@,
                    idsets(returned_dfsm@) + idsets(dfsm@) + seq![cur_ids],
                ),
                trans_in(
                    current_dfa.tran@,
                    idsets(returned_dfsm@) + idsets(dfsm@) + seq![cur_ids],
                ),
                sub_membership(
                    idsets(intial_dfsm@),
                    idsets(returned_dfsm@) + idsets(dfsm@) + seq![cur_ids],
                ),
                spec_resolve_table(cur_mid_v, done_mid_v, expanded.2, table_v, 0)
                    == spec_resolve_table(
                    cfg_view(current_dfa),
                    done_mid_v,
                    cfgs_view(dfsm@),
                    table_v,
                    ti as int,
                ),
            decreases super_states@.len() - ti,
        {
            let ghost pend_at = cfgs_view(dfsm@);
            let ghost cur_at_v = cfg_view(current_dfa);
            proof {
                assert(table_v[ti as int] == (super_states@[ti as int].matched, super_states@[
                    ti as int
                ].id@));
            }
            let k = super_states[ti].matched;
            if ids_eq(&current_dfa.ndfsa_ids, &super_states[ti].id) {
                current_dfa.looping_chars.push(k);
                proof {
                    assert(cfg_view(current_dfa) == SpecConfig {
                        ids: cur_at_v.ids,
                        looping: cur_at_v.looping.push(k),
                        tran: cur_at_v.tran,
                    });
                }
            } else {
                let ghost done_pre = returned_dfsm@;
                let ghost pend_pre = dfsm@;
                let ghost trans_pre = current_dfa.tran@;
                current_dfa.tran.push(
                    IntermediateTransition { matched: k, id: copy_ids(&super_states[ti].id) },
                );
                proof {
                    assert(cfg_view(current_dfa) == SpecConfig {
                        ids: cur_at_v.ids,
                        looping: cur_at_v.looping,
                        tran: cur_at_v.tran.push((k, super_states@[ti as int].id@)),
                    }) by {
                        assert(current_dfa.tran@.map_values(
                            |t: IntermediateTransition| (t.matched, t.id@),
                        ) =~= cur_at_v.tran.push((k, super_states@[ti as int].id@)));
                    }
                }
                ensure_config(
                    &returned_dfsm,
                    &mut dfsm,
                    &current_dfa.ndfsa_ids,
                    &current_dfa.ndfsa_ids,
                    &super_states[ti].id,
                    Ghost(n),
                );
                proof {
                    let u_old = idsets(done_pre) + idsets(pend_pre);
                    let u_new = idsets(returned_dfsm@) + idsets(dfsm@);
                    let v_old = u_old + seq![cur_ids];
                    let v_new = u_new + seq![cur_ids];
                    assert forall|i: int| 0 <= i < v_old.len() implies v_new.contains(
                        #[trigger] v_old[i],
                    ) by {
                        if i < v_old.len() - 1 {
                            lemma_contains_mono(u_old, u_new, v_old[i]);
                            let w = choose|w: int| 0 <= w < u_new.len() && u_new[w] == v_old[i];
                            assert(v_new[w] == v_old[i]);
                        } else {
                            assert(v_new[v_new.len() - 1] == cur_ids);
                        }
                    }
                    lemma_configs_resolvable_mono(returned_dfsm@, v_old, v_new);
                    lemma_sub_trans(idsets(intial_dfsm@), v_old, v_new);
                    assert forall|j: int|
                        0 <= j < current_dfa.tran@.len() implies v_new.contains(
                        (#[trigger] current_dfa.tran@[j]).id@,
                    ) by {
                        if j < trans_pre.len() {
                            assert(current_dfa.tran@[j] == trans_pre[j]);
                            lemma_contains_mono(v_old, v_new, current_dfa.tran@[j].id@);
                        } else {
                            let t = current_dfa.tran@[j].id@;
                            assert(t == super_states@[ti as int].id@);
                            if u_new.contains(t) {
                                let w = choose|w: int|
                                    0 <= w < u_new.len() && u_new[w] == t;
                                assert(v_new[w] == t);
                            } else {
                                assert(t == cur_ids);
                                assert(v_new[v_new.len() - 1] == cur_ids);
                            }
                        }
                    }
                    assert(cfgs_view(dfsm@) == spec_ensure(
                        done_mid_v,
                        pend_at,
                        cur_ids,
                        cur_ids,
                        super_states@[ti as int].id@,
                    ));
                }
            }
            ti = ti + 1;
        }
        let ghost resolved = spec_resolve_table(cur_mid_v, done_mid_v, expanded.2, table_v, 0);
        proof {
            assert(resolved == (cfg_view(current_dfa), cfgs_view(dfsm@)));
        }
        let ghost done_pre = returned_dfsm@;
        let ghost pend_now = dfsm@;
        let ghost cur_final_v = cfg_view(current_dfa);
        returned_dfsm.push(current_dfa);
        proof {
            lemma_distinct_insert(idsets(done_pre), idsets(pend_now), cur_ids);
            assert(idsets(returned_dfsm@) =~= idsets(done_pre).push(cur_ids));
            assert(cfgs_view(returned_dfsm@) =~= cfgs_view(done_pre).push(cur_final_v));
            assert(idsets(returned_dfsm@) + idsets(dfsm@) =~= idsets(done_pre).push(cur_ids)
                + idsets(pend_now));
            let all = idsets(returned_dfsm@) + idsets(dfsm@);
            assert forall|i: int| 0 <= i < all.len() implies idset_wf(#[trigger] all[i], n) by {
                if i < returned_dfsm@.len() {
                    assert(all[i] == returned_dfsm@[i].ndfsa_ids@);
                } else {
                    assert(all[i] == dfsm@[i - returned_dfsm@.len()].ndfsa_ids@);
                }
            }
            lemma_config_count(all, ndfsm@.len() as nat);
            lemma_sub_requeue(idsets(done_pre), idsets(pend_now), cur_ids);
            lemma_configs_resolvable_mono(
                done_pre,
                idsets(done_pre) + idsets(pend_now) + seq![cur_ids],
                idsets(done_pre).push(cur_ids) + idsets(pend_now),
            );
            assert forall|q: int| 0 <= q < returned_dfsm@.len() implies trans_in(
                (#[trigger] returned_dfsm@[q]).tran@,
                all,
            ) by {
                if q < done_pre.len() {
                    assert(returned_dfsm@[q] == done_pre[q]);
                    lemma_trans_in_mono(
                        done_pre[q].tran@,
                        idsets(done_pre).push(cur_ids) + idsets(pend_now),
                        all,
                    );
                    lemma_sub_refl(all);
                } else {
                    lemma_trans_in_mono(
                        returned_dfsm@[q].tran@,
                        idsets(done_pre) + idsets(pend_now) + seq![cur_ids],
                        all,
                    );
                }
            }
            lemma_sub_trans(
                idsets(intial_dfsm@),
                idsets(done_pre) + idsets(pend_now) + seq![cur_ids],
                all,
            );
            // The model takes the same worklist step.
            assert(done_entry_v.len() == done_at_pop);
            assert(pend_entry_v.len() == pending_pre.len());
            assert(cfgs_view(returned_dfsm@).len() == returned_dfsm@.len());
            assert(spec_complete(done_entry_v, pend_entry_v, ndfsm@) == spec_complete(
                cfgs_view(returned_dfsm@),
                cfgs_view(dfsm@),
                ndfsm@,
            ));
            assert(spec_complete_clean(
                cfgs_view(returned_dfsm@),
                cfgs_view(dfsm@),
                ndfsm@,
            ));
        }
    }
    proof {
        assert(idsets(dfsm@).len() == 0);
        assert(idsets(returned_dfsm@) + idsets(dfsm@) =~= idsets(returned_dfsm@));
        assert(spec_complete(cfgs_view(returned_dfsm@), cfgs_view(dfsm@), ndfsm@) == cfgs_view(
            returned_dfsm@,
        ));
    }
    returned_dfsm
}

/// The number of outgoing edges of a finished DFA state.
pub open spec fn spec_out_degree(s: State) -> int {
    match s.tran {
        Transition::Finish => 0,
        Transition::NextStates(ts) => ts@.len() as int,
    }
}

/// Converts resolved configurations to final DFA states — exactly as the
/// model `spec_to_final` describes: each transition's id set is replaced by
/// the position of the first configuration carrying that exact set — one
/// always exists, so no transition is ever dropped — and a configuration
/// with no outgoing transitions becomes a `Finish` state.
#[verifier::loop_isolation(false)]
#[verifier::rlimit(50)]
fn intermediate_to_final(inter_dfsm: Vec<IntermediateState>) -> (r: Vec<State>)
    requires
        inter_dfsm@.len() >= 1,
        configs_resolvable(inter_dfsm@, idsets(inter_dfsm@)),
    ensures
        dfa_wf(r@),
        r@.len() == inter_dfsm@.len(),
        dfa_view(r@) == spec_to_final(cfgs_view(inter_dfsm@), 0),
        forall|i: int|
            0 <= i < r@.len() ==> (#[trigger] r@[i]).looping_chars@ == inter_dfsm@[i].looping_chars@
                && spec_out_degree(r@[i]) == inter_dfsm@[i].tran@.len() && (r@[i].tran is Finish
                <==> inter_dfsm@[i].tran@.len() == 0),
{
    let ghost cfgs = cfgs_view(inter_dfsm@);
    let total = inter_dfsm.len();
    let mut final_dfsm: Vec<State> = Vec::new();
    proof {
        assert(dfa_view(final_dfsm@) =~= Seq::<(Seq<char>, Seq<(char, int)>)>::empty());
        assert(Seq::<(Seq<char>, Seq<(char, int)>)>::empty() + spec_to_final(cfgs, 0)
            =~= spec_to_final(cfgs, 0));
    }
    let mut si: usize = 0;
    while si < total
        invariant
            si <= total,
            total == inter_dfsm@.len(),
            final_dfsm@.len() == si,
            forall|i: int|
                0 <= i < final_dfsm@.len() ==> dfa_state_wf(#[trigger] final_dfsm@[i], total as int)
                    && final_dfsm@[i].looping_chars@ == inter_dfsm@[i].looping_chars@
                    && spec_out_degree(final_dfsm@[i]) == inter_dfsm@[i].tran@.len() && (
                final_dfsm@[i].tran is Finish <==> inter_dfsm@[i].tran@.len() == 0),
            spec_to_final(cfgs, 0) == dfa_view(final_dfsm@) + spec_to_final(cfgs, si as int),
        decreases total - si,
    {
        let ghost cur_tran = cfgs[si as int].tran;
        let mut dfsa_trans: Vec<NextState> = Vec::new();
        proof {
            assert(dfsa_trans@.map_values(|t: NextState| (t.matched, t.id as int))
                =~= Seq::<(char, int)>::empty());
            assert(Seq::<(char, int)>::empty() + spec_final_tran(cfgs, cur_tran, 0)
                =~= spec_final_tran(cfgs, cur_tran, 0));
        }
        let trans_total = inter_dfsm[si].tran.len();
        let mut ti: usize = 0;
        while ti < trans_total
            invariant
                ti <= trans_total,
                si < total,
                total == inter_dfsm@.len(),
                trans_total == inter_dfsm@[si as int].tran@.len(),
                cur_tran == cfgs[si as int].tran,
                cur_tran.len() == trans_total,
                dfsa_trans@.len() == ti,
                forall|i: int| 0 <= i < dfsa_trans@.len() ==> (#[trigger] dfsa_trans@[i]).id < total,
                spec_final_tran(cfgs, cur_tran, 0) == dfsa_trans@.map_values(
                    |t: NextState| (t.matched, t.id as int),
                ) + spec_final_tran(cfgs, cur_tran, ti as int),
            decreases trans_total - ti,
        {
            proof {
                assert(cur_tran[ti as int] == (inter_dfsm@[si as int].tran@[ti as int].matched,
                inter_dfsm@[si as int].tran@[ti as int].id@));
            }
            let ghost target = inter_dfsm@[si as int].tran@[ti as int].id@;
            let mut loc: usize = 0;
            let mut found = false;
            while loc < total && !found
                invariant
                    loc <= total,
                    found ==> loc < total && inter_dfsm@[loc as int].ndfsa_ids@
                        == inter_dfsm@[si as int].tran@[ti as int].id@,
                    !found ==> (forall|m: int|
                        0 <= m < loc ==> inter_dfsm@[m].ndfsa_ids@ != inter_dfsm@[
                            si as int
                        ].tran@[ti as int].id@),
                    !found ==> spec_seek_pos(cfgs, target, loc as int) == spec_seek_pos(
                        cfgs,
                        target,
                        0,
                    ),
                    found ==> loc as int == spec_seek_pos(cfgs, target, 0),
                decreases total - loc, if found { 0int } else { 1int },
            {
                proof {
                    assert(cfgs[loc as int].ids == inter_dfsm@[loc as int].ndfsa_ids@);
                }
                if ids_eq(&inter_dfsm[loc].ndfsa_ids, &inter_dfsm[si].tran[ti].id) {
                    found = true;
                } else {
                    loc = loc + 1;
                }
            }
            proof {
                if !found {
                    let u = idsets(inter_dfsm@);
                    let t = inter_dfsm@[si as int].tran@[ti as int].id@;
                    assert(u.contains(t));
                    let w = choose|w: int| 0 <= w < u.len() && u[w] == t;
                    assert(inter_dfsm@[w].ndfsa_ids@ == t);
                }
            }
            let ghost trans_pre = dfsa_trans@;
            dfsa_trans.push(NextState { matched: inter_dfsm[si].tran[ti].matched, id: loc });
            ti = ti + 1;
            proof {
                assert(dfsa_trans@.map_values(|t: NextState| (t.matched, t.id as int))
                    =~= trans_pre.map_values(|t: NextState| (t.matched, t.id as int)).push(
                    (cur_tran[ti - 1].0, spec_seek_pos(cfgs, target, 0)),
                ));
            }
        }
        proof {
            assert(spec_final_tran(cfgs, cur_tran, trans_total as int)
                =~= Seq::<(char, int)>::empty());
            assert(dfsa_trans@.map_values(|t: NextState| (t.matched, t.id as int))
                + Seq::<(char, int)>::empty() =~= dfsa_trans@.map_values(
                |t: NextState| (t.matched, t.id as int),
            ));
        }
        let tran = if dfsa_trans.len() == 0 {
            Transition::Finish
        } else {
            Transition::NextStates(dfsa_trans)
        };
        let ghost dfa_pre = final_dfsm@;
        final_dfsm.push(State { looping_chars: copy_chars(&inter_dfsm[si].looping_chars), tran });
        si = si + 1;
        proof {
            assert(dfa_state_view(final_dfsm@[si - 1]) == (
                cfgs[si - 1].looping,
                spec_final_tran(cfgs, cur_tran, 0),
            ));
            assert(dfa_view(final_dfsm@) =~= dfa_view(dfa_pre).push(
                dfa_state_view(final_dfsm@[si - 1]),
            ));
            assert(spec_to_final(cfgs, si - 1) == seq![
                (cfgs[si - 1].looping, spec_final_tran(cfgs, cfgs[si - 1].tran, 0)),
            ] + spec_to_final(cfgs, si as int));
            assert(dfa_view(dfa_pre).push(dfa_state_view(final_dfsm@[si - 1])) + spec_to_final(
                cfgs,
                si as int,
            ) =~= dfa_view(dfa_pre) + spec_to_final(cfgs, si - 1));
        }
    }
    proof {
        assert(spec_to_final(cfgs, total as int) =~= Seq::<(Seq<char>, Seq<(char, int)>)>::empty());
        assert(dfa_view(final_dfsm@) + spec_to_final(cfgs, total as int) =~= dfa_view(
            final_dfsm@,
        ));
    }
    final_dfsm
}

/// Determinizes a completed NFA into its DFA by subset construction,
/// building exactly the DFA the model `spec_convert` describes: state 0 is
/// the configuration seeded from the start state's closure, every further
/// state is a distinct reachable configuration, each transition leads to
/// the configuration carrying the merged follow-on set of its character, a
/// looping character marks a follow-on set equal to the state's own, and
/// `Finish` marks a configuration with no follow-ons.
///
/// Every transition of every state targets a state of the DFA, so the
/// result can drive the scanner without further checks; and because the
/// result is a function of the NFA alone, re-running the determinizer on
/// the same automaton yields the identical DFA. `spec_determinizable`
/// excludes the automata on which the original determinizer aborts
/// mid-run — a looping character with no continuation, which no
/// parser-built automaton produces.
#[verifier::loop_isolation(false)]
pub fn convert(ndfsm: Vec<NDFAState>) -> (r: Vec<State>)
    requires
        ndfa::nfa_wf(ndfsm@),
        spec_determinizable(ndfsm@),
        ndfsm@.len() >= 1,
    ensures
        dfa_wf(r@),
        dfa_view(r@) == spec_convert(ndfsm@),
        forall|i: int|
            0 <= i < r@.len() ==> ((#[trigger] r@[i]).tran is Finish <==> dfa_view(r@)[i].1.len()
                == 0),
{
    let ghost n = ndfsm@.len() as int;
    let fst_ndfa_state = ndfsm[0];
    let mut initial_state = IntermediateState::new(Vec::new(), Vec::new(), Vec::new());
    let ghost initial0_v = SpecConfig {
        ids: Seq::empty(),
        looping: Seq::empty(),
        tran: Seq::empty(),
    };
    proof {
        assert(cfg_view(initial_state) == initial0_v) by {
            assert(initial_state.tran@.map_values(
                |t: IntermediateTransition| (t.matched, t.id@),
            ) =~= Seq::<(char, Seq<u32>)>::empty());
        }
    }

    let empty_prev: Vec<u32> = Vec::new();
    let returned_paths = traverse(&fst_ndfa_state, &empty_prev, &ndfsm);
    let ghost pview = paths_view(returned_paths@);

    // Consolidate all paths from the start state by character.
    let mut super_states: Vec<IntermediateTransition> = Vec::new();
    proof {
        assert(table_view(super_states@) =~= Seq::<(char, Seq<u32>)>::empty());
    }
    let mut pi: usize = 0;
    while pi < returned_paths.len()
        invariant
            pi <= returned_paths@.len(),
            table_wf(super_states@, n),
            spec_fold_paths(Seq::empty(), pview, 0) == spec_fold_paths(
                table_view(super_states@),
                pview,
                pi as int,
            ),
        decreases returned_paths@.len() - pi,
    {
        proof {
            assert(pview[pi as int] == (returned_paths@[pi as int].0, returned_paths@[
                pi as int
            ].1@));
        }
        table_merge(&mut super_states, returned_paths[pi].0, &returned_paths[pi].1, Ghost(n));
        pi = pi + 1;
    }
    let ghost table_v = table_view(super_states@);
    proof {
        assert(table_v == spec_fold_paths(Seq::empty(), pview, 0));
    }

    // One pending configuration per distinct follow-on set of the start
    // state, and one transition on the initial configuration for each.
    let mut intial_dfsm: Vec<IntermediateState> = Vec::new();
    let done0: Vec<IntermediateState> = Vec::new();
    proof {
        assert(idsets(done0@) + idsets(intial_dfsm@) =~= idsets(intial_dfsm@));
        assert(cfgs_view(intial_dfsm@) =~= Seq::<SpecConfig>::empty());
        assert(cfgs_view(done0@) =~= Seq::<SpecConfig>::empty());
    }
    let mut ti: usize = 0;
    while ti < super_states.len()
        invariant
            ti <= super_states@.len(),
            table_wf(super_states@, n),
            table_view(super_states@) == table_v,
            configs_wf(intial_dfsm@, n),
            done0@.len() == 0,
            cfgs_view(done0@) == Seq::<SpecConfig>::empty(),
            sets_distinct(idsets(done0@) + idsets(intial_dfsm@)),
            avoids(idsets(done0@) + idsets(intial_dfsm@), initial_state.ndfsa_ids@),
            initial_state.ndfsa_ids@.len() == 0,
            forall|i: int| 0 <= i < intial_dfsm@.len() ==> intial_dfsm@[i].tran@.len() == 0,
            trans_in(initial_state.tran@, idsets(done0@) + idsets(intial_dfsm@)),
            spec_seed(initial0_v, table_v, Seq::empty(), 0) == spec_seed(
                cfg_view(initial_state),
                table_v,
                cfgs_view(intial_dfsm@),
                ti as int,
            ),
        decreases super_states@.len() - ti,
    {
        let ghost pend_pre = intial_dfsm@;
        let ghost trans_pre = initial_state.tran@;
        let ghost init_at_v = cfg_view(initial_state);
        proof {
            assert(table_v[ti as int] == (super_states@[ti as int].matched, super_states@[
                ti as int
            ].id@));
        }
        initial_state.tran.push(
            IntermediateTransition {
                matched: super_states[ti].matched,
                id: copy_ids(&super_states[ti].id),
            },
        );
        proof {
            assert(cfg_view(initial_state) == SpecConfig {
                ids: init_at_v.ids,
                looping: init_at_v.looping,
                tran: init_at_v.tran.push(
                    (super_states@[ti as int].matched, super_states@[ti as int].id@),
                ),
            }) by {
                assert(initial_state.tran@.map_values(
                    |t: IntermediateTransition| (t.matched, t.id@),
                ) =~= init_at_v.tran.push(
                    (super_states@[ti as int].matched, super_states@[ti as int].id@),
                ));
            }
        }
        ensure_config(
            &done0,
            &mut intial_dfsm,
            &initial_state.ndfsa_ids,
            &initial_state.ndfsa_ids,
            &super_states[ti].id,
            Ghost(n),
        );
        proof {
            let u_old = idsets(done0@) + idsets(pend_pre);
            let u_new = idsets(done0@) + idsets(intial_dfsm@);
            assert forall|j: int|
                0 <= j < initial_state.tran@.len() implies u_new.contains(
                (#[trigger] initial_state.tran@[j]).id@,
            ) by {
                if j < trans_pre.len() {
                    assert(initial_state.tran@[j] == trans_pre[j]);
                    lemma_contains_mono(u_old, u_new, initial_state.tran@[j].id@);
                } else {
                    let t = initial_state.tran@[j].id@;
                    assert(t == super_states@[ti as int].id@);
                    assert(t.len() > 0);
                }
            }
            assert(cfgs_view(intial_dfsm@) == spec_ensure(
                Seq::empty(),
                cfgs_view(pend_pre),
                init_at_v.ids,
                init_at_v.ids,
                super_states@[ti as int].id@,
            ));
        }
        ti = ti + 1;
    }
    let ghost seeded = spec_seed(initial0_v, table_v, Seq::empty(), 0);
    proof {
        assert(seeded == (cfg_view(initial_state), cfgs_view(intial_dfsm@)));
    }
    let ghost pend0 = intial_dfsm@;
    let ghost pend0_v = cfgs_view(intial_dfsm@);
    let ghost initial_snap = initial_state;
    proof {
        assert(idsets(done0@) + idsets(pend0) =~= idsets(pend0));
        assert(trans_in(initial_snap.tran@, idsets(pend0)));
        assert(spec_complete_clean(Seq::empty(), cfgs_view(pend0), ndfsm@));
    }
    let completed = complete_intermediate_states(intial_dfsm, &ndfsm);
    let ghost comp = completed@;

    let mut all_configs: Vec<IntermediateState> = Vec::new();
    all_configs.push(initial_state);
    let mut completed = completed;
    all_configs.append(&mut completed);
    proof {
        assert(all_configs@ =~= seq![initial_snap] + comp);
        assert(cfgs_view(all_configs@) =~= seq![cfg_view(initial_snap)] + cfgs_view(comp));
        let u_all = idsets(all_configs@);
        let u_comp = idsets(comp);
        assert forall|i: int| 0 <= i < u_comp.len() implies u_all.contains(
            #[trigger] u_comp[i],
        ) by {
            assert(u_all[i + 1] == u_comp[i]);
        }
        lemma_trans_in_mono(initial_snap.tran@, idsets(pend0), u_comp);
        lemma_trans_in_mono(initial_snap.tran@, u_comp, u_all);
        assert forall|i: int| 0 <= i < all_configs@.len() implies trans_in(
            (#[trigger] all_configs@[i]).tran@,
            u_all,
        ) by {
            if i == 0 {
                assert(all_configs@[0] == initial_snap);
            } else {
                assert(all_configs@[i] == comp[i - 1]);
                lemma_trans_in_mono(comp[i - 1].tran@, u_comp, u_all);
            }
        }
    }
    let result = intermediate_to_final(all_configs);
    proof {
        assert(dfa_view(result@) == spec_convert(ndfsm@));
    }
    result
}

/// Determinization is repeatable: the DFA is a function of the NFA alone.
/// Any two results of `convert` for the same automaton — each carrying the
/// model's view and tagging `Finish` exactly on the states without
/// follow-ons, as `convert` ensures — agree state for state in looping
/// characters, acceptance, and every transition's character and target.
pub proof fn lemma_determinization_repeatable(d1: Seq<State>, d2: Seq<State>, nfa: Seq<NDFAState>)
    requires
        dfa_view(d1) == spec_convert(nfa),
        dfa_view(d2) == spec_convert(nfa),
        forall|i: int|
            0 <= i < d1.len() ==> ((#[trigger] d1[i]).tran is Finish <==> dfa_view(d1)[i].1.len()
                == 0),
        forall|i: int|
            0 <= i < d2.len() ==> ((#[trigger] d2[i]).tran is Finish <==> dfa_view(d2)[i].1.len()
                == 0),
    ensures
        d1.len() == d2.len(),
        forall|i: int| 0 <= i < d1.len() ==> (#[trigger] d1[i]).looping_chars@
            == d2[i].looping_chars@,
        forall|i: int|
            0 <= i < d1.len() ==> ((#[trigger] d1[i]).tran is Finish <==> d2[i].tran is Finish),
        forall|i: int|
            0 <= i < d1.len() ==> match ((#[trigger] d1[i]).tran, d2[i].tran) {
                (Transition::NextStates(a), Transition::NextStates(b)) => a@ == b@,
                _ => true,
            },
{
    assert(dfa_view(d1).len() == d1.len());
    assert(dfa_view(d2).len() == d2.len());
    assert forall|i: int| 0 <= i < d1.len() implies (#[trigger] d1[i]).looping_chars@
        == d2[i].looping_chars@ by {
        assert(dfa_view(d1)[i] == dfa_state_view(d1[i]));
        assert(dfa_view(d2)[i] == dfa_state_view(d2[i]));
    }
    assert forall|i: int|
        0 <= i < d1.len() implies ((#[trigger] d1[i]).tran is Finish <==> d2[i].tran
        is Finish) by {
        assert(dfa_view(d1)[i] == dfa_state_view(d1[i]));
        assert(dfa_view(d2)[i] == dfa_state_view(d2[i]));
    }
    assert forall|i: int|
        0 <= i < d1.len() implies match ((#[trigger] d1[i]).tran, d2[i].tran) {
        (Transition::NextStates(a), Transition::NextStates(b)) => a@ == b@,
        _ => true,
    } by {
        assert(dfa_view(d1)[i] == dfa_state_view(d1[i]));
        assert(dfa_view(d2)[i] == dfa_state_view(d2[i]));
        match (d1[i].tran, d2[i].tran) {
            (Transition::NextStates(a), Transition::NextStates(b)) => {
                let va = a@.map_values(|t: NextState| (t.matched, t.id as int));
                let vb = b@.map_values(|t: NextState| (t.matched, t.id as int));
                assert(va == vb);
                assert forall|j: int| 0 <= j < a@.len() implies a@[j] == b@[j] by {
                    assert(va[j] == (a@[j].matched, a@[j].id as int));
                    assert(vb[j] == (b@[j].matched, b@[j].id as int));
                }
                assert(a@ =~= b@);
            },
            _ => {},
        }
    }
}

// ---------------------------------------------------------------------------
// The literal-only round trip, determinizer half
// ---------------------------------------------------------------------------

/// The chain automaton of a literal-only pattern: one literal state per
/// character, each pointing at the next, the last at `Finish` — exactly
/// what the parser builds for such a pattern.
pub open spec fn is_chain_nfa(s: Seq<char>, nfa: Seq<NDFAState>) -> bool {
    nfa.len() == s.len() && forall|i: int|
        0 <= i < s.len() ==> nfa[i] == (NDFAState {
            id: i as u32,
            machine_type: StateType::Literal(s[i]),
            branch: if i == s.len() - 1 {
                Branch::Finish
            } else {
                Branch::StateId((i + 1) as u32)
            },
        })
}

/// The resolved configuration for chain position `k`.
spec fn chain_cfg(s: Seq<char>, k: int) -> SpecConfig {
    SpecConfig {
        ids: seq![k as u32],
        looping: Seq::empty(),
        tran: if k < s.len() - 1 {
            seq![(s[k + 1], seq![(k + 1) as u32])]
        } else {
            Seq::empty()
        },
    }
}

/// The first `k` resolved chain configurations.
spec fn chain_done(s: Seq<char>, k: int) -> Seq<SpecConfig>
    decreases k,
{
    if k <= 0 {
        Seq::empty()
    } else {
        chain_done(s, k - 1).push(chain_cfg(s, k - 1))
    }
}

proof fn lemma_chain_done_props(s: Seq<char>, k: int)
    requires
        0 <= k,
    ensures
        chain_done(s, k).len() == k,
        forall|j: int| 0 <= j < k ==> chain_done(s, k)[j] == chain_cfg(s, j),
    decreases k,
{
    if k > 0 {
        lemma_chain_done_props(s, k - 1);
    }
}

proof fn lemma_two_to_gt(n: nat)
    ensures
        spec_two_to(n) > n,
    decreases n,
{
    if n > 0 {
        lemma_two_to_gt((n - 1) as nat);
        lemma_two_to_pos((n - 1) as nat);
    }
}

/// The closure walk of a chain state yields its own single-literal path.
proof fn lemma_chain_traverse(s: Seq<char>, nfa: Seq<NDFAState>, i: int)
    requires
        is_chain_nfa(s, nfa),
        1 <= s.len(),
        0 <= i < s.len(),
    ensures
        spec_traverse(i, Seq::empty(), nfa) == seq![(s[i], seq![i as u32])],
{
    assert(spec_filter_path(Seq::empty(), nfa, 0) == Seq::<u32>::empty());
    assert(Seq::<u32>::empty().push(nfa[i].id) =~= seq![i as u32]);
    assert(spec_traverse(i, Seq::empty(), nfa) =~= seq![(s[i], seq![i as u32])]);
}

/// Folding one single-id path into the empty table yields the one-entry
/// table.
proof fn lemma_single_path_table(c: char, t: u32)
    ensures
        spec_fold_paths(Seq::empty(), seq![(c, seq![t])], 0) == seq![(c, seq![t])],
{
    let p: Seq<(char, Seq<u32>)> = seq![(c, seq![t])];
    let et: Seq<(char, Seq<u32>)> = Seq::empty();
    assert(spec_table_pos(et, c, 0) == 0);
    assert(spec_insert_from(Seq::<u32>::empty(), t, 0) =~= seq![t]);
    assert(spec_merge_from(Seq::<u32>::empty(), seq![t], 0) == spec_merge_from(
        spec_insert_sorted(Seq::empty(), t),
        seq![t],
        1,
    ));
    assert(spec_merge_from(spec_insert_sorted(Seq::empty(), t), seq![t], 1)
        == spec_insert_sorted(Seq::empty(), t));
    assert(spec_table_merge(et, c, seq![t]) == et.insert(0, (c, spec_merge_from(Seq::empty(), seq![t], 0))));
    assert(et.insert(0, (c, spec_merge_from(Seq::<u32>::empty(), seq![t], 0))) =~= seq![
        (c, spec_insert_sorted(Seq::<u32>::empty(), t)),
    ]);
    assert(spec_insert_sorted(Seq::<u32>::empty(), t) =~= seq![t]);
    assert(spec_table_merge(et, c, seq![t]) =~~= seq![(c, seq![t])]);
    assert(spec_fold_paths(et, p, 0) == spec_fold_paths(spec_table_merge(et, c, seq![t]), p, 1));
    assert(spec_fold_paths(spec_table_merge(et, c, seq![t]), p, 1) == spec_table_merge(
        et,
        c,
        seq![t],
    ));
}

/// The scan for a configuration finds the first position carrying its set.
proof fn lemma_seek_from(cfgs: Seq<SpecConfig>, t: Seq<u32>, loc: int, p: int)
    requires
        0 <= loc <= p < cfgs.len(),
        cfgs[p].ids == t,
        forall|j: int| loc <= j < p ==> cfgs[j].ids != t,
    ensures
        spec_seek_pos(cfgs, t, loc) == p,
    decreases p - loc,
{
    if loc < p {
        lemma_seek_from(cfgs, t, loc + 1, p);
    }
}

/// `spec_to_final` element by element.
proof fn lemma_to_final_index(cfgs: Seq<SpecConfig>, si: int)
    requires
        0 <= si <= cfgs.len(),
    ensures
        spec_to_final(cfgs, si).len() == cfgs.len() - si,
        forall|j: int|
            si <= j < cfgs.len() ==> spec_to_final(cfgs, si)[j - si] == ((
                cfgs[j].looping,
                spec_final_tran(cfgs, cfgs[j].tran, 0),
            )),
    decreases cfgs.len() - si,
{
    if si < cfgs.len() {
        lemma_to_final_index(cfgs, si + 1);
        assert forall|j: int|
            si <= j < cfgs.len() implies spec_to_final(cfgs, si)[j - si] == ((
            cfgs[j].looping,
            spec_final_tran(cfgs, cfgs[j].tran, 0),
        )) by {
            if j > si {
                assert(spec_to_final(cfgs, si)[j - si] == spec_to_final(cfgs, si + 1)[j - si
                    - 1]);
            }
        }
    }
}

/// One step of the worklist on a chain configuration, and on to the end.
proof fn lemma_chain_complete(s: Seq<char>, nfa: Seq<NDFAState>, k: int)
    requires
        is_chain_nfa(s, nfa),
        1 <= s.len() <= 0x4000_0000,
        0 <= k < s.len(),
    ensures
        spec_complete(
            chain_done(s, k),
            seq![SpecConfig { ids: seq![k as u32], looping: Seq::empty(), tran: Seq::empty() }],
            nfa,
        ) == chain_done(s, s.len() as int),
        spec_complete_clean(
            chain_done(s, k),
            seq![SpecConfig { ids: seq![k as u32], looping: Seq::empty(), tran: Seq::empty() }],
            nfa,
        ),
    decreases s.len() - k,
{
    let n = s.len() as int;
    lemma_chain_done_props(s, k);
    lemma_two_to_gt(nfa.len());
    let cur = SpecConfig { ids: seq![k as u32], looping: Seq::empty(), tran: Seq::empty() };
    let pend = seq![cur];
    let done = chain_done(s, k);
    assert(pend[0] == cur);
    assert(pend.drop_first() =~= Seq::<SpecConfig>::empty());
    let rest = pend.drop_first();
    if k < n - 1 {
        assert((k + 1) as u32 != k as u32);
        assert(!cur.ids.contains((k + 1) as u32)) by {
            assert forall|j: int| 0 <= j < cur.ids.len() implies cur.ids[j] != (k + 1) as u32 by {
                assert(cur.ids[j] == k as u32);
            }
        }
        assert(spec_expand_clean(cur, done, rest, nfa, 0)) by {
            assert(cur.ids[0] == k as u32);
            assert(spec_expand_clean(cur, done, rest, nfa, 1));
        }
        lemma_chain_traverse(s, nfa, k + 1);
        lemma_single_path_table(s[k + 1], (k + 1) as u32);
        let table1: Seq<(char, Seq<u32>)> = seq![(s[k + 1], seq![(k + 1) as u32])];
        assert(spec_expand_ids(cur, done, rest, Seq::empty(), nfa, 0) == spec_expand_ids(
            cur,
            done,
            rest,
            table1,
            nfa,
            1,
        ));
        assert(spec_expand_ids(cur, done, rest, table1, nfa, 1) == (cur, done, rest, table1));
        // Resolving the single entry: a new configuration for the next
        // chain position.
        let follow: Seq<u32> = seq![(k + 1) as u32];
        assert(follow != cur.ids) by {
            assert(follow[0] == (k + 1) as u32);
            assert(cur.ids[0] == k as u32);
        }
        let cur2 = SpecConfig {
            ids: cur.ids,
            looping: cur.looping,
            tran: cur.tran.push((s[k + 1], follow)),
        };
        assert(!cfg_sets(done).contains(follow)) by {
            assert forall|j: int| 0 <= j < cfg_sets(done).len() implies cfg_sets(done)[j]
                != follow by {
                assert(cfg_sets(done)[j] == done[j].ids);
                assert(done[j] == chain_cfg(s, j));
                assert(done[j].ids[0] == j as u32);
                assert(j as u32 != (k + 1) as u32);
                assert(done[j].ids[0] != follow[0]);
            }
        }
        assert(!cfg_sets(rest).contains(follow)) by {
            assert(cfg_sets(rest).len() == 0);
        }
        let fresh = SpecConfig { ids: follow, looping: Seq::empty(), tran: Seq::empty() };
        assert(spec_ensure(done, rest, cur.ids, cur.ids, follow) == rest.push(fresh));
        assert(spec_resolve_table(cur, done, rest, table1, 0) == spec_resolve_table(
            cur2,
            done,
            rest.push(fresh),
            table1,
            1,
        ));
        assert(spec_resolve_table(cur2, done, rest.push(fresh), table1, 1) == (
            cur2,
            rest.push(fresh),
        ));
        assert(cur2 =~~= chain_cfg(s, k)) by {
            assert(cur2.tran =~~= chain_cfg(s, k).tran);
        }
        assert(cur2 == chain_cfg(s, k));
        let done2 = done.push(cur2);
        assert(done2 =~= chain_done(s, k + 1));
        assert(done2 == chain_done(s, k + 1));
        assert(rest.push(fresh) =~= seq![fresh]);
        lemma_chain_complete(s, nfa, k + 1);
        assert(done.len() < done2.len() <= spec_two_to(nfa.len()));
        assert(spec_complete(done, pend, nfa) == spec_complete(done2, rest.push(fresh), nfa));
        assert(spec_complete_clean(done2, rest.push(fresh), nfa));
        assert(spec_complete_clean(done, pend, nfa));
    } else {
        // The last chain state branches to Finish: no follow-on sets.
        assert(nfa[k].branch == Branch::Finish);
        assert(spec_expand_clean(cur, done, rest, nfa, 0)) by {
            assert(cur.ids[0] == k as u32);
            assert(spec_expand_clean(cur, done, rest, nfa, 1));
        }
        assert(spec_expand_ids(cur, done, rest, Seq::empty(), nfa, 0) == spec_expand_ids(
            cur,
            done,
            rest,
            Seq::empty(),
            nfa,
            1,
        ));
        assert(spec_expand_ids(cur, done, rest, Seq::empty(), nfa, 1) == (
            cur,
            done,
            rest,
            Seq::<(char, Seq<u32>)>::empty(),
        ));
        assert(spec_resolve_table(cur, done, rest, Seq::empty(), 0) == (cur, rest));
        assert(cur =~~= chain_cfg(s, k));
        assert(cur == chain_cfg(s, k));
        let done2 = done.push(cur);
        assert(done2 =~= chain_done(s, n));
        assert(done2 == chain_done(s, n));
        assert(done.len() < done2.len() <= spec_two_to(nfa.len()));
        assert(spec_complete(done, pend, nfa) == spec_complete(done2, rest, nfa));
        assert(spec_complete(done2, rest, nfa) == done2);
        assert(spec_complete_clean(done2, rest, nfa));
        assert(spec_complete_clean(done, pend, nfa));
    }
}

/// The determinizer half of the literal-only round trip: the chain
/// automaton of a literal-only pattern determinizes to the chain DFA —
/// every state `p` below the pattern's length consumes exactly the
/// pattern's character at `p`, moving to state `p + 1`, no state loops, and
/// the one state past the end accepts with no way on.
pub proof fn lemma_literal_chain_determinizes(s: Seq<char>, nfa: Seq<NDFAState>)
    requires
        1 <= s.len() <= 0x4000_0000,
        is_chain_nfa(s, nfa),
    ensures
        spec_convert(nfa).len() == s.len() + 1,
        forall|p: int|
            0 <= p < s.len() ==> spec_convert(nfa)[p] == ((
                Seq::<char>::empty(),
                seq![(s[p], p + 1)],
            )),
        spec_convert(nfa)[s.len() as int] == ((
            Seq::<char>::empty(),
            Seq::<(char, int)>::empty(),
        )),
{
    let n = s.len() as int;
    // Seeding: one transition on character s[0] toward configuration {0}.
    lemma_chain_traverse(s, nfa, 0);
    lemma_single_path_table(s[0], 0u32);
    assert(0 as u32 == 0u32);
    let table: Seq<(char, Seq<u32>)> = seq![(s[0], seq![0u32])];
    assert(spec_fold_paths(Seq::empty(), spec_traverse(0, Seq::empty(), nfa), 0) == table);
    let initial0 = SpecConfig { ids: Seq::empty(), looping: Seq::empty(), tran: Seq::empty() };
    let cfg0 = SpecConfig { ids: seq![0u32], looping: Seq::empty(), tran: Seq::empty() };
    let initial1 = SpecConfig {
        ids: Seq::empty(),
        looping: Seq::empty(),
        tran: Seq::empty().push((s[0], seq![0u32])),
    };
    assert(seq![0u32] != Seq::<u32>::empty()) by {
        assert(seq![0u32].len() == 1);
    }
    assert(!cfg_sets(Seq::<SpecConfig>::empty()).contains(seq![0u32])) by {
        assert(cfg_sets(Seq::<SpecConfig>::empty()).len() == 0);
    }
    assert(spec_ensure(Seq::empty(), Seq::empty(), initial0.ids, initial0.ids, seq![0u32])
        =~= seq![cfg0]);
    assert(spec_seed(initial0, table, Seq::empty(), 0) == spec_seed(
        initial1,
        table,
        seq![cfg0],
        1,
    ));
    assert(spec_seed(initial1, table, seq![cfg0], 1) == (initial1, seq![cfg0]));
    // The worklist resolves the whole chain.
    assert(chain_done(s, 0) =~= Seq::<SpecConfig>::empty());
    lemma_chain_complete(s, nfa, 0);
    assert(spec_complete(Seq::empty(), seq![cfg0], nfa) == chain_done(s, n));
    // Finalization.
    lemma_chain_done_props(s, n);
    let all = seq![initial1] + chain_done(s, n);
    assert(all.len() == n + 1);
    assert(all[0] == initial1);
    assert forall|j: int| 0 <= j < n implies all[j + 1] == chain_cfg(s, j) by {}
    lemma_to_final_index(all, 0);
    // Every transition target resolves to the next position.
    assert forall|t: int| 0 <= t < n implies #[trigger] spec_seek_pos(all, seq![t as u32], 0)
        == t + 1 by {
        assert(all[t + 1] == chain_done(s, n)[t]);
        assert(all[t + 1] == chain_cfg(s, t));
        assert(all[t + 1].ids == seq![t as u32]);
        assert forall|j: int| 0 <= j < t + 1 implies all[j].ids != seq![t as u32] by {
            if j == 0 {
                assert(all[0].ids.len() == 0);
                assert(seq![t as u32].len() == 1);
            } else {
                assert(all[j] == chain_done(s, n)[j - 1]);
                assert(all[j] == chain_cfg(s, j - 1));
                assert(all[j].ids == seq![(j - 1) as u32]);
                assert((j - 1) as u32 != t as u32);
                assert(all[j].ids[0] != seq![t as u32][0]);
            }
        }
        lemma_seek_from(all, seq![t as u32], 0, t + 1);
    }
    // State 0 consumes s[0] toward state 1.
    assert(spec_final_tran(all, initial1.tran, 0) =~= seq![(s[0], 1int)]) by {
        assert(initial1.tran =~= seq![(s[0], seq![0u32])]);
        assert(initial1.tran[0] == (s[0], seq![0u32]));
        assert(spec_seek_pos(all, seq![0u32], 0) == 1);
        assert(spec_final_tran(all, initial1.tran, 1) =~= Seq::<(char, int)>::empty());
    }
    // State p + 1 consumes s[p + 1] toward state p + 2.
    assert forall|j: int| 0 <= j < n implies spec_final_tran(all, chain_cfg(s, j).tran, 0) =~= (
    if j < n - 1 {
        seq![(s[j + 1], j + 2)]
    } else {
        Seq::<(char, int)>::empty()
    }) by {
        if j < n - 1 {
            assert(chain_cfg(s, j).tran[0] == (s[j + 1], seq![(j + 1) as u32]));
            assert(spec_seek_pos(all, seq![(j + 1) as u32], 0) == j + 2);
            assert(spec_final_tran(all, chain_cfg(s, j).tran, 1)
                =~= Seq::<(char, int)>::empty());
        }
    }
    assert(spec_convert(nfa) == spec_to_final(all, 0));
    assert forall|p: int|
        0 <= p < n implies spec_convert(nfa)[p] == ((Seq::<char>::empty(), seq![(s[p], p + 1)]))
        by {
        if p == 0 {
            assert(spec_to_final(all, 0)[0] == ((initial1.looping, spec_final_tran(
                all,
                initial1.tran,
                0,
            ))));
        } else {
            assert(spec_to_final(all, 0)[p] == ((all[p].looping, spec_final_tran(
                all,
                all[p].tran,
                0,
            ))));
            assert(all[p] == chain_cfg(s, p - 1));
        }
    }
    assert(spec_to_final(all, 0)[n] == ((all[n].looping, spec_final_tran(all, all[n].tran, 0))));
    assert(all[n] == chain_cfg(s, n - 1));
}

/// The chain automaton of a literal-only pattern never meets the looping
/// special case: it satisfies `convert`'s precondition.
pub proof fn lemma_chain_determinizable(s: Seq<char>, nfa: Seq<NDFAState>)
    requires
        1 <= s.len() <= 0x4000_0000,
        is_chain_nfa(s, nfa),
    ensures
        spec_determinizable(nfa),
{
    let n = s.len() as int;
    lemma_chain_traverse(s, nfa, 0);
    lemma_single_path_table(s[0], 0u32);
    let table: Seq<(char, Seq<u32>)> = seq![(s[0], seq![0u32])];
    assert(spec_fold_paths(Seq::empty(), spec_traverse(0, Seq::empty(), nfa), 0) == table);
    let initial0 = SpecConfig { ids: Seq::empty(), looping: Seq::empty(), tran: Seq::empty() };
    let cfg0 = SpecConfig { ids: seq![0u32], looping: Seq::empty(), tran: Seq::empty() };
    let initial1 = SpecConfig {
        ids: Seq::empty(),
        looping: Seq::empty(),
        tran: Seq::empty().push((s[0], seq![0u32])),
    };
    assert(seq![0u32] != Seq::<u32>::empty()) by {
        assert(seq![0u32].len() == 1);
    }
    assert(!cfg_sets(Seq::<SpecConfig>::empty()).contains(seq![0u32])) by {
        assert(cfg_sets(Seq::<SpecConfig>::empty()).len() == 0);
    }
    assert(spec_ensure(Seq::empty(), Seq::empty(), initial0.ids, initial0.ids, seq![0u32])
        =~= seq![cfg0]);
    assert(spec_seed(initial0, table, Seq::empty(), 0) == spec_seed(
        initial1,
        table,
        seq![cfg0],
        1,
    ));
    assert(spec_seed(initial1, table, seq![cfg0], 1) == (initial1, seq![cfg0]));
    assert(chain_done(s, 0) =~= Seq::<SpecConfig>::empty());
    lemma_chain_complete(s, nfa, 0);
    assert(spec_complete_clean(Seq::empty(), seq![cfg0], nfa));
}

} // verus!