//! The analyzer: a pipeline of checks, from cheap static ones to actually
//! running the machine, that decides each machine's outcome.

use vstd::prelude::*;

use crate::outcome::Outcome;
use crate::tape::{
    count_ones, lemma_count_ones_le_len, lemma_count_ones_none, lemma_count_ones_prefix,
    lemma_count_ones_set, CellId,
    Tape, TapeView,
};
use crate::gen::{lemma_p32_max, p32};
use crate::tm::{
    code_target, code_writes_one, lemma_shift_is_drop, slot, valid_encoding, Move, NextState, Tm,
    MAX_STATES,
};

verus! {

// ----- The state graph ------------------------------------------------------
/// The raw next-state field of state `s`'s action on reading `one`.
pub open spec fn target(tm: Tm, s: nat, one: bool) -> nat {
    code_target(tm.code(s, one))
}

/// An edge of the state graph from state `s` to the (non-halt) state `t`; the
/// transitions on reading 1 count only if `with_ones`.
pub open spec fn edge(tm: Tm, with_ones: bool, s: nat, t: nat) -> bool {
    &&& s < tm.n
    &&& t < tm.n
    &&& (target(tm, s, false) == t || (with_ones && target(tm, s, true) == t))
}

/// The states that can be reached from state 0 in at most `k` edges.
pub open spec fn reach_set(tm: Tm, with_ones: bool, k: nat) -> Set<nat>
    decreases k,
{
    if k == 0 {
        set![0nat]
    } else {
        let prev = reach_set(tm, with_ones, (k - 1) as nat);
        prev.union(Set::new(|t: nat| exists|s: nat| prev.contains(s) && edge(tm, with_ones, s, t)))
    }
}

/// State `t` can be reached from state 0 in at most `k` edges.
pub open spec fn reach_within(tm: Tm, with_ones: bool, k: nat, t: nat) -> bool {
    reach_set(tm, with_ones, k).contains(t)
}

/// State `t` can be reached from state 0.
pub open spec fn reachable(tm: Tm, with_ones: bool, t: nat) -> bool {
    exists|k: nat| #[trigger] reach_within(tm, with_ones, k, t)
}

/// State `s` has a transition to the halt state (on reading 1 only if
/// `with_ones`).
pub open spec fn has_halt_edge(tm: Tm, with_ones: bool, s: nat) -> bool {
    tm.halts_at(s, false) || (with_ones && tm.halts_at(s, true))
}

/// Whether the state graph leads to the halt state. As long as no reachable
/// action on reading 0 writes a one, no 1 can ever be read, so transitions on
/// reading 1 are ignored.
pub open spec fn halt_reachable(tm: Tm) -> bool {
    if exists|s: nat| #[trigger] reachable(tm, false, s) && code_writes_one(tm.code(s, false)) {
        exists|s: nat| #[trigger] reachable(tm, true, s) && has_halt_edge(tm, true, s)
    } else {
        exists|s: nat| #[trigger] reachable(tm, false, s) && has_halt_edge(tm, false, s)
    }
}

/// Whether any transition of the machine goes to the halt state.
pub open spec fn has_halt_transition(tm: Tm) -> bool {
    exists|s: nat, one: bool| s < tm.n && #[trigger] tm.halts_at(s, one)
}

// ----- Running --------------------------------------------------------------
/// The outcome of running `tm` from a configuration: the tape, the head
/// position, the current state, the steps done so far, and the states seen
/// since the head last left the written range. A step reads the cell, writes,
/// then halts or moves; the run stops when it halts, when `max_steps` steps are
/// done, or when a state repeats while the head stays outside the written
/// range.
pub open spec fn run_from(
    tm: Tm,
    max_steps: nat,
    tape: TapeView,
    head: int,
    state: nat,
    steps: nat,
    away: Set<nat>,
) -> Outcome
    decreases max_steps - steps,
{
    let steps1 = steps + 1;
    let outside = !(tape.lo <= head < tape.hi());
    if outside && away.contains(state) {
        Outcome::RunAwayDetected
    } else {
        let away1 = if outside {
            away.insert(state)
        } else {
            Set::empty()
        };
        let c = tm.code(state, tape.value(head));
        let tape1 = tape.written(head, code_writes_one(c));
        if code_target(c) == tm.n {
            Outcome::Halted { steps: steps1 as u32, ones: tape1.ones() as u32 }
        } else if steps1 >= max_steps {
            Outcome::AbortedAfterMaxSteps
        } else {
            let head1 = if crate::tm::code_moves_right(c) {
                head + 1
            } else {
                head - 1
            };
            run_from(tm, max_steps, tape1, head1, code_target(c), steps1, away1)
        }
    }
}

/// The outcome of running `tm` on an empty tape.
pub open spec fn run(tm: Tm, max_steps: nat) -> Outcome {
    run_from(tm, max_steps, TapeView::empty(), 0, 0, 0, Set::empty())
}

/// The outcome of the whole pipeline, the first check that applies deciding.
pub open spec fn classify(tm: Tm, max_steps: nat) -> Outcome {
    if tm.halts_at(0, false) {
        Outcome::ImmediateHalt { wrote_one: code_writes_one(tm.code(0, false)) }
    } else if target(tm, 0, false) == 0 {
        Outcome::SimpleElope
    } else if !has_halt_transition(tm) {
        Outcome::NoHaltState
    } else if !halt_reachable(tm) {
        Outcome::HaltStateNotReachable
    } else {
        run(tm, max_steps)
    }
}

// ----- Lemmas on reachability -----------------------------------------------
proof fn lemma_reach_step(tm: Tm, w: bool, s: nat, t: nat)
    requires
        reachable(tm, w, s),
        edge(tm, w, s, t),
    ensures
        reachable(tm, w, t),
{
    let k = choose|k: nat| #[trigger] reach_within(tm, w, k, s);
    let k1: nat = k + 1;
    assert(reach_set(tm, w, (k1 - 1) as nat).contains(s) && edge(tm, w, s, t));
    assert(reach_within(tm, w, k1, t));
}

proof fn lemma_reach_zero(tm: Tm, w: bool)
    ensures
        reachable(tm, w, 0),
{
    assert(reach_within(tm, w, 0, 0));
}

proof fn lemma_reach_within_mono(tm: Tm, k: nat, t: nat)
    requires
        reach_within(tm, false, k, t),
    ensures
        reach_within(tm, true, k, t),
    decreases k,
{
    if k > 0 {
        if reach_within(tm, false, (k - 1) as nat, t) {
            lemma_reach_within_mono(tm, (k - 1) as nat, t);
        } else {
            let s = choose|s: nat|
                reach_set(tm, false, (k - 1) as nat).contains(s) && edge(tm, false, s, t);
            lemma_reach_within_mono(tm, (k - 1) as nat, s);
        }
    }
}

proof fn lemma_reach_mono(tm: Tm, t: nat)
    requires
        reachable(tm, false, t),
    ensures
        reachable(tm, true, t),
{
    let k = choose|k: nat| #[trigger] reach_within(tm, false, k, t);
    lemma_reach_within_mono(tm, k, t);
}

/// A set of states that holds state 0 and is closed under the edges holds
/// every reachable state.
proof fn lemma_closed_holds_reachable(tm: Tm, w: bool, vis: Seq<bool>, k: nat, t: nat)
    requires
        vis.len() == tm.n,
        tm.n > 0,
        vis[0],
        forall|s: nat, u: nat| s < tm.n && vis[s as int] && #[trigger] edge(tm, w, s, u) ==> vis[u as int],
        reach_within(tm, w, k, t),
    ensures
        t < tm.n,
        vis[t as int],
    decreases k,
{
    if k > 0 {
        if reach_within(tm, w, (k - 1) as nat, t) {
            lemma_closed_holds_reachable(tm, w, vis, (k - 1) as nat, t);
        } else {
            let s = choose|s: nat| reach_set(tm, w, (k - 1) as nat).contains(s) && edge(tm, w, s, t);
            lemma_closed_holds_reachable(tm, w, vis, (k - 1) as nat, s);
        }
    }
}

/// `k` copies of the 5-bit `pattern`, one in each slot from the lowest.
pub open spec fn repeat_slots(pattern: nat, k: nat) -> nat
    decreases k,
{
    if k == 0 {
        0
    } else {
        repeat_slots(pattern, (k - 1) as nat) * 32 + pattern
    }
}

proof fn lemma_repeat_slots_bound(pattern: nat, k: nat)
    requires
        pattern < 32,
    ensures
        repeat_slots(pattern, k) < p32(k),
    decreases k,
{
    if k > 0 {
        lemma_repeat_slots_bound(pattern, (k - 1) as nat);
    }
}

/// A mask that repeats the 5-bit `pattern` in each of the `2 * n` slots of a
/// machine.
fn make_repeating_mask(n: u8, pattern: u64) -> (r: u64)
    requires
        1 <= n <= MAX_STATES,
        pattern < 32,
    ensures
        r == repeat_slots(pattern as nat, 2 * n as nat),
{
    let mut out: u64 = 0;
    let mut i: u8 = 0;
    while i < 2 * n
        invariant
            1 <= n <= MAX_STATES,
            pattern < 32,
            i <= 2 * n,
            out == repeat_slots(pattern as nat, i as nat),
        decreases 2 * n - i,
    {
        proof {
            lemma_repeat_slots_bound(pattern as nat, i as nat);
            lemma_p32_max((i + 1) as nat);
            assert(p32((i + 1) as nat) == 32 * p32(i as nat));
        }
        out = out * 32 + pattern;
        i = i + 1;
    }
    out
}

/// The next-state field of slot `j`, read off the word directly.
proof fn lemma_slot_target(e: u64, j: u64)
    requires
        j < 12,
    ensures
        (e >> (5 * j + 2)) & 7 == slot(e as nat, j as nat) / 4,
{
    lemma_shift_is_drop(e, j);
    let s: u64 = (5 * j) as u64;
    assert(((e >> s) % 32) / 4 == (e >> (s + 2)) & 7) by (bit_vector)
        requires
            s <= 55,
    ;
}

/// Adding the per-slot bias to the masked next-state fields does not
/// overflow.
proof fn lemma_halt_mask_fits(e: u64, n: u8, m: u64, a: u64)
    requires
        1 <= n <= MAX_STATES,
        m == repeat_slots(28, 2 * n as nat),
        a == repeat_slots(((8 - n) * 4) as nat, 2 * n as nat),
    ensures
        (e & m) + a <= 0xffff_ffff_ffff_ffffu64,
{
    match n {
        1 => {
            assert(m == 924 && a == 924) by {
                reveal_with_fuel(repeat_slots, 13);
            }
            assert((e & m) + a <= 0xffff_ffff_ffff_ffffu64) by (bit_vector)
                requires
                    m == 924u64,
                    a == 924u64,
            ;
        },
        2 => {
            assert(m == 947100 && a == 811800) by {
                reveal_with_fuel(repeat_slots, 13);
            }
            assert((e & m) + a <= 0xffff_ffff_ffff_ffffu64) by (bit_vector)
                requires
                    m == 947100u64,
                    a == 811800u64,
            ;
        },
        3 => {
            assert(m == 969831324 && a == 692736660) by {
                reveal_with_fuel(repeat_slots, 13);
            }
            assert((e & m) + a <= 0xffff_ffff_ffff_ffffu64) by (bit_vector)
                requires
                    m == 969831324u64,
                    a == 692736660u64,
            ;
        },
        4 => {
            assert(m == 993107276700 && a == 567489872400) by {
                reveal_with_fuel(repeat_slots, 13);
            }
            assert((e & m) + a <= 0xffff_ffff_ffff_ffffu64) by (bit_vector)
                requires
                    m == 993107276700u64,
                    a == 567489872400u64,
            ;
        },
        5 => {
            assert(m == 1016941851341724 && a == 435832222003596) by {
                reveal_with_fuel(repeat_slots, 13);
            }
            assert((e & m) + a <= 0xffff_ffff_ffff_ffffu64) by (bit_vector)
                requires
                    m == 1016941851341724u64,
                    a == 435832222003596u64,
            ;
        },
        6 => {
            assert(m == 1041348455773926300 && a == 297528130221121800) by {
                reveal_with_fuel(repeat_slots, 13);
            }
            assert((e & m) + a <= 0xffff_ffff_ffff_ffffu64) by (bit_vector)
                requires
                    m == 1041348455773926300u64,
                    a == 297528130221121800u64,
            ;
        },
        _ => {},
    }
}

/// The carry trick: with the bias `8 - n` added to every next-state field,
/// exactly the fields holding the halt state `n` carry into the bit above
/// them.
proof fn lemma_halt_mask_detects(e: u64, n: u8, m: u64, a: u64, sum: u64)
    requires
        valid_encoding(n as nat, e as nat),
        m == repeat_slots(28, 2 * n as nat),
        a == repeat_slots(((8 - n) * 4) as nat, 2 * n as nat),
        sum == (e & m) + a,
    ensures
        ((sum & !m) == 0) <==> forall|j: nat| j < 2 * n ==> #[trigger] slot(e as nat, j) / 4 != n,
{
    lemma_shift_is_drop(e, (2 * n) as u64);
    match n {
        1 => {
            assert(m == 924 && a == 924) by {
                reveal_with_fuel(repeat_slots, 13);
            }
            lemma_slot_target(e, 0);
            lemma_slot_target(e, 1);
            assert(((sum & !m) == 0) <==> ((e >> 2u64) & 7 != 1 && (e >> 7u64) & 7 != 1)) by (bit_vector)
                requires
                    m == 924u64,
                    a == 924u64,
                    e >> 10u64 == 0,
                    sum == (e & m) + a,
                    (e >> 2u64) & 7 <= 1,
                    (e >> 7u64) & 7 <= 1,
            ;
        },
        2 => {
            assert(m == 947100 && a == 811800) by {
                reveal_with_fuel(repeat_slots, 13);
            }
            lemma_slot_target(e, 0);
            lemma_slot_target(e, 1);
            lemma_slot_target(e, 2);
            lemma_slot_target(e, 3);
            assert(((sum & !m) == 0) <==> ((e >> 2u64) & 7 != 2 && (e >> 7u64) & 7 != 2 && (e >> 12u64) & 7 != 2 && (e >> 17u64) & 7 != 2)) by (bit_vector)
                requires
                    m == 947100u64,
                    a == 811800u64,
                    e >> 20u64 == 0,
                    sum == (e & m) + a,
                    (e >> 2u64) & 7 <= 2,
                    (e >> 7u64) & 7 <= 2,
                    (e >> 12u64) & 7 <= 2,
                    (e >> 17u64) & 7 <= 2,
            ;
        },
        3 => {
            assert(m == 969831324 && a == 692736660) by {
                reveal_with_fuel(repeat_slots, 13);
            }
            lemma_slot_target(e, 0);
            lemma_slot_target(e, 1);
            lemma_slot_target(e, 2);
            lemma_slot_target(e, 3);
            lemma_slot_target(e, 4);
            lemma_slot_target(e, 5);
            assert(((sum & !m) == 0) <==> ((e >> 2u64) & 7 != 3 && (e >> 7u64) & 7 != 3 && (e >> 12u64) & 7 != 3 && (e >> 17u64) & 7 != 3 && (e >> 22u64) & 7 != 3 && (e >> 27u64) & 7 != 3)) by (bit_vector)
                requires
                    m == 969831324u64,
                    a == 692736660u64,
                    e >> 30u64 == 0,
                    sum == (e & m) + a,
                    (e >> 2u64) & 7 <= 3,
                    (e >> 7u64) & 7 <= 3,
                    (e >> 12u64) & 7 <= 3,
                    (e >> 17u64) & 7 <= 3,
                    (e >> 22u64) & 7 <= 3,
                    (e >> 27u64) & 7 <= 3,
            ;
        },
        4 => {
            assert(m == 993107276700 && a == 567489872400) by {
                reveal_with_fuel(repeat_slots, 13);
            }
            lemma_slot_target(e, 0);
            lemma_slot_target(e, 1);
            lemma_slot_target(e, 2);
            lemma_slot_target(e, 3);
            lemma_slot_target(e, 4);
            lemma_slot_target(e, 5);
            lemma_slot_target(e, 6);
            lemma_slot_target(e, 7);
            assert(((sum & !m) == 0) <==> ((e >> 2u64) & 7 != 4 && (e >> 7u64) & 7 != 4 && (e >> 12u64) & 7 != 4 && (e >> 17u64) & 7 != 4 && (e >> 22u64) & 7 != 4 && (e >> 27u64) & 7 != 4 && (e >> 32u64) & 7 != 4 && (e >> 37u64) & 7 != 4)) by (bit_vector)
                requires
                    m == 993107276700u64,
                    a == 567489872400u64,
                    e >> 40u64 == 0,
                    sum == (e & m) + a,
                    (e >> 2u64) & 7 <= 4,
                    (e >> 7u64) & 7 <= 4,
                    (e >> 12u64) & 7 <= 4,
                    (e >> 17u64) & 7 <= 4,
                    (e >> 22u64) & 7 <= 4,
                    (e >> 27u64) & 7 <= 4,
                    (e >> 32u64) & 7 <= 4,
                    (e >> 37u64) & 7 <= 4,
            ;
        },
        5 => {
            assert(m == 1016941851341724 && a == 435832222003596) by {
                reveal_with_fuel(repeat_slots, 13);
            }
            lemma_slot_target(e, 0);
            lemma_slot_target(e, 1);
            lemma_slot_target(e, 2);
            lemma_slot_target(e, 3);
            lemma_slot_target(e, 4);
            lemma_slot_target(e, 5);
            lemma_slot_target(e, 6);
            lemma_slot_target(e, 7);
            lemma_slot_target(e, 8);
            lemma_slot_target(e, 9);
            assert(((sum & !m) == 0) <==> ((e >> 2u64) & 7 != 5 && (e >> 7u64) & 7 != 5 && (e >> 12u64) & 7 != 5 && (e >> 17u64) & 7 != 5 && (e >> 22u64) & 7 != 5 && (e >> 27u64) & 7 != 5 && (e >> 32u64) & 7 != 5 && (e >> 37u64) & 7 != 5 && (e >> 42u64) & 7 != 5 && (e >> 47u64) & 7 != 5)) by (bit_vector)
                requires
                    m == 1016941851341724u64,
                    a == 435832222003596u64,
                    e >> 50u64 == 0,
                    sum == (e & m) + a,
                    (e >> 2u64) & 7 <= 5,
                    (e >> 7u64) & 7 <= 5,
                    (e >> 12u64) & 7 <= 5,
                    (e >> 17u64) & 7 <= 5,
                    (e >> 22u64) & 7 <= 5,
                    (e >> 27u64) & 7 <= 5,
                    (e >> 32u64) & 7 <= 5,
                    (e >> 37u64) & 7 <= 5,
                    (e >> 42u64) & 7 <= 5,
                    (e >> 47u64) & 7 <= 5,
            ;
        },
        6 => {
            assert(m == 1041348455773926300 && a == 297528130221121800) by {
                reveal_with_fuel(repeat_slots, 13);
            }
            lemma_slot_target(e, 0);
            lemma_slot_target(e, 1);
            lemma_slot_target(e, 2);
            lemma_slot_target(e, 3);
            lemma_slot_target(e, 4);
            lemma_slot_target(e, 5);
            lemma_slot_target(e, 6);
            lemma_slot_target(e, 7);
            lemma_slot_target(e, 8);
            lemma_slot_target(e, 9);
            lemma_slot_target(e, 10);
            lemma_slot_target(e, 11);
            assert(((sum & !m) == 0) <==> ((e >> 2u64) & 7 != 6 && (e >> 7u64) & 7 != 6 && (e >> 12u64) & 7 != 6 && (e >> 17u64) & 7 != 6 && (e >> 22u64) & 7 != 6 && (e >> 27u64) & 7 != 6 && (e >> 32u64) & 7 != 6 && (e >> 37u64) & 7 != 6 && (e >> 42u64) & 7 != 6 && (e >> 47u64) & 7 != 6 && (e >> 52u64) & 7 != 6 && (e >> 57u64) & 7 != 6)) by (bit_vector)
                requires
                    m == 1041348455773926300u64,
                    a == 297528130221121800u64,
                    e >> 60u64 == 0,
                    sum == (e & m) + a,
                    (e >> 2u64) & 7 <= 6,
                    (e >> 7u64) & 7 <= 6,
                    (e >> 12u64) & 7 <= 6,
                    (e >> 17u64) & 7 <= 6,
                    (e >> 22u64) & 7 <= 6,
                    (e >> 27u64) & 7 <= 6,
                    (e >> 32u64) & 7 <= 6,
                    (e >> 37u64) & 7 <= 6,
                    (e >> 42u64) & 7 <= 6,
                    (e >> 47u64) & 7 <= 6,
                    (e >> 52u64) & 7 <= 6,
                    (e >> 57u64) & 7 <= 6,
            ;
        },
        _ => {},
    }
}

/// A vector of `n` copies of `v`.
fn array(v: bool, n: u8) -> (r: Vec<bool>)
    ensures
        r@.len() == n,
        forall|i: int| 0 <= i < n ==> r@[i] == v,
{
    let mut out: Vec<bool> = Vec::new();
    let mut i: u8 = 0;
    while i < n
        invariant
            i <= n,
            out@.len() == i,
            forall|j: int| 0 <= j < i ==> out@[j] == v,
        decreases n - i,
    {
        out.push(v);
        i = i + 1;
    }
    out
}

/// Holds the scratch space of the analysis, so that no memory is allocated
/// again for each machine. One analyzer can analyze any number of machines.
pub struct Analyzer {
    max_steps: u32,
    /// Stack of state ids used by `check_halt_reachable`.
    dfs_stack: Vec<u8>,
    /// The tape used by `run_tm`.
    tape: Tape,
}

impl Analyzer {
    pub closed spec fn wf(&self) -> bool {
        self.tape.wf()
    }

    /// The step limit after which a run is aborted.
    pub closed spec fn max_steps(&self) -> u32 {
        self.max_steps
    }

    /// Creates a new analyzer that aborts runs after `max_steps` steps.
    pub fn new(max_steps: u32) -> (r: Analyzer)
        ensures
            r.wf(),
            r.max_steps() == max_steps,
    {
        Analyzer { max_steps, dfs_stack: Vec::new(), tape: Tape::new() }
    }

    /// Analyzes the given machine.
    pub fn analyze(&mut self, tm: Tm) -> (r: Outcome)
        requires
            old(self).wf(),
            tm.wf(),
        ensures
            final(self).wf(),
            final(self).max_steps() == old(self).max_steps(),
            r == classify(tm, old(self).max_steps() as nat),
    {
        // Before running the machine, classify it statically where possible.
        match Self::check_immediate_halt(tm) {
            Some(outcome) => return outcome,
            None => {},
        }
        match Self::check_simple_elope(tm) {
            Some(outcome) => return outcome,
            None => {},
        }
        match Self::check_halt_exists(tm) {
            Some(outcome) => return outcome,
            None => {},
        }
        match self.check_halt_reachable(tm) {
            Some(outcome) => return outcome,
            None => {},
        }
        self.run_tm(tm)
    }

    /// Static analysis (very fast): the start action goes to the halt state.
    pub fn check_immediate_halt(tm: Tm) -> (r: Option<Outcome>)
        requires
            tm.wf(),
        ensures
            r == (if tm.halts_at(0, false) {
                Some(Outcome::ImmediateHalt { wrote_one: code_writes_one(tm.code(0, false)) })
            } else {
                None
            }),
    {
        let action = tm.start_action();
        if action.will_halt() {
            let wrote_one = action.write_value().0;
            return Some(Outcome::ImmediateHalt { wrote_one });
        }
        None
    }

    /// Static analysis (very fast): the start action has state 0 as its next
    /// state, so the machine runs off in one direction right away.
    pub fn check_simple_elope(tm: Tm) -> (r: Option<Outcome>)
        requires
            tm.wf(),
        ensures
            r == (if target(tm, 0, false) == 0 {
                Some(Outcome::SimpleElope)
            } else {
                None
            }),
    {
        if tm.start_action().next_state() == NextState::State(0) {
            return Some(Outcome::SimpleElope);
        }
        None
    }

    /// Static analysis (fast): the machine has a transition to the halt state
    /// at all.
    pub fn check_halt_exists(tm: Tm) -> (r: Option<Outcome>)
        requires
            tm.wf(),
        ensures
            r == (if has_halt_transition(tm) {
                None
            } else {
                Some(Outcome::NoHaltState)
            }),
    {
        // Instead of visiting every action, all next-state fields (bits 2 to
        // 4 of each 5-bit action) are checked at once. Masking away the
        // direction and write bits leaves `...00 SSS00 SSS00 SSS00`. Adding
        // `0b1000 - n` to every `SSS` carries into the bit above exactly the
        // fields that hold the halt state `n`, since no field holds more than
        // `n`; the two zero bits below each field keep the additions apart.
        let n = tm.n;
        let state_mask = make_repeating_mask(n, 0b11100);
        let adder = make_repeating_mask(n, ((8 - n) as u64) * 4);
        proof {
            lemma_halt_mask_fits(tm.encoded, n, state_mask, adder);
        }
        let shifted_states = tm.encoded & state_mask;
        let added = shifted_states + adder;
        let overflow = added & !state_mask;
        proof {
            lemma_halt_mask_detects(tm.encoded, n, state_mask, adder, added);
            if overflow == 0 {
                assert forall|s: nat, one: bool| s < tm.n implies !#[trigger] tm.halts_at(s, one) by {
                    let j = 2 * s + if one {
                        1nat
                    } else {
                        0nat
                    };
                    assert(slot(tm.encoded as nat, j) / 4 != n);
                }
            } else {
                let j = choose|j: nat| j < 2 * n && #[trigger] slot(tm.encoded as nat, j) / 4 == n;
                assert(tm.halts_at(j / 2, j % 2 == 1));
            }
        }
        if overflow == 0 {
            return Some(Outcome::NoHaltState);
        }
        None
    }

    /// Static analysis (slower): whether the halt state can be reached in the
    /// state graph, found by a depth-first search from state 0. As long as the
    /// search has not met an action on reading 0 that writes a one, it ignores
    /// the transitions on reading 1; when it meets one, it starts over with
    /// them.
    pub fn check_halt_reachable(&mut self, tm: Tm) -> (r: Option<Outcome>)
        requires
            old(self).wf(),
            tm.wf(),
        ensures
            final(self).wf(),
            final(self).max_steps() == old(self).max_steps(),
            r == (if halt_reachable(tm) {
                None
            } else {
                Some(Outcome::HaltStateNotReachable)
            }),
    {
        let n = tm.n;
        self.dfs_stack.clear();
        self.dfs_stack.push(0);
        let mut visited = array(false, n);
        // Stays `true` until an action writing a 1 is met.
        let mut only_0s = true;
        let ghost mut writer: nat = 0;
        let ghost mut phase: bool = false;
        let mut reached_halt = false;
        proof {
            lemma_reach_zero(tm, false);
            lemma_count_ones_none(visited@);
            assert(self.dfs_stack@[0] == 0u8);
        }
        loop
            invariant_except_break
                !reached_halt,
                phase == !only_0s,
                visited@.len() == n,
                count_ones(visited@) <= n,
                forall|i: int| 0 <= i < self.dfs_stack@.len() ==> self.dfs_stack@[i] < n,
                forall|i: int|
                    0 <= i < self.dfs_stack@.len() ==> #[trigger] reachable(
                        tm,
                        phase,
                        self.dfs_stack@[i] as nat,
                    ),
                forall|s: nat| s < n && #[trigger] visited@[s as int] ==> reachable(tm, phase, s),
                forall|s: nat| s < n && #[trigger] visited@[s as int] ==> !has_halt_edge(tm, phase, s),
                forall|s: nat|
                    s < n && #[trigger] visited@[s as int] ==> (only_0s ==> !code_writes_one(
                        tm.code(s, false),
                    )),
                forall|s: nat, u: nat|
                    s < n && visited@[s as int] && #[trigger] edge(tm, phase, s, u) ==> visited@[u as int]
                        || self.dfs_stack@.contains(u as u8),
                visited@[0] || self.dfs_stack@.contains(0u8),
                !only_0s ==> reachable(tm, false, writer) && code_writes_one(tm.code(writer, false)),
            invariant
                self.tape.wf(),
                tm.wf(),
                n == tm.n,
                self.max_steps == old(self).max_steps,
            ensures
                self.tape.wf(),
                self.max_steps == old(self).max_steps,
                reached_halt <==> halt_reachable(tm),
            decreases (if only_0s {
                1int
            } else {
                0int
            }), n - count_ones(visited@), self.dfs_stack@.len(),
        {
            let ghost st0 = self.dfs_stack@;
            let popped = self.dfs_stack.pop();
            match popped {
                None => {
                    proof {
                        let w = !only_0s;
                        assert forall|s: nat, u: nat|
                            s < n && visited@[s as int] && #[trigger] edge(
                                tm,
                                w,
                                s,
                                u,
                            ) implies visited@[u as int] by {
                            assert(!self.dfs_stack@.contains(u as u8));
                        }
                        assert(visited@[0]);
                        assert forall|s: nat| #[trigger] reachable(tm, w, s) implies visited@[s as int]
                            && s < n by {
                            let k = choose|k: nat| #[trigger] reach_within(tm, w, k, s);
                            lemma_closed_holds_reachable(tm, w, visited@, k, s);
                        }
                        if only_0s {
                            assert(!exists|s: nat| #[trigger] reachable(tm, false, s) && code_writes_one(
                                tm.code(s, false),
                            ));
                        } else {
                            assert(reachable(tm, false, writer) && code_writes_one(
                                tm.code(writer, false),
                            ));
                        }
                    }
                    break;
                },
                Some(state_id) => {
                    let ghost w0 = !only_0s;
                    let ghost s = state_id as nat;
                    proof {
                        assert(st0[st0.len() - 1] == state_id);
                        assert forall|u: u8| #[trigger] st0.contains(u) implies self.dfs_stack@.contains(
                            u,
                        ) || u == state_id by {
                            let i = choose|i: int| 0 <= i < st0.len() && st0[i] == u;
                            if i < st0.len() - 1 {
                                assert(self.dfs_stack@[i] == u);
                            }
                        }
                        assert(reachable(tm, w0, s));
                    }
                    if visited[state_id as usize] {
                        continue;
                    }
                    let ghost before_vis = visited@;
                    visited.set(state_id as usize, true);
                    proof {
                        lemma_count_ones_set(before_vis, state_id as int);
                        lemma_count_ones_le_len(visited@);
                    }
                    // Check whether a 1 could be written from here.
                    let state = tm.state(state_id);
                    if only_0s && state.on_0().write_value().0 {
                        only_0s = false;
                        proof {
                            phase = true;
                            writer = s;
                            lemma_reach_mono(tm, s);
                        }
                        // Transitions on reading 1 were ignored so far; since
                        // 1s can now be read, start over with them.
                        self.dfs_stack.clear();
                        self.dfs_stack.push(0);
                        visited = array(false, n);
                        proof {
                            lemma_reach_zero(tm, true);
                            lemma_count_ones_none(visited@);
                            assert(self.dfs_stack@[0] == 0u8);
                        }
                    }
                    let ghost w = !only_0s;
                    let ghost mid_stack = self.dfs_stack@;
                    proof {
                        assert(reachable(tm, w, s));
                        if !visited@[0] {
                            assert(mid_stack.contains(0u8));
                        }
                    }
                    let a0 = state.on_0();
                    match a0.next_state() {
                        NextState::HaltState => {
                            reached_halt = true;
                            proof {
                                if !w {
                                    lemma_reach_mono(tm, s);
                                }
                                assert(has_halt_edge(tm, true, s));
                            }
                            break;
                        },
                        NextState::State(v) => {
                            proof {
                                lemma_reach_step(tm, w, s, v as nat);
                            }
                            self.dfs_stack.push(v);
                        },
                    }
                    if !only_0s {
                        let a1 = state.on_1();
                        match a1.next_state() {
                            NextState::HaltState => {
                                reached_halt = true;
                                proof {
                                    assert(has_halt_edge(tm, true, s));
                                }
                                break;
                            },
                            NextState::State(v) => {
                                proof {
                                    lemma_reach_step(tm, w, s, v as nat);
                                }
                                self.dfs_stack.push(v);
                            },
                        }
                    }
                    proof {
                        // Everything on the stack before stays on it.
                        assert forall|u: u8| #[trigger] mid_stack.contains(u) implies self.dfs_stack@.contains(
                            u,
                        ) by {
                            let i = choose|i: int| 0 <= i < mid_stack.len() && mid_stack[i] == u;
                            assert(self.dfs_stack@[i] == u);
                        }
                        assert(self.dfs_stack@.contains(target(tm, s, false) as u8)) by {
                            assert(self.dfs_stack@[mid_stack.len() as int] == target(tm, s, false) as u8);
                        }
                        if w {
                            assert(self.dfs_stack@.contains(target(tm, s, true) as u8)) by {
                                assert(self.dfs_stack@[mid_stack.len() as int + 1] == target(tm, s, true) as u8);
                            }
                        }
                    }
                },
            }
        }
        if !reached_halt {
            return Some(Outcome::HaltStateNotReachable);
        }
        None
    }

    /// Runs the machine on a cleared tape. Besides halting and the step limit,
    /// a run stops when it is caught running away: while the head is outside
    /// the written range, it only reads 0s; if a state repeats before the head
    /// gets back into the written range, the machine repeats the same
    /// transitions forever, each time at least as far outside.
    pub fn run_tm(&mut self, tm: Tm) -> (r: Outcome)
        requires
            old(self).wf(),
            tm.wf(),
        ensures
            final(self).wf(),
            final(self).max_steps() == old(self).max_steps(),
            r == run(tm, old(self).max_steps() as nat),
    {
        self.tape.clear();
        let n = tm.n;
        let ghost max = self.max_steps as nat;
        let mut head: i64 = 0;
        let mut current_state: u8 = 0;
        // While the head is outside the written range, `running_away` is set
        // and `visited_during_run_away` marks the states seen since it left.
        let mut running_away = false;
        let mut visited_during_run_away = array(false, n);
        let ghost mut away: Set<nat> = Set::empty();
        let mut steps: u32 = 0;
        loop
            invariant
                self.tape.wf(),
                tm.wf(),
                n == tm.n,
                max == self.max_steps,
                self.max_steps == old(self).max_steps,
                current_state < n,
                steps == 0 || steps < max,
                visited_during_run_away@.len() == n,
                forall|t: nat| t < n ==> (#[trigger] visited_during_run_away@[t as int] <==> away.contains(t)),
                !running_away ==> away =~= Set::<nat>::empty(),
                self.tape@.lo <= 0 <= self.tape@.hi(),
                self.tape@.lo - 1 <= head <= self.tape@.hi(),
                self.tape@.hi() - self.tape@.lo <= steps,
                run_from(tm, max, self.tape@, head as int, current_state as nat, steps as nat, away)
                    == run(tm, max),
            decreases max - steps,
        {
            let ghost tape0 = self.tape@;
            let range = self.tape.written_range();
            if head < range.start.0 || head >= range.end.0 {
                running_away = true;
                if visited_during_run_away[current_state as usize] {
                    return Outcome::RunAwayDetected;
                }
                visited_during_run_away.set(current_state as usize, true);
                proof {
                    away = away.insert(current_state as nat);
                }
            } else if running_away {
                // Back inside the written range: start afresh.
                running_away = false;
                visited_during_run_away = array(false, n);
                proof {
                    away = Set::empty();
                }
            }
            steps = steps + 1;
            let value = self.tape.get(CellId(head));
            let action = tm.state(current_state).action_for(value);
            self.tape.write(CellId(head), action.write_value());
            match action.next_state() {
                NextState::HaltState => {
                    return self.count_ones_after_halt(steps);
                },
                NextState::State(v) => {
                    current_state = v;
                },
            }
            match action.movement() {
                Move::Left => head = head - 1,
                Move::Right => head = head + 1,
            }
            if steps >= self.max_steps {
                return Outcome::AbortedAfterMaxSteps;
            }
        }
    }

    /// The outcome of a run that halted after `steps` steps: counts the ones
    /// on the tape.
    fn count_ones_after_halt(&self, steps: u32) -> (r: Outcome)
        requires
            self.tape.wf(),
            self.tape@.hi() - self.tape@.lo <= steps,
        ensures
            r == (Outcome::Halted { steps, ones: self.tape@.ones() as u32 }),
    {
        let range = self.tape.written_range();
        let ghost cells = self.tape@.cells;
        let ghost lo = self.tape@.lo;
        let mut ones: u32 = 0;
        let mut id: i64 = range.start.0;
        while id < range.end.0
            invariant
                self.tape.wf(),
                cells == self.tape@.cells,
                lo == self.tape@.lo,
                range.start.0 == lo,
                range.end.0 == self.tape@.hi(),
                self.tape@.hi() - lo <= steps,
                lo <= id <= range.end.0,
                ones == count_ones(cells.subrange(0, id - lo)),
                ones <= id - lo,
            decreases range.end.0 - id,
        {
            proof {
                lemma_count_ones_prefix(cells, id - lo);
            }
            if self.tape.get(CellId(id)).0 {
                ones = ones + 1;
            }
            id = id + 1;
        }
        assert(cells.subrange(0, cells.len() as int) =~= cells);
        Outcome::Halted { steps, ones }
    }
}

} // verus!
