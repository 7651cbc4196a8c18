//! Turing machines with up to six states on a binary tape, packed into one
//! 64-bit word.
//!
//! Every state takes 10 bits, starting at the least significant end: the lower
//! 5 bits are the action taken when a 0 is read, the upper 5 bits the action
//! taken when a 1 is read. An action packs, from its lowest bit:
//! - bit 0: the inverted value to write (0 writes a one, 1 writes a zero),
//! - bit 1: the head movement (0 is left, 1 is right),
//! - bits 2 to 4: the next state, where the value `n` stands for halting.
//! All bits above the `10 * n` used ones are zero.

use vstd::prelude::*;

use crate::tape::CellValue;

verus! {

/// The largest number of states a machine can have: `10 * n` bits must fit
/// into a `u64`.
pub const MAX_STATES: u8 = 6;

/// The encoded word with its `k` lowest 5-bit slots shifted out.
pub open spec fn drop_slots(e: nat, k: nat) -> nat
    decreases k,
{
    if k == 0 {
        e
    } else {
        drop_slots(e / 32, (k - 1) as nat)
    }
}

/// The 5-bit action stored in slot `i` of an encoded word. Slot `2 * s` is the
/// action of state `s` on reading 0, slot `2 * s + 1` the one on reading 1.
pub open spec fn slot(e: nat, i: nat) -> nat {
    drop_slots(e, i) % 32
}

/// Whether `e` is a well-formed encoding of an `n`-state machine.
pub open spec fn valid_encoding(n: nat, e: nat) -> bool {
    &&& 1 <= n <= MAX_STATES
    &&& drop_slots(e, 2 * n) == 0
    &&& forall|i: nat| i < 2 * n ==> #[trigger] slot(e, i) / 4 <= n
}

/// Whether the action code `c` writes a one.
pub open spec fn code_writes_one(c: nat) -> bool {
    c % 2 == 0
}

/// Whether the action code `c` moves the head to the right.
pub open spec fn code_moves_right(c: nat) -> bool {
    (c / 2) % 2 == 1
}

/// The raw next-state field of the action code `c`.
pub open spec fn code_target(c: nat) -> nat {
    c / 4
}

/// `drop_slots` is what a right shift by `5 * k` bits computes.
pub proof fn lemma_shift_is_drop(e: u64, k: u64)
    requires
        k <= 12,
    ensures
        (e >> (5 * k)) as nat == drop_slots(e as nat, k as nat),
    decreases k,
{
    if k == 0 {
        assert(e >> 0u64 == e) by (bit_vector);
    } else {
        assert(e >> 5u64 == e / 32u64) by (bit_vector);
        lemma_shift_is_drop(e >> 5u64, (k - 1) as u64);
        let s: u64 = (5 * (k - 1)) as u64;
        assert((e >> 5u64) >> s == e >> (s + 5)) by (bit_vector)
            requires
                s <= 55,
        ;
    }
}

/// Shifting slots out in two steps is shifting them out at once.
pub proof fn lemma_drop_add(e: nat, a: nat, b: nat)
    ensures
        drop_slots(drop_slots(e, a), b) == drop_slots(e, a + b),
    decreases a,
{
    if a > 0 {
        lemma_drop_add(e / 32, (a - 1) as nat, b);
        assert(drop_slots(e, a + b) == drop_slots(e / 32, (a + b - 1) as nat));
    }
}

/// An `n`-state turing machine operating on a binary tape.
#[derive(Clone, Copy, Debug, PartialEq, Eq, Structural)]
pub struct Tm {
    /// The number of states, between 1 and `MAX_STATES`.
    pub n: u8,
    /// The packed transitions, as described in the module docs.
    pub encoded: u64,
}

/// One state of a machine: its two actions in 10 bits.
#[derive(Clone, Copy, Debug, PartialEq, Eq, Structural)]
pub struct State {
    pub n: u8,
    /// The lower 5 bits are the action on reading 0, the next 5 bits the one on
    /// reading 1. The upper 6 bits are zero.
    pub encoded: u16,
}

/// The `next_state` value of an action.
#[derive(Clone, Copy, Debug, PartialEq, Eq, Structural)]
pub enum NextState {
    /// The special halting state.
    HaltState,
    /// A normal state defined by the index.
    State(u8),
}

/// Everything that happens in one step of simulation.
#[derive(Clone, Copy, Debug, PartialEq, Eq, Structural)]
pub struct Action {
    pub n: u8,
    /// The 5-bit action code, as described in the module docs.
    pub encoded: u8,
}

#[derive(Clone, Copy, Debug, PartialEq, Eq, Structural)]
pub enum Move {
    Left,
    Right,
}

impl Tm {
    pub open spec fn wf(self) -> bool {
        valid_encoding(self.n as nat, self.encoded as nat)
    }

    /// The action code of state `s` when reading `one`.
    pub open spec fn code(self, s: nat, one: bool) -> nat {
        slot(self.encoded as nat, 2 * s + if one { 1nat } else { 0nat })
    }

    /// Whether the transition of state `s` on reading `one` goes to the halt
    /// state.
    pub open spec fn halts_at(self, s: nat, one: bool) -> bool {
        code_target(self.code(s, one)) == self.n
    }

    /// Decodes a machine from its ID. Returns `None` if the ID has bits set
    /// above the `10 * n` used ones, if an action names a state beyond the
    /// halt state, or if `n` is not between 1 and `MAX_STATES`.
    pub fn from_id(n: u8, id: u64) -> (r: Option<Tm>)
        ensures
            r is Some <==> valid_encoding(n as nat, id as nat),
            r matches Some(t) ==> t.n == n && t.encoded == id,
    {
        if n < 1 || n > MAX_STATES {
            return None;
        }
        proof {
            lemma_shift_is_drop(id, (2 * n) as u64);
        }
        // Check for too many states.
        if (id >> (10 * n as u64)) != 0 {
            return None;
        }
        // Make sure all actions transition to an actual state.
        let mut i: u64 = 0;
        while i < 2 * n as u64
            invariant
                1 <= n <= MAX_STATES,
                i <= 2 * n,
                drop_slots(id as nat, 2 * n as nat) == 0,
                forall|j: nat| j < i ==> #[trigger] slot(id as nat, j) / 4 <= n,
            decreases 2 * n - i,
        {
            proof {
                lemma_shift_is_drop(id, i);
            }
            let action = (id >> (5 * i)) % 32;
            if action / 4 > n as u64 {
                assert(slot(id as nat, i as nat) / 4 > n);
                return None;
            }
            i = i + 1;
        }
        Some(Tm::new_unchecked(n, id))
    }

    /// Wraps an encoding that is already known to be well formed.
    pub fn new_unchecked(n: u8, encoded: u64) -> (r: Tm)
        requires
            valid_encoding(n as nat, encoded as nat),
        ensures
            r.n == n,
            r.encoded == encoded,
            r.wf(),
    {
        Tm { n, encoded }
    }

    /// The action of state 0 on reading 0: always the first one executed.
    pub fn start_action(self) -> (r: Action)
        requires
            self.wf(),
        ensures
            r.n == self.n,
            r.encoded as nat == self.code(0, false),
            r.wf(),
    {
        self.state(0).on_0()
    }

    /// The state with the given index.
    pub fn state(self, index: u8) -> (r: State)
        requires
            self.wf(),
            index < self.n,
        ensures
            r.n == self.n,
            r.wf(),
            r.code(false) == self.code(index as nat, false),
            r.code(true) == self.code(index as nat, true),
    {
        let k: u64 = 2 * index as u64;
        let e = self.encoded;
        proof {
            lemma_shift_is_drop(e, k);
            let x: u64 = e >> (5 * k);
            assert((x % 1024) % 32 == x % 32) by (bit_vector);
            assert((x % 1024) / 32 == (x / 32) % 32) by (bit_vector);
            assert(drop_slots(x as nat / 32, 0) == x as nat / 32);
            assert(drop_slots(x as nat, 1) == x as nat / 32);
            lemma_drop_add(e as nat, k as nat, 1);
            let i0 = 2 * index as nat;
            assert(slot(e as nat, i0) / 4 <= self.n);
            assert(slot(e as nat, i0 + 1) / 4 <= self.n);
        }
        State { n: self.n, encoded: ((e >> (5 * k)) % 1024) as u16 }
    }
}

impl State {
    pub open spec fn wf(self) -> bool {
        &&& 1 <= self.n <= MAX_STATES
        &&& self.encoded < 1024
        &&& self.code(false) / 4 <= self.n
        &&& self.code(true) / 4 <= self.n
    }

    /// The action code on reading `one`.
    pub open spec fn code(self, one: bool) -> nat {
        if one {
            self.encoded as nat / 32
        } else {
            self.encoded as nat % 32
        }
    }

    pub fn on_0(self) -> (r: Action)
        requires
            self.wf(),
        ensures
            r.n == self.n,
            r.encoded as nat == self.code(false),
            r.wf(),
    {
        Action { n: self.n, encoded: (self.encoded % 32) as u8 }
    }

    pub fn on_1(self) -> (r: Action)
        requires
            self.wf(),
        ensures
            r.n == self.n,
            r.encoded as nat == self.code(true),
            r.wf(),
    {
        Action { n: self.n, encoded: (self.encoded / 32) as u8 }
    }

    /// Returns the action for the given cell value.
    pub fn action_for(self, value: CellValue) -> (r: Action)
        requires
            self.wf(),
        ensures
            r.n == self.n,
            r.encoded as nat == self.code(value.0),
            r.wf(),
    {
        if value.0 {
            self.on_1()
        } else {
            self.on_0()
        }
    }
}

impl Action {
    pub open spec fn wf(self) -> bool {
        &&& 1 <= self.n <= MAX_STATES
        &&& self.encoded < 32
        &&& self.encoded / 4 <= self.n
    }

    /// The next state value of this transition.
    pub fn next_state(&self) -> (r: NextState)
        requires
            self.wf(),
        ensures
            code_target(self.encoded as nat) == self.n ==> r == NextState::HaltState,
            code_target(self.encoded as nat) < self.n ==> r == NextState::State(
                (self.encoded / 4) as u8,
            ),
    {
        let v = self.encoded / 4;
        if v == self.n {
            NextState::HaltState
        } else {
            NextState::State(v)
        }
    }

    /// The value that is written to the tape.
    pub fn write_value(&self) -> (r: CellValue)
        ensures
            r.0 == code_writes_one(self.encoded as nat),
    {
        CellValue(self.encoded % 2 == 0)
    }

    /// How the reading/writing head moves.
    pub fn movement(&self) -> (r: Move)
        ensures
            r == (if code_moves_right(self.encoded as nat) {
                Move::Right
            } else {
                Move::Left
            }),
    {
        if (self.encoded / 2) % 2 == 0 {
            Move::Left
        } else {
            Move::Right
        }
    }

    /// Returns `true` if the next state is the halt state.
    pub fn will_halt(&self) -> (r: bool)
        ensures
            r == (code_target(self.encoded as nat) == self.n),
    {
        self.encoded / 4 == self.n
    }
}

/// The letter naming state `id` of an `n`-state machine: `A` for the first
/// state and so on, `H` for the halt state.
pub fn state_name(n: u8, id: u8) -> (r: char)
    requires
        1 <= n <= MAX_STATES,
        id <= n,
    ensures
        id == n ==> r == 'H',
        id < n ==> r as u32 == 'A' as u32 + id as u32,
{
    if id == n {
        'H'
    } else if id == 0 {
        'A'
    } else if id == 1 {
        'B'
    } else if id == 2 {
        'C'
    } else if id == 3 {
        'D'
    } else if id == 4 {
        'E'
    } else {
        'F'
    }
}

} // verus!
