//! Enumerating every machine with `n` states, or a symmetry-reduced subset,
//! in a fixed order addressable by index.
//!
//! The index of a machine is a number with `2 * n` digits in base `A`, the
//! number of actions a transition slot may take. Digit `j` is the action of
//! slot `j`. With symmetry reduction, the last slot only takes actions that
//! move left: its digit `d` becomes the action `4 * (d / 2) + d % 2`, which
//! inserts a zero at the direction bit, and the index stays below half of
//! `A^(2n)`. Skipping halting zeros leaves out the codes `4n + 1` and
//! `4n + 3` (halt, write 0), so digit `4n + 1` stands for the code `4n + 2`.

use vstd::arithmetic::div_mod::{lemma_div_denominator, lemma_fundamental_div_mod};
use vstd::arithmetic::power::pow;
use vstd::prelude::*;

use crate::tm::{
    code_moves_right, code_target, code_writes_one, drop_slots, slot, valid_encoding, Tm, MAX_STATES,
};

verus! {

/// Which machines a generator skips.
#[derive(Clone, Copy, Debug, PartialEq, Eq, Structural)]
pub enum Opt {
    /// No machine is skipped.
    KeepAll,
    /// Flipping the direction bit of every transition mirrors a machine
    /// without changing its behaviour, so of each machine and its mirror image
    /// only the one whose last transition (state `n - 1` on reading 1) moves
    /// left is generated: half of all machines.
    SkipSymmetries,
    /// Like `SkipSymmetries`, and also skips every machine with a halting
    /// transition that writes 0: the same machine writing 1 instead always
    /// does at least as well.
    AlsoSkipHaltZero,
}

/// The number of actions a transition slot may take.
pub open spec fn actions_for(n: nat, opt: Opt) -> nat {
    match opt {
        Opt::KeepAll => 4 * (n + 1),
        Opt::SkipSymmetries => 4 * (n + 1),
        Opt::AlsoSkipHaltZero => (4 * (n + 1) - 2) as nat,
    }
}

/// The number of machines a generator yields.
pub open spec fn count_for(n: nat, opt: Opt) -> nat {
    let raw = pow(actions_for(n, opt) as int, 2 * n) as nat;
    if opt is KeepAll {
        raw
    } else {
        raw / 2
    }
}

/// `x` divided by `a` `j` times.
pub open spec fn quot(x: nat, a: nat, j: nat) -> nat
    decreases j,
{
    if j == 0 {
        x
    } else {
        quot(x, a, (j - 1) as nat) / a
    }
}

/// Digit `j` of `x` in base `a`.
pub open spec fn digit(x: nat, a: nat, j: nat) -> nat {
    quot(x, a, j) % a
}

/// The action code for digit `d` of a slot; `last` marks the last slot. The
/// codes of an action are numbered in order, except that with symmetry
/// reduction the last slot skips the codes moving right, and that skipping
/// halting zeros skips the code `4n + 1` (halt, move left, write 0), so digit
/// `4n + 1` stands for `4n + 2` (halt, move right, write 1).
pub open spec fn slot_code(n: nat, opt: Opt, last: bool, d: nat) -> nat {
    if last && !(opt is KeepAll) {
        4 * (d / 2) + d % 2
    } else if opt is AlsoSkipHaltZero && d == 4 * n + 1 {
        4 * n + 2
    } else {
        d
    }
}

/// The action code of slot `j` of the machine at `index`.
pub open spec fn index_code(n: nat, opt: Opt, index: nat, j: nat) -> nat {
    slot_code(n, opt, j + 1 == 2 * n, digit(index, actions_for(n, opt), j))
}

/// The slots from `i` upwards of the machine at `index`, packed.
pub open spec fn pack(n: nat, opt: Opt, index: nat, i: nat) -> nat
    decreases 2 * n - i,
{
    if i >= 2 * n {
        0
    } else {
        index_code(n, opt, index, i) + 32 * pack(n, opt, index, i + 1)
    }
}

/// The encoding of the machine at `index`.
pub open spec fn encoding_at(n: nat, opt: Opt, index: nat) -> nat {
    pack(n, opt, index, 0)
}

/// `32^k`.
pub open spec fn p32(k: nat) -> nat
    decreases k,
{
    if k == 0 {
        1
    } else {
        32 * p32((k - 1) as nat)
    }
}

/// The direction bit of action code `c` flipped.
pub open spec fn flip_direction(c: nat) -> nat {
    if code_moves_right(c) {
        (c - 2) as nat
    } else {
        c + 2
    }
}

/// `b` is the mirror image of `a`: the direction of every transition is
/// reversed.
pub open spec fn is_mirror(n: nat, a: nat, b: nat) -> bool {
    forall|j: nat| j < 2 * n ==> #[trigger] slot(b, j) == flip_direction(slot(a, j))
}

/// The action code `c` is one the generator uses: skipping halting zeros
/// leaves out the halting actions that write 0.
pub open spec fn allowed_code(n: nat, opt: Opt, c: nat) -> bool {
    opt is AlsoSkipHaltZero ==> (code_target(c) == n ==> code_writes_one(c))
}

/// `e` is a well-formed machine whose every action is one the generator uses.
pub open spec fn in_space(n: nat, opt: Opt, e: nat) -> bool {
    &&& valid_encoding(n, e)
    &&& forall|j: nat| j < 2 * n ==> #[trigger] allowed_code(n, opt, slot(e, j))
}

/// `e` is the member of its mirror pair that the generator picks: with
/// symmetry reduction, the one whose last transition moves left.
pub open spec fn canonical(n: nat, opt: Opt, e: nat) -> bool {
    &&& in_space(n, opt, e)
    &&& !(opt is KeepAll) ==> !code_moves_right(slot(e, (2 * n - 1) as nat))
}

/// The digit that the action code `c` stands for: the inverse of `slot_code`.
pub open spec fn code_digit(n: nat, opt: Opt, last: bool, c: nat) -> nat {
    if last && !(opt is KeepAll) {
        2 * (c / 4) + c % 2
    } else if opt is AlsoSkipHaltZero && c == 4 * n + 2 {
        4 * n + 1
    } else {
        c
    }
}

/// The digits of the machine `e` from slot `i` upwards, as a number in base
/// `actions_for(n, opt)`.
pub open spec fn unpack(n: nat, opt: Opt, e: nat, i: nat) -> nat
    decreases 2 * n - i,
{
    if i >= 2 * n {
        0
    } else {
        code_digit(n, opt, i + 1 == 2 * n, slot(e, i)) + actions_for(n, opt) * unpack(n, opt, e, i + 1)
    }
}

// ----- Arithmetic lemmas ----------------------------------------------------
proof fn lemma_p32_mono(k: nat, m: nat)
    requires
        k <= m,
    ensures
        p32(k) <= p32(m),
    decreases m,
{
    if k < m {
        lemma_p32_mono(k, (m - 1) as nat);
    }
}

proof fn lemma_pow_step(a: nat, k: nat)
    ensures
        pow(a as int, k + 1) == a * pow(a as int, k),
        a > 0 ==> pow(a as int, k) > 0,
{
    reveal(pow);
    if a > 0 {
        vstd::arithmetic::power::lemma_pow_positive(a as int, k);
    }
}

proof fn lemma_p32_add(i: nat, j: nat)
    ensures
        p32(i + j) == p32(i) * p32(j),
    decreases i,
{
    if i > 0 {
        let i1 = (i - 1) as nat;
        lemma_p32_add(i1, j);
        assert(p32(i + j) == 32 * p32(i1 + j));
        assert(p32(i) == 32 * p32(i1));
        assert(p32(i) * p32(j) == 32 * (p32(i1) * p32(j))) by (nonlinear_arith)
            requires
                p32(i) == 32 * p32(i1),
        ;
    } else {
        assert(p32(0) == 1);
        assert(1 * p32(j) == p32(j));
    }
}

pub(crate) proof fn lemma_p32_max(k: nat)
    requires
        k <= 12,
    ensures
        p32(k) <= 1152921504606846976,
{
    reveal_with_fuel(p32, 13);
    assert(p32(12) == 1152921504606846976);
    lemma_p32_mono(k, 12);
}

proof fn lemma_pow_le_p32(a: nat, k: nat)
    requires
        a <= 32,
    ensures
        0 <= pow(a as int, k) <= p32(k),
    decreases k,
{
    reveal(pow);
    if k > 0 {
        lemma_pow_le_p32(a, (k - 1) as nat);
        let p = pow(a as int, (k - 1) as nat);
        assert(a * p <= 32 * p32((k - 1) as nat)) by (nonlinear_arith)
            requires
                0 <= p <= p32((k - 1) as nat),
                a <= 32,
        ;
    }
}

proof fn lemma_quot_div(x: nat, a: nat, j: nat)
    requires
        a > 0,
    ensures
        pow(a as int, j) > 0,
        quot(x, a, j) == x / (pow(a as int, j) as nat),
    decreases j,
{
    reveal(pow);
    if j > 0 {
        let j1 = (j - 1) as nat;
        lemma_quot_div(x, a, j1);
        let p = pow(a as int, j1);
        lemma_div_denominator(x as int, p, a as int);
        assert(quot(x, a, j) == quot(x, a, j1) / a);
        assert(pow(a as int, j) == a * p);
        assert(x as int / p / a as int == x as int / (p * a));
        assert(quot(x, a, j1) == x as int / p);
        assert(p * a == a * p) by (nonlinear_arith);
        assert(quot(x, a, j) == x as int / (a * p));
        assert(a * p > 0) by (nonlinear_arith)
            requires
                a > 0,
                p > 0,
        ;
        assert(pow(a as int, j) as nat == a * p);
    } else {
        assert(pow(a as int, 0) == 1);
        vstd::arithmetic::div_mod::lemma_div_basics(x as int);
    }
}

/// For `x < a^s`, the top digit is below `a`; for `2 * x < a^s`, twice the
/// top digit is below `a`.
proof fn lemma_top_digit(x: nat, a: nat, s: nat, twice: bool)
    requires
        a > 0,
        s > 0,
        (if twice {
            2 * x
        } else {
            x
        }) < pow(a as int, s),
    ensures
        (if twice {
            2 * quot(x, a, (s - 1) as nat)
        } else {
            quot(x, a, (s - 1) as nat)
        }) < a,
{
    let s1 = (s - 1) as nat;
    lemma_quot_div(x, a, s1);
    let p = pow(a as int, s1) as nat;
    let q = x / p;
    lemma_pow_step(a, s1);
    assert(pow(a as int, s) == a * p);
    assert(q * p <= x) by (nonlinear_arith)
        requires
            q == x / p,
            p > 0,
    ;
    if twice {
        assert(2 * q < a) by (nonlinear_arith)
            requires
                q * p <= x,
                2 * x < a * p,
                p > 0,
        ;
    } else {
        assert(q < a) by (nonlinear_arith)
            requires
                q * p <= x,
                x < a * p,
                p > 0,
        ;
    }
}

/// Every action code of a machine in range fits into its 5 bits, names a
/// state no further than the halt state and is one the generator uses; the
/// last one moves left when symmetries are skipped.
proof fn lemma_codes_fit(n: nat, opt: Opt, index: nat)
    requires
        1 <= n <= MAX_STATES,
        index < count_for(n, opt),
    ensures
        forall|j: nat|
            j < 2 * n ==> #[trigger] index_code(n, opt, index, j) < 32 && index_code(n, opt, index, j)
                / 4 <= n && allowed_code(n, opt, index_code(n, opt, index, j)),
        !(opt is KeepAll) ==> !code_moves_right(index_code(n, opt, index, (2 * n - 1) as nat)),
{
    let a = actions_for(n, opt);
    let s = 2 * n;
    let last = (s - 1) as nat;
    lemma_pow_step(a, s);
    if opt is KeepAll {
        lemma_top_digit(index, a, s, false);
    } else {
        let raw = pow(a as int, s) as nat;
        assert(2 * index < raw);
        lemma_top_digit(index, a, s, true);
        let d = quot(index, a, last);
        vstd::arithmetic::div_mod::lemma_small_mod(d, a);
        assert(d % a == d);
        assert(((4 * (d / 2) + d % 2) / 2) % 2 == 0);
    }
    assert forall|j: nat| j < 2 * n implies #[trigger] index_code(n, opt, index, j) < 32
        && index_code(n, opt, index, j) / 4 <= n && allowed_code(n, opt, index_code(n, opt, index, j)) by {
        let d = digit(index, a, j);
        assert(d < a);
    }
}

/// Digits and action codes correspond one to one.
proof fn lemma_code_of_digit(n: nat, opt: Opt, last: bool, d: nat)
    requires
        1 <= n <= MAX_STATES,
        d < actions_for(n, opt),
    ensures
        code_digit(n, opt, last, slot_code(n, opt, last, d)) == d,
{
}

/// Every action code the generator uses stands for a digit, which for the last
/// slot of a symmetry-reduced machine lies in the lower half.
proof fn lemma_digit_of_code(n: nat, opt: Opt, last: bool, c: nat)
    requires
        1 <= n <= MAX_STATES,
        c / 4 <= n,
        allowed_code(n, opt, c),
        last && !(opt is KeepAll) ==> !code_moves_right(c),
    ensures
        code_digit(n, opt, last, c) < actions_for(n, opt),
        slot_code(n, opt, last, code_digit(n, opt, last, c)) == c,
        last && !(opt is KeepAll) ==> 2 * (code_digit(n, opt, last, c) + 1) <= actions_for(n, opt),
{
}

/// Shifting out slots of a packed machine.
proof fn lemma_pack_drop(n: nat, opt: Opt, index: nat, i: nat, j: nat)
    requires
        i + j <= 2 * n,
        forall|t: nat| t < 2 * n ==> #[trigger] index_code(n, opt, index, t) < 32,
    ensures
        drop_slots(pack(n, opt, index, i), j) == pack(n, opt, index, i + j),
    decreases j,
{
    if j > 0 {
        assert(pack(n, opt, index, i) / 32 == pack(n, opt, index, i + 1));
        lemma_pack_drop(n, opt, index, i + 1, (j - 1) as nat);
    }
}

proof fn lemma_pack_bound(n: nat, opt: Opt, index: nat, i: nat)
    requires
        i <= 2 * n,
        forall|t: nat| t < 2 * n ==> #[trigger] index_code(n, opt, index, t) < 32,
    ensures
        pack(n, opt, index, i) < p32((2 * n - i) as nat),
    decreases 2 * n - i,
{
    if i < 2 * n {
        lemma_pack_bound(n, opt, index, i + 1);
    }
}

/// The machine at `index` is well formed, and its slots are the action codes.
pub proof fn lemma_encoding_valid(n: nat, opt: Opt, index: nat)
    requires
        1 <= n <= MAX_STATES,
        index < count_for(n, opt),
    ensures
        valid_encoding(n, encoding_at(n, opt, index)),
        canonical(n, opt, encoding_at(n, opt, index)),
        encoding_at(n, opt, index) < p32(2 * n),
        p32(2 * n) <= 1152921504606846976,
        forall|j: nat|
            j < 2 * n ==> #[trigger] slot(encoding_at(n, opt, index), j) == index_code(
                n,
                opt,
                index,
                j,
            ),
{
    lemma_codes_fit(n, opt, index);
    lemma_pack_drop(n, opt, index, 0, 2 * n);
    lemma_pack_bound(n, opt, index, 0);
    lemma_p32_max(2 * n);
    assert forall|j: nat| j < 2 * n implies #[trigger] slot(encoding_at(n, opt, index), j)
        == index_code(n, opt, index, j) by {
        lemma_pack_drop(n, opt, index, 0, j);
    }
    assert(slot(encoding_at(n, opt, index), (2 * n - 1) as nat) == index_code(
        n,
        opt,
        index,
        (2 * n - 1) as nat,
    ));
}

// ----- Counting up ----------------------------------------------------------
/// Adding one to `x` when its digits below `i` are all `a - 1`: those digits
/// become 0 and one is carried into digit `i`.
proof fn lemma_carry(x: nat, a: nat, i: nat)
    requires
        a > 0,
        forall|j: nat| j < i ==> #[trigger] digit(x, a, j) == a - 1,
    ensures
        quot(x + 1, a, i) == quot(x, a, i) + 1,
        forall|j: nat| j < i ==> #[trigger] digit(x + 1, a, j) == 0,
    decreases i,
{
    if i > 0 {
        let i1 = (i - 1) as nat;
        lemma_carry(x, a, i1);
        let q = quot(x, a, i1);
        assert(digit(x, a, i1) == a - 1);
        assert(q % a == a - 1);
        lemma_fundamental_div_mod(q as int, a as int);
        let m = q / a;
        let r = q % a;
        assert(q + 1 == (m + 1) * a) by (nonlinear_arith)
            requires
                q == a * m + r,
                r == a - 1,
        ;
        vstd::arithmetic::div_mod::lemma_fundamental_div_mod_converse(
            (q + 1) as int,
            a as int,
            (q / a + 1) as int,
            0,
        );
        assert forall|j: nat| j < i implies #[trigger] digit(x + 1, a, j) == 0 by {
            if j < i1 {
            }
        }
    }
}

/// Adding one at digit `i` without a carry leaves every higher quotient as
/// it was.
proof fn lemma_no_carry(x: nat, y: nat, a: nat, i: nat, j: nat)
    requires
        a > 0,
        quot(y, a, i) == quot(x, a, i) + 1,
        quot(x, a, i) % a < a - 1,
        i < j,
    ensures
        quot(y, a, j) == quot(x, a, j),
        digit(y, a, i) == digit(x, a, i) + 1,
    decreases j,
{
    let q = quot(x, a, i);
    lemma_fundamental_div_mod(q as int, a as int);
    let m = q / a;
    let r = q % a;
    assert(q + 1 == m * a + (r + 1)) by (nonlinear_arith)
        requires
            q == a * m + r,
    ;
    vstd::arithmetic::div_mod::lemma_fundamental_div_mod_converse(
        (q + 1) as int,
        a as int,
        (q / a) as int,
        (q % a + 1) as int,
    );
    if j > i + 1 {
        lemma_no_carry(x, y, a, i, (j - 1) as nat);
    }
}

/// Equal quotients from `i` upwards give equal packed slots from `i` upwards.
proof fn lemma_pack_same(n: nat, opt: Opt, x: nat, y: nat, i: nat)
    requires
        forall|j: nat| i <= j ==> #[trigger] quot(x, actions_for(n, opt), j) == quot(
            y,
            actions_for(n, opt),
            j,
        ),
    ensures
        pack(n, opt, x, i) == pack(n, opt, y, i),
    decreases 2 * n - i,
{
    if i < 2 * n {
        lemma_pack_same(n, opt, x, y, i + 1);
        assert(quot(x, actions_for(n, opt), i) == quot(y, actions_for(n, opt), i));
    }
}

/// Equal digits below `s` give equal numbers below `a^s`.
proof fn lemma_digits_determine(x: nat, y: nat, a: nat, s: nat, j: nat)
    requires
        a > 0,
        x < pow(a as int, s),
        y < pow(a as int, s),
        j <= s,
        forall|t: nat| t < s ==> #[trigger] digit(x, a, t) == digit(y, a, t),
    ensures
        quot(x, a, j) == quot(y, a, j),
    decreases s - j,
{
    if j == s {
        lemma_quot_div(x, a, s);
        lemma_quot_div(y, a, s);
        vstd::arithmetic::div_mod::lemma_basic_div(x as int, pow(a as int, s));
        vstd::arithmetic::div_mod::lemma_basic_div(y as int, pow(a as int, s));
    } else {
        lemma_digits_determine(x, y, a, s, j + 1);
        assert(quot(x, a, j + 1) == quot(x, a, j) / a);
        assert(quot(y, a, j + 1) == quot(y, a, j) / a);
        lemma_fundamental_div_mod(quot(x, a, j) as int, a as int);
        lemma_fundamental_div_mod(quot(y, a, j) as int, a as int);
        assert(digit(x, a, j) == digit(y, a, j));
    }
}

/// Generates the machines with `n` states, skipping those that `opt` names.
#[derive(Clone, Copy, Debug, PartialEq, Eq, Structural)]
pub struct Gen {
    pub n: u8,
    pub opt: Opt,
}

impl Gen {
    pub open spec fn wf(self) -> bool {
        1 <= self.n <= MAX_STATES
    }

    /// The number of machines this generator yields.
    pub open spec fn count(self) -> nat {
        count_for(self.n as nat, self.opt)
    }

    /// The machine at `index`.
    pub open spec fn tm_spec(self, index: nat) -> Tm {
        Tm { n: self.n, encoded: encoding_at(self.n as nat, self.opt, index) as u64 }
    }

    /// The machines with indices in `[start, end)`, in order.
    pub open spec fn range_spec(self, start: nat, end: nat) -> Seq<Tm> {
        Seq::new((end - start) as nat, |k: int| self.tm_spec((start + k) as nat))
    }

    /// A generator of `n`-state machines.
    pub fn new(n: u8, opt: Opt) -> (r: Gen)
        requires
            1 <= n <= MAX_STATES,
        ensures
            r.wf(),
            r.n == n,
            r.opt == opt,
    {
        Gen { n, opt }
    }

    /// A short description of the generator.
    pub fn description(&self) -> (r: &'static str) {
        match self.opt {
            Opt::KeepAll => "All TMs",
            Opt::SkipSymmetries => "All TMs but symmetric pairs deduplicated",
            Opt::AlsoSkipHaltZero => "All TMs without symmetry and without TMs with H_0 transitions",
        }
    }

    /// The number of actions a transition of a generated machine may take:
    /// `n + 1` next states (the halt state included), two values to write and
    /// two directions. Skipping halting zeros drops the two halting actions
    /// that write 0 (`Hl0` and `Hr0`).
    pub fn num_possible_actions(&self) -> (r: u64)
        requires
            self.wf(),
        ensures
            r == actions_for(self.n as nat, self.opt),
    {
        let out = (1 + self.n as u64) * 4;
        match self.opt {
            Opt::AlsoSkipHaltZero => out - 2,
            _ => out,
        }
    }

    /// The number of machines this generator yields: every slot independently
    /// takes any action, halved by symmetry reduction (the number of actions
    /// is even, so the last slot takes exactly half of them).
    pub fn num_tms(&self) -> (r: u64)
        requires
            self.wf(),
        ensures
            r == self.count(),
    {
        let a = self.num_possible_actions();
        let slots = 2 * self.n as u64;
        let mut out: u64 = 1;
        let mut i: u64 = 0;
        proof {
            vstd::arithmetic::power::lemma_pow0(a as int);
        }
        while i < slots
            invariant
                self.wf(),
                a == actions_for(self.n as nat, self.opt),
                slots == 2 * self.n,
                i <= slots,
                out == pow(a as int, i as nat),
            decreases slots - i,
        {
            proof {
                lemma_pow_le_p32(a as nat, (i + 1) as nat);
                lemma_p32_max((i + 1) as nat);
                lemma_pow_step(a as nat, i as nat);
            }
            out = out * a;
            i = i + 1;
        }
        proof {
            lemma_pow_le_p32(a as nat, slots as nat);
        }
        // Symmetry reduction halves the count.
        match self.opt {
            Opt::KeepAll => out,
            _ => out / 2,
        }
    }

    /// The machine at position `index` of this generator's fixed order (an
    /// index, not the machine's ID).
    pub fn tm_at(&self, index: u64) -> (r: Tm)
        requires
            self.wf(),
            index < self.count(),
        ensures
            r == self.tm_spec(index as nat),
            r.wf(),
            r.encoded == encoding_at(self.n as nat, self.opt, index as nat),
    {
        let ghost n = self.n as nat;
        let ghost opt = self.opt;
        let a = self.num_possible_actions();
        let slots = 2 * self.n as u64;
        proof {
            lemma_codes_fit(n, opt, index as nat);
            lemma_encoding_valid(n, opt, index as nat);
        }
        let mut out: u64 = 0;
        let mut place: u64 = 1;
        let mut rest = index;
        let mut i: u64 = 0;
        while i < slots
            invariant
                self.wf(),
                n == self.n,
                opt == self.opt,
                a == actions_for(n, opt),
                slots == 2 * n,
                i <= slots,
                place == p32(i as nat),
                p32(slots as nat) <= 1152921504606846976,
                rest == quot(index as nat, a as nat, i as nat),
                out < place,
                out + place * pack(n, opt, index as nat, i as nat) == encoding_at(n, opt, index as nat),
                forall|j: nat| j < 2 * n ==> #[trigger] index_code(n, opt, index as nat, j) < 32,
            decreases slots - i,
        {
            let d = rest % a;
            let code = self.digit_to_code(i + 1 == slots, d);
            proof {
                assert(code == index_code(n, opt, index as nat, i as nat));
                lemma_p32_mono((i + 1) as nat, slots as nat);
                let pk = pack(n, opt, index as nat, (i + 1) as nat);
                assert(out + place * (code + 32 * pk) == (out + code * place) + (32 * place) * pk)
                    by (nonlinear_arith);
                assert(out + code * place < 32 * place) by (nonlinear_arith)
                    requires
                        out < place,
                        code < 32,
                ;
            }
            out = out + code * place;
            rest = rest / a;
            place = place * 32;
            i = i + 1;
        }
        proof {
            lemma_encoding_valid(n, opt, index as nat);
            assert(pack(n, opt, index as nat, i as nat) == 0);
            assert(place * 0 == 0);
        }
        Tm::new_unchecked(self.n, out)
    }

    /// The action code for digit `d` of a slot.
    fn digit_to_code(&self, last: bool, d: u64) -> (c: u64)
        requires
            self.wf(),
            d < 64,
        ensures
            c == slot_code(self.n as nat, self.opt, last, d as nat),
    {
        let n = self.n as u64;
        if last && !matches!(self.opt, Opt::KeepAll) {
            // The last slot only moves left: insert a zero at the direction bit.
            4 * (d / 2) + d % 2
        } else if matches!(self.opt, Opt::AlsoSkipHaltZero) && d == 4 * n + 1 {
            4 * n + 2
        } else {
            d
        }
    }

    /// The digit that the action code `c` of a slot stands for.
    fn code_to_digit(&self, last: bool, c: u64) -> (d: u64)
        requires
            self.wf(),
            c < 32,
        ensures
            d == code_digit(self.n as nat, self.opt, last, c as nat),
    {
        let n = self.n as u64;
        if last && !matches!(self.opt, Opt::KeepAll) {
            2 * (c / 4) + c % 2
        } else if matches!(self.opt, Opt::AlsoSkipHaltZero) && c == 4 * n + 2 {
            4 * n + 1
        } else {
            c
        }
    }

    /// The encoding of the machine after the one at `index`, found by adding
    /// one to the lowest slot's digit and carrying.
    fn next_encoding(&self, current: u64, Ghost(index): Ghost<nat>) -> (r: u64)
        requires
            self.wf(),
            index + 1 < self.count(),
            current == encoding_at(self.n as nat, self.opt, index),
        ensures
            r == encoding_at(self.n as nat, self.opt, index + 1),
    {
        let ghost n = self.n as nat;
        let ghost opt = self.opt;
        let a = self.num_possible_actions();
        let slots = 2 * self.n as u64;
        proof {
            lemma_codes_fit(n, opt, index);
            lemma_codes_fit(n, opt, index + 1);
            lemma_encoding_valid(n, opt, index);
            lemma_carry(index, a as nat, 0);
            lemma_pow_step(a as nat, slots as nat);
        }
        let mut cur = current;
        let mut place: u64 = 1;
        let mut i: u64 = 0;
        loop
            invariant
                self.wf(),
                n == self.n,
                opt == self.opt,
                a == actions_for(n, opt),
                slots == 2 * n,
                i < slots,
                place == p32(i as nat),
                p32(slots as nat) <= 1152921504606846976,
                cur == place * pack(n, opt, index, i as nat),
                encoding_at(n, opt, index + 1) == place * pack(n, opt, index + 1, i as nat),
                quot(index + 1, a as nat, i as nat) == quot(index, a as nat, i as nat) + 1,
                pow(a as int, slots as nat) > 0,
                index + 1 < count_for(n, opt),
                forall|j: nat| j < i ==> #[trigger] digit(index, a as nat, j) == a - 1,
                forall|j: nat| j < 2 * n ==> #[trigger] index_code(n, opt, index, j) < 32,
                forall|j: nat| j < 2 * n ==> #[trigger] index_code(n, opt, index + 1, j) < 32,
            decreases slots - i,
        {
            let ghost pk = pack(n, opt, index, (i + 1) as nat);
            let ghost c0 = index_code(n, opt, index, i as nat);
            proof {
                lemma_p32_mono(0, i as nat);
                lemma_p32_mono((i + 1) as nat, slots as nat);
                lemma_pack_bound(n, opt, index, (i + 1) as nat);
                lemma_p32_add((i + 1) as nat, (slots - i - 1) as nat);
                assert(32 * p32(i as nat) * p32((slots - i - 1) as nat) == p32(slots as nat)) by (
                nonlinear_arith)
                    requires
                        p32((i + 1) as nat) == 32 * p32(i as nat),
                        p32(slots as nat) == p32((i + 1) as nat) * p32((slots - i - 1) as nat),
                ;
                assert(cur == c0 * place + pk * (32 * place)) by (nonlinear_arith)
                    requires
                        cur == place * (c0 + 32 * pk),
                ;
                assert(cur / place == c0 + 32 * pk) by (nonlinear_arith)
                    requires
                        cur == c0 * place + pk * (32 * place),
                        place > 0,
                ;
                assert(32 * place * (pk + 1) <= 1152921504606846976) by (nonlinear_arith)
                    requires
                        place == p32(i as nat),
                        pk < p32((slots - i - 1) as nat),
                        32 * p32(i as nat) * p32((slots - i - 1) as nat) <= 1152921504606846976,
                ;
            }
            let c = (cur / place) % 32;
            assert(c == c0);
            let last = i + 1 == slots;
            let d = self.code_to_digit(last, c);
            let ghost q = quot(index, a as nat, i as nat);
            proof {
                lemma_code_of_digit(n, opt, last, digit(index, a as nat, i as nat));
                assert(d == digit(index, a as nat, i as nat));
                if last && !(opt is KeepAll) {
                    lemma_top_digit(index + 1, a as nat, slots as nat, true);
                    vstd::arithmetic::div_mod::lemma_small_mod(q, a as nat);
                }
                if last && opt is KeepAll {
                    lemma_top_digit(index + 1, a as nat, slots as nat, false);
                    vstd::arithmetic::div_mod::lemma_small_mod(q, a as nat);
                }
            }
            if d + 1 == a {
                // This digit overflows: clear it and carry into the next.
                proof {
                    assert(!last);
                    lemma_carry(index, a as nat, (i + 1) as nat);
                    let pk1 = pack(n, opt, index + 1, (i + 1) as nat);
                    assert(index_code(n, opt, index + 1, i as nat) == 0);
                    assert(cur - c * place == (32 * place) * pk) by (nonlinear_arith)
                        requires
                            cur == c0 * place + pk * (32 * place),
                            c == c0,
                    ;
                    assert(place * (0 + 32 * pk1) == (32 * place) * pk1) by (nonlinear_arith);
                }
                cur = cur - c * place;
                place = place * 32;
                i = i + 1;
            } else {
                proof {
                    lemma_no_carry(index, index + 1, a as nat, i as nat, (i + 1) as nat);
                    assert forall|j: nat| i + 1 <= j implies #[trigger] quot(index + 1, a as nat, j)
                        == quot(index, a as nat, j) by {
                        if j > i + 1 {
                            lemma_no_carry(index, index + 1, a as nat, i as nat, j);
                        }
                    }
                    lemma_pack_same(n, opt, index + 1, index, (i + 1) as nat);
                }
                let c1 = self.digit_to_code(last, d + 1);
                proof {
                    assert(c1 == index_code(n, opt, index + 1, i as nat));
                    assert(c1 < 32);
                    assert(cur - c * place + c1 * place == place * (c1 + 32 * pk)) by (
                    nonlinear_arith)
                        requires
                            cur == c0 * place + pk * (32 * place),
                            c == c0,
                    ;
                    assert(place * (c1 + 32 * pk) <= 32 * place * (pk + 1)) by (nonlinear_arith)
                        requires
                            c1 < 32,
                    ;
                }
                cur = cur - c * place + c1 * place;
                return cur;
            }
        }
    }

    /// A walk over the machines at the indices in `[start, end)`.
    pub fn walk(&self, start: u64, end: u64) -> (r: TmWalk)
        requires
            self.wf(),
            start <= end <= self.count(),
        ensures
            r.wf(),
            r.generator() == *self,
            r.position() == start,
            r.stop() == end,
    {
        let current = if start < end {
            self.tm_at(start).encoded
        } else {
            0
        };
        TmWalk { gen: *self, index: start, end, current }
    }

    /// The machines at the indices in `[start, end)`, in order. The first is
    /// decoded from its index; each further one is the previous counted up by
    /// one.
    pub fn for_range(&self, start: u64, end: u64) -> (r: Vec<Tm>)
        requires
            self.wf(),
            start <= end <= self.count(),
        ensures
            r@ == self.range_spec(start as nat, end as nat),
            forall|k: int| 0 <= k < r@.len() ==> (#[trigger] r@[k]).wf(),
    {
        let mut out: Vec<Tm> = Vec::new();
        if start == end {
            assert(out@ =~= self.range_spec(start as nat, end as nat));
            return out;
        }
        let mut current = self.tm_at(start).encoded;
        let mut index = start;
        loop
            invariant
                self.wf(),
                start <= index < end <= self.count(),
                current == encoding_at(self.n as nat, self.opt, index as nat),
                out@ == self.range_spec(start as nat, index as nat),
                forall|k: int| 0 <= k < out@.len() ==> (#[trigger] out@[k]).wf(),
            decreases end - index,
        {
            proof {
                lemma_encoding_valid(self.n as nat, self.opt, index as nat);
            }
            out.push(Tm::new_unchecked(self.n, current));
            assert(out@ =~= self.range_spec(start as nat, (index + 1) as nat));
            if index + 1 == end {
                return out;
            }
            current = self.next_encoding(current, Ghost(index as nat));
            index = index + 1;
        }
    }
}

/// A walk over the machines at the indices in `[start, end)` of a generator,
/// one machine at a time: the first is decoded from its index, each further
/// one is the previous counted up by one. Nothing is collected.
pub struct TmWalk {
    gen: Gen,
    index: u64,
    end: u64,
    /// The encoding of the machine at `index`, when `index < end`.
    current: u64,
}

impl TmWalk {
    /// The generator walked over.
    pub closed spec fn generator(&self) -> Gen {
        self.gen
    }

    /// The index of the machine `next` yields.
    pub closed spec fn position(&self) -> nat {
        self.index as nat
    }

    /// The index where the walk ends.
    pub closed spec fn stop(&self) -> nat {
        self.end as nat
    }

    pub closed spec fn wf(&self) -> bool {
        &&& self.gen.wf()
        &&& self.index <= self.end <= self.gen.count()
        &&& self.index < self.end ==> self.current == encoding_at(
            self.gen.n as nat,
            self.gen.opt,
            self.index as nat,
        )
    }

    /// The machine at the walk's position, if the walk has not ended; the
    /// position then moves on by one.
    pub fn next(&mut self) -> (r: Option<Tm>)
        requires
            old(self).wf(),
        ensures
            final(self).wf(),
            final(self).generator() == old(self).generator(),
            final(self).stop() == old(self).stop(),
            old(self).position() < old(self).stop() ==> r == Some(
                old(self).generator().tm_spec(old(self).position()),
            ) && final(self).position() == old(self).position() + 1,
            old(self).position() < old(self).stop() ==> r.unwrap().wf(),
            old(self).position() == old(self).stop() ==> r is None && final(self).position()
                == old(self).position(),
    {
        if self.index >= self.end {
            return None;
        }
        proof {
            lemma_encoding_valid(self.gen.n as nat, self.gen.opt, self.index as nat);
        }
        let tm = Tm::new_unchecked(self.gen.n, self.current);
        if self.index + 1 < self.end {
            self.current = self.gen.next_encoding(self.current, Ghost(self.index as nat));
        }
        self.index = self.index + 1;
        Some(tm)
    }
}

/// Where a range starting at `start` and ending before `end` stops when only
/// `count` indices exist.
pub open spec fn range_stop(start: nat, end: nat, count: nat) -> nat {
    if end < start {
        start
    } else if end > count {
        count
    } else {
        end
    }
}

/// Something that generates `n`-state machines in a fixed order.
pub trait TmGenerator {
    /// The generator is usable.
    spec fn gen_wf(&self) -> bool;

    /// The number of machines it yields.
    spec fn tm_count(&self) -> nat;

    /// The machine at an index of its order.
    spec fn machine(&self, index: nat) -> Tm;

    /// The number of actions a transition of a generated machine may take.
    spec fn actions(&self) -> nat;

    /// A short description of the generator.
    fn description(&self) -> &'static str;

    /// The number of machines this generator yields in total.
    fn num_tms(&self) -> (r: u64)
        requires
            self.gen_wf(),
        ensures
            r == self.tm_count(),
    ;

    /// The number of different actions a transition of a generated machine
    /// can take.
    fn num_possible_actions(&self) -> (r: u64)
        requires
            self.gen_wf(),
        ensures
            r == self.actions(),
    ;

    /// The machine at an index between 0 and `num_tms()`: an index in the
    /// generator's order, not the machine's ID.
    fn tm_at(&self, index: u64) -> (r: Tm)
        requires
            self.gen_wf(),
            index < self.tm_count(),
        ensures
            r == self.machine(index as nat),
            r.wf(),
    ;

    /// The machines at the indices in `[start, end)`, in order. The range
    /// stops at the last machine: indices from `num_tms()` on yield nothing.
    fn for_range(&self, start: u64, end: u64) -> (r: Vec<Tm>)
        requires
            self.gen_wf(),
            start <= self.tm_count(),
        ensures
            r@.len() == range_stop(start as nat, end as nat, self.tm_count()) - start,
            forall|k: int|
                0 <= k < r@.len() ==> #[trigger] r@[k] == self.machine((start + k) as nat)
                    && r@[k].wf(),
    ;

    /// All machines this generator yields, in order.
    fn for_all(&self) -> (r: Vec<Tm>)
        requires
            self.gen_wf(),
        ensures
            r@.len() == self.tm_count(),
            forall|k: int|
                0 <= k < r@.len() ==> #[trigger] r@[k] == self.machine(k as nat) && r@[k].wf(),
    {
        let total = self.num_tms();
        self.for_range(0, total)
    }
}

impl TmGenerator for Gen {
    open spec fn gen_wf(&self) -> bool {
        self.wf()
    }

    open spec fn tm_count(&self) -> nat {
        self.count()
    }

    open spec fn machine(&self, index: nat) -> Tm {
        self.tm_spec(index)
    }

    open spec fn actions(&self) -> nat {
        actions_for(self.n as nat, self.opt)
    }

    fn description(&self) -> &'static str {
        Gen::description(self)
    }

    fn num_tms(&self) -> (r: u64) {
        Gen::num_tms(self)
    }

    fn num_possible_actions(&self) -> (r: u64) {
        Gen::num_possible_actions(self)
    }

    fn tm_at(&self, index: u64) -> (r: Tm) {
        Gen::tm_at(self, index)
    }

    fn for_range(&self, start: u64, end: u64) -> (r: Vec<Tm>) {
        let total = Gen::num_tms(self);
        let stop = if end < start {
            start
        } else if end > total {
            total
        } else {
            end
        };
        Gen::for_range(self, start, stop)
    }
}

/// The generator that yields every machine with `n` states, skipping none.
#[derive(Clone, Copy, Debug, PartialEq, Eq, Structural)]
pub struct All {
    pub n: u8,
}

impl All {
    /// The generator of the same machines, in the same order.
    pub open spec fn as_gen(self) -> Gen {
        Gen { n: self.n, opt: Opt::KeepAll }
    }

    fn gen(&self) -> (r: Gen)
        ensures
            r == self.as_gen(),
    {
        Gen { n: self.n, opt: Opt::KeepAll }
    }
}

impl TmGenerator for All {
    open spec fn gen_wf(&self) -> bool {
        1 <= self.n <= MAX_STATES
    }

    open spec fn tm_count(&self) -> nat {
        self.as_gen().count()
    }

    open spec fn machine(&self, index: nat) -> Tm {
        self.as_gen().tm_spec(index)
    }

    open spec fn actions(&self) -> nat {
        actions_for(self.n as nat, Opt::KeepAll)
    }

    fn description(&self) -> &'static str {
        self.gen().description()
    }

    fn num_tms(&self) -> (r: u64) {
        self.gen().num_tms()
    }

    fn num_possible_actions(&self) -> (r: u64) {
        self.gen().num_possible_actions()
    }

    fn tm_at(&self, index: u64) -> (r: Tm) {
        self.gen().tm_at(index)
    }

    fn for_range(&self, start: u64, end: u64) -> (r: Vec<Tm>) {
        TmGenerator::for_range(&self.gen(), start, end)
    }
}

/// The number of machines with `n` states whose halting transitions all
/// move left: `((n * 4 + 2)^2)^n`. For `n` from 1 to 5 that is 36, 10_000,
/// 7_529_536, 11_019_960_576 and 26_559_922_791_424.
pub fn num_machines(n: u64) -> (r: u64)
    requires
        n <= MAX_STATES,
    ensures
        r == pow(4 * n + 2, 2 * n as nat),
{
    let base = n * 4 + 2;
    let mut out: u64 = 1;
    let mut i: u64 = 0;
    proof {
        vstd::arithmetic::power::lemma_pow0(base as int);
    }
    while i < 2 * n
        invariant
            n <= MAX_STATES,
            base == 4 * n + 2,
            i <= 2 * n,
            out == pow(base as int, i as nat),
        decreases 2 * n - i,
    {
        proof {
            lemma_pow_le_p32(base as nat, (i + 1) as nat);
            lemma_p32_max((i + 1) as nat);
            lemma_pow_step(base as nat, i as nat);
        }
        out = out * base;
        i = i + 1;
    }
    out
}

// ----- Laws -----------------------------------------------------------------
/// Two indices in range give the same machine only if they are equal: an
/// enumeration holds no machine twice.
pub proof fn lemma_tm_at_injective(g: Gen, i: nat, j: nat)
    requires
        g.wf(),
        i < g.count(),
        j < g.count(),
        encoding_at(g.n as nat, g.opt, i) == encoding_at(g.n as nat, g.opt, j),
    ensures
        i == j,
{
    let n = g.n as nat;
    let opt = g.opt;
    let a = actions_for(n, opt);
    let s = 2 * n;
    lemma_encoding_valid(n, opt, i);
    lemma_encoding_valid(n, opt, j);
    lemma_pow_step(a, s);
    assert forall|t: nat| t < s implies #[trigger] digit(i, a, t) == digit(j, a, t) by {
        assert(slot(encoding_at(n, opt, i), t) == slot(encoding_at(n, opt, j), t));
        let di = digit(i, a, t);
        let dj = digit(j, a, t);
        assert(slot_code(n, opt, t + 1 == s, di) == slot_code(n, opt, t + 1 == s, dj));
        lemma_code_of_digit(n, opt, t + 1 == s, di);
        lemma_code_of_digit(n, opt, t + 1 == s, dj);
    }
    lemma_digits_determine(i, j, a, s, 0);
}

/// Equal slots and no bits above them make equal words.
proof fn lemma_slots_determine(x: nat, y: nat, k: nat)
    requires
        drop_slots(x, k) == 0,
        drop_slots(y, k) == 0,
        forall|j: nat| j < k ==> #[trigger] slot(x, j) == slot(y, j),
    ensures
        x == y,
    decreases k,
{
    if k == 0 {
    } else {
        assert forall|j: nat| j < (k - 1) as nat implies #[trigger] slot(x / 32, j) == slot(y / 32, j) by {
            assert(slot(x, j + 1) == slot(y, j + 1));
            assert(drop_slots(x, j + 1) == drop_slots(x / 32, j));
            assert(drop_slots(y, j + 1) == drop_slots(y / 32, j));
        }
        lemma_slots_determine(x / 32, y / 32, (k - 1) as nat);
        assert(slot(x, 0) == slot(y, 0));
    }
}

/// The quotients of an unpacked machine are its higher digits.
proof fn lemma_unpack_quot(n: nat, opt: Opt, e: nat, j: nat)
    requires
        1 <= n,
        j <= 2 * n,
        forall|t: nat|
            t < 2 * n ==> code_digit(n, opt, t + 1 == 2 * n, #[trigger] slot(e, t)) < actions_for(n, opt),
    ensures
        quot(unpack(n, opt, e, 0), actions_for(n, opt), j) == unpack(n, opt, e, j),
    decreases j,
{
    if j > 0 {
        let j1 = (j - 1) as nat;
        let a = actions_for(n, opt);
        lemma_unpack_quot(n, opt, e, j1);
        let d = code_digit(n, opt, j1 + 1 == 2 * n, slot(e, j1));
        let u = unpack(n, opt, e, j);
        assert(unpack(n, opt, e, j1) == d + a * u);
        assert(d + a * u == u * a + d) by (nonlinear_arith);
        vstd::arithmetic::div_mod::lemma_fundamental_div_mod_converse(
            unpack(n, opt, e, j1) as int,
            a as int,
            u as int,
            d as int,
        );
    }
}

/// An unpacked machine whose last digit is `top` stays below
/// `(top + 1) * a^(2n - 1 - i)`.
proof fn lemma_unpack_bound(n: nat, opt: Opt, e: nat, i: nat, top: nat)
    requires
        1 <= n,
        i < 2 * n,
        forall|t: nat|
            t < 2 * n ==> code_digit(n, opt, t + 1 == 2 * n, #[trigger] slot(e, t)) < actions_for(n, opt),
        code_digit(n, opt, true, slot(e, (2 * n - 1) as nat)) == top,
        top < actions_for(n, opt),
    ensures
        unpack(n, opt, e, i) + 1 <= (top + 1) * pow(actions_for(n, opt) as int, (2 * n - 1 - i) as nat),
    decreases 2 * n - i,
{
    let a = actions_for(n, opt);
    let k = (2 * n - 1 - i) as nat;
    if i + 1 == 2 * n {
        assert(unpack(n, opt, e, i + 1) == 0);
        assert(a * 0 == 0);
        assert(unpack(n, opt, e, i) == top);
        vstd::arithmetic::power::lemma_pow0(a as int);
        assert(k == 0);
        assert((top + 1) * 1 == top + 1);
    } else {
        lemma_unpack_bound(n, opt, e, i + 1, top);
        let d = code_digit(n, opt, false, slot(e, i));
        assert(code_digit(n, opt, i + 1 == 2 * n, slot(e, i)) < a);
        assert(d < a);
        let u = unpack(n, opt, e, i + 1);
        assert(unpack(n, opt, e, i) == d + a * u);
        let p = pow(a as int, (k - 1) as nat);
        assert((2 * n - 1 - (i + 1)) as nat == (k - 1) as nat);
        lemma_pow_step(a, (k - 1) as nat);
        assert(pow(a as int, k) == a * p);
        assert(d + a * u + 1 <= (top + 1) * (a * p)) by (nonlinear_arith)
            requires
                d < a,
                u + 1 <= (top + 1) * p,
        ;
    }
}

/// Every machine the generator picks is enumerated, at the index its digits
/// spell. Without symmetry reduction that is every well-formed machine.
pub proof fn lemma_enumeration_complete(g: Gen, e: nat)
    requires
        g.wf(),
        canonical(g.n as nat, g.opt, e),
    ensures
        exists|i: nat| i < g.count() && #[trigger] encoding_at(g.n as nat, g.opt, i) == e,
{
    let n = g.n as nat;
    let opt = g.opt;
    let last = (2 * n - 1) as nat;
    let a = actions_for(n, opt);
    assert forall|t: nat| t < 2 * n implies code_digit(n, opt, t + 1 == 2 * n, #[trigger] slot(e, t))
        < a && slot_code(n, opt, t + 1 == 2 * n, code_digit(n, opt, t + 1 == 2 * n, slot(e, t))) == slot(
        e,
        t,
    ) by {
        assert(allowed_code(n, opt, slot(e, t)));
        assert(slot(e, t) / 4 <= n);
        lemma_digit_of_code(n, opt, t + 1 == 2 * n, slot(e, t));
    }
    let u = unpack(n, opt, e, 0);
    let top = code_digit(n, opt, true, slot(e, last));
    lemma_digit_of_code(n, opt, true, slot(e, last));
    lemma_unpack_bound(n, opt, e, 0, top);
    let p = pow(a as int, last);
    lemma_pow_step(a, last);
    if opt is KeepAll {
        assert(u + 1 <= a * p) by (nonlinear_arith)
            requires
                u + 1 <= (top + 1) * p,
                top < a,
                p > 0,
        ;
    } else {
        assert(2 * u + 2 <= a * p) by (nonlinear_arith)
            requires
                u + 1 <= (top + 1) * p,
                2 * (top + 1) <= a,
                p > 0,
        ;
    }
    assert(u < g.count());
    lemma_encoding_valid(n, opt, u);
    assert forall|j: nat| j < 2 * n implies #[trigger] slot(encoding_at(n, opt, u), j) == slot(e, j) by {
        lemma_unpack_quot(n, opt, e, j);
        lemma_unpack_quot(n, opt, e, j + 1);
        let d = code_digit(n, opt, j + 1 == 2 * n, slot(e, j));
        let w = unpack(n, opt, e, j + 1);
        assert(unpack(n, opt, e, j) == d + a * w);
        assert(d + a * w == w * a + d) by (nonlinear_arith);
        vstd::arithmetic::div_mod::lemma_fundamental_div_mod_converse(
            unpack(n, opt, e, j) as int,
            a as int,
            w as int,
            d as int,
        );
        assert(digit(u, a, j) == d);
    }
    lemma_slots_determine(encoding_at(n, opt, u), e, 2 * n);
    assert(encoding_at(n, opt, u) == e);
}

/// Without symmetry reduction every well-formed machine is enumerated (and,
/// by `lemma_tm_at_injective`, exactly once).
pub proof fn lemma_every_machine_enumerated(g: Gen, e: nat)
    requires
        g.wf(),
        g.opt is KeepAll,
        valid_encoding(g.n as nat, e),
    ensures
        exists|i: nat| i < g.count() && #[trigger] encoding_at(g.n as nat, g.opt, i) == e,
{
    lemma_enumeration_complete(g, e);
}

/// With symmetry reduction, of each machine the generator uses and its mirror
/// image, exactly one is enumerated.
pub proof fn lemma_one_of_each_mirror_pair(g: Gen, x: nat, y: nat)
    requires
        g.wf(),
        !(g.opt is KeepAll),
        in_space(g.n as nat, g.opt, x),
        in_space(g.n as nat, g.opt, y),
        is_mirror(g.n as nat, x, y),
    ensures
        (exists|i: nat| i < g.count() && #[trigger] encoding_at(g.n as nat, g.opt, i) == x) != (exists|
            i: nat,
        |
            i < g.count() && #[trigger] encoding_at(g.n as nat, g.opt, i) == y),
{
    let n = g.n as nat;
    let opt = g.opt;
    let last = (2 * n - 1) as nat;
    assert(slot(y, last) == flip_direction(slot(x, last)));
    // Exactly one of the two moves left in its last transition.
    let e = if code_moves_right(slot(x, last)) {
        y
    } else {
        x
    };
    let other = if code_moves_right(slot(x, last)) {
        x
    } else {
        y
    };
    assert(!code_moves_right(slot(e, last)));
    assert(code_moves_right(slot(other, last)));
    // The other one is not generated: every generated machine moves left last.
    assert forall|i: nat| i < g.count() implies #[trigger] encoding_at(n, opt, i) != other by {
        lemma_codes_fit(n, opt, i);
        lemma_encoding_valid(n, opt, i);
    }
    lemma_enumeration_complete(g, e);
}

/// Enumerating `[a, b)` and then `[b, c)` yields the same machines as
/// enumerating `[a, c)`.
pub proof fn lemma_range_concat(g: Gen, a: nat, b: nat, c: nat)
    requires
        a <= b <= c,
    ensures
        g.range_spec(a, b) + g.range_spec(b, c) == g.range_spec(a, c),
{
    assert(g.range_spec(a, b) + g.range_spec(b, c) =~= g.range_spec(a, c));
}

/// Every index of the enumeration yields its machine exactly once when the
/// whole range is enumerated.
pub proof fn lemma_round_trip(g: Gen, index: nat)
    requires
        g.wf(),
        index < g.count(),
    ensures
        g.range_spec(0, g.count())[index as int] == g.tm_spec(index),
        forall|k: int|
            0 <= k < g.count() && #[trigger] g.range_spec(0, g.count())[k] == g.tm_spec(index)
                ==> k == index,
{
    let n = g.n as nat;
    lemma_encoding_valid(n, g.opt, index);
    assert forall|k: int|
        0 <= k < g.count() && #[trigger] g.range_spec(0, g.count())[k] == g.tm_spec(
            index,
        ) implies k == index by {
        lemma_encoding_valid(n, g.opt, k as nat);
        assert(g.tm_spec(k as nat) == g.tm_spec(index));
        lemma_tm_at_injective(g, k as nat, index);
    }
}

} // verus!
