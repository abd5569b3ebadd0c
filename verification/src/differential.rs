//! The pieces of the differential test against the reference writer that decide and compute:
//! the values written for random signals, and the ordering of the value changes read back.

use vstd::prelude::*;
use vstd::arithmetic::power2::pow2;
use vstd::bits::lemma_u64_shr_is_div;

verus! {

/// A signal type both writers can describe.
#[derive(Clone, Copy, Debug, PartialEq, Eq, Structural)]
pub enum VarType {
    /// `bits + 1` wide, so never zero
    BitVec(u8),
    Real,
}

/// The four state characters, by their two bit code: `0`, `1`, `x`, `z`.
pub open spec fn alphabet(code: nat) -> u8 {
    seq![0x30u8, 0x31u8, 0x78u8, 0x7au8][code as int]
}

/// The eight little endian bytes of `bits`.
pub open spec fn le64(bits: u64) -> Seq<u8> {
    Seq::new(8, |k: int| ((bits as nat / pow2((8 * k) as nat)) % 256) as u8)
}

/// The value written for one signal, in the layout both writers expect: four state characters
/// for bit vectors, two bits of `bits` per character (wrapping around after 32 characters) when
/// `four_state`, else binary characters, one bit per character (wrapping around after 64); the
/// raw little endian bytes for reals, whose bit pattern is `bits`.
pub open spec fn spec_value_for(tpe: VarType, bits: u64, four_state: bool) -> Seq<u8> {
    match tpe {
        VarType::Real => le64(bits),
        VarType::BitVec(width) => Seq::new(
            width as nat + 1,
            |i: int|
                if four_state {
                    alphabet((bits as nat / pow2(((i * 2) % 64) as nat)) % 4)
                } else {
                    (0x30 + (bits as nat / pow2((i % 64) as nat)) % 2) as u8
                },
        ),
    }
}

/// The value written for one signal of type `tpe`, made from the random `bits`.
pub fn value_for(tpe: VarType, bits: u64, four_state: bool) -> (value: Vec<u8>)
    ensures
        value@ == spec_value_for(tpe, bits, four_state),
{
    let mut out: Vec<u8> = Vec::new();
    match tpe {
        VarType::Real => {
            // the bytes of `f64::from_bits(bits)`, which keeps every bit
            let mut k: u64 = 0;
            while k < 8
                invariant
                    k <= 8,
                    out@ == le64(bits).take(k as int),
                decreases 8 - k,
            {
                proof {
                    lemma_u64_shr_is_div(bits, (8 * k) as u64);
                }
                let byte = ((bits >> (8 * k)) % 256) as u8;
                out.push(byte);
                assert(out@ =~= le64(bits).take(k + 1));
                k = k + 1;
            }
            assert(out@ =~= le64(bits));
        },
        VarType::BitVec(width) => {
            let n: u32 = width as u32 + 1;
            let ghost target = spec_value_for(tpe, bits, four_state);
            let mut i: u32 = 0;
            while i < n
                invariant
                    i <= n,
                    n == width as u32 + 1,
                    target == spec_value_for(tpe, bits, four_state),
                    tpe == VarType::BitVec(width),
                    out@ == target.take(i as int),
                decreases n - i,
            {
                let c: u8 = if four_state {
                    let shift = ((i * 2) % 64) as u64;
                    proof {
                        lemma_u64_shr_is_div(bits, shift);
                    }
                    let code = (bits >> shift) % 4;
                    if code == 0 {
                        0x30
                    } else if code == 1 {
                        0x31
                    } else if code == 2 {
                        0x78
                    } else {
                        0x7a
                    }
                } else {
                    let shift = (i % 64) as u64;
                    proof {
                        lemma_u64_shr_is_div(bits, shift);
                    }
                    0x30 + ((bits >> shift) % 2) as u8
                };
                out.push(c);
                assert(out@ =~= target.take(i + 1));
                i = i + 1;
            }
            assert(out@ =~= target);
        },
    }
    out
}

/// One value change as read back: the time, the signal and the value.
pub type Change = (u64, usize, Vec<u8>);

/// Whether `a` comes strictly before `b` in lexicographic order.
pub open spec fn bytes_lt(a: Seq<u8>, b: Seq<u8>) -> bool
    decreases a.len(),
{
    if a.len() == 0 {
        b.len() > 0
    } else if b.len() == 0 {
        false
    } else if a[0] != b[0] {
        a[0] < b[0]
    } else {
        bytes_lt(a.drop_first(), b.drop_first())
    }
}

/// The order of value changes: by time, then by signal, then by value.
pub open spec fn change_le(a: Change, b: Change) -> bool {
    ||| a.0 < b.0
    ||| a.0 == b.0 && a.1 < b.1
    ||| a.0 == b.0 && a.1 == b.1 && !bytes_lt(b.2@, a.2@)
}

/// Whether the value changes are in order.
pub open spec fn changes_sorted(s: Seq<Change>) -> bool {
    forall|i: int, j: int| 0 <= i < j < s.len() ==> change_le(#[trigger] s[i], #[trigger] s[j])
}

proof fn lemma_bytes_lt_irreflexive(a: Seq<u8>)
    ensures
        !bytes_lt(a, a),
    decreases a.len(),
{
    if a.len() > 0 {
        lemma_bytes_lt_irreflexive(a.drop_first());
    }
}

proof fn lemma_bytes_lt_asymmetric(a: Seq<u8>, b: Seq<u8>)
    ensures
        bytes_lt(a, b) ==> !bytes_lt(b, a),
    decreases a.len(),
{
    if a.len() > 0 && b.len() > 0 && a[0] == b[0] {
        lemma_bytes_lt_asymmetric(a.drop_first(), b.drop_first());
    }
}

proof fn lemma_bytes_lt_transitive(a: Seq<u8>, b: Seq<u8>, c: Seq<u8>)
    ensures
        bytes_lt(a, b) && bytes_lt(b, c) ==> bytes_lt(a, c),
    decreases a.len(),
{
    if a.len() > 0 && b.len() > 0 && c.len() > 0 {
        lemma_bytes_lt_transitive(a.drop_first(), b.drop_first(), c.drop_first());
    }
}

proof fn lemma_bytes_lt_total(a: Seq<u8>, b: Seq<u8>)
    ensures
        a != b ==> bytes_lt(a, b) || bytes_lt(b, a),
    decreases a.len(),
{
    if a.len() > 0 && b.len() > 0 && a[0] == b[0] {
        lemma_bytes_lt_total(a.drop_first(), b.drop_first());
        if a.drop_first() == b.drop_first() {
            assert(a =~= seq![a[0]] + a.drop_first());
            assert(b =~= seq![b[0]] + b.drop_first());
        }
    } else if a.len() == 0 && b.len() == 0 {
        assert(a =~= b);
    }
}

/// The order of value changes is total and transitive.
proof fn lemma_change_order(a: Change, b: Change, c: Change)
    ensures
        change_le(a, b) || change_le(b, a),
        change_le(a, b) && change_le(b, c) ==> change_le(a, c),
        !change_le(a, b) ==> change_le(b, a),
{
    lemma_bytes_lt_asymmetric(a.2@, b.2@);
    lemma_bytes_lt_asymmetric(b.2@, c.2@);
    lemma_bytes_lt_transitive(c.2@, b.2@, a.2@);
    lemma_bytes_lt_transitive(c.2@, a.2@, b.2@);
    lemma_bytes_lt_transitive(b.2@, c.2@, a.2@);
    lemma_bytes_lt_transitive(a.2@, c.2@, b.2@);
    lemma_bytes_lt_transitive(b.2@, a.2@, c.2@);
    lemma_bytes_lt_transitive(a.2@, b.2@, c.2@);
    lemma_bytes_lt_total(a.2@, b.2@);
    lemma_bytes_lt_total(b.2@, c.2@);
    lemma_bytes_lt_total(a.2@, c.2@);
    lemma_bytes_lt_irreflexive(a.2@);
    lemma_bytes_lt_irreflexive(b.2@);
    if a.2@ == c.2@ {
        lemma_bytes_lt_asymmetric(a.2@, b.2@);
    }
}

/// Whether `a` comes strictly before `b` in lexicographic order.
pub fn bytes_less(a: &Vec<u8>, b: &Vec<u8>) -> (lt: bool)
    ensures
        lt == bytes_lt(a@, b@),
{
    let mut i: usize = 0;
    assert(a@.skip(0) =~= a@);
    assert(b@.skip(0) =~= b@);
    while i < a.len() && i < b.len()
        invariant
            i <= a@.len(),
            i <= b@.len(),
            bytes_lt(a@, b@) == bytes_lt(a@.skip(i as int), b@.skip(i as int)),
        decreases a.len() - i,
    {
        if a[i] != b[i] {
            return a[i] < b[i];
        }
        assert(a@.skip(i as int).drop_first() =~= a@.skip(i + 1));
        assert(b@.skip(i as int).drop_first() =~= b@.skip(i + 1));
        i = i + 1;
    }
    i == a.len() && i < b.len()
}

/// Whether value change `a` may come before `b`.
pub fn change_less_eq(a: &Change, b: &Change) -> (le: bool)
    ensures
        le == change_le(*a, *b),
{
    if a.0 != b.0 {
        a.0 < b.0
    } else if a.1 != b.1 {
        a.1 < b.1
    } else {
        !bytes_less(&b.2, &a.2)
    }
}

/// Puts the value changes in order: by time, then by signal, then by value.
pub fn sort_changes(changes: &mut Vec<Change>)
    ensures
        changes_sorted(final(changes)@),
        final(changes)@.to_multiset() == old(changes)@.to_multiset(),
        forall|i: int, j: int|
            0 <= i < j < final(changes)@.len() ==> (#[trigger] final(changes)@[i]).0
                <= (#[trigger] final(changes)@[j]).0,
        forall|i: int, j: int|
            0 <= i < j < final(changes)@.len() && (#[trigger] final(changes)@[i]).0
                == (#[trigger] final(changes)@[j]).0 ==> final(changes)@[i].1
                <= final(changes)@[j].1,
{
    broadcast use vstd::seq_lib::to_multiset_build, vstd::seq_lib::to_multiset_insert;
    broadcast use vstd::seq_lib::to_multiset_len, vstd::multiset::lemma_multiset_empty_len;
    broadcast use vstd::multiset::group_multiset_axioms;

    let mut out: Vec<Change> = Vec::new();
    let ghost original = changes@;
    assert(out@.to_multiset().len() == 0);
    assert(changes@.to_multiset().add(out@.to_multiset()) =~= original.to_multiset());
    while changes.len() > 0
        invariant
            changes_sorted(out@),
            changes@.to_multiset().add(out@.to_multiset()) == original.to_multiset(),
        decreases changes.len(),
    {
        let ghost before = changes@;
        let e = changes.pop().unwrap();
        assert(before =~= changes@.push(e));
        let mut j = out.len();
        while j > 0 && !change_less_eq(&out[j - 1], &e)
            invariant
                j <= out@.len(),
                forall|k: int| j <= k < out@.len() ==> !change_le(#[trigger] out@[k], e),
            decreases j,
        {
            j = j - 1;
        }
        let ghost old_out = out@;
        proof {
            assert forall|k: int| 0 <= k < j implies change_le(#[trigger] old_out[k], e) by {
                lemma_change_order(old_out[k], old_out[j - 1], e);
            }
            assert forall|k: int| j <= k < old_out.len() implies change_le(e, #[trigger] old_out[k]) by {
                lemma_change_order(old_out[k], e, e);
            }
        }
        out.insert(j, e);
        proof {
            vstd::seq_lib::to_multiset_build(changes@, e);
            vstd::seq_lib::to_multiset_insert(old_out, j as int, e);
            assert(before.to_multiset() =~= changes@.to_multiset().insert(e));
            assert(out@.to_multiset() =~= old_out.to_multiset().insert(e));
            assert(changes@.to_multiset().add(out@.to_multiset()) =~= before.to_multiset().add(
                old_out.to_multiset(),
            ));
            assert forall|a: int, b: int| 0 <= a < b < out@.len() implies change_le(
                #[trigger] out@[a],
                #[trigger] out@[b],
            ) by {
                if b < j {
                    assert(change_le(old_out[a], old_out[b]));
                } else if b == j {
                } else if a < j {
                    lemma_change_order(old_out[a], e, old_out[b - 1]);
                } else if a == j {
                } else {
                    assert(change_le(old_out[a - 1], old_out[b - 1]));
                }
            }
        }
    }
    assert(changes@ =~= Seq::<Change>::empty());
    assert(changes@.to_multiset().len() == 0);
    assert(out@.to_multiset() =~= original.to_multiset());
    *changes = out;
    proof {
        law_sorted_changes(changes@);
    }
}

/// One step of a random waveform history.
#[derive(Clone, Copy, Debug, PartialEq, Eq, Structural)]
pub enum Op {
    /// Advance the time by `delta` ticks. A delta of zero repeats the current time stamp.
    Time { delta: u16 },
    /// Give variable `var` (modulo the number of variables) a value made from `bits`.
    Value { var: u8, bits: u64, four_state: bool },
    /// Ask both writers to flush.
    Flush,
}

/// What both writers are to be told for one step of the history.
#[derive(Clone, Copy, Debug, PartialEq, Eq, Structural)]
pub enum Action {
    /// A time change to this time.
    TimeChange(u64),
    /// A value change of the variable at this position, its value made from `bits`.
    ValueChange { var: usize, bits: u64, four_state: bool },
    /// A flush.
    Flush,
    /// Nothing: the step is one the writers are known to disagree on.
    Skip,
}

/// What the history has done so far, as far as it decides which steps are passed on.
#[derive(Clone, Copy, Debug, PartialEq, Eq, Structural)]
pub struct HarnessState {
    /// the current time
    pub time: u64,
    /// whether a time change was passed on
    pub saw_time_change: bool,
    /// whether a flush was passed on after the first time change, with no time advance since:
    /// values are then held back until the time advances
    pub flushed_without_time: bool,
    /// whether a value change waits to be written out
    pub pending_values: bool,
    /// the time steps recorded since the current section began
    pub steps_since_section: usize,
}

/// The state after `op` and what is passed on to the writers for it. Values after a flush with
/// no time advance since are held back, as are flushes with nothing pending or fewer than three
/// time steps in the section.
pub open spec fn harness_step(state: HarnessState, op: Op, num_vars: nat) -> (HarnessState, Action) {
    match op {
        Op::Time { delta } => {
            let time = (state.time + delta) as u64;
            (
                HarnessState {
                    time,
                    saw_time_change: true,
                    flushed_without_time: if delta > 0 {
                        false
                    } else {
                        state.flushed_without_time
                    },
                    steps_since_section: if delta > 0 || state.steps_since_section == 0 {
                        (state.steps_since_section + 1) as usize
                    } else {
                        state.steps_since_section
                    },
                    ..state
                },
                Action::TimeChange(time),
            )
        },
        Op::Value { var, bits, four_state } => {
            if state.flushed_without_time {
                (state, Action::Skip)
            } else {
                (
                    HarnessState { pending_values: true, ..state },
                    Action::ValueChange { var: (var as nat % num_vars) as usize, bits, four_state },
                )
            }
        },
        Op::Flush => {
            if !state.pending_values || state.steps_since_section < 3 {
                (state, Action::Skip)
            } else {
                (
                    HarnessState {
                        pending_values: false,
                        steps_since_section: 0,
                        flushed_without_time: state.saw_time_change,
                        ..state
                    },
                    Action::Flush,
                )
            }
        },
    }
}

impl HarnessState {
    /// The state before the first step.
    pub fn new() -> (state: Self)
        ensures
            state == (HarnessState {
                time: 0,
                saw_time_change: false,
                flushed_without_time: false,
                pending_values: false,
                steps_since_section: 0,
            }),
    {
        HarnessState {
            time: 0,
            saw_time_change: false,
            flushed_without_time: false,
            pending_values: false,
            steps_since_section: 0,
        }
    }

    /// Takes step `op` of the history over `num_vars` variables and says what to pass on.
    pub fn step(&mut self, op: Op, num_vars: usize) -> (action: Action)
        requires
            num_vars > 0,
            op matches Op::Time { delta } ==> old(self).time + delta <= u64::MAX
                && old(self).steps_since_section < usize::MAX,
        ensures
            (*final(self), action) == harness_step(*old(self), op, num_vars as nat),
    {
        match op {
            Op::Time { delta } => {
                self.time = self.time + delta as u64;
                self.saw_time_change = true;
                if delta > 0 {
                    self.flushed_without_time = false;
                }
                if delta > 0 || self.steps_since_section == 0 {
                    self.steps_since_section = self.steps_since_section + 1;
                }
                Action::TimeChange(self.time)
            },
            Op::Value { var, bits, four_state } => {
                if self.flushed_without_time {
                    Action::Skip
                } else {
                    self.pending_values = true;
                    Action::ValueChange { var: var as usize % num_vars, bits, four_state }
                }
            },
            Op::Flush => {
                if !self.pending_values || self.steps_since_section < 3 {
                    Action::Skip
                } else {
                    self.pending_values = false;
                    self.steps_since_section = 0;
                    self.flushed_without_time = self.saw_time_change;
                    Action::Flush
                }
            },
        }
    }
}

/// One item of a random hierarchy.
#[derive(Clone, Copy, Debug, PartialEq, Eq, Structural)]
pub enum Item {
    Scope,
    UpScope,
    /// A new variable. `alias_of` picks an earlier one to alias, and an alias always describes
    /// the same signal as its target, so it takes over the target's type.
    Var { tpe: VarType, alias_of: Option<u8> },
}

/// What both writers are to be told for one item of the hierarchy.
#[derive(Clone, Copy, Debug, PartialEq, Eq, Structural)]
pub enum HierarchyAction {
    /// Open a scope.
    Scope,
    /// Close the innermost scope.
    UpScope,
    /// Create a variable of type `tpe`, as an alias of the variable at position `alias_of`.
    Var { tpe: VarType, alias_of: Option<usize> },
    /// Nothing: closing the top level is not passed on.
    Skip,
}

/// The scope depth after `item` and what is passed on for it, given the types of the variables
/// created so far.
pub open spec fn hierarchy_step_spec(depth: nat, var_types: Seq<VarType>, item: Item) -> (
    nat,
    HierarchyAction,
) {
    match item {
        Item::Scope => (depth + 1, HierarchyAction::Scope),
        Item::UpScope => if depth > 0 {
            ((depth - 1) as nat, HierarchyAction::UpScope)
        } else {
            (depth, HierarchyAction::Skip)
        },
        Item::Var { tpe, alias_of } => match alias_of {
            Some(a) if var_types.len() > 0 => {
                let target = (a as nat % var_types.len()) as int;
                (depth, HierarchyAction::Var { tpe: var_types[target], alias_of: Some(target as usize) })
            },
            _ => (depth, HierarchyAction::Var { tpe, alias_of: None }),
        },
    }
}

/// Takes one item of the hierarchy; `depth` is the number of open scopes and `var_types` the
/// types of the variables created so far.
pub fn hierarchy_step(depth: &mut usize, var_types: &Vec<VarType>, item: Item) -> (action: HierarchyAction)
    requires
        *old(depth) < usize::MAX,
    ensures
        (*final(depth) as nat, action) == hierarchy_step_spec(*old(depth) as nat, var_types@, item),
{
    match item {
        Item::Scope => {
            *depth = *depth + 1;
            HierarchyAction::Scope
        },
        Item::UpScope => {
            // popping the top level is not passed on
            if *depth > 0 {
                *depth = *depth - 1;
                HierarchyAction::UpScope
            } else {
                HierarchyAction::Skip
            }
        },
        Item::Var { tpe, alias_of } => match alias_of {
            Some(a) => {
                if var_types.len() > 0 {
                    let target = a as usize % var_types.len();
                    HierarchyAction::Var { tpe: var_types[target], alias_of: Some(target) }
                } else {
                    HierarchyAction::Var { tpe, alias_of: None }
                }
            },
            None => HierarchyAction::Var { tpe, alias_of: None },
        },
    }
}

/// The number that the first `n` characters of `s` stand for as binary digits, the first
/// character the least significant; a `1` counts one, anything else nothing.
pub open spec fn binary_digits_value(s: Seq<u8>, n: nat) -> nat
    decreases n,
{
    if n == 0 {
        0
    } else {
        binary_digits_value(s, (n - 1) as nat) + if s[n - 1] == 0x31 {
            pow2((n - 1) as nat)
        } else {
            0
        }
    }
}

/// The two bit code of a four state character: `0`, `1`, `x`, `z` for 0 to 3.
pub open spec fn four_state_digit(c: u8) -> nat {
    if c == 0x31 {
        1
    } else if c == 0x78 {
        2
    } else if c == 0x7a {
        3
    } else {
        0
    }
}

/// The number that the first `n` characters of `s` stand for as base four digits of their four
/// state codes, the first character the least significant.
pub open spec fn four_state_digits_value(s: Seq<u8>, n: nat) -> nat
    decreases n,
{
    if n == 0 {
        0
    } else {
        four_state_digits_value(s, (n - 1) as nat) + four_state_digit(s[n - 1]) * pow2(
            (2 * (n - 1)) as nat,
        )
    }
}

proof fn lemma_binary_prefix(width: u8, bits: u64, n: nat)
    requires
        n <= width as nat + 1,
        n <= 64,
    ensures
        binary_digits_value(spec_value_for(VarType::BitVec(width), bits, false), n) == bits as nat
            % pow2(n),
    decreases n,
{
    let v = spec_value_for(VarType::BitVec(width), bits, false);
    if n == 0 {
        assert(pow2(0) == 1) by {
            vstd::arithmetic::power2::lemma2_to64();
        }
    } else {
        let k = (n - 1) as nat;
        lemma_binary_prefix(width, bits, k);
        vstd::arithmetic::power2::lemma_pow2_pos(k);
        vstd::arithmetic::power2::lemma_pow2_unfold(n);
        vstd::arithmetic::div_mod::lemma_mod_breakdown(bits as int, pow2(k) as int, 2);
        assert(pow2(k) * 2 == pow2(n));
        assert((k as int) % 64 == k);
        let d = (bits as nat / pow2(k)) % 2;
        assert(v[k as int] == (0x30 + d) as u8);
        assert(bits as int % pow2(n) as int == pow2(k) * d + bits as int % pow2(k) as int);
        if d == 1 {
            assert(v[k as int] == 0x31);
            assert(pow2(k) * d == pow2(k));
        } else {
            assert(d == 0);
            assert(v[k as int] == 0x30);
            assert(pow2(k) * d == 0);
        }
        assert(binary_digits_value(v, n) == binary_digits_value(v, k) + pow2(k) * d);
    }
}

proof fn lemma_four_state_prefix(width: u8, bits: u64, n: nat)
    requires
        n <= width as nat + 1,
        n <= 32,
    ensures
        four_state_digits_value(spec_value_for(VarType::BitVec(width), bits, true), n) == bits
            as nat % pow2(2 * n),
    decreases n,
{
    let v = spec_value_for(VarType::BitVec(width), bits, true);
    if n == 0 {
        assert(pow2(0) == 1) by {
            vstd::arithmetic::power2::lemma2_to64();
        }
    } else {
        let k = (n - 1) as nat;
        lemma_four_state_prefix(width, bits, k);
        vstd::arithmetic::power2::lemma_pow2_pos(2 * k);
        vstd::arithmetic::power2::lemma_pow2_adds(2 * k, 2);
        assert(pow2(2) == 4) by {
            vstd::arithmetic::power2::lemma2_to64();
        }
        assert(2 * k + 2 == 2 * n);
        vstd::arithmetic::div_mod::lemma_mod_breakdown(bits as int, pow2(2 * k) as int, 4);
        assert(((k as int) * 2) % 64 == 2 * k);
        let d = (bits as nat / pow2(2 * k)) % 4;
        assert(v[k as int] == alphabet(d));
        assert(four_state_digit(v[k as int]) == d);
        assert(bits as int % pow2(2 * n) as int == pow2(2 * k) * d + bits as int % pow2(2 * k) as int);
        assert(four_state_digits_value(v, n) == four_state_digits_value(v, k) + d * pow2(2 * k));
        assert(d * pow2(2 * k) == pow2(2 * k) * d) by (nonlinear_arith);
    }
}

/// The value written for a bit vector gives back the random bits it was made from: read as
/// binary digits, first character least significant, the binary value of `w + 1 <= 64`
/// characters is the low `w + 1` bits, and the four state value of `w + 1 <= 32` characters,
/// two bits per character, is the low `2 (w + 1)` bits. Every character is one of the
/// characters of its kind, and wider values repeat after 64 binary or 32 four state characters.
pub proof fn law_value_for_bits(width: u8, bits: u64)
    ensures
        ({
            let v = spec_value_for(VarType::BitVec(width), bits, false);
            &&& v.len() == width as nat + 1
            &&& forall|i: int| 0 <= i < v.len() ==> #[trigger] v[i] == 0x30 || v[i] == 0x31
            &&& forall|i: int| 0 <= i < v.len() ==> #[trigger] v[i] == v[i % 64]
            &&& width < 64 ==> binary_digits_value(v, width as nat + 1) == bits as nat % pow2(
                width as nat + 1,
            )
        }),
        ({
            let v = spec_value_for(VarType::BitVec(width), bits, true);
            &&& v.len() == width as nat + 1
            &&& forall|i: int|
                0 <= i < v.len() ==> #[trigger] v[i] == 0x30 || v[i] == 0x31 || v[i] == 0x78
                    || v[i] == 0x7a
            &&& forall|i: int| 0 <= i < v.len() ==> #[trigger] v[i] == v[i % 32]
            &&& width < 32 ==> four_state_digits_value(v, width as nat + 1) == bits as nat % pow2(
                2 * (width as nat + 1),
            )
        }),
{
    let v = spec_value_for(VarType::BitVec(width), bits, false);
    let w = spec_value_for(VarType::BitVec(width), bits, true);
    assert forall|i: int| 0 <= i < v.len() implies #[trigger] v[i] == 0x30 || v[i] == 0x31 by {
        vstd::arithmetic::power2::lemma_pow2_pos((i % 64) as nat);
    }
    assert forall|i: int| 0 <= i < v.len() implies #[trigger] v[i] == v[i % 64] by {
        assert((i % 64) % 64 == i % 64);
    }
    assert forall|i: int| 0 <= i < w.len() implies #[trigger] w[i] == 0x30 || w[i] == 0x31 || w[i]
        == 0x78 || w[i] == 0x7a by {
        vstd::arithmetic::power2::lemma_pow2_pos(((i * 2) % 64) as nat);
        let d = (bits as nat / pow2(((i * 2) % 64) as nat)) % 4;
        assert(d < 4);
    }
    assert forall|i: int| 0 <= i < w.len() implies #[trigger] w[i] == w[i % 32] by {
        assert((i * 2) % 64 == ((i % 32) * 2) % 64) by (nonlinear_arith)
            requires 0 <= i;
    }
    if width < 64 {
        lemma_binary_prefix(width, bits, width as nat + 1);
    }
    if width < 32 {
        lemma_four_state_prefix(width, bits, width as nat + 1);
    }
}

/// A time step passes the new time on, and counts one more time stamp in the section only when
/// it advances the time or is the first of the section: a repeated time stamp is not counted.
/// An advance lets values through again after a flush.
pub proof fn law_harness_time_step(state: HarnessState, delta: u16, num_vars: nat)
    requires
        state.time + delta <= u64::MAX,
        state.steps_since_section < usize::MAX,
    ensures
        ({
            let (next, action) = harness_step(state, Op::Time { delta }, num_vars);
            &&& next.time == state.time + delta
            &&& action == Action::TimeChange(next.time)
            &&& next.saw_time_change
            &&& next.pending_values == state.pending_values
            &&& delta == 0 && state.steps_since_section > 0 ==> next.steps_since_section
                == state.steps_since_section
            &&& delta > 0 || state.steps_since_section == 0 ==> next.steps_since_section
                == state.steps_since_section + 1
            &&& delta > 0 ==> !next.flushed_without_time
            &&& delta == 0 ==> next.flushed_without_time == state.flushed_without_time
        }),
{
}

/// A value is passed on, for the variable at its index modulo the number of variables, unless a
/// flush came after the first time change with no time advance since; then it is held back and
/// nothing changes.
pub proof fn law_harness_value_step(
    state: HarnessState,
    var: u8,
    bits: u64,
    four_state: bool,
    num_vars: nat,
)
    requires
        num_vars > 0,
    ensures
        ({
            let (next, action) = harness_step(state, Op::Value { var, bits, four_state }, num_vars);
            &&& state.flushed_without_time ==> action == Action::Skip && next == state
            &&& !state.flushed_without_time ==> {
                &&& action matches Action::ValueChange { var: target, bits: b, four_state: f }
                &&& target < num_vars
                &&& (var as int - target as int) % (num_vars as int) == 0
                &&& b == bits && f == four_state
                &&& next == (HarnessState { pending_values: true, ..state })
            }
        }),
{
    let n = num_vars as int;
    let t = (var as nat % num_vars) as int;
    vstd::arithmetic::div_mod::lemma_fundamental_div_mod(var as int, n);
    assert((var as int / n) * n == n * (var as int / n)) by (nonlinear_arith);
    assert((var as int - t) == (var as int / n) * n);
    vstd::arithmetic::div_mod::lemma_mod_multiples_basic(var as int / n, n);
    assert(t < 256);
}

/// A flush is passed on exactly when a value waits to be written and the section holds at
/// least three time stamps; it then starts a new section with nothing pending, and holds values
/// back until the time advances if a time change was already passed on. Otherwise it is
/// skipped and nothing changes.
pub proof fn law_harness_flush_step(state: HarnessState, num_vars: nat)
    ensures
        ({
            let (next, action) = harness_step(state, Op::Flush, num_vars);
            &&& (action == Action::Flush) == (state.pending_values && state.steps_since_section >= 3)
            &&& action != Action::Flush ==> action == Action::Skip && next == state
            &&& action == Action::Flush ==> {
                &&& next.steps_since_section == 0
                &&& !next.pending_values
                &&& next.flushed_without_time == state.saw_time_change
                &&& next.time == state.time
            }
        }),
{
}

/// A variable that aliases another takes over its target, the variable at the position that is
/// the alias index modulo the number of variables so far, and that target's type; with no
/// variable yet, or no alias, the variable is new with its own type. The scope depth stays.
pub proof fn law_hierarchy_var(depth: nat, var_types: Seq<VarType>, tpe: VarType, alias_of: Option<u8>)
    ensures
        ({
            let (d, action) = hierarchy_step_spec(depth, var_types, Item::Var { tpe, alias_of });
            &&& d == depth
            &&& alias_of is Some && var_types.len() > 0 ==> {
                &&& action matches HierarchyAction::Var { tpe: t, alias_of: Some(target) }
                &&& target < var_types.len()
                &&& (alias_of.unwrap() as int - target as int) % (var_types.len() as int) == 0
                &&& t == var_types[target as int]
            }
            &&& (alias_of is None || var_types.len() == 0) ==> action == (HierarchyAction::Var {
                tpe,
                alias_of: None,
            })
        }),
{
    if let Some(a) = alias_of {
        if var_types.len() > 0 {
            let n = var_types.len() as int;
            let t = (a as nat % var_types.len()) as int;
            vstd::arithmetic::div_mod::lemma_fundamental_div_mod(a as int, n);
    assert((a as int / n) * n == n * (a as int / n)) by (nonlinear_arith);
            vstd::arithmetic::div_mod::lemma_mod_multiples_basic(a as int / n, n);
            assert((a as int - t) == (a as int / n) * n);
        }
    }
}

/// A scope opened and then closed leaves the depth as it was; closing at the top level is not
/// passed on and keeps the depth at zero.
pub proof fn law_hierarchy_scopes(depth: nat, var_types: Seq<VarType>)
    ensures
        ({
            let (inner, opened) = hierarchy_step_spec(depth, var_types, Item::Scope);
            &&& opened == HierarchyAction::Scope
            &&& inner == depth + 1
            &&& hierarchy_step_spec(inner, var_types, Item::UpScope) == (depth, HierarchyAction::UpScope)
        }),
        hierarchy_step_spec(0, var_types, Item::UpScope) == (0nat, HierarchyAction::Skip),
{
}

/// Value changes in order come by their full time, earliest first; at one time by signal index,
/// lowest first; and for one signal at one time, no value comes after a lexicographically
/// smaller one.
pub proof fn law_sorted_changes(s: Seq<Change>)
    requires
        changes_sorted(s),
    ensures
        forall|i: int, j: int| 0 <= i < j < s.len() ==> (#[trigger] s[i]).0 <= (#[trigger] s[j]).0,
        forall|i: int, j: int|
            0 <= i < j < s.len() && (#[trigger] s[i]).0 == (#[trigger] s[j]).0 ==> s[i].1 <= s[j].1,
        forall|i: int, j: int|
            0 <= i < j < s.len() && (#[trigger] s[i]).0 == (#[trigger] s[j]).0 && s[i].1 == s[j].1
                ==> !bytes_lt(s[j].2@, s[i].2@),
{
    assert forall|i: int, j: int| 0 <= i < j < s.len() implies (#[trigger] s[i]).0 <= (
    #[trigger] s[j]).0 by {
        assert(change_le(s[i], s[j]));
    }
    assert forall|i: int, j: int|
        0 <= i < j < s.len() && (#[trigger] s[i]).0 == (#[trigger] s[j]).0 implies s[i].1
        <= s[j].1 by {
        assert(change_le(s[i], s[j]));
    }
    assert forall|i: int, j: int|
        0 <= i < j < s.len() && (#[trigger] s[i]).0 == (#[trigger] s[j]).0 && s[i].1 == s[j].1
            implies !bytes_lt(s[j].2@, s[i].2@) by {
        assert(change_le(s[i], s[j]));
    }
}

/// The number that the first `n` bytes of `s` stand for, the first byte least significant.
pub open spec fn le_bytes_value(s: Seq<u8>, n: nat) -> nat
    decreases n,
{
    if n == 0 {
        0
    } else {
        le_bytes_value(s, (n - 1) as nat) + s[n - 1] as nat * pow2((8 * (n - 1)) as nat)
    }
}

proof fn lemma_le64_prefix(bits: u64, n: nat)
    requires
        n <= 8,
    ensures
        le_bytes_value(le64(bits), n) == bits as nat % pow2(8 * n),
    decreases n,
{
    if n == 0 {
        assert(pow2(0) == 1) by {
            vstd::arithmetic::power2::lemma2_to64();
        }
    } else {
        let k = (n - 1) as nat;
        lemma_le64_prefix(bits, k);
        vstd::arithmetic::power2::lemma_pow2_pos(8 * k);
        vstd::arithmetic::power2::lemma_pow2_adds(8 * k, 8);
        assert(pow2(8) == 256) by {
            vstd::arithmetic::power2::lemma2_to64();
        }
        assert(8 * k + 8 == 8 * n);
        vstd::arithmetic::div_mod::lemma_mod_breakdown(bits as int, pow2(8 * k) as int, 256);
        let d = (bits as nat / pow2(8 * k)) % 256;
        assert(le64(bits)[k as int] == d as u8);
        assert(d * pow2(8 * k) == pow2(8 * k) * d) by (nonlinear_arith);
    }
}

/// The value written for a real is the eight bytes of the random bits, least significant first.
pub proof fn law_value_for_real(bits: u64, four_state: bool)
    ensures
        spec_value_for(VarType::Real, bits, four_state).len() == 8,
        le_bytes_value(spec_value_for(VarType::Real, bits, four_state), 8) == bits,
{
    lemma_le64_prefix(bits, 8);
    assert(pow2(64) == 0x1_0000_0000_0000_0000) by {
        vstd::arithmetic::power2::lemma2_to64();
    }
    vstd::arithmetic::div_mod::lemma_small_mod(bits as nat, pow2(64));
    assert(spec_value_for(VarType::Real, bits, four_state) == le64(bits));
}

/// The order of values is the lexicographic one: it is strict and total, a proper prefix comes
/// first, and otherwise the first differing byte decides.
pub proof fn law_bytes_order(a: Seq<u8>, b: Seq<u8>, k: int)
    ensures
        !bytes_lt(a, a),
        bytes_lt(a, b) ==> !bytes_lt(b, a),
        a != b ==> bytes_lt(a, b) || bytes_lt(b, a),
        a.len() < b.len() && b.take(a.len() as int) == a ==> bytes_lt(a, b),
        0 <= k < a.len() && k < b.len() && a.take(k) == b.take(k) && a[k] != b[k] ==> bytes_lt(a, b)
            == (a[k] < b[k]),
    decreases a.len(),
{
    lemma_bytes_lt_irreflexive(a);
    lemma_bytes_lt_asymmetric(a, b);
    lemma_bytes_lt_total(a, b);
    if a.len() > 0 && b.len() > 0 {
        if a.len() < b.len() && b.take(a.len() as int) == a {
            assert(b.take(a.len() as int)[0] == b[0]);
            assert(b.drop_first().take(a.drop_first().len() as int) =~= a.drop_first()) by {
                assert forall|i: int| 0 <= i < a.len() - 1 implies b.drop_first()[i] == a.drop_first()[i] by {
                    assert(b.take(a.len() as int)[i + 1] == b[i + 1]);
                }
            }
            law_bytes_order(a.drop_first(), b.drop_first(), k - 1);
        }
        if 0 < k < a.len() && k < b.len() && a.take(k) == b.take(k) && a[k] != b[k] {
            assert(a.take(k)[0] == a[0]);
            assert(b.take(k)[0] == b[0]);
            assert(a.drop_first().take(k - 1) =~= b.drop_first().take(k - 1)) by {
                assert forall|i: int| 0 <= i < k - 1 implies a.drop_first()[i] == b.drop_first()[i] by {
                    assert(a.take(k)[i + 1] == b.take(k)[i + 1]);
                }
            }
            law_bytes_order(a.drop_first(), b.drop_first(), k - 1);
        }
    }
}

} // verus!
