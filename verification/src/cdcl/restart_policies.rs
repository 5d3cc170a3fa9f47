//! When the CDCL search restarts: never, after a fixed number of
//! conflicts, after geometrically growing numbers, or following a
//! Luby-style sequence.
use vstd::prelude::*;
use crate::cdcl::clause::{ClauseId, Clauses};
use crate::cdcl::update::Update;
use crate::cdcl::variable::Variables;

verus! {

/// Decides, after each conflict, whether the search restarts.
pub trait RestartPolicy: Update {
    fn restart(&mut self) -> bool;
}

/// Makes a fresh restart policy for a search.
pub trait RestartPolicyFactory {
    type Policy: RestartPolicy;

    fn create(&self) -> Self::Policy;
}

/// A policy that never restarts.
pub struct RestartNeverInstance;

impl Update for RestartNeverInstance {}

impl RestartPolicy for RestartNeverInstance {
    fn restart(&mut self) -> (r: bool)
        ensures
            !r,
    {
        false
    }
}

/// Makes policies that never restart.
pub struct RestartNever;

impl RestartPolicyFactory for RestartNever {
    type Policy = RestartNeverInstance;

    fn create(&self) -> (r: RestartNeverInstance) {
        RestartNeverInstance
    }
}

/// Restarts once more than `rate` conflicts have happened since the last restart.
pub struct RestartFixedInstance {
    pub conflicts: u64,
    pub rate: u64,
}

impl Update for RestartFixedInstance {
    /// Counts the conflict (wrapping at `u64::MAX`).
    fn on_conflict(&mut self, _empty_clause: ClauseId, _clauses: &Clauses, _variables: &Variables)
        ensures
            final(self).conflicts == old(self).conflicts.wrapping_add(1),
            final(self).rate == old(self).rate,
    {
        self.conflicts = self.conflicts.wrapping_add(1);
    }
}

impl RestartPolicy for RestartFixedInstance {
    fn restart(&mut self) -> (r: bool)
        ensures
            r == (old(self).conflicts > old(self).rate),
            final(self).conflicts == if r { 0 } else { old(self).conflicts },
            final(self).rate == old(self).rate,
    {
        if self.conflicts > self.rate {
            self.conflicts = 0;
            return true;
        }
        false
    }
}

/// Makes fixed-rate policies with the given rate (700 by default).
pub struct RestartFixed(pub u64);

impl RestartFixed {
    pub fn default() -> (r: RestartFixed)
        ensures
            r.0 == 700,
    {
        RestartFixed(700)
    }
}

impl RestartPolicyFactory for RestartFixed {
    type Policy = RestartFixedInstance;

    fn create(&self) -> (r: RestartFixedInstance)
        ensures
            r.conflicts == 0,
            r.rate == self.0,
    {
        RestartFixedInstance { conflicts: 0, rate: self.0 }
    }
}

/// Restarts once more than `rate` conflicts have happened since the last
/// restart, then multiplies the rate by `factor_percent / 100`.
pub struct RestartGeomInstance {
    pub conflicts: u64,
    pub rate: u64,
    pub factor_percent: u64,
}

impl Update for RestartGeomInstance {
    /// Counts the conflict (wrapping at `u64::MAX`).
    fn on_conflict(&mut self, _empty_clause: ClauseId, _clauses: &Clauses, _variables: &Variables)
        ensures
            final(self).conflicts == old(self).conflicts.wrapping_add(1),
            final(self).rate == old(self).rate,
            final(self).factor_percent == old(self).factor_percent,
    {
        self.conflicts = self.conflicts.wrapping_add(1);
    }
}

impl RestartPolicy for RestartGeomInstance {
    /// The new rate is computed as `rate * factor_percent / 100` in `u64`
    /// (the product wrapping on overflow).
    fn restart(&mut self) -> (r: bool)
        ensures
            r == (old(self).conflicts > old(self).rate),
            final(self).conflicts == if r { 0 } else { old(self).conflicts },
            final(self).rate == if r {
                (old(self).rate.wrapping_mul(old(self).factor_percent) / 100) as u64
            } else {
                old(self).rate
            },
            final(self).factor_percent == old(self).factor_percent,
    {
        if self.conflicts > self.rate {
            self.rate = self.rate.wrapping_mul(self.factor_percent);
            self.rate = self.rate / 100;
            self.conflicts = 0;
            return true;
        }
        false
    }
}

/// Makes geometric policies with a starting rate and a growth factor in percent.
pub struct RestartGeom {
    pub rate: u64,
    pub factor_percent: u64,
}

impl RestartGeom {
    /// Rate 100, growing by half at each restart.
    pub fn default() -> (r: RestartGeom)
        ensures
            r.rate == 100,
            r.factor_percent == 150,
    {
        RestartGeom { rate: 100, factor_percent: 150 }
    }
}

impl RestartPolicyFactory for RestartGeom {
    type Policy = RestartGeomInstance;

    fn create(&self) -> (r: RestartGeomInstance)
        ensures
            r.conflicts == 0,
            r.rate == self.rate,
            r.factor_percent == self.factor_percent,
    {
        RestartGeomInstance { conflicts: 0, rate: self.rate, factor_percent: self.factor_percent }
    }
}

/// The next state of the sequence generator `(u, v, w)`, computed in `u64`
/// with wrapping.
pub open spec fn luby_next(s: (u64, u64, u64)) -> (u64, u64, u64) {
    let (u, v, w) = s;
    if u == w {
        if u == v {
            (u.wrapping_add(1), 1, w.wrapping_mul(2))
        } else {
            (u, v.wrapping_add(1), w)
        }
    } else {
        (u.wrapping_add(1), v, w)
    }
}

/// Restarts once more than `rate` conflicts have happened since the last
/// restart; the next rate is 32 times the next value of the sequence.
pub struct RestartLubyInstance {
    pub conflicts: u64,
    pub rate: u64,
    pub luby_state: (u64, u64, u64),
}

impl RestartLubyInstance {
    /// Advances the sequence and returns its current value `v`.
    pub fn next_luby(&mut self) -> (r: u64)
        ensures
            r == old(self).luby_state.1,
            final(self).luby_state == luby_next(old(self).luby_state),
            final(self).conflicts == old(self).conflicts,
            final(self).rate == old(self).rate,
    {
        let (u, v, w) = self.luby_state;
        self.luby_state = if u == w {
            if u == v {
                (u.wrapping_add(1), 1, w.wrapping_mul(2))
            } else {
                (u, v.wrapping_add(1), w)
            }
        } else {
            (u.wrapping_add(1), v, w)
        };
        v
    }
}

impl Update for RestartLubyInstance {
    /// Counts the conflict (wrapping at `u64::MAX`).
    fn on_conflict(&mut self, _empty_clause: ClauseId, _clauses: &Clauses, _variables: &Variables)
        ensures
            final(self).conflicts == old(self).conflicts.wrapping_add(1),
            final(self).rate == old(self).rate,
            final(self).luby_state == old(self).luby_state,
    {
        self.conflicts = self.conflicts.wrapping_add(1);
    }
}

impl RestartPolicy for RestartLubyInstance {
    /// The new rate is `32 * v` in `u64` (wrapping on overflow).
    fn restart(&mut self) -> (r: bool)
        ensures
            r == (old(self).conflicts > old(self).rate),
            final(self).conflicts == if r { 0 } else { old(self).conflicts },
            final(self).rate == if r { 32u64.wrapping_mul(old(self).luby_state.1) } else { old(self).rate },
            final(self).luby_state == if r { luby_next(old(self).luby_state) } else { old(self).luby_state },
    {
        if self.conflicts > self.rate {
            let next = self.next_luby();
            self.rate = 32u64.wrapping_mul(next);
            self.conflicts = 0;
            return true;
        }
        false
    }
}

/// Makes Luby-style policies with the given first rate (1 by default).
pub struct RestartLuby(pub u64);

impl RestartLuby {
    pub fn default() -> (r: RestartLuby)
        ensures
            r.0 == 1,
    {
        RestartLuby(1)
    }
}

impl RestartPolicyFactory for RestartLuby {
    type Policy = RestartLubyInstance;

    /// The sequence starts in state `(2, 1, 2)`: its first step is already made.
    fn create(&self) -> (r: RestartLubyInstance)
        ensures
            r.conflicts == 0,
            r.rate == self.0,
            r.luby_state == (2u64, 1u64, 2u64),
    {
        RestartLubyInstance { conflicts: 0, rate: self.0, luby_state: (2, 1, 2) }
    }
}

/// The states the sequence passes through keep `1 <= v <= u <= w`.
pub open spec fn luby_state_ok(s: (u64, u64, u64)) -> bool {
    1 <= s.1 && s.1 <= s.0 && s.0 <= s.2
}

/// Each step of the sequence keeps `1 <= v <= u <= w` as long as `w` can be
/// doubled, so every value it yields is at least 1 and every restart rate
/// after the first restart is at least 32.
pub proof fn lemma_luby_state_stays_ordered(s: (u64, u64, u64))
    requires
        luby_state_ok(s),
        s.2 <= u64::MAX / 2,
    ensures
        luby_state_ok(luby_next(s)),
        luby_next(s).2 >= s.2,
        s.1 >= 1,
{
    let (u, v, w) = s;
    assert(u.wrapping_add(1) == u + 1) by {
        assert(u < u64::MAX);
    }
    if u == w && u == v {
        assert(w.wrapping_mul(2) == w * 2);
    } else if u == w {
        assert(v.wrapping_add(1) == v + 1);
    }
}

/// 2 to the power `j`.
pub open spec fn two_to(j: nat) -> nat
    decreases j,
{
    if j == 0 { 1 } else { 2 * two_to((j - 1) as nat) }
}

/// The length of block `j` (from 1) of the Luby sequence: `2^(j-1)` ones,
/// then the values 2 up to `2^j`.
pub open spec fn luby_len(j: nat) -> nat {
    (two_to((j - 1) as nat) + two_to(j) - 1) as nat
}

/// Where block `j` starts in the sequence (counting from 0).
pub open spec fn luby_start(j: nat) -> nat
    decreases j,
{
    if j <= 1 { 0 } else { luby_start((j - 1) as nat) + luby_len((j - 1) as nat) }
}

/// Entry `t` of block `j`: 1 among the first `2^(j-1)` entries, then 2, 3,
/// ..., `2^j`.
pub open spec fn luby_value(j: nat, t: nat) -> nat {
    let h = two_to((j - 1) as nat);
    if t < h { 1 } else { (t - h + 2) as nat }
}

/// The generator's state after `k` steps from `s`.
pub open spec fn luby_iter(s: (u64, u64, u64), k: nat) -> (u64, u64, u64)
    decreases k,
{
    if k == 0 { s } else { luby_next(luby_iter(s, (k - 1) as nat)) }
}

/// The generator's state at entry `t` of block `j`.
spec fn luby_block_state(j: nat, t: nat) -> (u64, u64, u64) {
    let h = two_to((j - 1) as nat);
    if t < h {
        ((h + 1 + t) as u64, 1u64, (2 * h) as u64)
    } else {
        ((2 * h) as u64, (t - h + 2) as u64, (2 * h) as u64)
    }
}

/// One step of the generator moves to the next entry of the block, or to
/// the first entry of the next block.
proof fn lemma_luby_step(j: nat, t: nat)
    requires
        1 <= j,
        t < luby_len(j),
        two_to(j) <= u64::MAX / 2,
    ensures
        luby_next(luby_block_state(j, t)) == if t + 1 < luby_len(j) {
            luby_block_state(j, t + 1)
        } else {
            luby_block_state(j + 1, 0)
        },
{
    let h = two_to((j - 1) as nat);
    assert(two_to(j) == 2 * h);
    assert(two_to(j + 1) == 2 * two_to(j));
    assert(((j + 1) - 1) as nat == j);
    assert(h >= 1) by {
        lemma_two_to_pos((j - 1) as nat);
    }
    let s = luby_block_state(j, t);
    let (u, v, w) = s;
    if t < h {
        assert(u == h + 1 + t && v == 1 && w == 2 * h);
        if t + 1 < h {
            assert(u.wrapping_add(1) == u + 1);
        } else {
            assert(u == w);
            assert(v.wrapping_add(1) == v + 1);
        }
    } else {
        assert(u == 2 * h && v == t - h + 2 && w == 2 * h);
        if t + 1 < luby_len(j) {
            assert(v.wrapping_add(1) == v + 1);
        } else {
            assert(u == v);
            assert(u.wrapping_add(1) == u + 1);
            assert(w.wrapping_mul(2) == w * 2);
        }
    }
}

/// Powers of two are positive.
proof fn lemma_two_to_pos(j: nat)
    ensures
        two_to(j) >= 1,
    decreases j,
{
    if j > 0 {
        lemma_two_to_pos((j - 1) as nat);
    }
}

/// Powers of two grow.
proof fn lemma_two_to_grows(j: nat)
    requires
        j >= 1,
    ensures
        two_to((j - 1) as nat) < two_to(j),
{
    lemma_two_to_pos((j - 1) as nat);
}

/// From the first state, the generator reaches entry `t` of block `j`
/// after `luby_start(j) + t` steps.
proof fn lemma_luby_reaches(j: nat, t: nat)
    requires
        1 <= j,
        t < luby_len(j),
        two_to(j) <= u64::MAX / 2,
    ensures
        luby_iter((2u64, 1u64, 2u64), luby_start(j) + t) == luby_block_state(j, t),
    decreases j, t,
{
    if t > 0 {
        lemma_luby_reaches(j, (t - 1) as nat);
        lemma_luby_step(j, (t - 1) as nat);
        assert(luby_start(j) + t == (luby_start(j) + (t - 1)) + 1);
    } else if j > 1 {
        let p = (j - 1) as nat;
        lemma_two_to_grows(j);
        lemma_two_to_pos((p - 1) as nat);
        assert(luby_len(p) >= 1);
        lemma_luby_reaches(p, (luby_len(p) - 1) as nat);
        lemma_luby_step(p, (luby_len(p) - 1) as nat);
        assert(p + 1 == j);
        assert(luby_start(j) == (luby_start(p) + (luby_len(p) - 1)) + 1);
    } else {
        assert(two_to(0) == 1);
        assert(luby_block_state(1, 0) == (2u64, 1u64, 2u64));
    }
}

/// The Luby sequence: from its first state `(2, 1, 2)`, the generator
/// yields block after block, block `j` (from 1) being `2^(j-1)` ones
/// followed by 2, 3, ..., `2^j`: 1, 2, 1, 1, 2, 3, 4, 1, 1, 1, 1, 2, ..., 8,
/// and so on, as long as the block's largest value can be doubled in `u64`.
pub proof fn lemma_luby_sequence(j: nat, t: nat)
    requires
        1 <= j,
        t < luby_len(j),
        two_to(j) <= u64::MAX / 2,
    ensures
        luby_iter((2u64, 1u64, 2u64), luby_start(j) + t).1 == luby_value(j, t),
{
    lemma_luby_reaches(j, t);
    let h = two_to((j - 1) as nat);
    assert(two_to(j) == 2 * h);
    lemma_two_to_pos((j - 1) as nat);
    assert(luby_len(j) == h + 2 * h - 1);
    if t >= h {
        assert(t - h + 2 <= u64::MAX);
        assert(luby_block_state(j, t).1 == (t - h + 2) as u64);
    }
}

/// At the end of a block, where `u`, `v` and `w` meet, the next block is
/// twice as long at its top: the generator moves to `(w + 1, 1, 2 w)`.
pub proof fn lemma_luby_block_doubles(w: u64)
    requires
        1 <= w <= u64::MAX / 2,
    ensures
        luby_next((w, w, w)) == ((w + 1) as u64, 1u64, (2 * w) as u64),
{
    assert(w.wrapping_add(1) == w + 1);
    assert(w.wrapping_mul(2) == w * 2);
}

} // verus!
