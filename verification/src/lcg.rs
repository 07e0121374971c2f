//! Deterministic random source: a linear congruential generator with the
//! Numerical Recipes parameters, seeded with 1.
//!
//! Every draw is an integer state in `[0, 2^32)`; the number in `[0, 1)`
//! that the layout consumes is that state divided by `2^32`.

use vstd::prelude::*;

verus! {

/// Multiplier of the generator.
pub const LCG_A: u64 = 1_664_525;

/// Increment of the generator.
pub const LCG_C: u64 = 1_013_904_223;

/// Modulus of the generator, `2^32`.
pub const LCG_M: u64 = 4_294_967_296;

/// One step of the generator: `(a * s + c) mod m`.
pub open spec fn lcg_step(s: nat) -> nat {
    ((LCG_A * s + LCG_C) % (LCG_M as int)) as nat
}

/// The state after `k` draws from the seed `1`.
pub open spec fn lcg_state(k: nat) -> nat
    decreases k,
{
    if k == 0 {
        1
    } else {
        lcg_step(lcg_state((k - 1) as nat))
    }
}

/// The generator itself.
#[derive(Debug)]
pub struct Lcg {
    s: u64,
}

impl View for Lcg {
    type V = nat;

    /// The current state.
    closed spec fn view(&self) -> nat {
        self.s as nat
    }
}

impl Lcg {
    #[verifier::type_invariant]
    closed spec fn inv(self) -> bool {
        self.s < LCG_M
    }

    /// A generator at the seed `1`.
    pub fn new() -> (r: Lcg)
        ensures
            r@ == lcg_state(0),
    {
        Lcg { s: 1 }
    }

    /// Advance the generator and return the new state; the number in
    /// `[0, 1)` it stands for is that state divided by [`LCG_M`].
    pub fn next(&mut self) -> (v: u64)
        ensures
            final(self)@ == lcg_step(old(self)@),
            v as nat == final(self)@,
            v < LCG_M,
    {
        proof {
            use_type_invariant(&*self);
        }
        let s = (LCG_A * self.s + LCG_C) % LCG_M;
        self.s = s;
        s
    }
}

impl Clone for Lcg {
    fn clone(&self) -> (r: Lcg)
        ensures
            r@ == self@,
    {
        proof {
            use_type_invariant(self);
        }
        Lcg { s: self.s }
    }
}

impl Default for Lcg {
    fn default() -> (r: Lcg)
        ensures
            r@ == lcg_state(0),
    {
        Lcg::new()
    }
}

/// Every state of the stream lies in `[0, m)`, so every number it yields
/// lies in `[0, 1)`.
pub proof fn lcg_state_below_modulus(k: nat)
    ensures
        lcg_state(k) < LCG_M,
{
    if k > 0 {
        assert(lcg_state(k) == lcg_step(lcg_state((k - 1) as nat)));
    }
}

} // verus!
