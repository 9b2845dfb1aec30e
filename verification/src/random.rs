use vstd::prelude::*;

verus! {

/// One step of the linear congruential generator: `69069 * c + 12345 (mod 2^32)`.
pub open spec fn lcg_step(c: u32) -> u32 {
    ((69069 * c + 12345) % 0x1_0000_0000) as u32
}

/// The generator's state after `n` steps from the state `s`.
pub open spec fn lcg_iter(s: u32, n: nat) -> u32
    decreases n,
{
    if n == 0 {
        s
    } else {
        lcg_step(lcg_iter(s, (n - 1) as nat))
    }
}

/// `gens` is a run of one generator made from `seed`: its first entry is
/// `SimpleRandom::new(seed)` and each next entry is the generator after
/// one more `next_u32` (whose draw is that entry's state).
pub open spec fn seeded_run(gens: Seq<SimpleRandom>, seed: u32) -> bool {
    &&& gens.len() > 0
    &&& gens[0].state() == seed
    &&& forall|k: int| 0 < k < gens.len() ==> #[trigger] gens[k].state() == lcg_step(gens[k - 1].state())
}

/// Seeded 32-bit linear congruential generator.
#[derive(Debug, Clone, Copy, PartialEq, Eq, Structural)]
pub struct SimpleRandom {
    cong: u32,
}

impl SimpleRandom {
    /// The generator's current state, which is also the last value it produced.
    pub closed spec fn state(self) -> u32 {
        self.cong
    }

    pub fn new(seed: u32) -> (r: Self)
        ensures
            r.state() == seed,
    {
        Self { cong: seed }
    }

    /// Advances the generator one step and returns the new state.
    pub fn next_u32(&mut self) -> (v: u32)
        ensures
            v == lcg_step(old(self).state()),
            final(self).state() == v,
    {
        self.cong = 69_069_u32.wrapping_mul(self.cong).wrapping_add(12_345);
        proof {
            let c = old(self).cong as int;
            let m = vstd::wrapping::u32_specs::wrapping_mul(69_069u32, old(self).cong) as int;
            assert(m == (69069 * c) % 0x1_0000_0000);
            vstd::arithmetic::div_mod::lemma_add_mod_noop(69069 * c, 12345, 0x1_0000_0000);
            vstd::arithmetic::div_mod::lemma_mod_twice(12345, 0x1_0000_0000);
        }
        self.cong
    }

    /// Largest value the generator can return.
    pub fn maximum() -> (m: u32)
        ensures
            m == u32::MAX,
    {
        u32::MAX
    }
}

/// The draws of a generator depend on its seed alone: in any run of a
/// generator made from `seed`, the state after `k` draws (which is the
/// `k`-th draw) is `lcg_iter(seed, k)`; so two generators made from the same
/// seed give the same first `n` draws, for every `n`.
pub proof fn lemma_draws_follow_seed(gens: Seq<SimpleRandom>, gens2: Seq<SimpleRandom>, seed: u32)
    requires
        seeded_run(gens, seed),
        seeded_run(gens2, seed),
    ensures
        forall|k: int| 0 <= k < gens.len() ==> #[trigger] gens[k].state() == lcg_iter(seed, k as nat),
        forall|k: int|
            0 <= k < gens.len() && k < gens2.len() ==> #[trigger] gens[k].state()
                == #[trigger] gens2[k].state(),
{
    lemma_run_states(gens, seed, gens.len() as int);
    lemma_run_states(gens2, seed, gens2.len() as int);
}

proof fn lemma_run_states(gens: Seq<SimpleRandom>, seed: u32, n: int)
    requires
        seeded_run(gens, seed),
        0 <= n <= gens.len(),
    ensures
        forall|k: int| 0 <= k < n ==> #[trigger] gens[k].state() == lcg_iter(seed, k as nat),
    decreases n,
{
    if n > 0 {
        lemma_run_states(gens, seed, n - 1);
        let k = n - 1;
        if k > 0 {
            assert(gens[k].state() == lcg_step(gens[k - 1].state()));
            assert(lcg_iter(seed, k as nat) == lcg_step(lcg_iter(seed, (k - 1) as nat)));
        }
    }
}

} // verus!
