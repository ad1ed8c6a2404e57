//! The seeded permutation table behind the terrain noise, and the lattice
//! hash that reads it. Sampling the noise itself is floating-point work and
//! is done by the game around this table.

use vstd::prelude::*;

verus! {

broadcast use vstd::seq_lib::group_to_multiset_ensures;

/// One xorshift32 step: `x ^= x << 13; x ^= x >> 17; x ^= x << 5`.
pub open spec fn xorshift(state: u32) -> u32 {
    let a = state ^ (state << 13u32);
    let b = a ^ (a >> 17u32);
    b ^ (b << 5u32)
}

/// The generator's starting state: the seed, with 0 (a fixed point of
/// xorshift) replaced by a fixed non-zero constant.
pub open spec fn start_state(seed: u32) -> u32 {
    if seed == 0 {
        0xA3C5_9AC3u32
    } else {
        seed
    }
}

/// The generator state after `steps` steps.
pub open spec fn state_after(seed: u32, steps: nat) -> u32
    decreases steps,
{
    if steps == 0 {
        start_state(seed)
    } else {
        xorshift(state_after(seed, (steps - 1) as nat))
    }
}

/// `0, 1, ..., 255`.
pub open spec fn identity_table() -> Seq<u8> {
    Seq::new(256, |i: int| i as u8)
}

pub open spec fn swap(s: Seq<u8>, i: int, j: int) -> Seq<u8> {
    s.update(i, s[j]).update(j, s[i])
}

/// The table after the first `steps` swaps of a Fisher-Yates shuffle that
/// walks the index down from 255; swap number `k` exchanges index `256 - k`
/// with the generator's `k`-th output modulo `257 - k`.
pub open spec fn shuffled(seed: u32, steps: nat) -> Seq<u8>
    decreases steps,
{
    if steps == 0 {
        identity_table()
    } else {
        let index = 256 - steps;
        let target = (state_after(seed, steps) % ((index + 1) as u32)) as int;
        swap(shuffled(seed, (steps - 1) as nat), index, target)
    }
}

/// The 512-entry table: the shuffled 256 values, twice over, so lookups of
/// `index + 1` never need wrapping.
pub open spec fn permutation_table(seed: u32) -> Seq<u8> {
    Seq::new(512, |i: int| shuffled(seed, 255)[i % 256])
}

pub struct PerlinNoise {
    permutation: Vec<u8>,
}

impl View for PerlinNoise {
    type V = Seq<u8>;

    closed spec fn view(&self) -> Seq<u8> {
        self.permutation@
    }
}

proof fn lemma_shuffled_len(seed: u32, steps: nat)
    requires
        steps <= 255,
    ensures
        shuffled(seed, steps).len() == 256,
    decreases steps,
{
    if steps > 0 {
        lemma_shuffled_len(seed, (steps - 1) as nat);
    }
}

impl PerlinNoise {
    #[verifier::type_invariant]
    spec fn wf(self) -> bool {
        self.permutation@.len() == 512
    }

    /// The noise table for `seed`.
    pub fn new(seed: u32) -> (noise: Self)
        ensures
            noise@ == permutation_table(seed),
    {
        let mut values: Vec<u8> = Vec::new();
        let mut index: usize = 0;
        while index < 256
            invariant
                index <= 256,
                values@ == identity_table().take(index as int),
            decreases 256 - index,
        {
            values.push(index as u8);
            index = index + 1;
            assert(values@ =~= identity_table().take(index as int));
        }
        assert(values@ =~= identity_table());

        let mut state: u32 = if seed == 0 {
            0xA3C5_9AC3
        } else {
            seed
        };
        let mut index: usize = 255;
        while index >= 1
            invariant
                index <= 255,
                values@ == shuffled(seed, (255 - index) as nat),
                state == state_after(seed, (255 - index) as nat),
            decreases index,
        {
            proof {
                lemma_shuffled_len(seed, (255 - index) as nat);
            }
            state = state ^ (state << 13u32);
            state = state ^ (state >> 17u32);
            state = state ^ (state << 5u32);
            let target: usize = (state % ((index + 1) as u32)) as usize;
            let a = values[index];
            let b = values[target];
            values.set(index, b);
            values.set(target, a);
            index = index - 1;
        }

        let mut permutation: Vec<u8> = Vec::new();
        let mut i: usize = 0;
        proof {
            lemma_shuffled_len(seed, 255);
        }
        while i < 512
            invariant
                i <= 512,
                values@ == shuffled(seed, 255),
                values@.len() == 256,
                permutation@ == permutation_table(seed).take(i as int),
            decreases 512 - i,
        {
            permutation.push(values[i % 256]);
            i = i + 1;
            assert(permutation@ =~= permutation_table(seed).take(i as int));
        }
        assert(permutation@ =~= permutation_table(seed));
        PerlinNoise { permutation }
    }

    /// Lattice hash of the cell `(x, y)`: the table entry at
    /// `table[x mod 256] + y`, taken modulo 256.
    pub fn hash(&self, x: i32, y: i32) -> (h: u8)
        ensures
            self@.len() == 512,
            h == self@[(self@[(x as u32 % 256) as int] as int + y as u32 as int) % 256],
    {
        proof {
            use_type_invariant(self);
        }
        let first: u32 = self.permutation[(x as u32 % 256) as usize] as u32;
        let second: u32 = first.wrapping_add(y as u32) % 256;
        proof {
            assert(second as int == (first as int + y as u32 as int) % 256) by {
                assert(0x1_0000_0000int % 256 == 0);
            }
        }
        self.permutation[second as usize]
    }
}

proof fn lemma_swap_multiset(s: Seq<u8>, i: int, j: int)
    requires
        0 <= i < s.len(),
        0 <= j < s.len(),
    ensures
        swap(s, i, j).to_multiset() == s.to_multiset(),
{
    broadcast use vstd::seq_lib::to_multiset_update;
    broadcast use vstd::multiset::group_multiset_axioms;

    let s1 = s.update(i, s[j]);
    assert(s1.to_multiset() == s.to_multiset().insert(s[j]).remove(s[i]));
    assert(s1[j] == s[j]);
    assert(swap(s, i, j).to_multiset() == s1.to_multiset().insert(s[i]).remove(s[j]));
    assert(s.to_multiset().count(s[i]) > 0) by {
        assert(s.contains(s[i]));
    }
    assert(swap(s, i, j).to_multiset() =~= s.to_multiset());
}

proof fn lemma_shuffled_multiset(seed: u32, steps: nat)
    requires
        steps <= 255,
    ensures
        shuffled(seed, steps).len() == 256,
        shuffled(seed, steps).to_multiset() == identity_table().to_multiset(),
    decreases steps,
{
    if steps > 0 {
        lemma_shuffled_multiset(seed, (steps - 1) as nat);
        let index = 256 - steps;
        let target = (state_after(seed, steps) % ((index + 1) as u32)) as int;
        lemma_swap_multiset(shuffled(seed, (steps - 1) as nat), index, target);
    }
}

/// The table for any seed is a permutation of `0..=255` followed by the same
/// permutation again: each byte value occurs exactly once in the first half,
/// and the second half repeats the first.
pub proof fn lemma_table_is_a_doubled_permutation(seed: u32)
    ensures
        permutation_table(seed).len() == 512,
        permutation_table(seed).take(256).to_multiset() == identity_table().to_multiset(),
        forall|i: int|
            256 <= i < 512 ==> #[trigger] permutation_table(seed)[i] == permutation_table(seed)[i
                - 256],
{
    let table = permutation_table(seed);
    let half = shuffled(seed, 255);
    lemma_shuffled_multiset(seed, 255);
    assert forall|i: int| 0 <= i < 256 implies #[trigger] table.take(256)[i] == half[i] by {
        assert(i % 256 == i);
    }
    assert(table.take(256) =~= half);
    assert forall|i: int| 256 <= i < 512 implies #[trigger] table[i] == table[i - 256] by {
        assert(i % 256 == i - 256);
        assert((i - 256) % 256 == i - 256);
    }
}

} // verus!
