//! The seeded permutation table of the simplex noise generator.
//!
//! A seed is stretched by a linear congruential generator into a shuffle of
//! the numbers below [`PSIZE`]: from the last place of the table down to the
//! first, a number is drawn from those not yet placed. The table then gives
//! every lattice point a place in itself, by which the generator picks the
//! point's gradient.
use vstd::prelude::*;

verus! {

/// The size of the table.
pub const PSIZE: usize = 2048;

/// The seed after one step of the generator. The arithmetic wraps.
pub open spec fn next_seed(seed: i64) -> i64 {
    seed.wrapping_mul(6364136223846793005i64).wrapping_add(1442695040888963407i64)
}

/// The index drawn for place `i`: among the `i + 1` numbers left.
pub open spec fn pick(seed: i64, i: int) -> int {
    (seed.wrapping_add(31i64) as int) % (i + 1)
}

/// The shuffle at some moment.
pub struct Shuffle {
    /// The seed as it stands.
    pub seed: i64,
    /// The numbers not yet placed stand at its front.
    pub source: Seq<i16>,
    /// The table: its places from some place upwards are filled.
    pub perm: Seq<i16>,
}

/// The shuffle before the first draw: every number is left, nothing is
/// placed.
pub open spec fn shuffle_start(seed: i64) -> Shuffle {
    Shuffle {
        seed,
        source: Seq::new(PSIZE as nat, |v: int| v as i16),
        perm: Seq::new(PSIZE as nat, |v: int| 0i16),
    }
}

/// One draw: the seed steps, place `i` gets the number drawn, and the last
/// number left takes the place of the one drawn.
pub open spec fn shuffle_step(s: Shuffle, i: int) -> Shuffle {
    let seed = next_seed(s.seed);
    let r = pick(seed, i);
    Shuffle { seed, source: s.source.update(r, s.source[i]), perm: s.perm.update(i, s.source[r]) }
}

/// The shuffle after `steps` draws, which fill the places from the last
/// one downwards.
pub open spec fn shuffled(seed: i64, steps: nat) -> Shuffle
    decreases steps,
{
    if steps == 0 {
        shuffle_start(seed)
    } else {
        shuffle_step(shuffled(seed, (steps - 1) as nat), PSIZE - steps)
    }
}

/// The table for a seed.
pub open spec fn permutation_of(seed: i64) -> Seq<i16> {
    shuffled(seed, PSIZE as nat).perm
}

/// Whether `v` is among the numbers left or among those placed, when the
/// places from `i` upwards are filled.
pub open spec fn occurs(s: Shuffle, i: int, v: int) -> bool {
    (exists|j: int| 0 <= j < i && #[trigger] s.source[j] == v) || (exists|k: int|
        i <= k < PSIZE && #[trigger] s.perm[k] == v)
}

/// What holds while the places from `i` upwards are filled: the numbers
/// left and the numbers placed are, together, each number below the size
/// once.
pub open spec fn shuffle_inv(s: Shuffle, i: int) -> bool {
    &&& 0 <= i <= PSIZE
    &&& s.source.len() == PSIZE
    &&& s.perm.len() == PSIZE
    &&& forall|j: int| 0 <= j < i ==> 0 <= #[trigger] s.source[j] < PSIZE
    &&& forall|k: int| i <= k < PSIZE ==> 0 <= #[trigger] s.perm[k] < PSIZE
    &&& forall|j: int, k: int| 0 <= j < k < i ==> #[trigger] s.source[j] != #[trigger] s.source[k]
    &&& forall|j: int, k: int|
        i <= j < k < PSIZE ==> #[trigger] s.perm[j] != #[trigger] s.perm[k]
    &&& forall|j: int, k: int|
        0 <= j < i <= k < PSIZE ==> #[trigger] s.source[j] != #[trigger] s.perm[k]
    &&& forall|v: int| 0 <= v < PSIZE ==> #[trigger] occurs(s, i, v)
}

/// Whether `v` stands somewhere in `table`.
pub open spec fn holds(table: Seq<i16>, v: int) -> bool {
    exists|k: int| 0 <= k < table.len() && #[trigger] table[k] == v
}

/// Whether `table` holds each number below the size exactly once.
pub open spec fn is_permutation(table: Seq<i16>) -> bool {
    &&& table.len() == PSIZE
    &&& forall|k: int| 0 <= k < PSIZE ==> 0 <= #[trigger] table[k] < PSIZE
    &&& forall|j: int, k: int| 0 <= j < k < PSIZE ==> #[trigger] table[j] != #[trigger] table[k]
    &&& forall|v: int| 0 <= v < PSIZE ==> #[trigger] holds(table, v)
}

/// Before the first draw every number is left.
pub proof fn lemma_start_inv(seed: i64)
    ensures
        shuffle_inv(shuffle_start(seed), PSIZE as int),
{
    let s = shuffle_start(seed);
    assert forall|v: int| 0 <= v < PSIZE implies #[trigger] occurs(s, PSIZE as int, v) by {
        assert(s.source[v] == v);
    }
}

/// A draw for place `i - 1` keeps every number once.
pub proof fn lemma_step_inv(s: Shuffle, i: int)
    requires
        shuffle_inv(s, i),
        i > 0,
    ensures
        shuffle_inv(shuffle_step(s, i - 1), i - 1),
        0 <= pick(next_seed(s.seed), i - 1) <= i - 1,
{
    let at = i - 1;
    let next = shuffle_step(s, at);
    let r = pick(next_seed(s.seed), at);
    assert(0 <= r <= at);
    assert forall|j: int| 0 <= j < at implies 0 <= #[trigger] next.source[j] < PSIZE by {
        assert(0 <= s.source[j] < PSIZE);
        assert(0 <= s.source[at] < PSIZE);
    }
    assert forall|k: int| at <= k < PSIZE implies 0 <= #[trigger] next.perm[k] < PSIZE by {
        if k == at {
            assert(0 <= s.source[r] < PSIZE);
        } else {
            assert(0 <= s.perm[k] < PSIZE);
        }
    }
    assert forall|j: int, k: int| 0 <= j < k < at implies #[trigger] next.source[j]
        != #[trigger] next.source[k] by {
        assert(s.source[j] != s.source[k]);
        assert(s.source[j] != s.source[at]);
        assert(s.source[k] != s.source[at]);
    }
    assert forall|j: int, k: int| at <= j < k < PSIZE implies #[trigger] next.perm[j]
        != #[trigger] next.perm[k] by {
        if j == at {
            assert(s.source[r] != s.perm[k]);
        } else {
            assert(s.perm[j] != s.perm[k]);
        }
    }
    assert forall|j: int, k: int| 0 <= j < at <= k < PSIZE implies #[trigger] next.source[j]
        != #[trigger] next.perm[k] by {
        if k == at {
            if j == r {
                assert(s.source[at] != s.source[r]);
            } else {
                assert(s.source[j] != s.source[r]);
            }
        } else {
            assert(s.source[j] != s.perm[k]);
            assert(s.source[at] != s.perm[k]);
        }
    }
    assert forall|v: int| 0 <= v < PSIZE implies #[trigger] occurs(next, at, v) by {
        assert(occurs(s, i, v));
        if exists|j: int| 0 <= j < i && #[trigger] s.source[j] == v {
            let j = choose|j: int| 0 <= j < i && #[trigger] s.source[j] == v;
            if j == r {
                assert(next.perm[at] == v);
            } else if j == at {
                assert(next.source[r] == v);
            } else {
                assert(next.source[j] == v);
            }
        } else {
            let k = choose|k: int| i <= k < PSIZE && #[trigger] s.perm[k] == v;
            assert(next.perm[k] == v);
        }
    }
}

/// After any number of draws every number is there once.
pub proof fn lemma_shuffled_inv(seed: i64, steps: nat)
    requires
        steps <= PSIZE,
    ensures
        shuffle_inv(shuffled(seed, steps), PSIZE - steps),
    decreases steps,
{
    if steps == 0 {
        lemma_start_inv(seed);
    } else {
        lemma_shuffled_inv(seed, (steps - 1) as nat);
        lemma_step_inv(shuffled(seed, (steps - 1) as nat), PSIZE - steps + 1);
    }
}

/// Whatever the seed, the table holds each number below the size exactly
/// once.
pub proof fn law_table_is_permutation(seed: i64)
    ensures
        is_permutation(permutation_of(seed)),
{
    lemma_shuffled_inv(seed, PSIZE as nat);
    let s = shuffled(seed, PSIZE as nat);
    let table = permutation_of(seed);
    assert forall|v: int| 0 <= v < PSIZE implies #[trigger] holds(table, v) by {
        assert(occurs(s, 0, v));
    }
}

/// The table for `seed`.
pub fn seeded_permutation(seed: i64) -> (perm: Vec<i16>)
    ensures
        perm@ == permutation_of(seed),
        is_permutation(perm@),
{
    let mut source: Vec<i16> = Vec::with_capacity(PSIZE);
    let mut perm: Vec<i16> = Vec::with_capacity(PSIZE);
    let mut v: i16 = 0;
    while v < 2048
        invariant
            0 <= v <= 2048,
            source@.len() == v,
            perm@.len() == v,
            forall|j: int| 0 <= j < v ==> source@[j] == j,
            forall|j: int| 0 <= j < v ==> perm@[j] == 0,
        decreases 2048 - v,
    {
        source.push(v);
        perm.push(0);
        v += 1;
    }
    assert(source@ =~= shuffle_start(seed).source);
    assert(perm@ =~= shuffle_start(seed).perm);
    let mut seed_now = seed;
    let mut i: usize = PSIZE;
    while i > 0
        invariant
            0 <= i <= PSIZE,
            shuffled(seed, (PSIZE - i) as nat) == (Shuffle {
                seed: seed_now,
                source: source@,
                perm: perm@,
            }),
        decreases i,
    {
        proof {
            lemma_shuffled_inv(seed, (PSIZE - i) as nat);
            lemma_step_inv(shuffled(seed, (PSIZE - i) as nat), i as int);
        }
        i -= 1;
        seed_now = seed_now.wrapping_mul(6364136223846793005i64).wrapping_add(
            1442695040888963407i64,
        );
        let drawn = seed_now.wrapping_add(31i64).checked_rem_euclid(i as i64 + 1);
        let r = drawn.unwrap() as usize;
        let taken = source[r];
        let last = source[i];
        perm.set(i, taken);
        source.set(r, last);
    }
    proof {
        law_table_is_permutation(seed);
    }
    perm
}

/// The mask that folds a lattice coordinate into the table.
pub const PMASK: i32 = 2047;

/// A lattice coordinate folded into the table: its lowest eleven bits.
pub open spec fn folded(x: i32) -> i16 {
    (x & 2047i32) as i16
}

/// The place in the table for a point of the plane: the entry for the first
/// coordinate, mixed with the second.
pub open spec fn place2(table: Seq<i16>, x: i32, y: i32) -> i16 {
    table[folded(x) as int] ^ folded(y)
}

/// The place in the table for a point of space: the entry at the place of
/// its first two coordinates, mixed with the third.
pub open spec fn place3(table: Seq<i16>, x: i32, y: i32, z: i32) -> i16 {
    table[place2(table, x, y) as int] ^ folded(z)
}

/// The place in the table for a point of four dimensions: the entry at the
/// place of its first three coordinates, mixed with the fourth.
pub open spec fn place4(table: Seq<i16>, x: i32, y: i32, z: i32, w: i32) -> i16 {
    table[place3(table, x, y, z) as int] ^ folded(w)
}

/// Folding and mixing stay inside the table.
proof fn lemma_mix_bits(entry: i16, x: i32)
    by (bit_vector)
    requires
        0 <= entry < 2048,
    ensures
        0 <= (x & 2047i32) < 2048,
        0 <= ((x & 2047i32) as i16) < 2048,
        0 <= (entry ^ ((x & 2047i32) as i16)) < 2048,
{
}

/// The permutation table of one seed, with the places that it gives to
/// lattice points.
pub struct PermTable {
    perm: Vec<i16>,
}

impl View for PermTable {
    type V = Seq<i16>;

    closed spec fn view(&self) -> Seq<i16> {
        self.perm@
    }
}

impl Clone for PermTable {
    fn clone(&self) -> (res: Self)
        ensures
            res@ == self@,
    {
        proof {
            use_type_invariant(self);
        }
        let perm = self.perm.clone();
        assert(perm@ =~= self.perm@);
        PermTable { perm }
    }
}

impl PermTable {
    #[verifier::type_invariant]
    spec fn inv(self) -> bool {
        is_permutation(self.perm@)
    }

    /// The table for `seed`.
    pub fn new(seed: i64) -> (res: Self)
        ensures
            res@ == permutation_of(seed),
    {
        PermTable { perm: seeded_permutation(seed) }
    }

    /// The entries of the table, which hold each number below the size once.
    pub fn entries(&self) -> (res: &Vec<i16>)
        ensures
            res@ == self@,
            is_permutation(self@),
    {
        proof {
            use_type_invariant(self);
        }
        &self.perm
    }

    /// The place for a point of the plane. It lies inside the table.
    pub fn index2(&self, x: i32, y: i32) -> (res: usize)
        ensures
            res == place2(self@, x, y),
            res < PSIZE,
    {
        proof {
            use_type_invariant(self);
            lemma_mix_bits(0, x);
            lemma_mix_bits(self.perm@[folded(x) as int], y);
        }
        let px = (x & PMASK) as usize;
        let py = (y & PMASK) as i16;
        (self.perm[px] ^ py) as usize
    }

    /// The place for a point of space. It lies inside the table.
    pub fn index3(&self, x: i32, y: i32, z: i32) -> (res: usize)
        ensures
            res == place3(self@, x, y, z),
            res < PSIZE,
    {
        let at = self.index2(x, y);
        proof {
            use_type_invariant(self);
            lemma_mix_bits(self.perm@[at as int], z);
        }
        let pz = (z & PMASK) as i16;
        (self.perm[at] ^ pz) as usize
    }

    /// The place for a point of four dimensions. It lies inside the table.
    pub fn index4(&self, x: i32, y: i32, z: i32, w: i32) -> (res: usize)
        ensures
            res == place4(self@, x, y, z, w),
            res < PSIZE,
    {
        let at = self.index3(x, y, z);
        proof {
            use_type_invariant(self);
            lemma_mix_bits(self.perm@[at as int], w);
        }
        let pw = (w & PMASK) as i16;
        (self.perm[at] ^ pw) as usize
    }
}

} // verus!
