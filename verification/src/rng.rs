//! The pseudo-random numbers of the park: a xorshift generator for guest
//! seeds, and a seeded shuffle of the four neighbour directions.

use vstd::prelude::*;

verus! {

/// The state a zero seed is replaced by before it is stepped.
pub const ZERO_SEED_REPLACEMENT: u32 = 0x9E3779B9;

/// One xorshift step from state `s` (a zero state is first replaced).
pub open spec fn xorshift_next(s: u32) -> u32 {
    let x0: u32 = if s == 0 { ZERO_SEED_REPLACEMENT } else { s };
    let x1: u32 = x0 ^ (x0 << 13u32);
    let x2: u32 = x1 ^ (x1 >> 17u32);
    x2 ^ (x2 << 5u32)
}

/// Advances the generator state and returns the new value, which is also the new state.
pub fn xorshift(s: &mut u32) -> (r: u32)
    ensures
        r == xorshift_next(*old(s)),
        *final(s) == r,
        r != 0,
{
    let mut x = *s;
    if x == 0 {
        x = ZERO_SEED_REPLACEMENT;
    }
    let x0 = x;
    x ^= x << 13;
    let x1 = x;
    x ^= x >> 17;
    let x2 = x;
    x ^= x << 5;
    proof {
        lemma_xorshift_nonzero(*old(s));
        assert(x1 == x0 ^ (x0 << 13u32));
    }
    *s = x;
    x
}

/// A xorshift step never yields zero.
pub proof fn lemma_xorshift_nonzero(s: u32)
    ensures
        xorshift_next(s) != 0,
{
    let x0: u32 = if s == 0 { ZERO_SEED_REPLACEMENT } else { s };
    let x1: u32 = x0 ^ (x0 << 13u32);
    let x2: u32 = x1 ^ (x1 >> 17u32);
    assert(x0 != 0);
    assert(x0 != 0 ==> x0 ^ (x0 << 13u32) != 0) by (bit_vector);
    assert(x1 != 0 ==> x1 ^ (x1 >> 17u32) != 0) by (bit_vector);
    assert(x2 != 0 ==> x2 ^ (x2 << 5u32) != 0) by (bit_vector);
}

/// The four unit steps, in their unshuffled order: right, left, down, up.
pub open spec fn base_dirs() -> Seq<(i32, i32)> {
    seq![(1i32, 0i32), (-1i32, 0i32), (0i32, 1i32), (0i32, -1i32)]
}

/// `d` is one of the four unit steps.
pub open spec fn is_unit(d: (i32, i32)) -> bool {
    ||| d == (1i32, 0i32)
    ||| d == (-1i32, 0i32)
    ||| d == (0i32, 1i32)
    ||| d == (0i32, -1i32)
}

/// `a` lists each of the four unit steps, and nothing else.
pub open spec fn valid_dirs(a: Seq<(i32, i32)>) -> bool {
    &&& a.len() == 4
    &&& forall|k: int| 0 <= k < 4 ==> is_unit(#[trigger] a[k])
    &&& a.contains((1i32, 0i32))
    &&& a.contains((-1i32, 0i32))
    &&& a.contains((0i32, 1i32))
    &&& a.contains((0i32, -1i32))
}

/// One step of the linear congruential generator that drives the shuffle.
pub open spec fn lcg(s: u32) -> u32 {
    vstd::wrapping::u32_specs::wrapping_add(
        vstd::wrapping::u32_specs::wrapping_mul(s, 1664525u32),
        1013904223u32,
    )
}

/// `a` with the entries at `i` and `j` exchanged.
pub open spec fn swapped(a: Seq<(i32, i32)>, i: int, j: int) -> Seq<(i32, i32)> {
    a.update(i, a[j]).update(j, a[i])
}

/// The Fisher-Yates passes for positions `i` down to 1, each drawing from a fresh step of `s`.
pub open spec fn shuffle_down(a: Seq<(i32, i32)>, s: u32, i: nat) -> Seq<(i32, i32)>
    decreases i,
{
    if i == 0 {
        a
    } else {
        let s2 = lcg(s);
        let j = (s2 as nat) % (i + 1);
        shuffle_down(swapped(a, i as int, j as int), s2, (i - 1) as nat)
    }
}

/// The neighbour order used by a guest whose seed is `seed`.
#[verifier::opaque]
pub open spec fn shuffled(seed: u32) -> Seq<(i32, i32)> {
    shuffle_down(base_dirs(), if seed == 0 { ZERO_SEED_REPLACEMENT } else { seed }, 3)
}

proof fn lemma_swap_valid(a: Seq<(i32, i32)>, i: int, j: int)
    requires
        valid_dirs(a),
        0 <= i < 4,
        0 <= j < 4,
    ensures
        valid_dirs(swapped(a, i, j)),
{
    let b = swapped(a, i, j);
    assert forall|k: int| 0 <= k < 4 implies is_unit(#[trigger] b[k]) by {
        if k == j {
        } else if k == i {
        } else {
            assert(b[k] == a[k]);
        }
    }
    assert forall|d: (i32, i32)| a.contains(d) implies b.contains(d) by {
        let k = choose|k: int| 0 <= k < a.len() && a[k] == d;
        if k == i {
            assert(b[j] == d);
        } else if k == j {
            assert(b[i] == d);
        } else {
            assert(b[k] == d);
        }
    }
}

proof fn lemma_shuffle_down_valid(a: Seq<(i32, i32)>, s: u32, i: nat)
    requires
        valid_dirs(a),
        i < 4,
    ensures
        valid_dirs(shuffle_down(a, s, i)),
    decreases i,
{
    if i > 0 {
        let s2 = lcg(s);
        let j = (s2 as nat) % (i + 1);
        lemma_swap_valid(a, i as int, j as int);
        lemma_shuffle_down_valid(swapped(a, i as int, j as int), s2, (i - 1) as nat);
    }
}

/// Whatever the seed, the shuffled order is a permutation of the four unit steps.
pub proof fn lemma_shuffled_valid(seed: u32)
    ensures
        valid_dirs(shuffled(seed)),
{
    reveal(shuffled);
    let b = base_dirs();
    assert(b[0] == (1i32, 0i32));
    assert(b[1] == (-1i32, 0i32));
    assert(b[2] == (0i32, 1i32));
    assert(b[3] == (0i32, -1i32));
    assert(valid_dirs(b));
    lemma_shuffle_down_valid(b, if seed == 0 { ZERO_SEED_REPLACEMENT } else { seed }, 3);
}

/// The unshuffled order lists the four unit steps.
pub proof fn lemma_base_valid()
    ensures
        valid_dirs(base_dirs()),
{
    let b = base_dirs();
    assert(b[0] == (1i32, 0i32));
    assert(b[1] == (-1i32, 0i32));
    assert(b[2] == (0i32, 1i32));
    assert(b[3] == (0i32, -1i32));
}

/// The four unit steps in their unshuffled order.
pub fn base_neighbors() -> (a: Vec<(i32, i32)>)
    ensures
        a@ == base_dirs(),
        valid_dirs(a@),
{
    let a: Vec<(i32, i32)> = vec![(1, 0), (-1, 0), (0, 1), (0, -1)];
    proof {
        lemma_base_valid();
        assert(a@ =~= base_dirs());
    }
    a
}

/// Deterministic Fisher-Yates shuffle of the four grid neighbours, driven by a
/// per-guest seed so that each guest breaks ties consistently but differently.
pub fn shuffled_neighbors(seed: u32) -> (a: Vec<(i32, i32)>)
    ensures
        a@ == shuffled(seed),
        valid_dirs(a@),
{
    proof { reveal(shuffled); }
    let mut a = base_neighbors();
    let mut s: u32 = if seed == 0 { ZERO_SEED_REPLACEMENT } else { seed };
    let mut i: usize = 3;
    while i > 0
        invariant
            i <= 3,
            shuffle_down(a@, s, i as nat) == shuffled(seed),
            a@.len() == 4,
        decreases i,
    {
        s = s.wrapping_mul(1664525).wrapping_add(1013904223);
        let j = (s as usize) % (i + 1);
        let ghost prev = a@;
        let ai = a[i];
        let aj = a[j];
        a.set(i, aj);
        a.set(j, ai);
        proof {
            assert(a@ =~= swapped(prev, i as int, j as int));
        }
        i -= 1;
    }
    proof { lemma_shuffled_valid(seed); }
    a
}

} // verus!
