use vstd::prelude::*;
use vstd::seq_lib::lemma_multiset_commutative;

verus! {

/// Unity's `UnityEngine.Random` generator: xorshift128 over four 32-bit words.
#[derive(Debug, Clone, Copy)]
pub struct UnityRandom {
    x: u32,
    y: u32,
    z: u32,
    w: u32,
}

/// The generator state (x, y, z, w).
pub type RandState = (u32, u32, u32, u32);

impl View for UnityRandom {
    type V = RandState;

    closed spec fn view(&self) -> RandState {
        (self.x, self.y, self.z, self.w)
    }
}

/// One step of Unity's seeding recurrence: v * 1812433253 + 1 (mod 2^32).
pub open spec fn seed_next(v: u32) -> u32 {
    v.wrapping_mul(1812433253).wrapping_add(1)
}

/// The state produced by `InitState(seed)`; a zero seed is replaced by 1.
pub open spec fn spec_init(seed: i32) -> RandState {
    let s = seed as u32;
    let x: u32 = if s == 0 { 1 } else { s };
    let y = seed_next(x);
    let z = seed_next(y);
    let w = seed_next(z);
    (x, y, z, w)
}

/// One xorshift128 step; the new `w` is also the number drawn.
pub open spec fn spec_step(st: RandState) -> RandState {
    let (x, y, z, w) = st;
    let t: u32 = x ^ (x << 11u32);
    let nw: u32 = (w ^ (w >> 19u32)) ^ (t ^ (t >> 8u32));
    (y, z, w, nw)
}

/// The number drawn by one step from `st`.
pub open spec fn spec_draw(st: RandState) -> u32 {
    spec_step(st).3
}

/// The value `RandomRangeInt(min, max)` returns when the next draw is taken from `st`.
pub open spec fn spec_range_int(st: RandState, min: i32, max: i32) -> int {
    if min >= max {
        min as int
    } else {
        min + (spec_draw(st) as int) % (max - min)
    }
}

/// `RandomRangeInt(min, max)` is defined without overflow.
pub open spec fn range_int_ok(min: i32, max: i32) -> bool {
    min >= max || max - min <= i32::MAX
}

/// Exchange positions `i` and `j` of `s`.
pub open spec fn seq_swap<T>(s: Seq<T>, i: int, j: int) -> Seq<T> {
    s.update(i, s[j]).update(j, s[i])
}

/// Fisher-Yates from position `i` on: returns the final generator state and sequence.
pub open spec fn spec_shuffle_from<T>(st: RandState, s: Seq<T>, i: nat) -> (RandState, Seq<T>)
    decreases s.len() - i,
{
    if i >= s.len() {
        (st, s)
    } else {
        let j = i + (spec_draw(st) as int) % (s.len() - i);
        spec_shuffle_from(spec_step(st), seq_swap(s, i as int, j), i + 1)
    }
}

impl UnityRandom {
    pub fn new(seed: i32) -> (rng: UnityRandom)
        ensures
            rng@ == spec_init(seed),
    {
        let mut rng = UnityRandom { x: 0, y: 0, z: 0, w: 0 };
        rng.init_state(seed);
        rng
    }

    /// Reseeds the generator as Unity's `Random.InitState(seed)` does.
    pub fn init_state(&mut self, seed: i32)
        ensures
            final(self)@ == spec_init(seed),
    {
        let s = seed as u32;
        self.x = if s == 0 { 1 } else { s };
        self.y = self.x.wrapping_mul(1812433253).wrapping_add(1);
        self.z = self.y.wrapping_mul(1812433253).wrapping_add(1);
        self.w = self.z.wrapping_mul(1812433253).wrapping_add(1);
    }

    pub fn next_u32(&mut self) -> (r: u32)
        ensures
            final(self)@ == spec_step(old(self)@),
            r == spec_draw(old(self)@),
    {
        let t = self.x ^ (self.x << 11u32);
        self.x = self.y;
        self.y = self.z;
        self.z = self.w;
        self.w = (self.w ^ (self.w >> 19u32)) ^ (t ^ (t >> 8u32));
        self.w
    }

    /// The 23 low bits of the next draw: the integer behind Unity's `Random.value`,
    /// which is `1.0 - bits / 8388607.0`.
    pub fn value_bits(&mut self) -> (r: u32)
        ensures
            final(self)@ == spec_step(old(self)@),
            r == spec_draw(old(self)@) & 0x007F_FFFFu32,
            r <= 0x007F_FFFF,
    {
        let raw = self.next_u32();
        assert(raw & 0x007F_FFFFu32 <= 0x007F_FFFFu32) by (bit_vector);
        raw & 0x007F_FFFFu32
    }

    /// A number in `[min, max)`; `min` itself, without drawing, when `min >= max`.
    pub fn range_int(&mut self, min: i32, max: i32) -> (r: i32)
        requires
            range_int_ok(min, max),
        ensures
            r as int == spec_range_int(old(self)@, min, max),
            min >= max ==> final(self)@ == old(self)@,
            min < max ==> final(self)@ == spec_step(old(self)@),
    {
        if min >= max {
            return min;
        }
        let diff = (max - min) as u64;
        let raw = self.next_u32();
        let r = (raw as u64) % diff;
        min + r as i32
    }

    /// Fisher-Yates shuffle: for each i, swaps position i with a position drawn from `[i, len)`.
    pub fn shuffle<T>(&mut self, slice: &mut [T])
        requires
            old(slice)@.len() <= i32::MAX,
        ensures
            (final(self)@, final(slice)@) == spec_shuffle_from(old(self)@, old(slice)@, 0),
    {
        let len = slice.len();
        let mut i: usize = 0;
        while i < len
            invariant
                0 <= i <= len,
                len == slice@.len(),
                len <= i32::MAX,
                spec_shuffle_from(self@, slice@, i as nat) == spec_shuffle_from(
                    old(self)@,
                    old(slice)@,
                    0,
                ),
            decreases len - i,
        {
            let ghost st = self@;
            let ghost s = slice@;
            let num = self.range_int(i as i32, len as i32) as usize;
            if num < len {
                slice.swap(i, num);
            }
            assert(slice@ =~= seq_swap(s, i as int, num as int));
            i = i + 1;
        }
    }
}

/// Rust's `<[T]>::swap`: exchanges the elements at `a` and `b`; panics when either is
/// out of bounds, which `requires` rules out.
pub assume_specification<E>[ <[E]>::swap ](slice: &mut [E], a: usize, b: usize)
    requires
        a < old(slice)@.len(),
        b < old(slice)@.len(),
    ensures
        final(slice)@ == old(slice)@.update(a as int, old(slice)@[b as int]).update(
            b as int,
            old(slice)@[a as int],
        ),
;

/// `RandomRangeInt(min, max)` lies in `[min, max)` whenever the range is non-empty.
pub proof fn lemma_range_int_bounds(st: RandState, min: i32, max: i32)
    requires
        min < max,
    ensures
        min <= spec_range_int(st, min, max) < max,
{
}

/// Seeds 0 and 1 produce the same generator state.
pub proof fn lemma_zero_seed_is_one()
    ensures
        spec_init(0) == spec_init(1),
{
}

/// Exchanging two positions keeps the multiset of elements.
pub proof fn lemma_swap_preserves_multiset<T>(s: Seq<T>, i: int, j: int)
    requires
        0 <= i < s.len(),
        0 <= j < s.len(),
    ensures
        seq_swap(s, i, j).to_multiset() == s.to_multiset(),
{
    if i == j {
        assert(seq_swap(s, i, j) =~= s);
    } else {
        let lo = if i < j { i } else { j };
        let hi = if i < j { j } else { i };
        let t = seq_swap(s, i, j);
        let a = s.take(lo);
        let m = s.subrange(lo + 1, hi);
        let c = s.skip(hi + 1);
        assert(s =~= a + seq![s[lo]] + m + seq![s[hi]] + c);
        assert(t =~= a + seq![s[hi]] + m + seq![s[lo]] + c);
        lemma_multiset_commutative(a + seq![s[lo]] + m + seq![s[hi]], c);
        lemma_multiset_commutative(a + seq![s[lo]] + m, seq![s[hi]]);
        lemma_multiset_commutative(a + seq![s[lo]], m);
        lemma_multiset_commutative(a, seq![s[lo]]);
        lemma_multiset_commutative(a + seq![s[hi]] + m + seq![s[lo]], c);
        lemma_multiset_commutative(a + seq![s[hi]] + m, seq![s[lo]]);
        lemma_multiset_commutative(a + seq![s[hi]], m);
        lemma_multiset_commutative(a, seq![s[hi]]);
        assert(t.to_multiset() =~= s.to_multiset());
    }
}

/// The shuffle only permutes: the result holds the same elements with the same multiplicities.
pub proof fn lemma_shuffle_is_permutation<T>(st: RandState, s: Seq<T>, i: nat)
    ensures
        spec_shuffle_from(st, s, i).1.to_multiset() == s.to_multiset(),
        spec_shuffle_from(st, s, i).1.len() == s.len(),
    decreases s.len() - i,
{
    if i < s.len() {
        let j = i + (spec_draw(st) as int) % (s.len() - i);
        lemma_swap_preserves_multiset(s, i as int, j);
        lemma_shuffle_is_permutation(spec_step(st), seq_swap(s, i as int, j), i + 1);
    }
}

} // verus!
