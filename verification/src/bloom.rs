//! Bloom filter for membership checks where a false positive is safe.

use vstd::prelude::*;

verus! {

/// Bits that each key sets: ln(2) times the bits per key.
pub const PROBES: u32 = 7;

/// Bits that are set aside for each key, about one false positive in a hundred.
pub const BITS_PER_KEY: u64 = 10;

/// Whether `size` is the least power of two that is at least one word of 64
/// bits and holds `BITS_PER_KEY` bits for each of `n_keys` keys.
pub open spec fn is_filter_size(size: nat, n_keys: nat) -> bool {
    &&& exists|e: nat| 6 <= e < 64 && size == #[trigger] vstd::arithmetic::power2::pow2(e)
    &&& size >= n_keys * BITS_PER_KEY
    &&& size == 64 || size < 2 * (n_keys * BITS_PER_KEY)
}

/// The step between the positions of `k`: its upper half, made odd.
pub open spec fn step(k: u64) -> nat {
    let upper = (k / 0x1_0000_0000) as nat;
    if upper % 2 == 1 {
        upper
    } else {
        upper + 1
    }
}

/// The `i`th position of `k` in a filter of `size` bits.
pub open spec fn position(k: u64, i: nat, size: nat) -> nat {
    ((k + i * step(k)) % size as int) as nat
}

/// The positions of `k` in a filter of `size` bits.
pub open spec fn positions(k: u64, size: nat) -> Set<nat> {
    Set::new(|p: nat| exists|i: nat| i < PROBES && p == #[trigger] position(k, i, size))
}

/// Whether a filter of `size` bits, those of `ones` set, answers "seen" for `k`.
pub open spec fn holds(ones: Set<nat>, size: nat, k: u64) -> bool {
    forall|i: nat| i < PROBES ==> ones.contains(#[trigger] position(k, i, size))
}

/// The bits that are set once `keys` went into an empty filter of `size` bits.
pub open spec fn after_inserts(keys: Seq<u64>, size: nat) -> Set<nat>
    decreases keys.len(),
{
    if keys.len() == 0 {
        Set::empty()
    } else {
        after_inserts(keys.drop_last(), size).union(positions(keys.last(), size))
    }
}

/// A filter that may answer "seen" for a key that was not inserted, and never
/// the reverse.
pub struct Bloom {
    bits: Vec<u64>,
    mask: u64,
}

spec fn bit(word: u64, i: u64) -> bool {
    word & (1u64 << i) != 0
}

impl Bloom {
    #[verifier::type_invariant]
    spec fn wf(self) -> bool {
        &&& self.mask < u64::MAX
        &&& self.bits.len() * 64 == self.mask + 1
        &&& exists|e: nat| 6 <= e < 64 && self.mask + 1 == #[trigger] vstd::arithmetic::power2::pow2(e)
    }

    /// The number of bits.
    pub closed spec fn size(self) -> nat {
        (self.mask + 1) as nat
    }
}

impl View for Bloom {
    type V = Set<nat>;

    /// The positions of the bits that are set.
    closed spec fn view(&self) -> Set<nat> {
        Set::new(|p: nat| p < self.size() && bit(self.bits[p as int / 64], (p % 64) as u64))
    }
}

/// Keeping the low bits is the remainder by the power of two.
proof fn lemma_mask_is_mod(x: u64, mask: u64, e: nat)
    requires
        e < 64,
        mask + 1 == vstd::arithmetic::power2::pow2(e),
    ensures
        x & mask == x as int % (mask + 1),
{
    vstd::bits::lemma_u64_low_bits_mask_is_mod(x, e);
    assert(vstd::bits::low_bits_mask(e) as u64 == mask);
    vstd::arithmetic::power2::lemma_pow2_strictly_increases(e, 64);
    vstd::arithmetic::power2::lemma2_to64();
    assert(vstd::arithmetic::power2::pow2(e) as u64 == mask + 1);
}

/// Reducing by 2^64 first does not change the remainder by a smaller power of two.
proof fn lemma_mod_word(x: int, size: nat, e: nat)
    requires
        e < 64,
        size == vstd::arithmetic::power2::pow2(e),
    ensures
        (x % 0x1_0000_0000_0000_0000) % size as int == x % size as int,
{
    vstd::arithmetic::power2::lemma_pow2_adds(e, (64 - e) as nat);
    vstd::arithmetic::power2::lemma2_to64_rest();
    vstd::arithmetic::power2::lemma_pow2_pos(e);
    vstd::arithmetic::power2::lemma_pow2_pos((64 - e) as nat);
    vstd::arithmetic::div_mod::lemma_mod_mod(
        x,
        size as int,
        vstd::arithmetic::power2::pow2((64 - e) as nat) as int,
    );
}

impl Bloom {
    /// An empty filter for `n_keys` keys.
    pub fn new(n_keys: u64) -> (r: Self)
        requires
            n_keys * BITS_PER_KEY <= 0x8000_0000_0000_0000,
            n_keys * BITS_PER_KEY <= 32 * usize::MAX,
        ensures
            r@ == Set::<nat>::empty(),
            is_filter_size(r.size(), n_keys as nat),
    {
        let wanted: u64 = n_keys * BITS_PER_KEY;
        let mut bits: u64 = 64;
        let ghost mut e: nat = 6;
        proof {
            vstd::arithmetic::power2::lemma2_to64();
            vstd::arithmetic::power2::lemma2_to64_rest();
        }
        while bits < wanted
            invariant
                6 <= e < 64,
                bits == vstd::arithmetic::power2::pow2(e),
                bits == 64 || bits < 2 * wanted,
                wanted <= 0x8000_0000_0000_0000,
                vstd::arithmetic::power2::pow2(63) == 0x8000_0000_0000_0000,
            decreases 64 - e,
        {
            proof {
                if e == 63 {
                    assert(false);
                }
                vstd::arithmetic::power2::lemma_pow2_unfold(e + 1);
                if e + 1 < 63 {
                    vstd::arithmetic::power2::lemma_pow2_strictly_increases(e + 1, 63);
                }
                e = e + 1;
            }
            bits = bits * 2;
        }
        assert(bits % 64 == 0) by {
            vstd::arithmetic::power2::lemma_pow2_adds(6, (e - 6) as nat);
            vstd::arithmetic::power2::lemma2_to64();
            vstd::arithmetic::div_mod::lemma_mod_multiples_basic(
                vstd::arithmetic::power2::pow2((e - 6) as nat) as int,
                64,
            );
        }
        let r = Bloom { bits: vec![0u64; (bits / 64) as usize], mask: bits - 1 };
        proof {
            assert forall|i: u64| !#[trigger] bit(0, i) by {
                assert(0u64 & (1u64 << i) == 0) by (bit_vector);
            }
            assert(r@ =~= Set::<nat>::empty());
            assert(r.size() == vstd::arithmetic::power2::pow2(e));
        }
        r
    }

    /// The `i`th position of `k`.
    fn pos(&self, k: u64, i: u32) -> (p: u64)
        ensures
            p == position(k, i as nat, self.size()),
            p < self.size(),
    {
        proof {
            use_type_invariant(self);
        }
        let step: u64 = (k >> 32) | 1;
        let p: u64 = k.wrapping_add((i as u64).wrapping_mul(step)) & self.mask;
        proof {
            let ghost e = choose|e: nat|
                6 <= e < 64 && self.mask + 1 == #[trigger] vstd::arithmetic::power2::pow2(e);
            assert(step == self::step(k)) by {
                assert((k >> 32) | 1 == if (k / 0x1_0000_0000) % 2 == 1 {
                    (k / 0x1_0000_0000) as int
                } else {
                    k / 0x1_0000_0000 + 1
                }) by (bit_vector);
            }
            let x = k as int + i as int * step as int;
            assert(k.wrapping_add((i as u64).wrapping_mul(step)) == x % 0x1_0000_0000_0000_0000) by {
                vstd::arithmetic::div_mod::lemma_add_mod_noop_right(
                    k as int,
                    i as int * step as int,
                    0x1_0000_0000_0000_0000,
                );
            }
            lemma_mask_is_mod(
                k.wrapping_add((i as u64).wrapping_mul(step)),
                self.mask,
                e,
            );
            lemma_mod_word(x, self.size(), e);
        }
        p
    }

    /// Marks `k` as seen.
    pub fn insert(&mut self, k: u64)
        ensures
            final(self).size() == old(self).size(),
            final(self)@ == old(self)@.union(positions(k, old(self).size())),
    {
        let ghost size = self.size();
        let ghost start = self@;
        let mut i: u32 = 0;
        while i < PROBES
            invariant
                i <= PROBES,
                self.size() == size,
                forall|p: nat| #[trigger] self@.contains(p) <==> start.contains(p) || exists|j: nat|
                    j < i && p == #[trigger] position(k, j, size),
            decreases PROBES - i,
        {
            let pos = self.pos(k, i);
            proof {
                use_type_invariant(&*self);
            }
            let ghost before = *self;
            let w: usize = (pos / 64) as usize;
            let b: u64 = pos % 64;
            let word: u64 = self.bits[w] | (1u64 << b);
            self.bits[w] = word;
            proof {
                let old_word = before.bits[w as int];
                assert forall|c: u64| c < 64 implies #[trigger] bit(word, c) == (bit(old_word, c) || c == b) by {
                    assert((old_word | (1u64 << b)) & (1u64 << c) != 0 <==> (old_word & (1u64 << c) != 0
                        || c == b)) by (bit_vector)
                        requires
                            b < 64,
                            c < 64,
                    ;
                }
                assert forall|p: nat| #[trigger] self@.contains(p) <==> before@.contains(p) || p == pos by {
                    if p < size {
                        if p as int / 64 == w {
                            assert(p == pos <==> (p % 64) as u64 == b);
                        }
                    }
                }
                assert forall|p: nat| #[trigger] self@.contains(p) <==> start.contains(p) || exists|j: nat|
                    j < i + 1 && p == #[trigger] position(k, j, size) by {
                    assert(before@.contains(p) <==> start.contains(p) || exists|j: nat|
                        j < i && p == #[trigger] position(k, j, size));
                    if p == pos {
                        assert(p == position(k, i as nat, size));
                    }
                }
            }
            i = i + 1;
        }
        assert(self@ =~= start.union(positions(k, size)));
    }

    /// Whether `k` was probably inserted; always true of a key that was.
    pub fn contains(&self, k: u64) -> (r: bool)
        ensures
            r == holds(self@, self.size(), k),
    {
        let mut i: u32 = 0;
        while i < PROBES
            invariant
                i <= PROBES,
                forall|j: nat| j < i ==> self@.contains(#[trigger] position(k, j, self.size())),
            decreases PROBES - i,
        {
            let pos = self.pos(k, i);
            proof {
                use_type_invariant(self);
            }
            if self.bits[(pos / 64) as usize] & (1u64 << (pos % 64)) == 0 {
                assert(!self@.contains(position(k, i as nat, self.size())));
                return false;
            }
            i = i + 1;
        }
        true
    }

    /// Marks `k` as seen and returns whether it probably was already.
    pub fn check_insert(&mut self, k: u64) -> (r: bool)
        ensures
            r == holds(old(self)@, old(self).size(), k),
            final(self).size() == old(self).size(),
            final(self)@ == old(self)@.union(positions(k, old(self).size())),
    {
        let present = self.contains(k);
        self.insert(k);
        present
    }
}

/// Inserting `j` makes the filter answer "seen" for `j`, and for every key for
/// which it did before.
pub proof fn insert_keeps_answers(ones: Set<nat>, size: nat, j: u64)
    ensures
        holds(ones.union(positions(j, size)), size, j),
        forall|k: u64| holds(ones, size, k) ==> #[trigger] holds(
            ones.union(positions(j, size)),
            size,
            k,
        ),
{
}

/// No false negatives: once `keys` were inserted, in any order and among any
/// others, the filter answers "seen" for each of them.
pub proof fn no_false_negatives(keys: Seq<u64>, size: nat, k: u64)
    requires
        keys.contains(k),
    ensures
        holds(after_inserts(keys, size), size, k),
    decreases keys.len(),
{
    insert_keeps_answers(after_inserts(keys.drop_last(), size), size, keys.last());
    if k != keys.last() {
        let i = choose|i: int| 0 <= i < keys.len() && keys[i] == k;
        assert(keys.drop_last()[i] == k);
        no_false_negatives(keys.drop_last(), size, k);
    }
}

/// An empty filter answers "seen" for no key.
pub proof fn empty_holds_nothing(size: nat, k: u64)
    ensures
        !holds(Set::<nat>::empty(), size, k),
{
    assert(!Set::<nat>::empty().contains(position(k, 0, size)));
}

/// The positions of a key start at the key and go on by its upper half, made odd,
/// all round the filter.
pub proof fn positions_go_by_steps(k: u64, i: nat, size: nat)
    requires
        size > 0,
    ensures
        position(k, 0, size) == k as int % size as int,
        position(k, i + 1, size) == (position(k, i, size) + 2 * (k / 0x2_0000_0000) + 1) % (
        size as int),
        position(k, i, size) < size,
{
    let s = step(k) as int;
    assert(s == 2 * (k / 0x2_0000_0000) + 1);
    let x = k as int + i as int * s;
    assert(k + (i + 1) as int * s == x + s) by (nonlinear_arith)
        requires
            x == k as int + i as int * s,
    ;
    assert(0 * s == 0);
    assert(i as int * s >= 0) by (nonlinear_arith)
        requires
            s >= 0,
    ;
    vstd::arithmetic::div_mod::lemma_mod_bound(x, size as int);
    vstd::arithmetic::div_mod::lemma_mod_bound(x + s, size as int);
    vstd::arithmetic::div_mod::lemma_mod_bound(k as int, size as int);
    vstd::arithmetic::div_mod::lemma_add_mod_noop_right(s, x, size as int);
}

/// A filter answers "seen" exactly if the bits at all seven positions are set, and
/// inserting a key sets those and no others.
pub proof fn seven_bits_decide(ones: Set<nat>, size: nat, k: u64)
    ensures
        holds(ones, size, k) <==> forall|i: nat| i < 7 ==> ones.contains(#[trigger] position(k, i, size)),
        holds(ones, size, k) <==> positions(k, size).subset_of(ones),
        forall|p: nat| #[trigger]
            positions(k, size).contains(p) <==> exists|i: nat| i < 7 && p == #[trigger] position(
                k,
                i,
                size,
            ),
{
    if positions(k, size).subset_of(ones) {
        assert forall|i: nat| i < 7 implies ones.contains(#[trigger] position(k, i, size)) by {
            assert(positions(k, size).contains(position(k, i, size)));
        }
    }
}

/// What is set are the bits of all keys that were inserted, whatever their order.
pub proof fn inserts_set_the_bits_of_keys(keys: Seq<u64>, size: nat, k: u64)
    ensures
        after_inserts(Seq::empty(), size) == Set::<nat>::empty(),
        after_inserts(keys.push(k), size) == after_inserts(keys, size).union(positions(k, size)),
        forall|p: nat| #[trigger]
            after_inserts(keys, size).contains(p) <==> exists|i: int|
                0 <= i < keys.len() && positions(#[trigger] keys[i], size).contains(p),
    decreases keys.len(),
{
    assert(keys.push(k).drop_last() =~= keys);
    if keys.len() > 0 {
        let less = keys.drop_last();
        let last = keys[keys.len() - 1];
        inserts_set_the_bits_of_keys(less, size, k);
        assert forall|p: nat| #[trigger] after_inserts(keys, size).contains(p) <==> exists|i: int|
            0 <= i < keys.len() && positions(#[trigger] keys[i], size).contains(p) by {
            assert(after_inserts(less, size).contains(p) <==> exists|i: int|
                0 <= i < less.len() && positions(#[trigger] less[i], size).contains(p));
            if after_inserts(less, size).contains(p) {
                let i = choose|i: int|
                    0 <= i < less.len() && positions(#[trigger] less[i], size).contains(p);
                assert(positions(keys[i], size).contains(p));
            }
            if exists|i: int| 0 <= i < keys.len() && positions(#[trigger] keys[i], size).contains(p) {
                let i = choose|i: int|
                    0 <= i < keys.len() && positions(#[trigger] keys[i], size).contains(p);
                if i < less.len() {
                    assert(positions(less[i], size).contains(p));
                } else {
                    assert(keys[i] == last);
                }
            }
            if positions(last, size).contains(p) {
                assert(positions(keys[keys.len() - 1], size).contains(p));
            }
        }
    }
}

/// A filter has ten bits or more for each key, in whole words, and its size is a
/// power of two; half of it would be too small or less than a word.
pub proof fn filters_have_ten_bits_per_key(size: nat, n_keys: nat)
    requires
        is_filter_size(size, n_keys),
    ensures
        size >= 10 * n_keys,
        size >= 64,
        size < 20 * n_keys || size == 64,
        exists|e: nat| size == #[trigger] vstd::arithmetic::power2::pow2(e),
{
    let e = choose|e: nat| 6 <= e < 64 && size == #[trigger] vstd::arithmetic::power2::pow2(e);
    vstd::arithmetic::power2::lemma2_to64();
    if e > 6 {
        vstd::arithmetic::power2::lemma_pow2_strictly_increases(6, e);
    }
}

} // verus!
