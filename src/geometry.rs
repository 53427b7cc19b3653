//! Cache geometry: the descriptor, its derived bit widths, and the split of
//! an address into tag, set index and offset.
use vstd::arithmetic::power2::*;
use vstd::bits::*;
use vstd::prelude::*;

verus! {

/// Eviction strategy applied when a miss finds its set full.
#[derive(Clone, Copy, Debug, PartialEq, Eq, Structural)]
pub enum Strategy {
    /// Evict the line whose occupant was used least recently.
    LRU,
    /// Evict the line whose occupant was used least often.
    LFU,
    /// Always refill the first line of the set.
    First,
}

/// Geometry and policy of a simulated cache.
#[derive(Clone, Copy, Debug, PartialEq, Eq, Structural)]
pub struct CacheDesc {
    /// Width of an address in bits.
    pub addr_size: u64,
    /// Width of the block offset in bits.
    pub block_size: u64,
    /// Number of physical cache lines.
    pub n_blocks: u64,
    /// Number of lines per set.
    pub assoc: u64,
    /// Eviction strategy.
    pub strat: Strategy,
}

/// `floor(log2(n))`, with `log2_floor(0) == 0`.
pub open spec fn log2_floor(n: nat) -> nat
    decreases n,
{
    if n < 2 {
        0
    } else {
        1 + log2_floor(n / 2)
    }
}

/// The largest power of two not above `n` is `pow2(log2_floor(n))`.
pub proof fn lemma_log2_floor_bounds(n: nat)
    requires
        n >= 1,
    ensures
        pow2(log2_floor(n)) <= n < 2 * pow2(log2_floor(n)),
        log2_floor(n) < 64 || n >= 0x1_0000_0000_0000_0000,
    decreases n,
{
    reveal(pow2);
    if n < 2 {
        lemma2_to64();
    } else {
        lemma_log2_floor_bounds(n / 2);
        lemma_pow2_unfold(log2_floor(n));
        if log2_floor(n) >= 64 {
            if log2_floor(n) > 64 {
                lemma_pow2_strictly_increases(64, log2_floor(n));
            }
            lemma2_to64_rest();
        }
    }
}

/// `x >> s` for any shift amount; shifts of 64 bits or more give 0.
fn shift_right(x: u64, s: u64) -> (r: u64)
    ensures
        r == x as nat / pow2(s as nat),
{
    if s >= 64 {
        proof {
            lemma2_to64_rest();
            if s > 64 {
                lemma_pow2_strictly_increases(64, s as nat);
            }
            vstd::arithmetic::div_mod::lemma_basic_div(x as int, pow2(s as nat) as int);
        }
        0
    } else {
        proof {
            lemma_u64_shr_is_div(x, s);
        }
        x >> s
    }
}

/// `x` reduced to its low `bits` bits, for any width.
fn low_bits(x: u64, bits: u64) -> (r: u64)
    ensures
        r == x as nat % pow2(bits as nat),
{
    if bits >= 64 {
        proof {
            lemma2_to64_rest();
            if bits > 64 {
                lemma_pow2_strictly_increases(64, bits as nat);
            }
            vstd::arithmetic::div_mod::lemma_small_mod(x as nat, pow2(bits as nat));
        }
        x
    } else {
        proof {
            lemma_u64_pow2_no_overflow(bits as nat);
            lemma_u64_shl_is_mul(1, bits);
        }
        x % (1u64 << bits)
    }
}

impl CacheDesc {
    /// The number of sets.
    pub open spec fn spec_n_sets(self) -> nat {
        (self.n_blocks / self.assoc) as nat
    }

    /// Width of the set index in bits: `floor(log2(n_sets))`.
    pub open spec fn spec_idx_bits(self) -> nat {
        log2_floor(self.spec_n_sets())
    }

    /// Width of the tag in bits: what the offset and the index leave of an address.
    pub open spec fn spec_tag_bits(self) -> int {
        self.addr_size - self.block_size - self.spec_idx_bits()
    }

    /// A descriptor the simulation can run on: at least one set, whole sets
    /// only, a line table that fits in memory, and bit fields that fit in
    /// the address width.
    pub open spec fn wf(self) -> bool {
        &&& self.assoc > 0
        &&& self.n_blocks >= self.assoc
        &&& self.n_blocks % self.assoc == 0
        &&& self.n_blocks <= usize::MAX
        &&& self.block_size + self.spec_idx_bits() <= self.addr_size
    }

    /// The set that `addr` maps to: bits `block_size ..
    /// block_size + idx_bits` of the address.
    pub open spec fn set_of(self, addr: u64) -> nat {
        (addr as nat / pow2(self.block_size as nat)) % pow2(self.spec_idx_bits())
    }

    /// The tag of `addr`: bits `block_size + idx_bits .. addr_size` of the address.
    pub open spec fn tag_of(self, addr: u64) -> nat {
        (addr as nat / pow2((self.block_size + self.spec_idx_bits()) as nat)) % pow2(
            self.spec_tag_bits() as nat,
        )
    }

    /// Builds a descriptor from its five parameters, as given; see
    /// [`CacheDesc::is_valid`] for the condition the simulation needs.
    pub fn new(addr_size: u64, block_size: u64, n_blocks: u64, assoc: u64, strat: Strategy) -> (r:
        CacheDesc)
        ensures
            r == (CacheDesc { addr_size, block_size, n_blocks, assoc, strat }),
    {
        CacheDesc { addr_size, block_size, n_blocks, assoc, strat }
    }

    /// The number of sets, `n_blocks / assoc`.
    pub fn n_sets(&self) -> (r: u64)
        requires
            self.assoc > 0,
        ensures
            r == self.spec_n_sets(),
    {
        self.n_blocks / self.assoc
    }

    /// Width of the set index in bits, `floor(log2(n_sets))`.
    pub fn idx_bits(&self) -> (r: u64)
        requires
            self.assoc > 0,
        ensures
            r == self.spec_idx_bits(),
    {
        let mut m: u64 = self.n_sets();
        let mut bits: u64 = 0;
        while m >= 2
            invariant
                bits + log2_floor(m as nat) == self.spec_idx_bits(),
                bits + m <= u64::MAX,
            decreases m,
        {
            m = m / 2;
            bits = bits + 1;
        }
        bits
    }

    /// Width of the tag in bits, `addr_size - block_size - idx_bits`.
    pub fn tag_bits(&self) -> (r: u64)
        requires
            self.wf(),
        ensures
            r == self.spec_tag_bits(),
    {
        self.addr_size - self.block_size - self.idx_bits()
    }

    /// A well-formed descriptor has `n_sets * assoc == n_blocks` sets of lines, at least one.
    pub proof fn lemma_sets(self)
        requires
            self.wf(),
        ensures
            self.spec_n_sets() >= 1,
            self.spec_n_sets() * self.assoc == self.n_blocks,
    {
        let n = self.n_blocks as int;
        let a = self.assoc as int;
        vstd::arithmetic::div_mod::lemma_fundamental_div_mod(n, a);
        assert(n / a >= 1) by (nonlinear_arith)
            requires
                n >= a > 0,
        ;
    }

    /// The set that `addr` maps to, `(addr >> block_size) & ((1 << idx_bits) - 1)`.
    pub fn set_index(&self, addr: u64) -> (r: u64)
        requires
            self.wf(),
        ensures
            r == self.set_of(addr),
            r < self.spec_n_sets(),
    {
        proof {
            self.lemma_sets();
            lemma_log2_floor_bounds(self.spec_n_sets());
            lemma_pow2_pos(self.spec_idx_bits());
        }
        low_bits(shift_right(addr, self.block_size), self.idx_bits())
    }

    /// The tag of `addr`, `addr >> (block_size + idx_bits)` cut to `tag_bits` bits.
    pub fn addr_tag(&self, addr: u64) -> (r: u64)
        requires
            self.wf(),
        ensures
            r == self.tag_of(addr),
    {
        low_bits(shift_right(addr, self.block_size + self.idx_bits()), self.tag_bits())
    }

    /// Whether the simulation can run on this descriptor.
    pub fn is_valid(&self) -> (r: bool)
        ensures
            r == self.wf(),
    {
        if self.assoc == 0 || self.n_blocks < self.assoc || self.n_blocks % self.assoc != 0 {
            return false;
        }
        if self.n_blocks as u128 > usize::MAX as u128 {
            return false;
        }
        let idx_bits = self.idx_bits();
        self.block_size as u128 + idx_bits as u128 <= self.addr_size as u128
    }
}

} // verus!
