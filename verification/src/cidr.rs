//! The CIDR range splitter: recursive halving of an IPv4 block down to
//! singleton addresses, the coverage/disjointness law, and the trusted
//! parser for CIDR-shaped tokens.

use vstd::prelude::*;
use vstd::arithmetic::power2::{
    lemma2_to64, lemma_pow2_adds, lemma_pow2_pos, lemma_pow2_strictly_increases, pow2,
};
use vstd::arithmetic::div_mod::lemma_fundamental_div_mod;
use vstd::seq_lib::lemma_flatten_concat;
use crate::block_size;

verus! {

/// An IPv4 block: a prefix (as the 32-bit address value) and a bit length.
#[derive(Clone, Copy, PartialEq, Eq, Structural, Debug)]
pub struct CidrRange {
    pub prefix: u32,
    pub bits: u8,
}

/// `block_size` is exactly the power of two it counts.
pub proof fn lemma_block_size_pow2(bits: int)
    requires
        0 <= bits <= 32,
    ensures
        block_size(bits) == pow2((32 - bits) as nat),
    decreases 32 - bits,
{
    if bits == 32 {
        lemma2_to64();
    } else {
        lemma_block_size_pow2(bits + 1);
        lemma_pow2_adds(1, (31 - bits) as nat);
        lemma2_to64();
    }
}

/// Bounds for `block_size` over the legal bit lengths.
pub proof fn lemma_block_size_bounds(bits: int)
    requires
        0 <= bits <= 32,
    ensures
        1 <= block_size(bits),
        block_size(bits) <= 0x1_0000_0000,
        bits >= 1 ==> block_size(bits) <= 0x8000_0000,
{
    lemma_block_size_pow2(bits);
    lemma_pow2_pos((32 - bits) as nat);
    lemma2_to64();
    if bits > 1 {
        lemma_pow2_strictly_increases((32 - bits) as nat, 31);
    }
    if bits > 0 {
        lemma_pow2_strictly_increases((32 - bits) as nat, 32);
    }
}

impl CidrRange {
    /// Well-formed: a legal bit length, and the whole block fits inside the
    /// 32-bit address space. The low prefix bits need not be zero: the
    /// splitter tolerates non-canonical ranges, as long as the block they
    /// start does not run past the last address.
    pub open spec fn wf(self) -> bool {
        &&& self.bits <= 32
        &&& self.prefix as int + block_size(self.bits as int) <= 0x1_0000_0000
    }

    /// The concrete addresses the block covers, in ascending order:
    /// exactly [prefix, prefix + 2^(32-bits)).
    pub open spec fn addr_seq(self) -> Seq<int> {
        Seq::new(block_size(self.bits as int) as nat, |i: int| self.prefix + i)
    }

    /// The upper half of a split: same prefix, one bit longer.
    pub open spec fn upper_half(self) -> CidrRange {
        CidrRange { prefix: self.prefix, bits: (self.bits + 1) as u8 }
    }

    /// The lower half of a split: the half-block's address count added to
    /// the prefix, one bit longer.
    pub open spec fn lower_half(self) -> CidrRange {
        CidrRange {
            prefix: (self.prefix + block_size(self.bits as int + 1)) as u32,
            bits: (self.bits + 1) as u8,
        }
    }

    /// The two halves of a split partition the parent exactly: their
    /// address sequences concatenate to the parent's, with no overlap and
    /// no gap.
    pub proof fn lemma_split_partition(self)
        requires
            self.wf(),
            self.bits < 32,
        ensures
            self.upper_half().wf(),
            self.lower_half().wf(),
            self.upper_half().addr_seq() + self.lower_half().addr_seq() == self.addr_seq(),
    {
        let b = self.bits as int;
        lemma_block_size_bounds(b);
        lemma_block_size_bounds(b + 1);
        assert(block_size(b) == 2 * block_size(b + 1)) by {
            lemma_block_size_pow2(b);
            lemma_block_size_pow2(b + 1);
            lemma_pow2_adds(1, (31 - b) as nat);
            lemma2_to64();
        }
        assert(self.upper_half().addr_seq() + self.lower_half().addr_seq() =~= self.addr_seq());
    }
}

/// Computes 2^(32 - bits) exactly.
pub fn block_size_u64(bits: u8) -> (r: u64)
    requires
        bits <= 32,
    ensures
        r as int == block_size(bits as int),
{
    let mut r: u64 = 1;
    let mut i: u8 = 32;
    proof {
        lemma_block_size_pow2(32);
        lemma2_to64();
    }
    while i > bits
        invariant
            bits <= i <= 32,
            r as int == block_size(i as int),
        decreases i,
    {
        proof {
            lemma_block_size_bounds(i as int);
            lemma_block_size_bounds(i as int - 1);
            assert(block_size(i as int - 1) == 2 * block_size(i as int)) by {
                lemma_block_size_pow2(i as int);
                lemma_block_size_pow2(i as int - 1);
                lemma_pow2_adds(1, (32 - i) as nat);
                lemma2_to64();
            }
        }
        r = r * 2;
        i = i - 1;
    }
    r
}

impl CidrRange {
    /// Recursive halving, one level: a singleton (bit length 32) is a leaf
    /// and comes back alone; anything coarser splits into its upper half
    /// and lower half, which partition it exactly.
    pub fn split(&self) -> (r: (CidrRange, Option<CidrRange>))
        requires
            self.wf(),
        ensures
            self.bits == 32 ==> r == (*self, None::<CidrRange>),
            self.bits < 32 ==> r == (self.upper_half(), Some(self.lower_half())),
            self.bits < 32 ==> self.upper_half().wf() && self.lower_half().wf()
                && self.upper_half().addr_seq() + self.lower_half().addr_seq()
                == self.addr_seq(),
    {
        if self.bits == 32 {
            return (*self, None);
        }
        proof {
            self.lemma_split_partition();
        }
        let newbits = self.bits + 1;
        let half = block_size_u64(newbits);
        let lower_prefix = self.prefix + (half as u32);
        (
            CidrRange { prefix: self.prefix, bits: newbits },
            Some(CidrRange { prefix: lower_prefix, bits: newbits }),
        )
    }

    /// The concrete addresses of the block, ascending: 2^(32-bits) of them,
    /// starting at the prefix.
    pub fn addresses(&self) -> (r: Vec<u32>)
        requires
            self.wf(),
        ensures
            r@.len() == self.addr_seq().len(),
            forall|i: int| 0 <= i < r@.len() ==> r@[i] as int == self.addr_seq()[i],
    {
        let count = block_size_u64(self.bits);
        let mut r: Vec<u32> = Vec::new();
        let mut i: u64 = 0;
        while i < count
            invariant
                self.wf(),
                0 <= i <= count,
                count as int == block_size(self.bits as int),
                r@.len() == i,
                forall|j: int| 0 <= j < i ==> r@[j] as int == self.prefix + j,
            decreases count - i,
        {
            r.push(((self.prefix as u64) + i) as u32);
            i = i + 1;
        }
        r
    }
}

/// The leaves of the full recursive split: every /32 under the range, in
/// ascending order.
pub open spec fn leaves(r: CidrRange) -> Seq<CidrRange>
    decreases 32 - r.bits,
{
    if r.bits >= 32 {
        seq![r]
    } else {
        leaves(r.upper_half()) + leaves(r.lower_half())
    }
}

/// The addresses of all leaves, in leaf order.
pub open spec fn leaves_addrs(r: CidrRange) -> Seq<int> {
    leaves(r).map_values(|c: CidrRange| c.addr_seq()).flatten()
}

/// Coverage and disjointness of the full recursion: the leaves are all
/// singletons, and their addresses, concatenated in leaf order, are exactly
/// the parent's ascending address sequence [prefix, prefix + 2^(32-bits)) —
/// every address once, none missed, none repeated.
pub proof fn lemma_leaves_cover(r: CidrRange)
    requires
        r.wf(),
    ensures
        forall|i: int|
            0 <= i < leaves(r).len() ==> (#[trigger] leaves(r)[i]).bits == 32 && leaves(r)[i].wf(),
        leaves_addrs(r) == r.addr_seq(),
    decreases 32 - r.bits,
{
    if r.bits == 32 {
        assert(leaves(r) =~= seq![r]);
        assert(leaves(r).map_values(|c: CidrRange| c.addr_seq()) =~= seq![r.addr_seq()]);
        leaves(r).map_values(|c: CidrRange| c.addr_seq()).lemma_flatten_one_element();
    } else {
        let u = r.upper_half();
        let l = r.lower_half();
        r.lemma_split_partition();
        lemma_leaves_cover(u);
        lemma_leaves_cover(l);
        let f = |c: CidrRange| c.addr_seq();
        assert(leaves(r).map_values(f) =~= leaves(u).map_values(f) + leaves(l).map_values(f));
        lemma_flatten_concat(leaves(u).map_values(f), leaves(l).map_values(f));
        assert(leaves_addrs(r) == leaves_addrs(u) + leaves_addrs(l));
    }
}

/// One level of halving doubles into the parent's size.
pub proof fn lemma_block_size_halves(b: int)
    requires
        0 <= b < 32,
    ensures
        block_size(b) == 2 * block_size(b + 1),
{
    lemma_block_size_pow2(b);
    lemma_block_size_pow2(b + 1);
    lemma_pow2_adds(1, (31 - b) as nat);
    lemma2_to64();
}

/// The full recursion produces one leaf per covered address.
pub proof fn lemma_leaves_len(r: CidrRange)
    requires
        r.wf(),
    ensures
        leaves(r).len() == block_size(r.bits as int),
    decreases 32 - r.bits,
{
    if r.bits < 32 {
        r.lemma_split_partition();
        lemma_leaves_len(r.upper_half());
        lemma_leaves_len(r.lower_half());
        lemma_block_size_halves(r.bits as int);
    }
}

/// The i-th leaf of the full recursion is the singleton at prefix + i.
pub proof fn lemma_leaf_at(r: CidrRange, i: int)
    requires
        r.wf(),
        0 <= i < block_size(r.bits as int),
    ensures
        leaves(r)[i] == (CidrRange { prefix: (r.prefix + i) as u32, bits: 32 }),
    decreases 32 - r.bits,
{
    lemma_leaves_len(r);
    if r.bits == 32 {
    } else {
        let u = r.upper_half();
        let l = r.lower_half();
        r.lemma_split_partition();
        lemma_leaves_len(u);
        lemma_leaves_len(l);
        lemma_block_size_halves(r.bits as int);
        let half = block_size(r.bits as int + 1);
        if i < half {
            lemma_leaf_at(u, i);
        } else {
            lemma_leaf_at(l, i - half);
        }
    }
}

impl CidrRange {
    /// The full recursive split, collected in order: one singleton per
    /// covered address. Each recursive half is an independent unit of work;
    /// collecting both sides here is their sequential composition.
    pub fn singletons(&self) -> (r: Vec<CidrRange>)
        requires
            self.wf(),
        ensures
            r@ == leaves(*self),
        decreases 32 - self.bits,
    {
        if self.bits == 32 {
            let mut v: Vec<CidrRange> = Vec::new();
            v.push(*self);
            proof {
                assert(v@ =~= leaves(*self));
            }
            return v;
        }
        let (upper, lower_opt) = self.split();
        let lower = match lower_opt {
            Some(l) => l,
            None => upper,
        };
        let mut v = upper.singletons();
        let mut w = lower.singletons();
        v.append(&mut w);
        proof {
            assert(v@ =~= leaves(*self));
        }
        v
    }
}

/// What the CIDR parser makes of a token: the (prefix, bit length) pair for
/// a CIDR-shaped token, or nothing. Named, not spelled out: the accepted
/// grammar (dotted quads, partial prefixes, slash-bit and slash-mask forms)
/// belongs to the parsing crate.
pub uninterp spec fn cidr_parse_of(s: Seq<char>) -> Option<(u32, u8)>;

/// Relies on cidr_utils' `Ipv4Cidr::from_str` (with its `get_prefix` and
/// `get_bits` accessors): parsing depends on the token's characters alone;
/// a parsed CIDR always carries a bit length of at most 32 and a prefix
/// masked down to it, so the prefix is a multiple of the block size.
#[verifier::external_body]
pub(crate) fn parse_cidr(s: &str) -> (r: Option<(u32, u8)>)
    ensures
        r == cidr_parse_of(s@),
        r is Some ==> (r->0).1 <= 32 && ((r->0).0 as int) % block_size((r->0).1 as int) == 0,
{
    match cidr_utils::cidr::Ipv4Cidr::from_str(s) {
        Ok(c) => Some((c.get_prefix(), c.get_bits())),
        Err(_) => None,
    }
}

/// A prefix that is a multiple of its block size starts a block that fits:
/// the parsed form of a CIDR token is always well-formed.
pub proof fn lemma_masked_prefix_wf(p: u32, b: u8)
    requires
        b <= 32,
        (p as int) % block_size(b as int) == 0,
    ensures
        (CidrRange { prefix: p, bits: b }).wf(),
{
    let bs = block_size(b as int);
    let pw = pow2(b as nat) as int;
    lemma_block_size_bounds(b as int);
    assert(bs * pw == 0x1_0000_0000) by {
        lemma_block_size_pow2(b as int);
        lemma_pow2_adds((32 - b) as nat, b as nat);
        lemma2_to64();
    }
    lemma_pow2_pos(b as nat);
    lemma_fundamental_div_mod(p as int, bs);
    let k = (p as int) / bs;
    assert(p as int == bs * k);
    assert(bs * k < bs * pw);
    assert(k < pw) by (nonlinear_arith)
        requires
            bs * k < bs * pw,
            bs > 0,
    ;
    assert(bs * k <= bs * (pw - 1)) by (nonlinear_arith)
        requires
            k <= pw - 1,
            bs > 0,
    ;
    assert(bs * (pw - 1) == bs * pw - bs) by (nonlinear_arith);
}

} // verus!
