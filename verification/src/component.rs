//! Component identification: stable 64-bit ids derived from type names.

use vstd::prelude::*;
#[allow(unused_imports)]
use vstd::string::StringSliceAdditionalSpecFns;
use vstd::arithmetic::div_mod::{lemma_mul_mod_noop_left, lemma_mul_mod_noop_right, lemma_small_mod};
use vstd::arithmetic::mul::lemma_mul_is_associative;

verus! {

/// FNV-1a 64-bit offset basis.
pub const FNV_OFFSET_BASIS: u64 = 0xcbf29ce484222325u64;

/// FNV-1a 64-bit prime.
pub const FNV_PRIME: u64 = 0x100000001b3u64;

/// The MurmurHash3 finalizer applied to a 64-bit value.
pub open spec fn spec_fmix64(h0: u64) -> u64 {
    let h1 = h0 ^ (h0 >> 33u64);
    let h2 = h1.wrapping_mul(0xff51afd7ed558ccdu64);
    let h3 = h2 ^ (h2 >> 33u64);
    let h4 = h3.wrapping_mul(0xc4ceb9fe1a85ec53u64);
    h4 ^ (h4 >> 33u64)
}

/// FNV-1a mixing of a byte sequence, before finalization.
pub open spec fn spec_fnv1a_fold(bytes: Seq<u8>) -> u64
    decreases bytes.len(),
{
    if bytes.len() == 0 {
        FNV_OFFSET_BASIS
    } else {
        let prev = spec_fnv1a_fold(bytes.drop_last());
        (prev ^ (bytes.last() as u64)).wrapping_mul(FNV_PRIME)
    }
}

/// The full hash: FNV-1a followed by the MurmurHash3 finalizer.
pub open spec fn spec_fnv1a_64(bytes: Seq<u8>) -> u64 {
    spec_fmix64(spec_fnv1a_fold(bytes))
}

/// MurmurHash3-style finalizer: each input bit affects about half of the output bits.
pub fn fmix64(h: u64) -> (r: u64)
    ensures
        r == spec_fmix64(h),
{
    let mut h = h;
    h = h ^ (h >> 33u64);
    h = h.wrapping_mul(0xff51afd7ed558ccdu64);
    h = h ^ (h >> 33u64);
    h = h.wrapping_mul(0xc4ceb9fe1a85ec53u64);
    h = h ^ (h >> 33u64);
    h
}

/// Computes a well-distributed 64-bit hash of a byte slice:
/// FNV-1a for mixing followed by the MurmurHash3 finalizer.
pub fn const_fnv1a_64(bytes: &[u8]) -> (r: u64)
    ensures
        r == spec_fnv1a_64(bytes@),
{
    let mut hash: u64 = FNV_OFFSET_BASIS;
    let mut i: usize = 0;
    while i < bytes.len()
        invariant
            i <= bytes@.len(),
            hash == spec_fnv1a_fold(bytes@.subrange(0, i as int)),
        decreases bytes@.len() - i,
    {
        assert(bytes@.subrange(0, i as int + 1).drop_last() =~= bytes@.subrange(0, i as int));
        hash = (hash ^ (bytes[i] as u64)).wrapping_mul(FNV_PRIME);
        i = i + 1;
    }
    assert(bytes@.subrange(0, bytes@.len() as int) =~= bytes@);
    fmix64(hash)
}

/// Computes the hash of a string's UTF-8 bytes.
pub fn const_fnv1a_64_str(s: &str) -> (r: u64)
    ensures
        r == spec_fnv1a_64(s.spec_bytes()),
{
    const_fnv1a_64(s.as_bytes())
}

/// Multiplying modulo 2^64 by a constant with an inverse loses nothing:
/// multiplying by the inverse gives the value back.
proof fn lemma_wrapping_mul_cancel(x: u64, c: u64, inv: u64)
    requires
        (c as int * inv as int) % 0x1_0000_0000_0000_0000int == 1,
    ensures
        x.wrapping_mul(c).wrapping_mul(inv) == x,
{
    let m: int = 0x1_0000_0000_0000_0000int;
    let xc: int = x as int * c as int;
    lemma_mul_mod_noop_left(xc, inv as int, m);
    lemma_mul_is_associative(x as int, c as int, inv as int);
    lemma_mul_mod_noop_right(x as int, c as int * inv as int, m);
    lemma_small_mod(x as nat, m as nat);
    assert(x.wrapping_mul(c) as int == xc % m);
    assert(x.wrapping_mul(c).wrapping_mul(inv) as int == ((xc % m) * inv as int) % m);
}

/// Multiplying modulo 2^64 by a constant with an inverse is one to one.
proof fn lemma_wrapping_mul_injective(x: u64, y: u64, c: u64, inv: u64)
    requires
        (c as int * inv as int) % 0x1_0000_0000_0000_0000int == 1,
        x.wrapping_mul(c) == y.wrapping_mul(c),
    ensures
        x == y,
{
    lemma_wrapping_mul_cancel(x, c, inv);
    lemma_wrapping_mul_cancel(y, c, inv);
}

/// Xoring a value with itself shifted right by 33 bits is one to one.
proof fn lemma_xorshift_injective(x: u64, y: u64)
    requires
        x ^ (x >> 33u64) == y ^ (y >> 33u64),
    ensures
        x == y,
{
    assert(x ^ (x >> 33u64) == y ^ (y >> 33u64) ==> x == y) by (bit_vector);
}

/// The finalizer is one to one: different FNV-1a states give different
/// hashes.
pub proof fn lemma_fmix64_injective(a: u64, b: u64)
    requires
        spec_fmix64(a) == spec_fmix64(b),
    ensures
        a == b,
{
    let a1 = a ^ (a >> 33u64);
    let b1 = b ^ (b >> 33u64);
    let a2 = a1.wrapping_mul(0xff51afd7ed558ccdu64);
    let b2 = b1.wrapping_mul(0xff51afd7ed558ccdu64);
    let a3 = a2 ^ (a2 >> 33u64);
    let b3 = b2 ^ (b2 >> 33u64);
    let a4 = a3.wrapping_mul(0xc4ceb9fe1a85ec53u64);
    let b4 = b3.wrapping_mul(0xc4ceb9fe1a85ec53u64);
    lemma_xorshift_injective(a4, b4);
    assert((0xc4ceb9fe1a85ec53int * 0x9cb4b2f8129337dbint) % 0x1_0000_0000_0000_0000int == 1);
    lemma_wrapping_mul_injective(a3, b3, 0xc4ceb9fe1a85ec53u64, 0x9cb4b2f8129337dbu64);
    lemma_xorshift_injective(a2, b2);
    assert((0xff51afd7ed558ccdint * 0x4f74430c22a54005int) % 0x1_0000_0000_0000_0000int == 1);
    lemma_wrapping_mul_injective(a1, b1, 0xff51afd7ed558ccdu64, 0x4f74430c22a54005u64);
    lemma_xorshift_injective(a, b);
}

/// One FNV-1a step is one to one in the state for a fixed byte, and in the
/// byte for a fixed state.
proof fn lemma_fnv1a_step_injective(x: u64, bx: u8, y: u64, bz: u8)
    requires
        (x ^ (bx as u64)).wrapping_mul(FNV_PRIME) == (y ^ (bz as u64)).wrapping_mul(FNV_PRIME),
    ensures
        bx == bz ==> x == y,
        x == y ==> bx == bz,
{
    assert((0x100000001b3int * 0xce965057aff6957bint) % 0x1_0000_0000_0000_0000int == 1);
    lemma_wrapping_mul_injective(x ^ (bx as u64), y ^ (bz as u64), FNV_PRIME, 0xce965057aff6957bu64);
    let u = bx as u64;
    let v = bz as u64;
    assert((x ^ u) == (y ^ v) ==> (u == v ==> x == y) && (x == y ==> u == v)) by (bit_vector);
}

/// The hash depends on every byte: two byte strings of the same length
/// that differ in exactly one place have different FNV-1a states and
/// different hashes.
pub proof fn law_fnv1a_one_byte(s: Seq<u8>, t: Seq<u8>, k: int)
    requires
        s.len() == t.len(),
        0 <= k < s.len(),
        s[k] != t[k],
        forall|i: int| 0 <= i < s.len() && i != k ==> s[i] == t[i],
    ensures
        spec_fnv1a_fold(s) != spec_fnv1a_fold(t),
        spec_fnv1a_64(s) != spec_fnv1a_64(t),
    decreases s.len(),
{
    let n = s.len() - 1;
    if k == n {
        assert(s.drop_last() =~= t.drop_last());
        if spec_fnv1a_fold(s) == spec_fnv1a_fold(t) {
            lemma_fnv1a_step_injective(spec_fnv1a_fold(s.drop_last()), s.last(), spec_fnv1a_fold(t.drop_last()), t.last());
        }
    } else {
        law_fnv1a_one_byte(s.drop_last(), t.drop_last(), k);
        assert(s.last() == t.last());
        if spec_fnv1a_fold(s) == spec_fnv1a_fold(t) {
            lemma_fnv1a_step_injective(spec_fnv1a_fold(s.drop_last()), s.last(), spec_fnv1a_fold(t.drop_last()), t.last());
        }
    }
    if spec_fnv1a_64(s) == spec_fnv1a_64(t) {
        lemma_fmix64_injective(spec_fnv1a_fold(s), spec_fnv1a_fold(t));
    }
}

/// Unique identifier for a component type: a 64-bit hash of its qualified
/// type name, or an id the user chose.
#[derive(Clone, Copy, PartialEq, Eq, Structural, Debug, Hash)]
pub struct ComponentId(pub u64);

impl ComponentId {
    /// Creates a `ComponentId` from a raw value.
    pub fn new(id: u64) -> (r: ComponentId)
        ensures
            r.0 == id,
    {
        ComponentId(id)
    }

    /// Returns the `ComponentId` declared by a component type.
    pub fn of<T: Component>() -> (r: ComponentId)
        ensures
            r == T::spec_component_id(),
    {
        T::component_id()
    }

    /// Returns the raw value of this id.
    pub fn raw(&self) -> (r: u64)
        ensures
            r == self.0,
    {
        self.0
    }
}

/// Data that can be stored on entities. Each component type declares its id.
pub trait Component: Sized {
    /// The id this component type is stored under.
    spec fn spec_component_id() -> ComponentId;

    /// Returns the id this component type is stored under.
    fn component_id() -> (r: ComponentId)
        ensures
            r == Self::spec_component_id();
}

} // verus!
