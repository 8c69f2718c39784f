//! Packing of a chunk coordinate into a single `u128`, so that sets and maps of
//! chunk coordinates can be keyed by an integer.

use vstd::prelude::*;

use crate::ivec::IVec3;

verus! {

/// `2^31`: shifts an `i32` component into `0..2^32`.
pub open spec fn bias() -> int {
    0x8000_0000
}

/// The key of `c`: its three components, each shifted into `0..2^32`, written
/// as the digits of a base-`2^32` number (`x` most significant).
pub open spec fn chunk_key(c: IVec3) -> int {
    (c.x + bias()) * 0x1_0000_0000_0000_0000 + (c.y + bias()) * 0x1_0000_0000 + (c.z + bias())
}

/// Every key lies in `0..2^96`.
pub open spec fn valid_key(k: int) -> bool {
    0 <= k < 0x1_0000_0000_0000_0000_0000_0000
}

/// The coordinate whose key is `k`.
pub open spec fn key_coord(k: int) -> IVec3 {
    IVec3 {
        x: (k / 0x1_0000_0000_0000_0000 - bias()) as i32,
        y: ((k / 0x1_0000_0000) % 0x1_0000_0000 - bias()) as i32,
        z: (k % 0x1_0000_0000 - bias()) as i32,
    }
}

/// `chunk_key` is a bijection between coordinates and valid keys, with inverse
/// `key_coord`.
pub proof fn lemma_key_bijective(c: IVec3, k: int)
    ensures
        valid_key(chunk_key(c)),
        key_coord(chunk_key(c)) == c,
        valid_key(k) ==> chunk_key(key_coord(k)) == k,
{
    let a = c.x + bias();
    let b = c.y + bias();
    let d = c.z + bias();
    let kk = chunk_key(c);
    assert(0 <= kk < 0x1_0000_0000_0000_0000_0000_0000 && kk / 0x1_0000_0000_0000_0000 == a
        && (kk / 0x1_0000_0000) % 0x1_0000_0000 == b && kk % 0x1_0000_0000 == d) by (nonlinear_arith)
        requires
            0 <= a < 0x1_0000_0000,
            0 <= b < 0x1_0000_0000,
            0 <= d < 0x1_0000_0000,
            kk == a * 0x1_0000_0000_0000_0000 + b * 0x1_0000_0000 + d,
    ;
    if valid_key(k) {
        let p = k / 0x1_0000_0000_0000_0000;
        let q = (k / 0x1_0000_0000) % 0x1_0000_0000;
        let r = k % 0x1_0000_0000;
        assert(0 <= p < 0x1_0000_0000 && 0 <= q < 0x1_0000_0000 && 0 <= r < 0x1_0000_0000
            && p * 0x1_0000_0000_0000_0000 + q * 0x1_0000_0000 + r == k) by (nonlinear_arith)
            requires
                0 <= k < 0x1_0000_0000_0000_0000_0000_0000,
                p == k / 0x1_0000_0000_0000_0000,
                q == (k / 0x1_0000_0000) % 0x1_0000_0000,
                r == k % 0x1_0000_0000,
        ;
    }
}

/// Distinct coordinates have distinct keys.
pub proof fn lemma_key_injective(a: IVec3, b: IVec3)
    ensures
        chunk_key(a) == chunk_key(b) <==> a == b,
{
    lemma_key_bijective(a, 0);
    lemma_key_bijective(b, 0);
}

/// The key of `c`, computed.
pub fn pack(c: IVec3) -> (k: u128)
    ensures
        k == chunk_key(c),
{
    proof {
        lemma_key_bijective(c, 0);
    }
    let a = (c.x as i64 + 0x8000_0000) as u128;
    let b = (c.y as i64 + 0x8000_0000) as u128;
    let d = (c.z as i64 + 0x8000_0000) as u128;
    a * 0x1_0000_0000_0000_0000 + b * 0x1_0000_0000 + d
}

/// The coordinate whose key is `k`, computed.
pub fn unpack(k: u128) -> (c: IVec3)
    requires
        valid_key(k as int),
    ensures
        c == key_coord(k as int),
        chunk_key(c) == k,
{
    proof {
        lemma_key_bijective(IVec3 { x: 0, y: 0, z: 0 }, k as int);
    }
    let p = (k / 0x1_0000_0000_0000_0000) as i64;
    let q = ((k / 0x1_0000_0000) % 0x1_0000_0000) as i64;
    let r = (k % 0x1_0000_0000) as i64;
    IVec3 { x: (p - 0x8000_0000) as i32, y: (q - 0x8000_0000) as i32, z: (r - 0x8000_0000) as i32 }
}

} // verus!
