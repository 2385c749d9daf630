//! The signing seed of a biome.

use vstd::arithmetic::div_mod::lemma_small_mod;
use vstd::prelude::*;
use vstd::string::*;
use vstd::utf8::encode_utf8;

verus! {

/// The byte that stands for an empty id.
pub const EMPTY_ID_BYTE: u8 = 0x7A;

/// The factor of the index whitener.
pub const WHITENER: u8 = 0x9E;

/// The id repeated: its `i`-th byte, counted round and round.
pub open spec fn id_byte(id: Seq<u8>, i: int) -> u8 {
    if id.len() == 0 {
        EMPTY_ID_BYTE
    } else {
        id[i % id.len() as int]
    }
}

/// The `k`-th byte of a number, from the lowest.
pub open spec fn number_byte(n: u64, k: int) -> u8 {
    (n >> ((8 * k) as u64)) as u8
}

/// What is mixed in at index `i` whatever the id.
pub open spec fn index_byte(i: int) -> u8 {
    ((i * WHITENER) % 256) as u8
}

/// The `i`-th byte of the seed.
pub open spec fn seed_byte(id: Seq<u8>, n: u64, i: int) -> u8 {
    id_byte(id, i) ^ number_byte(n, i % 8) ^ index_byte(i)
}

/// The seed of a biome id and a number.
pub open spec fn seed_of(id: Seq<u8>, n: u64) -> Seq<u8> {
    Seq::new(32, |i: int| seed_byte(id, n, i))
}

/// Derive the biome's 32-byte ed25519 signing seed from the biome id and the
/// numeric config seed: id bytes repeated or cut, XORed with the bytes of the
/// number and an index whitener.
///
/// **Deliberately not cryptographically strong**: what matters is that the
/// same id and number always yield the same biome identity.
pub fn biome_seed(biome_id: &str, seed: u64) -> (out: [u8; 32])
    ensures
        out@ == seed_of(encode_utf8(biome_id@), seed),
{
    let id = biome_id.as_bytes();
    let mut out: [u8; 32] = [0; 32];
    let mut i: usize = 0;
    while i < 32
        invariant
            i <= 32,
            id@ == encode_utf8(biome_id@),
            forall|k: int| 0 <= k < i ==> out@[k] == seed_byte(id@, seed, k),
        decreases 32 - i,
    {
        let own: u8 = if id.len() == 0 {
            EMPTY_ID_BYTE
        } else {
            id[i % id.len()]
        };
        let shift: u64 = 8 * (i as u64 % 8);
        let number: u8 = (seed >> shift) as u8;
        let white: u8 = (i as u8).wrapping_mul(WHITENER);
        assert(number == number_byte(seed, i as int % 8));
        assert(white == index_byte(i as int));
        out[i] = own ^ number ^ white;
        i += 1;
    }
    assert(out@ =~= seed_of(encode_utf8(biome_id@), seed));
    out
}

/// **Ids are told apart by their repeated bytes.** With the same number two
/// ids have the same seed exactly where they repeat to the same thirty-two
/// bytes.
pub proof fn law_seed_tells_ids_apart(a: Seq<u8>, b: Seq<u8>, n: u64)
    ensures
        seed_of(a, n) == seed_of(b, n) <==> (forall|i: int|
            0 <= i < 32 ==> id_byte(a, i) == id_byte(b, i)),
{
    if seed_of(a, n) == seed_of(b, n) {
        assert forall|i: int| 0 <= i < 32 implies id_byte(a, i) == id_byte(b, i) by {
            assert(seed_of(a, n)[i] == seed_of(b, n)[i]);
            let x = id_byte(a, i);
            let y = id_byte(b, i);
            let s = number_byte(n, i % 8);
            let w = index_byte(i);
            assert(x ^ s ^ w == y ^ s ^ w ==> x == y) by (bit_vector);
        }
    }
    if forall|i: int| 0 <= i < 32 ==> id_byte(a, i) == id_byte(b, i) {
        assert(seed_of(a, n) =~= seed_of(b, n));
    }
}

/// **Distinct biomes have distinct seeds**, where their ids are of the same
/// length and no longer than a seed.
pub proof fn law_distinct_ids_have_distinct_seeds(a: Seq<u8>, b: Seq<u8>, n: u64)
    requires
        a.len() == b.len() <= 32,
        a != b,
    ensures
        seed_of(a, n) != seed_of(b, n),
{
    law_seed_tells_ids_apart(a, b, n);
    if seed_of(a, n) == seed_of(b, n) {
        assert forall|i: int| 0 <= i < a.len() implies a[i] == b[i] by {
            assert(id_byte(a, i) == id_byte(b, i));
            lemma_small_mod(i as nat, a.len());
        }
        assert(a =~= b);
    }
}

/// **Distinct numbers have distinct seeds**, for every id.
pub proof fn law_distinct_numbers_have_distinct_seeds(id: Seq<u8>, m: u64, n: u64)
    requires
        m != n,
    ensures
        seed_of(id, m) != seed_of(id, n),
{
    if seed_of(id, m) == seed_of(id, n) {
        assert forall|k: int| 0 <= k < 8 implies number_byte(m, k) == number_byte(n, k) by {
            assert(seed_of(id, m)[k] == seed_of(id, n)[k]);
            assert(k % 8 == k);
            let x = number_byte(m, k);
            let y = number_byte(n, k);
            let s = id_byte(id, k);
            let w = index_byte(k);
            assert(s ^ x ^ w == s ^ y ^ w ==> x == y) by (bit_vector);
        }
        assert(number_byte(m, 0) == number_byte(n, 0));
        assert(number_byte(m, 1) == number_byte(n, 1));
        assert(number_byte(m, 2) == number_byte(n, 2));
        assert(number_byte(m, 3) == number_byte(n, 3));
        assert(number_byte(m, 4) == number_byte(n, 4));
        assert(number_byte(m, 5) == number_byte(n, 5));
        assert(number_byte(m, 6) == number_byte(n, 6));
        assert(number_byte(m, 7) == number_byte(n, 7));
        assert((m >> 0u64) as u8 == (n >> 0u64) as u8 && (m >> 8u64) as u8 == (n >> 8u64) as u8
            && (m >> 16u64) as u8 == (n >> 16u64) as u8 && (m >> 24u64) as u8 == (n >> 24u64) as u8
            && (m >> 32u64) as u8 == (n >> 32u64) as u8 && (m >> 40u64) as u8 == (n >> 40u64) as u8
            && (m >> 48u64) as u8 == (n >> 48u64) as u8 && (m >> 56u64) as u8 == (n >> 56u64) as u8
            ==> m == n) by (bit_vector);
    }
}

} // verus!
