//! Zobrist hash keys, drawn from a seeded pseudo-random generator.

use vstd::prelude::*;
use rand::rngs::StdRng;
use rand::{RngExt, SeedableRng};

verus! {

#[verifier::external_type_specification]
#[verifier::external_body]
pub struct ExStdRng(StdRng);

/// Calls `rand::rngs::StdRng::seed_from_u64`.  Nothing is claimed of the
/// generator's state, which Verus does not see.
#[verifier::external_body]
fn seeded_rng(seed: u64) -> StdRng {
    StdRng::seed_from_u64(seed)
}

/// Calls `rand::RngExt::random::<i64>` on the generator.  Any `i64` may come
/// back, so nothing is claimed of it.
#[verifier::external_body]
fn random_i64(rng: &mut StdRng) -> i64 {
    rng.random::<i64>()
}

/// The seed the key table is drawn from.
pub const ZOBRIST_SEED: u64 = 2820795095;

/// Number of piece codes, `-7..=7`.
pub const KEY_ROWS: usize = 15;

/// The key of piece code `piece` on square `pos` in a flattened table
/// (row `piece + 7`, 90 squares a row).
pub open spec fn key_of(keys: Seq<i64>, piece: int, pos: int) -> i64 {
    keys[(piece + 7) * 90 + pos]
}

/// A table of 15 rows of 90 keys whose row for the empty square (row 7) is zero.
pub open spec fn keys_ok(keys: Seq<i64>) -> bool {
    &&& keys.len() == 1350
    &&& forall|pos: int| 0 <= pos < 90 ==> #[trigger] key_of(keys, 0, pos) == 0
}

/// Draws the Zobrist key table from the generator seeded with
/// `ZOBRIST_SEED`, row by row, and zeroes the row of the empty square.
/// The values drawn are not stated: `StdRng` is documented as non-portable
/// (its output may change between library versions and platforms, even
/// for a fixed seed), so they cannot be named as a function of the seed;
/// only the shape of the table and its zero row are.
pub fn hash_keys() -> (keys: Vec<i64>)
    ensures
        keys_ok(keys@),
{
    let mut rng = seeded_rng(ZOBRIST_SEED);
    let mut keys: Vec<i64> = Vec::new();
    let mut i: usize = 0;
    while i < KEY_ROWS * 90
        invariant
            keys.len() == i,
            i <= 1350,
        decreases 1350 - i,
    {
        let v = random_i64(&mut rng);
        keys.push(v);
        i += 1;
    }
    let mut j: usize = 0;
    while j < 90
        invariant
            keys.len() == 1350,
            j <= 90,
            forall|pos: int| 0 <= pos < j ==> #[trigger] key_of(keys@, 0, pos) == 0,
        decreases 90 - j,
    {
        let ghost before = keys@;
        keys.set(7 * 90 + j, 0);
        assert forall|pos: int| 0 <= pos < j + 1 implies #[trigger] key_of(keys@, 0, pos) == 0 by {
            if pos < j {
                assert(key_of(before, 0, pos) == 0);
            }
        }
        j += 1;
    }
    keys
}

} // verus!
