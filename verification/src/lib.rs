//! Core of a BitTorrent download engine.
//!
//! The crate covers the deterministic heart of the engine: the mapping from
//! piece indexes to file slices, a flat storage of backing files, the peer
//! wire codec, the UDP tracker packet codec, the per-torrent download
//! controller with its piece scheduler, and the engine-level command
//! handling. Network and disk plumbing lives outside, and feeds these
//! functions plain values.

use vstd::prelude::*;

pub mod announce;
pub mod controller;
pub mod engine;
pub mod flat_storage;
pub mod info;
pub mod mapping;
pub mod message;
pub mod storage;

verus! {

/// Size in bytes of a block, the unit of a peer-protocol request.
pub const BLOCK_SIZE: usize = 16384;

/// Size in bytes of a SHA-1 digest.
pub const SHA1_SIZE: usize = 20;

/// How many parts of size `part` cover `total` bytes (ceiling division).
pub open spec fn spec_count_parts(total: int, part: int) -> int {
    (total + part - 1) / part
}

/// Number of parts of size `part` needed to hold `total` bytes.
pub fn count_parts(total: usize, part: usize) -> (r: usize)
    requires
        1 <= part,
    ensures
        r == spec_count_parts(total as int, part as int),
{
    let q: usize = total / part;
    let rem: usize = total % part;
    proof {
        lemma_count_parts(total as int, part as int);
    }
    if rem != 0 {
        proof {
            vstd::arithmetic::div_mod::lemma_fundamental_div_mod(total as int, part as int);
            assert(q < total) by (nonlinear_arith)
                requires
                    total == part * q + rem,
                    1 <= rem,
                    1 <= part,
                    0 <= q,
            ;
        }
        q + 1
    } else {
        q
    }
}

/// Ceiling division agrees with quotient plus a carry for the remainder.
pub proof fn lemma_count_parts(total: int, part: int)
    requires
        0 <= total,
        1 <= part,
    ensures
        spec_count_parts(total, part) == total / part + if total % part != 0 {
            1int
        } else {
            0int
        },
{
    let q = total / part;
    let r = total % part;
    vstd::arithmetic::div_mod::lemma_fundamental_div_mod(total, part);
    if r != 0 {
        assert(part * (q + 1) + (r - 1) == total + part - 1) by (nonlinear_arith)
            requires
                total == part * q + r,
        ;
        assert((total + part - 1) / part == q + 1) by {
            vstd::arithmetic::div_mod::lemma_div_multiples_vanish_fancy(q + 1, r - 1, part);
        }
    } else {
        assert(part * q + (part - 1) == total + part - 1) by (nonlinear_arith)
            requires
                total == part * q + r,
                r == 0,
        ;
        assert((total + part - 1) / part == q) by {
            vstd::arithmetic::div_mod::lemma_div_multiples_vanish_fancy(q, part - 1, part);
        }
    }
}

} // verus!
