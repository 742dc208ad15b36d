//! The beacon-derived seed of a plan.

use crate::api::{BeaconRef, BeaconRefView, JobSpec, JobSpecView};
use crate::text;
use vstd::prelude::*;

verus! {

/// One FNV-1a step.
pub open spec fn fold_unit(h: u32, unit: u32) -> u32 {
    (h ^ unit).wrapping_mul(0x0100_0193)
}

/// Folds in the UTF-16 code units of a character.
pub open spec fn fold_char(h: u32, c: char) -> u32 {
    let u = c as u32;
    if u < 0x1_0000 {
        fold_unit(h, u)
    } else {
        fold_unit(
            fold_unit(h, (0xd800 + (u - 0x1_0000) / 0x400) as u32),
            (0xdc00 + (u - 0x1_0000) % 0x400) as u32,
        )
    }
}

/// FNV-1a over the UTF-16 code units of a text.
pub open spec fn hash_of(s: Seq<char>) -> u32
    decreases s.len(),
{
    if s.len() == 0 {
        0x811c_9dc5
    } else {
        fold_char(hash_of(s.drop_last()), s.last())
    }
}

/// Folds a text into 32 bits: FNV-1a over its UTF-16 code units.
pub fn hash32(s: &str) -> (h: u32)
    ensures
        h == hash_of(s@),
{
    let x = text::chars_of(s);
    let mut h: u32 = 0x811c_9dc5;
    for i in 0..x.len()
        invariant
            x@ == s@,
            h == hash_of(s@.take(i as int)),
    {
        proof {
            assert(s@.take(i + 1).drop_last() =~= s@.take(i as int));
        }
        let u: u32 = x[i] as u32;
        if u < 0x1_0000 {
            h = (h ^ u).wrapping_mul(0x0100_0193);
        } else {
            h = (h ^ (0xd800 + (u - 0x1_0000) / 0x400)).wrapping_mul(0x0100_0193);
            h = (h ^ (0xdc00 + (u - 0x1_0000) % 0x400)).wrapping_mul(0x0100_0193);
        }
    }
    proof {
        assert(s@.take(x.len() as int) =~= s@);
    }
    h
}

pub open spec fn or_empty(s: Option<Seq<char>>) -> Seq<char> {
    match s {
        Some(t) => t,
        None => Seq::empty(),
    }
}

/// The seed: the beacon mixed with the identity of the request, never zero.
pub open spec fn seed_of(beacon: BeaconRefView, spec: JobSpecView) -> u32 {
    let mixed = (beacon.height as u32) ^ hash_of(beacon.hash) ^ hash_of(or_empty(spec.payer)).wrapping_mul(
        0x9e37_79b1,
    ) ^ hash_of(or_empty(spec.nonce)).wrapping_mul(0x85eb_ca6b);
    if mixed == 0 {
        0x6d2b_79f5
    } else {
        mixed
    }
}

/// Deterministic seed from the beacon and the identity of the request (payer and nonce), so that
/// the same beacon, request and candidates give the same plan. Never zero.
pub fn beacon_seed(beacon: &BeaconRef, spec: &JobSpec) -> (seed: u32)
    ensures
        seed == seed_of(beacon@, spec@),
        seed != 0,
{
    let payer: u32 = match &spec.payer {
        Some(p) => hash32(p.as_str()),
        None => 0x811c_9dc5,
    };
    let nonce: u32 = match &spec.nonce {
        Some(n) => hash32(n.as_str()),
        None => 0x811c_9dc5,
    };
    #[verifier::truncate]
    let height: u32 = beacon.height as u32;
    let mixed: u32 = height ^ hash32(beacon.hash.as_str()) ^ payer.wrapping_mul(0x9e37_79b1) ^ nonce.wrapping_mul(
        0x85eb_ca6b,
    );
    if mixed == 0 {
        0x6d2b_79f5
    } else {
        mixed
    }
}

/// The seed reads the identity of a request alone: jobs of one payer and nonce have one seed, whatever
/// else they ask for.
pub proof fn lemma_seed_reads_the_identity(beacon: BeaconRefView, spec: JobSpecView, other: JobSpecView)
    requires
        or_empty(spec.payer) == or_empty(other.payer),
        or_empty(spec.nonce) == or_empty(other.nonce),
    ensures
        seed_of(beacon, spec) == seed_of(beacon, other),
{
}

/// Of the height of a beacon the low 32 bits count.
pub proof fn lemma_seed_reads_the_low_height(beacon: BeaconRefView, other: BeaconRefView, spec: JobSpecView)
    requires
        beacon.hash == other.hash,
        beacon.height % 0x1_0000_0000 == other.height % 0x1_0000_0000,
    ensures
        seed_of(beacon, spec) == seed_of(other, spec),
{
    let a = beacon.height;
    let b = other.height;
    assert(a as u32 == b as u32) by (bit_vector)
        requires
            a % 0x1_0000_0000 == b % 0x1_0000_0000,
    ;
}

} // verus!
