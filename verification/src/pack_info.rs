use vstd::prelude::*;

use core::cmp::Ordering;

use crate::id::Id;
use crate::repofile::{BlobType, IndexBlob};

verus! {

/// Per-pack classification counters: how many blobs, and how many bytes, the
/// decision engine found used and unused in one pack.
#[derive(Clone, Copy, PartialEq, Eq, Structural, Debug)]
pub struct PackInfo {
    pub blob_type: BlobType,
    pub used_blobs: u64,
    pub unused_blobs: u64,
    pub used_size: u64,
    pub unused_size: u64,
}

/// A partly used pack that may be repacked, with the counters that rank it.
#[derive(Clone, Copy, PartialEq, Eq, Structural, Debug)]
pub struct RepackCandidate {
    pub id: Id,
    pub pi: PackInfo,
}

/// Tree packs sort before data packs.
pub open spec fn type_rank(t: BlobType) -> int {
    match t {
        BlobType::Tree => 0,
        BlobType::Data => 1,
    }
}

/// The repack-candidate order: first by blob type (tree packs first), then by
/// descending unused/used ratio, compared as the cross product
/// `b.unused * a.used` against `a.unused * b.used` so that no fractions are
/// needed.
pub open spec fn pi_cmp(a: PackInfo, b: PackInfo) -> Ordering {
    if type_rank(a.blob_type) < type_rank(b.blob_type) {
        Ordering::Less
    } else if type_rank(a.blob_type) > type_rank(b.blob_type) {
        Ordering::Greater
    } else {
        let x = b.unused_size * a.used_size;
        let y = a.unused_size * b.used_size;
        if x < y {
            Ordering::Less
        } else if x == y {
            Ordering::Equal
        } else {
            Ordering::Greater
        }
    }
}

/// `a` sorts no later than `b`.
pub open spec fn pi_le(a: PackInfo, b: PackInfo) -> bool {
    pi_cmp(a, b) != Ordering::Greater
}

impl PackInfo {
    pub fn new(blob_type: BlobType) -> (r: PackInfo)
        ensures
            r == (PackInfo { blob_type, used_blobs: 0, unused_blobs: 0, used_size: 0, unused_size: 0 }),
    {
        PackInfo { blob_type, used_blobs: 0, unused_blobs: 0, used_size: 0, unused_size: 0 }
    }

    /// Charge one blob to the unused side.
    pub fn add_unused_blob(&mut self, blob: &IndexBlob)
        requires
            old(self).unused_size + blob.length <= u64::MAX,
            old(self).unused_blobs < u64::MAX,
        ensures
            *final(self) == (PackInfo {
                unused_blobs: (old(self).unused_blobs + 1) as u64,
                unused_size: (old(self).unused_size + blob.length) as u64,
                ..*old(self)
            }),
    {
        self.unused_size = self.unused_size + blob.length as u64;
        self.unused_blobs = self.unused_blobs + 1;
    }

    /// Charge one blob to the used side.
    pub fn add_used_blob(&mut self, blob: &IndexBlob)
        requires
            old(self).used_size + blob.length <= u64::MAX,
            old(self).used_blobs < u64::MAX,
        ensures
            *final(self) == (PackInfo {
                used_blobs: (old(self).used_blobs + 1) as u64,
                used_size: (old(self).used_size + blob.length) as u64,
                ..*old(self)
            }),
    {
        self.used_size = self.used_size + blob.length as u64;
        self.used_blobs = self.used_blobs + 1;
    }

    /// Classify one blob whose id is a key of the used-ids table, given the
    /// pack-local `has_used` flag and the blob's remaining-occurrence counter:
    /// counter 0 means an earlier pack claimed it; counter 1 means this is the
    /// last occurrence, claim it here; otherwise claim it here only when the
    /// pack already holds used blobs, else leave the claim to a later pack and
    /// count this occurrence off.
    pub fn add_blob(&mut self, blob: &IndexBlob, has_used: bool, count: &mut u8)
        requires
            old(self).used_size + blob.length <= u64::MAX,
            old(self).unused_size + blob.length <= u64::MAX,
            old(self).used_blobs < u64::MAX,
            old(self).unused_blobs < u64::MAX,
        ensures
            *old(count) == 0 ==> *final(self) == (PackInfo {
                unused_blobs: (old(self).unused_blobs + 1) as u64,
                unused_size: (old(self).unused_size + blob.length) as u64,
                ..*old(self)
            }) && *final(count) == 0,
            *old(count) == 1 || (*old(count) >= 2 && has_used) ==> *final(self) == (PackInfo {
                used_blobs: (old(self).used_blobs + 1) as u64,
                used_size: (old(self).used_size + blob.length) as u64,
                ..*old(self)
            }) && *final(count) == 0,
            *old(count) >= 2 && !has_used ==> *final(self) == (PackInfo {
                unused_blobs: (old(self).unused_blobs + 1) as u64,
                unused_size: (old(self).unused_size + blob.length) as u64,
                ..*old(self)
            }) && *final(count) == *old(count) - 1,
    {
        if *count == 0 {
            self.add_unused_blob(blob);
        } else if *count == 1 {
            self.add_used_blob(blob);
            *count = 0;
        } else if has_used {
            self.add_used_blob(blob);
            *count = 0;
        } else {
            self.add_unused_blob(blob);
            *count = *count - 1;
        }
    }

    /// Compare two candidates in the repack order.
    pub fn cmp(&self, other: &PackInfo) -> (r: Ordering)
        ensures
            r == pi_cmp(*self, *other),
    {
        let ra: u8 = match self.blob_type {
            BlobType::Tree => 0,
            BlobType::Data => 1,
        };
        let rb: u8 = match other.blob_type {
            BlobType::Tree => 0,
            BlobType::Data => 1,
        };
        if ra < rb {
            Ordering::Less
        } else if ra > rb {
            Ordering::Greater
        } else {
            proof {
                lemma_u64_mul_fits(other.unused_size, self.used_size);
                lemma_u64_mul_fits(self.unused_size, other.used_size);
            }
            let x: u128 = (other.unused_size as u128) * (self.used_size as u128);
            let y: u128 = (self.unused_size as u128) * (other.used_size as u128);
            if x < y {
                Ordering::Less
            } else if x == y {
                Ordering::Equal
            } else {
                Ordering::Greater
            }
        }
    }

    /// Compare, as the partial order that the total order induces.
    pub fn partial_cmp(&self, other: &PackInfo) -> (r: Option<Ordering>)
        ensures
            r == Some(pi_cmp(*self, *other)),
    {
        Some(self.cmp(other))
    }

    /// `self` sorts no later than `other`.
    pub fn le(&self, other: &PackInfo) -> (r: bool)
        ensures
            r == pi_le(*self, *other),
    {
        match self.cmp(other) {
            Ordering::Greater => false,
            _ => true,
        }
    }
}

/// The product of two 64-bit values fits in 128 bits.
pub proof fn lemma_u64_mul_fits(a: u64, b: u64)
    ensures
        (a as int) * (b as int) <= u128::MAX as int,
{
    assert((a as int) * (b as int) <= (u64::MAX as int) * (u64::MAX as int)) by (nonlinear_arith)
        requires
            0 <= a as int <= u64::MAX as int,
            0 <= b as int <= u64::MAX as int,
    ;
}

/// The candidate order is reflexive.
pub proof fn lemma_pi_cmp_reflexive(a: PackInfo)
    ensures
        pi_cmp(a, a) == Ordering::Equal,
{
}

/// The candidate order is antisymmetric: swapping the arguments mirrors the
/// outcome, so `Equal` holds in one direction exactly when it holds in the
/// other.
pub proof fn lemma_pi_cmp_antisymmetric(a: PackInfo, b: PackInfo)
    ensures
        pi_cmp(a, b) == Ordering::Less <==> pi_cmp(b, a) == Ordering::Greater,
        pi_cmp(a, b) == Ordering::Equal <==> pi_cmp(b, a) == Ordering::Equal,
{
}

/// The candidate order is transitive.  The middle pack must hold at least one
/// used byte; every repack candidate does, since a partly used pack has a
/// used blob and blob lengths are positive.
pub proof fn lemma_pi_cmp_transitive(a: PackInfo, b: PackInfo, c: PackInfo)
    requires
        pi_le(a, b),
        pi_le(b, c),
        b.used_size > 0,
    ensures
        pi_le(a, c),
{
    if type_rank(a.blob_type) == type_rank(b.blob_type) && type_rank(b.blob_type) == type_rank(
        c.blob_type,
    ) {
        let au = a.unused_size as int;
        let asz = a.used_size as int;
        let bu = b.unused_size as int;
        let bs = b.used_size as int;
        let cu = c.unused_size as int;
        let cs = c.used_size as int;
        assert(bu * asz <= au * bs);
        assert(cu * bs <= bu * cs);
        assert(cu * bs * asz <= bu * cs * asz) by (nonlinear_arith)
            requires
                cu * bs <= bu * cs,
                asz >= 0,
        ;
        assert(bu * asz * cs <= au * bs * cs) by (nonlinear_arith)
            requires
                bu * asz <= au * bs,
                cs >= 0,
        ;
        assert(bu * cs * asz == bu * asz * cs) by (nonlinear_arith);
        assert(cu * bs * asz <= au * bs * cs);
        assert(cu * asz * bs <= au * cs * bs) by (nonlinear_arith)
            requires
                cu * bs * asz <= au * bs * cs,
        ;
        assert(cu * asz <= au * cs) by (nonlinear_arith)
            requires
                cu * asz * bs <= au * cs * bs,
                bs > 0,
        ;
    }
}

/// Ties on blob type fall through to the unused-ratio cross product.
pub proof fn lemma_pi_cmp_tie_breaks_on_ratio(a: PackInfo, b: PackInfo)
    requires
        a.blob_type == b.blob_type,
    ensures
        pi_cmp(a, b) == (if b.unused_size * a.used_size < a.unused_size * b.used_size {
            Ordering::Less
        } else if b.unused_size * a.used_size == a.unused_size * b.used_size {
            Ordering::Equal
        } else {
            Ordering::Greater
        }),
{
}

} // verus!
