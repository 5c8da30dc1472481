//! In-memory claim registry, and the region/coord derivations that the hub needs of it.

use crate::coord::{ChunkCoord, CoordMap};
use crate::protocol;
use crate::protocol::{Region, FLAG_FROZEN, FLAG_LOCKED, FLAG_OWNED};
use crate::region;
use crate::{CHUNK_SIZE, CHUNK_SIZE_I64};
use std::sync::Arc;
use vstd::prelude::*;

verus! {

/// A rectangle of chunks that a user holds, by its first chunk.
#[derive(Debug, Clone, Copy, PartialEq, Eq)]
pub struct Claim {
    pub user_id: u32,
    pub cx: i32,
    pub cy: i32,
}

/// All claims. They have the same extent.
pub struct ClaimManager {
    pub claims: Vec<Claim>,
    pub claim_w: i32,
    pub claim_h: i32,
}

/// Most chunks that a claim may extend in one direction, so that its cells can be counted.
pub const MAX_CLAIM_SIDE: u32 = 0x03ff_ffff;

/// The flags of a claimed region.
pub open spec fn claim_flags() -> u8 {
    FLAG_LOCKED | FLAG_OWNED
}

/// The region of a claim of `w` by `h` chunks.
pub open spec fn claim_region(c: Claim, w: int, h: int) -> Region {
    Region {
        x: (c.cx * CHUNK_SIZE) as i64,
        y: (c.cy * CHUNK_SIZE) as i64,
        w: (w * CHUNK_SIZE) as u32,
        h: (h * CHUNK_SIZE) as u32,
        flags: claim_flags(),
        owner: c.user_id,
    }
}

/// Whether the region has a cell in common with a claim of `w` by `h` chunks at `(cx, cy)`.
pub open spec fn overlaps(r: Region, cx: i32, cy: i32, w: int, h: int) -> bool {
    let x = cx * CHUNK_SIZE;
    let y = cy * CHUNK_SIZE;
    &&& r.x < x + w * CHUNK_SIZE
    &&& x < r.x + r.w
    &&& r.y < y + h * CHUNK_SIZE
    &&& y < r.y + r.h
}

/// Whether the region stands in the way of a claim by `user_id`.
pub open spec fn obstructs(r: Region, user_id: u32, cx: i32, cy: i32, w: int, h: int) -> bool {
    &&& r.flags & (FLAG_LOCKED | FLAG_FROZEN) != 0
    &&& !(r.flags & FLAG_OWNED != 0 && r.owner == user_id)
    &&& overlaps(r, cx, cy, w, h)
}

/// The claims of others than `user_id`.
pub open spec fn claims_of_others(claims: Seq<Claim>, user_id: u32) -> Seq<Claim> {
    claims.filter(|c: Claim| c.user_id != user_id)
}

/// The static regions, then those of the claims.
pub open spec fn all_regions(fixed: Seq<Region>, claims: Seq<Claim>, w: int, h: int) -> Seq<Region> {
    fixed + claims.map_values(|c: Claim| claim_region(c, w, h))
}

/// Whether a claim covers chunk `d`.
pub open spec fn covered(claims: Seq<Claim>, w: int, h: int, d: ChunkCoord) -> bool {
    exists|i: int| 0 <= i < claims.len() && covers_chunk(#[trigger] claims[i], w, h, d)
}

pub open spec fn covers_chunk(c: Claim, w: int, h: int, d: ChunkCoord) -> bool {
    c.cx <= d.0 < c.cx + w && c.cy <= d.1 < c.cy + h
}

/// Whether all chunks of a claim have coordinates.
pub open spec fn claim_in_range(c: Claim, w: int, h: int) -> bool {
    c.cx + w - 1 <= i32::MAX && c.cy + h - 1 <= i32::MAX
}

/// No user has more than one claim.
pub open spec fn one_each(claims: Seq<Claim>) -> bool {
    forall|i: int, j: int|
        0 <= i < j < claims.len() ==> (#[trigger] claims[i]).user_id != (#[trigger]
        claims[j]).user_id
}

impl ClaimManager {
    pub open spec fn wf(&self) -> bool {
        0 <= self.claim_w <= MAX_CLAIM_SIDE && 0 <= self.claim_h <= MAX_CLAIM_SIDE
    }

    /// Whether the chunks of all claims have coordinates.
    pub open spec fn in_range(&self) -> bool {
        forall|i: int|
            0 <= i < self.claims@.len() ==> claim_in_range(
                #[trigger] self.claims@[i],
                self.claim_w as int,
                self.claim_h as int,
            )
    }

    /// A registry of claims of `w` by `h` chunks.
    pub fn new(claims: Vec<Claim>, w: u32, h: u32) -> (m: Self)
        requires
            w <= MAX_CLAIM_SIDE,
            h <= MAX_CLAIM_SIDE,
        ensures
            m.wf(),
            m.claims@ == claims@,
            m.claim_w == w,
            m.claim_h == h,
    {
        Self { claims, claim_w: w as i32, claim_h: h as i32 }
    }

    /// Whether the chunks of a claim at `(cx, cy)` have coordinates.
    pub fn fits(&self, cx: i32, cy: i32) -> (b: bool)
        requires
            self.wf(),
        ensures
            b == claim_in_range(
                (Claim { user_id: 0, cx, cy }),
                self.claim_w as int,
                self.claim_h as int,
            ),
    {
        cx as i64 + self.claim_w as i64 - 1 <= i32::MAX as i64 && cy as i64 + self.claim_h as i64
            - 1 <= i32::MAX as i64
    }

    /// Whether the chunks of all claims have coordinates.
    pub fn all_fit(&self) -> (b: bool)
        requires
            self.wf(),
        ensures
            b == self.in_range(),
    {
        let mut i: usize = 0;
        while i < self.claims.len()
            invariant
                i <= self.claims.len(),
                self.wf(),
                forall|j: int|
                    0 <= j < i ==> claim_in_range(
                        #[trigger] self.claims@[j],
                        self.claim_w as int,
                        self.claim_h as int,
                    ),
            decreases self.claims.len() - i,
        {
            let c = self.claims[i];
            if !self.fits(c.cx, c.cy) {
                assert(!claim_in_range(
                    self.claims@[i as int],
                    self.claim_w as int,
                    self.claim_h as int,
                ));
                return false;
            }
            i = i + 1;
        }
        true
    }

    /// Drop the claims of `user_id`.
    fn drop_claims(&mut self, user_id: u32)
        ensures
            final(self).claims@ == claims_of_others(old(self).claims@, user_id),
            final(self).claim_w == old(self).claim_w,
            final(self).claim_h == old(self).claim_h,
    {
        let ghost f = |c: Claim| c.user_id != user_id;
        let mut kept: Vec<Claim> = Vec::new();
        let mut i: usize = 0;
        assert(self.claims@.take(0) =~= Seq::<Claim>::empty());
        assert(self.claims@.take(0).filter(f) =~= Seq::<Claim>::empty()) by {
            reveal_with_fuel(Seq::filter, 1);
        }
        while i < self.claims.len()
            invariant
                i <= self.claims.len(),
                *self == *old(self),
                f == (|c: Claim| c.user_id != user_id),
                kept@ == self.claims@.take(i as int).filter(f),
            decreases self.claims.len() - i,
        {
            let c = self.claims[i];
            proof {
                assert(self.claims@.take(i + 1) =~= self.claims@.take(i as int).push(c));
                self.claims@.take(i as int).lemma_filter_push(c, f);
            }
            if c.user_id != user_id {
                kept.push(c);
            }
            i = i + 1;
        }
        assert(self.claims@.take(i as int) =~= self.claims@);
        self.claims = kept;
    }

    /// Place or move a claim for `user_id`. Returns false if the target region
    /// overlaps any locked or frozen region (same-user replacement is allowed).
    pub fn try_create(&mut self, user_id: u32, cx: i32, cy: i32, regions: &[Region]) -> (r: bool)
        requires
            old(self).wf(),
        ensures
            final(self).wf(),
            final(self).claim_w == old(self).claim_w,
            final(self).claim_h == old(self).claim_h,
            r == !(exists|i: int|
                0 <= i < regions@.len() && obstructs(
                    #[trigger] regions@[i],
                    user_id,
                    cx,
                    cy,
                    old(self).claim_w as int,
                    old(self).claim_h as int,
                )),
            final(self).claims@ == (if r {
                claims_of_others(old(self).claims@, user_id).push(Claim { user_id, cx, cy })
            } else {
                old(self).claims@
            }),
    {
        let x: i128 = cx as i128 * CHUNK_SIZE as i128;
        let y: i128 = cy as i128 * CHUNK_SIZE as i128;
        let w: i128 = self.claim_w as i128 * CHUNK_SIZE as i128;
        let h: i128 = self.claim_h as i128 * CHUNK_SIZE as i128;
        let mut i: usize = 0;
        while i < regions.len()
            invariant
                i <= regions@.len(),
                *self == *old(self),
                self.wf(),
                x == cx * CHUNK_SIZE,
                y == cy * CHUNK_SIZE,
                w == self.claim_w * CHUNK_SIZE,
                h == self.claim_h * CHUNK_SIZE,
                forall|j: int|
                    0 <= j < i ==> !obstructs(
                        #[trigger] regions@[j],
                        user_id,
                        cx,
                        cy,
                        self.claim_w as int,
                        self.claim_h as int,
                    ),
            decreases regions@.len() - i,
        {
            let r = regions[i];
            if r.flags & (FLAG_LOCKED | FLAG_FROZEN) != 0 && !(r.flags & FLAG_OWNED != 0 && r.owner
                == user_id) && (r.x as i128) < x + w && x < r.x as i128 + r.w as i128 && (
            r.y as i128) < y + h && y < r.y as i128 + r.h as i128 {
                assert(obstructs(
                    regions@[i as int],
                    user_id,
                    cx,
                    cy,
                    self.claim_w as int,
                    self.claim_h as int,
                ));
                return false;
            }
            i = i + 1;
        }
        self.drop_claims(user_id);
        self.claims.push(Claim { user_id, cx, cy });
        true
    }

    /// Remove the claim for `user_id`. Returns false if none existed.
    pub fn try_delete(&mut self, user_id: u32) -> (r: bool)
        ensures
            old(self).wf() ==> final(self).wf(),
            final(self).claim_w == old(self).claim_w,
            final(self).claim_h == old(self).claim_h,
            final(self).claims@ == claims_of_others(old(self).claims@, user_id),
            r == exists|i: int|
                0 <= i < old(self).claims@.len() && (#[trigger] old(self).claims@[i]).user_id
                    == user_id,
    {
        let ghost before = self.claims@;
        let n = self.claims.len();
        self.drop_claims(user_id);
        proof {
            lemma_others(before, user_id);
        }
        self.claims.len() < n
    }

    /// Build the combined region list (static + claims) for broadcast.
    pub fn build_regions(&self, static_regions: &[Region]) -> (r: Arc<[Region]>)
        requires
            self.wf(),
        ensures
            r@ == all_regions(
                static_regions@,
                self.claims@,
                self.claim_w as int,
                self.claim_h as int,
            ),
    {
        let mut v: Vec<Region> = Vec::new();
        let mut i: usize = 0;
        while i < static_regions.len()
            invariant
                i <= static_regions@.len(),
                v@ =~= static_regions@.take(i as int),
            decreases static_regions@.len() - i,
        {
            v.push(static_regions[i]);
            i = i + 1;
        }
        let ghost f = |c: Claim| claim_region(c, self.claim_w as int, self.claim_h as int);
        let mut k: usize = 0;
        while k < self.claims.len()
            invariant
                k <= self.claims.len(),
                self.wf(),
                f == (|c: Claim| claim_region(c, self.claim_w as int, self.claim_h as int)),
                v@ =~= static_regions@ + self.claims@.take(k as int).map_values(f),
            decreases self.claims.len() - k,
        {
            let c = self.claims[k];
            v.push(
                Region {
                    x: c.cx as i64 * CHUNK_SIZE_I64,
                    y: c.cy as i64 * CHUNK_SIZE_I64,
                    w: self.claim_w as u32 * CHUNK_SIZE as u32,
                    h: self.claim_h as u32 * CHUNK_SIZE as u32,
                    flags: FLAG_LOCKED | FLAG_OWNED,
                    owner: c.user_id,
                },
            );
            k = k + 1;
        }
        assert(v@ =~= all_regions(
            static_regions@,
            self.claims@,
            self.claim_w as int,
            self.claim_h as int,
        ));
        protocol::share_regions(v)
    }

    /// All chunk coords covered by any claim, for the simulation's owned-chunk halo isolation
    /// and for the hub's fan-out guard.
    pub fn owned_coord_map(&self) -> (map: CoordMap<()>)
        requires
            self.wf(),
            self.in_range(),
        ensures
            forall|d: ChunkCoord| #[trigger]
                map@.contains_key(d) <==> covered(
                    self.claims@,
                    self.claim_w as int,
                    self.claim_h as int,
                    d,
                ),
    {
        let ghost w = self.claim_w as int;
        let ghost h = self.claim_h as int;
        let mut map: CoordMap<()> = CoordMap::new();
        let mut i: usize = 0;
        while i < self.claims.len()
            invariant
                i <= self.claims.len(),
                self.wf(),
                self.in_range(),
                w == self.claim_w,
                h == self.claim_h,
                forall|d: ChunkCoord| #[trigger]
                    map@.contains_key(d) <==> covered(self.claims@.take(i as int), w, h, d),
            decreases self.claims.len() - i,
        {
            let c = self.claims[i];
            assert(claim_in_range(self.claims@[i as int], w, h));
            if self.claim_w > 0 && self.claim_h > 0 {
                let x1: i32 = (c.cx as i64 + self.claim_w as i64 - 1) as i32;
                let y1: i32 = (c.cy as i64 + self.claim_h as i64 - 1) as i32;
                region::insert_rect(&mut map, c.cx, c.cy, x1, y1);
            }
            proof {
                let prev = self.claims@.take(i as int);
                let next = self.claims@.take(i + 1);
                assert forall|d: ChunkCoord| #[trigger] map@.contains_key(d) <==> covered(
                    next,
                    w,
                    h,
                    d,
                ) by {
                    if covered(prev, w, h, d) {
                        let j = choose|j: int|
                            0 <= j < prev.len() && covers_chunk(#[trigger] prev[j], w, h, d);
                        assert(next[j] == prev[j]);
                    }
                    if covers_chunk(c, w, h, d) {
                        assert(next[i as int] == c);
                    }
                    if covered(next, w, h, d) {
                        let j = choose|j: int|
                            0 <= j < next.len() && covers_chunk(#[trigger] next[j], w, h, d);
                        if j < i {
                            assert(prev[j] == next[j]);
                        }
                    }
                }
            }
            i = i + 1;
        }
        assert(self.claims@.take(i as int) =~= self.claims@);
        map
    }

    /// All chunk coords covered by any claim (hub fan-out guard).
    pub fn owned_chunk_set(&self) -> (map: CoordMap<()>)
        requires
            self.wf(),
            self.in_range(),
        ensures
            forall|d: ChunkCoord| #[trigger]
                map@.contains_key(d) <==> covered(
                    self.claims@,
                    self.claim_w as int,
                    self.claim_h as int,
                    d,
                ),
    {
        self.owned_coord_map()
    }

    /// Top-left chunk coord of `user_id`'s claim, if any.
    pub fn find_for_user(&self, user_id: u32) -> (r: Option<ChunkCoord>)
        ensures
            r == claim_of(self.claims@, user_id),
    {
        let mut i: usize = 0;
        assert(self.claims@.skip(0) =~= self.claims@);
        while i < self.claims.len()
            invariant
                i <= self.claims.len(),
                claim_of(self.claims@, user_id) == claim_of(self.claims@.skip(i as int), user_id),
            decreases self.claims.len() - i,
        {
            let c = self.claims[i];
            proof {
                assert(self.claims@.skip(i as int)[0] == c);
                assert(self.claims@.skip(i as int).drop_first() =~= self.claims@.skip(i + 1));
            }
            if c.user_id == user_id {
                return Some((c.cx, c.cy));
            }
            i = i + 1;
        }
        None
    }
}

/// The first claim of `user_id`, by its first chunk.
pub open spec fn claim_of(claims: Seq<Claim>, user_id: u32) -> Option<ChunkCoord>
    decreases claims.len(),
{
    if claims.len() == 0 {
        None
    } else if claims[0].user_id == user_id {
        Some((claims[0].cx, claims[0].cy))
    } else {
        claim_of(claims.drop_first(), user_id)
    }
}

/// Fewer claims are left exactly if the user had one.
proof fn lemma_others(claims: Seq<Claim>, user_id: u32)
    ensures
        claims_of_others(claims, user_id).len() <= claims.len(),
        (claims_of_others(claims, user_id).len() < claims.len()) == exists|i: int|
            0 <= i < claims.len() && (#[trigger] claims[i]).user_id == user_id,
    decreases claims.len(),
{
    reveal_with_fuel(Seq::filter, 2);
    if claims.len() > 0 {
        let init = claims.drop_last();
        lemma_others(init, user_id);
        if exists|i: int| 0 <= i < init.len() && (#[trigger] init[i]).user_id == user_id {
            let i = choose|i: int| 0 <= i < init.len() && (#[trigger] init[i]).user_id == user_id;
            assert(claims[i].user_id == user_id);
        }
        if exists|i: int| 0 <= i < claims.len() && (#[trigger] claims[i]).user_id == user_id {
            let i = choose|i: int|
                0 <= i < claims.len() && (#[trigger] claims[i]).user_id == user_id;
            if i < init.len() {
                assert(init[i].user_id == user_id);
            }
        }
    }
}

/// No two claims have a cell in common.
pub open spec fn apart(claims: Seq<Claim>, w: int, h: int) -> bool {
    forall|i: int, j: int|
        #![trigger claims[i], claims[j]]
        0 <= i < claims.len() && 0 <= j < claims.len() && i != j ==> !overlaps(
            claim_region(claims[i], w, h),
            claims[j].cx,
            claims[j].cy,
            w,
            h,
        )
}

/// The claims of others are those claims whose user is another, in their order.
proof fn lemma_others_members(claims: Seq<Claim>, user_id: u32)
    ensures
        forall|i: int|
            0 <= i < claims_of_others(claims, user_id).len() ==> (#[trigger] claims_of_others(
                claims,
                user_id,
            )[i]).user_id != user_id,
        forall|i: int|
            0 <= i < claims_of_others(claims, user_id).len() ==> claims.contains(
                #[trigger] claims_of_others(claims, user_id)[i],
            ),
        one_each(claims) ==> one_each(claims_of_others(claims, user_id)),
        forall|v: u32|
            v != user_id ==> #[trigger] claim_of(claims_of_others(claims, user_id), v) == claim_of(
                claims,
                v,
            ),
        claim_of(claims_of_others(claims, user_id), user_id) is None,
    decreases claims.len(),
{
    reveal_with_fuel(Seq::filter, 2);
    let f = |c: Claim| c.user_id != user_id;
    let others = claims_of_others(claims, user_id);
    if claims.len() > 0 {
        let init = claims.drop_last();
        let last = claims.last();
        let rest = claims_of_others(init, user_id);
        lemma_others_members(init, user_id);
        assert forall|i: int| 0 <= i < others.len() implies claims.contains(
            #[trigger] others[i],
        ) by {
            if i < rest.len() {
                assert(others[i] == rest[i]);
                let k = choose|k: int| 0 <= k < init.len() && init[k] == rest[i];
                assert(claims[k] == others[i]);
            } else {
                assert(claims[claims.len() - 1] == others[i]);
            }
        }
        if one_each(claims) {
            assert(one_each(init)) by {
                assert forall|i: int, j: int| 0 <= i < j < init.len() implies (
                #[trigger] init[i]).user_id != (#[trigger] init[j]).user_id by {
                    assert(init[i] == claims[i] && init[j] == claims[j]);
                }
            }
            assert forall|i: int, j: int| 0 <= i < j < others.len() implies (
            #[trigger] others[i]).user_id != (#[trigger] others[j]).user_id by {
                assert(others[i] == rest[i]);
                if j < rest.len() {
                    assert(others[j] == rest[j]);
                } else {
                    assert(init.contains(rest[i]));
                    let k = choose|k: int| 0 <= k < init.len() && init[k] == rest[i];
                    assert(claims[k] == rest[i]);
                    assert(claims[claims.len() - 1] == others[j]);
                }
            }
        }
        assert forall|v: u32| #[trigger] claim_of(others, v) == (if v == user_id {
            None
        } else {
            claim_of(claims, v)
        }) by {
            lemma_claim_of_push(init, last, v);
            assert(init.push(last) =~= claims);
            if f(last) {
                lemma_claim_of_push(rest, last, v);
                assert(others =~= rest.push(last));
            } else {
                assert(others =~= rest);
            }
            assert(claim_of(rest, v) == (if v == user_id {
                None
            } else {
                claim_of(init, v)
            }));
        }
    }
}

proof fn lemma_claim_of_push(claims: Seq<Claim>, c: Claim, user_id: u32)
    ensures
        claim_of(claims.push(c), user_id) == (match claim_of(claims, user_id) {
            Some(p) => Some(p),
            None => if c.user_id == user_id {
                Some((c.cx, c.cy))
            } else {
                None
            },
        }),
    decreases claims.len(),
{
    if claims.len() > 0 {
        lemma_claim_of_push(claims.drop_first(), c, user_id);
        assert(claims.push(c).drop_first() =~= claims.drop_first().push(c));
    } else {
        reveal_with_fuel(claim_of, 2);
        assert(claims.push(c).drop_first() =~= Seq::<Claim>::empty());
    }
}

/// A claim that is granted against the combined region list leaves every user with at most one
/// claim, no two of which have a cell in common; the user holds the new claim, and every other
/// user holds what they held.
pub proof fn law_claims_stay_apart(
    fixed: Seq<Region>,
    claims: Seq<Claim>,
    w: int,
    h: int,
    user_id: u32,
    cx: i32,
    cy: i32,
)
    requires
        0 <= w <= MAX_CLAIM_SIDE,
        0 <= h <= MAX_CLAIM_SIDE,
        one_each(claims),
        apart(claims, w, h),
        forall|i: int|
            0 <= i < all_regions(fixed, claims, w, h).len() ==> !obstructs(
                #[trigger] all_regions(fixed, claims, w, h)[i],
                user_id,
                cx,
                cy,
                w,
                h,
            ),
    ensures
        ({
            let next = claims_of_others(claims, user_id).push(Claim { user_id, cx, cy });
            &&& one_each(next)
            &&& apart(next, w, h)
            &&& claim_of(next, user_id) == Some((cx, cy))
            &&& forall|v: u32|
                v != user_id ==> #[trigger] claim_of(next, v) == claim_of(claims, v)
        }),
{
    let others = claims_of_others(claims, user_id);
    let new = Claim { user_id, cx, cy };
    let next = others.push(new);
    let all = all_regions(fixed, claims, w, h);
    lemma_others_members(claims, user_id);
    assert((2u8 | 4u8) & (2u8 | 1u8) != 0 && (2u8 | 4u8) & 4u8 != 0) by (bit_vector);
    assert forall|i: int| 0 <= i < others.len() implies !overlaps(
        claim_region(#[trigger] others[i], w, h),
        cx,
        cy,
        w,
        h,
    ) && !overlaps(claim_region(new, w, h), others[i].cx, others[i].cy, w, h) by {
        let k = choose|k: int| 0 <= k < claims.len() && claims[k] == others[i];
        assert(all[fixed.len() + k] == claim_region(others[i], w, h));
        assert(!obstructs(all[fixed.len() + k], user_id, cx, cy, w, h));
    }
    assert forall|i: int, j: int|
        #![trigger next[i], next[j]]
        0 <= i < next.len() && 0 <= j < next.len() && i != j implies !overlaps(
        claim_region(next[i], w, h),
        next[j].cx,
        next[j].cy,
        w,
        h,
    ) by {
        if i < others.len() && j < others.len() {
            assert(next[i] == others[i] && next[j] == others[j]);
            let a = choose|k: int| 0 <= k < claims.len() && claims[k] == others[i];
            let b = choose|k: int| 0 <= k < claims.len() && claims[k] == others[j];
            if i < j {
                assert(others[i].user_id != others[j].user_id);
            } else {
                assert(others[j].user_id != others[i].user_id);
            }
            assert(a != b);
            assert(claims[a] == next[i] && claims[b] == next[j]);
        } else if i < others.len() {
            assert(next[i] == others[i]);
        } else {
            assert(next[j] == others[j]);
        }
    }
    assert forall|i: int, j: int| 0 <= i < j < next.len() implies (#[trigger] next[i]).user_id != (
    #[trigger] next[j]).user_id by {
        assert(next[i] == others[i]);
        if j < others.len() {
            assert(next[j] == others[j]);
        }
    }
    assert forall|v: u32| #[trigger] claim_of(next, v) == (if v == user_id {
        Some((cx, cy))
    } else {
        claim_of(claims, v)
    }) by {
        lemma_claim_of_push(others, new, v);
    }
}

/// A user who gave up their claim has none; every other user holds what they held.
pub proof fn law_deleted_claim_is_gone(claims: Seq<Claim>, user_id: u32)
    ensures
        claim_of(claims_of_others(claims, user_id), user_id) is None,
        forall|v: u32|
            v != user_id ==> #[trigger] claim_of(claims_of_others(claims, user_id), v) == claim_of(
                claims,
                v,
            ),
{
    lemma_others_members(claims, user_id);
}

/// Dropping claims keeps the others apart.
pub proof fn lemma_others_apart(claims: Seq<Claim>, w: int, h: int, user_id: u32)
    requires
        one_each(claims),
        apart(claims, w, h),
    ensures
        one_each(claims_of_others(claims, user_id)),
        apart(claims_of_others(claims, user_id), w, h),
{
    let others = claims_of_others(claims, user_id);
    lemma_others_members(claims, user_id);
    assert forall|i: int, j: int|
        #![trigger others[i], others[j]]
        0 <= i < others.len() && 0 <= j < others.len() && i != j implies !overlaps(
        claim_region(others[i], w, h),
        others[j].cx,
        others[j].cy,
        w,
        h,
    ) by {
        let a = choose|k: int| 0 <= k < claims.len() && claims[k] == others[i];
        let b = choose|k: int| 0 <= k < claims.len() && claims[k] == others[j];
        if i < j {
            assert(others[i].user_id != others[j].user_id);
        } else {
            assert(others[j].user_id != others[i].user_id);
        }
        assert(a != b);
        assert(claims[a] == others[i] && claims[b] == others[j]);
    }
}

/// Dropping claims keeps the others in range.
pub proof fn lemma_others_in_range(claims: Seq<Claim>, user_id: u32, w: int, h: int)
    requires
        forall|i: int|
            0 <= i < claims.len() ==> claim_in_range(#[trigger] claims[i], w, h),
    ensures
        forall|i: int|
            0 <= i < claims_of_others(claims, user_id).len() ==> claim_in_range(
                #[trigger] claims_of_others(claims, user_id)[i],
                w,
                h,
            ),
{
    let others = claims_of_others(claims, user_id);
    lemma_others_members(claims, user_id);
    assert forall|i: int| 0 <= i < others.len() implies claim_in_range(
        #[trigger] others[i],
        w,
        h,
    ) by {
        let k = choose|k: int| 0 <= k < claims.len() && claims[k] == others[i];
        assert(claim_in_range(claims[k], w, h));
    }
}

/// Where a user has no claim, all claims are those of others.
pub proof fn lemma_no_claim(claims: Seq<Claim>, user_id: u32)
    requires
        forall|i: int| 0 <= i < claims.len() ==> (#[trigger] claims[i]).user_id != user_id,
    ensures
        claims_of_others(claims, user_id) == claims,
    decreases claims.len(),
{
    reveal_with_fuel(Seq::filter, 2);
    if claims.len() > 0 {
        let init = claims.drop_last();
        assert forall|i: int| 0 <= i < init.len() implies (#[trigger] init[i]).user_id
            != user_id by {
            assert(init[i] == claims[i]);
        }
        lemma_no_claim(init, user_id);
        assert(claims.last() == claims[claims.len() - 1]);
        assert(init.push(claims.last()) =~= claims);
    } else {
        assert(claims_of_others(claims, user_id) =~= claims);
    }
}

/// A claim that is granted has no cell in common with any region that has the LOCKED or the FROZEN
/// flag, static regions as well as claims, unless that is an OWNED region of the same user. Where
/// the claim and all such regions have cells at all, a claim is refused only for such a common
/// cell.
pub proof fn law_grants_keep_off(
    regions: Seq<Region>,
    user_id: u32,
    cx: i32,
    cy: i32,
    w: int,
    h: int,
    granted: bool,
)
    requires
        0 <= w <= MAX_CLAIM_SIDE,
        0 <= h <= MAX_CLAIM_SIDE,
        granted == !(exists|i: int|
            0 <= i < regions.len() && obstructs(#[trigger] regions[i], user_id, cx, cy, w, h)),
    ensures
        granted ==> forall|i: int, x: int, y: int|
            #![trigger in_both(regions[i], 64 * cx, 64 * cy, 64 * w, 64 * h, x, y)]
            0 <= i < regions.len() && (regions[i].flags & 2 != 0 || regions[i].flags & 1 != 0)
                && in_both(regions[i], 64 * cx, 64 * cy, 64 * w, 64 * h, x, y)
                ==> regions[i].flags & 4 != 0 && regions[i].owner == user_id,
        !granted && w > 0 && h > 0 && (forall|i: int|
            0 <= i < regions.len() ==> (#[trigger] regions[i]).w > 0 && regions[i].h > 0)
            ==> exists|i: int, x: int, y: int|
            #![trigger in_both(regions[i], 64 * cx, 64 * cy, 64 * w, 64 * h, x, y)]
            0 <= i < regions.len() && (regions[i].flags & 2 != 0 || regions[i].flags & 1 != 0)
                && !(regions[i].flags & 4 != 0 && regions[i].owner == user_id) && in_both(
                regions[i],
                64 * cx,
                64 * cy,
                64 * w,
                64 * h,
                x,
                y,
            ),
{
    assert forall|f: u8| #[trigger] (f & (2u8 | 1u8)) != 0 <==> (f & 2 != 0 || f & 1 != 0) by {
        assert((f & (2u8 | 1u8)) != 0 <==> (f & 2 != 0 || f & 1 != 0)) by (bit_vector);
    }
    if granted {
        assert forall|i: int, x: int, y: int|
            #![trigger in_both(regions[i], 64 * cx, 64 * cy, 64 * w, 64 * h, x, y)]
            0 <= i < regions.len() && (regions[i].flags & 2 != 0 || regions[i].flags & 1 != 0)
                && in_both(regions[i], 64 * cx, 64 * cy, 64 * w, 64 * h, x, y) implies
            regions[i].flags & 4 != 0 && regions[i].owner == user_id by {
            assert(!obstructs(regions[i], user_id, cx, cy, w, h));
        }
    } else if w > 0 && h > 0 && (forall|i: int|
        0 <= i < regions.len() ==> (#[trigger] regions[i]).w > 0 && regions[i].h > 0) {
        let i = choose|i: int|
            0 <= i < regions.len() && obstructs(#[trigger] regions[i], user_id, cx, cy, w, h);
        let r = regions[i];
        let x = if r.x <= 64 * cx {
            64 * cx
        } else {
            r.x as int
        };
        let y = if r.y <= 64 * cy {
            64 * cy
        } else {
            r.y as int
        };
        assert(in_both(regions[i], 64 * cx, 64 * cy, 64 * w, 64 * h, x, y));
    }
}

/// Whether cell `(x, y)` lies both in the region and in the rectangle of `w` by `h` cells at
/// `(x0, y0)`.
pub open spec fn in_both(r: Region, x0: int, y0: int, w: int, h: int, x: int, y: int) -> bool {
    &&& r.x <= x < r.x + r.w
    &&& r.y <= y < r.y + r.h
    &&& x0 <= x < x0 + w
    &&& y0 <= y < y0 + h
}

/// The list of regions holds the static regions first, as they are, and one region for each claim
/// behind them, in the order of the claims: all cells of the chunks of the claim, LOCKED and OWNED
/// by its user.
pub proof fn law_regions_of_claims(fixed: Seq<Region>, claims: Seq<Claim>, w: int, h: int)
    requires
        0 <= w <= MAX_CLAIM_SIDE,
        0 <= h <= MAX_CLAIM_SIDE,
    ensures
        all_regions(fixed, claims, w, h).len() == fixed.len() + claims.len(),
        forall|i: int|
            0 <= i < fixed.len() ==> #[trigger] all_regions(fixed, claims, w, h)[i] == fixed[i],
        forall|i: int|
            #![trigger claims[i]]
            0 <= i < claims.len() ==> ({
                let r = all_regions(fixed, claims, w, h)[fixed.len() + i];
                &&& r.x == 64 * claims[i].cx
                &&& r.y == 64 * claims[i].cy
                &&& r.w == 64 * w
                &&& r.h == 64 * h
                &&& r.flags & 2 != 0
                &&& r.flags & 4 != 0
                &&& r.flags & 1 == 0
                &&& r.flags == 6
                &&& r.owner == claims[i].user_id
            }),
{
    assert((2u8 | 4u8) == 6u8 && 6u8 & 2u8 != 0 && 6u8 & 4u8 != 0 && 6u8 & 1u8 == 0) by (bit_vector);
}

/// The owned chunks are those whose cells lie in the rectangle of some claim.
pub proof fn law_owned_chunks_of_claims(claims: Seq<Claim>, w: int, h: int, d: ChunkCoord)
    ensures
        covered(claims, w, h, d) <==> exists|i: int|
            0 <= i < claims.len() && (#[trigger] claims[i]).cx <= d.0 && d.0 < claims[i].cx + w
                && claims[i].cy <= d.1 && d.1 < claims[i].cy + h,
{
    if covered(claims, w, h, d) {
        let i = choose|i: int| 0 <= i < claims.len() && covers_chunk(#[trigger] claims[i], w, h, d);
        assert(claims[i].cx <= d.0);
    }
    if exists|i: int|
        0 <= i < claims.len() && (#[trigger] claims[i]).cx <= d.0 && d.0 < claims[i].cx + w
            && claims[i].cy <= d.1 && d.1 < claims[i].cy + h {
        let i = choose|i: int|
            0 <= i < claims.len() && (#[trigger] claims[i]).cx <= d.0 && d.0 < claims[i].cx + w
                && claims[i].cy <= d.1 && d.1 < claims[i].cy + h;
        assert(covers_chunk(claims[i], w, h, d));
    }
}

/// After a claim was granted, the user holds the new claim and no other; after a claim was given
/// up, the user holds none. The claims of all others are there as before, in their order.
pub proof fn law_others_keep_claims(claims: Seq<Claim>, user_id: u32, cx: i32, cy: i32, c: Claim)
    ensures
        ({
            let left = claims_of_others(claims, user_id);
            let next = left.push(Claim { user_id, cx, cy });
            &&& left == claims.filter(|d: Claim| d.user_id != user_id)
            &&& left.contains(c) <==> claims.contains(c) && c.user_id != user_id
            &&& c.user_id != user_id ==> left.to_multiset().count(c) == claims.to_multiset().count(
                c,
            )
            &&& next.contains(c) <==> left.contains(c) || c == (Claim { user_id, cx, cy })
            &&& next.len() == left.len() + 1
        }),
{
    lemma_others_members(claims, user_id);
    lemma_others_count(claims, user_id, c);
    let others = claims_of_others(claims, user_id);
    let new = Claim { user_id, cx, cy };
    if others.contains(c) {
        let i = choose|i: int| 0 <= i < others.len() && others[i] == c;
        assert(others[i].user_id != user_id);
        assert(others.push(new)[i] == c);
    }
    if c == new {
        assert(others.push(new)[others.len() as int] == c);
    }
    if others.push(new).contains(c) {
        let i = choose|i: int| 0 <= i < others.push(new).len() && others.push(new)[i] == c;
        if i < others.len() {
            assert(others[i] == c);
        }
    }
    if c.user_id != user_id {
        others.to_multiset_ensures();
        claims.to_multiset_ensures();
    }
}

/// The claim that is found for a user is one of theirs, and none is found only if they have none.
pub proof fn law_claims_are_found(claims: Seq<Claim>, user_id: u32)
    ensures
        claim_of(claims, user_id) is None <==> forall|i: int|
            0 <= i < claims.len() ==> (#[trigger] claims[i]).user_id != user_id,
        claim_of(claims, user_id) matches Some(p) ==> claims.contains(
            Claim { user_id, cx: p.0, cy: p.1 },
        ),
{
    lemma_first_claim(claims, user_id);
}

proof fn lemma_others_count(claims: Seq<Claim>, user_id: u32, c: Claim)
    ensures
        c.user_id != user_id ==> claims_of_others(claims, user_id).to_multiset().count(c)
            == claims.to_multiset().count(c),
    decreases claims.len(),
{
    reveal_with_fuel(Seq::filter, 2);
    if claims.len() > 0 {
        let init = claims.drop_last();
        let last = claims.last();
        lemma_others_count(init, user_id, c);
        assert(init.push(last) =~= claims);
        init.to_multiset_ensures();
        claims_of_others(init, user_id).to_multiset_ensures();
    } else {
        assert(claims_of_others(claims, user_id) =~= claims);
    }
}

proof fn lemma_first_claim(claims: Seq<Claim>, user_id: u32)
    ensures
        claim_of(claims, user_id) is None <==> forall|i: int|
            0 <= i < claims.len() ==> (#[trigger] claims[i]).user_id != user_id,
        claim_of(claims, user_id) matches Some(p) ==> claims.contains(
            Claim { user_id, cx: p.0, cy: p.1 },
        ),
    decreases claims.len(),
{
    if claims.len() > 0 {
        let rest = claims.drop_first();
        lemma_first_claim(rest, user_id);
        assert forall|i: int| 0 <= i < rest.len() implies #[trigger] rest[i] == claims[i + 1] by {}
        if claims[0].user_id == user_id {
            assert(claims[0] == Claim { user_id, cx: claims[0].cx, cy: claims[0].cy });
        } else {
            if claim_of(rest, user_id) is None {
                assert forall|i: int| 0 <= i < claims.len() implies (#[trigger] claims[i]).user_id
                    != user_id by {
                    if i > 0 {
                        assert(rest[i - 1] == claims[i]);
                    }
                }
            } else {
                let p = claim_of(rest, user_id)->0;
                let q = Claim { user_id, cx: p.0, cy: p.1 };
                let i = choose|i: int| 0 <= i < rest.len() && rest[i] == q;
                assert(claims[i + 1] == q);
            }
        }
    }
}

/// A claim fits exactly if the coordinates of its last chunk can be written.
pub proof fn law_claims_fit(c: Claim, w: int, h: int)
    ensures
        claim_in_range(c, w, h) <==> c.cx + w <= 0x8000_0000 && c.cy + h <= 0x8000_0000,
{
}

} // verus!
