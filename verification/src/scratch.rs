//! Accounting of the transient planes that paint and effect passes lease.
use crate::paint::PaintPlaneDescriptor;
use std::collections::BTreeSet;
use vstd::prelude::*;

verus! {

broadcast use vstd::laws_cmp::group_laws_cmp;

/// Opaque scratch-plane allocation token.
#[derive(Clone, Copy, Debug, PartialEq, Eq, Structural)]
pub struct ScratchPlaneLease {
    id: u64,
    bytes: u64,
}

impl ScratchPlaneLease {
    /// Token number within the pool that issued the lease.
    pub closed spec fn token(self) -> u64 {
        self.id
    }

    /// Bytes that the lease holds.
    pub closed spec fn size(self) -> u64 {
        self.bytes
    }
}

/// Mathematical value of a [`ScratchPlanePool`].
#[verifier::ext_equal]
pub struct ScratchPoolModel {
    /// Aggregate transient memory limit.
    pub budget: u64,
    /// Bytes currently leased.
    pub leased: u64,
    /// Peak of the leased bytes.
    pub high_water: u64,
    /// Tokens of the outstanding leases.
    pub leases: Set<u64>,
    /// Token of the next lease.
    pub next_lease: u64,
}

/// Pixels of `tile_count` square tiles.
pub open spec fn pixel_count(tile_size: u32, tile_count: u32) -> nat {
    (tile_size as nat) * (tile_size as nat) * (tile_count as nat)
}

/// Bytes that all planes together need for `pixels` pixels.
pub open spec fn plane_bytes(planes: Seq<PaintPlaneDescriptor>, pixels: nat) -> nat
    decreases planes.len(),
{
    if planes.len() == 0 {
        0
    } else {
        plane_bytes(planes.drop_last(), pixels) + planes.last().format.pixel_cost() * pixels
    }
}

/// The first planes of a list cost no more than all of them.
pub proof fn lemma_plane_bytes_grow(planes: Seq<PaintPlaneDescriptor>, pixels: nat, count: int)
    requires
        0 <= count < planes.len(),
    ensures
        plane_bytes(planes.take(count + 1), pixels) == plane_bytes(planes.take(count), pixels)
            + planes[count].format.pixel_cost() * pixels,
        plane_bytes(planes.take(count + 1), pixels) <= plane_bytes(planes, pixels),
    decreases planes.len() - count,
{
    let longer = planes.take(count + 1);
    assert(longer.drop_last() =~= planes.take(count));
    assert(longer.last() == planes[count]);
    if count + 1 < planes.len() {
        lemma_plane_bytes_grow(planes, pixels, count + 1);
        assert(planes[count + 1].format.pixel_cost() * pixels >= 0) by (nonlinear_arith);
    } else {
        assert(longer =~= planes);
    }
}

impl ScratchPoolModel {
    /// The leased bytes stay within the budget and below the recorded peak.
    pub open spec fn well_formed(self) -> bool {
        self.leased <= self.budget && self.leased <= self.high_water
    }

    /// Whether `bytes` more fit into the budget.
    pub open spec fn admits(self, bytes: nat) -> bool {
        self.leased + bytes <= self.budget
    }

    /// The pool with another budget, or with what is leased where that is more.
    pub open spec fn with_budget(self, budget: u64) -> Self {
        ScratchPoolModel {
            budget: if budget < self.leased { self.leased } else { budget },
            ..self
        }
    }

    /// The pool after granting a lease of `bytes`.
    pub open spec fn with_lease(self, bytes: nat) -> Self {
        let leased = (self.leased + bytes) as u64;
        ScratchPoolModel {
            leased,
            high_water: if self.high_water < leased { leased } else { self.high_water },
            leases: self.leases.insert(self.next_lease),
            next_lease: self.next_lease.wrapping_add(1),
            ..self
        }
    }

    /// The pool after a lease came back.
    pub open spec fn without_lease(self, lease: ScratchPlaneLease) -> Self {
        if self.leases.contains(lease.token()) {
            ScratchPoolModel {
                leased: self.leased.saturating_sub(lease.size()),
                leases: self.leases.remove(lease.token()),
                ..self
            }
        } else {
            self
        }
    }
}

/// Reusable scratch-plane allocator shared by every registered paint/effect pass.
#[derive(Clone, Debug)]
pub struct ScratchPlanePool {
    budget_bytes: u64,
    leased_bytes: u64,
    high_water_bytes: u64,
    leases: BTreeSet<u64>,
    next_lease: u64,
}

impl View for ScratchPlanePool {
    type V = ScratchPoolModel;

    closed spec fn view(&self) -> ScratchPoolModel {
        ScratchPoolModel {
            budget: self.budget_bytes,
            leased: self.leased_bytes,
            high_water: self.high_water_bytes,
            leases: self.leases@,
            next_lease: self.next_lease,
        }
    }
}

impl ScratchPlanePool {
    /// The leased bytes stay within the budget and below the recorded peak.
    pub open spec fn well_formed(&self) -> bool {
        self@.well_formed()
    }

    /// Creates a pool with one aggregate transient memory limit.
    pub fn with_budget(budget_bytes: u64) -> (pool: Self)
        ensures
            pool.well_formed(),
            pool@ == (ScratchPoolModel {
                budget: budget_bytes,
                leased: 0,
                high_water: 0,
                leases: Set::empty(),
                next_lease: 0,
            }),
    {
        ScratchPlanePool {
            budget_bytes,
            leased_bytes: 0,
            high_water_bytes: 0,
            leases: BTreeSet::new(),
            next_lease: 0,
        }
    }

    /// Updates the transient budget after persistent tile allocations change.
    ///
    /// The budget never drops below what is leased.
    pub fn set_budget(&mut self, budget_bytes: u64)
        requires
            old(self).well_formed(),
        ensures
            final(self).well_formed(),
            final(self)@ == old(self)@.with_budget(budget_bytes),
    {
        self.budget_bytes =
        if budget_bytes < self.leased_bytes { self.leased_bytes } else { budget_bytes };
    }

    /// Bytes currently leased by in-flight effect work.
    pub fn leased_bytes(&self) -> (bytes: u64)
        ensures
            bytes == self@.leased,
    {
        self.leased_bytes
    }

    /// Attempts to lease all listed planes for `tile_count` tiles.
    ///
    /// The request's size must be a 64-bit number, as must the leased total
    /// of a pool without a limit.
    pub fn lease(
        &mut self,
        planes: &[PaintPlaneDescriptor],
        tile_size: u32,
        tile_count: u32,
    ) -> (lease: Option<ScratchPlaneLease>)
        requires
            old(self).well_formed(),
            pixel_count(tile_size, tile_count) <= u64::MAX,
            plane_bytes(planes@, pixel_count(tile_size, tile_count)) <= u64::MAX,
            old(self)@.budget == u64::MAX ==> old(self)@.leased + plane_bytes(
                planes@,
                pixel_count(tile_size, tile_count),
            ) <= u64::MAX,
        ensures
            final(self).well_formed(),
            ({
                let bytes = plane_bytes(planes@, pixel_count(tile_size, tile_count));
                if old(self)@.admits(bytes) {
                    &&& lease matches Some(granted)
                    &&& granted.token() == old(self)@.next_lease
                    &&& granted.size() == bytes
                    &&& final(self)@ == old(self)@.with_lease(bytes)
                } else {
                    &&& lease is None
                    &&& final(self)@ == old(self)@
                }
            }),
    {
        let ghost count = pixel_count(tile_size, tile_count);
        proof {
            assert((tile_size as nat) * (tile_size as nat) <= 0xffff_ffff * 0xffff_ffff)
                by (nonlinear_arith)
                requires
                    tile_size <= 0xffff_ffff,
            ;
        }
        let area: u64 = tile_size as u64 * tile_size as u64;
        let pixels: u64 = area * tile_count as u64;
        let mut bytes: u64 = 0;
        for i in 0..planes.len()
            invariant
                pixels == count,
                plane_bytes(planes@, count) <= u64::MAX,
                bytes == plane_bytes(planes@.take(i as int), count),
        {
            proof {
                lemma_plane_bytes_grow(planes@, count, i as int);
            }
            let cost: u64 = planes[i].format.bytes_per_pixel();
            assert(cost * pixels >= 0) by (nonlinear_arith)
                requires
                    cost >= 0,
                    pixels >= 0,
            ;
            bytes = bytes + cost * pixels;
        }
        assert(planes@.take(planes@.len() as int) =~= planes@);
        if self.leased_bytes.saturating_add(bytes) > self.budget_bytes {
            return None;
        }
        let id: u64 = self.next_lease;
        self.next_lease = self.next_lease.wrapping_add(1);
        self.leases.insert(id);
        self.leased_bytes = self.leased_bytes + bytes;
        if self.high_water_bytes < self.leased_bytes {
            self.high_water_bytes = self.leased_bytes;
        }
        Some(ScratchPlaneLease { id, bytes })
    }

    /// Returns a lease to the pool. Duplicate releases are ignored.
    pub fn release(&mut self, lease: ScratchPlaneLease)
        requires
            old(self).well_formed(),
        ensures
            final(self).well_formed(),
            final(self)@ == old(self)@.without_lease(lease),
    {
        if self.leases.remove(&lease.id) {
            self.leased_bytes = self.leased_bytes.saturating_sub(lease.bytes);
        }
    }

    /// Peak transient usage since the pool was created.
    pub fn high_water_bytes(&self) -> (bytes: u64)
        ensures
            bytes == self@.high_water,
    {
        self.high_water_bytes
    }
}

impl Default for ScratchPlanePool {
    /// A pool that admits nothing but empty leases.
    fn default() -> (pool: Self)
        ensures
            pool.well_formed(),
            pool@ == (ScratchPoolModel {
                budget: 0,
                leased: 0,
                high_water: 0,
                leases: Set::empty(),
                next_lease: 0,
            }),
    {
        ScratchPlanePool::with_budget(0)
    }
}

/// Releasing a lease again changes nothing.
pub proof fn law_duplicate_release_is_ignored(pool: ScratchPoolModel, lease: ScratchPlaneLease)
    ensures
        pool.without_lease(lease).without_lease(lease) == pool.without_lease(lease),
{
}

/// The pool after granting leases of the first `count` sizes.
pub open spec fn leased_in_turn(pool: ScratchPoolModel, sizes: Seq<nat>, count: nat) -> ScratchPoolModel
    decreases count,
{
    if count == 0 {
        pool
    } else {
        leased_in_turn(pool, sizes, (count - 1) as nat).with_lease(sizes[count - 1])
    }
}

/// Whether the budget admits each of the first `count` leases, one after the other.
pub open spec fn admitted_in_turn(pool: ScratchPoolModel, sizes: Seq<nat>, count: nat) -> bool {
    forall|i: nat|
        i < count ==> (#[trigger] leased_in_turn(pool, sizes, i)).admits(sizes[i as int])
}

/// Fewer than two to the 64th leases after a token was issued do not issue it again.
proof fn lemma_tokens_in_turn(
    pool: ScratchPoolModel,
    token: u64,
    passed: nat,
    sizes: Seq<nat>,
    count: nat,
)
    requires
        pool.next_lease == (token + 1 + passed) % 0x1_0000_0000_0000_0000,
        passed + count <= u64::MAX,
    ensures
        leased_in_turn(pool, sizes, count).next_lease == (token + 1 + passed + count)
            % 0x1_0000_0000_0000_0000,
        leased_in_turn(pool, sizes, count).leases.contains(token) == pool.leases.contains(token),
    decreases count,
{
    if count > 0 {
        lemma_tokens_in_turn(pool, token, passed, sizes, (count - 1) as nat);
        assert((token + passed + count) % 0x1_0000_0000_0000_0000 != token);
    }
}

/// Granting leases that the budget admits takes no leased byte away.
proof fn lemma_leased_in_turn(pool: ScratchPoolModel, sizes: Seq<nat>, count: nat)
    requires
        pool.leased <= pool.budget,
        admitted_in_turn(pool, sizes, count),
    ensures
        pool.leased <= leased_in_turn(pool, sizes, count).leased <= pool.budget,
        leased_in_turn(pool, sizes, count).budget == pool.budget,
    decreases count,
{
    if count > 0 {
        lemma_leased_in_turn(pool, sizes, (count - 1) as nat);
        assert(leased_in_turn(pool, sizes, (count - 1) as nat).admits(sizes[count - 1]));
    }
}

/// Releasing a lease takes exactly its bytes off and leaves the peak alone, and releasing
/// it again changes nothing, also when other leases were granted in between.
///
/// Tokens are 64-bit numbers: more leases in between would issue one again.
pub proof fn law_release_takes_effect_once(
    pool: ScratchPoolModel,
    lease: ScratchPlaneLease,
    bytes: nat,
    earlier: Seq<nat>,
    later: Seq<nat>,
)
    requires
        pool.well_formed(),
        pool.admits(bytes),
        lease.token() == pool.next_lease,
        lease.size() == bytes,
        admitted_in_turn(pool.with_lease(bytes), earlier, earlier.len()),
        earlier.len() + later.len() <= u64::MAX,
    ensures
        ({
            let held = leased_in_turn(pool.with_lease(bytes), earlier, earlier.len());
            let released = held.without_lease(lease);
            let busy = leased_in_turn(released, later, later.len());
            &&& released.leased == held.leased - bytes
            &&& released.high_water == held.high_water
            &&& busy.without_lease(lease) == busy
        }),
{
    let granted = pool.with_lease(bytes);
    let token = lease.token();
    lemma_tokens_in_turn(granted, token, 0, earlier, earlier.len());
    lemma_leased_in_turn(granted, earlier, earlier.len());
    let held = leased_in_turn(granted, earlier, earlier.len());
    let released = held.without_lease(lease);
    lemma_tokens_in_turn(released, token, earlier.len(), later, later.len());
}

/// Releasing a lease that was just granted gives its bytes back, and the peak
/// remembers them.
pub proof fn law_release_returns_the_bytes(
    pool: ScratchPoolModel,
    lease: ScratchPlaneLease,
    bytes: nat,
)
    requires
        pool.well_formed(),
        pool.admits(bytes),
        lease.token() == pool.next_lease,
        lease.size() == bytes,
    ensures
        pool.with_lease(bytes).without_lease(lease).leased == pool.leased,
        pool.with_lease(bytes).without_lease(lease).high_water >= pool.leased + bytes,
{
}

} // verus!
