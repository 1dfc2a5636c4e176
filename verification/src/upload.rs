//! How device buffers grow and what is written to them.
use vstd::prelude::*;

verus! {

/// Whether a number is a power of two.
pub open spec fn is_power_of_two(number: nat) -> bool
    decreases number,
{
    number == 1 || (number > 1 && number % 2 == 0 && is_power_of_two(number / 2))
}

/// Whether a power of two is the smallest that is at least `number`.
pub open spec fn rounds_up_to(number: nat, power: nat) -> bool {
    is_power_of_two(power) && number <= power && (power == 1 || power < 2 * number)
}

/// The smallest power of two that is at least `number`.
pub fn round_up(number: u64) -> (power: u64)
    requires
        number <= 0x8000_0000_0000_0000,
    ensures
        rounds_up_to(number as nat, power as nat),
{
    let mut power: u64 = 1;
    while power < number
        invariant
            number <= 0x8000_0000_0000_0000,
            power >= 1,
            power <= 0x8000_0000_0000_0000,
            is_power_of_two(power as nat),
            power == 1 || power < 2 * number,
            power < number ==> power <= 0x4000_0000_0000_0000,
        decreases 0x8000_0000_0000_0000 - power,
    {
        proof {
            let doubled = (power * 2) as nat;
            assert(doubled / 2 == power as nat);
            assert(doubled % 2 == 0);
            lemma_power_gap(power as nat);
        }
        power = power * 2;
        proof {
            lemma_power_gap(power as nat);
        }
    }
    power
}

/// No power of two lies strictly between two to the 62nd and two to the 63rd.
proof fn lemma_power_gap(power: nat)
    requires
        is_power_of_two(power),
    ensures
        power < 0x8000_0000_0000_0000 ==> power <= 0x4000_0000_0000_0000,
{
    reveal_with_fuel(is_power_of_two, 66);
}

/// What part of a buffer is to be written.
#[derive(Clone, Copy, Debug, PartialEq, Eq, Structural)]
pub enum Upload {
    /// Nothing.
    Nothing,
    /// Everything.
    Everything,
    /// Everything from a position on.
    From(u64),
}

/// What is to be done with a buffer whose new elements were staged.
#[derive(Clone, Copy, Debug, PartialEq, Eq, Structural)]
pub struct BufferPlan {
    /// Capacity to be reserved first, where the buffer has to be reallocated.
    pub reserve: Option<u64>,
    /// What is to be written.
    pub upload: Upload,
    /// Number of elements that are written.
    pub written: u64,
}

/// What is to be done after staging `total` elements, of which those before
/// `first_new` are in the buffer already.
pub open spec fn buffer_plan_fits(
    plan: BufferPlan,
    first_new: int,
    total: int,
    minimum: int,
    capacity: u64,
    allocated: bool,
    rewrite: bool,
) -> bool {
    if total == 0 {
        plan == (BufferPlan { reserve: None, upload: Upload::Nothing, written: 0 })
    } else {
        let grows = !allocated || total > capacity;
        &&& plan.reserve is Some == grows
        &&& grows ==> rounds_up_to(
            (if total < minimum { minimum } else { total }) as nat,
            plan.reserve->0 as nat,
        )
        &&& if rewrite || grows {
            plan.upload is Everything && plan.written == total
        } else if first_new < total {
            plan.upload == Upload::From(first_new as u64) && plan.written == total - first_new
        } else {
            plan.upload is Nothing && plan.written == 0
        }
    }
}

/// Plans the update of a buffer to which elements are appended, or which is
/// filled anew on a reset.
pub fn plan_append(
    length: u64,
    incoming: u64,
    reset: bool,
    minimum_capacity: u64,
    capacity: u64,
    allocated: bool,
) -> (plan: BufferPlan)
    requires
        length + incoming <= 0x8000_0000_0000_0000,
        minimum_capacity <= 0x8000_0000_0000_0000,
    ensures
        ({
            let first_new = if reset { 0int } else { length as int };
            buffer_plan_fits(
                plan,
                first_new,
                first_new + incoming,
                minimum_capacity as int,
                capacity,
                allocated,
                reset,
            )
        }),
{
    let first_new: u64 = if reset { 0 } else { length };
    let total: u64 = first_new + incoming;
    if total == 0 {
        return BufferPlan { reserve: None, upload: Upload::Nothing, written: 0 };
    }
    let grows = !allocated || total > capacity;
    let reserve = if grows {
        Some(round_up(if total < minimum_capacity { minimum_capacity } else { total }))
    } else {
        None
    };
    if reset || grows {
        BufferPlan { reserve, upload: Upload::Everything, written: total }
    } else if first_new < total {
        BufferPlan { reserve, upload: Upload::From(first_new), written: total - first_new }
    } else {
        BufferPlan { reserve, upload: Upload::Nothing, written: 0 }
    }
}

/// Plans the update of a buffer whose content is replaced.
pub fn plan_replace(incoming: u64, capacity: u64, allocated: bool) -> (plan: BufferPlan)
    requires
        incoming <= 0x8000_0000_0000_0000,
    ensures
        buffer_plan_fits(plan, 0, incoming as int, 4, capacity, allocated, true),
{
    if incoming == 0 {
        return BufferPlan { reserve: None, upload: Upload::Nothing, written: 0 };
    }
    let grows = !allocated || incoming > capacity;
    let reserve = if grows {
        Some(round_up(if incoming < 4 { 4 } else { incoming }))
    } else {
        None
    };
    BufferPlan { reserve, upload: Upload::Everything, written: incoming }
}

/// A buffer that is large enough is never reallocated, and appending writes only
/// what is new.
pub proof fn law_appending_writes_only_new_elements(
    plan: BufferPlan,
    length: u64,
    incoming: u64,
    minimum: int,
    capacity: u64,
)
    requires
        incoming > 0,
        length + incoming <= capacity,
        buffer_plan_fits(
            plan,
            length as int,
            length + incoming,
            minimum,
            capacity,
            true,
            false,
        ),
    ensures
        plan.reserve is None,
        plan.upload == Upload::From(length),
        plan.written == incoming,
{
}

/// State of the shared stroke buffers between frames.
#[derive(Clone, Copy, Debug, PartialEq, Eq, Structural)]
pub struct StrokeBufferStatus {
    /// Whether bindings refer to buffers or layer tables that no longer exist.
    pub bind_group_dirty: bool,
    /// Number that changes with every reallocation.
    pub reallocation_generation: u64,
}

impl StrokeBufferStatus {
    /// Nothing was bound yet.
    pub fn new() -> (status: Self)
        ensures
            status == (StrokeBufferStatus { bind_group_dirty: true, reallocation_generation: 0 }),
    {
        StrokeBufferStatus { bind_group_dirty: true, reallocation_generation: 0 }
    }

    /// The state after buffers were written.
    pub open spec fn written(self, reallocations: u64, layers_changed: bool) -> Self {
        StrokeBufferStatus {
            bind_group_dirty: self.bind_group_dirty || reallocations > 0 || layers_changed,
            reallocation_generation: if reallocations > 0 {
                self.reallocation_generation.wrapping_add(1)
            } else {
                self.reallocation_generation
            },
        }
    }

    /// Takes in how many buffers were reallocated and whether the layer table changed.
    pub fn updated(&mut self, reallocations: u64, layers_changed: bool)
        ensures
            *final(self) == old(self).written(reallocations, layers_changed),
    {
        self.bind_group_dirty = self.bind_group_dirty || reallocations > 0 || layers_changed;
        if reallocations > 0 {
            self.reallocation_generation = self.reallocation_generation.wrapping_add(1);
        }
    }
}

/// State of the tile bindings between frames.
#[derive(Clone, Copy, Debug, PartialEq, Eq, Structural)]
pub struct TileBindingStatus {
    /// Whether bindings refer to tile buffers that no longer exist.
    pub bind_groups_dirty: bool,
    /// Generation of the stroke buffers that were bound last.
    pub stroke_buffer_generation: Option<u64>,
}

impl TileBindingStatus {
    /// Nothing was bound yet.
    pub fn new() -> (status: Self)
        ensures
            status == (TileBindingStatus {
                bind_groups_dirty: true,
                stroke_buffer_generation: None,
            }),
    {
        TileBindingStatus { bind_groups_dirty: true, stroke_buffer_generation: None }
    }

    /// Whether the bindings are stale under a generation of the stroke buffers.
    pub open spec fn stale(self, generation: u64) -> bool {
        self.bind_groups_dirty || self.stroke_buffer_generation != Some(generation)
    }

    /// The state after tile buffers were written.
    pub open spec fn written(self, reallocated: bool) -> Self {
        TileBindingStatus { bind_groups_dirty: self.bind_groups_dirty || reallocated, ..self }
    }

    /// The state after the bindings were compared with a generation of the stroke buffers.
    pub open spec fn compared(self, generation: u64) -> Self {
        TileBindingStatus { bind_groups_dirty: self.stale(generation), ..self }
    }

    /// The state after bindings were made under a generation of the stroke buffers.
    pub open spec fn rebound(self, generation: u64) -> Self {
        TileBindingStatus {
            bind_groups_dirty: false,
            stroke_buffer_generation: Some(generation),
        }
    }

    /// Takes in whether tile buffers were reallocated.
    pub fn updated(&mut self, reallocated: bool)
        ensures
            *final(self) == old(self).written(reallocated),
    {
        self.bind_groups_dirty = self.bind_groups_dirty || reallocated;
    }

    /// Whether bindings have to be made anew, which is remembered until they are.
    pub fn is_stale(&mut self, generation: u64) -> (stale: bool)
        ensures
            stale == old(self).stale(generation),
            *final(self) == old(self).compared(generation),
    {
        let bound = match self.stroke_buffer_generation {
            Some(bound) => bound == generation,
            None => false,
        };
        if !bound {
            self.bind_groups_dirty = true;
        }
        self.bind_groups_dirty
    }

    /// Remembers that bindings were made under a generation of the stroke buffers.
    pub fn bound(&mut self, generation: u64)
        ensures
            *final(self) == old(self).rebound(generation),
            !final(self).stale(generation),
    {
        self.bind_groups_dirty = false;
        self.stroke_buffer_generation = Some(generation);
    }
}

} // verus!
