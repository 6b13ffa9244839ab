//! Buffers of the device and the memory they are given.

use vstd::prelude::*;

verus! {

/// The buffer can be copied from.
pub const TRANSFER_SRC: u32 = 0x1;

/// The buffer can be copied to.
pub const TRANSFER_DST: u32 = 0x2;

/// Shaders can read and write the buffer.
pub const STORAGE_BUFFER: u32 = 0x20;

/// The buffer can hold indices.
pub const INDEX_BUFFER: u32 = 0x40;

/// The buffer can hold vertices.
pub const VERTEX_BUFFER: u32 = 0x80;

/// The buffer has an address on the device.
pub const SHADER_DEVICE_ADDRESS: u32 = 0x2_0000;

/// The buffer can be input to the build of an acceleration structure.
pub const ACCELERATION_STRUCTURE_BUILD_INPUT_READ_ONLY: u32 = 0x8_0000;

/// The buffer can hold an acceleration structure.
pub const ACCELERATION_STRUCTURE_STORAGE: u32 = 0x10_0000;

/// The memory is on the device.
pub const DEVICE_LOCAL: u32 = 0x1;

/// The host can map the memory.
pub const HOST_VISIBLE: u32 = 0x2;

/// The host and the device see each other's writes to the memory.
pub const HOST_COHERENT: u32 = 0x4;

/// The most kinds of memory that a device has.
pub const MAX_MEMORY_TYPES: usize = 32;

/// All of `flags` are set in `set`.
pub open spec fn has_flags(set: u32, flags: u32) -> bool {
    set & flags == flags
}

/// The kinds of memory of a device, by their properties.
#[derive(Debug, Clone, Copy)]
pub struct PhysicalDeviceMemoryProperties {
    pub memory_type_count: u32,
    pub memory_types: [u32; 32],
}

impl PhysicalDeviceMemoryProperties {
    pub open spec fn wf(self) -> bool {
        self.memory_type_count <= MAX_MEMORY_TYPES
    }

    /// The kind `i` is among `required_bits` and has `required_properties`.
    pub open spec fn serves(self, required_bits: u32, required_properties: u32, i: int) -> bool {
        &&& required_bits & (1u32 << i as u32) != 0
        &&& has_flags(self.memory_types@[i], required_properties)
    }
}

/// Choosing memory for a purpose.
pub trait PhysicalDeviceMemoryPropertiesExt {
    /// The kinds of memory are listed as they should be.
    spec fn listed(&self) -> bool;

    /// The number of kinds.
    spec fn kinds(&self) -> int;

    /// The kind `i` is among `required_bits` and has `required_properties`.
    spec fn usable(&self, required_bits: u32, required_properties: u32, i: int) -> bool;

    /// The first kind of memory that is among `required_bits` and has
    /// `required_properties`.
    fn mem_ty_idx(&self, required_bits: u32, required_properties: u32) -> (r: Option<u32>)
        requires
            self.listed(),
        ensures
            match r {
                Some(idx) => {
                    &&& idx < self.kinds()
                    &&& self.usable(required_bits, required_properties, idx as int)
                    &&& forall|i: int|
                        0 <= i < idx ==> !#[trigger] self.usable(
                            required_bits,
                            required_properties,
                            i,
                        )
                },
                None => forall|i: int|
                    0 <= i < self.kinds() ==> !#[trigger] self.usable(
                        required_bits,
                        required_properties,
                        i,
                    ),
            },
    ;
}

impl PhysicalDeviceMemoryPropertiesExt for PhysicalDeviceMemoryProperties {
    open spec fn listed(&self) -> bool {
        self.wf()
    }

    open spec fn kinds(&self) -> int {
        self.memory_type_count as int
    }

    open spec fn usable(&self, required_bits: u32, required_properties: u32, i: int) -> bool {
        self.serves(required_bits, required_properties, i)
    }

    fn mem_ty_idx(&self, required_bits: u32, required_properties: u32) -> (r: Option<u32>) {
        let n: u32 = self.memory_type_count;
        let mut idx: u32 = 0;
        while idx < n
            invariant
                idx <= n == self.memory_type_count,
                self.wf(),
                forall|i: int|
                    0 <= i < idx ==> !#[trigger] self.usable(required_bits, required_properties, i),
            decreases n - idx,
        {
            let memory_properties: u32 = self.memory_types[idx as usize];
            if (required_bits & (1u32 << idx)) != 0 && (memory_properties & required_properties)
                == required_properties {
                assert(self.serves(required_bits, required_properties, idx as int));
                return Some(idx);
            }
            assert(!self.serves(required_bits, required_properties, idx as int));
            idx = idx + 1;
        }
        None
    }
}

/// A buffer: its size, what it is used for, and the properties of its memory.
#[derive(Debug, Clone, Copy, PartialEq, Eq, Structural)]
pub struct Buffer {
    pub size: u64,
    pub usage: u32,
    pub memory_properties: u32,
}

/// What a device asks for to back a buffer.
#[derive(Debug, Clone, Copy, PartialEq, Eq, Structural)]
pub struct MemoryRequirements {
    pub size: u64,
    pub memory_type_bits: u32,
}

/// The memory that backs a buffer.
#[derive(Debug, Clone, Copy, PartialEq, Eq, Structural)]
pub struct Allocation {
    pub size: u64,
    pub memory_type_index: u32,
    /// The memory has an address on the device.
    pub device_address: bool,
}

impl Buffer {
    pub open spec fn of(size: u64, usage: u32, memory_properties: u32) -> Buffer {
        Buffer { size, usage, memory_properties }
    }

    /// A buffer that the host fills and the device copies from.
    pub open spec fn staging_spec(size: u64) -> Buffer {
        Buffer::of(size, TRANSFER_SRC, HOST_VISIBLE | HOST_COHERENT)
    }

    /// A buffer on the device.
    pub open spec fn local_spec(size: u64, usage: u32) -> Buffer {
        Buffer::of(size, usage, DEVICE_LOCAL)
    }

    pub fn new(size: u64, usage: u32, memory_properties: u32) -> (r: Buffer)
        ensures
            r == Buffer::of(size, usage, memory_properties),
    {
        Buffer { size, usage, memory_properties }
    }

    /// A buffer that the host fills and the device copies from.
    pub fn staging(size: u64) -> (r: Buffer)
        ensures
            r == Buffer::staging_spec(size),
    {
        Buffer::new(size, TRANSFER_SRC, HOST_VISIBLE | HOST_COHERENT)
    }

    /// A buffer on the device.
    pub fn local(size: u64, usage: u32) -> (r: Buffer)
        ensures
            r == Buffer::local_spec(size, usage),
    {
        Buffer::new(size, usage, DEVICE_LOCAL)
    }

    pub fn size(&self) -> (r: u64)
        ensures
            r == self.size,
    {
        self.size
    }

    /// The memory that backs the buffer: of the first kind that the device allows
    /// and that has the properties, as much as it asks for, and with an address
    /// where the buffer needs one. There may be no such kind.
    pub fn allocation(
        &self,
        memory: &PhysicalDeviceMemoryProperties,
        required: MemoryRequirements,
    ) -> (r: Option<Allocation>)
        requires
            memory.wf(),
        ensures
            match r {
                Some(a) => {
                    let idx = a.memory_type_index as int;
                    &&& idx < memory.memory_type_count
                    &&& memory.serves(required.memory_type_bits, self.memory_properties, idx)
                    &&& forall|i: int|
                        0 <= i < idx ==> !#[trigger] memory.serves(
                            required.memory_type_bits,
                            self.memory_properties,
                            i,
                        )
                    &&& a.size == required.size
                    &&& a.device_address == has_flags(self.usage, SHADER_DEVICE_ADDRESS)
                },
                None => forall|i: int|
                    0 <= i < memory.memory_type_count ==> !#[trigger] memory.serves(
                        required.memory_type_bits,
                        self.memory_properties,
                        i,
                    ),
            },
    {
        match memory.mem_ty_idx(required.memory_type_bits, self.memory_properties) {
            Some(idx) => {
                assert forall|i: int| 0 <= i < idx implies !#[trigger] memory.serves(
                    required.memory_type_bits,
                    self.memory_properties,
                    i,
                ) by {
                    assert(!memory.usable(required.memory_type_bits, self.memory_properties, i));
                }
                Some(
                    Allocation {
                        size: required.size,
                        memory_type_index: idx,
                        device_address: self.usage & SHADER_DEVICE_ADDRESS
                            == SHADER_DEVICE_ADDRESS,
                    },
                )
            },
            None => {
                assert forall|i: int|
                    0 <= i < memory.memory_type_count implies !#[trigger] memory.serves(
                    required.memory_type_bits,
                    self.memory_properties,
                    i,
                ) by {
                    assert(!memory.usable(required.memory_type_bits, self.memory_properties, i));
                }
                None
            },
        }
    }
}

/// Flags are there if and only if each of them is: none always are, and of two sets all are
/// there where both sets are; a single one is there where its bit is set.
pub proof fn flags_are_there_one_by_one(set: u32, a: u32, b: u32, i: u32)
    requires
        i < 32,
    ensures
        has_flags(set, 0),
        has_flags(set, a | b) <==> has_flags(set, a) && has_flags(set, b),
        has_flags(set, 1u32 << i) <==> (set >> i) & 1 == 1,
{
    assert(set & 0 == 0) by (bit_vector);
    assert((set & (a | b) == a | b) <==> (set & a == a) && (set & b == b)) by (bit_vector);
    assert((set & (1u32 << i) == 1u32 << i) <==> (set >> i) & 1 == 1) by (bit_vector)
        requires
            i < 32,
    ;
}

/// A kind of memory serves a purpose if and only if the device allows it, by the bit of
/// its number, and it has every property that is asked for. Asking for fewer properties,
/// or allowing more kinds, leaves it so.
pub proof fn memory_serves_what_it_allows(
    memory: PhysicalDeviceMemoryProperties,
    bits: u32,
    more_bits: u32,
    a: u32,
    b: u32,
    i: int,
)
    requires
        0 <= i < 32,
    ensures
        memory.serves(bits, a, i) <==> (bits >> i as u32) & 1 == 1 && has_flags(
            memory.memory_types@[i],
            a,
        ),
        memory.serves(bits, a | b, i) ==> memory.serves(bits | more_bits, a, i),
{
    let j = i as u32;
    flags_are_there_one_by_one(memory.memory_types@[i], a, b, 0);
    assert((bits & (1u32 << j) != 0 <==> (bits >> j) & 1 == 1) && (bits & (1u32 << j) != 0 ==> (bits
        | more_bits) & (1u32 << j) != 0)) by (bit_vector)
        requires
            j < 32,
    ;
}

/// Buffers that the host fills are copied from, and in memory that it sees; buffers of the
/// device are in its own memory, for what they are made for. Each has the size that was
/// asked for.
pub proof fn buffers_are_where_they_are_used(size: u64, usage: u32)
    ensures
        Buffer::staging_spec(size).size == size,
        Buffer::staging_spec(size).usage == 0x1,
        Buffer::staging_spec(size).memory_properties == 0x6,
        Buffer::local_spec(size, usage).size == size,
        Buffer::local_spec(size, usage).usage == usage,
        Buffer::local_spec(size, usage).memory_properties == 0x1,
{
    assert(0x2u32 | 0x4u32 == 0x6u32) by (bit_vector);
}

} // verus!
