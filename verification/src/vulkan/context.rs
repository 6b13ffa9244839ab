//! Which device is used, and which of its queues.

use vstd::prelude::*;

use crate::text;
use crate::vulkan::names;

verus! {

broadcast use vstd::string::group_string_axioms;

/// The queue can draw.
pub const GRAPHICS: u32 = 0x1;

/// Why no device can be used.
#[derive(Debug)]
pub enum ContextError {
    /// The layer with this name is not there.
    LayerNotSupported(Vec<u8>),
    NoPhysicalDevice,
    NoQueueFamily,
}

impl ContextError {
    /// The error as a message to the user.
    pub open spec fn text(self) -> Seq<char> {
        match self {
            ContextError::LayerNotSupported(layer) => "Layer '"@ + text::utf8_lossy(layer@)
                + "' is not supported"@,
            ContextError::NoPhysicalDevice => "Failed to find physical device"@,
            ContextError::NoQueueFamily => "Failed to find queue family index"@,
        }
    }

    /// The error as a message to the user.
    pub fn message(&self) -> (r: String)
        ensures
            r@ == self.text(),
    {
        match self {
            ContextError::LayerNotSupported(layer) => {
                let mut out = "Layer '".to_owned();
                let name: String = text::from_utf8_lossy(layer.as_slice());
                out.append(name.as_str());
                out.append("' is not supported");
                out
            },
            ContextError::NoPhysicalDevice => "Failed to find physical device".to_owned(),
            ContextError::NoQueueFamily => "Failed to find queue family index".to_owned(),
        }
    }
}

/// The name of the layer that checks how the device is used.
pub open spec fn validation_layer_name() -> Seq<u8> {
    vstd::utf8::encode_utf8("VK_LAYER_KHRONOS_validation"@)
}

/// The layers to ask for: the one that checks how the device is used, if it is wanted
/// and there.
pub fn instance_layers(validation_layer: bool, supported_layers: &[Vec<u8>]) -> (r: Vec<Vec<u8>>)
    ensures
        if validation_layer && names::is_listed(supported_layers@, validation_layer_name()) {
            r@.len() == 1 && r@[0]@ == validation_layer_name()
        } else {
            r@.len() == 0
        },
        names::all_listed(supported_layers@, r@),
{
    let mut layers: Vec<Vec<u8>> = Vec::new();
    let name: Vec<u8> = "VK_LAYER_KHRONOS_validation".as_bytes_vec();
    if validation_layer && names::listed(supported_layers, &name) {
        layers.push(name);
    }
    layers
}

/// Whether all layers that are asked for are there. The first one that is not is
/// reported.
pub fn check_layers(instance_layers: &[Vec<u8>], supported_layers: &[Vec<u8>]) -> (r: Result<
    (),
    ContextError,
>)
    ensures
        match r {
            Ok(_) => names::all_listed(supported_layers@, instance_layers@),
            Err(e) => {
                &&& e matches ContextError::LayerNotSupported(layer)
                &&& exists|i: int|
                    {
                        &&& 0 <= i < instance_layers@.len()
                        &&& layer@ == (#[trigger] instance_layers@[i])@
                        &&& !names::is_listed(supported_layers@, layer@)
                        &&& forall|j: int|
                            0 <= j < i ==> names::is_listed(
                                supported_layers@,
                                (#[trigger] instance_layers@[j])@,
                            )
                    }
            },
        },
{
    let i: usize = names::first_unlisted(supported_layers, instance_layers);
    if i < instance_layers.len() {
        let layer: Vec<u8> = instance_layers[i].clone();
        assert(layer@ =~= instance_layers@[i as int]@);
        Err(ContextError::LayerNotSupported(layer))
    } else {
        Ok(())
    }
}

/// Queues of one kind.
#[derive(Debug, Clone, Copy, PartialEq, Eq, Structural)]
pub struct QueueFamily {
    pub queue_count: u32,
    pub queue_flags: u32,
    pub timestamp_valid_bits: u32,
}

impl QueueFamily {
    /// It has a queue that can draw.
    pub open spec fn draws(self) -> bool {
        self.queue_count > 0 && self.queue_flags & GRAPHICS == GRAPHICS
    }
}

/// A device.
#[derive(Debug)]
pub struct PhysicalDevice {
    pub device_id: u32,
    /// The names of its extensions, where they could be listed.
    pub extensions: Option<Vec<Vec<u8>>>,
    pub queue_families: Vec<QueueFamily>,
}

impl PhysicalDevice {
    /// It is the one that is asked for: by its number, or else by the extensions
    /// that it must have.
    pub open spec fn is_wanted(
        self,
        device_extensions: Seq<Vec<u8>>,
        device_id: Option<u32>,
    ) -> bool {
        match device_id {
            Some(id) => self.device_id == id,
            None => self.extensions is Some && names::all_listed(
                self.extensions->0@,
                device_extensions,
            ),
        }
    }

    /// It is the one that is asked for.
    fn wanted(&self, device_extensions: &[Vec<u8>], device_id: Option<u32>) -> (r: bool)
        ensures
            r == self.is_wanted(device_extensions@, device_id),
    {
        match device_id {
            Some(id) => self.device_id == id,
            None => match &self.extensions {
                Some(extensions) => names::first_unlisted(extensions.as_slice(), device_extensions)
                    == device_extensions.len(),
                None => false,
            },
        }
    }
}

/// The first device that is asked for is at `i`.
pub open spec fn first_wanted(
    devices: Seq<PhysicalDevice>,
    device_extensions: Seq<Vec<u8>>,
    device_id: Option<u32>,
    i: int,
) -> bool {
    &&& 0 <= i < devices.len()
    &&& devices[i].is_wanted(device_extensions, device_id)
    &&& forall|j: int|
        0 <= j < i ==> !(#[trigger] devices[j]).is_wanted(device_extensions, device_id)
}

/// The first kind of queue that can draw is at `i`.
pub open spec fn first_drawing(families: Seq<QueueFamily>, i: int) -> bool {
    &&& 0 <= i < families.len()
    &&& families[i].draws()
    &&& forall|j: int| 0 <= j < i ==> !(#[trigger] families[j]).draws()
}

/// The device that is used, as its place among the devices, and the kind of queue.
#[derive(Debug, Clone, Copy, PartialEq, Eq, Structural)]
pub struct VulkanContext {
    pub physical_device: usize,
    pub queue_family_index: u32,
    pub timestamp_valid_bits: u32,
}

impl VulkanContext {
    /// Chooses a device and a queue: the first device that is asked for, and the
    /// first of its kinds of queues that can draw.
    pub fn new(
        devices: &[PhysicalDevice],
        device_extensions: &[Vec<u8>],
        device_id: Option<u32>,
    ) -> (r: Result<VulkanContext, ContextError>)
        ensures
            match r {
                Ok(c) => {
                    let d = c.physical_device as int;
                    &&& first_wanted(devices@, device_extensions@, device_id, d)
                    &&& exists|q: int|
                        {
                            &&& #[trigger] first_drawing(devices@[d].queue_families@, q)
                            &&& c.queue_family_index == q as u32
                            &&& c.timestamp_valid_bits
                                == devices@[d].queue_families@[q].timestamp_valid_bits
                        }
                },
                Err(ContextError::NoPhysicalDevice) => forall|d: int|
                    !first_wanted(devices@, device_extensions@, device_id, d),
                Err(ContextError::NoQueueFamily) => exists|d: int|
                    {
                        &&& #[trigger] first_wanted(devices@, device_extensions@, device_id, d)
                        &&& forall|q: int| !first_drawing(devices@[d].queue_families@, q)
                    },
                Err(ContextError::LayerNotSupported(_)) => false,
            },
    {
        let n: usize = devices.len();
        let mut i: usize = 0;
        while i < n
            invariant
                i <= n == devices@.len(),
                forall|j: int|
                    0 <= j < i ==> !(#[trigger] devices@[j]).is_wanted(
                        device_extensions@,
                        device_id,
                    ),
            decreases n - i,
        {
            if devices[i].wanted(device_extensions, device_id) {
                assert(first_wanted(devices@, device_extensions@, device_id, i as int));
                return Self::choose_queue(i, &devices[i].queue_families);
            }
            i = i + 1;
        }
        Err(ContextError::NoPhysicalDevice)
    }

    /// Chooses the first kind of queue that can draw.
    fn choose_queue(device: usize, families: &Vec<QueueFamily>) -> (r: Result<
        VulkanContext,
        ContextError,
    >)
        ensures
            match r {
                Ok(c) => c.physical_device == device && exists|q: int|
                    {
                        &&& #[trigger] first_drawing(families@, q)
                        &&& c.queue_family_index == q as u32
                        &&& c.timestamp_valid_bits == families@[q].timestamp_valid_bits
                    },
                Err(e) => e is NoQueueFamily && forall|q: int| !first_drawing(families@, q),
            },
    {
        let n: usize = families.len();
        let mut i: usize = 0;
        while i < n
            invariant
                i <= n == families@.len(),
                forall|j: int| 0 <= j < i ==> !(#[trigger] families@[j]).draws(),
            decreases n - i,
        {
            let family = &families[i];
            if family.queue_count > 0 && family.queue_flags & GRAPHICS == GRAPHICS {
                assert(first_drawing(families@, i as int));
                return Ok(
                    VulkanContext {
                        physical_device: device,
                        queue_family_index: #[verifier::truncate]
                        (i as u32),
                        timestamp_valid_bits: family.timestamp_valid_bits,
                    },
                );
            }
            i = i + 1;
        }
        Err(ContextError::NoQueueFamily)
    }
}

/// A choice is fixed: no two devices are the first one that is asked for, and no
/// two kinds of queues the first one that can draw.
pub proof fn choice_is_unique(
    devices: Seq<PhysicalDevice>,
    device_extensions: Seq<Vec<u8>>,
    device_id: Option<u32>,
    families: Seq<QueueFamily>,
)
    ensures
        forall|a: int, b: int|
            first_wanted(devices, device_extensions, device_id, a) && first_wanted(
                devices,
                device_extensions,
                device_id,
                b,
            ) ==> a == b,
        forall|a: int, b: int|
            first_drawing(families, a) && first_drawing(families, b) ==> a == b,
{
    assert forall|a: int, b: int|
        first_wanted(devices, device_extensions, device_id, a) && first_wanted(
            devices,
            device_extensions,
            device_id,
            b,
        ) implies a == b by {
        if a < b {
            assert(!devices[a].is_wanted(device_extensions, device_id));
        } else if b < a {
            assert(!devices[b].is_wanted(device_extensions, device_id));
        }
    }
    assert forall|a: int, b: int|
        first_drawing(families, a) && first_drawing(families, b) implies a == b by {
        if a < b {
            assert(!families[a].draws());
        } else if b < a {
            assert(!families[b].draws());
        }
    }
}

/// A device that is asked for by its number is wanted for that alone, whatever extensions
/// it has. Without a number it is wanted if and only if it could list its extensions and
/// every one that is asked for is among them; so asking for fewer leaves it wanted, and
/// asking for none takes every device that could list them.
pub proof fn devices_are_wanted_for_what_they_are(
    d: PhysicalDevice,
    wanted: Seq<Vec<u8>>,
    more: Seq<Vec<u8>>,
    id: u32,
)
    ensures
        d.is_wanted(wanted, Some(id)) <==> d.device_id == id,
        d.extensions is None ==> !d.is_wanted(wanted, None),
        d.extensions matches Some(there) ==> {
            &&& d.is_wanted(Seq::empty(), None)
            &&& d.is_wanted(wanted, None) <==> forall|i: int|
                0 <= i < wanted.len() ==> names::bytes_of(there@).contains(
                    (#[trigger] wanted[i])@,
                )
            &&& d.is_wanted(wanted + more, None) <==> d.is_wanted(wanted, None) && d.is_wanted(
                more,
                None,
            )
        },
{
    if let Some(there) = d.extensions {
        let all = wanted + more;
        assert forall|i: int| 0 <= i < wanted.len() implies #[trigger] all[i] == wanted[i] by {}
        if d.is_wanted(all, None) {
            assert forall|i: int| 0 <= i < wanted.len() implies names::is_listed(
                there@,
                (#[trigger] wanted[i])@,
            ) by {
                assert(names::is_listed(there@, all[i]@));
            }
            assert forall|i: int| 0 <= i < more.len() implies names::is_listed(
                there@,
                (#[trigger] more[i])@,
            ) by {
                assert(names::is_listed(there@, all[wanted.len() + i]@));
            }
        }
        if d.is_wanted(wanted, None) && d.is_wanted(more, None) {
            assert forall|i: int| 0 <= i < all.len() implies names::is_listed(
                there@,
                (#[trigger] all[i])@,
            ) by {
                if i < wanted.len() {
                    assert(names::is_listed(there@, wanted[i]@));
                } else {
                    assert(names::is_listed(there@, more[i - wanted.len()]@));
                }
            }
        }
        assert forall|i: int| 0 <= i < wanted.len() implies names::is_listed(
            there@,
            (#[trigger] wanted[i])@,
        ) == names::bytes_of(there@).contains(wanted[i]@) by {
            names::names_are_listed_by_their_bytes(there@, wanted[i]@);
        }
    }
}

/// Queues can draw if and only if there are any and the first of their flags is set; the
/// others do not matter.
pub proof fn queues_draw_by_one_flag(a: QueueFamily, b: QueueFamily)
    ensures
        a.draws() <==> a.queue_count > 0 && a.queue_flags % 2 == 1,
        a.queue_count == b.queue_count && a.queue_flags % 2 == b.queue_flags % 2 ==> (a.draws()
            <==> b.draws()),
{
    let (x, y) = (a.queue_flags, b.queue_flags);
    assert((x & 1 == 1 <==> x % 2 == 1) && (y & 1 == 1 <==> y % 2 == 1)) by (bit_vector);
}

/// The first device that is asked for is chosen: none before it is asked for, and those
/// behind it do not matter.
pub proof fn later_devices_do_not_matter(
    devices: Seq<PhysicalDevice>,
    more: Seq<PhysicalDevice>,
    device_extensions: Seq<Vec<u8>>,
    device_id: Option<u32>,
    d: int,
)
    requires
        0 <= d < devices.len(),
    ensures
        first_wanted(devices + more, device_extensions, device_id, d) <==> first_wanted(
            devices,
            device_extensions,
            device_id,
            d,
        ),
        first_wanted(devices, device_extensions, device_id, d) <==> devices[d].is_wanted(
            device_extensions,
            device_id,
        ) && forall|j: int|
            0 <= j < d ==> !(#[trigger] devices[j]).is_wanted(device_extensions, device_id),
{
    let all = devices + more;
    assert forall|j: int| 0 <= j < devices.len() implies #[trigger] all[j] == devices[j] by {}
    assert(all[d] == devices[d]);
    if first_wanted(devices + more, device_extensions, device_id, d) {
        assert forall|j: int| 0 <= j < d implies !(#[trigger] devices[j]).is_wanted(
            device_extensions,
            device_id,
        ) by {
            assert(!all[j].is_wanted(device_extensions, device_id));
        }
    }
}

} // verus!
