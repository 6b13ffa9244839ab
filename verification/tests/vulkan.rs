use ash::vk;

use radiosity::text::parse_number;
use radiosity::timing::level::Level;
use radiosity::vulkan::application::{
    ApplicationInfo, ApplicationInfoExt, Package, PackageError,
};
use radiosity::vulkan::buffer;
use radiosity::vulkan::buffer::{
    Allocation, Buffer, MemoryRequirements, PhysicalDeviceMemoryProperties,
    PhysicalDeviceMemoryPropertiesExt,
};
use radiosity::vulkan::context::{
    check_layers, instance_layers, ContextError, PhysicalDevice, QueueFamily, VulkanContext, GRAPHICS,
};
use radiosity::vulkan::debug;
use radiosity::vulkan::debug::message_level;
use radiosity::vulkan::geometry;
use radiosity::vulkan::geometry::{GeometryIndex, GeometryVertex};
use radiosity::vulkan::names::{first_unlisted, listed, same_name};

fn names(list: &[&str]) -> Vec<Vec<u8>> {
    list.iter().map(|n| n.as_bytes().to_vec()).collect()
}

fn family(queue_count: u32, queue_flags: u32, timestamp_valid_bits: u32) -> QueueFamily {
    QueueFamily { queue_count, queue_flags, timestamp_valid_bits }
}

fn device(
    device_id: u32,
    extensions: Option<&[&str]>,
    queue_families: Vec<QueueFamily>,
) -> PhysicalDevice {
    PhysicalDevice { device_id, extensions: extensions.map(names), queue_families }
}

#[test]
fn numbers_are_those_of_vulkan() {
    assert_eq!(buffer::TRANSFER_SRC, vk::BufferUsageFlags::TRANSFER_SRC.as_raw());
    assert_eq!(buffer::TRANSFER_DST, vk::BufferUsageFlags::TRANSFER_DST.as_raw());
    assert_eq!(buffer::STORAGE_BUFFER, vk::BufferUsageFlags::STORAGE_BUFFER.as_raw());
    assert_eq!(buffer::INDEX_BUFFER, vk::BufferUsageFlags::INDEX_BUFFER.as_raw());
    assert_eq!(buffer::VERTEX_BUFFER, vk::BufferUsageFlags::VERTEX_BUFFER.as_raw());
    assert_eq!(
        buffer::SHADER_DEVICE_ADDRESS,
        vk::BufferUsageFlags::SHADER_DEVICE_ADDRESS.as_raw()
    );
    assert_eq!(
        buffer::ACCELERATION_STRUCTURE_BUILD_INPUT_READ_ONLY,
        vk::BufferUsageFlags::ACCELERATION_STRUCTURE_BUILD_INPUT_READ_ONLY_KHR.as_raw()
    );
    assert_eq!(
        buffer::ACCELERATION_STRUCTURE_STORAGE,
        vk::BufferUsageFlags::ACCELERATION_STRUCTURE_STORAGE_KHR.as_raw()
    );
    assert_eq!(buffer::DEVICE_LOCAL, vk::MemoryPropertyFlags::DEVICE_LOCAL.as_raw());
    assert_eq!(buffer::HOST_VISIBLE, vk::MemoryPropertyFlags::HOST_VISIBLE.as_raw());
    assert_eq!(buffer::HOST_COHERENT, vk::MemoryPropertyFlags::HOST_COHERENT.as_raw());
    assert_eq!(buffer::MAX_MEMORY_TYPES, vk::MAX_MEMORY_TYPES);
    assert_eq!(geometry::R32G32B32_SFLOAT, vk::Format::R32G32B32_SFLOAT.as_raw());
    assert_eq!(geometry::UINT16, vk::IndexType::UINT16.as_raw());
    assert_eq!(geometry::UINT32, vk::IndexType::UINT32.as_raw());
    assert_eq!(GRAPHICS, vk::QueueFlags::GRAPHICS.as_raw());
    assert_eq!(debug::VERBOSE, vk::DebugUtilsMessageSeverityFlagsEXT::VERBOSE.as_raw());
    assert_eq!(debug::INFO, vk::DebugUtilsMessageSeverityFlagsEXT::INFO.as_raw());
    assert_eq!(debug::WARNING, vk::DebugUtilsMessageSeverityFlagsEXT::WARNING.as_raw());
    assert_eq!(debug::ERROR, vk::DebugUtilsMessageSeverityFlagsEXT::ERROR.as_raw());
}

#[test]
fn severities_have_levels() {
    assert_eq!(message_level(debug::VERBOSE), Some(Level::Debug));
    assert_eq!(message_level(debug::INFO), Some(Level::Info));
    assert_eq!(message_level(debug::WARNING), Some(Level::Warn));
    assert_eq!(message_level(debug::ERROR), Some(Level::Error));
    assert_eq!(message_level(0), None);
    assert_eq!(message_level(0x11), None);
}

#[test]
fn geometry_in_buffers() {
    assert_eq!(<[u32; 3] as GeometryVertex>::vk_stride(), std::mem::size_of::<[f32; 3]>() as u64);
    assert_eq!(<[u32; 3] as GeometryVertex>::vk_format(), geometry::R32G32B32_SFLOAT);
    assert_eq!(<u16 as GeometryIndex>::vk_index_type(), geometry::UINT16);
    assert_eq!(<u32 as GeometryIndex>::vk_index_type(), geometry::UINT32);
    assert_eq!(<u16 as GeometryIndex>::index_size(), 2);
    assert_eq!(<u32 as GeometryIndex>::index_size(), 4);
}

#[test]
fn names_in_lists() {
    let list = names(&["a", "bc"]);
    assert!(same_name(&list[0], &b"a".to_vec()));
    assert!(!same_name(&list[1], &b"bd".to_vec()));
    assert!(!same_name(&list[1], &b"b".to_vec()));
    assert!(listed(&list, &b"bc".to_vec()));
    assert!(!listed(&list, &b"c".to_vec()));
    assert_eq!(first_unlisted(&list, &names(&["bc", "x", "y"])), 1);
    assert_eq!(first_unlisted(&list, &names(&["bc", "a"])), 2);
}

#[test]
fn layers_must_be_supported() {
    let supported = names(&["VK_LAYER_A", "VK_LAYER_KHRONOS_validation"]);
    assert!(check_layers(&names(&["VK_LAYER_KHRONOS_validation"]), &supported).is_ok());
    assert!(check_layers(&[], &[]).is_ok());
    let error = check_layers(&names(&["VK_LAYER_A", "VK_LAYER_B", "VK_LAYER_C"]), &supported);
    assert_eq!(error.unwrap_err().message(), "Layer 'VK_LAYER_B' is not supported");
    let odd = check_layers(&[vec![0x41, 0xff]], &supported);
    assert_eq!(odd.unwrap_err().message(), "Layer 'A\u{fffd}' is not supported");
}

#[test]
fn validation_is_asked_for_where_it_is_there() {
    let supported = names(&["VK_LAYER_A", "VK_LAYER_KHRONOS_validation"]);
    assert_eq!(instance_layers(true, &supported), names(&["VK_LAYER_KHRONOS_validation"]));
    assert!(instance_layers(false, &supported).is_empty());
    assert!(instance_layers(true, &supported[..1]).is_empty());
    assert!(instance_layers(true, &names(&["VK_LAYER_KHRONOS_validatio"])).is_empty());
    assert!(instance_layers(false, &[]).is_empty());
    for list in [&supported[..], &supported[..1], &[]] {
        assert!(check_layers(&instance_layers(true, list), list).is_ok());
    }
}

#[test]
fn a_device_is_chosen_by_its_extensions() {
    let devices = [
        device(1, None, vec![family(1, 1, 64)]),
        device(2, Some(&["x"]), vec![family(1, 1, 64)]),
        device(3, Some(&["y", "x"]), vec![family(0, 1, 1), family(4, 2, 2), family(2, 7, 36)]),
        device(4, Some(&["x", "y"]), vec![family(1, 1, 64)]),
    ];
    assert_eq!(
        VulkanContext::new(&devices, &names(&["x", "y"]), None).unwrap(),
        VulkanContext { physical_device: 2, queue_family_index: 2, timestamp_valid_bits: 36 }
    );
    assert_eq!(VulkanContext::new(&devices, &[], None).unwrap().physical_device, 1);
    let missing = VulkanContext::new(&devices, &names(&["z"]), None);
    assert_eq!(missing.unwrap_err().message(), "Failed to find physical device");
}

#[test]
fn a_device_is_chosen_by_its_number() {
    let devices = [
        device(1, Some(&["x"]), vec![family(1, 1, 64)]),
        device(7, None, vec![family(1, 1, 40)]),
        device(7, Some(&["x"]), vec![family(1, 1, 64)]),
    ];
    assert_eq!(
        VulkanContext::new(&devices, &names(&["x"]), Some(7)).unwrap(),
        VulkanContext { physical_device: 1, queue_family_index: 0, timestamp_valid_bits: 40 }
    );
    assert!(matches!(
        VulkanContext::new(&devices, &[], Some(9)),
        Err(ContextError::NoPhysicalDevice)
    ));
}

#[test]
fn a_device_needs_a_queue_that_draws() {
    let devices = [
        device(1, Some(&[]), vec![family(0, 1, 64), family(3, 6, 64)]),
        device(2, Some(&[]), vec![family(1, 1, 64)]),
    ];
    let error = VulkanContext::new(&devices, &[], None).unwrap_err();
    assert_eq!(error.message(), "Failed to find queue family index");
}

fn memory(types: &[u32]) -> PhysicalDeviceMemoryProperties {
    let mut memory_types = [0; 32];
    memory_types[..types.len()].copy_from_slice(types);
    PhysicalDeviceMemoryProperties { memory_type_count: types.len() as u32, memory_types }
}

#[test]
fn memory_is_chosen_by_bits_and_properties() {
    let m = memory(&[0x1, 0x6, 0x7, 0xe]);
    assert_eq!(m.mem_ty_idx(0b1111, 0x6), Some(1));
    assert_eq!(m.mem_ty_idx(0b1101, 0x6), Some(2));
    assert_eq!(m.mem_ty_idx(0b1000, 0x6), Some(3));
    assert_eq!(m.mem_ty_idx(0b1111, 0x10), None);
    assert_eq!(m.mem_ty_idx(0, 0), None);
    assert_eq!(m.mem_ty_idx(u32::MAX, 0), Some(0));
    assert_eq!(memory(&[0x1; 32]).mem_ty_idx(0x8000_0000, 0x1), Some(31));
}

#[test]
fn buffers_get_memory() {
    let m = memory(&[0x1, 0x6]);
    let required = MemoryRequirements { size: 512, memory_type_bits: 0b11 };
    let staging = Buffer::staging(500);
    assert_eq!(staging.size(), 500);
    assert_eq!(
        staging.allocation(&m, required),
        Some(Allocation { size: 512, memory_type_index: 1, device_address: false })
    );
    let local = Buffer::local(
        500,
        buffer::STORAGE_BUFFER | buffer::SHADER_DEVICE_ADDRESS,
    );
    assert_eq!(
        local.allocation(&m, required),
        Some(Allocation { size: 512, memory_type_index: 0, device_address: true })
    );
    let nowhere = MemoryRequirements { size: 512, memory_type_bits: 0b10 };
    assert_eq!(local.allocation(&m, nowhere), None);
    assert_eq!(Buffer::new(1, 2, 3), Buffer { size: 1, usage: 2, memory_properties: 3 });
}

fn package<'a>(major: &'a str, minor: &'a str, patch: &'a str) -> Package<'a> {
    Package { name: "radiosity", version_major: major, version_minor: minor, version_patch: patch }
}

fn info() -> ApplicationInfo {
    ApplicationInfo { application_name: None, application_version: 0, api_version: 5 }
}

#[test]
fn a_package_names_the_application() {
    let after = info().application_from_env(&package("1", "+2", "003")).unwrap();
    assert_eq!(after.application_name.as_deref(), Some("radiosity"));
    assert_eq!(after.application_version, vk::make_api_version(0, 1, 2, 3));
    assert_eq!(after.application_version, (1 << 22) | (2 << 12) | 3);
    assert_eq!(after.api_version, 5);
}

#[test]
fn packages_can_be_wrong() {
    let fails = |p: Package| info().application_from_env(&p).unwrap_err();
    assert_eq!(fails(package("x", "0", "0")), PackageError::Major);
    assert_eq!(fails(package("0", "", "0")), PackageError::Minor);
    assert_eq!(fails(package("0", "0", "4294967296")), PackageError::Patch);
    let odd = Package { name: "a\0b", ..package("x", "0", "0") };
    assert_eq!(fails(odd), PackageError::Name);
    assert_eq!(PackageError::Name.message(), "invalid package name");
    assert_eq!(PackageError::Major.message(), "invalid major version");
    assert_eq!(PackageError::Minor.message(), "invalid minor version");
    assert_eq!(PackageError::Patch.message(), "invalid patch version");
}

#[test]
fn numbers_parse_as_std_does() {
    for text in [
        "", "+", "-", "-1", "0", "+0", "00", "7", "+42", "4294967295", "4294967296",
        "99999999999999999999", "1 ", " 1", "1a", "1_0", "++1", "０", "000000000000000000001",
    ] {
        assert_eq!(parse_number(text), text.parse::<u32>().ok());
    }
}
