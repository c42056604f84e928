use rosella::commands::{HandleMap, ResourceSpecializationInfo, SemaphoreOpInfo, SpecializationSet};
use rosella::features::{
    GetPhysicalDeviceProperties2, InitializationRegistry, RosellaInstanceBase,
    register_rosella_headless,
};
use rosella::id::NamedID;
use rosella::instance::{FeatureInfo, InstanceConfigurator, InstanceFeatureState};
use rosella::memory::{MemoryType, find_memorytype_index};
use rosella::ops_compile::{BufferMetadata, ImageMetadata, OpIndex};
use rosella::placeholder_objects::{
    BufferRange, BufferViewInfo, ComponentMapping, ExternalBufferViewInfo, ExternalImageViewInfo,
    ImageSubresourceRange, ImageViewInfo, InternalBufferViewInfo, InternalImageViewInfo,
};

#[test]
fn named_ids_agree_exactly_on_equal_names() {
    let a = NamedID::new(String::from("rosella:instance_base"));
    let b = NamedID::new(String::from("rosella:instance_base"));
    let c = NamedID::new(String::from("rosella:device_base"));
    assert_eq!(a.id, b.id);
    assert_ne!(a.id, c.id);
    assert_eq!(a.name, "rosella:instance_base");
}

#[test]
fn handle_map_round_trips_handles() {
    let mut map = HandleMap::new();
    map.get_raw_map_mut().insert(3, 0xAAAA);
    map.get_raw_map_mut().insert(4, 0xBBBB);
    assert_eq!(map.get_raw_map().get(&3), Some(&0xAAAA));
    assert_eq!(map.get_raw_map().get(&4), Some(&0xBBBB));
    assert_eq!(map.get_raw_map().get(&5), None);
}

#[test]
fn specialize_resources_resolves_all_pending_objects() {
    let mut set = SpecializationSet::new();
    set.set_buffer(1, 100);
    set.set_image(2, 200);
    let info = ResourceSpecializationInfo {
        specialized: vec![(9, 900)],
        pending_buffers: vec![1],
        pending_images: vec![2],
    };
    let resolved = info.specialize_resources(&set).unwrap();
    assert_eq!(resolved.get(&9), Some(&900));
    assert_eq!(resolved.get(&1), Some(&100));
    assert_eq!(resolved.get(&2), Some(&200));
    assert_eq!(resolved.len(), 3);
}

#[test]
fn specialize_resources_reports_a_missing_buffer() {
    let set = SpecializationSet::new();
    let info = ResourceSpecializationInfo {
        specialized: vec![],
        pending_buffers: vec![1],
        pending_images: vec![],
    };
    assert_eq!(
        info.specialize_resources(&set),
        Err("Missing buffer in specialization set")
    );
}

#[test]
fn specialize_resources_reports_a_missing_image() {
    let mut set = SpecializationSet::new();
    set.set_buffer(1, 100);
    let info = ResourceSpecializationInfo {
        specialized: vec![],
        pending_buffers: vec![1],
        pending_images: vec![7],
    };
    assert_eq!(
        info.specialize_resources(&set),
        Err("Missing image in specialization set")
    );
}

#[test]
fn semaphore_op_info_carries_the_timeline_value() {
    let op = SemaphoreOpInfo::TimelineSemaphore(41);
    match op {
        SemaphoreOpInfo::TimelineSemaphore(v) => assert_eq!(v, 41),
        SemaphoreOpInfo::BinarySemaphore() => panic!("wrong variant"),
    }
}

#[test]
fn metadata_usage_window_widens_in_both_directions() {
    let early = OpIndex { op_list: 0, op: 2 };
    let start = OpIndex { op_list: 1, op: 5 };
    let late = OpIndex { op_list: 1, op: 9 };

    let mut meta = BufferMetadata::new(start).unwrap();
    meta.update_usage(late);
    assert_eq!(meta.first_used, start);
    assert_eq!(meta.last_used, late);
    meta.update_usage(early);
    assert_eq!(meta.first_used, early);
    assert_eq!(meta.last_used, late);

    let mut meta = ImageMetadata::new(start).unwrap();
    meta.update_usage(early);
    assert_eq!(meta.first_used, early);
    assert_eq!(meta.last_used, start);
}

#[test]
fn buffer_views_expose_their_parent_and_range() {
    let range = BufferRange { offset: 64, length: 256 };
    let external = BufferViewInfo::External(ExternalBufferViewInfo { buffer: 5, range });
    assert_eq!(external.get_buffer(), 5);
    assert_eq!(external.get_buffer_range(), range);

    let internal = BufferViewInfo::Internal(InternalBufferViewInfo { buffer: 6, range, format: 44 });
    assert_eq!(internal.get_buffer(), 6);
    assert_eq!(internal.get_buffer_range(), range);

    let sub = ImageSubresourceRange {
        aspect_mask: 1,
        base_mip_level: 0,
        mip_level_count: 4,
        base_array_layer: 0,
        array_layer_count: 1,
    };
    let view = ImageViewInfo::External(ExternalImageViewInfo { image: 9, range: sub });
    assert_eq!(view.get_image(), 9);
    assert_eq!(view.get_image_subresource_range(), sub);

    let view = ImageViewInfo::Internal(InternalImageViewInfo {
        image: 11,
        range: sub,
        format: 37,
        component_mapping: ComponentMapping { r: 0, g: 1, b: 2, a: 3 },
    });
    assert_eq!(view.get_image(), 11);
    assert_eq!(view.get_image_subresource_range(), sub);
}

#[test]
fn feature_payload_follows_the_lifecycle_state() {
    let enabled = FeatureInfo {
        feature: 7,
        state: InstanceFeatureState::Enabled,
        name: 1,
        required: true,
    };
    assert_eq!(
        enabled.get_payload(&InstanceFeatureState::Enabled),
        Some(&7)
    );

    let mut disabled = FeatureInfo {
        feature: 9,
        state: InstanceFeatureState::Disabled,
        name: 2,
        required: false,
    };
    assert_eq!(disabled.get_payload(&InstanceFeatureState::Enabled), None);
    assert_eq!(disabled.get_payload_mut(&InstanceFeatureState::Enabled), None);
}

#[test]
fn configurator_deduplicates_layers_and_extensions() {
    let mut config = InstanceConfigurator::new();
    config.enable_layer("VK_LAYER_KHRONOS_validation");
    config.enable_layer("VK_LAYER_KHRONOS_validation");
    config.enable_layer_uuid(42);
    config.enable_extension_str_no_load("VK_KHR_surface");
    assert_eq!(config.enabled_layers.len(), 2);
    assert_eq!(config.enabled_extensions.len(), 1);
}

#[test]
fn headless_registration_registers_the_base_features() {
    let mut registry = InitializationRegistry::new();
    register_rosella_headless(&mut registry);
    assert_eq!(registry.instance_features.len(), 2);
    assert_eq!(registry.device_features.len(), 1);
    assert!(registry.instance_features[0].2);
    assert!(!registry.instance_features[1].2);
    assert!(registry.device_features[0].2);

    let mut again = InitializationRegistry::new();
    RosellaInstanceBase::register_into(&mut again, true);
    GetPhysicalDeviceProperties2::register_into(&mut again, false);
    assert_eq!(again.instance_features[0].0, registry.instance_features[0].0);
    assert_eq!(again.instance_features[1].0, registry.instance_features[1].0);
}

#[test]
fn memorytype_search_returns_the_first_full_match() {
    let types = vec![
        MemoryType { property_flags: 0b0001 },
        MemoryType { property_flags: 0b0110 },
        MemoryType { property_flags: 0b0111 },
    ];
    assert_eq!(find_memorytype_index(&types, 0b0110), Some(1));
    assert_eq!(find_memorytype_index(&types, 0b1001), None);
    assert_eq!(find_memorytype_index(&types, 0b0001), Some(0));
}
