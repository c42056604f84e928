//! The built-in features registered for a headless setup, and the registry
//! that collects feature registrations before the initialization passes
//! run.

use vstd::prelude::*;

use crate::id::{spec_uuid, uuid_for};

verus! {

/// Collects feature registrations: for each feature its name identifier,
/// the name identifiers of its dependencies, and whether it is required.
pub struct InitializationRegistry {
    pub instance_features: Vec<(u64, Vec<u64>, bool)>,
    pub device_features: Vec<(u64, Vec<u64>, bool)>,
}

impl InitializationRegistry {
    /// An empty registry.
    pub fn new() -> (r: Self)
        ensures
            r.instance_features@.len() == 0,
            r.device_features@.len() == 0,
    {
        InitializationRegistry { instance_features: Vec::new(), device_features: Vec::new() }
    }

    /// Registers one instance feature.
    pub fn register_instance_feature(&mut self, name: u64, dependencies: Vec<u64>, required: bool)
        ensures
            final(self).instance_features@ == old(self).instance_features@.push(
                (name, dependencies, required),
            ),
            final(self).device_features@ == old(self).device_features@,
    {
        self.instance_features.push((name, dependencies, required));
    }

    /// Registers one device feature.
    pub fn register_device_feature(&mut self, name: u64, dependencies: Vec<u64>, required: bool)
        ensures
            final(self).device_features@ == old(self).device_features@.push(
                (name, dependencies, required),
            ),
            final(self).instance_features@ == old(self).instance_features@,
    {
        self.device_features.push((name, dependencies, required));
    }
}

/// The base instance feature every setup depends on.
pub struct RosellaInstanceBase {}

impl RosellaInstanceBase {
    /// Registers this feature, with no dependencies.
    pub fn register_into(registry: &mut InitializationRegistry, required: bool)
        ensures
            final(registry).instance_features@.len() == old(registry).instance_features@.len() + 1,
            final(registry).instance_features@.last().0 == spec_uuid("rosella:instance_base"@),
            final(registry).instance_features@.last().1@.len() == 0,
            final(registry).instance_features@.last().2 == required,
            final(registry).instance_features@.subrange(
                0,
                old(registry).instance_features@.len() as int,
            ) == old(registry).instance_features@,
            final(registry).device_features@ == old(registry).device_features@,
    {
        let name = uuid_for("rosella:instance_base");
        registry.register_instance_feature(name, Vec::new(), required);
        proof {
            assert(registry.instance_features@.subrange(
                0,
                old(registry).instance_features@.len() as int,
            ) =~= old(registry).instance_features@);
        }
    }
}

/// The feature standing for extended physical-device property queries.
pub struct GetPhysicalDeviceProperties2 {}

impl GetPhysicalDeviceProperties2 {
    /// Registers this feature, with no dependencies.
    pub fn register_into(registry: &mut InitializationRegistry, required: bool)
        ensures
            final(registry).instance_features@.len() == old(registry).instance_features@.len() + 1,
            final(registry).instance_features@.last().0 == spec_uuid(
                "rosella_vk:get_physical_device_properties_2"@,
            ),
            final(registry).instance_features@.last().1@.len() == 0,
            final(registry).instance_features@.last().2 == required,
            final(registry).instance_features@.subrange(
                0,
                old(registry).instance_features@.len() as int,
            ) == old(registry).instance_features@,
            final(registry).device_features@ == old(registry).device_features@,
    {
        let name = uuid_for("rosella_vk:get_physical_device_properties_2");
        registry.register_instance_feature(name, Vec::new(), required);
        proof {
            assert(registry.instance_features@.subrange(
                0,
                old(registry).instance_features@.len() as int,
            ) =~= old(registry).instance_features@);
        }
    }
}

/// The base device feature every setup depends on.
struct RosellaDeviceBase {}

impl RosellaDeviceBase {
    /// Registers this feature, with no dependencies.
    fn register_into(registry: &mut InitializationRegistry, required: bool)
        ensures
            final(registry).device_features@.len() == old(registry).device_features@.len() + 1,
            final(registry).device_features@.last().0 == spec_uuid("rosella:device_base"@),
            final(registry).device_features@.last().1@.len() == 0,
            final(registry).device_features@.last().2 == required,
            final(registry).device_features@.subrange(
                0,
                old(registry).device_features@.len() as int,
            ) == old(registry).device_features@,
            final(registry).instance_features@ == old(registry).instance_features@,
    {
        let name = uuid_for("rosella:device_base");
        registry.register_device_feature(name, Vec::new(), required);
        proof {
            assert(registry.device_features@.subrange(
                0,
                old(registry).device_features@.len() as int,
            ) =~= old(registry).device_features@);
        }
    }
}

/// Registers the features a headless setup needs: the required instance and
/// device bases, plus optional extended property queries.
pub fn register_rosella_headless(registry: &mut InitializationRegistry)
    ensures
        final(registry).instance_features@.len() == old(registry).instance_features@.len() + 2,
        final(registry).device_features@.len() == old(registry).device_features@.len() + 1,
        final(registry).instance_features@[old(registry).instance_features@.len() as int].0
            == spec_uuid("rosella:instance_base"@),
        final(registry).instance_features@[old(registry).instance_features@.len() as int].2
            == true,
        final(registry).instance_features@.last().0 == spec_uuid(
            "rosella_vk:get_physical_device_properties_2"@,
        ),
        final(registry).instance_features@.last().2 == false,
        final(registry).device_features@.last().0 == spec_uuid("rosella:device_base"@),
        final(registry).device_features@.last().2 == true,
{
    RosellaInstanceBase::register_into(registry, true);
    GetPhysicalDeviceProperties2::register_into(registry, false);
    RosellaDeviceBase::register_into(registry, true);
}

} // verus!
