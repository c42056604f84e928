//! Instance-initialization bookkeeping: per-feature state, feature payload
//! access, and the set of layers and extensions chosen for instance
//! creation.

use vstd::prelude::*;

use std::collections::HashSet;

use crate::id::{spec_uuid, uuid_for};

verus! {

broadcast use vstd::std_specs::hash::group_hash_axioms;

/// Lifecycle state of one instance feature while the initialization passes
/// run.
#[derive(Clone, Copy, PartialEq, Eq, Structural, Debug)]
pub enum InstanceFeatureState {
    Uninitialized,
    Initialized,
    Enabled,
    Disabled,
}

/// One registered instance feature: its payload, lifecycle state, name
/// identifier, and whether initialization must fail when the feature cannot
/// be supported.
pub struct FeatureInfo<V> {
    pub feature: V,
    pub state: InstanceFeatureState,
    pub name: u64,
    pub required: bool,
}

impl<V> FeatureInfo<V> {
    /// The feature payload, readable only in the pass that matches its
    /// state; a disabled feature has no payload.
    pub fn get_payload(&self, pass_state: &InstanceFeatureState) -> (r: Option<&V>)
        requires
            self.state == InstanceFeatureState::Disabled || self.state == *pass_state,
        ensures
            self.state == InstanceFeatureState::Disabled ==> r is None,
            self.state != InstanceFeatureState::Disabled ==> (r matches Some(v) && *v
                == self.feature),
    {
        if self.state == InstanceFeatureState::Disabled {
            return None;
        }
        Some(&self.feature)
    }

    /// The feature payload, writable only in the pass that matches its
    /// state; a disabled feature has no payload.
    pub fn get_payload_mut(&mut self, pass_state: &InstanceFeatureState) -> (r: Option<&mut V>)
        requires
            old(self).state == InstanceFeatureState::Disabled || old(self).state == *pass_state,
        ensures
            old(self).state == InstanceFeatureState::Disabled ==> r is None && *final(self) == *old(
                self,
            ),
            old(self).state != InstanceFeatureState::Disabled ==> (r matches Some(v) && *v == old(
                self,
            ).feature && final(self).feature == *final(v)),
            final(self).state == old(self).state,
            final(self).name == old(self).name,
            final(self).required == old(self).required,
    {
        if self.state == InstanceFeatureState::Disabled {
            return None;
        }
        Some(&mut self.feature)
    }
}

/// The layers and extensions chosen while the enable pass runs.
pub struct InstanceConfigurator {
    pub enabled_layers: HashSet<u64>,
    pub enabled_extensions: HashSet<u64>,
}

impl InstanceConfigurator {
    /// A configurator with nothing enabled yet.
    pub fn new() -> (r: Self)
        ensures
            r.enabled_layers@ == Set::<u64>::empty(),
            r.enabled_extensions@ == Set::<u64>::empty(),
    {
        InstanceConfigurator { enabled_layers: HashSet::new(), enabled_extensions: HashSet::new() }
    }

    /// Enables the layer with the given name.
    pub fn enable_layer(&mut self, name: &str)
        ensures
            final(self).enabled_layers@ == old(self).enabled_layers@.insert(spec_uuid(name@)),
            final(self).enabled_extensions@ == old(self).enabled_extensions@,
    {
        let uuid = uuid_for(name);
        self.enabled_layers.insert(uuid);
    }

    /// Enables the layer with the given name identifier.
    pub fn enable_layer_uuid(&mut self, uuid: u64)
        ensures
            final(self).enabled_layers@ == old(self).enabled_layers@.insert(uuid),
            final(self).enabled_extensions@ == old(self).enabled_extensions@,
    {
        self.enabled_layers.insert(uuid);
    }

    /// Enables the extension with the given name, without registering a
    /// function loader for it.
    pub fn enable_extension_str_no_load(&mut self, name: &str)
        ensures
            final(self).enabled_extensions@ == old(self).enabled_extensions@.insert(
                spec_uuid(name@),
            ),
            final(self).enabled_layers@ == old(self).enabled_layers@,
    {
        let uuid = uuid_for(name);
        self.enabled_extensions.insert(uuid);
    }
}

} // verus!
