//! The global configuration: where the shared tables are loaded from
//! and which slots body parts and equipment may occupy.  Built once at
//! startup and treated as read-only afterwards; the `with_` builders
//! refine a configuration before it is installed.

use vstd::prelude::*;

verus! {

/// Paths and slot lists that drive the one-time load of the shared
/// tables.
#[derive(Debug, Clone)]
pub struct HumentityGlobalConfig {
    pub core_assets_path: String,
    pub body_part_paths: Vec<String>,
    pub equipment_paths: Vec<String>,
    pub target_paths: Vec<String>,
    pub animation_library_paths: Vec<String>,
    pub body_part_slots: Vec<String>,
    pub transparent_slots: Vec<String>,
    pub equipment_slots: Vec<String>,
}

impl HumentityGlobalConfig {
    /// A configuration rooted at the given core assets directory, with
    /// no search paths and no slots yet.
    pub fn new(core_assets_path: String) -> (c: HumentityGlobalConfig)
        ensures
            c.core_assets_path == core_assets_path,
            c.body_part_paths@.len() == 0,
            c.equipment_paths@.len() == 0,
            c.target_paths@.len() == 0,
            c.animation_library_paths@.len() == 0,
            c.body_part_slots@.len() == 0,
            c.transparent_slots@.len() == 0,
            c.equipment_slots@.len() == 0,
    {
        HumentityGlobalConfig {
            core_assets_path,
            body_part_paths: Vec::new(),
            equipment_paths: Vec::new(),
            target_paths: Vec::new(),
            animation_library_paths: Vec::new(),
            body_part_slots: Vec::new(),
            transparent_slots: Vec::new(),
            equipment_slots: Vec::new(),
        }
    }

    /// Adds directories to search for body part descriptions.
    pub fn with_added_body_parts_paths(self, paths: Vec<String>) -> (c: HumentityGlobalConfig)
        ensures
            c.body_part_paths@ == self.body_part_paths@ + paths@,
            c.core_assets_path == self.core_assets_path,
            c.equipment_paths == self.equipment_paths,
            c.target_paths == self.target_paths,
            c.animation_library_paths == self.animation_library_paths,
            c.body_part_slots == self.body_part_slots,
            c.transparent_slots == self.transparent_slots,
            c.equipment_slots == self.equipment_slots,
    {
        let mut c = self;
        let mut p = paths;
        c.body_part_paths.append(&mut p);
        c
    }

    /// Adds directories to search for equipment descriptions.
    pub fn with_added_equipment_paths(self, paths: Vec<String>) -> (c: HumentityGlobalConfig)
        ensures
            c.equipment_paths@ == self.equipment_paths@ + paths@,
            c.core_assets_path == self.core_assets_path,
            c.body_part_paths == self.body_part_paths,
            c.target_paths == self.target_paths,
            c.animation_library_paths == self.animation_library_paths,
            c.body_part_slots == self.body_part_slots,
            c.transparent_slots == self.transparent_slots,
            c.equipment_slots == self.equipment_slots,
    {
        let mut c = self;
        let mut p = paths;
        c.equipment_paths.append(&mut p);
        c
    }

    /// Adds directories to search for morph target files.
    pub fn with_added_target_paths(self, paths: Vec<String>) -> (c: HumentityGlobalConfig)
        ensures
            c.target_paths@ == self.target_paths@ + paths@,
            c.core_assets_path == self.core_assets_path,
            c.body_part_paths == self.body_part_paths,
            c.equipment_paths == self.equipment_paths,
            c.animation_library_paths == self.animation_library_paths,
            c.body_part_slots == self.body_part_slots,
            c.transparent_slots == self.transparent_slots,
            c.equipment_slots == self.equipment_slots,
    {
        let mut c = self;
        let mut p = paths;
        c.target_paths.append(&mut p);
        c
    }

    /// Replaces the animation library search paths.
    pub fn with_animation_library_paths(self, paths: Vec<String>) -> (c: HumentityGlobalConfig)
        ensures
            c.animation_library_paths@ == paths@,
            c.core_assets_path == self.core_assets_path,
            c.body_part_paths == self.body_part_paths,
            c.equipment_paths == self.equipment_paths,
            c.target_paths == self.target_paths,
            c.body_part_slots == self.body_part_slots,
            c.transparent_slots == self.transparent_slots,
            c.equipment_slots == self.equipment_slots,
    {
        let mut c = self;
        c.animation_library_paths = paths;
        c
    }

    /// Replaces the body part slot list.
    pub fn with_body_part_slots(self, slots: Vec<String>) -> (c: HumentityGlobalConfig)
        ensures
            c.body_part_slots@ == slots@,
            c.core_assets_path == self.core_assets_path,
            c.body_part_paths == self.body_part_paths,
            c.equipment_paths == self.equipment_paths,
            c.target_paths == self.target_paths,
            c.animation_library_paths == self.animation_library_paths,
            c.transparent_slots == self.transparent_slots,
            c.equipment_slots == self.equipment_slots,
    {
        let mut c = self;
        c.body_part_slots = slots;
        c
    }

    /// Replaces the equipment slot list.
    pub fn with_equipment_slots(self, slots: Vec<String>) -> (c: HumentityGlobalConfig)
        ensures
            c.equipment_slots@ == slots@,
            c.core_assets_path == self.core_assets_path,
            c.body_part_paths == self.body_part_paths,
            c.equipment_paths == self.equipment_paths,
            c.target_paths == self.target_paths,
            c.animation_library_paths == self.animation_library_paths,
            c.body_part_slots == self.body_part_slots,
            c.transparent_slots == self.transparent_slots,
    {
        let mut c = self;
        c.equipment_slots = slots;
        c
    }
}

} // verus!
