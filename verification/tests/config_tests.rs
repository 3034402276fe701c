use humentity::HumentityGlobalConfig;

#[test]
fn added_paths_accumulate_in_order() {
    let c = HumentityGlobalConfig::new("assets".to_owned())
        .with_added_body_parts_paths(vec!["assets/body_parts".to_owned()])
        .with_added_body_parts_paths(vec!["mods/parts".to_owned()])
        .with_added_equipment_paths(vec!["assets/clothes".to_owned()])
        .with_added_target_paths(vec!["assets/targets".to_owned()]);
    assert_eq!(c.core_assets_path, "assets");
    assert_eq!(c.body_part_paths, vec!["assets/body_parts".to_owned(), "mods/parts".to_owned()]);
    assert_eq!(c.equipment_paths, vec!["assets/clothes".to_owned()]);
    assert_eq!(c.target_paths, vec!["assets/targets".to_owned()]);
}

#[test]
fn slot_lists_and_animation_paths_are_replaced() {
    let c = HumentityGlobalConfig::new("assets".to_owned())
        .with_body_part_slots(vec!["Hair".to_owned()])
        .with_body_part_slots(vec!["LeftEye".to_owned(), "RightEye".to_owned()])
        .with_equipment_slots(vec!["Chest".to_owned()])
        .with_animation_library_paths(vec!["anims".to_owned()]);
    assert_eq!(c.body_part_slots, vec!["LeftEye".to_owned(), "RightEye".to_owned()]);
    assert_eq!(c.equipment_slots, vec!["Chest".to_owned()]);
    assert_eq!(c.animation_library_paths, vec!["anims".to_owned()]);
}

#[test]
fn slot_enums_cover_the_fixed_slot_families() {
    assert!(humentity::BodyPartSlot::Hair != humentity::BodyPartSlot::Eyes);
    assert_eq!(humentity::EquipmentSlot::Torso, humentity::EquipmentSlot::Torso);
}
