//! Correspondence-driven humanoid mesh deformation.
//!
//! The library builds vertex correspondence between a canonical low-poly
//! body and its render meshes, blends sparse morph targets, fits body-part
//! and equipment meshes, prunes occluded geometry, lays out a bone
//! hierarchy and computes per-vertex skin weights.  All geometry is held
//! in fixed-point micro-units so that every stage is exact and verified;
//! file access, JSON deserialization and the floating-point matrix work of
//! a host engine stay outside.

mod assets;
mod correspondence;
mod errors;
mod fixed;
mod global_config;
mod mesh_ops;
mod mhclo;
mod morphs;
mod rigs;
mod skin;
mod text;

pub use assets::bake_asset_morphs;
pub use assets::triangle_target;
pub use assets::HelperMap;
pub use assets::HumanMeshAsset;
pub use assets::ScaleData;
pub use assets::Triangle;
pub use correspondence::generate_inverse_vertex_map;
pub use correspondence::generate_vertex_map;
pub use errors::ConfigError;
pub use errors::CorrespondenceError;
pub use errors::DataConsistencyError;
pub use errors::ParseError;
pub use fixed::Vec2;
pub use fixed::Vec3;
pub use fixed::MAG_LIMIT;
pub use fixed::SCALE;
pub use global_config::HumentityGlobalConfig;
pub use mesh_ops::delete_mesh_verts;
pub use mesh_ops::generate_mesh_without_helpers;
pub use mesh_ops::parse_obj_vertices;
pub use mesh_ops::TriMesh;
pub use mhclo::delete_flags;
pub use mhclo::BodyPartSlot;
pub use mhclo::EquipmentSlot;
pub use mhclo::parse_human_asset;
pub use mhclo::ParsedMhclo;
pub use mhclo::Section;
pub use morphs::adjust_helpers_to_morphs;
pub use morphs::bake_body_morphs;
pub use morphs::find_target;
pub use morphs::parse_morph_target;
pub use morphs::MorphTarget;
pub use morphs::MorphTargets;
pub use morphs::BODY_SCALE;
pub use rigs::build_rig;
pub use rigs::get_bone_transform;
pub use rigs::get_bone_vertices;
pub use rigs::BoneData;
pub use rigs::BoneNode;
pub use rigs::BoneTransform;
pub use rigs::RigType;
pub use rigs::Skeleton;
pub use rigs::VertexGroups;
pub use skin::asset_vertex_quad;
pub use skin::set_asset_rig_arrays;
pub use skin::set_basemesh_rig_arrays;
pub use skin::RigWeights;
pub use skin::SkinQuad;
