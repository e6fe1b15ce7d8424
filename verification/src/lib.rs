//! Voxel-editor core: sparse voxel grid, undo history, shape and selection
//! tools, clipboard, palettes and the binary file formats the editor reads
//! and writes.

pub mod ase;
pub mod bytes;
pub mod clipboard;
pub mod color;
pub mod fbx;
pub mod geom;
pub mod gltf;
pub mod gox;
pub mod grid;
pub mod history;
pub mod mesh;
pub mod move_drag;
pub mod obj;
pub mod onboarding;
pub mod palette;
pub mod project;
pub mod qb;
pub mod reader;
pub mod resample;
pub mod select;
pub mod recent;
pub mod shapes;
pub mod shot;
pub mod tool_input;
pub mod tools;
pub mod vox;
