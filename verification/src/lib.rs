//! Verified core of a desktop 3D model viewer: the index, naming and
//! bookkeeping logic behind loading glTF and FBX scenes, the scene and mesh
//! panels, and the persisted viewer state.

pub mod fbx;
pub mod lines;
pub mod mesh;
pub mod scene;
pub mod state;
pub mod text;
pub mod view;
