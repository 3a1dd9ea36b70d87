//! Decoding of the scene graph of a voxel-model container: node records,
//! integer transforms, and the collapse of the node graph into positioned models.
pub mod transform;
pub mod rotation;
pub mod scene;
pub mod text;
pub mod dict;
pub mod frame;
pub mod nodes;
