//! Core object model of a small scene runtime: an entity/component tree with
//! stable handles, a reflection-style binary and text serialization framework
//! with polymorphic component reconstruction, and a two-phase link-fixup pass
//! for the shader-graph editor data.

pub mod bytes;
pub mod codec;
pub mod component;
pub mod data;
pub mod entity;
pub mod format;
pub mod scene;
pub mod shader;
pub mod text;
pub mod mat;
pub mod registry;

use vstd::prelude::*;

verus! {

} // verus!
