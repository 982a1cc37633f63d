//! The scene-editing core of a 3D editor: a per-frame snapshot of the scene
//! hierarchy, the checks that guard changes to it, and the editor state that
//! drives selection and the transform gizmo.

use vstd::prelude::*;

pub mod coordinator;
pub mod gizmo;
pub mod graph;
pub mod hierarchy;
pub mod label;
pub mod node;
pub mod session;

verus! {

} // verus!
