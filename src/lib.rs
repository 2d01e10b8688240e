//! A window compositor's control plane: windows with hit-testing and event
//! queues, a z-ordered window stack with focus and dragging, the
//! open/read/write/close protocol that clients use, and its packet framing.
use vstd::prelude::*;

pub mod bytes;
pub mod event;
pub mod laws;
pub mod packet;
pub mod path;
pub mod scheme;
pub mod string;
pub mod window;

verus! {


} // verus!
