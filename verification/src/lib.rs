//! Reads a GIP game controller's input packets and turns them into commands
//! for Dolphin's pipe controller backend.
use vstd::prelude::*;

pub mod accuracy;
mod arithmetic;
pub mod binary32;
pub mod controls;
pub mod layout;
pub mod mapping;
pub mod packet;
pub mod pipe;
pub mod precision;
pub mod root;
pub mod rounding;
pub mod runs;
pub mod session;
pub mod text;
pub mod usb;

verus! {

} // verus!
