//! Bitmask constants for ABP resource type modifiers.
//! A mask value of 0 means "all resource types" (no restriction).
use vstd::prelude::*;

verus! {

pub const SCRIPT: u16 = 1;

pub const IMAGE: u16 = 2;

pub const STYLESHEET: u16 = 4;

/// xmlhttprequest
pub const XHR: u16 = 8;

pub const MEDIA: u16 = 16;

pub const FONT: u16 = 32;

pub const DOCUMENT: u16 = 64;

pub const SUBDOCUMENT: u16 = 128;

pub const OTHER: u16 = 256;

/// Sentinel: means "apply to any resource type" (no mask restriction).
pub const ALL: u16 = 0;

} // verus!
