//! The kinds of value a marker byte can open, used to tell a reader what it
//! is looking at before committing to a typed read.

use vstd::prelude::*;

verus! {

/// What a tagged value is.
#[derive(Debug, Clone, Copy, PartialEq, Eq, Structural)]
pub enum VType {
    String,
    Integer,
    Bool,
    Array,
    Binary,
    Null,
    Float,
    MapKind,
    Extension,
    Reserved,
}

/// The kind a marker byte announces.
pub open spec fn marker_kind(m: u8) -> VType {
    if m < 0x80 || m >= 0xe0 || (0xcc <= m && m <= 0xcf) || (0xd0 <= m && m <= 0xd3) {
        VType::Integer
    } else if (0xa0 <= m && m < 0xc0) || m == 0xd9 || m == 0xda || m == 0xdb {
        VType::String
    } else if m == 0xc2 || m == 0xc3 {
        VType::Bool
    } else if (0x90 <= m && m < 0xa0) || m == 0xdc || m == 0xdd {
        VType::Array
    } else if m == 0xc4 || m == 0xc5 || m == 0xc6 {
        VType::Binary
    } else if m == 0xc0 {
        VType::Null
    } else if m == 0xca || m == 0xcb {
        VType::Float
    } else if (0x80 <= m && m < 0x90) || m == 0xde || m == 0xdf {
        VType::MapKind
    } else if (0xd4 <= m && m <= 0xd8) || m == 0xc7 || m == 0xc8 || m == 0xc9 {
        VType::Extension
    } else {
        VType::Reserved
    }
}

impl VType {
    /// Classifies a marker byte.
    pub fn from_marker(m: u8) -> (r: Self)
        ensures
            r == marker_kind(m),
    {
        if m < 0x80 || m >= 0xe0 || (0xcc <= m && m <= 0xcf) || (0xd0 <= m && m <= 0xd3) {
            VType::Integer
        } else if (0xa0 <= m && m < 0xc0) || m == 0xd9 || m == 0xda || m == 0xdb {
            VType::String
        } else if m == 0xc2 || m == 0xc3 {
            VType::Bool
        } else if (0x90 <= m && m < 0xa0) || m == 0xdc || m == 0xdd {
            VType::Array
        } else if m == 0xc4 || m == 0xc5 || m == 0xc6 {
            VType::Binary
        } else if m == 0xc0 {
            VType::Null
        } else if m == 0xca || m == 0xcb {
            VType::Float
        } else if (0x80 <= m && m < 0x90) || m == 0xde || m == 0xdf {
            VType::MapKind
        } else if (0xd4 <= m && m <= 0xd8) || m == 0xc7 || m == 0xc8 || m == 0xc9 {
            VType::Extension
        } else {
            VType::Reserved
        }
    }
}

} // verus!
