//! Plist node types.

use vstd::prelude::*;

verus! {

/// The kind of value a plist node holds.
#[derive(Debug, Clone, Copy, PartialEq, Eq, Structural)]
pub enum PlistType {
    /// Boolean, scalar type.
    Boolean,
    /// Unsigned integer, scalar type.
    UInt,
    /// Real, scalar type.
    Real,
    /// Text string, scalar type.
    String,
    /// Ordered array, structured type.
    Array,
    /// Dictionary of key/value pairs, structured type.
    Dictionary,
    /// Date, scalar type.
    Date,
    /// Binary data, scalar type.
    Data,
    /// Key in dictionaries, scalar type.
    Key,
    /// Special type used for keyed encoding.
    Uid,
    /// No type: the absence marker.
    Null,
}

impl PlistType {
    /// Whether or not `self` is `Boolean` type.
    pub fn is_boolean(self) -> (r: bool)
        ensures
            r == (self == PlistType::Boolean),
    {
        self == PlistType::Boolean
    }

    /// Whether or not `self` is `UInt` type.
    pub fn is_uint(self) -> (r: bool)
        ensures
            r == (self == PlistType::UInt),
    {
        self == PlistType::UInt
    }

    /// Whether or not `self` is `Real` type.
    pub fn is_real(self) -> (r: bool)
        ensures
            r == (self == PlistType::Real),
    {
        self == PlistType::Real
    }

    /// Whether or not `self` is `String` type.
    pub fn is_string(self) -> (r: bool)
        ensures
            r == (self == PlistType::String),
    {
        self == PlistType::String
    }

    /// Whether or not `self` is `Array` type.
    pub fn is_array(self) -> (r: bool)
        ensures
            r == (self == PlistType::Array),
    {
        self == PlistType::Array
    }

    /// Whether or not `self` is `Dictionary` type.
    pub fn is_dictionary(self) -> (r: bool)
        ensures
            r == (self == PlistType::Dictionary),
    {
        self == PlistType::Dictionary
    }

    /// Whether or not `self` is `Date` type.
    pub fn is_date(self) -> (r: bool)
        ensures
            r == (self == PlistType::Date),
    {
        self == PlistType::Date
    }

    /// Whether or not `self` is `Data` type.
    pub fn is_data(self) -> (r: bool)
        ensures
            r == (self == PlistType::Data),
    {
        self == PlistType::Data
    }

    /// Whether or not `self` is `Key` type.
    pub fn is_key(self) -> (r: bool)
        ensures
            r == (self == PlistType::Key),
    {
        self == PlistType::Key
    }

    /// Whether or not `self` is `Uid` type.
    pub fn is_uid(self) -> (r: bool)
        ensures
            r == (self == PlistType::Uid),
    {
        self == PlistType::Uid
    }
}

} // verus!
