//! What the decoders read from the description of a column.
use vstd::prelude::*;
use std::rc::Rc;

verus! {

/// The part of a leaf column's description that selecting a decoder needs.
#[derive(Clone, Copy, Debug, PartialEq, Eq, Structural)]
pub struct ColumnDescriptor {
    /// The largest definition level of the column.
    pub max_def_level: i16,
    /// The largest repetition level of the column.
    pub max_rep_level: i16,
    /// The byte length of each value of a fixed-length byte array column.
    pub type_length: i32,
}

/// A shared column description.
pub type ColumnDescPtr = Rc<ColumnDescriptor>;

impl ColumnDescriptor {
    pub fn new(max_def_level: i16, max_rep_level: i16, type_length: i32) -> (d: ColumnDescriptor)
        ensures
            d.max_def_level == max_def_level,
            d.max_rep_level == max_rep_level,
            d.type_length == type_length,
    {
        ColumnDescriptor { max_def_level, max_rep_level, type_length }
    }

    pub fn max_def_level(&self) -> (l: i16)
        ensures
            l == self.max_def_level,
    {
        self.max_def_level
    }

    pub fn max_rep_level(&self) -> (l: i16)
        ensures
            l == self.max_rep_level,
    {
        self.max_rep_level
    }

    pub fn type_length(&self) -> (n: i32)
        ensures
            n == self.type_length,
    {
        self.type_length
    }
}

} // verus!
