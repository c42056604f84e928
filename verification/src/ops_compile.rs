//! Bookkeeping used while compiling an operation stream: where each object
//! is first and last used.

use vstd::prelude::*;

verus! {

/// Position of one operation: which list it sits in and where.
#[derive(Clone, Copy, PartialEq, Eq, Structural, Debug)]
pub struct OpIndex {
    pub op_list: u32,
    pub op: u32,
}

impl OpIndex {
    /// Lexicographic order: list first, then position within the list.
    pub open spec fn spec_lt(self, other: OpIndex) -> bool {
        self.op_list < other.op_list || (self.op_list == other.op_list && self.op < other.op)
    }

    /// Compares two positions in program order.
    pub fn lt(&self, other: &OpIndex) -> (r: bool)
        ensures
            r == self.spec_lt(*other),
    {
        self.op_list < other.op_list || (self.op_list == other.op_list && self.op < other.op)
    }
}

/// First and last use of one buffer in the operation stream.
#[derive(Clone, Copy, Debug)]
pub struct BufferMetadata {
    pub first_used: OpIndex,
    pub last_used: OpIndex,
}

impl BufferMetadata {
    /// A record for a buffer first seen at `initial_used`.
    pub fn new(initial_used: OpIndex) -> (r: Result<Self, &'static str>)
        ensures
            r matches Ok(m) && m.first_used == initial_used && m.last_used == initial_used,
    {
        Ok(BufferMetadata { first_used: initial_used, last_used: initial_used })
    }

    /// Widens the usage window to cover `usage`.
    pub fn update_usage(&mut self, usage: OpIndex)
        ensures
            final(self).first_used == if usage.spec_lt(old(self).first_used) {
                usage
            } else {
                old(self).first_used
            },
            final(self).last_used == if old(self).last_used.spec_lt(usage) {
                usage
            } else {
                old(self).last_used
            },
    {
        if usage.lt(&self.first_used) {
            self.first_used = usage;
        }
        if self.last_used.lt(&usage) {
            self.last_used = usage;
        }
    }
}

/// First and last use of one image in the operation stream.
#[derive(Clone, Copy, Debug)]
pub struct ImageMetadata {
    pub first_used: OpIndex,
    pub last_used: OpIndex,
}

impl ImageMetadata {
    /// A record for an image first seen at `initial_used`.
    pub fn new(initial_used: OpIndex) -> (r: Result<Self, &'static str>)
        ensures
            r matches Ok(m) && m.first_used == initial_used && m.last_used == initial_used,
    {
        Ok(ImageMetadata { first_used: initial_used, last_used: initial_used })
    }

    /// Widens the usage window to cover `usage`.
    pub fn update_usage(&mut self, usage: OpIndex)
        ensures
            final(self).first_used == if usage.spec_lt(old(self).first_used) {
                usage
            } else {
                old(self).first_used
            },
            final(self).last_used == if old(self).last_used.spec_lt(usage) {
                usage
            } else {
                old(self).last_used
            },
    {
        if usage.lt(&self.first_used) {
            self.first_used = usage;
        }
        if self.last_used.lt(&usage) {
            self.last_used = usage;
        }
    }
}

} // verus!
