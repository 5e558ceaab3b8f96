//! `Flags`: the flags of a node of a tree file, each with where it comes from.
use vstd::prelude::*;

verus! {

/// The flags of a node, in the order they were added.
#[derive(Debug, Clone)]
pub struct Flags {
    pub inner: Vec<Flag>,
}

impl Flags {
    /// No flags.
    pub fn new() -> (r: Self)
        ensures
            r.inner@.len() == 0,
    {
        Flags { inner: Vec::new() }
    }

    /// The flags `vec`, in order.
    pub fn from(vec: Vec<Flag>) -> (r: Self)
        ensures
            r.inner == vec,
    {
        Flags { inner: vec }
    }

    /// Adds `flag` last.
    pub fn add_flag(&mut self, flag: Flag)
        ensures
            final(self).inner@ == old(self).inner@.push(flag),
    {
        self.inner.push(flag);
    }
}

impl Default for Flags {
    fn default() -> (r: Self)
        ensures
            r.inner@.len() == 0,
    {
        Flags::new()
    }
}

/// A flag: its name and where it comes from.
#[derive(Debug, Clone)]
pub struct Flag {
    pub name: String,
    pub flag_type: FlagType,
}

impl Flag {
    /// The flag `name` of type `flag_type`.
    pub fn new(name: &str, flag_type: FlagType) -> (r: Self)
        ensures
            r.name@ == name@,
            r.flag_type == flag_type,
    {
        Flag { name: name.to_string(), flag_type }
    }
}

/// Where a flag comes from: written on the node, inherited from a parent, or inherited
/// from the group.
#[derive(Debug, Clone, Copy, PartialEq, Eq, Structural)]
pub enum FlagType {
    Direct,
    ParentInherited,
    GroupInherited,
}

} // verus!
