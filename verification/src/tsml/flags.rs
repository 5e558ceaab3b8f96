//! `Flags`: the flags of a node of a tsml tree.
use vstd::prelude::*;

use crate::names::NameSet;

verus! {

/// The flags of a node: those written on it, those of its group, and those inherited from
/// the nodes above it.
#[derive(Debug, Hash, PartialEq, Eq, Ord, PartialOrd)]
pub struct Flags {
    pub direct_flags: NameSet,
    pub group_flags: NameSet,
    pub ancestor_flags: NameSet,
}

impl Flags {
    /// No flags at all.
    pub fn new() -> (r: Self)
        ensures
            r.direct_flags@.len() == 0,
            r.group_flags@.len() == 0,
            r.ancestor_flags@.len() == 0,
    {
        Flags { direct_flags: NameSet::new(), group_flags: NameSet::new(), ancestor_flags: NameSet::new() }
    }

    /// A copy of these flags.
    pub fn copy(&self) -> (r: Self)
        ensures
            r.direct_flags@ == self.direct_flags@,
            r.group_flags@ == self.group_flags@,
            r.ancestor_flags@ == self.ancestor_flags@,
    {
        Flags {
            direct_flags: self.direct_flags.copy(),
            group_flags: self.group_flags.copy(),
            ancestor_flags: self.ancestor_flags.copy(),
        }
    }

    /// Adds a flag written on the node; returns whether it was new.
    pub fn add_direct_flag(&mut self, name: &str) -> (r: bool)
        ensures
            r == !old(self).direct_flags@.contains(name@),
            forall|x: Seq<char>| #[trigger]
                final(self).direct_flags@.contains(x) <==> (old(self).direct_flags@.contains(x)
                    || x == name@),
            final(self).group_flags == old(self).group_flags,
            final(self).ancestor_flags == old(self).ancestor_flags,
    {
        self.direct_flags.insert(name.to_string())
    }

    /// Adds a flag of the node's group; returns whether it was new.
    pub fn add_group_flag(&mut self, name: &str) -> (r: bool)
        ensures
            r == !old(self).group_flags@.contains(name@),
            forall|x: Seq<char>| #[trigger]
                final(self).group_flags@.contains(x) <==> (old(self).group_flags@.contains(x)
                    || x == name@),
            final(self).direct_flags == old(self).direct_flags,
            final(self).ancestor_flags == old(self).ancestor_flags,
    {
        self.group_flags.insert(name.to_string())
    }

    /// Adds a flag inherited from above; returns whether it was new.
    pub fn add_ancestor_flag(&mut self, name: &str) -> (r: bool)
        ensures
            r == !old(self).ancestor_flags@.contains(name@),
            forall|x: Seq<char>| #[trigger]
                final(self).ancestor_flags@.contains(x) <==> (old(self).ancestor_flags@.contains(x)
                    || x == name@),
            final(self).direct_flags == old(self).direct_flags,
            final(self).group_flags == old(self).group_flags,
    {
        self.ancestor_flags.insert(name.to_string())
    }

    /// Takes what a child inherits from `parent`: the parent's direct and ancestor flags
    /// become ancestor flags, and its group flags become group flags.
    pub fn inherit_from(&mut self, parent: &Self)
        ensures
            final(self).direct_flags == old(self).direct_flags,
            forall|x: Seq<char>| #[trigger]
                final(self).group_flags@.contains(x) <==> (old(self).group_flags@.contains(x)
                    || parent.group_flags@.contains(x)),
            forall|x: Seq<char>| #[trigger]
                final(self).ancestor_flags@.contains(x) <==> (old(self).ancestor_flags@.contains(x)
                    || parent.direct_flags@.contains(x) || parent.ancestor_flags@.contains(x)),
    {
        let ghost a0 = self.ancestor_flags@;
        self.ancestor_flags.union_with(&parent.direct_flags);
        let ghost a1 = self.ancestor_flags@;
        self.group_flags.union_with(&parent.group_flags);
        self.ancestor_flags.union_with(&parent.ancestor_flags);
        assert forall|x: Seq<char>| #[trigger]
            self.ancestor_flags@.contains(x) <==> (a0.contains(x)
                || parent.direct_flags@.contains(x) || parent.ancestor_flags@.contains(x)) by {
            assert(a1.contains(x) <==> (a0.contains(x) || parent.direct_flags@.contains(x)));
        }
    }
}

impl Clone for Flags {
    fn clone(&self) -> (r: Self)
        ensures
            r.direct_flags@ == self.direct_flags@,
            r.group_flags@ == self.group_flags@,
            r.ancestor_flags@ == self.ancestor_flags@,
    {
        self.copy()
    }
}

} // verus!
