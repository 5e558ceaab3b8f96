//! `Tags`: the tags of a node of a tsml tree.
use vstd::prelude::*;

use crate::names::NameSet;

verus! {

/// The tags of a node: those written on it, those of its group, and those inherited from
/// the nodes above it.
#[derive(Debug, Hash, PartialEq, Eq, Ord, PartialOrd)]
pub struct Tags {
    pub direct_tags: NameSet,
    pub group_tags: NameSet,
    pub ancestor_tags: NameSet,
}

impl Tags {
    /// No tags at all.
    pub fn new() -> (r: Self)
        ensures
            r.direct_tags@.len() == 0,
            r.group_tags@.len() == 0,
            r.ancestor_tags@.len() == 0,
    {
        Tags { direct_tags: NameSet::new(), group_tags: NameSet::new(), ancestor_tags: NameSet::new() }
    }

    /// A copy of these tags.
    pub fn copy(&self) -> (r: Self)
        ensures
            r.direct_tags@ == self.direct_tags@,
            r.group_tags@ == self.group_tags@,
            r.ancestor_tags@ == self.ancestor_tags@,
    {
        Tags {
            direct_tags: self.direct_tags.copy(),
            group_tags: self.group_tags.copy(),
            ancestor_tags: self.ancestor_tags.copy(),
        }
    }

    /// Adds a tag written on the node; returns whether it was new.
    pub fn add_direct_tag(&mut self, name: &str) -> (r: bool)
        ensures
            r == !old(self).direct_tags@.contains(name@),
            forall|x: Seq<char>| #[trigger]
                final(self).direct_tags@.contains(x) <==> (old(self).direct_tags@.contains(x)
                    || x == name@),
            final(self).group_tags == old(self).group_tags,
            final(self).ancestor_tags == old(self).ancestor_tags,
    {
        self.direct_tags.insert(name.to_string())
    }

    /// Adds a tag of the node's group; returns whether it was new.
    pub fn add_group_tag(&mut self, name: &str) -> (r: bool)
        ensures
            r == !old(self).group_tags@.contains(name@),
            forall|x: Seq<char>| #[trigger]
                final(self).group_tags@.contains(x) <==> (old(self).group_tags@.contains(x)
                    || x == name@),
            final(self).direct_tags == old(self).direct_tags,
            final(self).ancestor_tags == old(self).ancestor_tags,
    {
        self.group_tags.insert(name.to_string())
    }

    /// Adds a tag inherited from above; returns whether it was new.
    pub fn add_ancestor_tag(&mut self, name: &str) -> (r: bool)
        ensures
            r == !old(self).ancestor_tags@.contains(name@),
            forall|x: Seq<char>| #[trigger]
                final(self).ancestor_tags@.contains(x) <==> (old(self).ancestor_tags@.contains(x)
                    || x == name@),
            final(self).direct_tags == old(self).direct_tags,
            final(self).group_tags == old(self).group_tags,
    {
        self.ancestor_tags.insert(name.to_string())
    }

    /// Takes what a child inherits from `parent`: the parent's direct and ancestor tags
    /// become ancestor tags, and its group tags become group tags.
    pub fn inherit_from(&mut self, parent: &Self)
        ensures
            final(self).direct_tags == old(self).direct_tags,
            forall|x: Seq<char>| #[trigger]
                final(self).group_tags@.contains(x) <==> (old(self).group_tags@.contains(x)
                    || parent.group_tags@.contains(x)),
            forall|x: Seq<char>| #[trigger]
                final(self).ancestor_tags@.contains(x) <==> (old(self).ancestor_tags@.contains(x)
                    || parent.direct_tags@.contains(x) || parent.ancestor_tags@.contains(x)),
    {
        let ghost a0 = self.ancestor_tags@;
        self.ancestor_tags.union_with(&parent.direct_tags);
        let ghost a1 = self.ancestor_tags@;
        self.group_tags.union_with(&parent.group_tags);
        self.ancestor_tags.union_with(&parent.ancestor_tags);
        assert forall|x: Seq<char>| #[trigger]
            self.ancestor_tags@.contains(x) <==> (a0.contains(x)
                || parent.direct_tags@.contains(x) || parent.ancestor_tags@.contains(x)) by {
            assert(a1.contains(x) <==> (a0.contains(x) || parent.direct_tags@.contains(x)));
        }
    }
}

impl Clone for Tags {
    fn clone(&self) -> (r: Self)
        ensures
            r.direct_tags@ == self.direct_tags@,
            r.group_tags@ == self.group_tags@,
            r.ancestor_tags@ == self.ancestor_tags@,
    {
        self.copy()
    }
}

} // verus!
