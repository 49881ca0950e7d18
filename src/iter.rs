//! Restartable sequences over the subnodes and the properties of a node.
use vstd::prelude::*;

use crate::error::Error;
use crate::fdt::{Fdt, FdtView};
use crate::node::{node_offsets, FdtNode};
use crate::property::{prop_offsets, FdtProperty};

verus! {

/// The subnodes of a parent node, one after the other.
pub struct FdtNodeIter<'fdt> {
    fdt: &'fdt Fdt,
    next: Option<FdtNode<'fdt>>,
    failed: Option<Error>,
}

/// The properties of a node, one after the other.
pub struct FdtPropertyIter<'fdt> {
    fdt: &'fdt Fdt,
    next: Option<FdtProperty<'fdt>>,
    failed: Option<Error>,
}

impl<'fdt> FdtNodeIter<'fdt> {
    /// The blob walked.
    pub closed spec fn tree(&self) -> FdtView {
        self.fdt.view()
    }

    /// What the next call of `next` gives: the offset of a node, the end, or an error.
    pub closed spec fn pending(&self) -> Result<Option<int>, Error> {
        match self.failed {
            Some(e) => Err(e),
            None => node_offsets(Ok(self.next)),
        }
    }

    /// The blob is well formed, and the pending node is a valid handle on it.
    pub closed spec fn wf(&self) -> bool {
        &&& self.fdt.wf()
        &&& self.next matches Some(n) ==> n.wf() && n.fdt == self.fdt
        &&& self.failed is Some ==> self.next is None
    }

    /// Create a new [`FdtNodeIter`] iterator, given the parent node.
    pub fn new(node: &FdtNode<'fdt>) -> (r: Result<FdtNodeIter<'fdt>, Error>)
        requires
            node.fdt.wf(),
        ensures
            node.fdt.view().node_at(node.fdt.view().first_subnode(node.offset.0 as int)) matches Err(
                e,
            ) ==> r == Err::<FdtNodeIter<'fdt>, Error>(e),
            node.fdt.view().node_at(node.fdt.view().first_subnode(node.offset.0 as int)) is Ok ==> r is Ok,
            r matches Ok(it) ==> it.wf() && it.tree() == node.fdt.view() && it.pending()
                == node.fdt.view().node_at(node.fdt.view().first_subnode(node.offset.0 as int)),
    {
        match node.fdt.first_subnode(node) {
            Ok(first) => Ok(FdtNodeIter { fdt: node.fdt, next: first, failed: None }),
            Err(e) => Err(e),
        }
    }

    /// The pending subnode, after which the iterator moves to its next
    /// sibling; `None` at the end. An error in moving on comes out of the
    /// following call, which ends the sequence.
    pub fn next(&mut self) -> (r: Result<Option<FdtNode<'fdt>>, Error>)
        requires
            old(self).wf(),
        ensures
            final(self).wf(),
            final(self).tree() == old(self).tree(),
            node_offsets(r) == old(self).pending(),
            r matches Ok(Some(n)) ==> n.wf() && n.fdt.view() == old(self).tree(),
            old(self).pending() matches Ok(Some(c)) ==> final(self).pending() == old(
                self,
            ).tree().node_at(old(self).tree().next_subnode(c)),
            old(self).pending() matches Ok(None) ==> final(self).pending() == Ok::<
                Option<int>,
                Error,
            >(None),
            old(self).pending() is Err ==> final(self).pending() == Ok::<Option<int>, Error>(None),
    {
        if let Some(e) = self.failed {
            self.failed = None;
            return Err(e);
        }
        match self.next.take() {
            Some(current) => {
                match self.fdt.next_subnode(&current) {
                    Ok(n) => self.next = n,
                    Err(e) => self.failed = Some(e),
                }
                Ok(Some(current))
            },
            None => Ok(None),
        }
    }
}

impl<'fdt> FdtPropertyIter<'fdt> {
    /// The blob walked.
    pub closed spec fn tree(&self) -> FdtView {
        self.fdt.view()
    }

    /// What the next call of `next` gives: the offset of a property, the end, or an error.
    pub closed spec fn pending(&self) -> Result<Option<int>, Error> {
        match self.failed {
            Some(e) => Err(e),
            None => prop_offsets(Ok(self.next)),
        }
    }

    /// The blob is well formed, and the pending property is a valid handle on it.
    pub closed spec fn wf(&self) -> bool {
        &&& self.fdt.wf()
        &&& self.next matches Some(p) ==> p.wf() && p.fdt == self.fdt && p.offset is Some
        &&& self.failed is Some ==> self.next is None
    }

    /// Create a new [`FdtPropertyIter`] iterator, given the parent node.
    pub fn new(node: &FdtNode<'fdt>) -> (r: Result<FdtPropertyIter<'fdt>, Error>)
        requires
            node.fdt.wf(),
        ensures
            node.fdt.view().prop_at(node.fdt.view().first_property(node.offset.0 as int)) matches Err(
                e,
            ) ==> r == Err::<FdtPropertyIter<'fdt>, Error>(e),
            node.fdt.view().prop_at(node.fdt.view().first_property(node.offset.0 as int)) is Ok ==> r is Ok,
            r matches Ok(it) ==> it.wf() && it.tree() == node.fdt.view() && it.pending()
                == node.fdt.view().prop_at(node.fdt.view().first_property(node.offset.0 as int)),
    {
        match node.fdt.first_property(node) {
            Ok(first) => Ok(FdtPropertyIter { fdt: node.fdt, next: first, failed: None }),
            Err(e) => Err(e),
        }
    }

    /// The pending property, after which the iterator moves to the next one
    /// of the node; `None` at the end. An error in moving on comes out of the
    /// following call, which ends the sequence.
    pub fn next(&mut self) -> (r: Result<Option<FdtProperty<'fdt>>, Error>)
        requires
            old(self).wf(),
        ensures
            final(self).wf(),
            final(self).tree() == old(self).tree(),
            prop_offsets(r) == old(self).pending(),
            r matches Ok(Some(p)) ==> p.wf() && p.fdt.view() == old(self).tree() && p.offset is Some,
            old(self).pending() matches Ok(Some(c)) ==> final(self).pending() == old(
                self,
            ).tree().prop_at(old(self).tree().next_property(c)),
            old(self).pending() matches Ok(None) ==> final(self).pending() == Ok::<
                Option<int>,
                Error,
            >(None),
            old(self).pending() is Err ==> final(self).pending() == Ok::<Option<int>, Error>(None),
    {
        if let Some(e) = self.failed {
            self.failed = None;
            return Err(e);
        }
        match self.next.take() {
            Some(current) => {
                match self.fdt.next_property(&current) {
                    Ok(n) => self.next = n,
                    Err(e) => self.failed = Some(e),
                }
                Ok(Some(current))
            },
            None => Ok(None),
        }
    }
}

impl<'fdt> FdtNode<'fdt> {
    /// Get an iterator over the subnodes of the node.
    pub fn subnodes_iter(&self) -> (r: Result<FdtNodeIter<'fdt>, Error>)
        requires
            self.fdt.wf(),
        ensures
            self.fdt.view().node_at(self.fdt.view().first_subnode(self.offset.0 as int)) matches Err(
                e,
            ) ==> r == Err::<FdtNodeIter<'fdt>, Error>(e),
            self.fdt.view().node_at(self.fdt.view().first_subnode(self.offset.0 as int)) is Ok ==> r is Ok,
            r matches Ok(it) ==> it.wf() && it.tree() == self.fdt.view() && it.pending()
                == self.fdt.view().node_at(self.fdt.view().first_subnode(self.offset.0 as int)),
    {
        FdtNodeIter::new(self)
    }

    /// Get an iterator over the properties of the node.
    pub fn properties_iter(&self) -> (r: Result<FdtPropertyIter<'fdt>, Error>)
        requires
            self.fdt.wf(),
        ensures
            self.fdt.view().prop_at(self.fdt.view().first_property(self.offset.0 as int)) matches Err(
                e,
            ) ==> r == Err::<FdtPropertyIter<'fdt>, Error>(e),
            self.fdt.view().prop_at(self.fdt.view().first_property(self.offset.0 as int)) is Ok ==> r is Ok,
            r matches Ok(it) ==> it.wf() && it.tree() == self.fdt.view() && it.pending()
                == self.fdt.view().prop_at(self.fdt.view().first_property(self.offset.0 as int)),
    {
        FdtPropertyIter::new(self)
    }
}

} // verus!
