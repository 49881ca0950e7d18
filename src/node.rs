//! Node handles, and the blob queries that produce them.
use vstd::prelude::*;
use vstd::string::StringSliceAdditionalSpecFns;
use vstd::utf8::{encode_utf8, valid_utf8};

use crate::error::Error;
use crate::fdt::{Fdt, FdtView, Offset, Phandle};
use crate::format::{range_strlist_contains, strlist_contains, utf8, FDT_BEGIN_NODE};

verus! {

/// The name of the property that lists what a node is compatible with.
pub open spec fn compatible_name() -> Seq<u8> {
    seq![0x63u8, 0x6f, 0x6d, 0x70, 0x61, 0x74, 0x69, 0x62, 0x6c, 0x65]
}

impl FdtView {
    /// Whether a node handle can be made for the offset `off`: a node begins
    /// there and its name is valid UTF-8.
    pub open spec fn node_check(self, off: int) -> Result<(), Error> {
        match self.next_tag(off) {
            Err(e) => Err(e),
            Ok((tag, _)) => if tag != FDT_BEGIN_NODE {
                Err(Error::BadOffset)
            } else if !valid_utf8(self.node_name(off)) {
                Err(Error::BadValue)
            } else {
                Ok(())
            },
        }
    }

    /// The node that a navigation result leads to: none where the result is
    /// `NotFound`, the result's other errors, and the errors of making a handle.
    pub open spec fn node_at(self, r: Result<int, Error>) -> Result<Option<int>, Error> {
        match r {
            Ok(o) => match self.node_check(o) {
                Ok(()) => Ok(Some(o)),
                Err(e) => Err(e),
            },
            Err(Error::NotFound) => Ok(None),
            Err(e) => Err(e),
        }
    }
}

/// A node of an [`Fdt`]: its offset, and its name as it stands in the blob.
#[derive(Debug, Clone)]
pub struct FdtNode<'fdt> {
    pub fdt: &'fdt Fdt,
    pub offset: Offset,
    pub name: &'fdt str,
}

/// A reference to a node: its full path, or a symbol of the symbol table.
#[derive(Debug)]
pub enum FdtNodeRef {
    Path(String),
    Symbol(String),
}

/// The offsets of the nodes that a query gave.
pub open spec fn node_offsets<'fdt>(r: Result<Option<FdtNode<'fdt>>, Error>) -> Result<
    Option<int>,
    Error,
> {
    match r {
        Ok(Some(n)) => Ok(Some(n.offset.0 as int)),
        Ok(None) => Ok(None),
        Err(e) => Err(e),
    }
}

impl<'fdt> PartialEq for FdtNode<'fdt> {
    fn eq(&self, other: &Self) -> (r: bool) {
        self.offset.0 == other.offset.0
    }
}

impl<'fdt> vstd::std_specs::cmp::PartialEqSpecImpl for FdtNode<'fdt> {
    open spec fn obeys_eq_spec() -> bool {
        true
    }

    open spec fn eq_spec(&self, other: &FdtNode<'fdt>) -> bool {
        self.offset == other.offset
    }
}

impl<'fdt> Eq for FdtNode<'fdt> {

}

impl<'fdt> core::borrow::Borrow<Offset> for FdtNode<'fdt> {
    fn borrow(&self) -> &Offset {
        &self.offset
    }
}

impl<'fdt> core::hash::Hash for FdtNode<'fdt> {
    fn hash<H: core::hash::Hasher>(&self, state: &mut H) {
        self.offset.0.hash(state)
    }
}

impl<'fdt> FdtNode<'fdt> {
    /// The handle names the node that begins at its offset, by the name it has there.
    pub open spec fn wf(&self) -> bool {
        &&& self.fdt.wf()
        &&& self.fdt.view().node_check(self.offset.0 as int) is Ok
        &&& self.name.spec_bytes() == self.fdt.view().node_name(self.offset.0 as int)
    }

    /// Get the [`Fdt`] in which the node lives.
    pub fn fdt(&self) -> (r: &'fdt Fdt)
        ensures
            r == self.fdt,
    {
        self.fdt
    }

    /// Get the offset in the [`Fdt`] of the node.
    pub fn offset(&self) -> (r: Offset)
        ensures
            r == self.offset,
    {
        self.offset
    }

    /// Get the name of the node.
    pub fn name(&self) -> (r: &'fdt str)
        ensures
            r == self.name,
    {
        self.name
    }

    /// Get the absolute path in the [`Fdt`] of the node.
    pub fn path(&self) -> (r: Result<String, Error>)
        requires
            self.fdt.wf(),
        ensures
            r matches Ok(s) ==> self.fdt.view().node_path(self.offset.0 as int) == Ok::<
                Seq<u8>,
                Error,
            >(encode_utf8(s@)),
            r is Ok <==> (self.fdt.view().node_path(self.offset.0 as int) matches Ok(p)
                && valid_utf8(p)),
            self.fdt.view().node_path(self.offset.0 as int) matches Err(e) ==> r == Err::<
                String,
                Error,
            >(e),
            (self.fdt.view().node_path(self.offset.0 as int) matches Ok(p) && !valid_utf8(p))
                ==> r == Err::<String, Error>(Error::BadValue),
    {
        let bytes = match self.fdt.path_bytes(self.offset.0) {
            Ok(b) => b,
            Err(e) => return Err(e),
        };
        match utf8(bytes.as_slice()) {
            Some(s) => Ok(s.to_owned()),
            None => Err(Error::BadValue),
        }
    }
}

impl Fdt {
    /// Get an [`FdtNode`] from its offset in the [`Fdt`].
    pub fn get_node_by_offset<'fdt>(&'fdt self, nodeoffset: Offset) -> (r: Result<
        FdtNode<'fdt>,
        Error,
    >)
        requires
            self.wf(),
        ensures
            r is Ok <==> self.view().node_check(nodeoffset.0 as int) is Ok,
            r matches Ok(n) ==> n.wf() && n.fdt == self && n.offset == nodeoffset,
            r matches Err(e) ==> self.view().node_check(nodeoffset.0 as int) == Err::<(), Error>(
                e,
            ),
    {
        match self.next_tag(nodeoffset.0) {
            Err(e) => Err(e),
            Ok((tag, _)) => {
                if tag != FDT_BEGIN_NODE {
                    return Err(Error::BadOffset);
                }
                let (a, e) = self.node_name_range(nodeoffset.0);
                let b = self.bytes();
                match utf8(&b[a..e]) {
                    None => Err(Error::BadValue),
                    Some(name) => Ok(FdtNode { fdt: self, offset: nodeoffset, name }),
                }
            },
        }
    }

    /// Makes the node handle for a navigation result; `NotFound` gives none.
    fn node_of<'fdt>(&'fdt self, r: Result<Offset, Error>) -> (res: Result<
        Option<FdtNode<'fdt>>,
        Error,
    >)
        requires
            self.wf(),
        ensures
            node_offsets(res) == self.view().node_at(
                match r {
                    Ok(o) => Ok(o.0 as int),
                    Err(e) => Err(e),
                },
            ),
            res matches Ok(Some(n)) ==> n.wf() && n.fdt == self,
    {
        match r {
            Ok(offset) => match self.get_node_by_offset(offset) {
                Ok(n) => Ok(Some(n)),
                Err(e) => Err(e),
            },
            Err(Error::NotFound) => Ok(None),
            Err(e) => Err(e),
        }
    }

    /// Get the first subnode of a node; none when it has no children.
    pub fn first_subnode<'fdt>(&'fdt self, parent_node: &FdtNode<'fdt>) -> (r: Result<
        Option<FdtNode<'fdt>>,
        Error,
    >)
        requires
            self.wf(),
        ensures
            node_offsets(r) == self.view().node_at(
                self.view().first_subnode(parent_node.offset.0 as int),
            ),
            r matches Ok(Some(n)) ==> n.wf() && n.fdt == self,
    {
        self.node_of(self.first_subnode_offset(parent_node.offset))
    }

    /// Get the sibling that follows a node; none when it is the last one.
    pub fn next_subnode<'fdt>(&'fdt self, previous_node: &FdtNode<'fdt>) -> (r: Result<
        Option<FdtNode<'fdt>>,
        Error,
    >)
        requires
            self.wf(),
        ensures
            node_offsets(r) == self.view().node_at(
                self.view().next_subnode(previous_node.offset.0 as int),
            ),
            r matches Ok(Some(n)) ==> n.wf() && n.fdt == self,
    {
        self.node_of(self.next_subnode_offset(previous_node.offset))
    }

    /// Get the [`FdtNode`] at an absolute path.
    pub fn get_node<'fdt>(&'fdt self, path: &str) -> (r: Result<FdtNode<'fdt>, Error>)
        requires
            self.wf(),
        ensures
            r matches Ok(n) ==> n.wf() && n.fdt == self && self.view().path_offset(
                path.spec_bytes(),
            ) == Ok::<int, Error>(n.offset.0 as int),
            r matches Err(e) ==> self.view().path_offset(path.spec_bytes()) == Err::<int, Error>(e)
                || (self.view().path_offset(path.spec_bytes()) matches Ok(o)
                && self.view().node_check(o) == Err::<(), Error>(e)),
            r is Ok <==> (self.view().path_offset(path.spec_bytes()) matches Ok(o)
                && self.view().node_check(o) is Ok),
    {
        match self.path_offset(path) {
            Ok(offset) => self.get_node_by_offset(offset),
            Err(e) => Err(e),
        }
    }

    /// Get the [`FdtNode`] that declares the given phandle.
    pub fn get_node_by_phandle<'fdt>(&'fdt self, phandle: &Phandle) -> (r: Result<
        FdtNode<'fdt>,
        Error,
    >)
        requires
            self.wf(),
        ensures
            r matches Ok(n) ==> n.wf() && n.fdt == self && self.view().node_by_phandle(
                phandle.spec_value(),
            ) == Ok::<int, Error>(n.offset.0 as int),
            r matches Err(e) ==> self.view().node_by_phandle(phandle.spec_value()) == Err::<
                int,
                Error,
            >(e) || (self.view().node_by_phandle(phandle.spec_value()) matches Ok(o)
                && self.view().node_check(o) == Err::<(), Error>(e)),
            r is Ok <==> (self.view().node_by_phandle(phandle.spec_value()) matches Ok(o)
                && self.view().node_check(o) is Ok),
    {
        match self.node_offset_by_phandle(phandle.value()) {
            Ok(offset) => self.get_node_by_offset(offset),
            Err(e) => Err(e),
        }
    }

    /// Get the phandle that a node declares; `BadPhandle` where it declares none.
    pub fn get_phandle<'fdt>(&'fdt self, node: &FdtNode<'fdt>) -> (r: Result<Phandle, Error>)
        requires
            self.wf(),
        ensures
            ({
                let v = self.view().phandle_value(node.offset.0 as int);
                &&& r is Ok <==> Phandle::valid(v)
                &&& r matches Ok(p) ==> p.spec_value() == v
                &&& r matches Err(e) ==> e == Error::BadPhandle
            }),
    {
        Phandle::new(self.phandle_value(node.offset.0))
    }

    /// Whether the `compatible` property of a node lists `compatible`;
    /// `NotFound` where the node has no such property.
    pub fn is_compatible<'fdt>(&'fdt self, node: &FdtNode<'fdt>, compatible: &str) -> (r: Result<
        bool,
        Error,
    >)
        requires
            self.wf(),
        ensures
            ({
                let p = self.view().get_property(node.offset.0 as int, compatible_name());
                &&& r is Ok <==> p is Ok
                &&& r matches Ok(b) ==> p matches Ok(q) && b == strlist_contains(
                    self.view().prop_data(q),
                    compatible.spec_bytes(),
                )
                &&& r matches Err(e) ==> p == Err::<int, Error>(e)
            }),
    {
        let name: Vec<u8> = vec![0x63u8, 0x6f, 0x6d, 0x70, 0x61, 0x74, 0x69, 0x62, 0x6c, 0x65];
        assert(name@ =~= compatible_name());
        match self.property_offset(node.offset.0, name.as_slice()) {
            Err(e) => Err(e),
            Ok(p) => {
                proof {
                    crate::fdt::lemma_get_property_is_prop(
                        self.view(),
                        node.offset.0 as int,
                        name@,
                    );
                }
                let (a, e) = self.prop_data_range(p);
                Ok(range_strlist_contains(self.bytes(), a, e, compatible.as_bytes()))
            },
        }
    }
}

} // verus!
