//! Properties: their values, a cursor to decode them, and the phandle
//! links that they carry.
use vstd::prelude::*;
use vstd::string::StringSliceAdditionalSpecFns;
use vstd::utf8::valid_utf8;

use crate::error::Error;
use crate::fdt::{lemma_get_property_is_prop, lemma_prop_data_len, Fdt, FdtView, Offset, Phandle};
use crate::format::{be32, find_nul, nul_index, range_eq, read_be32, utf8, FDT_PROP};
use crate::node::FdtNode;

verus! {

/// A convention for a property that holds phandles: the property's name
/// (or name suffix), and the name of the property of the referenced node that
/// says how many argument cells follow each phandle (empty when there are none).
#[derive(Debug, Clone)]
pub struct PhandleLink {
    pub name: &'static str,
    pub size: &'static str,
}

impl View for PhandleLink {
    type V = (Seq<u8>, Seq<u8>);

    open spec fn view(&self) -> (Seq<u8>, Seq<u8>) {
        (self.name.spec_bytes(), self.size.spec_bytes())
    }
}

impl PartialEq for PhandleLink {
    fn eq(&self, other: &PhandleLink) -> (r: bool) {
        slice_eq(self.name.as_bytes(), other.name.as_bytes())
    }
}

impl vstd::std_specs::cmp::PartialEqSpecImpl for PhandleLink {
    open spec fn obeys_eq_spec() -> bool {
        true
    }

    open spec fn eq_spec(&self, other: &PhandleLink) -> bool {
        self.name.spec_bytes() == other.name.spec_bytes()
    }
}

impl Eq for PhandleLink {

}

impl core::borrow::Borrow<str> for PhandleLink {
    fn borrow(&self) -> &str {
        self.name
    }
}

impl core::hash::Hash for PhandleLink {
    fn hash<H: core::hash::Hasher>(&self, state: &mut H) {
        self.name.hash(state)
    }
}

/// The views of a table of conventions.
pub open spec fn links_view(links: Seq<PhandleLink>) -> Seq<(Seq<u8>, Seq<u8>)> {
    links.map_values(|l: PhandleLink| l@)
}


/// A decoder of one kind of value from a property's bytes.
pub trait PropertyParser {
    /// The type of the values decoded.
    type Output;

    /// The number of bytes that one value takes.
    spec fn spec_size() -> nat;

    /// The value that `bytes`, `spec_size()` of them, encode.
    spec fn spec_parse(bytes: Seq<u8>) -> Self::Output;

    /// The number of bytes that one value takes.
    fn size() -> (r: usize)
        ensures
            r == Self::spec_size(),
    ;

    /// Decodes the value that starts at `pos` in `data`.
    fn parse(data: &[u8], pos: usize) -> (r: Self::Output)
        requires
            pos + Self::spec_size() <= data@.len(),
        ensures
            r == Self::spec_parse(data@.subrange(pos as int, pos + Self::spec_size())),
    ;
}

/// A decoder of cells: big-endian 32-bit values.
pub struct PropertyCellParser;

impl PropertyParser for PropertyCellParser {
    type Output = u32;

    open spec fn spec_size() -> nat {
        4
    }

    open spec fn spec_parse(bytes: Seq<u8>) -> u32 {
        be32(bytes, 0)
    }

    fn size() -> (r: usize) {
        4
    }

    fn parse(data: &[u8], pos: usize) -> (r: u32) {
        read_be32(data, pos)
    }
}

/// A node property: its name and its value, both as they stand in the blob.
///
/// How the value is to be read depends on the property: its name, the node
/// that holds it, and conventions of vendors and platforms.
#[derive(Debug, Clone)]
pub struct FdtProperty<'fdt> {
    pub fdt: &'fdt Fdt,
    pub name: &'fdt str,
    pub data: &'fdt [u8],
    /// Where the property's token stands; absent when it was looked up by name.
    pub offset: Option<Offset>,
}

/// A cursor over a property's value, which reads it from the start to the end.
pub struct PropertyReader<'fdt> {
    data: &'fdt [u8],
    pos: usize,
}

impl FdtView {
    /// Whether a property handle can be made for the offset `p`: a property
    /// stands there, and its name is a valid UTF-8 string of the strings block.
    pub open spec fn prop_check(self, p: int) -> Result<(), Error> {
        match self.next_tag(p) {
            Err(e) => Err(e),
            Ok((tag, _)) => if tag != FDT_PROP {
                Err(Error::BadOffset)
            } else {
                match self.prop_name(p) {
                    None => Err(Error::BadOffset),
                    Some(n) => if valid_utf8(n) {
                        Ok(())
                    } else {
                        Err(Error::BadValue)
                    },
                }
            },
        }
    }

    /// The property that a navigation result leads to: none where the result
    /// is `NotFound`, the result's other errors, and the errors of making a handle.
    pub open spec fn prop_at(self, r: Result<int, Error>) -> Result<Option<int>, Error> {
        match r {
            Ok(o) => match self.prop_check(o) {
                Ok(()) => Ok(Some(o)),
                Err(e) => Err(e),
            },
            Err(Error::NotFound) => Ok(None),
            Err(e) => Err(e),
        }
    }

    /// The table entry that the property named `name` follows: the first
    /// whole-name match, else the first suffix that ends the name.
    pub open spec fn link_rule(self, name: Seq<u8>) -> Option<(Seq<u8>, Seq<u8>)> {
        match exact_link(self.links_simple, name) {
            Some(entry) => Some(entry),
            None => suffix_link(self.links_suffix, name),
        }
    }

    /// The convention that the property named `name` follows, as the name of
    /// its cell-count property.
    pub open spec fn link_of(self, name: Seq<u8>) -> Option<Seq<u8>> {
        match self.link_rule(name) {
            Some(entry) => Some(entry.1),
            None => None,
        }
    }

    /// The number of argument cells after a phandle that refers to the node at
    /// `t`, by its cell-count property `size_name`; 0 when there is no such
    /// name, or the node lacks the property.
    pub open spec fn arg_count(self, t: int, size_name: Seq<u8>) -> Result<u32, Error> {
        if size_name.len() == 0 {
            Ok(0)
        } else {
            match self.get_property(t, size_name) {
                Err(Error::NotFound) => Ok(0),
                Err(e) => Err(e),
                Ok(q) => if self.prop_len(q) < 4 {
                    Err(Error::BadNCells)
                } else {
                    Ok(be32(self.prop_data(q), 0))
                },
            }
        }
    }

    /// What one entry of a phandle array that starts with the value `ph` is:
    /// none where `ph` is invalid or declared by no node, else the node it
    /// refers to and the number of argument cells that follow.
    #[verifier::opaque]
    pub open spec fn link_entry(self, ph: u32, size_name: Seq<u8>) -> Result<
        Option<(int, u32)>,
        Error,
    > {
        if !Phandle::valid(ph) {
            Ok(None)
        } else {
            match self.node_by_phandle(ph) {
                Err(Error::NotFound) => Ok(None),
                Err(e) => Err(e),
                Ok(t) => match self.node_check(t) {
                    Err(e) => Err(e),
                    Ok(()) => match self.arg_count(t, size_name) {
                        Err(e) => Err(e),
                        Ok(k) => Ok(Some((t, k))),
                    },
                },
            }
        }
    }

    /// The nodes referenced by the phandle array `data` from byte `pos` on,
    /// each phandle followed by its argument cells. Invalid and unknown
    /// phandles are skipped, one cell each.
    #[verifier::opaque]
    pub open spec fn link_walk(self, data: Seq<u8>, pos: int, size_name: Seq<u8>) -> Result<
        Seq<int>,
        Error,
    >
        decreases data.len() - pos,
    {
        if pos < 0 || pos + 4 > data.len() {
            Ok(Seq::empty())
        } else {
            match self.link_entry(be32(data, pos), size_name) {
                Err(e) => Err(e),
                Ok(None) => self.link_walk(data, pos + 4, size_name),
                Ok(Some((t, k))) => prepend(
                    seq![t],
                    self.link_walk(data, skip_cells(data.len() as int, pos + 4, k), size_name),
                ),
            }
        }
    }

    /// Whether the phandle array `data`, from byte `pos` on, is made of whole
    /// entries only: each a valid phandle of a node, then all of that node's
    /// argument cells.
    pub open spec fn well_formed_links(self, data: Seq<u8>, pos: int, size_name: Seq<u8>) -> bool
        decreases data.len() - pos,
    {
        if pos < 0 || pos > data.len() {
            false
        } else if pos == data.len() {
            true
        } else {
            let ph = be32(data, pos);
            &&& pos + 4 <= data.len()
            &&& Phandle::valid(ph)
            &&& self.node_by_phandle(ph) matches Ok(t)
            &&& self.node_check(t) is Ok
            &&& self.arg_count(t, size_name) matches Ok(k)
            &&& pos + 4 + 4 * k <= data.len()
            &&& self.well_formed_links(data, pos + 4 + 4 * k, size_name)
        }
    }

    /// The bytes that the entries of the nodes `ts` take: one phandle cell
    /// and their argument cells each.
    pub open spec fn encoded_len(self, ts: Seq<int>, size_name: Seq<u8>) -> int
        decreases ts.len(),
    {
        if ts.len() == 0 {
            0
        } else {
            4 + 4 * (match self.arg_count(ts[0], size_name) {
                Ok(k) => k as int,
                Err(_) => 0,
            }) + self.encoded_len(ts.drop_first(), size_name)
        }
    }
}

/// One step of the walk over a phandle array.
pub proof fn lemma_link_walk_unfold(v: FdtView, data: Seq<u8>, pos: int, size_name: Seq<u8>)
    ensures
        v.link_walk(data, pos, size_name) == (if pos < 0 || pos + 4 > data.len() {
            Ok(Seq::empty())
        } else {
            match v.link_entry(be32(data, pos), size_name) {
                Err(e) => Err(e),
                Ok(None) => v.link_walk(data, pos + 4, size_name),
                Ok(Some((t, k))) => prepend(
                    seq![t],
                    v.link_walk(data, skip_cells(data.len() as int, pos + 4, k), size_name),
                ),
            }
        }),
{
    reveal(FdtView::link_walk);
}

/// The first convention of `table` named exactly `name`.
pub open spec fn exact_link(table: Seq<(Seq<u8>, Seq<u8>)>, name: Seq<u8>) -> Option<
    (Seq<u8>, Seq<u8>),
>
    decreases table.len(),
{
    if table.len() == 0 {
        None
    } else if table[0].0 == name {
        Some(table[0])
    } else {
        exact_link(table.drop_first(), name)
    }
}

/// Whether `name` ends with `suffix`.
pub open spec fn ends_with(name: Seq<u8>, suffix: Seq<u8>) -> bool {
    suffix.len() <= name.len() && name.subrange(name.len() - suffix.len(), name.len() as int)
        == suffix
}

/// The first convention of `table` whose name ends `name`.
pub open spec fn suffix_link(table: Seq<(Seq<u8>, Seq<u8>)>, name: Seq<u8>) -> Option<
    (Seq<u8>, Seq<u8>),
>
    decreases table.len(),
{
    if table.len() == 0 {
        None
    } else if ends_with(name, table[0].0) {
        Some(table[0])
    } else {
        suffix_link(table.drop_first(), name)
    }
}

/// `s` put in front of the nodes of `r`, where `r` succeeded.
pub open spec fn prepend(s: Seq<int>, r: Result<Seq<int>, Error>) -> Result<Seq<int>, Error> {
    match r {
        Ok(ts) => Ok(s + ts),
        Err(e) => Err(e),
    }
}

/// The position after skipping `k` cells from `pos`, or as many whole cells
/// as remain before `len`.
pub open spec fn skip_cells(len: int, pos: int, k: u32) -> int {
    if pos + 4 * (k as int) <= len {
        pos + 4 * (k as int)
    } else {
        pos + 4 * ((len - pos) / 4)
    }
}

/// The offsets of the nodes `ns`.
pub open spec fn offsets_of<'fdt>(ns: Seq<FdtNode<'fdt>>) -> Seq<int> {
    ns.map_values(|n: FdtNode<'fdt>| n.offset.0 as int)
}

/// The offsets of the properties that a query gave.
pub open spec fn prop_offsets<'fdt>(r: Result<Option<FdtProperty<'fdt>>, Error>) -> Result<
    Option<int>,
    Error,
> {
    match r {
        Ok(Some(p)) => match p.offset {
            Some(o) => Ok(Some(o.0 as int)),
            None => Ok(None),
        },
        Ok(None) => Ok(None),
        Err(e) => Err(e),
    }
}

impl<'fdt> FdtProperty<'fdt> {
    /// The handle holds the name and the value that the blob gives the
    /// property at its offset.
    pub open spec fn wf(&self) -> bool {
        &&& self.fdt.wf()
        &&& self.offset matches Some(o) ==> {
            &&& self.fdt.view().prop_check(o.0 as int) is Ok
            &&& self.fdt.view().prop_name(o.0 as int) == Some(self.name.spec_bytes())
            &&& self.data@ == self.fdt.view().prop_data(o.0 as int)
        }
    }

    /// The value read as a NUL-terminated UTF-8 string; `BadValue` when it
    /// holds no NUL, or the bytes before it are not UTF-8.
    pub fn data_as_str(&self) -> (r: Result<&'fdt str, Error>)
        ensures
            r is Ok <==> (nul_index(self.data@, 0, self.data@.len() as int) matches Some(p)
                && valid_utf8(self.data@.subrange(0, p))),
            r matches Ok(s) ==> nul_index(self.data@, 0, self.data@.len() as int) matches Some(p)
                && s.spec_bytes() == self.data@.subrange(0, p),
            r matches Err(e) ==> e == Error::BadValue,
    {
        match find_nul(self.data, 0, self.data.len()) {
            None => Err(Error::BadValue),
            Some(p) => {
                proof {
                    crate::format::lemma_nul_index(self.data@, 0, self.data@.len() as int);
                }
                match utf8(&self.data[0..p]) {
                    Some(s) => Ok(s),
                    None => Err(Error::BadValue),
                }
            },
        }
    }

    /// Get the name of the property.
    pub fn name(&self) -> (r: &'fdt str)
        ensures
            r == self.name,
    {
        self.name
    }

    /// The convention that the property named `name` follows, if any.
    fn get_link(&self, name: &[u8]) -> (r: Option<&'fdt PhandleLink>)
        ensures
            r is None <==> self.fdt.view().link_rule(name@) is None,
            r matches Some(l) ==> self.fdt.view().link_rule(name@) == Some(l@),
    {
        let simple = self.fdt.links_simple();
        let mut i: usize = 0;
        assert(links_view(simple@).subrange(0, simple@.len() as int) =~= links_view(simple@));
        while i < simple.len()
            invariant
                0 <= i <= simple@.len(),
                links_view(simple@) == self.fdt.view().links_simple,
                exact_link(self.fdt.view().links_simple, name@) == exact_link(
                    links_view(simple@).subrange(i as int, simple@.len() as int),
                    name@,
                ),
            decreases simple@.len() - i,
        {
            let ghost rest = links_view(simple@).subrange(i as int, simple@.len() as int);
            assert(rest.drop_first() =~= links_view(simple@).subrange(
                i + 1,
                simple@.len() as int,
            ));
            let l = &simple[i];
            if slice_eq(l.name.as_bytes(), name) {
                return Some(l);
            }
            i = i + 1;
        }
        let suffix = self.fdt.links_suffix();
        let mut j: usize = 0;
        assert(links_view(suffix@).subrange(0, suffix@.len() as int) =~= links_view(suffix@));
        while j < suffix.len()
            invariant
                0 <= j <= suffix@.len(),
                links_view(suffix@) == self.fdt.view().links_suffix,
                exact_link(self.fdt.view().links_simple, name@) is None,
                suffix_link(self.fdt.view().links_suffix, name@) == suffix_link(
                    links_view(suffix@).subrange(j as int, suffix@.len() as int),
                    name@,
                ),
            decreases suffix@.len() - j,
        {
            let ghost rest = links_view(suffix@).subrange(j as int, suffix@.len() as int);
            assert(rest.drop_first() =~= links_view(suffix@).subrange(
                j + 1,
                suffix@.len() as int,
            ));
            let l = &suffix[j];
            let s = l.name.as_bytes();
            if s.len() <= name.len() && range_eq(name, name.len() - s.len(), name.len(), s) {
                return Some(l);
            }
            j = j + 1;
        }
        None
    }
}

/// Whether `a` and `b` hold the same bytes.
fn slice_eq(a: &[u8], b: &[u8]) -> (r: bool)
    ensures
        r == (a@ == b@),
{
    proof {
        assert(a@.subrange(0, a@.len() as int) =~= a@);
    }
    range_eq(a, 0, a.len(), b)
}

impl<'fdt> PropertyReader<'fdt> {
    /// The bytes read.
    pub closed spec fn data_view(&self) -> Seq<u8> {
        self.data@
    }

    /// The position of the next read.
    pub closed spec fn position(&self) -> int {
        self.pos as int
    }

    /// Reads the next value, and moves the cursor past it; `None`, with the
    /// cursor left in place, when fewer bytes than a value takes remain.
    pub fn read<P: PropertyParser>(&mut self) -> (r: Option<P::Output>)
        ensures
            final(self).data_view() == old(self).data_view(),
            old(self).position() + P::spec_size() <= old(self).data_view().len() ==> r == Some(
                P::spec_parse(
                    old(self).data_view().subrange(
                        old(self).position(),
                        old(self).position() + P::spec_size(),
                    ),
                ),
            ) && final(self).position() == old(self).position() + P::spec_size(),
            old(self).position() + P::spec_size() > old(self).data_view().len() ==> r is None
                && final(self).position() == old(self).position(),
    {
        let size = P::size();
        if self.pos > self.data.len() || self.data.len() - self.pos < size {
            return None;
        }
        let v = P::parse(self.data, self.pos);
        self.pos = self.pos + size;
        Some(v)
    }

    /// Moves the cursor past `cells` cells, or past all whole cells that remain.
    fn skip_cells(&mut self, cells: u32)
        requires
            old(self).position() <= old(self).data_view().len(),
        ensures
            final(self).data_view() == old(self).data_view(),
            final(self).position() == skip_cells(
                old(self).data_view().len() as int,
                old(self).position(),
                cells,
            ),
    {
        let mut n: u32 = 0;
        while n < cells && self.data.len() - self.pos >= 4
            invariant
                self.data@ == old(self).data_view(),
                self.pos <= self.data@.len(),
                n <= cells,
                self.pos == old(self).position() + 4 * n,
            decreases cells - n,
        {
            self.pos = self.pos + 4;
            n = n + 1;
        }
    }
}

/// A reader made from a property reads its value from the start.
pub broadcast proof fn lemma_reader_from<'a, 'fdt>(prop: &'a FdtProperty<'fdt>)
    ensures
        ({
            let r = #[trigger] <PropertyReader<'fdt> as vstd::std_specs::convert::FromSpec<
                &'a FdtProperty<'fdt>,
            >>::from_spec(prop);
            r.data_view() == prop.data@ && r.position() == 0
        }),
{
}

/// A reader's position is never negative.
pub broadcast proof fn lemma_reader_position<'fdt>(r: PropertyReader<'fdt>)
    ensures
        #[trigger] r.position() >= 0,
{
}

impl<'a, 'fdt> From<&'a FdtProperty<'fdt>> for PropertyReader<'fdt> {
    fn from(prop: &'a FdtProperty<'fdt>) -> PropertyReader<'fdt> {
        PropertyReader { data: prop.data, pos: 0 }
    }
}

impl<'a, 'fdt> vstd::std_specs::convert::FromSpecImpl<&'a FdtProperty<'fdt>> for PropertyReader<'fdt> {
    open spec fn obeys_from_spec() -> bool {
        true
    }

    closed spec fn from_spec(prop: &'a FdtProperty<'fdt>) -> PropertyReader<'fdt> {
        PropertyReader { data: prop.data, pos: 0 }
    }
}


impl Fdt {
    /// Get an [`FdtProperty`] from its offset in the [`Fdt`].
    pub fn get_property_by_offset<'fdt>(&'fdt self, offset: Offset) -> (r: Result<
        FdtProperty<'fdt>,
        Error,
    >)
        requires
            self.wf(),
        ensures
            r is Ok <==> self.view().prop_check(offset.0 as int) is Ok,
            r matches Ok(p) ==> p.wf() && p.fdt == self && p.offset == Some(offset),
            r matches Err(e) ==> self.view().prop_check(offset.0 as int) == Err::<(), Error>(e),
    {
        match self.next_tag(offset.0) {
            Err(e) => Err(e),
            Ok((tag, _)) => {
                if tag != FDT_PROP {
                    return Err(Error::BadOffset);
                }
                let b = self.bytes();
                match self.prop_name_range(offset.0) {
                    None => Err(Error::BadOffset),
                    Some((a, e)) => match utf8(&b[a..e]) {
                        None => Err(Error::BadValue),
                        Some(name) => {
                            let (da, de) = self.prop_data_range(offset.0);
                            Ok(FdtProperty { fdt: self, name, data: &b[da..de], offset: Some(offset) })
                        },
                    },
                }
            },
        }
    }

    /// Makes the property handle for a navigation result; `NotFound` gives none.
    fn prop_of<'fdt>(&'fdt self, r: Result<Offset, Error>) -> (res: Result<
        Option<FdtProperty<'fdt>>,
        Error,
    >)
        requires
            self.wf(),
        ensures
            prop_offsets(res) == self.view().prop_at(
                match r {
                    Ok(o) => Ok(o.0 as int),
                    Err(e) => Err(e),
                },
            ),
            res matches Ok(Some(p)) ==> p.wf() && p.fdt == self && p.offset is Some,
    {
        match r {
            Ok(offset) => match self.get_property_by_offset(offset) {
                Ok(p) => Ok(Some(p)),
                Err(e) => Err(e),
            },
            Err(Error::NotFound) => Ok(None),
            Err(e) => Err(e),
        }
    }

    /// Get the first property of a node; none when it has none.
    pub fn first_property<'fdt>(&'fdt self, node: &FdtNode<'fdt>) -> (r: Result<
        Option<FdtProperty<'fdt>>,
        Error,
    >)
        requires
            self.wf(),
        ensures
            prop_offsets(r) == self.view().prop_at(
                self.view().first_property(node.offset.0 as int),
            ),
            r matches Ok(Some(p)) ==> p.wf() && p.fdt == self && p.offset is Some,
    {
        self.prop_of(self.first_property_offset(node.offset))
    }

    /// Get the property after the given one, in the same node; none when it is the last.
    /// A property looked up by name has no offset, and is refused with `BadOffset`.
    pub fn next_property<'fdt>(&'fdt self, property: &FdtProperty<'fdt>) -> (r: Result<
        Option<FdtProperty<'fdt>>,
        Error,
    >)
        requires
            self.wf(),
        ensures
            property.offset is None ==> r == Err::<Option<FdtProperty<'fdt>>, Error>(
                Error::BadOffset,
            ),
            property.offset matches Some(o) ==> prop_offsets(r) == self.view().prop_at(
                self.view().next_property(o.0 as int),
            ),
            r matches Ok(Some(p)) ==> p.wf() && p.fdt == self && p.offset is Some,
    {
        match property.offset {
            None => Err(Error::BadOffset),
            Some(o) => self.prop_of(self.next_property_offset(o)),
        }
    }

    /// Get an [`FdtProperty`] given its node and its name.
    pub fn get_property<'fdt>(&'fdt self, node: &FdtNode<'fdt>, property_name: &str) -> (r: Result<
        FdtProperty<'fdt>,
        Error,
    >)
        requires
            self.wf(),
        ensures
            ({
                let q = self.view().get_property(node.offset.0 as int, property_name.spec_bytes());
                &&& r is Ok <==> q is Ok
                &&& r matches Ok(p) ==> q matches Ok(o) && p.fdt == self && p.offset is None
                    && p.name.spec_bytes() == property_name.spec_bytes() && p.data@
                    == self.view().prop_data(o) && p.wf()
                &&& r matches Err(e) ==> q == Err::<int, Error>(e)
            }),
    {
        let wanted = property_name.as_bytes();
        match self.property_offset(node.offset.0, wanted) {
            Err(e) => Err(e),
            Ok(o) => {
                proof {
                    lemma_get_property_is_prop(self.view(), node.offset.0 as int, wanted@);
                    vstd::utf8::encode_utf8_valid_utf8(property_name@);
                }
                let b = self.bytes();
                match self.prop_name_range(o) {
                    None => Err(Error::BadOffset),
                    Some((a, e)) => match utf8(&b[a..e]) {
                        None => Err(Error::BadValue),
                        Some(name) => {
                            let (da, de) = self.prop_data_range(o);
                            Ok(FdtProperty { fdt: self, name, data: &b[da..de], offset: None })
                        },
                    },
                }
            },
        }
    }
}

impl<'fdt> FdtNode<'fdt> {
    /// Get a property of the node, given its name.
    pub fn get_property(&self, property_name: &str) -> (r: Result<FdtProperty<'fdt>, Error>)
        requires
            self.fdt.wf(),
        ensures
            ({
                let q = self.fdt.view().get_property(
                    self.offset.0 as int,
                    property_name.spec_bytes(),
                );
                &&& r is Ok <==> q is Ok
                &&& r matches Ok(p) ==> q matches Ok(o) && p.fdt == self.fdt && p.offset is None
                    && p.name.spec_bytes() == property_name.spec_bytes() && p.data@
                    == self.fdt.view().prop_data(o) && p.wf()
                &&& r matches Err(e) ==> q == Err::<int, Error>(e)
            }),
    {
        self.fdt.get_property(self, property_name)
    }
}

impl<'fdt> FdtProperty<'fdt> {
    /// The node that the phandle value `ph` refers to; none where the value is
    /// invalid or no node declares it.
    fn link_target(&self, ph: u32) -> (r: Result<Option<FdtNode<'fdt>>, Error>)
        requires
            self.fdt.wf(),
        ensures
            ({
                let v = self.fdt.view();
                &&& r matches Ok(None) ==> !Phandle::valid(ph) || v.node_by_phandle(ph) == Err::<
                    int,
                    Error,
                >(Error::NotFound)
                &&& r matches Ok(Some(n)) ==> Phandle::valid(ph) && v.node_by_phandle(ph) == Ok::<
                    int,
                    Error,
                >(n.offset.0 as int) && v.node_check(n.offset.0 as int) is Ok && n.wf() && n.fdt
                    == self.fdt
                &&& r matches Err(e) ==> Phandle::valid(ph) && ((v.node_by_phandle(ph) == Err::<
                    int,
                    Error,
                >(e) && e != Error::NotFound) || (v.node_by_phandle(ph) matches Ok(o)
                    && v.node_check(o) == Err::<(), Error>(e)))
            }),
    {
        let phandle = match Phandle::new(ph) {
            Ok(p) => p,
            Err(_) => return Ok(None),
        };
        match self.fdt.get_node_by_phandle(&phandle) {
            Ok(t) => Ok(Some(t)),
            Err(Error::NotFound) => Ok(None),
            Err(e) => Err(e),
        }
    }

    /// The number of argument cells after a phandle that refers to `target`,
    /// by the cell-count property `size`.
    fn arg_count(&self, target: &FdtNode<'fdt>, size: &str) -> (r: Result<u32, Error>)
        requires
            self.fdt.wf(),
        ensures
            r == self.fdt.view().arg_count(target.offset.0 as int, size.spec_bytes()),
    {
        if size.as_bytes().len() == 0 {
            return Ok(0);
        }
        let ghost v = self.fdt.view();
        let ghost t = target.offset.0 as int;
        proof {
            lemma_get_property_is_prop(v, t, size.spec_bytes());
            if let Ok(q) = v.get_property(t, size.spec_bytes()) {
                lemma_prop_data_len(v, q);
            }
        }
        match self.fdt.get_property(target, size) {
            Ok(sp) => {
                let mut size_rdr = PropertyReader::from(&sp);
                match size_rdr.read::<PropertyCellParser>() {
                    Some(c) => Ok(c),
                    None => Err(Error::BadNCells),
                }
            },
            Err(Error::NotFound) => Ok(0),
            Err(e) => Err(e),
        }
    }

    /// One entry of a phandle array that starts with the value `ph`.
    fn link_entry(&self, ph: u32, size: &str) -> (r: Result<Option<(FdtNode<'fdt>, u32)>, Error>)
        requires
            self.fdt.wf(),
        ensures
            ({
                let s = self.fdt.view().link_entry(ph, size.spec_bytes());
                &&& r matches Ok(None) ==> s == Ok::<Option<(int, u32)>, Error>(None)
                &&& r matches Ok(Some((n, k))) ==> s == Ok::<Option<(int, u32)>, Error>(
                    Some((n.offset.0 as int, k)),
                ) && n.wf() && n.fdt == self.fdt
                &&& r matches Err(e) ==> s == Err::<Option<(int, u32)>, Error>(e)
            }),
    {
        proof {
            reveal(FdtView::link_entry);
        }
        let target = match self.link_target(ph) {
            Ok(Some(t)) => t,
            Ok(None) => return Ok(None),
            Err(e) => return Err(e),
        };
        match self.arg_count(&target, size) {
            Ok(k) => Ok(Some((target, k))),
            Err(e) => Err(e),
        }
    }

    /// The nodes that the property refers to, in order, if its name follows a
    /// phandle convention; `None` when it follows none.
    ///
    /// Entries whose phandle is invalid, or declared by no node, are skipped
    /// one cell at a time. A referenced node that lacks the cell-count
    /// property has no argument cells.
    pub fn links(&self) -> (r: Result<Option<Vec<FdtNode<'fdt>>>, Error>)
        requires
            self.fdt.wf(),
        ensures
            self.fdt.view().link_of(self.name.spec_bytes()) is None ==> r == Ok::<
                Option<Vec<FdtNode<'fdt>>>,
                Error,
            >(None),
            self.fdt.view().link_of(self.name.spec_bytes()) matches Some(size_name) ==> {
                let walk = self.fdt.view().link_walk(self.data@, 0, size_name);
                &&& r is Ok <==> walk is Ok
                &&& r matches Ok(Some(ns)) ==> walk == Ok::<Seq<int>, Error>(offsets_of(ns@))
                    && forall|i: int|
                    0 <= i < ns@.len() ==> (#[trigger] ns@[i]).wf() && ns@[i].fdt == self.fdt
                &&& r matches Err(e) ==> walk == Err::<Seq<int>, Error>(e)
                &&& r != Ok::<Option<Vec<FdtNode<'fdt>>>, Error>(None)
            },
    {
        let link = match self.get_link(self.name.as_bytes()) {
            None => return Ok(None),
            Some(l) => l,
        };
        let size_name = link.size.as_bytes();
        let ghost v = self.fdt.view();
        let ghost d = self.data@;
        let ghost sn = size_name@;
        let mut res: Vec<FdtNode<'fdt>> = Vec::new();
        let mut rdr = PropertyReader::from(self);
        assert(offsets_of(res@) =~= Seq::<int>::empty());
        assert(prepend(Seq::empty(), v.link_walk(d, 0, sn)) =~= v.link_walk(d, 0, sn)) by {
            if let Ok(ts) = v.link_walk(d, 0, sn) {
                assert(Seq::<int>::empty() + ts =~= ts);
            }
        }
        loop
            invariant
                self.fdt.wf(),
                v == self.fdt.view(),
                d == self.data@,
                rdr.data_view() == d,
                0 <= rdr.position() <= d.len(),
                v.link_walk(d, 0, sn) == prepend(
                    offsets_of(res@),
                    v.link_walk(d, rdr.position(), sn),
                ),
                sn == size_name@,
                sn == link.size.spec_bytes(),
                v.link_of(self.name.spec_bytes()) == Some(sn),
                forall|i: int|
                    0 <= i < res@.len() ==> (#[trigger] res@[i]).wf() && res@[i].fdt == self.fdt,
            decreases d.len() - rdr.position(),
        {
            let ghost pos = rdr.position();
            let ph = match rdr.read::<PropertyCellParser>() {
                None => {
                    proof {
                        lemma_link_walk_unfold(v, d, pos, sn);
                    }
                    assert(offsets_of(res@) + Seq::<int>::empty() =~= offsets_of(res@));
                    return Ok(Some(res));
                },
                Some(c) => c,
            };
            assert(ph == be32(d, pos));
            proof {
                lemma_link_walk_unfold(v, d, pos, sn);
            }
            let (target, count) = match self.link_entry(ph, link.size) {
                Ok(Some(entry)) => entry,
                Ok(None) => continue,
                Err(e) => return Err(e),
            };
            let ghost t = target.offset.0 as int;
            rdr.skip_cells(count);
            let ghost before = res@;
            res.push(target);
            assert(offsets_of(res@) =~= offsets_of(before) + seq![t]);
            assert(v.link_walk(d, 0, sn) == prepend(
                offsets_of(res@),
                v.link_walk(d, rdr.position(), sn),
            )) by {
                if let Ok(ts) = v.link_walk(d, rdr.position(), sn) {
                    assert(offsets_of(before) + (seq![t] + ts) =~= offsets_of(res@) + ts);
                }
            }
        }
    }
}

} // verus!
