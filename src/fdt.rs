//! The blob handle: header validation and the structure walker.
use vstd::prelude::*;

use crate::error::Error;
use crate::linux::{
    linux_phandle_properties_simple_list, linux_phandle_properties_suffix_list, linux_simple_table,
    linux_suffix_table,
};
use crate::property::{links_view, PhandleLink};
use crate::format::{
    align4, be32, find_nul, nul_index, range_eq, read_be32, FDT_BEGIN_NODE, FDT_END, FDT_END_NODE, FDT_NOP,
    FDT_PROP,
};

verus! {

/// The magic number that a device tree blob starts with.
pub const FDT_MAGIC: u32 = 0xd00dfeed;

/// Size of the header that this library reads.
pub const FDT_HEADER_SIZE: usize = 40;

/// Oldest format version that is read. Blobs older than version 16 name each
/// node by its full path rather than by its own name, and their headers lack
/// the size of the strings block (before version 3); they are refused with
/// `BadVersion` rather than read with a second decoder.
pub const FDT_FIRST_SUPPORTED_VERSION: u32 = 16;

/// Newest format version that is read.
pub const FDT_LAST_SUPPORTED_VERSION: u32 = 17;

/// Largest valid phandle value; 0 and the values above it are reserved.
pub const FDT_MAX_PHANDLE: u32 = 0xfffffffe;

/// Header field `i` (a byte position) of blob `b`.
pub open spec fn hdr(b: Seq<u8>, i: int) -> int {
    be32(b, i) as int
}

/// Size of the structure block as the header declares it.
pub open spec fn hdr_struct_size(b: Seq<u8>) -> int {
    if hdr(b, 20) >= 17 {
        hdr(b, 36)
    } else {
        hdr(b, 4) - hdr(b, 8)
    }
}

/// Whether the block `[off, off + size)` lies between the header and the declared total size.
pub open spec fn block_fits(b: Seq<u8>, off: int, size: int) -> bool {
    FDT_HEADER_SIZE <= off && 0 <= size && off + size <= hdr(b, 4)
}

/// The result of validating the header of blob `b`, errors in the order they are checked.
pub open spec fn header_check(b: Seq<u8>) -> Result<(), Error> {
    if b.len() < 4 {
        Err(Error::Truncated)
    } else if be32(b, 0) != FDT_MAGIC {
        Err(Error::BadMagic)
    } else if b.len() < FDT_HEADER_SIZE {
        Err(Error::Truncated)
    } else if hdr(b, 20) < FDT_FIRST_SUPPORTED_VERSION || hdr(b, 24)
        > FDT_LAST_SUPPORTED_VERSION || hdr(b, 20) < hdr(b, 24) {
        Err(Error::BadVersion)
    } else if hdr(b, 4) < FDT_HEADER_SIZE || hdr(b, 4) > b.len() {
        Err(Error::Truncated)
    } else if hdr(b, 16) < FDT_HEADER_SIZE || hdr(b, 16) > hdr(b, 4) {
        Err(Error::Truncated)
    } else if !block_fits(b, hdr(b, 8), hdr_struct_size(b)) {
        Err(Error::Truncated)
    } else if !block_fits(b, hdr(b, 12), hdr(b, 32)) {
        Err(Error::Truncated)
    } else {
        Ok(())
    }
}

/// The mathematical content of an [`Fdt`]: the blob and where its blocks lie.
pub ghost struct FdtView {
    pub blob: Seq<u8>,
    pub struct_off: int,
    pub struct_size: int,
    pub strings_off: int,
    pub strings_size: int,
    /// Conventions matched on a property's whole name.
    pub links_simple: Seq<(Seq<u8>, Seq<u8>)>,
    /// Conventions matched on the end of a property's name, in the order they are tried.
    pub links_suffix: Seq<(Seq<u8>, Seq<u8>)>,
}

/// A handle on a token of the structure block: its byte offset from the block's start.
#[derive(Debug, Clone, Copy, PartialEq, Eq, Structural, PartialOrd, Ord, Hash)]
pub struct Offset(pub usize);

/// A node identifier that is neither 0 nor the reserved maximum.
#[derive(Debug, Clone, Copy)]
pub struct Phandle(u32);

impl Phandle {
    /// The phandle's value.
    pub closed spec fn spec_value(self) -> u32 {
        self.0
    }

    /// Whether `v` may be a phandle.
    pub open spec fn valid(v: u32) -> bool {
        v != 0 && v <= FDT_MAX_PHANDLE
    }

    /// Makes a phandle of `value`; fails with `BadPhandle` on 0 and on the reserved maximum.
    pub fn new(value: u32) -> (r: Result<Phandle, Error>)
        ensures
            Phandle::valid(value) <==> r is Ok,
            r matches Ok(p) ==> p.spec_value() == value,
            !Phandle::valid(value) ==> r == Err::<Phandle, Error>(Error::BadPhandle),
    {
        if value == 0 || value > FDT_MAX_PHANDLE {
            Err(Error::BadPhandle)
        } else {
            Ok(Phandle(value))
        }
    }

    /// The phandle's value.
    pub fn value(&self) -> (r: u32)
        ensures
            r == self.spec_value(),
    {
        self.0
    }
}

impl TryFrom<u32> for Phandle {
    type Error = Error;

    fn try_from(value: u32) -> Result<Phandle, Error> {
        Phandle::new(value)
    }
}

impl vstd::std_specs::convert::TryFromSpecImpl<u32> for Phandle {
    open spec fn obeys_try_from_spec() -> bool {
        true
    }

    closed spec fn try_from_spec(v: u32) -> Result<Phandle, Error> {
        if Phandle::valid(v) {
            Ok(Phandle(v))
        } else {
            Err(Error::BadPhandle)
        }
    }
}

/// What `Phandle::try_from` gives: the phandle of value `v` where `v` is
/// valid, and `BadPhandle` otherwise.
pub broadcast proof fn lemma_phandle_try_from(v: u32)
    ensures
        ({
            let r = #[trigger] <Phandle as vstd::std_specs::convert::TryFromSpec<
                u32,
            >>::try_from_spec(v);
            &&& Phandle::valid(v) <==> r is Ok
            &&& r matches Ok(p) ==> p.spec_value() == v
            &&& !Phandle::valid(v) ==> r == Err::<Phandle, Error>(Error::BadPhandle)
        }),
{
}

/// A device tree blob whose header has been validated.
#[derive(Debug)]
pub struct Fdt {
    blob: Vec<u8>,
    struct_off: usize,
    struct_size: usize,
    strings_off: usize,
    strings_size: usize,
    links_simple: Vec<PhandleLink>,
    links_suffix: Vec<PhandleLink>,
}

impl FdtView {
    /// The blocks lie inside the blob and the blob's header was accepted.
    pub open spec fn wf(self) -> bool {
        &&& header_check(self.blob) is Ok
        &&& self.struct_off == hdr(self.blob, 8)
        &&& self.struct_size == hdr_struct_size(self.blob)
        &&& self.strings_off == hdr(self.blob, 12)
        &&& self.strings_size == hdr(self.blob, 32)
    }

    /// The cell at offset `off` of the structure block.
    pub open spec fn cell(self, off: int) -> u32 {
        be32(self.blob, self.struct_off + off)
    }

    /// Decodes the token at `off`: its tag and the offset of the token after it.
    pub open spec fn next_tag(self, off: int) -> Result<(u32, int), Error> {
        if off < 0 || off % 4 != 0 || off >= self.struct_size {
            Err(Error::BadOffset)
        } else if off + 4 > self.struct_size {
            Err(Error::Truncated)
        } else {
            let tag = self.cell(off);
            if tag == FDT_BEGIN_NODE {
                match nul_index(
                    self.blob,
                    self.struct_off + off + 4,
                    self.struct_off + self.struct_size,
                ) {
                    None => Err(Error::Truncated),
                    Some(p) => {
                        let next = align4(p - self.struct_off + 1);
                        if next > self.struct_size {
                            Err(Error::Truncated)
                        } else {
                            Ok((tag, next))
                        }
                    },
                }
            } else if tag == FDT_PROP {
                if off + 12 > self.struct_size {
                    Err(Error::Truncated)
                } else {
                    let next = align4(off + 12 + self.cell(off + 4));
                    if next > self.struct_size {
                        Err(Error::Truncated)
                    } else {
                        Ok((tag, next))
                    }
                }
            } else if tag == FDT_END_NODE || tag == FDT_NOP || tag == FDT_END {
                Ok((tag, off + 4))
            } else {
                Err(Error::BadStructure)
            }
        }
    }

    /// The name of the node whose begin token is at `off`: the bytes up to its NUL.
    pub open spec fn node_name(self, off: int) -> Seq<u8> {
        match nul_index(self.blob, self.struct_off + off + 4, self.struct_off + self.struct_size) {
            Some(p) => self.blob.subrange(self.struct_off + off + 4, p),
            None => Seq::empty(),
        }
    }

    /// The byte length of the property whose token is at `p`.
    pub open spec fn prop_len(self, p: int) -> int {
        self.cell(p + 4) as int
    }

    /// The value of the property whose token is at `p`.
    pub open spec fn prop_data(self, p: int) -> Seq<u8> {
        self.blob.subrange(self.struct_off + p + 12, self.struct_off + p + 12 + self.prop_len(p))
    }

    /// The NUL-terminated string at `off` in the strings block, if it is one.
    pub open spec fn string_at(self, off: int) -> Option<Seq<u8>> {
        if off < 0 || off >= self.strings_size {
            None
        } else {
            match nul_index(
                self.blob,
                self.strings_off + off,
                self.strings_off + self.strings_size,
            ) {
                Some(q) => Some(self.blob.subrange(self.strings_off + off, q)),
                None => None,
            }
        }
    }

    /// The name of the property whose token is at `p`.
    pub open spec fn prop_name(self, p: int) -> Option<Seq<u8>> {
        self.string_at(self.cell(p + 8) as int)
    }

    /// Whether a node begins at `off`.
    pub open spec fn is_node(self, off: int) -> bool {
        self.next_tag(off) matches Ok((tag, _)) && tag == FDT_BEGIN_NODE
    }

    /// Whether a property token stands at `off`.
    pub open spec fn is_prop(self, off: int) -> bool {
        self.next_tag(off) matches Ok((tag, _)) && tag == FDT_PROP
    }

    /// From `off`, skips padding up to a property; a node boundary means there is none.
    pub open spec fn seek_prop(self, off: int) -> Result<int, Error>
        decreases self.struct_size - off,
        via Self::seek_prop_decreases
    {
        match self.next_tag(off) {
            Err(e) => Err(e),
            Ok((tag, next)) => if tag == FDT_PROP {
                Ok(off)
            } else if tag == FDT_NOP {
                self.seek_prop(next)
            } else if tag == FDT_END {
                Err(Error::BadStructure)
            } else {
                Err(Error::NotFound)
            },
        }
    }

    #[via_fn]
    proof fn seek_prop_decreases(self, off: int) {
        lemma_next_tag_advances(self, off);
    }

    /// From `off`, skips properties and padding up to a node; the end of the
    /// enclosing node means there is none.
    pub open spec fn seek_node(self, off: int) -> Result<int, Error>
        decreases self.struct_size - off,
        via Self::seek_node_decreases
    {
        match self.next_tag(off) {
            Err(e) => Err(e),
            Ok((tag, next)) => if tag == FDT_BEGIN_NODE {
                Ok(off)
            } else if tag == FDT_PROP || tag == FDT_NOP {
                self.seek_node(next)
            } else if tag == FDT_END_NODE {
                Err(Error::NotFound)
            } else {
                Err(Error::BadStructure)
            },
        }
    }

    #[via_fn]
    proof fn seek_node_decreases(self, off: int) {
        lemma_next_tag_advances(self, off);
    }

    /// From `off`, inside `depth` open nodes, the offset just past the end
    /// token that closes the outermost of them.
    pub open spec fn close_node(self, off: int, depth: nat) -> Result<int, Error>
        decreases self.struct_size - off,
        via Self::close_node_decreases
    {
        match self.next_tag(off) {
            Err(e) => Err(e),
            Ok((tag, next)) => if tag == FDT_BEGIN_NODE {
                self.close_node(next, depth + 1)
            } else if tag == FDT_END_NODE {
                if depth <= 1 {
                    Ok(next)
                } else {
                    self.close_node(next, (depth - 1) as nat)
                }
            } else if tag == FDT_PROP || tag == FDT_NOP {
                self.close_node(next, depth)
            } else {
                Err(Error::BadStructure)
            },
        }
    }

    #[via_fn]
    proof fn close_node_decreases(self, off: int, depth: nat) {
        lemma_next_tag_advances(self, off);
    }

    /// The first property of the node at `node`.
    pub open spec fn first_property(self, node: int) -> Result<int, Error> {
        match self.next_tag(node) {
            Err(e) => Err(e),
            Ok((tag, next)) => if tag == FDT_BEGIN_NODE {
                self.seek_prop(next)
            } else {
                Err(Error::BadOffset)
            },
        }
    }

    /// The property after the one at `prop`, in the same node.
    pub open spec fn next_property(self, prop: int) -> Result<int, Error> {
        match self.next_tag(prop) {
            Err(e) => Err(e),
            Ok((tag, next)) => if tag == FDT_PROP {
                self.seek_prop(next)
            } else {
                Err(Error::BadOffset)
            },
        }
    }

    /// The first child of the node at `node`.
    pub open spec fn first_subnode(self, node: int) -> Result<int, Error> {
        match self.next_tag(node) {
            Err(e) => Err(e),
            Ok((tag, next)) => if tag == FDT_BEGIN_NODE {
                self.seek_node(next)
            } else {
                Err(Error::BadOffset)
            },
        }
    }

    /// The sibling that follows the node at `node`, past all of its descendants.
    pub open spec fn next_subnode(self, node: int) -> Result<int, Error> {
        match self.next_tag(node) {
            Err(e) => Err(e),
            Ok((tag, next)) => if tag == FDT_BEGIN_NODE {
                match self.close_node(next, 1) {
                    Err(e) => Err(e),
                    Ok(after) => self.seek_node(after),
                }
            } else {
                Err(Error::BadOffset)
            },
        }
    }

    /// Among the properties from the one at `p` on, the first one named `name`.
    pub open spec fn find_prop(self, p: int, name: Seq<u8>) -> Result<int, Error>
        decreases self.struct_size - p,
        via Self::find_prop_decreases
    {
        if self.prop_name(p) == Some(name) {
            Ok(p)
        } else {
            match self.next_property(p) {
                Ok(q) => self.find_prop(q, name),
                Err(e) => Err(e),
            }
        }
    }

    #[via_fn]
    proof fn find_prop_decreases(self, p: int, name: Seq<u8>) {
        lemma_next_property_advances(self, p);
    }

    /// The offset of the property named `name` of the node at `node`.
    #[verifier::opaque]
    pub open spec fn get_property(self, node: int, name: Seq<u8>) -> Result<int, Error> {
        match self.first_property(node) {
            Ok(p) => self.find_prop(p, name),
            Err(e) => Err(e),
        }
    }

    /// The first cell of the property named `name` of the node at `node`,
    /// when that property is exactly one cell long.
    pub open spec fn one_cell_prop(self, node: int, name: Seq<u8>) -> Option<u32> {
        match self.get_property(node, name) {
            Ok(p) => if self.prop_len(p) == 4 {
                Some(self.cell(p + 12))
            } else {
                None
            },
            Err(_) => None,
        }
    }

    /// The phandle that the node at `node` declares, or 0 where it declares none.
    pub open spec fn phandle_value(self, node: int) -> u32 {
        match self.one_cell_prop(node, phandle_name()) {
            Some(v) => v,
            None => match self.one_cell_prop(node, linux_phandle_name()) {
                Some(v) => v,
                None => 0,
            },
        }
    }

    /// From the token at `off` on, the first node that declares phandle `ph`.
    pub open spec fn find_phandle(self, off: int, ph: u32) -> Result<int, Error>
        decreases self.struct_size - off,
        via Self::find_phandle_decreases
    {
        match self.next_tag(off) {
            Err(e) => Err(e),
            Ok((tag, next)) => if tag == FDT_END {
                Err(Error::NotFound)
            } else if tag == FDT_BEGIN_NODE && self.phandle_value(off) == ph {
                Ok(off)
            } else {
                self.find_phandle(next, ph)
            },
        }
    }

    #[via_fn]
    proof fn find_phandle_decreases(self, off: int, ph: u32) {
        lemma_next_tag_advances(self, off);
    }

    /// The first node, in structure-block order, that declares phandle `ph`.
    #[verifier::opaque]
    pub open spec fn node_by_phandle(self, ph: u32) -> Result<int, Error> {
        if !Phandle::valid(ph) {
            Err(Error::BadPhandle)
        } else {
            self.find_phandle(0, ph)
        }
    }
}

/// The name of the property that holds a node's phandle.
pub open spec fn phandle_name() -> Seq<u8> {
    seq![0x70u8, 0x68, 0x61, 0x6e, 0x64, 0x6c, 0x65]
}

/// The older name of the property that holds a node's phandle.
pub open spec fn linux_phandle_name() -> Seq<u8> {
    seq![0x6cu8, 0x69, 0x6e, 0x75, 0x78, 0x2c, 0x70, 0x68, 0x61, 0x6e, 0x64, 0x6c, 0x65]
}

/// Skipping padding never moves backwards.
pub proof fn lemma_seek_prop_forward(v: FdtView, off: int)
    ensures
        v.seek_prop(off) matches Ok(q) ==> off <= q && v.is_prop(q),
    decreases v.struct_size - off,
{
    lemma_next_tag_advances(v, off);
    if let Ok((tag, next)) = v.next_tag(off) {
        if tag == FDT_NOP {
            lemma_seek_prop_forward(v, next);
        }
    }
}

/// The next property lies after the current one.
pub proof fn lemma_next_property_advances(v: FdtView, p: int)
    ensures
        v.next_property(p) matches Ok(q) ==> p < q && v.is_prop(q),
{
    lemma_next_tag_advances(v, p);
    if let Ok((tag, next)) = v.next_tag(p) {
        lemma_seek_prop_forward(v, next);
    }
}

/// The first property of a node lies after the node's begin token.
pub proof fn lemma_first_property_advances(v: FdtView, n: int)
    ensures
        v.first_property(n) matches Ok(q) ==> n < q && v.is_prop(q),
{
    lemma_next_tag_advances(v, n);
    if let Ok((tag, next)) = v.next_tag(n) {
        lemma_seek_prop_forward(v, next);
    }
}

/// A property found by name is a property token.
pub proof fn lemma_find_prop_is_prop(v: FdtView, p: int, name: Seq<u8>)
    requires
        v.is_prop(p),
    ensures
        v.find_prop(p, name) matches Ok(q) ==> v.is_prop(q) && v.prop_name(q) == Some(name),
    decreases v.struct_size - p,
{
    lemma_next_property_advances(v, p);
    if v.prop_name(p) != Some(name) {
        if let Ok(q) = v.next_property(p) {
            lemma_find_prop_is_prop(v, q, name);
        }
    }
}

/// A property found by name on a node is a property token of that name.
pub proof fn lemma_get_property_is_prop(v: FdtView, node: int, name: Seq<u8>)
    ensures
        v.get_property(node, name) matches Ok(q) ==> v.is_prop(q) && v.prop_name(q) == Some(name),
{
    reveal(FdtView::get_property);
    lemma_first_property_advances(v, node);
    if let Ok(p) = v.first_property(node) {
        lemma_find_prop_is_prop(v, p, name);
    }
}

/// The value of a property is as long as its token says.
pub proof fn lemma_prop_data_len(v: FdtView, p: int)
    requires
        v.wf(),
        v.is_prop(p),
    ensures
        v.prop_data(p).len() == v.prop_len(p),
        v.prop_data(p).len() >= 4 ==> be32(v.prop_data(p), 0) == v.cell(p + 12),
{
    lemma_next_tag_advances(v, p);
    lemma_wf_bounds(v);
}

/// The blocks of a well-formed blob lie inside it, within 32-bit offsets.
pub proof fn lemma_wf_bounds(v: FdtView)
    requires
        v.wf(),
    ensures
        0 <= v.struct_off,
        0 <= v.struct_size,
        v.struct_off + v.struct_size <= v.blob.len(),
        0 <= v.strings_off,
        0 <= v.strings_size,
        v.strings_off + v.strings_size <= v.blob.len(),
        v.struct_off + v.struct_size <= u32::MAX,
        v.strings_off + v.strings_size <= u32::MAX,
{
}

/// Rounds `x` up to a multiple of four.
fn align_up4(x: u64) -> (r: u64)
    requires
        x <= 0x2_0000_0000,
    ensures
        r == align4(x as int),
{
    (x + 3) / 4 * 4
}

/// A decoded token always moves forward, and stays inside the structure block.
pub proof fn lemma_next_tag_advances(v: FdtView, off: int)
    ensures
        v.next_tag(off) matches Ok((tag, next)) ==> off + 4 <= next <= v.struct_size,
{
    if let Ok((tag, next)) = v.next_tag(off) {
        if tag == FDT_BEGIN_NODE {
            crate::format::lemma_nul_index(
                v.blob,
                v.struct_off + off + 4,
                v.struct_off + v.struct_size,
            );
        }
    }
}

impl Fdt {
    /// The blob and where its blocks lie.
    pub closed spec fn view(&self) -> FdtView {
        FdtView {
            blob: self.blob@,
            struct_off: self.struct_off as int,
            struct_size: self.struct_size as int,
            strings_off: self.strings_off as int,
            strings_size: self.strings_size as int,
            links_simple: links_view(self.links_simple@),
            links_suffix: links_view(self.links_suffix@),
        }
    }

    /// The header of the blob was accepted, and the blocks are where it says.
    pub open spec fn wf(&self) -> bool {
        self.view().wf()
    }

    /// Validates the header of `fdt` and takes the blob over; the bytes are not copied.
    pub fn new(fdt: Box<[u8]>) -> (r: Result<Fdt, Error>)
        ensures
            header_check(fdt@) is Ok <==> r is Ok,
            r matches Ok(f) ==> f.wf() && f.view().blob == fdt@ && f.view().links_simple
                == links_view(linux_simple_table()) && f.view().links_suffix == links_view(
                linux_suffix_table(),
            ),
            r matches Err(e) ==> header_check(fdt@) == Err::<(), Error>(e),
    {
        let blob = fdt.into_vec();
        match Self::check_header(blob.as_slice()) {
            Err(e) => Err(e),
            Ok(()) => {
                let b = blob.as_slice();
                let version = read_be32(b, 20);
                let total = read_be32(b, 4) as usize;
                let struct_off = read_be32(b, 8) as usize;
                let struct_size = if version >= 17 {
                    read_be32(b, 36) as usize
                } else {
                    total - struct_off
                };
                let strings_off = read_be32(b, 12) as usize;
                let strings_size = read_be32(b, 32) as usize;
                let links_simple = linux_phandle_properties_simple_list();
                let links_suffix = linux_phandle_properties_suffix_list();
                Ok(Fdt {
                    blob,
                    struct_off,
                    struct_size,
                    strings_off,
                    strings_size,
                    links_simple,
                    links_suffix,
                })
            },
        }
    }

    /// Decodes the token at `off`: its tag and the offset of the token after it.
    pub fn next_tag(&self, off: usize) -> (r: Result<(u32, usize), Error>)
        requires
            self.wf(),
        ensures
            r matches Ok((tag, next)) ==> self.view().next_tag(off as int) == Ok::<
                (u32, int),
                Error,
            >((tag, next as int)),
            r matches Err(e) ==> self.view().next_tag(off as int) == Err::<(u32, int), Error>(e),
    {
        proof {
            lemma_wf_bounds(self.view());
        }
        if off % 4 != 0 || off >= self.struct_size {
            return Err(Error::BadOffset);
        }
        if self.struct_size - off < 4 {
            return Err(Error::Truncated);
        }
        let b = self.blob.as_slice();
        let base = self.struct_off;
        let tag = read_be32(b, base + off);
        if tag == FDT_BEGIN_NODE {
            match find_nul(b, base + off + 4, base + self.struct_size) {
                None => Err(Error::Truncated),
                Some(p) => {
                    proof {
                        crate::format::lemma_nul_index(
                            b@,
                            (base + off + 4) as int,
                            (base + self.struct_size) as int,
                        );
                    }
                    let next = align_up4((p - base + 1) as u64);
                    if next > self.struct_size as u64 {
                        Err(Error::Truncated)
                    } else {
                        Ok((tag, next as usize))
                    }
                },
            }
        } else if tag == FDT_PROP {
            if self.struct_size - off < 12 {
                return Err(Error::Truncated);
            }
            let len = read_be32(b, base + off + 4) as u64;
            let next = align_up4(off as u64 + 12 + len);
            if next > self.struct_size as u64 {
                Err(Error::Truncated)
            } else {
                Ok((tag, next as usize))
            }
        } else if tag == FDT_END_NODE || tag == FDT_NOP || tag == FDT_END {
            Ok((tag, off + 4))
        } else {
            Err(Error::BadStructure)
        }
    }

    fn seek_prop(&self, off: usize) -> (r: Result<usize, Error>)
        requires
            self.wf(),
        ensures
            r matches Ok(o) ==> self.view().seek_prop(off as int) == Ok::<int, Error>(o as int),
            r matches Err(e) ==> self.view().seek_prop(off as int) == Err::<int, Error>(e),
    {
        let mut cur = off;
        loop
            invariant
                self.wf(),
                self.view().seek_prop(off as int) == self.view().seek_prop(cur as int),
            decreases self.struct_size - cur,
        {
            proof {
                lemma_next_tag_advances(self.view(), cur as int);
            }
            match self.next_tag(cur) {
                Err(e) => return Err(e),
                Ok((tag, next)) => {
                    if tag == FDT_PROP {
                        return Ok(cur);
                    } else if tag == FDT_NOP {
                        cur = next;
                    } else if tag == FDT_END {
                        return Err(Error::BadStructure);
                    } else {
                        return Err(Error::NotFound);
                    }
                },
            }
        }
    }

    fn seek_node(&self, off: usize) -> (r: Result<usize, Error>)
        requires
            self.wf(),
        ensures
            r matches Ok(o) ==> self.view().seek_node(off as int) == Ok::<int, Error>(o as int),
            r matches Err(e) ==> self.view().seek_node(off as int) == Err::<int, Error>(e),
    {
        let mut cur = off;
        loop
            invariant
                self.wf(),
                self.view().seek_node(off as int) == self.view().seek_node(cur as int),
            decreases self.struct_size - cur,
        {
            proof {
                lemma_next_tag_advances(self.view(), cur as int);
            }
            match self.next_tag(cur) {
                Err(e) => return Err(e),
                Ok((tag, next)) => {
                    if tag == FDT_BEGIN_NODE {
                        return Ok(cur);
                    } else if tag == FDT_PROP || tag == FDT_NOP {
                        cur = next;
                    } else if tag == FDT_END_NODE {
                        return Err(Error::NotFound);
                    } else {
                        return Err(Error::BadStructure);
                    }
                },
            }
        }
    }

    fn close_node(&self, off: usize) -> (r: Result<usize, Error>)
        requires
            self.wf(),
        ensures
            r matches Ok(o) ==> self.view().close_node(off as int, 1) == Ok::<int, Error>(o as int),
            r matches Err(e) ==> self.view().close_node(off as int, 1) == Err::<int, Error>(e),
    {
        let mut cur = off;
        let mut depth: usize = 1;
        loop
            invariant
                self.wf(),
                1 <= depth <= cur + 1,
                self.view().close_node(off as int, 1) == self.view().close_node(
                    cur as int,
                    depth as nat,
                ),
            decreases self.struct_size - cur,
        {
            proof {
                lemma_next_tag_advances(self.view(), cur as int);
            }
            match self.next_tag(cur) {
                Err(e) => return Err(e),
                Ok((tag, next)) => {
                    if tag == FDT_BEGIN_NODE {
                        cur = next;
                        depth = depth + 1;
                    } else if tag == FDT_END_NODE {
                        if depth <= 1 {
                            return Ok(next);
                        }
                        cur = next;
                        depth = depth - 1;
                    } else if tag == FDT_PROP || tag == FDT_NOP {
                        cur = next;
                    } else {
                        return Err(Error::BadStructure);
                    }
                },
            }
        }
    }

    /// The offset of the first property of the node at `nodeoffset`.
    pub fn first_property_offset(&self, nodeoffset: Offset) -> (r: Result<Offset, Error>)
        requires
            self.wf(),
        ensures
            r matches Ok(o) ==> self.view().first_property(nodeoffset.0 as int) == Ok::<
                int,
                Error,
            >(o.0 as int),
            r matches Err(e) ==> self.view().first_property(nodeoffset.0 as int) == Err::<
                int,
                Error,
            >(e),
    {
        match self.next_tag(nodeoffset.0) {
            Err(e) => Err(e),
            Ok((tag, next)) => {
                if tag != FDT_BEGIN_NODE {
                    return Err(Error::BadOffset);
                }
                match self.seek_prop(next) {
                    Ok(o) => Ok(Offset(o)),
                    Err(e) => Err(e),
                }
            },
        }
    }

    /// The offset of the property after the one at `offset`, in the same node.
    pub fn next_property_offset(&self, offset: Offset) -> (r: Result<Offset, Error>)
        requires
            self.wf(),
        ensures
            r matches Ok(o) ==> self.view().next_property(offset.0 as int) == Ok::<int, Error>(
                o.0 as int,
            ),
            r matches Err(e) ==> self.view().next_property(offset.0 as int) == Err::<int, Error>(
                e,
            ),
    {
        match self.next_tag(offset.0) {
            Err(e) => Err(e),
            Ok((tag, next)) => {
                if tag != FDT_PROP {
                    return Err(Error::BadOffset);
                }
                match self.seek_prop(next) {
                    Ok(o) => Ok(Offset(o)),
                    Err(e) => Err(e),
                }
            },
        }
    }

    /// The offset of the first child of the node at `offset`.
    pub fn first_subnode_offset(&self, offset: Offset) -> (r: Result<Offset, Error>)
        requires
            self.wf(),
        ensures
            r matches Ok(o) ==> self.view().first_subnode(offset.0 as int) == Ok::<int, Error>(
                o.0 as int,
            ),
            r matches Err(e) ==> self.view().first_subnode(offset.0 as int) == Err::<int, Error>(
                e,
            ),
    {
        match self.next_tag(offset.0) {
            Err(e) => Err(e),
            Ok((tag, next)) => {
                if tag != FDT_BEGIN_NODE {
                    return Err(Error::BadOffset);
                }
                match self.seek_node(next) {
                    Ok(o) => Ok(Offset(o)),
                    Err(e) => Err(e),
                }
            },
        }
    }

    /// The offset of the sibling that follows the node at `offset`.
    pub fn next_subnode_offset(&self, offset: Offset) -> (r: Result<Offset, Error>)
        requires
            self.wf(),
        ensures
            r matches Ok(o) ==> self.view().next_subnode(offset.0 as int) == Ok::<int, Error>(
                o.0 as int,
            ),
            r matches Err(e) ==> self.view().next_subnode(offset.0 as int) == Err::<int, Error>(
                e,
            ),
    {
        match self.next_tag(offset.0) {
            Err(e) => Err(e),
            Ok((tag, next)) => {
                if tag != FDT_BEGIN_NODE {
                    return Err(Error::BadOffset);
                }
                match self.close_node(next) {
                    Err(e) => Err(e),
                    Ok(after) => match self.seek_node(after) {
                        Ok(o) => Ok(Offset(o)),
                        Err(e) => Err(e),
                    },
                }
            },
        }
    }

    /// Whether the property at `p` is named `name`.
    fn prop_name_is(&self, p: usize, name: &[u8]) -> (r: bool)
        requires
            self.wf(),
            self.view().is_prop(p as int),
        ensures
            r == (self.view().prop_name(p as int) == Some(name@)),
    {
        proof {
            lemma_wf_bounds(self.view());
        }
        let b = self.blob.as_slice();
        let nameoff = read_be32(b, self.struct_off + p + 8) as usize;
        if nameoff >= self.strings_size {
            return false;
        }
        match find_nul(b, self.strings_off + nameoff, self.strings_off + self.strings_size) {
            None => false,
            Some(q) => {
                proof {
                    crate::format::lemma_nul_index(
                        b@,
                        (self.strings_off + nameoff) as int,
                        (self.strings_off + self.strings_size) as int,
                    );
                }
                range_eq(b, self.strings_off + nameoff, q, name)
            },
        }
    }

    /// The offset of the property named `name` of the node at `node`.
    pub(crate) fn property_offset(&self, node: usize, name: &[u8]) -> (r: Result<usize, Error>)
        requires
            self.wf(),
        ensures
            r matches Ok(o) ==> self.view().get_property(node as int, name@) == Ok::<int, Error>(
                o as int,
            ),
            r matches Err(e) ==> self.view().get_property(node as int, name@) == Err::<int, Error>(
                e,
            ),
    {
        proof {
            lemma_first_property_advances(self.view(), node as int);
            reveal(FdtView::get_property);
        }
        let mut cur = match self.first_property_offset(Offset(node)) {
            Ok(o) => o.0,
            Err(e) => return Err(e),
        };
        loop
            invariant
                self.wf(),
                self.view().is_prop(cur as int),
                self.view().get_property(node as int, name@) == self.view().find_prop(
                    cur as int,
                    name@,
                ),
            decreases self.struct_size - cur,
        {
            if self.prop_name_is(cur, name) {
                return Ok(cur);
            }
            proof {
                lemma_next_property_advances(self.view(), cur as int);
                lemma_next_tag_advances(self.view(), cur as int);
            }
            match self.next_property_offset(Offset(cur)) {
                Ok(o) => cur = o.0,
                Err(e) => return Err(e),
            }
        }
    }

    /// The first cell of the property named `name` of the node at `node`,
    /// when that property is one cell long.
    fn one_cell_prop(&self, node: usize, name: &[u8]) -> (r: Option<u32>)
        requires
            self.wf(),
        ensures
            r == self.view().one_cell_prop(node as int, name@),
    {
        match self.property_offset(node, name) {
            Err(_) => None,
            Ok(p) => {
                proof {
                    lemma_get_property_is_prop(self.view(), node as int, name@);
                    lemma_next_tag_advances(self.view(), p as int);
                    lemma_wf_bounds(self.view());
                }
                let b = self.blob.as_slice();
                if read_be32(b, self.struct_off + p + 4) == 4 {
                    Some(read_be32(b, self.struct_off + p + 12))
                } else {
                    None
                }
            },
        }
    }

    /// The phandle that the node at `node` declares, or 0.
    pub(crate) fn phandle_value(&self, node: usize) -> (r: u32)
        requires
            self.wf(),
        ensures
            r == self.view().phandle_value(node as int),
    {
        let name: Vec<u8> = vec![0x70u8, 0x68, 0x61, 0x6e, 0x64, 0x6c, 0x65];
        assert(name@ =~= phandle_name());
        match self.one_cell_prop(node, name.as_slice()) {
            Some(v) => v,
            None => {
                let old_name: Vec<u8> = vec![
                    0x6cu8,
                    0x69,
                    0x6e,
                    0x75,
                    0x78,
                    0x2c,
                    0x70,
                    0x68,
                    0x61,
                    0x6e,
                    0x64,
                    0x6c,
                    0x65,
                ];
                assert(old_name@ =~= linux_phandle_name());
                match self.one_cell_prop(node, old_name.as_slice()) {
                    Some(v) => v,
                    None => 0,
                }
            },
        }
    }

    /// The offset of the first node that declares phandle `ph`.
    pub(crate) fn node_offset_by_phandle(&self, ph: u32) -> (r: Result<Offset, Error>)
        requires
            self.wf(),
        ensures
            r matches Ok(o) ==> self.view().node_by_phandle(ph) == Ok::<int, Error>(o.0 as int),
            r matches Err(e) ==> self.view().node_by_phandle(ph) == Err::<int, Error>(e),
    {
        proof {
            reveal(FdtView::node_by_phandle);
        }
        if ph == 0 || ph > FDT_MAX_PHANDLE {
            return Err(Error::BadPhandle);
        }
        let mut cur: usize = 0;
        loop
            invariant
                self.wf(),
                Phandle::valid(ph),
                self.view().node_by_phandle(ph) == self.view().find_phandle(cur as int, ph),
            decreases self.struct_size - cur,
        {
            proof {
                lemma_next_tag_advances(self.view(), cur as int);
            }
            match self.next_tag(cur) {
                Err(e) => return Err(e),
                Ok((tag, next)) => {
                    if tag == FDT_END {
                        return Err(Error::NotFound);
                    }
                    if tag == FDT_BEGIN_NODE && self.phandle_value(cur) == ph {
                        return Ok(Offset(cur));
                    }
                    cur = next;
                },
            }
        }
    }

    /// The conventions matched on a property's whole name.
    pub fn links_simple(&self) -> (r: &Vec<PhandleLink>)
        ensures
            links_view(r@) == self.view().links_simple,
    {
        &self.links_simple
    }

    /// The conventions matched on the end of a property's name.
    pub fn links_suffix(&self) -> (r: &Vec<PhandleLink>)
        ensures
            links_view(r@) == self.view().links_suffix,
    {
        &self.links_suffix
    }

    /// The whole blob.
    pub fn bytes(&self) -> (r: &[u8])
        ensures
            r@ == self.view().blob,
    {
        self.blob.as_slice()
    }

    /// Where, in the blob, the name of the node at `node` lies.
    pub(crate) fn node_name_range(&self, node: usize) -> (r: (usize, usize))
        requires
            self.wf(),
            self.view().is_node(node as int),
        ensures
            r.0 <= r.1 <= self.view().blob.len(),
            self.view().blob.subrange(r.0 as int, r.1 as int) == self.view().node_name(node as int),
    {
        proof {
            lemma_wf_bounds(self.view());
        }
        let b = self.blob.as_slice();
        let start = self.struct_off + node + 4;
        let end = find_nul(b, start, self.struct_off + self.struct_size);
        proof {
            crate::format::lemma_nul_index(
                b@,
                start as int,
                (self.struct_off + self.struct_size) as int,
            );
        }
        match end {
            Some(e) => (start, e),
            None => (start, start),
        }
    }

    /// Where, in the blob, the value of the property at `p` lies.
    pub(crate) fn prop_data_range(&self, p: usize) -> (r: (usize, usize))
        requires
            self.wf(),
            self.view().is_prop(p as int),
        ensures
            r.0 <= r.1 <= self.view().blob.len(),
            self.view().blob.subrange(r.0 as int, r.1 as int) == self.view().prop_data(p as int),
    {
        proof {
            lemma_wf_bounds(self.view());
        }
        let b = self.blob.as_slice();
        let start = self.struct_off + p + 12;
        let len = read_be32(b, self.struct_off + p + 4) as usize;
        (start, start + len)
    }

    /// Where, in the blob, the name of the property at `p` lies, if it has a valid one.
    pub(crate) fn prop_name_range(&self, p: usize) -> (r: Option<(usize, usize)>)
        requires
            self.wf(),
            self.view().is_prop(p as int),
        ensures
            r is Some <==> self.view().prop_name(p as int) is Some,
            r matches Some((a, e)) ==> a <= e <= self.view().blob.len() && self.view().prop_name(
                p as int,
            ) == Some(self.view().blob.subrange(a as int, e as int)),
    {
        proof {
            lemma_wf_bounds(self.view());
        }
        let b = self.blob.as_slice();
        let nameoff = read_be32(b, self.struct_off + p + 8) as usize;
        if nameoff >= self.strings_size {
            return None;
        }
        let start = self.strings_off + nameoff;
        let end = find_nul(b, start, self.strings_off + self.strings_size);
        proof {
            crate::format::lemma_nul_index(
                b@,
                start as int,
                (self.strings_off + self.strings_size) as int,
            );
        }
        match end {
            Some(e) => Some((start, e)),
            None => None,
        }
    }

    fn check_header(b: &[u8]) -> (r: Result<(), Error>)
        ensures
            r == header_check(b@),
    {
        if b.len() < 4 {
            return Err(Error::Truncated);
        }
        if read_be32(b, 0) != FDT_MAGIC {
            return Err(Error::BadMagic);
        }
        if b.len() < FDT_HEADER_SIZE {
            return Err(Error::Truncated);
        }
        let version = read_be32(b, 20);
        let last_comp = read_be32(b, 24);
        if version < FDT_FIRST_SUPPORTED_VERSION || last_comp > FDT_LAST_SUPPORTED_VERSION
            || version < last_comp {
            return Err(Error::BadVersion);
        }
        let total = read_be32(b, 4) as u64;
        if total < FDT_HEADER_SIZE as u64 || total > b.len() as u64 {
            return Err(Error::Truncated);
        }
        let rsv = read_be32(b, 16) as u64;
        if rsv < FDT_HEADER_SIZE as u64 || rsv > total {
            return Err(Error::Truncated);
        }
        let struct_off = read_be32(b, 8) as u64;
        let struct_size: u64 = if version >= 17 {
            read_be32(b, 36) as u64
        } else if struct_off <= total {
            total - struct_off
        } else {
            return Err(Error::Truncated);
        };
        if struct_off < FDT_HEADER_SIZE as u64 || struct_off + struct_size > total {
            return Err(Error::Truncated);
        }
        let strings_off = read_be32(b, 12) as u64;
        let strings_size = read_be32(b, 32) as u64;
        if strings_off < FDT_HEADER_SIZE as u64 || strings_off + strings_size > total {
            return Err(Error::Truncated);
        }
        Ok(())
    }
}

} // verus!
