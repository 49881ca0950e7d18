//! Absolute slash-separated paths: resolving them to nodes, and rebuilding
//! them from a node's offset.
use vstd::prelude::*;
use vstd::string::StringSliceAdditionalSpecFns;

use crate::error::Error;
use crate::fdt::{lemma_next_tag_advances, Fdt, FdtView, Offset};
use crate::format::{range_eq, FDT_BEGIN_NODE, FDT_END, FDT_END_NODE};

verus! {

/// The path separator.
pub const SLASH: u8 = 0x2f;

/// The separator between a node's base name and its unit address.
pub const AT: u8 = 0x40;

/// Largest buffer, NUL terminator included, that a rebuilt path may fill.
pub const MAX_PATH_LEN: usize = 2048;

/// Whether a node named `name` answers to the path component `seg`: the
/// names are equal, or `seg` has no unit address and `name` is `seg`
/// followed by one.
pub open spec fn name_matches(name: Seq<u8>, seg: Seq<u8>) -> bool {
    name == seg || (!seg.contains(AT) && name.len() > seg.len() && name.subrange(0, seg.len() as int)
        == seg && name[seg.len() as int] == AT)
}

/// The position of the first separator of `path` from `i` on, or its length.
pub open spec fn slash_from(path: Seq<u8>, i: int) -> int
    decreases path.len() - i,
{
    if i >= path.len() {
        path.len() as int
    } else if path[i] == SLASH {
        i
    } else {
        slash_from(path, i + 1)
    }
}

/// The separator found by `slash_from` lies between `i` and the end of `path`,
/// with none before it.
pub proof fn lemma_slash_from(path: Seq<u8>, i: int)
    requires
        0 <= i,
    ensures
        i <= path.len() ==> i <= slash_from(path, i) <= path.len(),
        forall|k: int| i <= k < slash_from(path, i) ==> path[k] != SLASH,
        slash_from(path, i) < path.len() ==> path[slash_from(path, i)] == SLASH,
    decreases path.len() - i,
{
    if i < path.len() && path[i] != SLASH {
        lemma_slash_from(path, i + 1);
    }
}

/// `names` written one after the other, each followed by a separator.
pub open spec fn joined(names: Seq<Seq<u8>>) -> Seq<u8>
    decreases names.len(),
{
    if names.len() == 0 {
        Seq::empty()
    } else {
        joined(names.drop_last()) + names.last() + seq![SLASH]
    }
}

/// The path of a node whose ancestors, from the root down to the node itself,
/// have the names `names`: their joined names without the last separator,
/// which is kept only when it is the whole path.
pub open spec fn path_of_names(names: Seq<Seq<u8>>) -> Seq<u8> {
    let s = joined(names);
    if s.len() > 1 {
        s.drop_last()
    } else {
        s
    }
}

/// The joined names of a prefix of `names` are a prefix of theirs.
pub proof fn lemma_joined_prefix(names: Seq<Seq<u8>>, k: int)
    requires
        0 <= k <= names.len(),
    ensures
        joined(names.subrange(0, k)).len() <= joined(names).len(),
        joined(names) == joined(names.subrange(0, k)) + joined(names).subrange(
            joined(names.subrange(0, k)).len() as int,
            joined(names).len() as int,
        ),
    decreases names.len(),
{
    if k < names.len() {
        assert(names.drop_last().subrange(0, k) =~= names.subrange(0, k));
        lemma_joined_prefix(names.drop_last(), k);
    } else {
        assert(names.subrange(0, k) =~= names);
    }
    assert(joined(names) =~= joined(names.subrange(0, k)) + joined(names).subrange(
        joined(names.subrange(0, k)).len() as int,
        joined(names).len() as int,
    ));
}

impl FdtView {
    /// Among the node at `c` and the siblings after it, the first that answers to `seg`.
    pub open spec fn find_child_from(self, c: int, seg: Seq<u8>) -> Result<int, Error>
        decreases self.struct_size - c,
        via Self::find_child_from_decreases
    {
        if name_matches(self.node_name(c), seg) {
            Ok(c)
        } else {
            match self.next_subnode(c) {
                Ok(d) => self.find_child_from(d, seg),
                Err(e) => Err(e),
            }
        }
    }

    #[via_fn]
    proof fn find_child_from_decreases(self, c: int, seg: Seq<u8>) {
        lemma_next_subnode_advances(self, c);
    }

    /// The first child of the node at `parent` that answers to `seg`.
    #[verifier::opaque]
    pub open spec fn subnode_by_name(self, parent: int, seg: Seq<u8>) -> Result<int, Error> {
        match self.first_subnode(parent) {
            Ok(c) => self.find_child_from(c, seg),
            Err(e) => Err(e),
        }
    }

    /// Resolves the components of `path` from position `i` on, starting at the node at `node`.
    pub open spec fn resolve_path(self, node: int, path: Seq<u8>, i: int) -> Result<int, Error>
        decreases path.len() - i,
        via Self::resolve_path_decreases
    {
        if i < 0 || i >= path.len() {
            Ok(node)
        } else if path[i] == SLASH {
            self.resolve_path(node, path, i + 1)
        } else {
            let j = slash_from(path, i);
            match self.subnode_by_name(node, path.subrange(i, j)) {
                Ok(c) => self.resolve_path(c, path, j),
                Err(e) => Err(e),
            }
        }
    }

    #[via_fn]
    proof fn resolve_path_decreases(self, node: int, path: Seq<u8>, i: int) {
        if 0 <= i < path.len() && path[i] != SLASH {
            lemma_slash_from(path, i + 1);
        }
    }

    /// The offset of the node at the absolute path `path`.
    pub open spec fn path_offset(self, path: Seq<u8>) -> Result<int, Error> {
        if path.len() == 0 || path[0] != SLASH {
            Err(Error::BadPath)
        } else {
            self.resolve_path(0, path, 0)
        }
    }

    /// Walks the tokens from `off` on, with the names of the open nodes in
    /// `names`, up to the node at `target`; gives the names of its ancestors
    /// and of itself.
    pub open spec fn path_walk(self, off: int, target: int, names: Seq<Seq<u8>>) -> Result<
        Seq<Seq<u8>>,
        Error,
    >
        decreases self.struct_size - off,
        via Self::path_walk_decreases
    {
        if off > target {
            Err(Error::BadOffset)
        } else {
            match self.next_tag(off) {
                Err(e) => Err(e),
                Ok((tag, next)) => if tag == FDT_BEGIN_NODE {
                    if off == target {
                        Ok(names.push(self.node_name(off)))
                    } else {
                        self.path_walk(next, target, names.push(self.node_name(off)))
                    }
                } else if off == target || tag == FDT_END {
                    Err(Error::BadOffset)
                } else if tag == FDT_END_NODE {
                    if names.len() == 0 {
                        Err(Error::BadStructure)
                    } else {
                        self.path_walk(next, target, names.drop_last())
                    }
                } else {
                    self.path_walk(next, target, names)
                },
            }
        }
    }

    #[via_fn]
    proof fn path_walk_decreases(self, off: int, target: int, names: Seq<Seq<u8>>) {
        lemma_next_tag_advances(self, off);
    }

    /// The absolute path of the node at `node`.
    pub open spec fn node_path(self, node: int) -> Result<Seq<u8>, Error> {
        match self.path_walk(0, node, Seq::empty()) {
            Err(e) => Err(e),
            Ok(names) => if joined(names).len() > MAX_PATH_LEN {
                Err(Error::NoSpace)
            } else {
                Ok(path_of_names(names))
            },
        }
    }
}

/// Resolving from a component goes to the child it names, then on from the next separator.
proof fn lemma_resolve_segment(v: FdtView, node: int, path: Seq<u8>, i: int)
    requires
        0 <= i < path.len(),
        path[i] != SLASH,
    ensures
        v.resolve_path(node, path, i) == (match v.subnode_by_name(
            node,
            path.subrange(i, slash_from(path, i)),
        ) {
            Ok(c) => v.resolve_path(c, path, slash_from(path, i)),
            Err(e) => Err(e),
        }),
{
}

/// Skipping to the next node never moves backwards.
pub proof fn lemma_seek_node_forward(v: FdtView, off: int)
    ensures
        v.seek_node(off) matches Ok(q) ==> off <= q && v.is_node(q),
    decreases v.struct_size - off,
{
    lemma_next_tag_advances(v, off);
    if let Ok((tag, next)) = v.next_tag(off) {
        if tag != FDT_BEGIN_NODE {
            lemma_seek_node_forward(v, next);
        }
    }
}

/// The end of a node lies after its start.
pub proof fn lemma_close_node_forward(v: FdtView, off: int, depth: nat)
    ensures
        v.close_node(off, depth) matches Ok(q) ==> off < q,
    decreases v.struct_size - off,
{
    lemma_next_tag_advances(v, off);
    if let Ok((tag, next)) = v.next_tag(off) {
        if tag == FDT_BEGIN_NODE {
            lemma_close_node_forward(v, next, depth + 1);
        } else if tag == FDT_END_NODE {
            if depth > 1 {
                lemma_close_node_forward(v, next, (depth - 1) as nat);
            }
        } else {
            lemma_close_node_forward(v, next, depth);
        }
    }
}

/// The next sibling of a node is a node that lies after it.
pub proof fn lemma_next_subnode_advances(v: FdtView, c: int)
    ensures
        v.next_subnode(c) matches Ok(d) ==> c < d && v.is_node(d),
{
    lemma_next_tag_advances(v, c);
    if let Ok((tag, next)) = v.next_tag(c) {
        lemma_close_node_forward(v, next, 1);
        if let Ok(after) = v.close_node(next, 1) {
            lemma_seek_node_forward(v, after);
        }
    }
}

/// The first child of a node is a node that lies after it.
pub proof fn lemma_first_subnode_advances(v: FdtView, n: int)
    ensures
        v.first_subnode(n) matches Ok(c) ==> n < c && v.is_node(c),
{
    lemma_next_tag_advances(v, n);
    if let Ok((tag, next)) = v.next_tag(n) {
        lemma_seek_node_forward(v, next);
    }
}


/// The names that the blob ranges of `st` hold.
pub open spec fn names_of(blob: Seq<u8>, st: Seq<(usize, usize)>) -> Seq<Seq<u8>> {
    st.map_values(|r: (usize, usize)| blob.subrange(r.0 as int, r.1 as int))
}

/// The position of the first separator of `path` from `i` on, or its length.
fn find_slash(path: &[u8], i: usize) -> (r: usize)
    requires
        i <= path@.len(),
    ensures
        r == slash_from(path@, i as int),
{
    let mut k = i;
    while k < path.len()
        invariant
            i <= k <= path@.len(),
            slash_from(path@, i as int) == slash_from(path@, k as int),
        decreases path@.len() - k,
    {
        if path[k] == SLASH {
            return k;
        }
        k = k + 1;
    }
    k
}

/// Whether the node name held by `b` in `[a, e)` answers to the path component `seg`.
fn name_matches_at(b: &[u8], a: usize, e: usize, seg: &[u8]) -> (r: bool)
    requires
        a <= e <= b@.len(),
    ensures
        r == name_matches(b@.subrange(a as int, e as int), seg@),
{
    let ghost name = b@.subrange(a as int, e as int);
    if range_eq(b, a, e, seg) {
        return true;
    }
    let mut i: usize = 0;
    while i < seg.len()
        invariant
            a <= e <= b@.len(),
            name == b@.subrange(a as int, e as int),
            name != seg@,
            0 <= i <= seg@.len(),
            forall|k: int| 0 <= k < i ==> seg@[k] != AT,
        decreases seg@.len() - i,
    {
        if seg[i] == AT {
            assert(seg@.contains(AT));
            return false;
        }
        i = i + 1;
    }
    assert(!seg@.contains(AT));
    if e - a <= seg.len() {
        return false;
    }
    if b[a + seg.len()] != AT {
        return false;
    }
    assert(name.subrange(0, seg@.len() as int) =~= b@.subrange(
        a as int,
        (a + seg@.len()) as int,
    ));
    range_eq(b, a, a + seg.len(), seg)
}

/// Appends the bytes of `b` in `[a, e)` to `buf`.
fn push_range(buf: &mut Vec<u8>, b: &[u8], a: usize, e: usize)
    requires
        a <= e <= b@.len(),
    ensures
        final(buf)@ == old(buf)@ + b@.subrange(a as int, e as int),
{
    let mut t = a;
    while t < e
        invariant
            a <= t <= e <= b@.len(),
            buf@ == old(buf)@ + b@.subrange(a as int, t as int),
        decreases e - t,
    {
        buf.push(b[t]);
        assert(b@.subrange(a as int, t + 1) =~= b@.subrange(a as int, t as int).push(b@[t as int]));
        t = t + 1;
    }
}

impl Fdt {
    /// The offset of the first child of the node at `parent` that answers to `seg`.
    fn subnode_offset(&self, parent: usize, seg: &[u8]) -> (r: Result<usize, Error>)
        requires
            self.wf(),
        ensures
            r matches Ok(o) ==> self.view().subnode_by_name(parent as int, seg@) == Ok::<
                int,
                Error,
            >(o as int),
            r matches Err(e) ==> self.view().subnode_by_name(parent as int, seg@) == Err::<
                int,
                Error,
            >(e),
    {
        proof {
            lemma_first_subnode_advances(self.view(), parent as int);
            reveal(FdtView::subnode_by_name);
        }
        let mut c = match self.first_subnode_offset(Offset(parent)) {
            Ok(o) => o.0,
            Err(e) => return Err(e),
        };
        loop
            invariant
                self.wf(),
                self.view().is_node(c as int),
                self.view().subnode_by_name(parent as int, seg@) == self.view().find_child_from(
                    c as int,
                    seg@,
                ),
            decreases self.view().struct_size - c,
        {
            let (a, e) = self.node_name_range(c);
            if name_matches_at(self.bytes(), a, e, seg) {
                return Ok(c);
            }
            proof {
                lemma_next_subnode_advances(self.view(), c as int);
                lemma_next_tag_advances(self.view(), c as int);
            }
            match self.next_subnode_offset(Offset(c)) {
                Ok(d) => c = d.0,
                Err(e) => return Err(e),
            }
        }
    }

    /// Get the offset of a node, given its absolute path.
    pub fn path_offset(&self, path: &str) -> (r: Result<Offset, Error>)
        requires
            self.wf(),
        ensures
            r matches Ok(o) ==> self.view().path_offset(path.spec_bytes()) == Ok::<int, Error>(
                o.0 as int,
            ),
            r matches Err(e) ==> self.view().path_offset(path.spec_bytes()) == Err::<int, Error>(
                e,
            ),
    {
        self.path_offset_bytes(path.as_bytes())
    }

    /// The offset of the node at the absolute path `p`.
    pub(crate) fn path_offset_bytes(&self, p: &[u8]) -> (r: Result<Offset, Error>)
        requires
            self.wf(),
        ensures
            r matches Ok(o) ==> self.view().path_offset(p@) == Ok::<int, Error>(
                o.0 as int,
            ),
            r matches Err(e) ==> self.view().path_offset(p@) == Err::<int, Error>(
                e,
            ),
    {
        if p.len() == 0 || p[0] != SLASH {
            return Err(Error::BadPath);
        }
        let mut node: usize = 0;
        let mut i: usize = 0;
        while i < p.len()
            invariant
                self.wf(),
                i <= p@.len(),
                p@.len() > 0 && p@[0] == SLASH,
                self.view().path_offset(p@) == self.view().resolve_path(node as int, p@, i as int),
            decreases p@.len() - i,
        {
            if p[i] == SLASH {
                i = i + 1;
            } else {
                let j = find_slash(p, i);
                proof {
                    lemma_slash_from(p@, i as int);
                }
                let seg = &p[i..j];
                assert(seg@ == p@.subrange(i as int, j as int));
                proof {
                    lemma_resolve_segment(self.view(), node as int, p@, i as int);
                }
                match self.subnode_offset(node, seg) {
                    Ok(c) => {
                        node = c;
                        i = j;
                    },
                    Err(e) => return Err(e),
                }
            }
        }
        Ok(Offset(node))
    }

    /// The blob ranges of the names of the node at `node` and of its ancestors, root first.
    fn path_names(&self, node: usize) -> (r: Result<Vec<(usize, usize)>, Error>)
        requires
            self.wf(),
        ensures
            r matches Ok(st) ==> self.view().path_walk(0, node as int, Seq::empty()) == Ok::<
                Seq<Seq<u8>>,
                Error,
            >(names_of(self.view().blob, st@)),
            r matches Ok(st) ==> forall|k: int|
                0 <= k < st@.len() ==> #[trigger] st@[k].0 <= st@[k].1 <= self.view().blob.len(),
            r matches Err(e) ==> self.view().path_walk(0, node as int, Seq::empty()) == Err::<
                Seq<Seq<u8>>,
                Error,
            >(e),
    {
        let mut stack: Vec<(usize, usize)> = Vec::new();
        let mut cur: usize = 0;
        assert(names_of(self.view().blob, stack@) =~= Seq::<Seq<u8>>::empty());
        loop
            invariant
                self.wf(),
                forall|k: int|
                    0 <= k < stack@.len() ==> #[trigger] stack@[k].0 <= stack@[k].1 <= self.view().blob.len(),
                self.view().path_walk(0, node as int, Seq::empty()) == self.view().path_walk(
                    cur as int,
                    node as int,
                    names_of(self.view().blob, stack@),
                ),
            decreases self.view().struct_size - cur,
        {
            if cur > node {
                return Err(Error::BadOffset);
            }
            proof {
                lemma_next_tag_advances(self.view(), cur as int);
            }
            let ghost names = names_of(self.view().blob, stack@);
            match self.next_tag(cur) {
                Err(e) => return Err(e),
                Ok((tag, next)) => {
                    if tag == FDT_BEGIN_NODE {
                        let (a, e) = self.node_name_range(cur);
                        stack.push((a, e));
                        assert(names_of(self.view().blob, stack@) =~= names.push(
                            self.view().node_name(cur as int),
                        ));
                        if cur == node {
                            return Ok(stack);
                        }
                        cur = next;
                    } else if cur == node || tag == FDT_END {
                        return Err(Error::BadOffset);
                    } else if tag == FDT_END_NODE {
                        if stack.len() == 0 {
                            return Err(Error::BadStructure);
                        }
                        stack.pop();
                        assert(names_of(self.view().blob, stack@) =~= names.drop_last());
                        cur = next;
                    } else {
                        cur = next;
                    }
                },
            }
        }
    }

    /// The bytes of the absolute path of the node at `node`.
    pub(crate) fn path_bytes(&self, node: usize) -> (r: Result<Vec<u8>, Error>)
        requires
            self.wf(),
        ensures
            r matches Ok(v) ==> self.view().node_path(node as int) == Ok::<Seq<u8>, Error>(v@),
            r matches Err(e) ==> self.view().node_path(node as int) == Err::<Seq<u8>, Error>(e),
    {
        let stack = match self.path_names(node) {
            Ok(st) => st,
            Err(e) => return Err(e),
        };
        let ghost names = names_of(self.view().blob, stack@);
        let b = self.bytes();
        let mut buf: Vec<u8> = Vec::new();
        let mut k: usize = 0;
        assert(names.subrange(0, 0) =~= Seq::<Seq<u8>>::empty());
        while k < stack.len()
            invariant
                b@ == self.view().blob,
                names == names_of(self.view().blob, stack@),
                self.view().path_walk(0, node as int, Seq::empty()) == Ok::<Seq<Seq<u8>>, Error>(
                    names,
                ),
                forall|t: int|
                    0 <= t < stack@.len() ==> #[trigger] stack@[t].0 <= stack@[t].1 <= self.view().blob.len(),
                0 <= k <= stack@.len(),
                buf@ == joined(names.subrange(0, k as int)),
                buf@.len() <= MAX_PATH_LEN,
            decreases stack@.len() - k,
        {
            let (a, e) = stack[k];
            assert(names.subrange(0, k + 1).drop_last() =~= names.subrange(0, k as int));
            if e - a >= MAX_PATH_LEN - buf.len() {
                proof {
                    assert(names[k as int] == b@.subrange(a as int, e as int));
                    assert(joined(names.subrange(0, k + 1)) == joined(names.subrange(0, k as int))
                        + names[k as int] + seq![SLASH]);
                    lemma_joined_prefix(names, k + 1);
                }
                return Err(Error::NoSpace);
            }
            push_range(&mut buf, b, a, e);
            buf.push(SLASH);
            k = k + 1;
        }
        assert(names.subrange(0, k as int) =~= names);
        if buf.len() > 1 {
            buf.pop();
        }
        Ok(buf)
    }
}

} // verus!
