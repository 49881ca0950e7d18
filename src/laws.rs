//! Properties that hold across the navigation and link-resolution functions.
use vstd::prelude::*;

use crate::error::Error;
use crate::fdt::{FdtView, Phandle};
use crate::format::be32;
use crate::format::{FDT_BEGIN_NODE, FDT_END, FDT_END_NODE, FDT_NOP, FDT_PROP};
use crate::fdt::lemma_next_tag_advances;
use crate::path::{
    joined, lemma_first_subnode_advances, lemma_joined_prefix, lemma_next_subnode_advances,
    path_of_names, slash_from, SLASH,
};
use crate::property::{lemma_link_walk_unfold, prepend, skip_cells};

verus! {

impl FdtView {
    /// Walks the tokens from `off` on, with the offsets of the open nodes in
    /// `offs`, up to the node at `target`; gives the offsets of its ancestors
    /// and of itself, root first.
    pub open spec fn ancestors_walk(self, off: int, target: int, offs: Seq<int>) -> Result<
        Seq<int>,
        Error,
    >
        decreases self.struct_size - off,
        via Self::ancestors_walk_decreases
    {
        if off > target {
            Err(Error::BadOffset)
        } else {
            match self.next_tag(off) {
                Err(e) => Err(e),
                Ok((tag, next)) => if tag == FDT_BEGIN_NODE {
                    if off == target {
                        Ok(offs.push(off))
                    } else {
                        self.ancestors_walk(next, target, offs.push(off))
                    }
                } else if off == target || tag == FDT_END {
                    Err(Error::BadOffset)
                } else if tag == FDT_END_NODE {
                    if offs.len() == 0 {
                        Err(Error::BadStructure)
                    } else {
                        self.ancestors_walk(next, target, offs.drop_last())
                    }
                } else {
                    self.ancestors_walk(next, target, offs)
                },
            }
        }
    }

    #[via_fn]
    proof fn ancestors_walk_decreases(self, off: int, target: int, offs: Seq<int>) {
        lemma_next_tag_advances(self, off);
    }

    /// Walks the tokens from `off` to the token at `x`, with the offsets of
    /// the open nodes in `offs`; gives the nodes open when `x` is reached.
    pub open spec fn open_nodes_at(self, off: int, x: int, offs: Seq<int>) -> Option<Seq<int>>
        decreases self.struct_size - off,
        via Self::open_nodes_at_decreases
    {
        if off == x {
            Some(offs)
        } else if off > x {
            None
        } else {
            match self.next_tag(off) {
                Err(_) => None,
                Ok((tag, next)) => if tag == FDT_BEGIN_NODE {
                    self.open_nodes_at(next, x, offs.push(off))
                } else if tag == FDT_END_NODE {
                    if offs.len() == 0 {
                        None
                    } else {
                        self.open_nodes_at(next, x, offs.drop_last())
                    }
                } else if tag == FDT_END {
                    None
                } else {
                    self.open_nodes_at(next, x, offs)
                },
            }
        }
    }

    #[via_fn]
    proof fn open_nodes_at_decreases(self, off: int, x: int, offs: Seq<int>) {
        lemma_next_tag_advances(self, off);
    }

    /// The offsets of the node at `n` and of its ancestors, root first, as
    /// the walk that rebuilds its path finds them.
    pub open spec fn ancestors(self, n: int) -> Result<Seq<int>, Error> {
        self.ancestors_walk(0, n, Seq::empty())
    }

    /// The names of the nodes at `offs`.
    pub open spec fn names_at(self, offs: Seq<int>) -> Seq<Seq<u8>> {
        offs.map_values(|o: int| self.node_name(o))
    }

    /// Whether the path of the node at `n` names it without ambiguity: the
    /// root is at offset 0 with an empty name, and every other node on the
    /// way has a non-empty name without separator, and is the first child of
    /// its parent that answers to that name.
    pub open spec fn unambiguous_path(self, n: int) -> bool {
        &&& self.ancestors(n) matches Ok(anc)
        &&& anc[0] == 0
        &&& self.node_name(0).len() == 0
        &&& forall|k: int|
            1 <= k < anc.len() ==> {
                let name = #[trigger] self.node_name(anc[k]);
                &&& name.len() > 0
                &&& !name.contains(SLASH)
                &&& self.subnode_by_name(anc[k - 1], name) == Ok::<int, Error>(anc[k])
            }
    }

    /// Whether a node begins at `n` and the token that ends it is found.
    pub open spec fn node_end_found(self, n: int) -> bool {
        self.next_tag(n) matches Ok((tag, next)) && tag == FDT_BEGIN_NODE && self.close_node(
            next,
            1,
        ) is Ok
    }

    /// Whether the bytes `a`, from `pos` on, decode into whole entries of a
    /// phandle array: every entry resolves, or is skipped, without error, and
    /// the argument cells of the last one end exactly at the end of `a`.
    pub open spec fn whole_entries(self, a: Seq<u8>, pos: int, size_name: Seq<u8>) -> bool
        decreases a.len() - pos,
    {
        if pos < 0 || pos > a.len() {
            false
        } else if pos == a.len() {
            true
        } else if pos + 4 > a.len() {
            false
        } else {
            match self.link_entry(be32(a, pos), size_name) {
                Err(_) => false,
                Ok(None) => self.whole_entries(a, pos + 4, size_name),
                Ok(Some((t, k))) => pos + 4 + 4 * k <= a.len() && self.whole_entries(
                    a,
                    pos + 4 + 4 * k,
                    size_name,
                ),
            }
        }
    }

    /// The nodes that the whole entries of `a`, from `pos` on, refer to.
    pub open spec fn entry_targets(self, a: Seq<u8>, pos: int, size_name: Seq<u8>) -> Seq<int>
        decreases a.len() - pos,
    {
        if pos < 0 || pos + 4 > a.len() {
            Seq::empty()
        } else {
            match self.link_entry(be32(a, pos), size_name) {
                Err(_) => Seq::empty(),
                Ok(None) => self.entry_targets(a, pos + 4, size_name),
                Ok(Some((t, k))) => if pos + 4 + 4 * k <= a.len() {
                    seq![t] + self.entry_targets(a, pos + 4 + 4 * k, size_name)
                } else {
                    Seq::empty()
                },
            }
        }
    }

    /// The nodes that repeated `next_subnode` visits from the node at `c` on,
    /// up to the last one, on which it fails.
    pub open spec fn siblings_from(self, c: int) -> Seq<int>
        decreases self.struct_size - c,
        via Self::siblings_from_decreases
    {
        match self.next_subnode(c) {
            Ok(d) => seq![c] + self.siblings_from(d),
            Err(_) => seq![c],
        }
    }

    #[via_fn]
    proof fn siblings_from_decreases(self, c: int) {
        lemma_next_subnode_advances(self, c);
    }

    /// The nodes that `first_subnode`, then repeated `next_subnode`, visit
    /// under the node at `n`.
    pub open spec fn subnodes(self, n: int) -> Seq<int> {
        match self.first_subnode(n) {
            Ok(c) => self.siblings_from(c),
            Err(_) => Seq::empty(),
        }
    }
}

proof fn lemma_ancestors_walk(v: FdtView, off: int, target: int, offs: Seq<int>)
    ensures
        v.path_walk(off, target, v.names_at(offs)) == (match v.ancestors_walk(off, target, offs) {
            Ok(a) => Ok(v.names_at(a)),
            Err(e) => Err(e),
        }),
        v.ancestors_walk(off, target, offs) matches Ok(a) ==> a.len() > 0 && a.last() == target,
    decreases v.struct_size - off,
{
    lemma_next_tag_advances(v, off);
    if off <= target {
        if let Ok((tag, next)) = v.next_tag(off) {
            if tag == FDT_BEGIN_NODE {
                assert(v.names_at(offs.push(off)) =~= v.names_at(offs).push(v.node_name(off)));
                if off != target {
                    lemma_ancestors_walk(v, next, target, offs.push(off));
                }
            } else if off != target && tag != FDT_END {
                if tag == FDT_END_NODE {
                    if offs.len() > 0 {
                        assert(v.names_at(offs.drop_last()) =~= v.names_at(offs).drop_last());
                        lemma_ancestors_walk(v, next, target, offs.drop_last());
                    }
                } else {
                    lemma_ancestors_walk(v, next, target, offs);
                }
            }
        }
    }
}

/// The walk that rebuilds paths, and the walk of open nodes, agree.
proof fn lemma_ancestors_open(v: FdtView, off: int, t: int, offs: Seq<int>)
    ensures
        v.ancestors_walk(off, t, offs) matches Ok(a) ==> a.len() > 0 && v.open_nodes_at(
            off,
            t,
            offs,
        ) == Some(a.drop_last()) && a.last() == t && v.is_node(t),
        v.is_node(t) ==> (v.open_nodes_at(off, t, offs) matches Some(s) ==> v.ancestors_walk(
            off,
            t,
            offs,
        ) == Ok::<Seq<int>, Error>(s.push(t))),
    decreases v.struct_size - off,
{
    lemma_next_tag_advances(v, off);
    if off <= t {
        if let Ok((tag, next)) = v.next_tag(off) {
            if off == t {
                if tag == FDT_BEGIN_NODE {
                    assert(offs.push(off).drop_last() =~= offs);
                }
            } else if tag == FDT_BEGIN_NODE {
                lemma_ancestors_open(v, next, t, offs.push(off));
            } else if tag == FDT_END_NODE {
                if offs.len() > 0 {
                    lemma_ancestors_open(v, next, t, offs.drop_last());
                }
            } else if tag != FDT_END {
                lemma_ancestors_open(v, next, t, offs);
            }
        }
    }
}

/// Walking from `off` to `x`, then from `x` to `y`, is walking from `off` to `y`.
proof fn lemma_open_nodes_compose(v: FdtView, off: int, x: int, y: int, offs: Seq<int>)
    requires
        v.open_nodes_at(off, x, offs) is Some,
        v.open_nodes_at(x, y, v.open_nodes_at(off, x, offs)->Some_0) is Some,
    ensures
        v.open_nodes_at(off, y, offs) == v.open_nodes_at(
            x,
            y,
            v.open_nodes_at(off, x, offs)->Some_0,
        ),
    decreases v.struct_size - off,
{
    lemma_next_tag_advances(v, off);
    if off != x {
        let (tag, next) = v.next_tag(off)->Ok_0;
        if tag == FDT_BEGIN_NODE {
            lemma_open_nodes_compose(v, next, x, y, offs.push(off));
        } else if tag == FDT_END_NODE {
            lemma_open_nodes_compose(v, next, x, y, offs.drop_last());
        } else {
            lemma_open_nodes_compose(v, next, x, y, offs);
        }
    }
}

/// Skipping properties and padding up to a node opens and closes nothing.
proof fn lemma_seek_node_open(v: FdtView, off: int, offs: Seq<int>)
    ensures
        v.seek_node(off) matches Ok(c) ==> v.open_nodes_at(off, c, offs) == Some(offs),
    decreases v.struct_size - off,
{
    lemma_next_tag_advances(v, off);
    if let Ok((tag, next)) = v.next_tag(off) {
        if tag != FDT_BEGIN_NODE {
            lemma_seek_node_open(v, next, offs);
            crate::path::lemma_seek_node_forward(v, next);
        }
    }
}

/// Walking to the end of the `depth` innermost open nodes closes them.
proof fn lemma_close_node_open(v: FdtView, off: int, depth: nat, offs: Seq<int>)
    requires
        1 <= depth <= offs.len(),
    ensures
        v.close_node(off, depth) matches Ok(e) ==> v.open_nodes_at(off, e, offs) == Some(
            offs.subrange(0, offs.len() - depth),
        ),
    decreases v.struct_size - off,
{
    lemma_next_tag_advances(v, off);
    crate::path::lemma_close_node_forward(v, off, depth);
    if let Ok((tag, next)) = v.next_tag(off) {
        if tag == FDT_BEGIN_NODE {
            lemma_close_node_open(v, next, depth + 1, offs.push(off));
            crate::path::lemma_close_node_forward(v, next, depth + 1);
            assert(offs.push(off).subrange(0, offs.len() + 1 - (depth + 1)) =~= offs.subrange(
                0,
                offs.len() - depth,
            ));
        } else if tag == FDT_END_NODE {
            if depth > 1 {
                lemma_close_node_open(v, next, (depth - 1) as nat, offs.drop_last());
                crate::path::lemma_close_node_forward(v, next, (depth - 1) as nat);
                assert(offs.drop_last().subrange(0, offs.len() - 1 - (depth - 1)) =~= offs.subrange(
                    0,
                    offs.len() - depth,
                ));
            } else {
                assert(offs.drop_last() =~= offs.subrange(0, offs.len() - 1));
                assert(v.open_nodes_at(next, next, offs.drop_last()) == Some(offs.drop_last()));
            }
        } else if tag == FDT_PROP || tag == FDT_NOP {
            lemma_close_node_open(v, next, depth, offs);
            crate::path::lemma_close_node_forward(v, next, depth);
        }
    }
}

/// The first child of a node, and the sibling after a node, have the
/// ancestors that the walk of open nodes gives them.
proof fn lemma_child_ancestors(v: FdtView, n: int, c: int, a: Seq<int>, first: bool)
    requires
        v.ancestors(n) == Ok::<Seq<int>, Error>(a),
        first ==> v.first_subnode(n) == Ok::<int, Error>(c),
        !first ==> v.next_subnode(n) == Ok::<int, Error>(c),
    ensures
        first ==> v.ancestors(c) == Ok::<Seq<int>, Error>(a.push(c)),
        !first ==> v.ancestors(c) == Ok::<Seq<int>, Error>(a.drop_last().push(c)),
{
    lemma_ancestors_open(v, 0, n, Seq::empty());
    let s = a.drop_last();
    assert(s.push(n) =~= a);
    let (tag, next) = v.next_tag(n)->Ok_0;
    lemma_next_tag_advances(v, n);
    assert(v.open_nodes_at(n, next, s) == Some(a)) by {
        assert(v.open_nodes_at(next, next, s.push(n)) == Some(s.push(n)));
    }
    lemma_open_nodes_compose(v, 0, n, next, Seq::empty());
    if first {
        lemma_seek_node_open(v, next, a);
        lemma_open_nodes_compose(v, 0, next, c, Seq::empty());
        lemma_first_subnode_advances(v, n);
        lemma_ancestors_open(v, 0, c, Seq::empty());
    } else {
        let e = v.close_node(next, 1)->Ok_0;
        lemma_close_node_open(v, next, 1, a);
        assert(a.subrange(0, a.len() - 1) =~= s);
        lemma_open_nodes_compose(v, 0, next, e, Seq::empty());
        lemma_seek_node_open(v, e, s);
        lemma_open_nodes_compose(v, 0, e, c, Seq::empty());
        lemma_next_subnode_advances(v, n);
        lemma_ancestors_open(v, 0, c, Seq::empty());
    }
}

proof fn lemma_siblings_from(v: FdtView, c: int)
    requires
        v.is_node(c),
    ensures
        ({
            let s = v.siblings_from(c);
            &&& s.len() > 0
            &&& s[0] == c
            &&& v.next_subnode(s.last()) is Err
            &&& forall|i: int| 0 <= i < s.len() - 1 ==> v.next_subnode(#[trigger] s[i]) == Ok::<
                int,
                Error,
            >(s[i + 1])
            &&& forall|i: int| 0 <= i < s.len() ==> v.is_node(#[trigger] s[i]) && c <= s[i]
            &&& forall|i: int, j: int| 0 <= i < j < s.len() ==> s[i] < s[j]
        }),
    decreases v.struct_size - c,
{
    lemma_next_subnode_advances(v, c);
    if let Ok(d) = v.next_subnode(c) {
        lemma_siblings_from(v, d);
        let rest = v.siblings_from(d);
        let s = v.siblings_from(c);
        assert(s == seq![c] + rest);
        assert forall|i: int| 0 <= i < s.len() - 1 implies v.next_subnode(#[trigger] s[i]) == Ok::<
            int,
            Error,
        >(s[i + 1]) by {
            if i > 0 {
                assert(s[i] == rest[i - 1]);
            }
        }
        assert forall|i: int| 0 <= i < s.len() implies v.is_node(#[trigger] s[i]) && c <= s[i] by {
            if i > 0 {
                assert(s[i] == rest[i - 1]);
            }
        }
        assert forall|i: int, j: int| 0 <= i < j < s.len() implies s[i] < s[j] by {
            if i > 0 {
                assert(s[i] == rest[i - 1]);
            }
            assert(s[j] == rest[j - 1]);
        }
    }
}

proof fn lemma_siblings_ancestors(v: FdtView, c: int, a: Seq<int>)
    requires
        v.is_node(c),
        v.ancestors(c) == Ok::<Seq<int>, Error>(a.push(c)),
    ensures
        forall|i: int|
            0 <= i < v.siblings_from(c).len() ==> v.ancestors(#[trigger] v.siblings_from(c)[i])
                == Ok::<Seq<int>, Error>(a.push(v.siblings_from(c)[i])),
    decreases v.struct_size - c,
{
    lemma_next_subnode_advances(v, c);
    if let Ok(d) = v.next_subnode(c) {
        lemma_child_ancestors(v, c, d, a.push(c), false);
        assert(a.push(c).drop_last() =~= a);
        lemma_siblings_ancestors(v, d, a);
        let s = v.siblings_from(c);
        let rest = v.siblings_from(d);
        assert(s == seq![c] + rest);
        assert forall|i: int| 0 <= i < s.len() implies v.ancestors(#[trigger] s[i]) == Ok::<
            Seq<int>,
            Error,
        >(a.push(s[i])) by {
            if i > 0 {
                assert(s[i] == rest[i - 1]);
            }
        }
    }
}

/// The nodes open at a token all begin before it.
proof fn lemma_open_nodes_before(v: FdtView, off: int, x: int, offs: Seq<int>)
    requires
        forall|i: int| 0 <= i < offs.len() ==> offs[i] < off,
    ensures
        v.open_nodes_at(off, x, offs) matches Some(t) ==> off <= x && forall|i: int|
            0 <= i < t.len() ==> t[i] < x,
    decreases v.struct_size - off,
{
    lemma_next_tag_advances(v, off);
    if off < x {
        if let Ok((tag, next)) = v.next_tag(off) {
            if tag == FDT_BEGIN_NODE {
                lemma_open_nodes_before(v, next, x, offs.push(off));
            } else if tag == FDT_END_NODE {
                if offs.len() > 0 {
                    lemma_open_nodes_before(v, next, x, offs.drop_last());
                }
            } else if tag != FDT_END {
                lemma_open_nodes_before(v, next, x, offs);
            }
        }
    }
}

/// A node that begins before `off` and is open at `x`, later, was open at `off` already, at the same depth.
proof fn lemma_open_nodes_kept(v: FdtView, off: int, x: int, offs: Seq<int>)
    ensures
        v.open_nodes_at(off, x, offs) matches Some(t) ==> forall|i: int|
            0 <= i < t.len() && #[trigger] t[i] < off ==> i < offs.len() && t[i] == offs[i],
    decreases v.struct_size - off,
{
    lemma_next_tag_advances(v, off);
    if off < x {
        if let Ok((tag, next)) = v.next_tag(off) {
            if tag == FDT_BEGIN_NODE {
                lemma_open_nodes_kept(v, next, x, offs.push(off));
            } else if tag == FDT_END_NODE {
                if offs.len() > 0 {
                    lemma_open_nodes_kept(v, next, x, offs.drop_last());
                }
            } else if tag != FDT_END {
                lemma_open_nodes_kept(v, next, x, offs);
            }
        }
    }
}

/// A node closed before `off` is not open again later.
proof fn lemma_closed_stays_closed(v: FdtView, off: int, c: int, a: Seq<int>)
    requires
        a.len() > 0,
        forall|i: int| 0 <= i < a.len() ==> a[i] < off,
    ensures
        v.open_nodes_at(off, c, a.drop_last()) != Some(a),
{
    lemma_open_nodes_kept(v, off, c, a.drop_last());
    if v.open_nodes_at(off, c, a.drop_last()) == Some(a) {
        let t = v.open_nodes_at(off, c, a.drop_last())->Some_0;
        let i = a.len() - 1;
        assert(t == a);
        assert(t[i] < off);
        assert(i < a.drop_last().len());
    }
}

/// Of two tokens that one walk reaches, the walk reaches the later one from the earlier one.
proof fn lemma_open_nodes_split(v: FdtView, off: int, x: int, y: int, offs: Seq<int>)
    requires
        v.open_nodes_at(off, x, offs) is Some,
        v.open_nodes_at(off, y, offs) is Some,
        x <= y,
    ensures
        v.open_nodes_at(x, y, v.open_nodes_at(off, x, offs)->Some_0) == v.open_nodes_at(
            off,
            y,
            offs,
        ),
    decreases v.struct_size - off,
{
    lemma_next_tag_advances(v, off);
    if off != x {
        let (tag, next) = v.next_tag(off)->Ok_0;
        if tag == FDT_BEGIN_NODE {
            lemma_open_nodes_split(v, next, x, y, offs.push(off));
        } else if tag == FDT_END_NODE {
            lemma_open_nodes_split(v, next, x, y, offs.drop_last());
        } else {
            lemma_open_nodes_split(v, next, x, y, offs);
        }
    }
}

/// Inside `x.len()` nodes opened within the nodes `a`, a walk that gets back
/// to just `a` open passes the end of the outermost of them.
proof fn lemma_close_reaches(v: FdtView, off: int, c: int, a: Seq<int>, x: Seq<int>)
    requires
        x.len() >= 1,
        v.open_nodes_at(off, c, a + x) == Some(a),
    ensures
        v.close_node(off, x.len()) matches Ok(e) && e <= c && v.open_nodes_at(e, c, a) == Some(a),
    decreases v.struct_size - off,
{
    lemma_next_tag_advances(v, off);
    if off == c {
        assert((a + x).len() != a.len());
    } else {
        let (tag, next) = v.next_tag(off)->Ok_0;
        if tag == FDT_BEGIN_NODE {
            assert((a + x).push(off) =~= a + x.push(off));
            lemma_close_reaches(v, next, c, a, x.push(off));
        } else if tag == FDT_END_NODE {
            if x.len() == 1 {
                assert((a + x).drop_last() =~= a);
                lemma_open_nodes_before(v, next, c, Seq::empty());
                assert(v.open_nodes_at(next, c, a) is Some ==> next <= c);
            } else {
                assert((a + x).drop_last() =~= a + x.drop_last());
                lemma_close_reaches(v, next, c, a, x.drop_last());
            }
        } else {
            lemma_close_reaches(v, next, c, a, x);
        }
    }
}

/// Skipping properties and padding from `off`, while the nodes `a` stay
/// open up to the node at `c`, stops at a node no later than `c`, from which
/// the walk still reaches `c` with `a` open.
proof fn lemma_seek_reaches(v: FdtView, off: int, c: int, a: Seq<int>)
    requires
        v.open_nodes_at(off, c, a) == Some(a),
        v.is_node(c),
        a.len() > 0,
        forall|i: int| 0 <= i < a.len() ==> a[i] < off,
    ensures
        v.seek_node(off) matches Ok(d) && off <= d <= c && v.is_node(d) && v.open_nodes_at(d, c, a)
            == Some(a),
    decreases v.struct_size - off,
{
    lemma_next_tag_advances(v, off);
    if off != c {
        assert(off < c);
        assert(v.next_tag(off) is Ok);
        let (tag, next) = v.next_tag(off)->Ok_0;
        if tag == FDT_END_NODE {
            lemma_closed_stays_closed(v, next, c, a);
        } else if tag == FDT_BEGIN_NODE {
            assert(v.seek_node(off) == Ok::<int, Error>(off));
        } else {
            assert(tag == FDT_PROP || tag == FDT_NOP);
            assert(v.open_nodes_at(next, c, a) == Some(a));
            lemma_seek_reaches(v, next, c, a);
            assert(v.seek_node(off) == v.seek_node(next));
        }
    } else {
        assert(v.seek_node(off) == Ok::<int, Error>(off));
    }
}

/// From a child on, the walk over its siblings reaches every later child.
proof fn lemma_siblings_reach(v: FdtView, cur: int, c: int, a: Seq<int>)
    requires
        v.is_node(cur),
        v.is_node(c),
        a.len() > 0,
        v.open_nodes_at(cur, c, a) == Some(a),
        forall|i: int| 0 <= i < a.len() ==> a[i] < cur,
    ensures
        v.siblings_from(cur).contains(c),
    decreases c - cur,
{
    lemma_open_nodes_before(v, cur, c, a);
    lemma_next_subnode_advances(v, cur);
    if cur == c {
        assert(v.siblings_from(cur)[0] == cur);
    } else {
        let (tag, next) = v.next_tag(cur)->Ok_0;
        lemma_next_tag_advances(v, cur);
        assert(a + seq![cur] =~= a.push(cur));
        lemma_close_reaches(v, next, c, a, seq![cur]);
        let e = v.close_node(next, 1)->Ok_0;
        crate::path::lemma_close_node_forward(v, next, 1);
        lemma_seek_reaches(v, e, c, a);
        let d = v.seek_node(e)->Ok_0;
        assert(v.next_subnode(cur) == Ok::<int, Error>(d));
        lemma_siblings_reach(v, d, c, a);
        let rest = v.siblings_from(d);
        let k = choose|k: int| 0 <= k < rest.len() && rest[k] == c;
        assert(v.siblings_from(cur) == seq![cur] + rest);
        assert(v.siblings_from(cur)[k + 1] == c);
    }
}

/// Inside a node whose end is found, skipping to the next child finds one,
/// or the end of the node.
proof fn lemma_seek_in_node(v: FdtView, off: int)
    requires
        v.close_node(off, 1) is Ok,
    ensures
        v.seek_node(off) is Ok || v.seek_node(off) == Err::<int, Error>(Error::NotFound),
    decreases v.struct_size - off,
{
    lemma_next_tag_advances(v, off);
    let (tag, next) = v.next_tag(off)->Ok_0;
    if tag == FDT_PROP || tag == FDT_NOP {
        lemma_seek_in_node(v, next);
    }
}

/// Closing `j + k` nodes is closing `j`, then `k` more.
proof fn lemma_close_split(v: FdtView, off: int, j: nat, k: nat)
    requires
        j >= 1,
        k >= 1,
        v.close_node(off, j + k) is Ok,
    ensures
        v.close_node(off, j) matches Ok(e) && v.close_node(e, k) == v.close_node(off, j + k),
    decreases v.struct_size - off,
{
    lemma_next_tag_advances(v, off);
    let (tag, next) = v.next_tag(off)->Ok_0;
    if tag == FDT_BEGIN_NODE {
        lemma_close_split(v, next, j + 1, k);
        assert(j + 1 + k == j + k + 1);
    } else if tag == FDT_END_NODE {
        if j > 1 {
            lemma_close_split(v, next, (j - 1) as nat, k);
            assert((j - 1) as nat + k == (j + k - 1) as nat);
        } else {
            assert(v.close_node(next, k) == v.close_node(off, j + k));
        }
    } else {
        lemma_close_split(v, next, j, k);
    }
}

/// Skipping properties and padding does not change where nodes close.
proof fn lemma_seek_then_close(v: FdtView, off: int, depth: nat)
    ensures
        v.seek_node(off) matches Ok(d) ==> v.close_node(off, depth) == v.close_node(d, depth),
    decreases v.struct_size - off,
{
    lemma_next_tag_advances(v, off);
    if let Ok((tag, next)) = v.next_tag(off) {
        if tag == FDT_PROP || tag == FDT_NOP {
            lemma_seek_then_close(v, next, depth);
        }
    }
}

/// Inside a node whose end is found, the walk over the siblings from the
/// child at `c` on ends with `NotFound`.
proof fn lemma_siblings_end(v: FdtView, c: int)
    requires
        v.is_node(c),
        v.close_node(c, 1) is Ok,
    ensures
        v.next_subnode(v.siblings_from(c).last()) == Err::<int, Error>(Error::NotFound),
    decreases v.struct_size - c,
{
    lemma_next_tag_advances(v, c);
    lemma_next_subnode_advances(v, c);
    let (tag, next) = v.next_tag(c)->Ok_0;
    assert(v.close_node(c, 1) == v.close_node(next, 2));
    lemma_close_split(v, next, 1, 1);
    let e = v.close_node(next, 1)->Ok_0;
    lemma_seek_in_node(v, e);
    if let Ok(d) = v.next_subnode(c) {
        lemma_seek_then_close(v, e, 1);
        lemma_siblings_end(v, d);
        assert(v.siblings_from(c) == seq![c] + v.siblings_from(d));
        lemma_siblings_from(v, d);
        assert(v.siblings_from(c).last() == v.siblings_from(d).last());
    } else {
        assert(v.siblings_from(c) == seq![c]);
    }
}

/// Walking the subnodes of a node with `first_subnode`, then `next_subnode`
/// on each node found, visits nodes that lie after the parent in strictly
/// increasing structure-block order, so none twice; the walk is finite, and
/// the call after the last node found fails, with `NotFound` where the
/// parent's end is found. The nodes visited are exactly the children of the
/// parent: the nodes whose ancestors are the parent's, then themselves.
pub proof fn lemma_subnode_walk(v: FdtView, n: int)
    ensures
        ({
            let s = v.subnodes(n);
            &&& s.len() == 0 <==> v.first_subnode(n) is Err
            &&& s.len() > 0 ==> v.first_subnode(n) == Ok::<int, Error>(s[0]) && v.next_subnode(
                s.last(),
            ) is Err
            &&& forall|i: int| 0 <= i < s.len() - 1 ==> v.next_subnode(#[trigger] s[i]) == Ok::<
                int,
                Error,
            >(s[i + 1])
            &&& forall|i: int| 0 <= i < s.len() ==> v.is_node(#[trigger] s[i]) && n < s[i]
            &&& forall|i: int, j: int| 0 <= i < j < s.len() ==> s[i] < s[j]
            &&& v.ancestors(n) matches Ok(a) ==> forall|i: int|
                0 <= i < s.len() ==> v.ancestors(#[trigger] s[i]) == Ok::<Seq<int>, Error>(
                    a.push(s[i]),
                )
            &&& v.ancestors(n) matches Ok(a) ==> forall|c: int|
                #![trigger v.ancestors(c)]
                v.ancestors(c) == Ok::<Seq<int>, Error>(a.push(c)) ==> s.contains(c)
            &&& v.node_end_found(n) ==> {
                &&& s.len() == 0 ==> v.first_subnode(n) == Err::<int, Error>(Error::NotFound)
                &&& s.len() > 0 ==> v.next_subnode(s.last()) == Err::<int, Error>(Error::NotFound)
            }
        }),
{
    lemma_first_subnode_advances(v, n);
    if let Ok(c) = v.first_subnode(n) {
        lemma_siblings_from(v, c);
        if let Ok(a) = v.ancestors(n) {
            lemma_child_ancestors(v, n, c, a, true);
            lemma_siblings_ancestors(v, c, a);
        }
    }
    if v.node_end_found(n) {
        lemma_subnode_walk_end(v, n);
    }
    if let Ok(a) = v.ancestors(n) {
        assert forall|c: int| v.ancestors(c) == Ok::<Seq<int>, Error>(a.push(c)) implies v.subnodes(
            n,
        ).contains(c) by {
            lemma_subnode_complete(v, n, c, a);
        }
    }
}

proof fn lemma_subnode_walk_end(v: FdtView, n: int)
    requires
        v.node_end_found(n),
    ensures
        v.subnodes(n).len() == 0 ==> v.first_subnode(n) == Err::<int, Error>(Error::NotFound),
        v.subnodes(n).len() > 0 ==> v.next_subnode(v.subnodes(n).last()) == Err::<int, Error>(
            Error::NotFound,
        ),
{
    let (tag, next) = v.next_tag(n)->Ok_0;
    lemma_seek_in_node(v, next);
    if let Ok(c) = v.first_subnode(n) {
        lemma_seek_then_close(v, next, 1);
        crate::path::lemma_seek_node_forward(v, next);
        assert(v.close_node(c, 1) == v.close_node(next, 1));
        lemma_siblings_end(v, c);
        lemma_siblings_from(v, c);
    }
}

proof fn lemma_subnode_complete(v: FdtView, n: int, c: int, a: Seq<int>)
    requires
        v.ancestors(n) == Ok::<Seq<int>, Error>(a),
        v.ancestors(c) == Ok::<Seq<int>, Error>(a.push(c)),
    ensures
        v.subnodes(n).contains(c),
{
    lemma_ancestors_open(v, 0, n, Seq::empty());
    lemma_ancestors_open(v, 0, c, Seq::empty());
    assert(a.push(c).drop_last() =~= a);
    let s = a.drop_last();
    assert(s.push(n) =~= a);
    lemma_open_nodes_before(v, 0, n, Seq::empty());
    lemma_open_nodes_before(v, 0, c, Seq::empty());
    assert(a[a.len() - 1] == n);
    lemma_open_nodes_split(v, 0, n, c, Seq::empty());
    let (tag, next) = v.next_tag(n)->Ok_0;
    lemma_next_tag_advances(v, n);
    assert(v.open_nodes_at(next, c, a) == Some(a));
    lemma_seek_reaches(v, next, c, a);
    let first = v.seek_node(next)->Ok_0;
    lemma_siblings_reach(v, first, c, a);
}

/// On a phandle array made of whole entries only (each a valid phandle of a
/// node, then all of that node's argument cells), resolution succeeds, and the
/// entries of the nodes it gives, re-encoded as a phandle cell and the
/// argument cells each, take exactly the array's length.
pub proof fn lemma_links_consume_all(v: FdtView, data: Seq<u8>, size_name: Seq<u8>)
    requires
        v.well_formed_links(data, 0, size_name),
    ensures
        v.link_walk(data, 0, size_name) matches Ok(ts) && v.encoded_len(ts, size_name)
            == data.len(),
{
    lemma_links_consume_from(v, data, 0, size_name);
}

proof fn lemma_links_consume_from(v: FdtView, data: Seq<u8>, pos: int, size_name: Seq<u8>)
    requires
        v.well_formed_links(data, pos, size_name),
    ensures
        v.link_walk(data, pos, size_name) matches Ok(ts) && v.encoded_len(ts, size_name)
            == data.len() - pos,
    decreases data.len() - pos,
{
    lemma_link_walk_unfold(v, data, pos, size_name);
    if pos < data.len() {
        let ph = be32(data, pos);
        let t = v.node_by_phandle(ph)->Ok_0;
        let k = v.arg_count(t, size_name)->Ok_0;
        reveal(FdtView::link_entry);
        assert(skip_cells(data.len() as int, pos + 4, k) == pos + 4 + 4 * k);
        lemma_links_consume_from(v, data, pos + 4 + 4 * k, size_name);
        let ts = v.link_walk(data, pos + 4 + 4 * k, size_name)->Ok_0;
        assert((seq![t] + ts).drop_first() =~= ts);
    }
}

/// An invalid phandle value (0 or the reserved maximum) inside a phandle
/// array does not stop resolution: that one cell is skipped, and the entries
/// after it are resolved as they would be without it.
pub proof fn lemma_invalid_phandle_skipped(
    v: FdtView,
    data: Seq<u8>,
    pos: int,
    size_name: Seq<u8>,
)
    requires
        0 <= pos,
        pos + 4 <= data.len(),
        !Phandle::valid(be32(data, pos)),
    ensures
        v.link_walk(data, pos, size_name) == v.link_walk(data, pos + 4, size_name),
{
    lemma_link_walk_unfold(v, data, pos, size_name);
    reveal(FdtView::link_entry);
}

/// A prefix made of whole entries resolves the same, whatever follows it.
proof fn lemma_whole_prefix(v: FdtView, a: Seq<u8>, r: Seq<u8>, pos: int, size_name: Seq<u8>)
    requires
        v.whole_entries(a, pos, size_name),
    ensures
        v.link_walk(a + r, pos, size_name) == prepend(
            v.entry_targets(a, pos, size_name),
            v.link_walk(a + r, a.len() as int, size_name),
        ),
    decreases a.len() - pos,
{
    let d = a + r;
    if pos == a.len() {
        if let Ok(ts) = v.link_walk(d, pos, size_name) {
            assert(Seq::<int>::empty() + ts =~= ts);
        }
    } else {
        lemma_link_walk_unfold(v, d, pos, size_name);
        assert(be32(d, pos) == be32(a, pos));
        match v.link_entry(be32(a, pos), size_name) {
            Ok(None) => {
                lemma_whole_prefix(v, a, r, pos + 4, size_name);
            },
            Ok(Some((t, k))) => {
                lemma_whole_prefix(v, a, r, pos + 4 + 4 * k, size_name);
                assert(skip_cells(d.len() as int, pos + 4, k) == pos + 4 + 4 * k);
                if let Ok(ts) = v.link_walk(d, a.len() as int, size_name) {
                    assert(seq![t] + (v.entry_targets(a, pos + 4 + 4 * k, size_name) + ts) =~= (
                    seq![t] + v.entry_targets(a, pos + 4 + 4 * k, size_name)) + ts);
                }
            },
            Err(_) => {},
        }
    }
}

/// Two arrays that agree from some point on, one four bytes further than
/// the other, resolve the same from there.
proof fn lemma_walk_shift(v: FdtView, q: Seq<u8>, p: Seq<u8>, m: int, pos: int, size_name: Seq<u8>)
    requires
        q.len() == p.len() + 4,
        0 <= m <= pos,
        forall|j: int| m <= j < p.len() ==> q[j + 4] == p[j],
    ensures
        v.link_walk(q, pos + 4, size_name) == v.link_walk(p, pos, size_name),
    decreases p.len() - pos,
{
    lemma_link_walk_unfold(v, q, pos + 4, size_name);
    lemma_link_walk_unfold(v, p, pos, size_name);
    if pos + 4 <= p.len() {
        assert(q[pos + 4] == p[pos]);
        assert(q[pos + 5] == p[pos + 1]);
        assert(q[pos + 6] == p[pos + 2]);
        assert(q[pos + 7] == p[pos + 3]);
        assert(be32(q, pos + 4) == be32(p, pos));
        match v.link_entry(be32(p, pos), size_name) {
            Ok(None) => {
                lemma_walk_shift(v, q, p, m, pos + 4, size_name);
            },
            Ok(Some((t, k))) => {
                let sp = skip_cells(p.len() as int, pos + 4, k);
                assert(skip_cells(q.len() as int, pos + 8, k) == sp + 4);
                lemma_walk_shift(v, q, p, m, sp, size_name);
            },
            Err(_) => {},
        }
    }
}

/// An invalid phandle value (0 or the reserved maximum) put between the
/// whole entries `a` and the rest `r` of a phandle array changes nothing:
/// resolution skips that one cell and resolves every entry of `r` as it
/// would without it.
pub proof fn lemma_invalid_phandle_removed(
    v: FdtView,
    a: Seq<u8>,
    c: Seq<u8>,
    r: Seq<u8>,
    size_name: Seq<u8>,
)
    requires
        v.whole_entries(a, 0, size_name),
        c.len() == 4,
        !Phandle::valid(be32(c, 0)),
    ensures
        v.link_walk(a + c + r, 0, size_name) == v.link_walk(a + r, 0, size_name),
{
    let q = a + c + r;
    let p = a + r;
    assert(q =~= a + (c + r));
    lemma_whole_prefix(v, a, c + r, 0, size_name);
    lemma_whole_prefix(v, a, r, 0, size_name);
    let m = a.len() as int;
    assert(be32(q, m) == be32(c, 0)) by {
        assert(q[m] == c[0]);
        assert(q[m + 1] == c[1]);
        assert(q[m + 2] == c[2]);
        assert(q[m + 3] == c[3]);
    }
    lemma_invalid_phandle_skipped(v, q, m, size_name);
    assert forall|j: int| m <= j < p.len() implies q[j + 4] == p[j] by {
        assert(q[j + 4] == r[j - m]);
    }
    lemma_walk_shift(v, q, p, m, m, size_name);
}

/// Under a convention that names no cell-count property, a phandle takes no
/// argument cells, whatever properties the node it refers to has: an entry
/// whose phandle resolves takes exactly its one cell.
pub proof fn lemma_no_size_no_args(v: FdtView, data: Seq<u8>, pos: int, t: int)
    requires
        0 <= pos,
        pos + 4 <= data.len(),
        Phandle::valid(be32(data, pos)),
        v.node_by_phandle(be32(data, pos)) == Ok::<int, Error>(t),
        v.node_check(t) is Ok,
    ensures
        v.arg_count(t, Seq::empty()) == Ok::<u32, Error>(0),
        v.link_walk(data, pos, Seq::empty()) == prepend(
            seq![t],
            v.link_walk(data, pos + 4, Seq::empty()),
        ),
{
    lemma_link_walk_unfold(v, data, pos, Seq::empty());
    reveal(FdtView::link_entry);
}

/// The first separator of `path` from `i` on is at `j`.
proof fn lemma_slash_at(path: Seq<u8>, i: int, j: int)
    requires
        0 <= i <= j <= path.len(),
        forall|t: int| i <= t < j ==> path[t] != SLASH,
        j == path.len() || path[j] == SLASH,
    ensures
        slash_from(path, i) == j,
    decreases j - i,
{
    if i < j {
        lemma_slash_at(path, i + 1, j);
    }
}

/// Where the `k`-th name, and the separator after it, stand in the joined names.
proof fn lemma_joined_at(names: Seq<Seq<u8>>, k: int)
    requires
        0 <= k < names.len(),
    ensures
        joined(names.subrange(0, k)).len() + names[k].len() + 1 == joined(
            names.subrange(0, k + 1),
        ).len(),
        joined(names.subrange(0, k + 1)).len() <= joined(names).len(),
        forall|t: int|
            0 <= t < names[k].len() ==> joined(names)[joined(names.subrange(0, k)).len() + t]
                == names[k][t],
        joined(names)[joined(names.subrange(0, k)).len() + names[k].len() as int] == SLASH,
{
    let sub = names.subrange(0, k + 1);
    assert(sub.drop_last() =~= names.subrange(0, k));
    lemma_joined_prefix(names, k + 1);
    let jk = joined(names.subrange(0, k));
    assert(joined(sub) == jk + names[k] + seq![SLASH]);
    assert forall|t: int| 0 <= t < names[k].len() implies joined(names)[jk.len() + t]
        == names[k][t] by {
        assert(joined(names)[jk.len() + t] == joined(sub)[jk.len() + t]);
    }
    assert(joined(names)[jk.len() + names[k].len() as int] == joined(sub)[jk.len() + names[k].len() as int]);
}

proof fn lemma_resolve_chain(v: FdtView, anc: Seq<int>, k: int)
    requires
        1 <= k <= anc.len(),
        forall|q: int|
            1 <= q < anc.len() ==> {
                let name = #[trigger] v.node_name(anc[q]);
                &&& name.len() > 0
                &&& !name.contains(SLASH)
                &&& v.subnode_by_name(anc[q - 1], name) == Ok::<int, Error>(anc[q])
            },
    ensures
        v.resolve_path(
            anc[k - 1],
            path_of_names(v.names_at(anc)),
            joined(v.names_at(anc).subrange(0, k)).len() as int,
        ) == Ok::<int, Error>(anc.last()),
    decreases anc.len() - k,
{
    let names = v.names_at(anc);
    let m = anc.len() as int;
    let full = joined(names);
    let p = path_of_names(names);
    let i = joined(names.subrange(0, k)).len() as int;
    assert(forall|x: int| 0 <= x < p.len() ==> p[x] == full[x]);
    assert(p.len() >= full.len() - 1);
    assert(p.len() <= full.len());
    if k == m {
        assert(names.subrange(0, k) =~= names);
    } else {
        let w = names[k];
        assert(w == v.node_name(anc[k]));
        lemma_joined_at(names, k);
        let j = i + w.len();
        assert forall|t: int| i <= t < j implies p[t] != SLASH by {
            assert(p[t] == w[t - i]);
            if w[t - i] == SLASH {
                assert(w.contains(SLASH));
            }
        }
        if j < p.len() {
            assert(p[j] == SLASH);
        }
        lemma_slash_at(p, i, j);
        assert(p.subrange(i, j) =~= w);
        assert(p[i] == w[0]);
        assert(v.subnode_by_name(anc[k - 1], w) == Ok::<int, Error>(anc[k]));
        assert(v.resolve_path(anc[k - 1], p, i) == v.resolve_path(anc[k], p, j));
        if j < p.len() {
            lemma_resolve_chain(v, anc, k + 1);
            assert(v.resolve_path(anc[k], p, j) == v.resolve_path(anc[k], p, j + 1));
        } else {
            if k + 1 < m {
                lemma_joined_at(names, k + 1);
                assert(v.node_name(anc[k + 1]).len() > 0);
                assert(names[k + 1] == v.node_name(anc[k + 1]));
            }
            assert(v.resolve_path(anc[k], p, j) == Ok::<int, Error>(anc[k]));
        }
    }
}

/// Rebuilding the path of a node and resolving that path gives back the
/// node, wherever the path names it without ambiguity and fits in a path
/// buffer.
pub proof fn lemma_path_round_trip(v: FdtView, n: int)
    requires
        v.unambiguous_path(n),
        v.node_path(n) is Ok,
    ensures
        v.node_path(n) matches Ok(p) && v.path_offset(p) == Ok::<int, Error>(n),
{
    let anc = v.ancestors(n)->Ok_0;
    assert(v.names_at(Seq::empty()) =~= Seq::<Seq<u8>>::empty());
    lemma_ancestors_walk(v, 0, n, Seq::empty());
    let names = v.names_at(anc);
    let full = joined(names);
    let p = path_of_names(names);
    lemma_joined_at(names, 0);
    assert(names.subrange(0, 0) =~= Seq::<Seq<u8>>::empty());
    assert(names[0] == v.node_name(0));
    assert(full[0] == SLASH);
    assert(p[0] == SLASH);
    lemma_resolve_chain(v, anc, 1);
}

proof fn lemma_no_size_from(v: FdtView, data: Seq<u8>, j: int)
    requires
        data.len() % 4 == 0,
        0 <= j <= data.len() / 4,
        forall|i: int|
            0 <= i < data.len() / 4 ==> Phandle::valid(#[trigger] be32(data, 4 * i)) && (
            v.node_by_phandle(be32(data, 4 * i)) matches Ok(t) && v.node_check(t) is Ok),
    ensures
        v.link_walk(data, 4 * j, Seq::empty()) == Ok::<Seq<int>, Error>(
            Seq::new(
                (data.len() / 4 - j) as nat,
                |i: int| v.node_by_phandle(be32(data, 4 * (j + i)))->Ok_0,
            ),
        ),
    decreases data.len() / 4 - j,
{
    let n = data.len() / 4;
    if j == n {
        lemma_link_walk_unfold(v, data, 4 * j, Seq::empty());
        assert(Seq::new(0, |i: int| v.node_by_phandle(be32(data, 4 * (j + i)))->Ok_0) =~= Seq::<
            int,
        >::empty());
    } else {
        let t = v.node_by_phandle(be32(data, 4 * j))->Ok_0;
        lemma_no_size_no_args(v, data, 4 * j, t);
        lemma_no_size_from(v, data, j + 1);
        assert(4 * (j + 1) == 4 * j + 4);
        assert(seq![t] + Seq::new(
            (n - (j + 1)) as nat,
            |i: int| v.node_by_phandle(be32(data, 4 * (j + 1 + i)))->Ok_0,
        ) =~= Seq::new((n - j) as nat, |i: int| v.node_by_phandle(be32(data, 4 * (j + i)))->Ok_0));
    }
}

/// Under a convention that names no cell-count property, a phandle array
/// whose every cell is a phandle that some node declares resolves to one node
/// per cell, in order, whatever other properties those nodes have.
pub proof fn lemma_no_size_each_cell(v: FdtView, data: Seq<u8>)
    requires
        data.len() % 4 == 0,
        forall|i: int|
            0 <= i < data.len() / 4 ==> Phandle::valid(#[trigger] be32(data, 4 * i)) && (
            v.node_by_phandle(be32(data, 4 * i)) matches Ok(t) && v.node_check(t) is Ok),
    ensures
        v.link_walk(data, 0, Seq::empty()) == Ok::<Seq<int>, Error>(
            Seq::new((data.len() / 4) as nat, |i: int| v.node_by_phandle(be32(data, 4 * i))->Ok_0),
        ),
{
    lemma_no_size_from(v, data, 0);
    assert(Seq::new((data.len() / 4) as nat, |i: int| v.node_by_phandle(be32(data, 4 * (0 + i)))->Ok_0)
        =~= Seq::new((data.len() / 4) as nat, |i: int| v.node_by_phandle(be32(data, 4 * i))->Ok_0));
}

} // verus!
