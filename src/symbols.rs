//! The symbol table: a node whose properties map symbol names to node paths.
use vstd::prelude::*;
use vstd::string::StringSliceAdditionalSpecFns;
use vstd::utf8::{encode_utf8, valid_utf8};

use crate::error::Error;
use crate::fdt::{lemma_next_property_advances, lemma_next_tag_advances, Fdt, FdtView};
use crate::format::nul_index;
use crate::node::FdtNodeRef;

verus! {

/// The path of the symbol table node, `/__symbols__`.
pub open spec fn symbols_path() -> Seq<u8> {
    seq![0x2fu8, 0x5f, 0x5f, 0x73, 0x79, 0x6d, 0x62, 0x6f, 0x6c, 0x73, 0x5f, 0x5f]
}

/// The string that a property value holds: its bytes before the first NUL.
pub open spec fn c_string(data: Seq<u8>) -> Option<Seq<u8>> {
    match nul_index(data, 0, data.len() as int) {
        Some(p) => Some(data.subrange(0, p)),
        None => None,
    }
}

impl FdtView {
    /// The properties from the one at `p` to the last one of its node; the
    /// error that stopped the walk, other than reaching the end.
    pub open spec fn props_from(self, p: int) -> Result<Seq<int>, Error>
        decreases self.struct_size - p,
        via Self::props_from_decreases
    {
        match self.next_property(p) {
            Ok(q) => match self.props_from(q) {
                Ok(ps) => Ok(seq![p] + ps),
                Err(e) => Err(e),
            },
            Err(Error::NotFound) => Ok(seq![p]),
            Err(e) => Err(e),
        }
    }

    #[via_fn]
    proof fn props_from_decreases(self, p: int) {
        lemma_next_property_advances(self, p);
    }

    /// All properties of the node at `node`, in order.
    pub open spec fn node_props(self, node: int) -> Result<Seq<int>, Error> {
        match self.first_property(node) {
            Ok(p) => self.props_from(p),
            Err(Error::NotFound) => Ok(Seq::empty()),
            Err(e) => Err(e),
        }
    }

    /// Whether the value of the property at `q` holds a UTF-8 string.
    pub open spec fn is_string(self, q: int) -> bool {
        c_string(self.prop_data(q)) matches Some(b) && valid_utf8(b)
    }

    /// Whether each of the properties `ps` has a valid name and holds a UTF-8 string.
    pub open spec fn symbols_readable(self, ps: Seq<int>) -> bool {
        forall|i: int|
            0 <= i < ps.len() ==> self.prop_check(#[trigger] ps[i]) is Ok && self.is_string(ps[i])
    }

    /// Whether `entries` are the symbols of the properties `ps`: each pairs a
    /// property's name with the string its value holds.
    pub open spec fn symbols_match(self, ps: Seq<int>, entries: Seq<(Seq<char>, Seq<char>)>) -> bool {
        &&& entries.len() == ps.len()
        &&& forall|i: int|
            0 <= i < ps.len() ==> self.prop_name(#[trigger] ps[i]) == Some(
                encode_utf8(entries[i].0),
            ) && c_string(self.prop_data(ps[i])) == Some(encode_utf8(entries[i].1))
    }
}

impl Fdt {
    /// Get the full path of an [`FdtNodeRef`]: a path as it is, a symbol
    /// through the symbol table node.
    pub fn as_path<'fdt>(&'fdt self, node_ref: &'fdt FdtNodeRef) -> (r: Result<&'fdt str, Error>)
        requires
            self.wf(),
        ensures
            node_ref matches FdtNodeRef::Path(p) ==> r matches Ok(s) && s@ == p@,
            node_ref matches FdtNodeRef::Symbol(sym) ==> {
                let v = self.view();
                &&& r matches Ok(s) ==> v.path_offset(symbols_path()) matches Ok(o)
                    && v.node_check(o) is Ok && (v.get_property(o, encode_utf8(sym@)) matches Ok(q)
                    && c_string(v.prop_data(q)) == Some(s.spec_bytes()))
                &&& match v.path_offset(symbols_path()) {
                    Err(e) => r == Err::<&str, Error>(e),
                    Ok(o) => match v.node_check(o) {
                        Err(e) => r == Err::<&str, Error>(e),
                        Ok(_) => match v.get_property(o, encode_utf8(sym@)) {
                            Err(e) => r == Err::<&str, Error>(e),
                            Ok(q) => if v.is_string(q) {
                                r is Ok
                            } else {
                                r == Err::<&str, Error>(Error::BadValue)
                            },
                        },
                    },
                }
            },
    {
        match node_ref {
            FdtNodeRef::Path(path) => Ok(path.as_str()),
            FdtNodeRef::Symbol(symbol) => {
                let spath: Vec<u8> = vec![
                    0x2fu8,
                    0x5f,
                    0x5f,
                    0x73,
                    0x79,
                    0x6d,
                    0x62,
                    0x6f,
                    0x6c,
                    0x73,
                    0x5f,
                    0x5f,
                ];
                assert(spath@ =~= symbols_path());
                let offset = match self.path_offset_bytes(spath.as_slice()) {
                    Ok(o) => o,
                    Err(e) => return Err(e),
                };
                let snode = match self.get_node_by_offset(offset) {
                    Ok(n) => n,
                    Err(e) => return Err(e),
                };
                let sprop = match snode.get_property(symbol.as_str()) {
                    Ok(p) => p,
                    Err(e) => return Err(e),
                };
                sprop.data_as_str()
            },
        }
    }

    /// Get the symbol table: for each property of the symbol table node, in
    /// order, the symbol (the property's name) and the path it stands for
    /// (the property's string value).
    pub fn symbol_table(&self) -> (r: Result<Vec<(String, String)>, Error>)
        requires
            self.wf(),
        ensures
            ({
                let v = self.view();
                &&& v.path_offset(symbols_path()) matches Err(e) ==> r == Err::<
                    Vec<(String, String)>,
                    Error,
                >(e)
                &&& r matches Ok(entries) ==> v.path_offset(symbols_path()) matches Ok(o)
                    && v.node_check(o) is Ok && (v.node_props(o) matches Ok(ps) && v.symbols_match(
                    ps,
                    entries_view(entries@),
                ))
                &&& (v.path_offset(symbols_path()) matches Ok(o) && v.node_check(o) is Ok && (
                v.node_props(o) matches Ok(ps) && v.symbols_readable(ps))) ==> r is Ok
            }),
    {
        let spath: Vec<u8> = vec![0x2fu8, 0x5f, 0x5f, 0x73, 0x79, 0x6d, 0x62, 0x6f, 0x6c, 0x73, 0x5f, 0x5f];
        assert(spath@ =~= symbols_path());
        let offset = match self.path_offset_bytes(spath.as_slice()) {
            Ok(o) => o,
            Err(e) => return Err(e),
        };
        match self.get_node_by_offset(offset) {
            Ok(_) => {},
            Err(e) => return Err(e),
        }
        let ghost v = self.view();
        let ghost o = offset.0 as int;
        let mut entries: Vec<(String, String)> = Vec::new();
        proof {
            crate::fdt::lemma_first_property_advances(v, o);
        }
        let mut cur = match self.first_property_offset(offset) {
            Ok(p) => p,
            Err(Error::NotFound) => {
                assert(v.symbols_match(Seq::empty(), entries_view(entries@)));
                return Ok(entries);
            },
            Err(e) => return Err(e),
        };
        let ghost mut done: Seq<int> = Seq::empty();
        let ghost good = v.node_props(o) matches Ok(ps) && v.symbols_readable(ps);
        assert(v.node_props(o) == prefix_props(done, v.props_from(cur.0 as int))) by {
            if let Ok(ps) = v.props_from(cur.0 as int) {
                assert(done + ps =~= ps);
            }
        }
        loop
            invariant
                self.wf(),
                v == self.view(),
                v.path_offset(symbols_path()) == Ok::<int, Error>(o),
                v.node_check(o) is Ok,
                v.is_prop(cur.0 as int),
                v.node_props(o) == prefix_props(done, v.props_from(cur.0 as int)),
                v.symbols_match(done, entries_view(entries@)),
                good == (v.node_props(o) matches Ok(ps) && v.symbols_readable(ps)),
                good ==> (v.props_from(cur.0 as int) matches Ok(rest) && v.symbols_readable(rest)),
            decreases v.struct_size - cur.0,
        {
            proof {
                lemma_props_from_first(v, cur.0 as int);
                if good {
                    let rest = v.props_from(cur.0 as int)->Ok_0;
                    assert(rest[0] == cur.0 as int);
                    assert(v.prop_check(rest[0]) is Ok && v.is_string(rest[0]));
                }
            }
            let prop = match self.get_property_by_offset(cur) {
                Ok(p) => p,
                Err(e) => return Err(e),
            };
            let value = match prop.data_as_str() {
                Ok(s) => s,
                Err(e) => return Err(e),
            };
            let name = prop.name.to_owned();
            let path = value.to_owned();
            let ghost before = entries_view(entries@);
            entries.push((name, path));
            let ghost old_done = done;
            proof {
                done = done.push(cur.0 as int);
                assert(entries_view(entries@) =~= before.push((name@, path@)));
                assert forall|i: int| 0 <= i < done.len() implies v.prop_name(#[trigger] done[i])
                    == Some(encode_utf8(entries_view(entries@)[i].0)) && c_string(
                    v.prop_data(done[i]),
                ) == Some(encode_utf8(entries_view(entries@)[i].1)) by {
                    if i < old_done.len() {
                        assert(done[i] == old_done[i]);
                    }
                }
                lemma_next_property_advances(v, cur.0 as int);
                lemma_next_tag_advances(v, cur.0 as int);
            }
            match self.next_property_offset(cur) {
                Ok(q) => {
                    proof {
                        if good {
                            let rest = v.props_from(cur.0 as int)->Ok_0;
                            let rest2 = v.props_from(q.0 as int)->Ok_0;
                            assert(rest == seq![cur.0 as int] + rest2);
                            assert forall|i: int| 0 <= i < rest2.len() implies v.prop_check(
                                #[trigger] rest2[i],
                            ) is Ok && v.is_string(rest2[i]) by {
                                assert(rest2[i] == rest[i + 1]);
                            }
                        }
                    }
                    assert(v.node_props(o) == prefix_props(done, v.props_from(q.0 as int))) by {
                        if let Ok(ps) = v.props_from(q.0 as int) {
                            assert(old_done + (seq![cur.0 as int] + ps) =~= done + ps);
                        }
                    }
                    cur = q;
                },
                Err(Error::NotFound) => {
                    assert(old_done + seq![cur.0 as int] =~= done);
                    return Ok(entries);
                },
                Err(e) => return Err(e),
            }
        }
    }
}

/// The first property of a walk is the one it starts from.
proof fn lemma_props_from_first(v: FdtView, p: int)
    ensures
        v.props_from(p) matches Ok(ps) ==> ps.len() > 0 && ps[0] == p,
{
}

/// The character sequences of symbol table entries.
pub open spec fn entries_view(entries: Seq<(String, String)>) -> Seq<(Seq<char>, Seq<char>)> {
    entries.map_values(|e: (String, String)| (e.0@, e.1@))
}

/// `done` put in front of the properties of `r`, where `r` succeeded.
pub open spec fn prefix_props(done: Seq<int>, r: Result<Seq<int>, Error>) -> Result<Seq<int>, Error> {
    match r {
        Ok(ps) => Ok(done + ps),
        Err(e) => Err(e),
    }
}

} // verus!
