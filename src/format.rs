//! Byte-level building blocks of the blob format: big-endian cells,
//! NUL-terminated strings and 4-byte padding.
use vstd::prelude::*;
use vstd::string::StringSliceAdditionalSpecFns;
use vstd::utf8::valid_utf8;

verus! {

/// Token that opens a node; a NUL-terminated name follows it.
pub const FDT_BEGIN_NODE: u32 = 1;

/// Token that closes a node.
pub const FDT_END_NODE: u32 = 2;

/// Token of a property; its byte length and its name's offset in the strings block follow it.
pub const FDT_PROP: u32 = 3;

/// Padding token.
pub const FDT_NOP: u32 = 4;

/// Token that ends the structure block.
pub const FDT_END: u32 = 9;

/// The big-endian 32-bit value held by the four bytes of `s` from `i` on.
pub open spec fn be32(s: Seq<u8>, i: int) -> u32 {
    (s[i] as int * 0x1000000 + s[i + 1] as int * 0x10000 + s[i + 2] as int * 0x100
        + s[i + 3] as int) as u32
}

/// The smallest multiple of four that is not below `x`.
pub open spec fn align4(x: int) -> int {
    (x + 3) / 4 * 4
}

/// The position of the first NUL byte of `s` in `[from, to)`, if there is one.
pub open spec fn nul_index(s: Seq<u8>, from: int, to: int) -> Option<int>
    decreases to - from,
{
    if from >= to {
        None
    } else if s[from] == 0 {
        Some(from)
    } else {
        nul_index(s, from + 1, to)
    }
}

/// A NUL found by `nul_index` lies in the range searched, and no NUL comes before it.
pub proof fn lemma_nul_index(s: Seq<u8>, from: int, to: int)
    ensures
        nul_index(s, from, to) matches Some(p) ==> from <= p < to && s[p] == 0 && forall|k: int|
            from <= k < p ==> s[k] != 0,
        nul_index(s, from, to) is None ==> forall|k: int| from <= k < to ==> s[k] != 0,
    decreases to - from,
{
    if from < to && s[from] != 0 {
        lemma_nul_index(s, from + 1, to);
    }
}

/// Reads the big-endian 32-bit value at `i`.
pub fn read_be32(b: &[u8], i: usize) -> (r: u32)
    requires
        i + 4 <= b@.len(),
    ensures
        r == be32(b@, i as int),
{
    let r = (b[i] as u32) * 0x1000000 + (b[i + 1] as u32) * 0x10000 + (b[i + 2] as u32) * 0x100
        + (b[i + 3] as u32);
    r
}

/// Finds the first NUL byte of `b` in `[from, to)`.
pub fn find_nul(b: &[u8], from: usize, to: usize) -> (r: Option<usize>)
    requires
        to <= b@.len(),
    ensures
        r == (match nul_index(b@, from as int, to as int) {
            Some(p) => Some(p as usize),
            None => None::<usize>,
        }),
{
    let mut i = from;
    while i < to
        invariant
            to <= b@.len(),
            from <= i,
            i < to ==> nul_index(b@, from as int, to as int) == nul_index(b@, i as int, to as int),
            i >= to ==> nul_index(b@, from as int, to as int) is None,
        decreases to - i,
    {
        if b[i] == 0 {
            return Some(i);
        }
        i = i + 1;
    }
    None
}

/// Whether the bytes of `b` in `[start, end)` are exactly `name`.
pub fn range_eq(b: &[u8], start: usize, end: usize, name: &[u8]) -> (r: bool)
    requires
        start <= end <= b@.len(),
    ensures
        r == (b@.subrange(start as int, end as int) == name@),
{
    if end - start != name.len() {
        return false;
    }
    let mut i: usize = 0;
    while i < name.len()
        invariant
            start <= end <= b@.len(),
            end - start == name@.len(),
            0 <= i <= name@.len(),
            forall|k: int| 0 <= k < i ==> b@[start + k] == name@[k],
        decreases name@.len() - i,
    {
        if b[start + i] != name[i] {
            return false;
        }
        i = i + 1;
    }
    assert(b@.subrange(start as int, end as int) =~= name@);
    true
}

/// Relies on `core::str::from_utf8`: it succeeds exactly on valid UTF-8,
/// and the string it gives is made of the same bytes.
#[verifier::external_body]
pub(crate) fn utf8(b: &[u8]) -> (r: Option<&str>)
    ensures
        r is Some <==> valid_utf8(b@),
        r matches Some(s) ==> s.spec_bytes() == b@,
{
    core::str::from_utf8(b).ok()
}

/// Relies on `usize`'s `Hash` impl, used to hash node handles by offset;
/// nothing is assumed of what it feeds the hasher.
pub assume_specification<H: core::hash::Hasher>[ <usize as core::hash::Hash>::hash::<H> ](
    data: &usize,
    state: &mut H,
);

/// Relies on `str`'s `Hash` impl, used to hash conventions by name; nothing
/// is assumed of what it feeds the hasher.
pub assume_specification<H: core::hash::Hasher>[ <str as core::hash::Hash>::hash::<H> ](
    data: &str,
    state: &mut H,
);

/// Whether the NUL-terminated string list `list` holds the string `s`.
pub open spec fn strlist_contains(list: Seq<u8>, s: Seq<u8>) -> bool
    decreases list.len(),
    via strlist_contains_decreases
{
    if list.len() == 0 {
        false
    } else if list.len() >= s.len() + 1 && list.subrange(0, s.len() as int) == s && list[s.len()
        as int] == 0 {
        true
    } else {
        match nul_index(list, 0, list.len() as int) {
            None => false,
            Some(p) => strlist_contains(list.subrange(p + 1, list.len() as int), s),
        }
    }
}

#[via_fn]
proof fn strlist_contains_decreases(list: Seq<u8>, s: Seq<u8>) {
    lemma_nul_index(list, 0, list.len() as int);
}

/// Whether the NUL-terminated string list held by `b` in `[a, e)` holds `s`.
pub fn range_strlist_contains(b: &[u8], a: usize, e: usize, s: &[u8]) -> (r: bool)
    requires
        a <= e <= b@.len(),
    ensures
        r == strlist_contains(b@.subrange(a as int, e as int), s@),
{
    let mut cur = a;
    while cur < e
        invariant
            a <= cur <= e <= b@.len(),
            strlist_contains(b@.subrange(a as int, e as int), s@) == strlist_contains(
                b@.subrange(cur as int, e as int),
                s@,
            ),
        decreases e - cur,
    {
        let ghost list = b@.subrange(cur as int, e as int);
        if e - cur > s.len() && b[cur + s.len()] == 0 && range_eq(b, cur, cur + s.len(), s) {
            assert(list.subrange(0, s@.len() as int) =~= b@.subrange(
                cur as int,
                cur + s@.len(),
            ));
            return true;
        }
        assert(!(list.len() >= s@.len() + 1 && list.subrange(0, s@.len() as int) == s@
            && list[s@.len() as int] == 0)) by {
            if list.len() >= s@.len() + 1 && list.subrange(0, s@.len() as int) == s@ {
                assert(list.subrange(0, s@.len() as int) =~= b@.subrange(
                    cur as int,
                    cur + s@.len(),
                ));
            }
        }
        match find_nul(b, cur, e) {
            None => {
                proof {
                    lemma_nul_shift(b@, cur as int, e as int);
                    crate::format::lemma_nul_index(b@, cur as int, e as int);
                }
                return false;
            },
            Some(p) => {
                proof {
                    lemma_nul_shift(b@, cur as int, e as int);
                    crate::format::lemma_nul_index(b@, cur as int, e as int);
                }
                assert(list.subrange(p - cur + 1, list.len() as int) =~= b@.subrange(
                    p + 1,
                    e as int,
                ));
                cur = p + 1;
            },
        }
    }
    false
}

/// Searching a sub-range from its start finds the same NUL, shifted.
pub proof fn lemma_nul_shift(s: Seq<u8>, from: int, to: int)
    requires
        0 <= from <= to <= s.len(),
    ensures
        nul_index(s.subrange(from, to), 0, to - from) == (match nul_index(s, from, to) {
            Some(p) => Some(p - from),
            None => None::<int>,
        }),
    decreases to - from,
{
    if from < to {
        lemma_nul_shift_at(s, from, to, from);
    }
}

proof fn lemma_nul_shift_at(s: Seq<u8>, from: int, to: int, i: int)
    requires
        0 <= from <= i <= to <= s.len(),
    ensures
        nul_index(s.subrange(from, to), i - from, to - from) == (match nul_index(s, i, to) {
            Some(p) => Some(p - from),
            None => None::<int>,
        }),
    decreases to - i,
{
    if i < to {
        lemma_nul_shift_at(s, from, to, i + 1);
    }
}

} // verus!
