//! Which passes a pass specification names.

use vstd::prelude::*;
use vstd::string::StringSliceAdditionalSpecFns;
use vstd::utf8::encode_utf8;

verus! {

/// For each pass, whether it is run.
#[derive(Debug, Clone, Copy, PartialEq, Eq, Structural)]
pub struct Selection {
    pub combine_inc: bool,
    pub combine_ptr: bool,
    pub known_zero: bool,
    pub multiply: bool,
    pub zeroing_loop: bool,
    pub combine_set: bool,
    pub dead_loop: bool,
    pub redundant_set: bool,
    pub read_clobber: bool,
    pub pure_removal: bool,
    pub offset_sort: bool,
}

/// The comma between the names of passes.
pub const SEPARATOR: u8 = 44;

/// Whether the bytes from `from` up to `to` are one field of a
/// comma-separated list: they hold no comma, and a comma or an end of the
/// list stands on either side.
pub open spec fn is_field(list: Seq<u8>, from: int, to: int) -> bool {
    &&& 0 <= from <= to <= list.len()
    &&& (from == 0 || list[from - 1] == SEPARATOR)
    &&& (to == list.len() || list[to] == SEPARATOR)
    &&& forall|k: int| from <= k < to ==> #[trigger] list[k] != SEPARATOR
}

/// Whether `name` is one of the fields of a comma-separated list.
pub open spec fn lists(list: Seq<u8>, name: Seq<u8>) -> bool {
    exists|from: int, to: int| #[trigger] is_field(list, from, to) && list.subrange(from, to) == name
}

fn same_bytes(list: &[u8], from: usize, to: usize, name: &[u8]) -> (same: bool)
    requires
        from <= to <= list.len(),
    ensures
        same == (list@.subrange(from as int, to as int) == name@),
{
    if to - from != name.len() {
        return false;
    }
    let mut k: usize = 0;
    while k < name.len()
        invariant
            k <= name.len(),
            from <= to <= list.len(),
            to - from == name.len(),
            forall|j: int| 0 <= j < k ==> list@[from + j] == name@[j],
        decreases name.len() - k,
    {
        if list[from + k] != name[k] {
            assert(list@.subrange(from as int, to as int)[k as int] != name@[k as int]);
            return false;
        }
        k += 1;
    }
    assert(list@.subrange(from as int, to as int) =~= name@);
    true
}

/// Whether `name` is one of the fields of a comma-separated list.
pub fn names(list: &[u8], name: &[u8]) -> (found: bool)
    ensures
        found == lists(list@, name@),
{
    let mut from: usize = 0;
    loop
        invariant
            from <= list.len(),
            from == 0 || list@[from - 1] == SEPARATOR,
            forall|f: int, t: int|
                #[trigger] is_field(list@, f, t) && f < from ==> list@.subrange(f, t) != name@,
        decreases list.len() - from,
    {
        let mut to: usize = from;
        while to < list.len() && list[to] != SEPARATOR
            invariant
                from <= to <= list.len(),
                forall|k: int| from <= k < to ==> #[trigger] list@[k] != SEPARATOR,
            decreases list.len() - to,
        {
            to += 1;
        }
        assert(is_field(list@, from as int, to as int));
        if same_bytes(list, from, to, name) {
            return true;
        }
        proof {
            assert forall|f: int, t: int| #[trigger]
                is_field(list@, f, t) && f < to + 1 implies list@.subrange(f, t) != name@ by {
                if f >= from {
                    if f == from {
                        if t < to {
                            assert(list@[t] != SEPARATOR);
                        } else if t > to {
                            assert(list@[to as int] != SEPARATOR);
                        }
                    } else {
                        assert(list@[f - 1] != SEPARATOR);
                    }
                }
            }
        }
        if to == list.len() {
            proof {
                assert forall|f: int, t: int| #[trigger] is_field(list@, f, t) implies list@.subrange(
                    f,
                    t,
                ) != name@ by {}
            }
            return false;
        }
        from = to + 1;
    }
}

/// The passes that a specification selects: those whose names are among
/// its comma-separated fields; all of them if there is no specification.
/// Fields that name no pass select nothing.
pub open spec fn selected(pass_specification: Option<String>) -> Selection {
    match pass_specification {
        None => Selection {
            combine_inc: true,
            combine_ptr: true,
            known_zero: true,
            multiply: true,
            zeroing_loop: true,
            combine_set: true,
            dead_loop: true,
            redundant_set: true,
            read_clobber: true,
            pure_removal: true,
            offset_sort: true,
        },
        Some(text) => {
            let list = encode_utf8(text@);
            Selection {
                combine_inc: lists(list, encode_utf8("combine_inc"@)),
                combine_ptr: lists(list, encode_utf8("combine_ptr"@)),
                known_zero: lists(list, encode_utf8("known_zero"@)),
                multiply: lists(list, encode_utf8("multiply"@)),
                zeroing_loop: lists(list, encode_utf8("zeroing_loop"@)),
                combine_set: lists(list, encode_utf8("combine_set"@)),
                dead_loop: lists(list, encode_utf8("dead_loop"@)),
                redundant_set: lists(list, encode_utf8("redundant_set"@)),
                read_clobber: lists(list, encode_utf8("read_clobber"@)),
                pure_removal: lists(list, encode_utf8("pure_removal"@)),
                offset_sort: lists(list, encode_utf8("offset_sort"@)),
            }
        },
    }
}

/// The passes that a specification selects.
pub fn select_passes(pass_specification: &Option<String>) -> (passes: Selection)
    ensures
        passes == selected(*pass_specification),
{
    match pass_specification {
        None => Selection {
            combine_inc: true,
            combine_ptr: true,
            known_zero: true,
            multiply: true,
            zeroing_loop: true,
            combine_set: true,
            dead_loop: true,
            redundant_set: true,
            read_clobber: true,
            pure_removal: true,
            offset_sort: true,
        },
        Some(text) => {
            let list = text.as_str().as_bytes();
            Selection {
                combine_inc: names(list, "combine_inc".as_bytes()),
                combine_ptr: names(list, "combine_ptr".as_bytes()),
                known_zero: names(list, "known_zero".as_bytes()),
                multiply: names(list, "multiply".as_bytes()),
                zeroing_loop: names(list, "zeroing_loop".as_bytes()),
                combine_set: names(list, "combine_set".as_bytes()),
                dead_loop: names(list, "dead_loop".as_bytes()),
                redundant_set: names(list, "redundant_set".as_bytes()),
                read_clobber: names(list, "read_clobber".as_bytes()),
                pure_removal: names(list, "pure_removal".as_bytes()),
                offset_sort: names(list, "offset_sort".as_bytes()),
            }
        },
    }
}

} // verus!
