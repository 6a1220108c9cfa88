//! The changes of a multiply-move: for each offset from the pointer, the
//! factor by which the current cell is added to the cell there.

use vstd::prelude::*;
use std::collections::HashMap;
use crate::bfir::Cell;
use crate::peephole::multiply::{bumped, change_at, without_key};
use crate::theorems::multiplying::{
    lemma_change_at, lemma_without_key, lemma_without_key_keeps, lemma_without_key_within,
};
use vstd::std_specs::hash::spec_keys_iter;
use vstd::std_specs::iter::IteratorSpec;

verus! {

/// Whether the offsets of a list of changes rise strictly.
pub open spec fn ascending(changes: Seq<(isize, Cell)>) -> bool {
    forall|i: int, j: int|
        0 <= i < j < changes.len() ==> (#[trigger] changes[i]).0 < (#[trigger] changes[j]).0
}

/// Whether a list holds the changes of a map, by rising offset.
pub open spec fn is_entries(list: Seq<(isize, Cell)>, changes: Map<isize, Cell>) -> bool {
    &&& ascending(list)
    &&& forall|i: int|
        0 <= i < list.len() ==> changes.contains_key((#[trigger] list[i]).0) && changes[list[i].0]
            == list[i].1
    &&& forall|key: isize| #[trigger]
        changes.contains_key(key) ==> exists|i: int| 0 <= i < list.len() && (#[trigger] list[i]).0 == key
}

/// The changes of a map as a list, by rising offset.
pub open spec fn entries(changes: Map<isize, Cell>) -> Seq<(isize, Cell)> {
    choose|list: Seq<(isize, Cell)>| is_entries(list, changes)
}

/// Two lists of the changes of one map are the same list.
pub proof fn lemma_entries_unique(
    a: Seq<(isize, Cell)>,
    b: Seq<(isize, Cell)>,
    changes: Map<isize, Cell>,
)
    requires
        is_entries(a, changes),
        is_entries(b, changes),
    ensures
        a == b,
    decreases a.len(),
{
    if a.len() == 0 {
        if b.len() > 0 {
            assert(changes.contains_key(b[0].0));
        }
        assert(a =~= b);
    } else {
        // the greatest offset stands last in both
        let last = a.last();
        assert(changes.contains_key(a[a.len() - 1].0));
        let at = choose|i: int| 0 <= i < b.len() && (#[trigger] b[i]).0 == last.0;
        if at < b.len() - 1 {
            let over = b[b.len() - 1];
            assert(b[at].0 < b[b.len() - 1].0);
            assert(changes.contains_key(over.0));
            let back = choose|i: int| 0 <= i < a.len() && (#[trigger] a[i]).0 == over.0;
            if back < a.len() - 1 {
                assert(a[back].0 < a[a.len() - 1].0);
            }
        }
        assert(b.last() == last);
        let rest = changes.remove(last.0);
        let front_a = a.drop_last();
        let front_b = b.drop_last();
        assert(is_entries(front_a, rest)) by {
            assert forall|i: int| 0 <= i < front_a.len() implies rest.contains_key(
                (#[trigger] front_a[i]).0,
            ) && rest[front_a[i].0] == front_a[i].1 by {
                assert(front_a[i] == a[i]);
                assert(a[i].0 < a[a.len() - 1].0);
            }
            assert forall|key: isize| #[trigger] rest.contains_key(key) implies exists|i: int|
                0 <= i < front_a.len() && (#[trigger] front_a[i]).0 == key by {
                assert(changes.contains_key(key));
                let i = choose|i: int| 0 <= i < a.len() && (#[trigger] a[i]).0 == key;
                assert(front_a[i] == a[i]);
            }
            assert forall|i: int, j: int| 0 <= i < j < front_a.len() implies (
            #[trigger] front_a[i]).0 < (#[trigger] front_a[j]).0 by {
                assert(front_a[i] == a[i]);
                assert(front_a[j] == a[j]);
            }
        }
        assert(is_entries(front_b, rest)) by {
            assert forall|i: int| 0 <= i < front_b.len() implies rest.contains_key(
                (#[trigger] front_b[i]).0,
            ) && rest[front_b[i].0] == front_b[i].1 by {
                assert(front_b[i] == b[i]);
                assert(b[i].0 < b[b.len() - 1].0);
            }
            assert forall|key: isize| #[trigger] rest.contains_key(key) implies exists|i: int|
                0 <= i < front_b.len() && (#[trigger] front_b[i]).0 == key by {
                assert(changes.contains_key(key));
                let i = choose|i: int| 0 <= i < b.len() && (#[trigger] b[i]).0 == key;
                assert(front_b[i] == b[i]);
            }
            assert forall|i: int, j: int| 0 <= i < j < front_b.len() implies (
            #[trigger] front_b[i]).0 < (#[trigger] front_b[j]).0 by {
                assert(front_b[i] == b[i]);
                assert(front_b[j] == b[j]);
            }
        }
        lemma_entries_unique(front_a, front_b, rest);
        assert(a =~= front_a.push(last));
        assert(b =~= front_b.push(last));
    }
}

/// A list that holds the changes of a map is the map's list.
pub proof fn lemma_is_entries(list: Seq<(isize, Cell)>, changes: Map<isize, Cell>)
    requires
        is_entries(list, changes),
    ensures
        entries(changes) == list,
{
    lemma_entries_unique(entries(changes), list, changes);
}

/// Puts a change for a new offset into a list at its place, and says
/// where that is.
pub fn insert_change(list: &mut Vec<(isize, Cell)>, key: isize, value: Cell) -> (at: usize)
    requires
        ascending(old(list)@),
        forall|i: int| 0 <= i < old(list).len() ==> (#[trigger] old(list)[i]).0 != key,
    ensures
        at <= old(list).len(),
        final(list)@ == old(list)@.insert(at as int, (key, value)),
        ascending(final(list)@),
{
    let mut at: usize = 0;
    while at < list.len() && list[at].0 < key
        invariant
            at <= list.len(),
            list@ == old(list)@,
            forall|i: int| 0 <= i < at ==> (#[trigger] list[i]).0 < key,
        decreases list.len() - at,
    {
        at += 1;
    }
    let ghost before = list@;
    list.insert(at, (key, value));
    proof {
        let after = list@;
        assert(after == before.insert(at as int, (key, value)));
        assert forall|i: int, j: int| 0 <= i < j < after.len() implies (#[trigger] after[i]).0 < (
        #[trigger] after[j]).0 by {
            if i < at && j > at {
                assert(after[i] == before[i]);
                assert(after[j] == before[j - 1]);
                if i < j - 1 {
                    assert(before[i].0 < before[j - 1].0);
                }
            } else if i < at && j < at {
                assert(after[i] == before[i]);
                assert(after[j] == before[j]);
            } else if i < at && j == at {
                assert(after[i] == before[i]);
            } else if i == at {
                assert(after[j] == before[j - 1]);
                if at < before.len() {
                    assert(before[at as int].0 != key);
                    if j - 1 > at {
                        assert(before[at as int].0 < before[j - 1].0);
                    }
                }
            } else {
                assert(after[i] == before[i - 1]);
                assert(after[j] == before[j - 1]);
            }
        }
    }
    at
}

/// Whether a list holds the changes of a map for the first `n` of some
/// keys and for no others, by rising offset.
#[verifier::opaque]
pub open spec fn holds_first(
    list: Seq<(isize, Cell)>,
    keys: Seq<isize>,
    n: int,
    changes: Map<isize, Cell>,
) -> bool {
    &&& ascending(list)
    &&& forall|i: int|
        0 <= i < list.len() ==> changes.contains_key((#[trigger] list[i]).0) && changes[list[i].0]
            == list[i].1
    &&& forall|i: int|
        0 <= i < list.len() ==> exists|j: int|
            0 <= j < n && j < keys.len() && #[trigger] keys[j] == (#[trigger] list[i]).0
    &&& forall|j: int|
        0 <= j < n && j < keys.len() ==> exists|i: int|
            0 <= i < list.len() && (#[trigger] list[i]).0 == #[trigger] keys[j]
}

proof fn lemma_holds_none(keys: Seq<isize>, changes: Map<isize, Cell>)
    ensures
        holds_first(Seq::empty(), keys, 0, changes),
{
    reveal(holds_first);
}

/// The next key is not yet in the list.
proof fn lemma_next_is_new(
    list: Seq<(isize, Cell)>,
    keys: Seq<isize>,
    n: int,
    changes: Map<isize, Cell>,
)
    requires
        holds_first(list, keys, n, changes),
        keys.no_duplicates(),
        0 <= n < keys.len(),
    ensures
        ascending(list),
        forall|i: int| 0 <= i < list.len() ==> (#[trigger] list[i]).0 != keys[n],
{
    reveal(holds_first);
    assert forall|i: int| 0 <= i < list.len() implies (#[trigger] list[i]).0 != keys[n] by {
        let j = choose|j: int| 0 <= j < n && j < keys.len() && #[trigger] keys[j] == list[i].0;
        assert(keys[j] != keys[n]);
    }
}

/// With the next key's change put in, the list holds one key more.
proof fn lemma_holds_next(
    before: Seq<(isize, Cell)>,
    at: int,
    keys: Seq<isize>,
    n: int,
    changes: Map<isize, Cell>,
)
    requires
        holds_first(before, keys, n, changes),
        0 <= n < keys.len(),
        0 <= at <= before.len(),
        changes.contains_key(keys[n]),
        ascending(before.insert(at, (keys[n], changes[keys[n]]))),
    ensures
        holds_first(before.insert(at, (keys[n], changes[keys[n]])), keys, n + 1, changes),
{
    reveal(holds_first);
    let added = (keys[n], changes[keys[n]]);
    let after = before.insert(at, added);
    assert forall|i: int| 0 <= i < after.len() implies changes.contains_key(
        (#[trigger] after[i]).0,
    ) && changes[after[i].0] == after[i].1 && exists|j: int|
        0 <= j < n + 1 && j < keys.len() && #[trigger] keys[j] == after[i].0 by {
        if i < at {
            assert(after[i] == before[i]);
            let j = choose|j: int|
                0 <= j < n && j < keys.len() && #[trigger] keys[j] == before[i].0;
            assert(0 <= j < n + 1 && keys[j] == after[i].0);
        } else if i == at {
            assert(after[i] == added);
            assert(keys[n] == after[i].0);
        } else {
            assert(after[i] == before[i - 1]);
            let j = choose|j: int|
                0 <= j < n && j < keys.len() && #[trigger] keys[j] == before[i - 1].0;
            assert(0 <= j < n + 1 && keys[j] == after[i].0);
        }
    }
    assert forall|j: int| 0 <= j < n + 1 && j < keys.len() implies exists|i: int|
        0 <= i < after.len() && (#[trigger] after[i]).0 == #[trigger] keys[j] by {
        if j < n {
            let k = choose|k: int| 0 <= k < before.len() && (#[trigger] before[k]).0 == keys[j];
            if k < at {
                assert(after[k] == before[k]);
                assert(after[k].0 == keys[j]);
            } else {
                assert(after[k + 1] == before[k]);
                assert(after[k + 1].0 == keys[j]);
            }
        } else {
            assert(after[at] == added);
            assert(after[at].0 == keys[j]);
        }
    }
}

/// A list that holds the changes for all keys of a map is the map's list.
proof fn lemma_holds_all(list: Seq<(isize, Cell)>, keys: Seq<isize>, changes: Map<isize, Cell>)
    requires
        holds_first(list, keys, keys.len() as int, changes),
        keys.to_set() == changes.dom(),
    ensures
        list == entries(changes),
{
    reveal(holds_first);
    assert forall|key: isize| #[trigger] changes.contains_key(key) implies exists|i: int|
        0 <= i < list.len() && (#[trigger] list[i]).0 == key by {
        assert(keys.to_set().contains(key));
        let j = choose|j: int| 0 <= j < keys.len() && keys[j] == key;
        assert(keys[j] == key);
    }
    lemma_is_entries(list, changes);
}

/// The changes of a map as a list, by rising offset.
pub fn entries_of(changes: &HashMap<isize, Cell>) -> (list: Vec<(isize, Cell)>)
    ensures
        list@ == entries(changes@),
{
    let mut list: Vec<(isize, Cell)> = Vec::new();
    let ghost keys = spec_keys_iter(changes).remaining();
    proof {
        lemma_holds_none(keys.unref(), changes@);
    }
    for key in it: changes.keys()
        invariant
            it.seq() == keys,
            keys == spec_keys_iter(changes).remaining(),
            holds_first(list@, keys.unref(), it.index(), changes@),
    {
        let ghost at = it.index();
        let ghost before = list@;
        proof {
            assert(keys.no_duplicates());
            assert(keys.unref()[at] == *key);
            assert(keys.unref().to_set().contains(*key));
            lemma_unref_distinct(keys);
            lemma_next_is_new(before, keys.unref(), at, changes@);
        }
        match changes.get(key) {
            Some(value) => {
                let put = insert_change(&mut list, *key, *value);
                proof {
                    lemma_holds_next(before, put as int, keys.unref(), at, changes@);
                }
            },
            None => {},
        }
    }
    proof {
        lemma_holds_all(list@, keys.unref(), changes@);
    }
    list
}

/// Keys that differ as they are handed out differ as numbers.
proof fn lemma_unref_distinct(keys: Seq<&isize>)
    requires
        keys.no_duplicates(),
    ensures
        keys.unref().no_duplicates(),
{
    assert forall|i: int, j: int|
        0 <= i < keys.unref().len() && 0 <= j < keys.unref().len() && i != j implies keys.unref()[i]
        != keys.unref()[j] by {
        assert(keys[i] != keys[j]);
    }
}

/// Adding to a change puts it in at the place of the first offset that
/// is not less, or adds to the change that stands there.
pub proof fn lemma_bumped_form(list: Seq<(isize, Cell)>, key: isize, amount: Cell) -> (at: int)
    ensures
        0 <= at <= list.len(),
        forall|i: int| 0 <= i < at ==> (#[trigger] list[i]).0 < key,
        at < list.len() ==> list[at].0 >= key,
        bumped(list, key, amount) == if at < list.len() && list[at].0 == key {
            list.update(at, (key, list[at].1.wrapping_add(amount)))
        } else {
            list.insert(at, (key, amount))
        },
    decreases list.len(),
{
    if list.len() == 0 {
        assert(bumped(list, key, amount) =~= list.insert(0, (key, amount)));
        0
    } else if list[0].0 == key {
        assert(bumped(list, key, amount) =~= list.update(
            0,
            (key, list[0].1.wrapping_add(amount)),
        ));
        0
    } else if list[0].0 > key {
        assert(bumped(list, key, amount) =~= list.insert(0, (key, amount)));
        0
    } else {
        let rest = list.drop_first();
        let at = lemma_bumped_form(rest, key, amount);
        assert forall|i: int| 0 <= i < at + 1 implies (#[trigger] list[i]).0 < key by {
            if i > 0 {
                assert(rest[i - 1] == list[i]);
            }
        }
        if at < rest.len() {
            assert(rest[at] == list[at + 1]);
        }
        if at < rest.len() && rest[at].0 == key {
            assert(seq![list[0]] + rest.update(at, (key, rest[at].1.wrapping_add(amount)))
                =~= list.update(at + 1, (key, list[at + 1].1.wrapping_add(amount))));
        } else {
            assert(seq![list[0]] + rest.insert(at, (key, amount)) =~= list.insert(
                at + 1,
                (key, amount),
            ));
        }
        at + 1
    }
}

/// What a map holds for an offset, or zero.
pub open spec fn held(changes: Map<isize, Cell>, key: isize) -> Cell {
    if changes.contains_key(key) {
        changes[key]
    } else {
        0
    }
}

/// Adding to a change in the map is adding to it in the list.
pub proof fn lemma_entries_bumped(
    list: Seq<(isize, Cell)>,
    changes: Map<isize, Cell>,
    key: isize,
    amount: Cell,
)
    requires
        is_entries(list, changes),
    ensures
        is_entries(
            bumped(list, key, amount),
            changes.insert(key, held(changes, key).wrapping_add(amount)),
        ),
{
    let at = lemma_bumped_form(list, key, amount);
    let after = bumped(list, key, amount);
    let more = changes.insert(key, held(changes, key).wrapping_add(amount));
    if at < list.len() && list[at].0 == key {
        assert(changes.contains_key(list[at].0));
        assert forall|i: int, j: int| 0 <= i < j < after.len() implies (#[trigger] after[i]).0 < (
        #[trigger] after[j]).0 by {
            assert(list[i].0 < list[j].0);
        }
        assert forall|i: int| 0 <= i < after.len() implies more.contains_key(
            (#[trigger] after[i]).0,
        ) && more[after[i].0] == after[i].1 by {
            assert(changes.contains_key(list[i].0));
            if i != at {
                if i < at {
                    assert(list[i].0 < list[at].0);
                } else {
                    assert(list[at].0 < list[i].0);
                }
            }
        }
        assert forall|other: isize| #[trigger] more.contains_key(other) implies exists|i: int|
            0 <= i < after.len() && (#[trigger] after[i]).0 == other by {
            if other == key {
                assert(after[at].0 == other);
            } else {
                assert(changes.contains_key(other));
                let i = choose|i: int| 0 <= i < list.len() && (#[trigger] list[i]).0 == other;
                assert(after[i].0 == other);
            }
        }
    } else {
        if changes.contains_key(key) {
            let i = choose|i: int| 0 <= i < list.len() && (#[trigger] list[i]).0 == key;
            if i >= at {
                if i > at {
                    assert(list[at].0 < list[i].0);
                }
            }
        }
        assert forall|i: int, j: int| 0 <= i < j < after.len() implies (#[trigger] after[i]).0 < (
        #[trigger] after[j]).0 by {
            if j < at {
                assert(list[i].0 < list[j].0);
            } else if j == at {
                assert(after[i] == list[i]);
            } else if i == at {
                assert(after[j] == list[j - 1]);
                if j - 1 > at {
                    assert(list[at].0 < list[j - 1].0);
                }
            } else if i < at {
                assert(after[i] == list[i]);
                assert(after[j] == list[j - 1]);
                if i < j - 1 {
                    assert(list[i].0 < list[j - 1].0);
                }
            } else {
                assert(after[i] == list[i - 1]);
                assert(after[j] == list[j - 1]);
                assert(list[i - 1].0 < list[j - 1].0);
            }
        }
        assert forall|i: int| 0 <= i < after.len() implies more.contains_key(
            (#[trigger] after[i]).0,
        ) && more[after[i].0] == after[i].1 by {
            if i < at {
                assert(after[i] == list[i]);
                assert(changes.contains_key(list[i].0));
            } else if i > at {
                assert(after[i] == list[i - 1]);
                assert(changes.contains_key(list[i - 1].0));
                if i - 1 > at {
                    assert(list[at].0 < list[i - 1].0);
                }
            }
        }
        assert forall|other: isize| #[trigger] more.contains_key(other) implies exists|i: int|
            0 <= i < after.len() && (#[trigger] after[i]).0 == other by {
            if other == key {
                assert(after[at].0 == other);
            } else {
                assert(changes.contains_key(other));
                let i = choose|i: int| 0 <= i < list.len() && (#[trigger] list[i]).0 == other;
                if i < at {
                    assert(after[i] == list[i]);
                } else {
                    assert(after[i + 1] == list[i]);
                }
            }
        }
    }
}

/// What the map holds for an offset is what the list holds for it.
pub proof fn lemma_entries_lookup(
    list: Seq<(isize, Cell)>,
    changes: Map<isize, Cell>,
    key: isize,
)
    requires
        is_entries(list, changes),
    ensures
        change_at(list, key) == if changes.contains_key(key) {
            Some(changes[key])
        } else {
            None
        },
{
    lemma_change_at(list, key);
    match change_at(list, key) {
        Some(amount) => {
            let i = choose|i: int|
                0 <= i < list.len() && #[trigger] list[i] == (key, amount) && key == list[i].0;
            assert(changes.contains_key(list[i].0));
        },
        None => {
            if changes.contains_key(key) {
                let i = choose|i: int| 0 <= i < list.len() && (#[trigger] list[i]).0 == key;
                assert(list[i].0 == key);
            }
        },
    }
}

/// Taking an offset out of the map is taking it out of the list.
pub proof fn lemma_entries_removed(
    list: Seq<(isize, Cell)>,
    changes: Map<isize, Cell>,
    key: isize,
)
    requires
        is_entries(list, changes),
    ensures
        is_entries(without_key(list, key), changes.remove(key)),
{
    let out = without_key(list, key);
    let fewer = changes.remove(key);
    lemma_without_key(list, key);
    assert forall|i: int| 0 <= i < out.len() implies fewer.contains_key((#[trigger] out[i]).0)
        && fewer[out[i].0] == out[i].1 by {
        let j = lemma_without_key_within(list, key, i);
        assert(changes.contains_key(list[j].0));
    }
    assert forall|other: isize| #[trigger] fewer.contains_key(other) implies exists|i: int|
        0 <= i < out.len() && (#[trigger] out[i]).0 == other by {
        assert(changes.contains_key(other));
        let j = choose|j: int| 0 <= j < list.len() && (#[trigger] list[j]).0 == other;
        let i = lemma_without_key_keeps(list, key, j);
        assert(out[i].0 == other);
    }
}

/// A map has as many offsets as its list has changes.
pub proof fn lemma_entries_len(list: Seq<(isize, Cell)>, changes: Map<isize, Cell>)
    requires
        is_entries(list, changes),
        changes.dom().finite(),
    ensures
        changes.dom().len() == list.len(),
    decreases list.len(),
{
    if list.len() == 0 {
        assert(changes.dom() =~= Set::<isize>::empty());
    } else {
        let last = list.last();
        let front = list.drop_last();
        let rest = changes.remove(last.0);
        assert(changes.contains_key(list[list.len() - 1].0));
        assert(is_entries(front, rest)) by {
            assert forall|i: int| 0 <= i < front.len() implies rest.contains_key(
                (#[trigger] front[i]).0,
            ) && rest[front[i].0] == front[i].1 by {
                assert(front[i] == list[i]);
                assert(list[i].0 < list[list.len() - 1].0);
                assert(changes.contains_key(list[i].0));
            }
            assert forall|key: isize| #[trigger] rest.contains_key(key) implies exists|i: int|
                0 <= i < front.len() && (#[trigger] front[i]).0 == key by {
                assert(changes.contains_key(key));
                let i = choose|i: int| 0 <= i < list.len() && (#[trigger] list[i]).0 == key;
                assert(front[i] == list[i]);
            }
            assert forall|i: int, j: int| 0 <= i < j < front.len() implies (#[trigger] front[i]).0
                < (#[trigger] front[j]).0 by {
                assert(front[i] == list[i]);
                assert(front[j] == list[j]);
            }
        }
        lemma_entries_len(front, rest);
        assert(rest.dom() =~= changes.dom().remove(last.0));
    }
}

} // verus!
