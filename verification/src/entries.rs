//! Sequences of entries in the order of their keys, and the map that such a
//! sequence stands for.

use vstd::prelude::*;
use crate::order::{key_less, lemma_key_less_asymmetric, lemma_key_less_transitive};

verus! {

/// A key and its value.
pub type Entry = (Seq<u8>, Seq<u8>);

/// Whether the keys of the entries rise strictly.
pub open spec fn sorted(entries: Seq<Entry>) -> bool {
    forall|i: int, j: int|
        0 <= i < j < entries.len() ==> key_less(
            (#[trigger] entries[i]).0,
            (#[trigger] entries[j]).0,
        )
}

/// Whether an entry has the key at place `at`.
pub open spec fn found_at(entries: Seq<Entry>, key: Seq<u8>, at: int) -> bool {
    0 <= at < entries.len() && entries[at].0 == key
}

/// Whether one of the entries has the key.
pub open spec fn holds(entries: Seq<Entry>, key: Seq<u8>) -> bool {
    exists|at: int| found_at(entries, key, at)
}

/// The map from the keys of the entries to their values.
pub open spec fn entry_map(entries: Seq<Entry>) -> Map<Seq<u8>, Seq<u8>> {
    Map::new(
        |key: Seq<u8>| holds(entries, key),
        |key: Seq<u8>| entries[choose|at: int| found_at(entries, key, at)].1,
    )
}

/// In sorted entries a key stands at one place only, and the map gives it the
/// value that stands there.
pub proof fn lemma_entry_at(entries: Seq<Entry>, at: int)
    requires
        sorted(entries),
        0 <= at < entries.len(),
    ensures
        holds(entries, entries[at].0),
        entry_map(entries).dom().contains(entries[at].0),
        entry_map(entries)[entries[at].0] == entries[at].1,
{
    let key = entries[at].0;
    assert(found_at(entries, key, at));
    let chosen = choose|i: int| found_at(entries, key, i);
    if chosen < at {
        lemma_key_less_asymmetric(entries[chosen].0, entries[at].0);
    } else if chosen > at {
        lemma_key_less_asymmetric(entries[at].0, entries[chosen].0);
    }
}

/// The parts of sorted entries around one of them are sorted, with keys
/// before that entry's key on the left and after it on the right.
pub proof fn lemma_sorted_parts(left: Seq<Entry>, middle: Entry, right: Seq<Entry>)
    requires
        sorted(left + seq![middle] + right),
    ensures
        sorted(left),
        sorted(right),
        forall|i: int| 0 <= i < left.len() ==> key_less((#[trigger] left[i]).0, middle.0),
        forall|j: int| 0 <= j < right.len() ==> key_less(middle.0, (#[trigger] right[j]).0),
{
    let whole = left + seq![middle] + right;
    let n = left.len() as int;
    assert(whole[n] == middle);
    assert forall|i: int, j: int| 0 <= i < j < left.len() implies key_less(
        (#[trigger] left[i]).0,
        (#[trigger] left[j]).0,
    ) by {
        assert(whole[i] == left[i] && whole[j] == left[j]);
    }
    assert forall|i: int, j: int| 0 <= i < j < right.len() implies key_less(
        (#[trigger] right[i]).0,
        (#[trigger] right[j]).0,
    ) by {
        assert(whole[n + 1 + i] == right[i] && whole[n + 1 + j] == right[j]);
    }
    assert forall|i: int| 0 <= i < left.len() implies key_less(
        (#[trigger] left[i]).0,
        middle.0,
    ) by {
        assert(whole[i] == left[i]);
    }
    assert forall|j: int| 0 <= j < right.len() implies key_less(
        middle.0,
        (#[trigger] right[j]).0,
    ) by {
        assert(whole[n + 1 + j] == right[j]);
    }
}

/// Sorted entries with keys before a key, an entry with that key, and sorted
/// entries with keys after it are sorted together.
pub proof fn lemma_sorted_join(left: Seq<Entry>, middle: Entry, right: Seq<Entry>)
    requires
        sorted(left),
        sorted(right),
        forall|i: int| 0 <= i < left.len() ==> key_less((#[trigger] left[i]).0, middle.0),
        forall|j: int| 0 <= j < right.len() ==> key_less(middle.0, (#[trigger] right[j]).0),
    ensures
        sorted(left + seq![middle] + right),
{
    let whole = left + seq![middle] + right;
    let n = left.len() as int;
    assert forall|i: int, j: int| 0 <= i < j < whole.len() implies key_less(
        (#[trigger] whole[i]).0,
        (#[trigger] whole[j]).0,
    ) by {
        if j < n {
            assert(whole[i] == left[i] && whole[j] == left[j]);
        } else if j == n {
            assert(whole[i] == left[i]);
        } else if i < n {
            assert(whole[i] == left[i] && whole[j] == right[j - n - 1]);
            lemma_key_less_transitive(left[i].0, middle.0, right[j - n - 1].0);
        } else if i == n {
            assert(whole[j] == right[j - n - 1]);
        } else {
            assert(whole[i] == right[i - n - 1] && whole[j] == right[j - n - 1]);
        }
    }
}

/// Where a key stands among sorted entries around one of them: on the left
/// with a key before the middle one, in the middle, or on the right with a
/// key after it; and the map gives it the value of the part it stands in.
pub proof fn lemma_holds_around(left: Seq<Entry>, middle: Entry, right: Seq<Entry>, key: Seq<u8>)
    requires
        sorted(left + seq![middle] + right),
    ensures
        holds(left + seq![middle] + right, key) == (holds(left, key) || key == middle.0 || holds(
            right,
            key,
        )),
        holds(left, key) ==> key_less(key, middle.0) && entry_map(left + seq![middle] + right)[key]
            == entry_map(left)[key],
        holds(right, key) ==> key_less(middle.0, key) && entry_map(
            left + seq![middle] + right,
        )[key] == entry_map(right)[key],
        key == middle.0 ==> entry_map(left + seq![middle] + right)[key] == middle.1,
{
    let whole = left + seq![middle] + right;
    let n = left.len() as int;
    lemma_sorted_parts(left, middle, right);
    assert(whole[n] == middle);
    if holds(whole, key) {
        let at = choose|i: int| found_at(whole, key, i);
        if at < n {
            assert(found_at(left, key, at));
        } else if at > n {
            assert(found_at(right, key, at - n - 1));
        }
    }
    if holds(left, key) {
        let at = choose|i: int| found_at(left, key, i);
        assert(found_at(whole, key, at));
        lemma_entry_at(whole, at);
        lemma_entry_at(left, at);
    }
    if holds(right, key) {
        let at = choose|i: int| found_at(right, key, i);
        assert(found_at(whole, key, n + 1 + at));
        lemma_entry_at(whole, n + 1 + at);
        lemma_entry_at(right, at);
    }
    if key == middle.0 {
        assert(found_at(whole, key, n));
        lemma_entry_at(whole, n);
    }
}

/// No entries stand for the empty map.
pub proof fn lemma_no_entries()
    ensures
        sorted(Seq::<Entry>::empty()),
        entry_map(Seq::<Entry>::empty()) == Map::<Seq<u8>, Seq<u8>>::empty(),
{
    assert forall|k: Seq<u8>| !holds(Seq::<Entry>::empty(), k) by {
        if holds(Seq::<Entry>::empty(), k) {
            let at = choose|i: int| found_at(Seq::<Entry>::empty(), k, i);
        }
    }
    assert(entry_map(Seq::<Entry>::empty()) =~= Map::<Seq<u8>, Seq<u8>>::empty());
}

/// A single entry is sorted and stands for the map of its key to its value.
pub proof fn lemma_single_entry(key: Seq<u8>, value: Seq<u8>)
    ensures
        sorted(seq![(key, value)]),
        entry_map(seq![(key, value)]) == Map::<Seq<u8>, Seq<u8>>::empty().insert(key, value),
{
    let one = seq![(key, value)];
    assert(found_at(one, key, 0));
    lemma_entry_at(one, 0);
    assert forall|k: Seq<u8>| holds(one, k) implies k == key by {
        let at = choose|i: int| found_at(one, k, i);
    }
    assert(entry_map(one) =~= Map::<Seq<u8>, Seq<u8>>::empty().insert(key, value));
}

/// Replacing one side of sorted entries by that side with a key set to a
/// value, where the key belongs on that side, sets the key to the value in the
/// whole. `side_left` says which side was replaced.
pub proof fn lemma_set_on_side(
    left: Seq<Entry>,
    middle: Entry,
    right: Seq<Entry>,
    changed: Seq<Entry>,
    key: Seq<u8>,
    value: Seq<u8>,
    side_left: bool,
)
    requires
        sorted(left + seq![middle] + right),
        sorted(changed),
        if side_left {
            key_less(key, middle.0) && entry_map(changed) == entry_map(left).insert(key, value)
        } else {
            key_less(middle.0, key) && entry_map(changed) == entry_map(right).insert(key, value)
        },
    ensures
        ({
            let after = if side_left {
                changed + seq![middle] + right
            } else {
                left + seq![middle] + changed
            };
            sorted(after) && entry_map(after) == entry_map(left + seq![middle] + right).insert(
                key,
                value,
            )
        }),
{
    let before = left + seq![middle] + right;
    let after = if side_left {
        changed + seq![middle] + right
    } else {
        left + seq![middle] + changed
    };
    lemma_sorted_parts(left, middle, right);
    if side_left {
        assert forall|i: int| 0 <= i < changed.len() implies key_less(
            (#[trigger] changed[i]).0,
            middle.0,
        ) by {
            lemma_entry_at(changed, i);
            let k = changed[i].0;
            assert(entry_map(changed).dom().contains(k));
            if k != key {
                assert(entry_map(left).dom().contains(k));
                let at = choose|j: int| found_at(left, k, j);
                assert(left[at].0 == k);
            }
        }
        lemma_sorted_join(changed, middle, right);
    } else {
        assert forall|i: int| 0 <= i < changed.len() implies key_less(
            middle.0,
            (#[trigger] changed[i]).0,
        ) by {
            lemma_entry_at(changed, i);
            let k = changed[i].0;
            assert(entry_map(changed).dom().contains(k));
            if k != key {
                assert(entry_map(right).dom().contains(k));
                let at = choose|j: int| found_at(right, k, j);
                assert(right[at].0 == k);
            }
        }
        lemma_sorted_join(left, middle, changed);
    }
    lemma_key_less_asymmetric(key, middle.0);
    lemma_key_less_asymmetric(middle.0, key);
    let goal = entry_map(before).insert(key, value);
    assert forall|k: Seq<u8>|
        #![trigger entry_map(after).dom().contains(k)]
        #![trigger goal.dom().contains(k)]
        entry_map(after).dom().contains(k) == goal.dom().contains(k) && (entry_map(
            after,
        ).dom().contains(k) ==> entry_map(after)[k] == goal[k]) by {
        lemma_holds_around(left, middle, right, k);
        if side_left {
            lemma_holds_around(changed, middle, right, k);
            assert(holds(changed, k) == entry_map(changed).dom().contains(k));
            assert(holds(left, k) == entry_map(left).dom().contains(k));
            if holds(right, k) || k == middle.0 {
                if k == key {
                    lemma_key_less_transitive(key, middle.0, k);
                    lemma_key_less_asymmetric(key, k);
                }
                if holds(changed, k) {
                    lemma_key_less_asymmetric(k, middle.0);
                    if holds(right, k) {
                        lemma_key_less_transitive(k, middle.0, k);
                    }
                }
            }
        } else {
            lemma_holds_around(left, middle, changed, k);
            assert(holds(changed, k) == entry_map(changed).dom().contains(k));
            assert(holds(right, k) == entry_map(right).dom().contains(k));
            if holds(left, k) || k == middle.0 {
                if k == key {
                    lemma_key_less_transitive(k, middle.0, key);
                    lemma_key_less_asymmetric(key, k);
                }
                if holds(changed, k) {
                    lemma_key_less_asymmetric(middle.0, k);
                    if holds(left, k) {
                        lemma_key_less_transitive(k, middle.0, k);
                    }
                }
            }
        }
    }
    assert(entry_map(after) =~= goal);
}

/// Giving the middle one of sorted entries another value keeps them sorted
/// and sets its key to that value.
pub proof fn lemma_set_in_middle(
    left: Seq<Entry>,
    middle: Entry,
    right: Seq<Entry>,
    value: Seq<u8>,
)
    requires
        sorted(left + seq![middle] + right),
    ensures
        sorted(left + seq![(middle.0, value)] + right),
        entry_map(left + seq![(middle.0, value)] + right) == entry_map(
            left + seq![middle] + right,
        ).insert(middle.0, value),
{
    let before = left + seq![middle] + right;
    let after = left + seq![(middle.0, value)] + right;
    lemma_sorted_parts(left, middle, right);
    lemma_sorted_join(left, (middle.0, value), right);
    let goal = entry_map(before).insert(middle.0, value);
    assert forall|k: Seq<u8>|
        #![trigger entry_map(after).dom().contains(k)]
        #![trigger goal.dom().contains(k)]
        entry_map(after).dom().contains(k) == goal.dom().contains(k) && (entry_map(
            after,
        ).dom().contains(k) ==> entry_map(after)[k] == goal[k]) by {
        lemma_holds_around(left, middle, right, k);
        lemma_holds_around(left, (middle.0, value), right, k);
        if k == middle.0 {
        } else if holds(left, k) {
            if holds(right, k) {
                lemma_key_less_transitive(k, middle.0, k);
                lemma_key_less_asymmetric(k, k);
            }
        }
    }
    assert(entry_map(after) =~= goal);
}

/// Among sorted entries around one of them, a key before the middle one is
/// held only on the left, and a key after it only on the right.
pub proof fn lemma_lookup_on_side(
    left: Seq<Entry>,
    middle: Entry,
    right: Seq<Entry>,
    key: Seq<u8>,
    side_left: bool,
)
    requires
        sorted(left + seq![middle] + right),
        if side_left {
            key_less(key, middle.0)
        } else {
            key_less(middle.0, key)
        },
    ensures
        ({
            let whole = entry_map(left + seq![middle] + right);
            let side = entry_map(
                if side_left {
                    left
                } else {
                    right
                },
            );
            whole.dom().contains(key) == side.dom().contains(key) && (whole.dom().contains(key)
                ==> whole[key] == side[key])
        }),
{
    lemma_holds_around(left, middle, right, key);
    lemma_key_less_asymmetric(key, middle.0);
    lemma_key_less_asymmetric(middle.0, key);
}

/// Whether every key of the entries is shorter than 256 bytes.
pub open spec fn short_keys(entries: Seq<Entry>) -> bool {
    forall|i: int| 0 <= i < entries.len() ==> (#[trigger] entries[i]).0.len() < 256
}

/// Sorted entries that stand for the map of entries with short keys and one
/// more short key have short keys.
pub proof fn lemma_short_keys_kept(
    before: Seq<Entry>,
    after: Seq<Entry>,
    key: Seq<u8>,
    value: Seq<u8>,
)
    requires
        sorted(after),
        short_keys(before),
        key.len() < 256,
        entry_map(after) == entry_map(before).insert(key, value),
    ensures
        short_keys(after),
{
    assert forall|i: int| 0 <= i < after.len() implies (#[trigger] after[i]).0.len() < 256 by {
        lemma_entry_at(after, i);
        let k = after[i].0;
        assert(entry_map(after).dom().contains(k));
        if k != key {
            assert(entry_map(before).dom().contains(k));
            let at = choose|j: int| found_at(before, k, j);
            assert(before[at].0 == k);
        }
    }
}

/// Sorted entries without one of them are sorted, and stand for the map
/// without that entry's key.
pub proof fn lemma_remove_at(entries: Seq<Entry>, at: int)
    requires
        sorted(entries),
        0 <= at < entries.len(),
    ensures
        sorted(entries.remove(at)),
        entry_map(entries.remove(at)) == entry_map(entries).remove(entries[at].0),
        short_keys(entries) ==> short_keys(entries.remove(at)),
{
    let after = entries.remove(at);
    let key = entries[at].0;
    let goal = entry_map(entries).remove(key);
    assert forall|i: int, j: int| 0 <= i < j < after.len() implies key_less(
        (#[trigger] after[i]).0,
        (#[trigger] after[j]).0,
    ) by {
        let a = if i < at {
            i
        } else {
            i + 1
        };
        let b = if j < at {
            j
        } else {
            j + 1
        };
        assert(after[i] == entries[a] && after[j] == entries[b]);
    }
    assert forall|k: Seq<u8>|
        #![trigger entry_map(after).dom().contains(k)]
        #![trigger goal.dom().contains(k)]
        entry_map(after).dom().contains(k) == goal.dom().contains(k) && (entry_map(
            after,
        ).dom().contains(k) ==> entry_map(after)[k] == goal[k]) by {
        if holds(after, k) {
            let i = choose|i: int| found_at(after, k, i);
            let a = if i < at {
                i
            } else {
                i + 1
            };
            assert(after[i] == entries[a]);
            assert(found_at(entries, k, a));
            lemma_entry_at(after, i);
            lemma_entry_at(entries, a);
            if a < at {
                lemma_key_less_asymmetric(entries[a].0, entries[at].0);
            } else {
                lemma_key_less_asymmetric(entries[at].0, entries[a].0);
            }
        }
        if holds(entries, k) && k != key {
            let a = choose|a: int| found_at(entries, k, a);
            let i = if a < at {
                a
            } else {
                a - 1
            };
            assert(after[i] == entries[a]);
            assert(found_at(after, k, i));
        }
    }
    assert(entry_map(after) =~= goal);
    if short_keys(entries) {
        assert forall|i: int| 0 <= i < after.len() implies (#[trigger] after[i]).0.len()
            < 256 by {
            let a = if i < at {
                i
            } else {
                i + 1
            };
            assert(after[i] == entries[a]);
        }
    }
}

/// Replacing one side of sorted entries by that side without a key, where
/// the key belongs on that side, takes the key out of the whole.
pub proof fn lemma_unset_on_side(
    left: Seq<Entry>,
    middle: Entry,
    right: Seq<Entry>,
    changed: Seq<Entry>,
    key: Seq<u8>,
    side_left: bool,
)
    requires
        sorted(left + seq![middle] + right),
        sorted(changed),
        if side_left {
            key_less(key, middle.0) && entry_map(changed) == entry_map(left).remove(key)
        } else {
            key_less(middle.0, key) && entry_map(changed) == entry_map(right).remove(key)
        },
    ensures
        ({
            let after = if side_left {
                changed + seq![middle] + right
            } else {
                left + seq![middle] + changed
            };
            sorted(after) && entry_map(after) == entry_map(left + seq![middle] + right).remove(key)
                && (short_keys(left + seq![middle] + right) ==> short_keys(after))
        }),
{
    let before = left + seq![middle] + right;
    let after = if side_left {
        changed + seq![middle] + right
    } else {
        left + seq![middle] + changed
    };
    let side = if side_left {
        left
    } else {
        right
    };
    lemma_sorted_parts(left, middle, right);
    // every entry of the changed side was an entry of the side before
    assert forall|i: int| 0 <= i < changed.len() implies holds(side, (#[trigger] changed[i]).0)
        && (if side_left {
        key_less(changed[i].0, middle.0)
    } else {
        key_less(middle.0, changed[i].0)
    }) by {
        lemma_entry_at(changed, i);
        let k = changed[i].0;
        assert(entry_map(changed).dom().contains(k));
        assert(entry_map(side).dom().contains(k));
        let at = choose|j: int| found_at(side, k, j);
        assert(side[at].0 == k);
    }
    if side_left {
        lemma_sorted_join(changed, middle, right);
    } else {
        lemma_sorted_join(left, middle, changed);
    }
    lemma_key_less_asymmetric(key, middle.0);
    lemma_key_less_asymmetric(middle.0, key);
    let goal = entry_map(before).remove(key);
    assert forall|k: Seq<u8>|
        #![trigger entry_map(after).dom().contains(k)]
        #![trigger goal.dom().contains(k)]
        entry_map(after).dom().contains(k) == goal.dom().contains(k) && (entry_map(
            after,
        ).dom().contains(k) ==> entry_map(after)[k] == goal[k]) by {
        lemma_holds_around(left, middle, right, k);
        if side_left {
            lemma_holds_around(changed, middle, right, k);
            assert(holds(changed, k) == entry_map(changed).dom().contains(k));
            assert(holds(left, k) == entry_map(left).dom().contains(k));
            if k == key && holds(right, k) {
                lemma_key_less_transitive(key, middle.0, k);
                lemma_key_less_asymmetric(key, k);
            }
            if holds(changed, k) && (holds(right, k) || k == middle.0) {
                lemma_key_less_asymmetric(k, middle.0);
                if holds(right, k) {
                    lemma_key_less_transitive(k, middle.0, k);
                }
            }
        } else {
            lemma_holds_around(left, middle, changed, k);
            assert(holds(changed, k) == entry_map(changed).dom().contains(k));
            assert(holds(right, k) == entry_map(right).dom().contains(k));
            if k == key && holds(left, k) {
                lemma_key_less_transitive(k, middle.0, key);
                lemma_key_less_asymmetric(key, k);
            }
            if holds(changed, k) && (holds(left, k) || k == middle.0) {
                lemma_key_less_asymmetric(middle.0, k);
                if holds(left, k) {
                    lemma_key_less_transitive(k, middle.0, k);
                }
            }
        }
    }
    assert(entry_map(after) =~= goal);
    if short_keys(before) {
        let n = left.len() as int;
        assert(before[n] == middle);
        assert forall|i: int| 0 <= i < after.len() implies (#[trigger] after[i]).0.len()
            < 256 by {
            if side_left {
                if i < changed.len() {
                    let wanted = changed[i].0;
                    let at = choose|j: int| found_at(left, wanted, j);
                    assert(before[at] == left[at]);
                } else if i > changed.len() {
                    assert(after[i] == right[i - changed.len() - 1]);
                    assert(before[n + 1 + (i - changed.len() - 1)] == right[i - changed.len()
                        - 1]);
                }
            } else {
                if i < n {
                    assert(before[i] == left[i]);
                } else if i > n {
                    let wanted = changed[i - n - 1].0;
                    let at = choose|j: int| found_at(right, wanted, j);
                    assert(before[n + 1 + at] == right[at]);
                }
            }
        }
    }
}

/// Entries that hold no entry with a key stand for a map that is the same
/// with that key taken out.
pub proof fn lemma_absent_key(entries: Seq<Entry>, key: Seq<u8>)
    requires
        !entry_map(entries).dom().contains(key),
    ensures
        entry_map(entries) == entry_map(entries).remove(key),
{
    assert(entry_map(entries) =~= entry_map(entries).remove(key));
}

} // verus!
