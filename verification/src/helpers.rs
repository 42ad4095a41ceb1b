//! Small utilities.

use vstd::layout::layout_for_type_is_valid;
use vstd::layout::size_of;
use vstd::prelude::*;

verus! {

/// `Vec::capacity`: the number of elements the vector can hold without
/// allocating again. It is never less than the length, and a vector never
/// allocates more than `isize::MAX` bytes.
#[verifier::external_body]
fn capacity_of<T>(vec: &Vec<T>) -> (r: usize)
    ensures
        r >= vec@.len(),
        r * size_of::<T>() <= isize::MAX,
{
    vec.capacity()
}

/// The bytes that a vector with room for `capacity` elements takes up: its
/// header and its buffer.
pub open spec fn vec_footprint<T>(capacity: nat) -> nat {
    size_of::<Vec<T>>() + capacity * size_of::<T>()
}

/// The bytes that a vector with room for `capacity` elements takes up.
pub fn size_with_capacity<T>(capacity: usize) -> (r: usize)
    requires
        capacity * size_of::<T>() <= isize::MAX,
    ensures
        r == vec_footprint::<T>(capacity as nat),
{
    layout_for_type_is_valid::<Vec<T>>();
    layout_for_type_is_valid::<T>();
    core::mem::size_of::<Vec<T>>() + capacity * core::mem::size_of::<T>()
}

/// The bytes that `vec` takes up, counting the room it has allocated and not
/// yet filled.
pub fn size_of_vec<T>(vec: &Vec<T>) -> (r: usize)
    ensures
        exists|capacity: nat|
            capacity >= vec@.len() && r == #[trigger] vec_footprint::<T>(capacity),
{
    let capacity = capacity_of(vec);
    let r = size_with_capacity::<T>(capacity);
    proof {
        assert(r == vec_footprint::<T>(capacity as nat));
    }
    r
}

/// The greater of two numbers.
pub fn max(a: u64, b: u64) -> (r: u64)
    ensures
        r == if a >= b {
            a
        } else {
            b
        },
{
    if a >= b {
        a
    } else {
        b
    }
}

/// `entries` holds an entry under `key`.
pub open spec fn has_key<T>(entries: Seq<(String, Vec<T>)>, key: Seq<char>) -> bool {
    exists|i: int| 0 <= i < entries.len() && (#[trigger] entries[i]).0@ == key
}

/// No key occurs twice in `entries`.
pub open spec fn distinct_keys<T>(entries: Seq<(String, Vec<T>)>) -> bool {
    forall|i: int, j: int|
        0 <= i < entries.len() && 0 <= j < entries.len() && i != j ==> (#[trigger] entries[i]).0@
            != (#[trigger] entries[j]).0@
}

/// The values that `entries` holds under `key`; none where it holds no such
/// entry.
pub open spec fn values_at<T>(entries: Seq<(String, Vec<T>)>, key: Seq<char>) -> Seq<T> {
    if has_key(entries, key) {
        entries[choose|i: int| 0 <= i < entries.len() && (#[trigger] entries[i]).0@ == key].1@
    } else {
        Seq::empty()
    }
}

/// The values under `key` after merging: those of the first list, followed
/// by those of the second twice, where both hold the key; else those of the
/// list that holds it.
pub open spec fn merged_values<T>(
    h1: Seq<(String, Vec<T>)>,
    h2: Seq<(String, Vec<T>)>,
    key: Seq<char>,
) -> Seq<T> {
    if has_key(h1, key) {
        values_at(h1, key) + values_at(h2, key) + values_at(h2, key)
    } else {
        values_at(h2, key)
    }
}

/// `copy` holds a clone of each value of `source`, in order.
pub open spec fn clone_of<T: Clone>(copy: Seq<T>, source: Seq<T>) -> bool {
    &&& copy.len() == source.len()
    &&& forall|k: int| 0 <= k < source.len() ==> cloned::<T>(source[k], #[trigger] copy[k])
}

/// Under the key of one of its entries, a list with distinct keys holds that
/// entry's values.
pub proof fn lemma_values_at_entry<T>(entries: Seq<(String, Vec<T>)>, i: int)
    requires
        distinct_keys(entries),
        0 <= i < entries.len(),
    ensures
        has_key(entries, entries[i].0@),
        values_at(entries, entries[i].0@) == entries[i].1@,
{
    let key = entries[i].0@;
    let found = choose|j: int| 0 <= j < entries.len() && (#[trigger] entries[j]).0@ == key;
    assert(found == i);
}

/// The index of the entry under `key`.
fn find_key<T>(entries: &Vec<(String, Vec<T>)>, key: &String) -> (r: Option<usize>)
    ensures
        match r {
            Some(i) => i < entries@.len() && entries@[i as int].0@ == key@,
            None => !has_key(entries@, key@),
        },
{
    let mut i: usize = 0;
    while i < entries.len()
        invariant
            0 <= i <= entries@.len(),
            forall|k: int| 0 <= k < i ==> (#[trigger] entries@[k]).0@ != key@,
        decreases entries@.len() - i,
    {
        if entries[i].0.eq(key) {
            return Some(i);
        }
        i = i + 1;
    }
    None
}

/// Merges two lists of values under distinct keys. A key that one list
/// holds keeps its values; a key that both hold gets the first list's values
/// followed by the second's twice. The keys of the first list come first, in
/// order.
pub fn merge_vector_hashmaps<T: Clone>(h1: &Vec<(String, Vec<T>)>, h2: &Vec<(String, Vec<T>)>) -> (r:
    Vec<(String, Vec<T>)>)
    requires
        distinct_keys(h1@),
        distinct_keys(h2@),
    ensures
        distinct_keys(r@),
        forall|key: Seq<char>| #[trigger] has_key(r@, key) <==> has_key(h1@, key) || has_key(h2@, key),
        forall|i: int|
            0 <= i < r@.len() ==> clone_of(
                (#[trigger] r@[i]).1@,
                merged_values(h1@, h2@, r@[i].0@),
            ),
{
    let mut hm: Vec<(String, Vec<T>)> = Vec::new();
    let mut a: usize = 0;
    while a < h1.len()
        invariant
            0 <= a <= h1@.len(),
            distinct_keys(h1@),
            distinct_keys(h2@),
            hm@.len() == a,
            forall|i: int| 0 <= i < a ==> (#[trigger] hm@[i]).0@ == h1@[i].0@,
            forall|i: int|
                0 <= i < a ==> clone_of((#[trigger] hm@[i]).1@, merged_values(h1@, h2@, hm@[i].0@)),
        decreases h1@.len() - a,
    {
        let key = h1[a].0.clone();
        let mut values = h1[a].1.clone();
        let ghost own = h1@[a as int].1@;
        proof {
            lemma_values_at_entry(h1@, a as int);
            assert(clone_of(values@, own));
        }
        match find_key(h2, &key) {
            Some(b) => {
                let ghost other = h2@[b as int].1@;
                let ghost first = values@;
                values.extend_from_slice(h2[b].1.as_slice());
                let ghost second = values@;
                values.extend_from_slice(h2[b].1.as_slice());
                proof {
                    lemma_values_at_entry(h2@, b as int);
                    let source = own + other + other;
                    assert(merged_values(h1@, h2@, key@) == source);
                    assert forall|k: int| 0 <= k < source.len() implies cloned::<T>(
                        source[k],
                        #[trigger] values@[k],
                    ) by {
                        if k < own.len() {
                            assert(values@[k] == second[k]);
                            assert(second[k] == first[k]);
                        } else if k < own.len() + other.len() {
                            assert(values@[k] == second[k]);
                        }
                    }
                }
            },
            None => {
                proof {
                    assert(values_at(h2@, key@) =~= Seq::<T>::empty());
                    assert(merged_values(h1@, h2@, key@) =~= own);
                }
            },
        }
        hm.push((key, values));
        a = a + 1;
    }
    let mut b: usize = 0;
    proof {
        assert forall|key: Seq<char>| #[trigger] has_key(hm@, key) <==> has_key(h1@, key) by {
            if has_key(hm@, key) {
                let i = choose|i: int| 0 <= i < hm@.len() && (#[trigger] hm@[i]).0@ == key;
                assert(h1@[i].0@ == key);
            }
            if has_key(h1@, key) {
                let i = choose|i: int| 0 <= i < h1@.len() && (#[trigger] h1@[i]).0@ == key;
                assert(hm@[i].0@ == key);
            }
        }
        assert(distinct_keys(hm@)) by {
            assert forall|i: int, j: int|
                0 <= i < hm@.len() && 0 <= j < hm@.len() && i != j implies (#[trigger] hm@[i]).0@
                != (#[trigger] hm@[j]).0@ by {
                assert(h1@[i].0@ != h1@[j].0@);
            }
        }
    }
    while b < h2.len()
        invariant
            0 <= b <= h2@.len(),
            distinct_keys(h1@),
            distinct_keys(h2@),
            distinct_keys(hm@),
            forall|key: Seq<char>| #[trigger]
                has_key(hm@, key) <==> has_key(h1@, key) || has_key(h2@.take(b as int), key),
            forall|i: int|
                0 <= i < hm@.len() ==> clone_of(
                    (#[trigger] hm@[i]).1@,
                    merged_values(h1@, h2@, hm@[i].0@),
                ),
        decreases h2@.len() - b,
    {
        let ghost before = hm@;
        let ghost key = h2@[b as int].0@;
        proof {
            lemma_values_at_entry(h2@, b as int);
            assert(h2@.take(b + 1).drop_last() =~= h2@.take(b as int));
            assert(has_key(h2@.take(b + 1), key)) by {
                assert(h2@.take(b + 1)[b as int].0@ == key);
            }
        }
        match find_key(&hm, &h2[b].0) {
            Some(_i) => {
                proof {
                    assert(!has_key(h2@.take(b as int), key)) by {
                        if has_key(h2@.take(b as int), key) {
                            let j = choose|j: int|
                                0 <= j < h2@.take(b as int).len() && (#[trigger] h2@.take(
                                    b as int,
                                )[j]).0@ == key;
                            assert(h2@[j].0@ == key);
                        }
                    }
                }
            },
            None => {
                let values = h2[b].1.clone();
                proof {
                    assert(!has_key(h1@, key));
                    assert(merged_values(h1@, h2@, key) == h2@[b as int].1@);
                    assert(clone_of(values@, h2@[b as int].1@));
                }
                hm.push((h2[b].0.clone(), values));
                proof {
                    assert forall|i: int, j: int|
                        0 <= i < hm@.len() && 0 <= j < hm@.len() && i != j implies (
                        #[trigger] hm@[i]).0@ != (#[trigger] hm@[j]).0@ by {
                        if i < before.len() && j < before.len() {
                            assert(before[i].0@ != before[j].0@);
                        } else if i < before.len() {
                            assert(before[i].0@ != key);
                        } else {
                            assert(before[j].0@ != key);
                        }
                    }
                }
            },
        }
        proof {
            assert forall|k: Seq<char>| #[trigger]
                has_key(hm@, k) <==> has_key(h1@, k) || has_key(h2@.take(b + 1), k) by {
                if has_key(hm@, k) {
                    let i = choose|i: int| 0 <= i < hm@.len() && (#[trigger] hm@[i]).0@ == k;
                    if i < before.len() {
                        assert(before[i].0@ == k);
                        assert(has_key(before, k));
                        if has_key(h2@.take(b as int), k) {
                            let j = choose|j: int|
                                0 <= j < h2@.take(b as int).len() && (#[trigger] h2@.take(
                                    b as int,
                                )[j]).0@ == k;
                            assert(h2@.take(b + 1)[j].0@ == k);
                        }
                    } else {
                        assert(k == key);
                    }
                }
                if has_key(h1@, k) {
                    assert(has_key(before, k));
                    let i = choose|i: int| 0 <= i < before.len() && (#[trigger] before[i]).0@ == k;
                    assert(hm@[i].0@ == k);
                }
                if has_key(h2@.take(b + 1), k) {
                    let j = choose|j: int|
                        0 <= j < h2@.take(b + 1).len() && (#[trigger] h2@.take(b + 1)[j]).0@ == k;
                    if j < b {
                        assert(h2@.take(b as int)[j].0@ == k);
                        assert(has_key(before, k));
                        let i = choose|i: int|
                            0 <= i < before.len() && (#[trigger] before[i]).0@ == k;
                        assert(hm@[i].0@ == k);
                    } else {
                        assert(k == key);
                        if has_key(before, k) {
                            let i = choose|i: int|
                                0 <= i < before.len() && (#[trigger] before[i]).0@ == k;
                            assert(hm@[i].0@ == k);
                        } else {
                            assert(hm@[hm@.len() - 1].0@ == k);
                        }
                    }
                }
            }
        }
        b = b + 1;
    }
    proof {
        assert(h2@.take(h2@.len() as int) =~= h2@);
    }
    hm
}

} // verus!
