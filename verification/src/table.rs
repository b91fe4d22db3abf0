//! Tables keyed by names. They are association lists, so that contracts can say exactly
//! which entry a lookup finds and what an insertion replaces: the specifications of the
//! standard hashed and ordered maps cover lookups by integer keys, and these keys are
//! strings.
use vstd::prelude::*;

use crate::text::same_text;

verus! {

/// Whether `name` is a key of an association list.
pub open spec fn has_key<T>(list: Seq<(String, T)>, name: Seq<char>) -> bool {
    exists|i: int| 0 <= i < list.len() && list[i].0@ == name
}

/// `i` is the first position of `name` in an association list.
pub open spec fn key_first<T>(list: Seq<(String, T)>, name: Seq<char>, i: int) -> bool {
    &&& 0 <= i < list.len()
    &&& list[i].0@ == name
    &&& forall|j: int| 0 <= j < i ==> list[j].0@ != name
}

/// The value of the first entry for `name` in an association list, if there is one.
pub open spec fn lookup<T>(list: Seq<(String, T)>, name: Seq<char>) -> Option<T> {
    if has_key(list, name) {
        Some(list[choose|i: int| key_first(list, name, i)].1)
    } else {
        None
    }
}

/// The first position of a key is its only first position, and there the lookup finds
/// its value.
pub proof fn lemma_lookup_first<T>(list: Seq<(String, T)>, name: Seq<char>, i: int)
    requires
        key_first(list, name, i),
    ensures
        lookup(list, name) == Some(list[i].1),
{
    let j = choose|j: int| key_first(list, name, j);
    assert(key_first(list, name, j));
    if j < i {
        assert(list[j].0@ != name);
    } else if i < j {
        assert(list[i].0@ != name);
    }
}

/// The first position of `name` in an association list.
pub fn find_key<T>(list: &Vec<(String, T)>, name: &String) -> (r: Option<usize>)
    ensures
        r matches Some(i) ==> key_first(list@, name@, i as int),
        r is None ==> !has_key(list@, name@),
{
    let mut i: usize = 0;
    while i < list.len()
        invariant
            i <= list@.len(),
            forall|j: int| 0 <= j < i ==> list@[j].0@ != name@,
        decreases list.len() - i,
    {
        if same_text(&list[i].0, name) {
            return Some(i);
        }
        i = i + 1;
    }
    None
}

/// Sets the value of `name`: replaces the entry if the key is there, appends one otherwise.
pub fn insert_key<T>(list: &mut Vec<(String, T)>, name: String, value: T)
    ensures
        has_key(final(list)@, name@),
        forall|k: Seq<char>| has_key(old(list)@, k) ==> has_key(final(list)@, k),
        forall|k: Seq<char>| has_key(final(list)@, k) ==> has_key(old(list)@, k) || k == name@,
        final(list)@.len() == old(list)@.len() || final(list)@.len() == old(list)@.len() + 1,
        (exists|i: int|
            key_first(old(list)@, name@, i) && final(list)@ == old(list)@.update(i, (name, value)))
            || (!has_key(old(list)@, name@) && final(list)@ == old(list)@.push((name, value))),
{
    match find_key(list, &name) {
        Some(i) => {
            let ghost before = list@;
            list.set(i, (name, value));
            proof {
                assert(list@[i as int].0@ == before[i as int].0@);
                assert forall|k: Seq<char>| has_key(before, k) implies has_key(list@, k) by {
                    let j = choose|j: int| 0 <= j < before.len() && before[j].0@ == k;
                    assert(list@[j].0@ == k);
                }
                assert forall|k: Seq<char>| has_key(list@, k) implies has_key(before, k) || k
                    == name@ by {
                    let j = choose|j: int| 0 <= j < list@.len() && list@[j].0@ == k;
                    if j != i {
                        assert(before[j].0@ == k);
                    }
                }
            }
        },
        None => {
            let ghost before = list@;
            list.push((name, value));
            proof {
                let n = before.len() as int;
                assert(list@[n].0@ == name@);
                assert forall|k: Seq<char>| has_key(before, k) implies has_key(list@, k) by {
                    let j = choose|j: int| 0 <= j < before.len() && before[j].0@ == k;
                    assert(list@[j].0@ == k);
                }
                assert forall|k: Seq<char>| has_key(list@, k) implies has_key(before, k) || k
                    == name@ by {
                    let j = choose|j: int| 0 <= j < list@.len() && list@[j].0@ == k;
                    if j != n {
                        assert(before[j].0@ == k);
                    }
                }
            }
        },
    }
}

/// A key that occurs has a first position.
pub proof fn lemma_first_exists<T>(list: Seq<(String, T)>, name: Seq<char>, i: int)
    requires
        0 <= i < list.len(),
        list[i].0@ == name,
    ensures
        exists|j: int| key_first(list, name, j),
    decreases i,
{
    if exists|j: int| 0 <= j < i && list[j].0@ == name {
        let j = choose|j: int| 0 <= j < i && list[j].0@ == name;
        lemma_first_exists(list, name, j);
    } else {
        assert(key_first(list, name, i));
    }
}

/// After [`insert_key`], a lookup of the inserted key finds the new value, and a lookup of
/// any other key finds what it found before.
pub proof fn lemma_lookup_after_insert<T>(
    before: Seq<(String, T)>,
    after: Seq<(String, T)>,
    name: String,
    value: T,
    k: Seq<char>,
)
    requires
        (exists|i: int| key_first(before, name@, i) && after == before.update(i, (name, value)))
            || (!has_key(before, name@) && after == before.push((name, value))),
    ensures
        lookup(after, k) == if k == name@ {
            Some(value)
        } else {
            lookup(before, k)
        },
{
    if exists|i: int| key_first(before, name@, i) && after == before.update(i, (name, value)) {
        let i0 = choose|i: int| key_first(before, name@, i) && after == before.update(i, (name, value));
        if k == name@ {
            assert(key_first(after, k, i0)) by {
                assert forall|j: int| 0 <= j < i0 implies after[j].0@ != k by {
                    assert(after[j] == before[j]);
                }
            }
            lemma_lookup_first(after, k, i0);
        } else if has_key(before, k) {
            let m = choose|m: int| 0 <= m < before.len() && before[m].0@ == k;
            lemma_first_exists(before, k, m);
            let j = choose|j: int| key_first(before, k, j);
            assert(key_first(after, k, j)) by {
                assert(j != i0);
                assert forall|q: int| 0 <= q < j implies after[q].0@ != k by {
                    if q != i0 {
                        assert(after[q] == before[q]);
                    }
                }
            }
            lemma_lookup_first(after, k, j);
            lemma_lookup_first(before, k, j);
        } else {
            assert(!has_key(after, k)) by {
                assert forall|q: int| 0 <= q < after.len() implies after[q].0@ != k by {
                    if q != i0 {
                        assert(after[q] == before[q]);
                    }
                }
            }
        }
    } else {
        let n = before.len() as int;
        if k == name@ {
            assert(key_first(after, k, n)) by {
                assert forall|j: int| 0 <= j < n implies after[j].0@ != k by {
                    assert(after[j] == before[j]);
                }
            }
            lemma_lookup_first(after, k, n);
        } else if has_key(before, k) {
            let m = choose|m: int| 0 <= m < before.len() && before[m].0@ == k;
            lemma_first_exists(before, k, m);
            let j = choose|j: int| key_first(before, k, j);
            assert(key_first(after, k, j)) by {
                assert forall|q: int| 0 <= q < j implies after[q].0@ != k by {
                    assert(after[q] == before[q]);
                }
            }
            lemma_lookup_first(after, k, j);
            lemma_lookup_first(before, k, j);
        } else {
            assert(!has_key(after, k)) by {
                assert forall|q: int| 0 <= q < after.len() implies after[q].0@ != k by {
                    if q != n {
                        assert(after[q] == before[q]);
                    }
                }
            }
        }
    }
}

/// Whether a list of names holds `name`.
pub fn contains_name(list: &Vec<String>, name: &String) -> (r: bool)
    ensures
        r == exists|i: int| 0 <= i < list@.len() && list@[i]@ == name@,
{
    let mut i: usize = 0;
    while i < list.len()
        invariant
            i <= list@.len(),
            forall|j: int| 0 <= j < i ==> list@[j]@ != name@,
        decreases list.len() - i,
    {
        if same_text(&list[i], name) {
            return true;
        }
        i = i + 1;
    }
    false
}

} // verus!
