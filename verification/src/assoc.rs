//! Small association lists with first-match lookup: the crate's maps. Keys
//! are either strings (query ids, document ids) or integers (numeric query
//! ids, feature indices); values are anything. Insertion order is kept, so
//! every walk over a map is deterministic.

use vstd::prelude::*;

verus! {

/// First match for a string key, as a position.
pub open spec fn spec_find<V>(m: Seq<(String, V)>, k: Seq<char>) -> Option<int>
    decreases m.len(),
{
    if m.len() == 0 {
        None
    } else if m[0].0@ == k {
        Some(0)
    } else {
        match spec_find(m.drop_first(), k) {
            Some(j) => Some(j + 1),
            None => None,
        }
    }
}

/// First match for a string key, as a value.
pub open spec fn spec_get<V>(m: Seq<(String, V)>, k: Seq<char>) -> Option<V> {
    match spec_find(m, k) {
        Some(j) => Some(m[j].1),
        None => None,
    }
}

/// Whether some entry carries the key.
pub open spec fn contains_key<V>(m: Seq<(String, V)>, k: Seq<char>) -> bool {
    exists|j: int| 0 <= j < m.len() && #[trigger] m[j].0@ == k
}

/// No two entries share a key.
pub open spec fn unique_keys<V>(m: Seq<(String, V)>) -> bool {
    forall|i: int, j: int| 0 <= i < j < m.len() ==> (#[trigger] m[i].0@) != (#[trigger] m[j].0@)
}

/// What `spec_find` promises: it points at the first entry with the key, and
/// fails exactly when no entry has it.
pub proof fn lemma_find<V>(m: Seq<(String, V)>, k: Seq<char>)
    ensures
        match spec_find(m, k) {
            Some(j) => 0 <= j < m.len() && m[j].0@ == k && forall|l: int|
                0 <= l < j ==> (#[trigger] m[l].0@) != k,
            None => !contains_key(m, k),
        },
    decreases m.len(),
{
    if m.len() > 0 && m[0].0@ != k {
        let t = m.drop_first();
        lemma_find(t, k);
        match spec_find(t, k) {
            Some(j) => {
                assert(m[j + 1].0 == t[j].0);
                assert forall|l: int| 0 <= l < j + 1 implies (#[trigger] m[l].0@) != k by {
                    if l > 0 {
                        assert(t[l - 1].0 == m[l].0);
                    }
                }
            },
            None => {
                assert forall|l: int| 0 <= l < m.len() implies (#[trigger] m[l].0@) != k by {
                    if l > 0 {
                        assert(t[l - 1].0 == m[l].0);
                        assert(t[l - 1].0@ != k);
                    }
                }
            },
        }
    }
}

/// Looks a string key up, returning the position of its first entry.
pub fn find<V>(m: &Vec<(String, V)>, k: &String) -> (r: Option<usize>)
    ensures
        match r {
            Some(j) => spec_find(m@, k@) == Some(j as int),
            None => spec_find(m@, k@) is None,
        },
{
    proof {
        lemma_find(m@, k@);
    }
    let mut i: usize = 0;
    while i < m.len()
        invariant
            0 <= i <= m@.len(),
            forall|l: int| 0 <= l < i ==> (#[trigger] m@[l].0@) != k@,
            match spec_find(m@, k@) {
                Some(j) => 0 <= j < m@.len() && m@[j].0@ == k@ && forall|l: int|
                    0 <= l < j ==> (#[trigger] m@[l].0@) != k@,
                None => !contains_key(m@, k@),
            },
        decreases m@.len() - i,
    {
        if m[i].0.eq(k) {
            return Some(i);
        }
        i = i + 1;
    }
    None
}

/// First match for an integer key, as a position.
pub open spec fn spec_find_i64<V>(m: Seq<(i64, V)>, k: i64) -> Option<int>
    decreases m.len(),
{
    if m.len() == 0 {
        None
    } else if m[0].0 == k {
        Some(0)
    } else {
        match spec_find_i64(m.drop_first(), k) {
            Some(j) => Some(j + 1),
            None => None,
        }
    }
}

/// First match for an integer key, as a value.
pub open spec fn spec_get_i64<V>(m: Seq<(i64, V)>, k: i64) -> Option<V> {
    match spec_find_i64(m, k) {
        Some(j) => Some(m[j].1),
        None => None,
    }
}

/// Whether some entry carries the integer key.
pub open spec fn contains_key_i64<V>(m: Seq<(i64, V)>, k: i64) -> bool {
    exists|j: int| 0 <= j < m.len() && (#[trigger] m[j].0) == k
}

/// No two entries share an integer key.
pub open spec fn unique_keys_i64<V>(m: Seq<(i64, V)>) -> bool {
    forall|i: int, j: int| 0 <= i < j < m.len() ==> (#[trigger] m[i].0) != (#[trigger] m[j].0)
}

/// What `spec_find_i64` promises, as `lemma_find` for string keys.
pub proof fn lemma_find_i64<V>(m: Seq<(i64, V)>, k: i64)
    ensures
        match spec_find_i64(m, k) {
            Some(j) => 0 <= j < m.len() && m[j].0 == k && forall|l: int|
                0 <= l < j ==> (#[trigger] m[l].0) != k,
            None => !contains_key_i64(m, k),
        },
    decreases m.len(),
{
    if m.len() > 0 && m[0].0 != k {
        let t = m.drop_first();
        lemma_find_i64(t, k);
        match spec_find_i64(t, k) {
            Some(j) => {
                assert(m[j + 1].0 == t[j].0);
                assert forall|l: int| 0 <= l < j + 1 implies (#[trigger] m[l].0) != k by {
                    if l > 0 {
                        assert(t[l - 1].0 == m[l].0);
                    }
                }
            },
            None => {
                assert forall|l: int| 0 <= l < m.len() implies (#[trigger] m[l].0) != k by {
                    if l > 0 {
                        assert(t[l - 1].0 == m[l].0);
                        assert(t[l - 1].0 != k);
                    }
                }
            },
        }
    }
}

/// Looks an integer key up, returning the position of its first entry.
pub fn find_i64<V>(m: &Vec<(i64, V)>, k: i64) -> (r: Option<usize>)
    ensures
        match r {
            Some(j) => spec_find_i64(m@, k) == Some(j as int),
            None => spec_find_i64(m@, k) is None,
        },
{
    proof {
        lemma_find_i64(m@, k);
    }
    let mut i: usize = 0;
    while i < m.len()
        invariant
            0 <= i <= m@.len(),
            forall|l: int| 0 <= l < i ==> (#[trigger] m@[l].0) != k,
            match spec_find_i64(m@, k) {
                Some(j) => 0 <= j < m@.len() && m@[j].0 == k && forall|l: int|
                    0 <= l < j ==> (#[trigger] m@[l].0) != k,
                None => !contains_key_i64(m@, k),
            },
        decreases m@.len() - i,
    {
        if m[i].0 == k {
            return Some(i);
        }
        i = i + 1;
    }
    None
}

} // verus!
