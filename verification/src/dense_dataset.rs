//! The dense dataset layer: a typed numeric array over one of four element
//! widths, and the dataset that composes three such arrays (features, labels,
//! query ids) into a queryable whole.
//!
//! Floating-point lanes are carried as their raw IEEE-754 bit patterns; the
//! crate never computes with them, it only stores, indexes and hands them
//! out. Integer lanes are carried as the integers themselves, and the one
//! widening this crate performs itself — `i32` to `i64` — is exact.

use vstd::prelude::*;

use crate::assoc::{contains_key_i64, lemma_find_i64, find_i64, unique_keys_i64};
use crate::errors::RankError;
use crate::text::{dec_string_i64, i64_to_string};

verus! {

/// One element of a typed numeric array, at its stored width. Floating-point
/// elements are raw IEEE-754 bit patterns.
#[derive(Clone, Copy, PartialEq, Eq, Structural, Debug)]
pub enum NumericValue {
    I32(i32),
    I64(i64),
    F32Bits(u32),
    F64Bits(u64),
}

/// A read-only numeric array over one of four element widths. Immutable for
/// its lifetime; reads either succeed with an exact (widened) value or are
/// absent, never approximated across kinds.
#[derive(Clone, Debug)]
pub enum TypedArrayRef {
    DenseI32(Vec<i32>),
    DenseI64(Vec<i64>),
    DenseF32(Vec<u32>),
    DenseF64(Vec<u64>),
}

impl TypedArrayRef {
    /// The elements, each tagged with the array's width.
    pub open spec fn values(&self) -> Seq<NumericValue> {
        match *self {
            TypedArrayRef::DenseI32(ref v) => v@.map_values(|x: i32| NumericValue::I32(x)),
            TypedArrayRef::DenseI64(ref v) => v@.map_values(|x: i64| NumericValue::I64(x)),
            TypedArrayRef::DenseF32(ref v) => v@.map_values(|x: u32| NumericValue::F32Bits(x)),
            TypedArrayRef::DenseF64(ref v) => v@.map_values(|x: u64| NumericValue::F64Bits(x)),
        }
    }

    /// Whether the array is integer-backed (query-id arrays must be).
    pub open spec fn is_integer(&self) -> bool {
        self matches TypedArrayRef::DenseI32(_) || self matches TypedArrayRef::DenseI64(_)
    }

    /// What `get_i64` returns at an in-bounds index: the stored integer,
    /// widened exactly; absent for float-backed arrays.
    pub open spec fn spec_get_i64(&self, index: int) -> Option<i64> {
        match self.values()[index] {
            NumericValue::I32(x) => Some(x as i64),
            NumericValue::I64(x) => Some(x),
            _ => None,
        }
    }

    /// The number of elements.
    pub fn len(&self) -> (n: usize)
        ensures
            n == self.values().len(),
    {
        match self {
            TypedArrayRef::DenseI32(arr) => arr.len(),
            TypedArrayRef::DenseI64(arr) => arr.len(),
            TypedArrayRef::DenseF32(arr) => arr.len(),
            TypedArrayRef::DenseF64(arr) => arr.len(),
        }
    }

    /// A 32-bit integer read: succeeds only on an int32-backed array (no
    /// narrowing from wider kinds) at an in-bounds index.
    pub fn get_i32(&self, index: usize) -> (r: Option<i32>)
        ensures
            match r {
                Some(x) => index < self.values().len() && self.values()[index as int]
                    == NumericValue::I32(x),
                None => index >= self.values().len() || !(self.values()[index as int] matches
                NumericValue::I32(_)),
            },
    {
        match self {
            TypedArrayRef::DenseI32(arr) => {
                if index < arr.len() {
                    Some(arr[index])
                } else {
                    None
                }
            },
            _ => None,
        }
    }

    /// A 64-bit integer read: succeeds on integer-backed arrays at an
    /// in-bounds index, widening int32 exactly; absent on float-backed
    /// arrays.
    pub fn get_i64(&self, index: usize) -> (r: Option<i64>)
        ensures
            index < self.values().len() ==> r == self.spec_get_i64(index as int),
            index >= self.values().len() ==> r is None,
    {
        match self {
            TypedArrayRef::DenseI32(arr) => {
                if index < arr.len() {
                    Some(arr[index] as i64)
                } else {
                    None
                }
            },
            TypedArrayRef::DenseI64(arr) => {
                if index < arr.len() {
                    Some(arr[index])
                } else {
                    None
                }
            },
            _ => None,
        }
    }

    /// The integer elements of an integer-backed array, widened to 64 bits.
    /// Meaningful only when `is_integer` holds.
    pub open spec fn int_values(&self) -> Seq<i64> {
        Seq::new(
            self.values().len(),
            |i: int|
                match self.values()[i] {
                    NumericValue::I32(x) => x as i64,
                    NumericValue::I64(x) => x,
                    _ => 0,
                },
        )
    }

    /// The element at an index, at its stored width: the type-erased read
    /// that callers widen to floating point outside this crate.
    pub fn get_value(&self, index: usize) -> (r: Option<NumericValue>)
        ensures
            r == if index < self.values().len() {
                Some(self.values()[index as int])
            } else {
                None::<NumericValue>
            },
    {
        match self {
            TypedArrayRef::DenseI32(arr) => {
                if index < arr.len() {
                    Some(NumericValue::I32(arr[index]))
                } else {
                    None
                }
            },
            TypedArrayRef::DenseI64(arr) => {
                if index < arr.len() {
                    Some(NumericValue::I64(arr[index]))
                } else {
                    None
                }
            },
            TypedArrayRef::DenseF32(arr) => {
                if index < arr.len() {
                    Some(NumericValue::F32Bits(arr[index]))
                } else {
                    None
                }
            },
            TypedArrayRef::DenseF64(arr) => {
                if index < arr.len() {
                    Some(NumericValue::F64Bits(arr[index]))
                } else {
                    None
                }
            },
        }
    }
}

/// A zero-based column index into the feature matrix; equality and ordering
/// go by the index value only.
#[derive(Clone, Copy, PartialEq, Eq, Structural, Debug, Hash)]
pub struct FeatureId(pub usize);

impl FeatureId {
    pub fn from_index(index: usize) -> (r: FeatureId)
        ensures
            r == FeatureId(index),
    {
        FeatureId(index)
    }

    pub fn to_index(&self) -> (r: usize)
        ensures
            r == self.0,
    {
        self.0
    }
}

/// A zero-based row index into the feature matrix.
#[derive(Clone, Copy, PartialEq, Eq, Structural, Debug, Hash)]
pub struct InstanceId(pub usize);

impl InstanceId {
    pub fn from_index(index: usize) -> (r: InstanceId)
        ensures
            r == InstanceId(index),
    {
        InstanceId(index)
    }

    pub fn to_index(&self) -> (r: usize)
        ensures
            r == self.0,
    {
        self.0
    }
}

/// The entries of an id-to-string map, with the strings as character
/// sequences.
pub open spec fn qid_view(m: Seq<(i64, String)>) -> Seq<(i64, Seq<char>)> {
    m.map_values(|p: (i64, String)| (p.0, p.1@))
}

/// Whether the viewed map has an entry for the numeric id.
pub open spec fn has_qid(m: Seq<(i64, Seq<char>)>, k: i64) -> bool {
    exists|j: int| 0 <= j < m.len() && (#[trigger] m[j].0) == k
}

/// The canonical string map derived from a query-id column when none is
/// supplied: the first time a numeric id is seen it is paired with its
/// decimal string; later repeats reuse the already-assigned entry
/// (first-seen-wins, deterministic).
pub open spec fn derived_qid_strings(qs: Seq<i64>) -> Seq<(i64, Seq<char>)>
    decreases qs.len(),
{
    if qs.len() == 0 {
        Seq::empty()
    } else {
        let prefix = derived_qid_strings(qs.drop_last());
        if has_qid(prefix, qs.last()) {
            prefix
        } else {
            prefix.push((qs.last(), dec_string_i64(qs.last() as int)))
        }
    }
}

/// Key presence is the same through the `qid_view` lens.
proof fn lemma_qid_view_keys(m: Seq<(i64, String)>, k: i64)
    ensures
        contains_key_i64(m, k) <==> has_qid(qid_view(m), k),
{
    if contains_key_i64(m, k) {
        let j = choose|j: int| 0 <= j < m.len() && (#[trigger] m[j].0) == k;
        assert(qid_view(m)[j].0 == k);
    }
    if has_qid(qid_view(m), k) {
        let j = choose|j: int| 0 <= j < qid_view(m).len() && (#[trigger] qid_view(m)[j].0) == k;
        assert(m[j].0 == k);
    }
}

/// The groups of a grouped-by-query result, with strings as character
/// sequences and instance ids as plain indices.
pub open spec fn group_view(g: Seq<(String, Vec<InstanceId>)>) -> Seq<(Seq<char>, Seq<int>)> {
    g.map_values(
        |p: (String, Vec<InstanceId>)|
            (p.0@, p.1@.map_values(|id: InstanceId| id.0 as int)),
    )
}

/// First group with the given query-id string.
pub open spec fn group_index(g: Seq<(Seq<char>, Seq<int>)>, q: Seq<char>) -> Option<int>
    decreases g.len(),
{
    if g.len() == 0 {
        None
    } else if g[0].0 == q {
        Some(0)
    } else {
        match group_index(g.drop_first(), q) {
            Some(j) => Some(j + 1),
            None => None,
        }
    }
}

/// Instance indices grouped by their query-id string: one group per distinct
/// string, groups in first-seen order, indices within a group in ascending
/// order.
pub open spec fn spec_grouped(qs: Seq<Seq<char>>) -> Seq<(Seq<char>, Seq<int>)>
    decreases qs.len(),
{
    if qs.len() == 0 {
        Seq::empty()
    } else {
        let g = spec_grouped(qs.drop_last());
        let q = qs.last();
        let i = qs.len() - 1;
        match group_index(g, q) {
            Some(j) => g.update(j, (g[j].0, g[j].1.push(i as int))),
            None => g.push((q, seq![i as int])),
        }
    }
}

/// What `group_index` promises: the first group with the key, and absence
/// exactly when no group has it.
proof fn lemma_group_index(g: Seq<(Seq<char>, Seq<int>)>, q: Seq<char>)
    ensures
        match group_index(g, q) {
            Some(j) => 0 <= j < g.len() && g[j].0 == q,
            None => forall|l: int| 0 <= l < g.len() ==> (#[trigger] g[l].0) != q,
        },
    decreases g.len(),
{
    if g.len() > 0 && g[0].0 != q {
        let t = g.drop_first();
        lemma_group_index(t, q);
        match group_index(t, q) {
            Some(j) => {
                assert(g[j + 1] == t[j]);
            },
            None => {
                assert forall|l: int| 0 <= l < g.len() implies (#[trigger] g[l].0) != q by {
                    if l > 0 {
                        assert(t[l - 1] == g[l]);
                    }
                }
            },
        }
    }
}

/// What a grouping result means, in plain terms: group keys are unique;
/// every group is nonempty, its indices strictly ascending, in range, and
/// resolving to the group's key; and every input position stands in some
/// group with its own key.
pub open spec fn grouped_ok(qs: Seq<Seq<char>>, g: Seq<(Seq<char>, Seq<int>)>) -> bool {
    &&& forall|a: int, b: int| 0 <= a < b < g.len() ==> (#[trigger] g[a].0) != (#[trigger] g[b].0)
    &&& forall|j: int, k: int|
        #![trigger g[j].1[k]]
        0 <= j < g.len() && 0 <= k < g[j].1.len() ==> {
            &&& 0 <= g[j].1[k] < qs.len()
            &&& qs[g[j].1[k]] == g[j].0
            &&& (k > 0 ==> g[j].1[k - 1] < g[j].1[k])
        }
    &&& forall|j: int| 0 <= j < g.len() ==> (#[trigger] g[j].1).len() > 0
    &&& forall|i: int|
        0 <= i < qs.len() ==> exists|j: int, k: int|
            #![trigger g[j].1[k]]
            0 <= j < g.len() && 0 <= k < g[j].1.len() && g[j].0 == (#[trigger] qs[i]) && g[j].1[k]
                == i
}

/// The grouping of any resolved query-id column means what `grouped_ok`
/// says: within each group the instance indices appear in ascending
/// original order, each under its own query string, every instance in
/// exactly one group.
pub proof fn lemma_grouped_properties(qs: Seq<Seq<char>>)
    ensures
        grouped_ok(qs, spec_grouped(qs)),
    decreases qs.len(),
{
    if qs.len() > 0 {
        let prefix = qs.drop_last();
        lemma_grouped_properties(prefix);
        let g0 = spec_grouped(prefix);
        let g = spec_grouped(qs);
        let q = qs.last();
        let n = qs.len() - 1;
        lemma_group_index(g0, q);
        assert(prefix.len() == n);
        assert forall|l: int| 0 <= l < n implies #[trigger] qs[l] == prefix[l] by {}
        match group_index(g0, q) {
            Some(j) => {
                assert(g == g0.update(j, (g0[j].0, g0[j].1.push(n))));
                assert forall|j2: int, k: int|
                    #![trigger g[j2].1[k]]
                    0 <= j2 < g.len() && 0 <= k < g[j2].1.len() implies {
                    &&& 0 <= g[j2].1[k] < qs.len()
                    &&& qs[g[j2].1[k]] == g[j2].0
                    &&& (k > 0 ==> g[j2].1[k - 1] < g[j2].1[k])
                } by {
                    if j2 != j {
                        assert(g[j2] == g0[j2]);
                    } else {
                        if k < g0[j].1.len() {
                            assert(g[j].1[k] == g0[j].1[k]);
                        } else {
                            assert(g[j].1[k] == n);
                            assert(qs[n as int] == q);
                        }
                    }
                }
                assert forall|i: int| 0 <= i < qs.len() implies exists|j2: int, k: int|
                    #![trigger g[j2].1[k]]
                    0 <= j2 < g.len() && 0 <= k < g[j2].1.len() && g[j2].0 == (#[trigger] qs[i])
                        && g[j2].1[k] == i by {
                    if i < n {
                        let (j2, k) = choose|j2: int, k: int|
                            0 <= j2 < g0.len() && 0 <= k < g0[j2].1.len() && g0[j2].0 == prefix[i]
                                && g0[j2].1[k] == i;
                        assert(g[j2].0 == g0[j2].0 && g[j2].1[k] == g0[j2].1[k]);
                    } else {
                        assert(g[j].0 == q && g[j].1[g[j].1.len() - 1] == n);
                    }
                }
            },
            None => {
                assert(g == g0.push((q, seq![n as int])));
                assert forall|j2: int, k: int|
                    #![trigger g[j2].1[k]]
                    0 <= j2 < g.len() && 0 <= k < g[j2].1.len() implies {
                    &&& 0 <= g[j2].1[k] < qs.len()
                    &&& qs[g[j2].1[k]] == g[j2].0
                    &&& (k > 0 ==> g[j2].1[k - 1] < g[j2].1[k])
                } by {
                    if j2 < g0.len() {
                        assert(g[j2] == g0[j2]);
                    } else {
                        assert(g[j2] == (q, seq![n as int]));
                        assert(qs[n as int] == q);
                    }
                }
                assert forall|a: int, b: int| 0 <= a < b < g.len() implies (#[trigger] g[a].0) != (
                #[trigger] g[b].0) by {
                    if b < g0.len() {
                        assert(g[a] == g0[a] && g[b] == g0[b]);
                    } else {
                        assert(g[a] == g0[a]);
                        assert(g[b].0 == q);
                    }
                }
                assert forall|i: int| 0 <= i < qs.len() implies exists|j2: int, k: int|
                    #![trigger g[j2].1[k]]
                    0 <= j2 < g.len() && 0 <= k < g[j2].1.len() && g[j2].0 == (#[trigger] qs[i])
                        && g[j2].1[k] == i by {
                    if i < n {
                        let (j2, k) = choose|j2: int, k: int|
                            0 <= j2 < g0.len() && 0 <= k < g0[j2].1.len() && g0[j2].0 == prefix[i]
                                && g0[j2].1[k] == i;
                        assert(g[j2].0 == g0[j2].0 && g[j2].1[k] == g0[j2].1[k]);
                    } else {
                        assert(g[g.len() - 1].0 == q && g[g.len() - 1].1[0] == n);
                    }
                }
            },
        }
    }
}

/// Looking a key up among the groups is the same through the `group_view`
/// lens.
proof fn lemma_group_find_bridge(m: Seq<(String, Vec<InstanceId>)>, q: Seq<char>)
    ensures
        crate::assoc::spec_find(m, q) == group_index(group_view(m), q),
    decreases m.len(),
{
    if m.len() > 0 {
        assert(group_view(m)[0].0 == m[0].0@);
        if m[0].0@ != q {
            lemma_group_find_bridge(m.drop_first(), q);
            assert(group_view(m.drop_first()) =~= group_view(m).drop_first());
        }
    }
}

/// The three shape invariants a dense dataset is built under.
pub open spec fn shapes_ok(
    num_instances: int,
    num_features: int,
    xs: &TypedArrayRef,
    ys: &TypedArrayRef,
    qids: &TypedArrayRef,
) -> bool {
    &&& ys.values().len() == num_instances
    &&& qids.values().len() == num_instances
    &&& xs.values().len() == num_instances * num_features
}

/// Whether a supplied id-to-string map is usable: keys unique, and every
/// query id that occurs in the column is mapped.
pub open spec fn qid_map_ok(qids: &TypedArrayRef, m: Seq<(i64, String)>, num_instances: int) -> bool {
    &&& unique_keys_i64(m)
    &&& forall|i: int|
        0 <= i < num_instances ==> contains_key_i64(m, #[trigger] qids.int_values()[i])
}

/// A shared, reference-counted handle to an immutable dataset: built once,
/// then read concurrently with no synchronization.
pub struct DatasetRef {
    pub data: std::sync::Arc<DenseDataset>,
}

/// A dense ranking dataset: a row-major feature matrix, a label (gain)
/// column, and a query-id column, validated once at construction and never
/// rechecked. Immutable afterwards.
#[derive(Clone, Debug)]
pub struct DenseDataset {
    num_features: usize,
    num_instances: usize,
    xs: TypedArrayRef,
    ys: TypedArrayRef,
    qid_strings: Vec<(i64, String)>,
    qids: TypedArrayRef,
    feature_names: Vec<(i64, String)>,
}

impl DenseDataset {
    pub closed spec fn spec_num_instances(&self) -> int {
        self.num_instances as int
    }

    pub closed spec fn spec_num_features(&self) -> int {
        self.num_features as int
    }

    pub closed spec fn spec_xs(&self) -> &TypedArrayRef {
        &self.xs
    }

    pub closed spec fn spec_ys(&self) -> &TypedArrayRef {
        &self.ys
    }

    pub closed spec fn spec_qids(&self) -> &TypedArrayRef {
        &self.qids
    }

    pub closed spec fn spec_qid_strings(&self) -> Seq<(i64, String)> {
        self.qid_strings@
    }

    pub closed spec fn spec_feature_names(&self) -> Seq<(i64, String)> {
        self.feature_names@
    }

    /// The numeric query id of an instance.
    pub closed spec fn qid_num_at(&self, i: int) -> i64 {
        self.qids.int_values()[i]
    }

    /// The canonical query-id string of an instance.
    pub closed spec fn qid_str_at(&self, i: int) -> Seq<char> {
        match crate::assoc::spec_get_i64(self.qid_strings@, self.qid_num_at(i)) {
            Some(s) => s@,
            None => Seq::empty(),
        }
    }

    /// Well-formedness: the construction invariants, checked once by
    /// `try_new` and relied on by every accessor.
    pub closed spec fn wf(&self) -> bool {
        &&& self.ys.values().len() == self.num_instances as int
        &&& self.qids.values().len() == self.num_instances as int
        &&& self.xs.values().len() == self.num_instances as int * self.num_features as int
        &&& self.num_instances <= u32::MAX
        &&& self.num_features <= u32::MAX
        &&& self.qids.is_integer()
        &&& unique_keys_i64(self.qid_strings@)
        &&& forall|i: int|
            0 <= i < self.num_instances ==> contains_key_i64(
                self.qid_strings@,
                #[trigger] self.qids.int_values()[i],
            )
        &&& unique_keys_i64(self.feature_names@)
        &&& forall|l: int|
            0 <= l < self.feature_names@.len() ==> 0 <= (#[trigger] self.feature_names@[l]).0
                < self.num_features as int
    }

    /// Builds a dataset, validating every construction invariant; any
    /// violation fails the whole construction and nothing partial is ever
    /// produced. When no id-to-string map is supplied, one is derived from
    /// the query-id column, first-seen-wins, with decimal strings.
    pub fn try_new(
        num_instances: usize,
        num_features: usize,
        xs: TypedArrayRef,
        ys: TypedArrayRef,
        qids: TypedArrayRef,
        qid_strs: Option<Vec<(i64, String)>>,
    ) -> (r: Result<DenseDataset, RankError>)
        ensures
            r is Ok <==> {
                &&& shapes_ok(num_instances as int, num_features as int, &xs, &ys, &qids)
                &&& num_instances <= u32::MAX
                &&& num_features <= u32::MAX
                &&& qids.is_integer()
                &&& match qid_strs {
                    Some(ref m) => qid_map_ok(&qids, m@, num_instances as int),
                    None => true,
                }
            },
            r matches Ok(d) ==> {
                &&& d.wf()
                &&& d.spec_num_instances() == num_instances
                &&& d.spec_num_features() == num_features
                &&& *d.spec_xs() == xs
                &&& *d.spec_ys() == ys
                &&& *d.spec_qids() == qids
                &&& qid_view(d.spec_qid_strings()) == match qid_strs {
                    Some(ref m) => qid_view(m@),
                    None => derived_qid_strings(qids.int_values()),
                }
                &&& d.spec_feature_names() == Seq::<(i64, String)>::empty()
            },
            ys.values().len() != num_instances ==> (r matches Err(
                RankError::ShapeMismatch { detail },
            ) && detail@ == "Bad y-length"@),
            ys.values().len() == num_instances && qids.values().len() != num_instances ==> (
            r matches Err(RankError::ShapeMismatch { detail }) && detail@ == "Bad qids-length"@),
            ys.values().len() == num_instances && qids.values().len() == num_instances
                && xs.values().len() != num_instances as int * num_features as int ==> (r matches
            Err(RankError::ShapeMismatch { detail }) && detail@ == "Bad xs-length"@),
            shapes_ok(num_instances as int, num_features as int, &xs, &ys, &qids)
                && num_instances <= u32::MAX && num_features <= u32::MAX && !qids.is_integer()
                ==> (r matches Err(RankError::ShapeMismatch { detail }) && detail@
                == "Bad qids-type"@),
    {
        if ys.len() != num_instances {
            return Err(RankError::ShapeMismatch { detail: "Bad y-length" });
        }
        if qids.len() != num_instances {
            return Err(RankError::ShapeMismatch { detail: "Bad qids-length" });
        }
        let xs_len = xs.len();
        let expected = num_instances.checked_mul(num_features);
        let xs_ok = match expected {
            Some(p) => xs_len == p,
            None => false,
        };
        if !xs_ok {
            return Err(RankError::ShapeMismatch { detail: "Bad xs-length" });
        }
        if num_instances > (u32::MAX as usize) {
            return Err(RankError::ShapeMismatch { detail: "Bad num_instances" });
        }
        if num_features > (u32::MAX as usize) {
            return Err(RankError::ShapeMismatch { detail: "Bad num_features" });
        }
        let is_int = match &qids {
            TypedArrayRef::DenseI32(_) => true,
            TypedArrayRef::DenseI64(_) => true,
            _ => false,
        };
        if !is_int {
            return Err(RankError::ShapeMismatch { detail: "Bad qids-type" });
        }
        let qid_strings = match qid_strs {
            Some(m) => {
                match Self::check_qid_map(&qids, &m, num_instances) {
                    Ok(()) => m,
                    Err(e) => {
                        return Err(e);
                    },
                }
            },
            None => Self::derive_qid_strings(&qids, num_instances),
        };
        let feature_names: Vec<(i64, String)> = Vec::new();
        proof {
            assert(feature_names@ =~= Seq::<(i64, String)>::empty());
        }
        Ok(
            DenseDataset {
                num_features,
                num_instances,
                xs,
                ys,
                qid_strings,
                qids,
                feature_names,
            },
        )
    }

    /// Validates a supplied id-to-string map: unique keys, and an entry for
    /// every query id in the column.
    fn check_qid_map(qids: &TypedArrayRef, m: &Vec<(i64, String)>, num_instances: usize) -> (r:
        Result<(), RankError>)
        requires
            qids.is_integer(),
            qids.values().len() == num_instances,
        ensures
            r is Ok <==> qid_map_ok(qids, m@, num_instances as int),
    {
        let mut i: usize = 0;
        while i < m.len()
            invariant
                0 <= i <= m@.len(),
                forall|a: int, b: int|
                    0 <= a < b < i ==> (#[trigger] m@[a].0) != (#[trigger] m@[b].0),
            decreases m@.len() - i,
        {
            let mut j: usize = 0;
            while j < i
                invariant
                    0 <= j <= i < m@.len(),
                    forall|b: int| 0 <= b < j ==> (#[trigger] m@[b].0) != m@[i as int].0,
                decreases i - j,
            {
                if m[j].0 == m[i].0 {
                    return Err(
                        RankError::InvalidValue {
                            path: String::new(),
                            line: 0,
                            detail: "duplicate query-id key",
                        },
                    );
                }
                j = j + 1;
            }
            i = i + 1;
        }
        assert(unique_keys_i64(m@));
        let mut i: usize = 0;
        while i < num_instances
            invariant
                0 <= i <= num_instances,
                qids.is_integer(),
                qids.values().len() == num_instances,
                unique_keys_i64(m@),
                forall|l: int|
                    0 <= l < i ==> contains_key_i64(m@, #[trigger] qids.int_values()[l]),
            decreases num_instances - i,
        {
            let q = Self::qid_value(qids, i);
            match find_i64(m, q) {
                Some(_) => {
                    proof {
                        lemma_find_i64(m@, q);
                    }
                },
                None => {
                    proof {
                        lemma_find_i64(m@, q);
                    }
                    return Err(RankError::NotFound { name: i64_to_string(q) });
                },
            }
            i = i + 1;
        }
        Ok(())
    }

    /// Reads the numeric query id of one row of an integer-backed column.
    fn qid_value(qids: &TypedArrayRef, i: usize) -> (q: i64)
        requires
            qids.is_integer(),
            i < qids.values().len(),
        ensures
            q == qids.int_values()[i as int],
    {
        match qids.get_i64(i) {
            Some(q) => q,
            None => {
                proof {
                    assert(false);
                }
                0
            },
        }
    }

    /// Derives the first-seen-wins id-to-string map from the query-id
    /// column.
    fn derive_qid_strings(qids: &TypedArrayRef, num_instances: usize) -> (out: Vec<(i64, String)>)
        requires
            qids.is_integer(),
            qids.values().len() == num_instances,
        ensures
            qid_view(out@) == derived_qid_strings(qids.int_values()),
            unique_keys_i64(out@),
            forall|i: int|
                0 <= i < num_instances ==> contains_key_i64(out@, #[trigger] qids.int_values()[i]),
    {
        let ghost iv = qids.int_values();
        let mut out: Vec<(i64, String)> = Vec::new();
        proof {
            assert(qid_view(out@) =~= derived_qid_strings(iv.take(0)));
        }
        let mut i: usize = 0;
        while i < num_instances
            invariant
                0 <= i <= num_instances,
                qids.is_integer(),
                qids.values().len() == num_instances,
                iv == qids.int_values(),
                qid_view(out@) == derived_qid_strings(iv.take(i as int)),
                unique_keys_i64(out@),
                forall|l: int| 0 <= l < i ==> contains_key_i64(out@, #[trigger] iv[l]),
            decreases num_instances - i,
        {
            let q = Self::qid_value(qids, i);
            proof {
                assert(iv.take(i as int + 1).drop_last() =~= iv.take(i as int));
                assert(iv.take(i as int + 1).last() == q);
            }
            match find_i64(&out, q) {
                Some(_) => {
                    proof {
                        lemma_find_i64(out@, q);
                        lemma_qid_view_keys(out@, q);
                        assert(has_qid(qid_view(out@), q));
                    }
                },
                None => {
                    proof {
                        lemma_find_i64(out@, q);
                        lemma_qid_view_keys(out@, q);
                        assert(!has_qid(qid_view(out@), q));
                    }
                    let ghost old_out = out@;
                    let s = i64_to_string(q);
                    out.push((q, s));
                    proof {
                        assert(qid_view(out@) =~= qid_view(old_out).push((q, s@)));
                        assert forall|l: int| 0 <= l < i implies contains_key_i64(
                            out@,
                            #[trigger] iv[l],
                        ) by {
                            let j = choose|j: int|
                                0 <= j < old_out.len() && (#[trigger] old_out[j].0) == iv[l];
                            assert(out@[j].0 == iv[l]);
                        }
                        assert(contains_key_i64(out@, q)) by {
                            assert(out@[out@.len() - 1].0 == q);
                        }
                    }
                },
            }
            i = i + 1;
        }
        proof {
            assert(iv.take(num_instances as int) =~= iv);
        }
        out
    }

    /// A borrowed dataset has no shared handle to give out; use `into_ref`
    /// on the owned value instead.
    pub fn get_ref(&self) -> (r: Option<DatasetRef>)
        ensures
            r is None,
    {
        None
    }

    /// Moves the dataset behind a shared reference-counted handle: many
    /// owners, read-only, released with the last one.
    pub fn into_ref(self) -> (r: DatasetRef)
        ensures
            r.data == self,
    {
        DatasetRef { data: std::sync::Arc::new(self) }
    }

    /// The declared number of features (matrix columns).
    pub fn n_dim(&self) -> (r: u32)
        requires
            self.wf(),
        ensures
            r == self.spec_num_features(),
    {
        self.num_features as u32
    }

    /// The declared number of instances (matrix rows).
    pub fn n_instances(&self) -> (r: u32)
        requires
            self.wf(),
        ensures
            r == self.spec_num_instances(),
    {
        self.num_instances as u32
    }

    /// This dataset is a full view, never a sampled one.
    pub fn is_sampled(&self) -> (r: bool)
        ensures
            !r,
    {
        false
    }

    /// All feature ids, in ascending index order.
    pub fn features(&self) -> (r: Vec<FeatureId>)
        ensures
            r@.len() == self.spec_num_features(),
            forall|i: int| 0 <= i < r@.len() ==> (#[trigger] r@[i]).0 == i,
    {
        let mut out: Vec<FeatureId> = Vec::new();
        let mut i: usize = 0;
        while i < self.num_features
            invariant
                0 <= i <= self.num_features,
                out@.len() == i,
                forall|l: int| 0 <= l < i ==> (#[trigger] out@[l]).0 == l,
            decreases self.num_features - i,
        {
            out.push(FeatureId(i));
            i = i + 1;
        }
        out
    }

    /// All instance ids, in ascending index order.
    pub fn instances(&self) -> (r: Vec<InstanceId>)
        ensures
            r@.len() == self.spec_num_instances(),
            forall|i: int| 0 <= i < r@.len() ==> (#[trigger] r@[i]).0 == i,
    {
        let mut out: Vec<InstanceId> = Vec::new();
        let mut i: usize = 0;
        while i < self.num_instances
            invariant
                0 <= i <= self.num_instances,
                out@.len() == i,
                forall|l: int| 0 <= l < i ==> (#[trigger] out@[l]).0 == l,
            decreases self.num_instances - i,
        {
            out.push(InstanceId(i));
            i = i + 1;
        }
        out
    }

    /// The label (gain) of an instance, at its stored width. Always succeeds
    /// on a validly constructed dataset; an out-of-range id would be an
    /// internal-invariant violation, so it is excluded rather than handled.
    pub fn gain(&self, id: InstanceId) -> (r: NumericValue)
        requires
            self.wf(),
            id.0 < self.spec_num_instances(),
        ensures
            r == self.spec_ys().values()[id.0 as int],
    {
        match self.ys.get_value(id.0) {
            Some(v) => v,
            None => {
                proof {
                    assert(false);
                }
                NumericValue::I32(0)
            },
        }
    }

    /// The canonical string form of an instance's query id. Always succeeds
    /// on a validly constructed dataset.
    pub fn query_id(&self, id: InstanceId) -> (r: &str)
        requires
            self.wf(),
            id.0 < self.spec_num_instances(),
        ensures
            r@ == self.qid_str_at(id.0 as int),
    {
        let q = Self::qid_value(&self.qids, id.0);
        match find_i64(&self.qid_strings, q) {
            Some(j) => {
                proof {
                    lemma_find_i64(self.qid_strings@, q);
                }
                self.qid_strings[j].1.as_str()
            },
            None => {
                proof {
                    lemma_find_i64(self.qid_strings@, q);
                    assert(false);
                }
                ""
            },
        }
    }

    /// No per-document names are stored in the dense form.
    pub fn document_name(&self, _id: InstanceId) -> (r: Option<&str>)
        ensures
            r is None,
    {
        None
    }

    /// The canonical query-id strings, one per distinct query, in
    /// first-seen order.
    pub fn queries(&self) -> (r: Vec<String>)
        ensures
            r@.len() == self.spec_qid_strings().len(),
            forall|j: int|
                0 <= j < r@.len() ==> (#[trigger] r@[j])@ == self.spec_qid_strings()[j].1@,
    {
        let mut out: Vec<String> = Vec::new();
        let mut i: usize = 0;
        while i < self.qid_strings.len()
            invariant
                0 <= i <= self.qid_strings@.len(),
                out@.len() == i,
                forall|j: int| 0 <= j < i ==> (#[trigger] out@[j])@ == self.qid_strings@[j].1@,
            decreases self.qid_strings@.len() - i,
        {
            out.push(self.qid_strings[i].1.clone());
            i = i + 1;
        }
        out
    }

    /// For printing: the feature's name if one is mapped, else its decimal
    /// index.
    pub fn feature_name(&self, fid: FeatureId) -> (r: String)
        requires
            self.wf(),
            fid.0 <= u32::MAX,
        ensures
            match crate::assoc::spec_get_i64(self.spec_feature_names(), fid.0 as i64) {
                Some(s) => r@ == s@,
                None => r@ == crate::text::dec_digits(fid.0 as nat),
            },
    {
        match find_i64(&self.feature_names, fid.0 as i64) {
            Some(j) => {
                proof {
                    lemma_find_i64(self.feature_names@, fid.0 as i64);
                }
                self.feature_names[j].1.clone()
            },
            None => crate::text::u64_to_string(fid.0 as u64),
        }
    }

    /// The feature value of an instance at its stored width: the value at
    /// row-major offset `instance * num_features + feature`, or absent if
    /// either index is out of the declared range.
    pub fn get_feature_value(&self, instance: InstanceId, fid: FeatureId) -> (r: Option<
        NumericValue,
    >)
        requires
            self.wf(),
        ensures
            r == if instance.0 < self.spec_num_instances() && fid.0 < self.spec_num_features() {
                Some(
                    self.spec_xs().values()[instance.0 as int * self.spec_num_features()
                        + fid.0 as int],
                )
            } else {
                None::<NumericValue>
            },
    {
        if instance.0 >= self.num_instances || fid.0 >= self.num_features {
            return None;
        }
        let total = self.xs.len();
        assert((instance.0 as int) * (self.num_features as int) + (fid.0 as int) < (
        self.num_instances as int) * (self.num_features as int)) by (nonlinear_arith)
            requires
                instance.0 < self.num_instances,
                fid.0 < self.num_features,
        {}
        let index = instance.0 * self.num_features + fid.0;
        self.xs.get_value(index)
    }

    /// First entry whose mapped name is the given character sequence.
    pub open spec fn spec_name_index(m: Seq<(i64, String)>, s: Seq<char>) -> Option<int>
        decreases m.len(),
    {
        if m.len() == 0 {
            None
        } else if m[0].1@ == s {
            Some(0)
        } else {
            match Self::spec_name_index(m.drop_first(), s) {
                Some(j) => Some(j + 1),
                None => None,
            }
        }
    }

    proof fn lemma_name_index(m: Seq<(i64, String)>, s: Seq<char>)
        ensures
            match Self::spec_name_index(m, s) {
                Some(j) => 0 <= j < m.len() && m[j].1@ == s && forall|l: int|
                    0 <= l < j ==> (#[trigger] m[l].1@) != s,
                None => forall|l: int| 0 <= l < m.len() ==> (#[trigger] m[l].1@) != s,
            },
        decreases m.len(),
    {
        if m.len() > 0 && m[0].1@ != s {
            let t = m.drop_first();
            Self::lemma_name_index(t, s);
            match Self::spec_name_index(t, s) {
                Some(j) => {
                    assert(m[j + 1].1 == t[j].1);
                    assert forall|l: int| 0 <= l < j + 1 implies (#[trigger] m[l].1@) != s by {
                        if l > 0 {
                            assert(t[l - 1].1 == m[l].1);
                        }
                    }
                },
                None => {
                    assert forall|l: int| 0 <= l < m.len() implies (#[trigger] m[l].1@) != s by {
                        if l > 0 {
                            assert(t[l - 1].1 == m[l].1);
                            assert(t[l - 1].1@ != s);
                        }
                    }
                },
            }
        }
    }

    /// Given a feature name or a decimal feature number, finds the feature
    /// id: the input is tried as an integer index first, then as a mapped
    /// name; anything else fails with `NotFound`.
    pub fn try_lookup_feature(&self, name_or_num: &str) -> (r: Result<FeatureId, RankError>)
        requires
            self.wf(),
        ensures
            crate::text::is_dec_index(name_or_num@) && crate::text::dec_value(name_or_num@)
                <= usize::MAX ==> {
                &&& crate::text::dec_value(name_or_num@) < self.spec_num_features() ==> (r matches
                Ok(fid) && fid.0 == crate::text::dec_value(name_or_num@))
                &&& crate::text::dec_value(name_or_num@) >= self.spec_num_features() ==> (r matches
                Err(RankError::NotFound { name }) && name@ == name_or_num@)
            },
            !(crate::text::is_dec_index(name_or_num@) && crate::text::dec_value(name_or_num@)
                <= usize::MAX) ==> match Self::spec_name_index(
                self.spec_feature_names(),
                name_or_num@,
            ) {
                Some(j) => r matches Ok(fid) && fid.0 == self.spec_feature_names()[j].0,
                None => r matches Err(RankError::NotFound { name }) && name@ == name_or_num@,
            },
    {
        match crate::text::parse_index(name_or_num) {
            Some(v) => {
                if v < self.num_features {
                    Ok(FeatureId(v))
                } else {
                    Err(RankError::NotFound { name: name_or_num.to_owned() })
                }
            },
            None => {
                proof {
                    Self::lemma_name_index(self.feature_names@, name_or_num@);
                }
                let sought = name_or_num.to_owned();
                let mut j: usize = 0;
                while j < self.feature_names.len()
                    invariant
                        self.wf(),
                        !(crate::text::is_dec_index(name_or_num@) && crate::text::dec_value(
                            name_or_num@,
                        ) <= usize::MAX),
                        sought@ == name_or_num@,
                        0 <= j <= self.feature_names@.len(),
                        forall|l: int|
                            0 <= l < j ==> (#[trigger] self.feature_names@[l].1@) != name_or_num@,
                        match Self::spec_name_index(self.feature_names@, name_or_num@) {
                            Some(p) => 0 <= p < self.feature_names@.len()
                                && self.feature_names@[p].1@ == name_or_num@ && forall|l: int|
                                0 <= l < p ==> (#[trigger] self.feature_names@[l].1@)
                                    != name_or_num@,
                            None => forall|l: int|
                                0 <= l < self.feature_names@.len() ==> (#[trigger] self
                                    .feature_names@[l].1@) != name_or_num@,
                        },
                    decreases self.feature_names@.len() - j,
                {
                    if self.feature_names[j].1.eq(&sought) {
                        proof {
                            match Self::spec_name_index(self.feature_names@, name_or_num@) {
                                Some(p) => {
                                    if p < j {
                                        assert(false);
                                    } else if p > j {
                                        assert(self.feature_names@[j as int].1@ != name_or_num@);
                                    }
                                },
                                None => {
                                    assert(false);
                                },
                            }
                        }
                        let key = self.feature_names[j].0;
                        return Ok(FeatureId(key as usize));
                    }
                    j = j + 1;
                }
                Err(RankError::NotFound { name: name_or_num.to_owned() })
            },
        }
    }

    /// The labels of all instances, in ascending instance order, at their
    /// stored width: one entry per instance.
    pub fn gains(&self) -> (r: Vec<NumericValue>)
        requires
            self.wf(),
        ensures
            r@ == self.spec_ys().values(),
            r@.len() == self.spec_num_instances(),
    {
        let mut out: Vec<NumericValue> = Vec::new();
        let mut i: usize = 0;
        let n = self.ys.len();
        while i < n
            invariant
                0 <= i <= n == self.ys.values().len(),
                out@ == self.ys.values().take(i as int),
            decreases n - i,
        {
            match self.ys.get_value(i) {
                Some(v) => {
                    out.push(v);
                },
                None => {
                    proof {
                        assert(false);
                    }
                },
            }
            proof {
                assert(out@ =~= self.ys.values().take(i as int + 1));
            }
            i = i + 1;
        }
        proof {
            assert(self.ys.values().take(n as int) =~= self.ys.values());
        }
        out
    }

    /// The canonical query-id string of each instance, in instance order.
    pub closed spec fn resolved_qids(&self) -> Seq<Seq<char>> {
        Seq::new(self.num_instances as nat, |i: int| self.qid_str_at(i))
    }

    /// Groups instance ids by resolved query-id string: groups appear in
    /// first-seen order, and within each group the ids appear in ascending
    /// original-instance-index order. Deterministic across repeated calls
    /// and construction paths.
    pub fn instances_by_query(&self) -> (r: Vec<(String, Vec<InstanceId>)>)
        requires
            self.wf(),
        ensures
            group_view(r@) == spec_grouped(self.resolved_qids()),
    {
        let ghost rs = self.resolved_qids();
        let mut out: Vec<(String, Vec<InstanceId>)> = Vec::new();
        proof {
            assert(group_view(out@) =~= spec_grouped(rs.take(0)));
        }
        let mut i: usize = 0;
        while i < self.num_instances
            invariant
                self.wf(),
                0 <= i <= self.spec_num_instances(),
                rs == self.resolved_qids(),
                group_view(out@) == spec_grouped(rs.take(i as int)),
            decreases self.num_instances - i,
        {
            proof {
                assert(rs.take(i as int + 1).drop_last() =~= rs.take(i as int));
                assert(rs.take(i as int + 1).last() == rs[i as int]);
            }
            let q = Self::qid_value(&self.qids, i);
            let jq = match find_i64(&self.qid_strings, q) {
                Some(jq) => {
                    proof {
                        lemma_find_i64(self.qid_strings@, q);
                    }
                    jq
                },
                None => {
                    proof {
                        lemma_find_i64(self.qid_strings@, q);
                        assert(false);
                    }
                    0
                },
            };
            let qstr: &String = &self.qid_strings[jq].1;
            proof {
                assert(qstr@ == rs[i as int]);
                lemma_group_find_bridge(out@, qstr@);
            }
            match crate::assoc::find(&out, qstr) {
                Some(j) => {
                    proof {
                        crate::assoc::lemma_find(out@, qstr@);
                    }
                    let ghost old_out = out@;
                    let mut entry = out.remove(j);
                    entry.1.push(InstanceId(i));
                    let ghost esnap = entry;
                    out.insert(j, entry);
                    proof {
                        assert(esnap.0 == old_out[j as int].0);
                        assert(esnap.1@ == old_out[j as int].1@.push(InstanceId(i)));
                        assert(out@ =~= old_out.update(j as int, esnap));
                        let gv = group_view(old_out);
                        assert(esnap.1@.map_values(|id: InstanceId| id.0 as int) =~= gv[
                            j as int
                        ].1.push(i as int));
                        assert(group_view(out@) =~= gv.update(
                            j as int,
                            (gv[j as int].0, gv[j as int].1.push(i as int)),
                        ));
                        assert(group_index(gv, rs[i as int]) == Some(j as int));
                    }
                },
                None => {
                    let ghost old_out = out@;
                    let mut ids: Vec<InstanceId> = Vec::new();
                    ids.push(InstanceId(i));
                    out.push((qstr.clone(), ids));
                    proof {
                        assert(ids@.map_values(|id: InstanceId| id.0 as int) =~= seq![i as int]);
                        assert(group_view(out@) =~= group_view(old_out).push(
                            (rs[i as int], seq![i as int]),
                        ));
                        assert(group_index(group_view(old_out), rs[i as int]) is None);
                    }
                },
            }
            i = i + 1;
        }
        proof {
            assert(rs.take(self.num_instances as int) =~= rs);
        }
        out
    }

    /// The canonical query-id string of every instance, in ascending
    /// instance order.
    pub fn query_ids(&self) -> (r: Vec<String>)
        requires
            self.wf(),
        ensures
            r@.len() == self.spec_num_instances(),
            forall|i: int| 0 <= i < r@.len() ==> (#[trigger] r@[i])@ == self.qid_str_at(i),
    {
        let mut out: Vec<String> = Vec::new();
        let mut i: usize = 0;
        while i < self.num_instances
            invariant
                self.wf(),
                0 <= i <= self.spec_num_instances(),
                out@.len() == i,
                forall|l: int| 0 <= l < i ==> (#[trigger] out@[l])@ == self.qid_str_at(l),
            decreases self.num_instances - i,
        {
            let q = Self::qid_value(&self.qids, i);
            match find_i64(&self.qid_strings, q) {
                Some(j) => {
                    proof {
                        lemma_find_i64(self.qid_strings@, q);
                    }
                    out.push(self.qid_strings[j].1.clone());
                },
                None => {
                    proof {
                        lemma_find_i64(self.qid_strings@, q);
                        assert(false);
                    }
                },
            }
            i = i + 1;
        }
        out
    }
}

} // verus!
