use crate::attr::AttrModel;
use crate::collection::{
    consistent, filter_model, intersect_model, minus, nonempty, partition, subtract_model,
    unite_model,
};
use crate::fold::{add_contribution, contribution, fold_value, group_total, FoldOperation};
use crate::record::{attrs_model, build, parse_row, RecordModel};
use crate::schema::{attr_of, CtxModel};
use std::cmp::Ordering;
use vstd::prelude::*;
use vstd::seq_lib::seq_to_set_is_finite;
use vstd::set::fold::{lemma_fold_empty, lemma_fold_insert};

verus! {

/// Building a record twice from the same schema and the same input gives the same
/// attributes and the same group key.
pub proof fn law_build_deterministic(
    c: CtxModel,
    raw1: Seq<(Seq<char>, Seq<char>)>,
    raw2: Seq<(Seq<char>, Seq<char>)>,
)
    requires
        raw1 == raw2,
    ensures
        build(c, raw1) == build(c, raw2),
        build(c, raw1) matches Ok(m1) ==> (build(c, raw2) matches Ok(m2) && m1.attrs == m2.attrs
            && m1.group_id == m2.group_id),
{
}

/// `perm` rearranges the positions `0..n`.
pub open spec fn is_permutation(perm: Seq<int>, n: int) -> bool {
    &&& perm.len() == n
    &&& forall|i: int| 0 <= i < n ==> 0 <= #[trigger] perm[i] < n
    &&& forall|i: int, j: int| 0 <= i < n && 0 <= j < n && i != j ==> perm[i] != perm[j]
    &&& forall|k: int| 0 <= k < n ==> #[trigger] reaches(perm, n, k)
}

/// Some position of `0..n` goes to `k`.
pub open spec fn reaches(perm: Seq<int>, n: int, k: int) -> bool {
    exists|i: int| 0 <= i < n && perm[i] == k
}

/// No column is named twice.
pub open spec fn distinct_names<X>(raw: Seq<(Seq<char>, X)>) -> bool {
    forall|i: int, j: int| 0 <= i < raw.len() && 0 <= j < raw.len() && i != j ==> raw[i].0 != raw[j].0
}

/// Every pair of `raw` parses.
pub open spec fn all_parse(c: CtxModel, raw: Seq<(Seq<char>, Seq<char>)>) -> bool {
    forall|i: int| 0 <= i < raw.len() ==> (#[trigger] attr_of(c, raw[i].0, raw[i].1)) is Ok
}

proof fn lemma_parse_row_ok(c: CtxModel, raw: Seq<(Seq<char>, Seq<char>)>)
    ensures
        parse_row(c, raw) is Ok <==> all_parse(c, raw),
        parse_row(c, raw) matches Ok(p) ==> p.len() == raw.len() && forall|i: int|
            0 <= i < raw.len() ==> #[trigger] p[i] == (raw[i].0, attr_of(c, raw[i].0, raw[i].1)->Ok_0),
    decreases raw.len(),
{
    if raw.len() > 0 {
        let t = raw.drop_last();
        lemma_parse_row_ok(c, t);
        assert forall|i: int| 0 <= i < t.len() implies t[i] == raw[i] by {}
        if !all_parse(c, raw) {
            let i = choose|i: int| 0 <= i < raw.len() && !(attr_of(c, raw[i].0, raw[i].1) is Ok);
            if i < t.len() {
                assert(t[i] == raw[i]);
                assert(!all_parse(c, t));
            }
        }
        if all_parse(c, raw) {
            assert forall|i: int| 0 <= i < t.len() implies (#[trigger] attr_of(c, t[i].0, t[i].1)) is Ok by {
                assert(t[i] == raw[i]);
                assert(attr_of(c, raw[i].0, raw[i].1) is Ok);
            }
            assert(attr_of(c, raw[raw.len() - 1].0, raw[raw.len() - 1].1) is Ok);
        }
    }
}

proof fn lemma_attrs_model_distinct(p: Seq<(Seq<char>, AttrModel)>)
    requires
        distinct_names(p),
    ensures
        forall|k: Seq<char>| #[trigger] attrs_model(p).contains_key(k) <==> exists|i: int| 0 <= i < p.len() && p[i].0 == k,
        forall|i: int| 0 <= i < p.len() ==> #[trigger] attrs_model(p)[p[i].0] == p[i].1,
    decreases p.len(),
{
    if p.len() > 0 {
        let t = p.drop_last();
        assert(distinct_names(t));
        lemma_attrs_model_distinct(t);
        assert forall|k: Seq<char>| #[trigger] attrs_model(p).contains_key(k) <==> exists|i: int| 0 <= i < p.len() && p[i].0 == k by {
            if exists|i: int| 0 <= i < p.len() && p[i].0 == k {
                let i = choose|i: int| 0 <= i < p.len() && p[i].0 == k;
                if i < t.len() {
                    assert(t[i].0 == k);
                }
            }
            if attrs_model(t).contains_key(k) {
                let i = choose|i: int| 0 <= i < t.len() && t[i].0 == k;
                assert(p[i].0 == k);
            }
        }
        assert forall|i: int| 0 <= i < p.len() implies #[trigger] attrs_model(p)[p[i].0] == p[i].1 by {
            if i < t.len() {
                assert(t[i] == p[i]);
                assert(attrs_model(t)[t[i].0] == t[i].1);
                assert(p[i].0 != p[p.len() - 1].0);
            }
        }
    }
}

/// Reordering the columns of a row whose column names are distinct changes neither
/// whether it builds nor the record it builds, so its group key stays the same.
pub proof fn law_column_order_irrelevant(
    c: CtxModel,
    raw: Seq<(Seq<char>, Seq<char>)>,
    perm: Seq<int>,
)
    requires
        distinct_names(raw),
        is_permutation(perm, raw.len() as int),
        build(c, raw) is Ok,
    ensures
        build(c, Seq::new(raw.len(), |i: int| raw[perm[i]])) == build(c, raw),
{
    let raw2 = Seq::new(raw.len(), |i: int| raw[perm[i]]);
    lemma_parse_row_ok(c, raw);
    lemma_parse_row_ok(c, raw2);
    assert(all_parse(c, raw2)) by {
        assert forall|i: int| 0 <= i < raw2.len() implies (#[trigger] attr_of(c, raw2[i].0, raw2[i].1)) is Ok by {
            assert(raw2[i] == raw[perm[i]]);
            assert(attr_of(c, raw[perm[i]].0, raw[perm[i]].1) is Ok);
        }
    }
    let p1 = parse_row(c, raw)->Ok_0;
    let p2 = parse_row(c, raw2)->Ok_0;
    assert(distinct_names(p1)) by {
        assert forall|i: int, j: int| 0 <= i < p1.len() && 0 <= j < p1.len() && i != j implies p1[i].0 != p1[j].0 by {
            assert(p1[i].0 == raw[i].0 && p1[j].0 == raw[j].0);
        }
    }
    assert(distinct_names(p2)) by {
        assert forall|i: int, j: int| 0 <= i < p2.len() && 0 <= j < p2.len() && i != j implies p2[i].0 != p2[j].0 by {
            assert(p2[i].0 == raw2[i].0 && p2[j].0 == raw2[j].0);
            assert(raw2[i] == raw[perm[i]] && raw2[j] == raw[perm[j]]);
        }
    }
    lemma_attrs_model_distinct(p1);
    lemma_attrs_model_distinct(p2);
    let m1 = attrs_model(p1);
    let m2 = attrs_model(p2);
    assert forall|k: Seq<char>| m1.contains_key(k) <==> m2.contains_key(k) by {
        if m1.contains_key(k) {
            let i = choose|i: int| 0 <= i < p1.len() && p1[i].0 == k;
            assert(reaches(perm, raw.len() as int, i));
            let j = choose|j: int| 0 <= j < raw.len() && perm[j] == i;
            assert(p2[j].0 == raw2[j].0);
            assert(raw2[j] == raw[perm[j]]);
            assert(p2[j].0 == k);
        }
        if m2.contains_key(k) {
            let j = choose|j: int| 0 <= j < p2.len() && p2[j].0 == k;
            assert(raw2[j] == raw[perm[j]]);
            assert(p1[perm[j]].0 == k);
        }
    }
    assert forall|k: Seq<char>| m1.contains_key(k) implies m1[k] == m2[k] by {
        let i = choose|i: int| 0 <= i < p1.len() && p1[i].0 == k;
        assert(reaches(perm, raw.len() as int, i));
        let j = choose|j: int| 0 <= j < raw.len() && perm[j] == i;
        assert(raw2[j] == raw[perm[j]]);
        assert(p2[j] == p1[i]);
        assert(m2[p2[j].0] == p2[j].1);
        assert(m1[p1[i].0] == p1[i].1);
    }
    assert(m1 =~= m2);
}

/// Grouping places every given record in exactly one group, and the groups hold
/// exactly the given records.
pub proof fn law_partition(store: Seq<RecordModel>, members: Seq<usize>)
    requires
        forall|i: int| 0 <= i < members.len() ==> members[i] < store.len(),
    ensures
        forall|i: int|
            0 <= i < members.len() ==> partition(store, members).contains_key(
                store[members[i] as int].group_id,
            ) && #[trigger] partition(store, members)[store[members[i] as int].group_id].contains(
                members[i],
            ),
        forall|g1: u64, g2: u64, r: usize|
            partition(store, members).contains_key(g1) && partition(store, members).contains_key(g2)
                && #[trigger] partition(store, members)[g1].contains(r) && #[trigger] partition(
                store,
                members,
            )[g2].contains(r) ==> g1 == g2,
        forall|g: u64, r: usize|
            partition(store, members).contains_key(g) && #[trigger] partition(
                store,
                members,
            )[g].contains(r) ==> members.contains(r),
{
    let p = partition(store, members);
    assert forall|i: int| 0 <= i < members.len() implies p.contains_key(
        store[members[i] as int].group_id,
    ) && #[trigger] p[store[members[i] as int].group_id].contains(members[i]) by {
        assert(members.contains(members[i]));
    }
}

/// Intersecting with `b` and then uniting with `b` keeps every record of `b`, in
/// every group of `b` whose id `a` has too.
pub proof fn law_intersect_unite_covers(a: Map<u64, Set<usize>>, b: Map<u64, Set<usize>>)
    ensures
        forall|g: u64|
            a.contains_key(g) && #[trigger] b.contains_key(g) ==> unite_model(
                intersect_model(a, b),
                b,
            ).contains_key(g) && b[g].subset_of(unite_model(intersect_model(a, b), b)[g]),
{
}

/// Subtracting a collection from itself leaves nothing.
pub proof fn law_subtract_self_empty(a: Map<u64, Set<usize>>)
    ensures
        subtract_model(a, a).dom() == Set::<u64>::empty(),
{
    assert forall|g: u64| !subtract_model(a, a).contains_key(g) by {
        if a.contains_key(g) {
            assert(minus(a, a, g) =~= Set::empty());
        }
    }
    assert(subtract_model(a, a).dom() =~= Set::<u64>::empty());
}

/// Uniting with `b` and then intersecting with `b` yields only records of `b`, in
/// the same groups.
pub proof fn law_unite_intersect_within(a: Map<u64, Set<usize>>, b: Map<u64, Set<usize>>)
    ensures
        forall|g: u64, r: usize|
            intersect_model(unite_model(a, b), b).contains_key(g) && #[trigger] intersect_model(
                unite_model(a, b),
                b,
            )[g].contains(r) ==> b.contains_key(g) && b[g].contains(r),
{
}

/// Filtering keeps every member in the group of its record.
pub proof fn law_filter_consistent(
    a: Map<u64, Set<usize>>,
    store: Seq<RecordModel>,
    name: Seq<char>,
    val: AttrModel,
    ord: Ordering,
)
    requires
        consistent(a, store),
    ensures
        consistent(filter_model(a, store, name, val, ord), store),
{
    let f = filter_model(a, store, name, val, ord);
    assert forall|g: u64, r: usize| f.contains_key(g) && #[trigger] f[g].contains(r) implies r
        < store.len() && store[r as int].group_id == g by {
        assert(a[g].contains(r));
    }
}

/// Intersection, union and difference keep every member in the group of its record.
pub proof fn law_algebra_consistent(
    a: Map<u64, Set<usize>>,
    b: Map<u64, Set<usize>>,
    store: Seq<RecordModel>,
)
    requires
        consistent(a, store),
        consistent(b, store),
    ensures
        consistent(intersect_model(a, b), store),
        consistent(unite_model(a, b), store),
        consistent(subtract_model(a, b), store),
{
    let i = intersect_model(a, b);
    let u = unite_model(a, b);
    let d = subtract_model(a, b);
    assert forall|g: u64, r: usize| i.contains_key(g) && #[trigger] i[g].contains(r) implies r
        < store.len() && store[r as int].group_id == g by {
        assert(a[g].contains(r));
    }
    assert forall|g: u64, r: usize| d.contains_key(g) && #[trigger] d[g].contains(r) implies r
        < store.len() && store[r as int].group_id == g by {
        assert(a[g].contains(r));
    }
    assert forall|g: u64, r: usize| u.contains_key(g) && #[trigger] u[g].contains(r) implies r
        < store.len() && store[r as int].group_id == g by {
        if a.contains_key(g) && a[g].contains(r) {
        } else {
            assert(b[g].contains(r));
        }
    }
    assert forall|g: u64| #[trigger] u.contains_key(g) implies nonempty(u[g]) by {
        if a.contains_key(g) {
            let r = choose|r: usize| a[g].contains(r);
            assert(u[g].contains(r));
        } else {
            let r = choose|r: usize| b[g].contains(r);
            assert(u[g].contains(r));
        }
    }
}

/// Sum of the contributions of the records at positions `v`, first to last.
pub open spec fn values_sum(v: Seq<usize>, store: Seq<RecordModel>, name: Seq<char>) -> int
    decreases v.len(),
{
    if v.len() == 0 {
        0
    } else {
        values_sum(v.drop_last(), store, name) + contribution(store[v.last() as int].attrs, name)
    }
}

/// Counting a group of `n` records gives `n`; its total is the plain sum of its
/// records' values, and its mean is that sum divided by `n`, rounded down.
pub proof fn law_fold_values(v: Seq<usize>, store: Seq<RecordModel>, name: String)
    requires
        v.no_duplicates(),
        v.len() <= i32::MAX,
    ensures
        fold_value(FoldOperation::COUNT, v.to_set(), store) == AttrModel::Int(v.len() as i32),
        fold_value(FoldOperation::SUM(name), v.to_set(), store) == AttrModel::Float(
            values_sum(v, store, name@),
        ),
        v.len() > 0 ==> fold_value(FoldOperation::AVG(name), v.to_set(), store)
            == AttrModel::Float(crate::record::floor_div(values_sum(v, store, name@), v.len() as int)),
{
    v.unique_seq_to_set();
    lemma_total_is_sum(v, store, name@);
}

proof fn lemma_total_is_sum(v: Seq<usize>, store: Seq<RecordModel>, name: Seq<char>)
    requires
        v.no_duplicates(),
    ensures
        group_total(v.to_set(), store, name) == values_sum(v, store, name),
    decreases v.len(),
{
    let f = add_contribution(store, name);
    if v.len() == 0 {
        assert(v.to_set() =~= Set::empty());
        lemma_fold_empty(0int, f);
    } else {
        let t = v.drop_last();
        let x = v.last();
        assert(t.no_duplicates()) by {
            assert forall|i: int, j: int| 0 <= i < t.len() && 0 <= j < t.len() && i != j implies t[i] != t[j] by {
                assert(t[i] == v[i] && t[j] == v[j]);
            }
        }
        lemma_total_is_sum(t, store, name);
        assert(v =~= t.push(x));
        t.lemma_push_to_set_commute(x);
        assert(!t.contains(x)) by {
            if t.contains(x) {
                let k = choose|k: int| 0 <= k < t.len() && t[k] == x;
                assert(v[k] == v[v.len() - 1]);
            }
        }
        seq_to_set_is_finite(t);
        lemma_fold_insert(t.to_set(), 0int, f, x);
    }
}

} // verus!
