use crate::attr::{Attr, AttrModel, Fixed, FIXED_LIMIT, MICROS};
use crate::collection::{groups_match, lemma_view, store_model, within, Collection, Group};
use crate::record::{floor_div, floor_div_exec, Record, RecordModel};
use crate::schema::DataError;
use vstd::prelude::*;
use vstd::seq_lib::seq_to_set_is_finite;
use vstd::set::fold::{is_fun_commutative, lemma_fold_empty, lemma_fold_insert};
use vstd::set_lib::{lemma_len_subset, range_set_properties};

verus! {

/// An aggregate computed per group.
pub enum FoldOperation {
    /// Mean of the named attribute.
    AVG(String),
    /// Total of the named attribute.
    SUM(String),
    /// Number of records.
    COUNT,
}

/// Millionths that a record with attributes `attrs` adds to a total of `name`:
/// a record without the attribute adds zero.
pub open spec fn contribution(attrs: Map<Seq<char>, AttrModel>, name: Seq<char>) -> int {
    if !attrs.contains_key(name) {
        0
    } else {
        match attrs[name] {
            AttrModel::Int(v) => v as int * 1000000,
            AttrModel::Float(m) => m,
            _ => 0,
        }
    }
}

/// The attribute `name` holds a flag or a text.
pub open spec fn non_numeric(attrs: Map<Seq<char>, AttrModel>, name: Seq<char>) -> bool {
    attrs.contains_key(name) && (attrs[name] is Bool || attrs[name] is Str)
}

/// One step of a total: adds the contribution of the record at position `r`.
pub open spec fn add_contribution(store: Seq<RecordModel>, name: Seq<char>) -> spec_fn(int, usize) -> int {
    |acc: int, r: usize| acc + contribution(store[r as int].attrs, name)
}

/// Total of attribute `name` over the records at positions `s`, in millionths.
pub open spec fn group_total(s: Set<usize>, store: Seq<RecordModel>, name: Seq<char>) -> int {
    s.fold(0int, add_contribution(store, name))
}

/// Some record of some group holds a flag or a text in attribute `name`.
pub open spec fn has_non_numeric(m: Map<u64, Set<usize>>, store: Seq<RecordModel>, name: Seq<char>) -> bool {
    exists|g: u64, r: usize|
        m.contains_key(g) && #[trigger] m[g].contains(r) && non_numeric(store[r as int].attrs, name)
}

/// What `op` gives for a group with members `s`.
pub open spec fn fold_value(
    op: FoldOperation,
    s: Set<usize>,
    store: Seq<RecordModel>,
) -> AttrModel {
    match op {
        FoldOperation::COUNT => AttrModel::Int(s.len() as i32),
        FoldOperation::SUM(name) => AttrModel::Float(group_total(s, store, name@)),
        FoldOperation::AVG(name) => AttrModel::Float(
            floor_div(group_total(s, store, name@), s.len() as int),
        ),
    }
}

/// One value per group.
pub open spec fn fold_model(
    m: Map<u64, Set<usize>>,
    store: Seq<RecordModel>,
    op: FoldOperation,
) -> Map<u64, AttrModel> {
    Map::new(|g: u64| m.contains_key(g), |g: u64| fold_value(op, m[g], store))
}

/// Whether `op` fails on `m`: a total or mean over an attribute that some record
/// holds as a flag or a text.
pub open spec fn fold_fails(m: Map<u64, Set<usize>>, store: Seq<RecordModel>, op: FoldOperation) -> bool {
    match op {
        FoldOperation::COUNT => false,
        FoldOperation::SUM(name) => has_non_numeric(m, store, name@),
        FoldOperation::AVG(name) => has_non_numeric(m, store, name@),
    }
}

/// The value of a fold for each group, by group id.
pub struct FoldResult {
    fold_func: FoldOperation,
    result: Vec<(u64, Attr)>,
    model: Ghost<Map<u64, AttrModel>>,
}

/// `v` holds each id once, with the value that `m` gives it, and every id of `m`.
pub open spec fn entries_match(v: Seq<(u64, Attr)>, m: Map<u64, AttrModel>) -> bool {
    &&& forall|i: int, j: int| 0 <= i < v.len() && 0 <= j < v.len() && i != j ==> v[i].0 != v[j].0
    &&& forall|i: int|
        #![trigger v[i]]
        0 <= i < v.len() ==> m.contains_key(v[i].0) && m[v[i].0] == v[i].1@
    &&& forall|g: u64| m.contains_key(g) ==> exists|i: int| 0 <= i < v.len() && v[i].0 == g
}

impl View for FoldResult {
    type V = Map<u64, AttrModel>;

    closed spec fn view(&self) -> Map<u64, AttrModel> {
        self.model@
    }
}

impl FoldResult {
    #[verifier::type_invariant]
    spec fn inv(&self) -> bool {
        entries_match(self.result@, self.model@)
    }

    /// Number of groups.
    pub fn len(&self) -> (r: usize)
        ensures
            r == self@.dom().len(),
    {
        proof {
            use_type_invariant(self);
            lemma_entries_len(self.result@, self.model@);
        }
        self.result.len()
    }

    /// The `i`-th entry: a group id and its value.
    pub fn entry(&self, i: usize) -> (r: (u64, &Attr))
        requires
            i < self@.dom().len(),
        ensures
            self@.contains_key(r.0),
            self@[r.0] == r.1@,
    {
        proof {
            use_type_invariant(self);
            lemma_entries_len(self.result@, self.model@);
        }
        (self.result[i].0, &self.result[i].1)
    }

    /// The value of group `id`.
    pub fn get(&self, id: u64) -> (r: Option<&Attr>)
        ensures
            r matches Some(a) ==> self@.contains_key(id) && self@[id] == a@,
            r is None ==> !self@.contains_key(id),
    {
        proof {
            use_type_invariant(self);
        }
        let mut i: usize = 0;
        while i < self.result.len()
            invariant
                i <= self.result.len(),
                entries_match(self.result@, self.model@),
                forall|k: int| 0 <= k < i ==> self.result@[k].0 != id,
            decreases self.result.len() - i,
        {
            if self.result[i].0 == id {
                return Some(&self.result[i].1);
            }
            i = i + 1;
        }
        None
    }

    /// The operation that produced the values.
    pub closed spec fn op(&self) -> FoldOperation {
        self.fold_func
    }

    /// The operation that produced the values.
    pub fn fold_func(&self) -> (r: &FoldOperation)
        ensures
            *r == self.op(),
    {
        &self.fold_func
    }
}

proof fn lemma_entries_len(v: Seq<(u64, Attr)>, m: Map<u64, AttrModel>)
    requires
        entries_match(v, m),
    ensures
        m.dom().finite(),
        m.dom().len() == v.len(),
{
    let ids = v.map_values(|p: (u64, Attr)| p.0);
    assert(ids.no_duplicates()) by {
        assert forall|i: int, j: int| 0 <= i < ids.len() && 0 <= j < ids.len() && i != j implies ids[i] != ids[j] by {
            assert(ids[i] == v[i].0 && ids[j] == v[j].0);
        }
    }
    assert(m.dom() =~= ids.to_set()) by {
        assert forall|g: u64| m.dom().contains(g) <==> ids.to_set().contains(g) by {
            if m.dom().contains(g) {
                let i = choose|i: int| 0 <= i < v.len() && v[i].0 == g;
                assert(ids[i] == g);
            }
            if ids.to_set().contains(g) {
                let i = choose|i: int| 0 <= i < ids.len() && ids[i] == g;
                assert(v[i].0 == g);
            }
        }
    }
    ids.unique_seq_to_set();
}

proof fn lemma_add_commutative(store: Seq<RecordModel>, name: Seq<char>)
    ensures
        is_fun_commutative(add_contribution(store, name)),
{
}

/// Distinct positions below `n` number at most `n`.
proof fn lemma_distinct_below(v: Seq<usize>, n: usize)
    requires
        v.no_duplicates(),
        forall|k: int| 0 <= k < v.len() ==> v[k] < n,
    ensures
        v.len() <= n,
        v.to_set().len() == v.len(),
{
    v.unique_seq_to_set();
    range_set_properties::<usize>(0, n);
    lemma_len_subset(v.to_set(), Set::<usize>::range(0, n));
}

/// Total of attribute `name` over `recs`, or `None` where one of them holds a flag
/// or a text there.
fn group_sum(recs: &Vec<usize>, records: &Vec<Record>, name: &str) -> (r: Option<i128>)
    requires
        recs@.no_duplicates(),
        forall|k: int| 0 <= k < recs.len() ==> recs@[k] < records.len(),
    ensures
        r matches Some(t) ==> t == group_total(recs@.to_set(), store_model(records@), name@)
            && forall|k: int| 0 <= k < recs.len() ==> !non_numeric(
            store_model(records@)[recs@[k] as int].attrs,
            name@,
        ),
        r is None ==> exists|k: int|
            0 <= k < recs.len() && non_numeric(store_model(records@)[recs@[k] as int].attrs, name@),
        r matches Some(t) ==> t > i128::MIN,
{
    let ghost store = store_model(records@);
    let ghost f = add_contribution(store, name@);
    proof {
        lemma_add_commutative(store, name@);
        lemma_fold_empty(0int, f);
        assert(recs@.subrange(0, 0).to_set() =~= Set::empty());
    }
    let mut total: i128 = 0;
    let mut i: usize = 0;
    while i < recs.len()
        invariant
            i <= recs.len(),
            recs@.no_duplicates(),
            forall|k: int| 0 <= k < recs.len() ==> recs@[k] < records.len(),
            store == store_model(records@),
            f == add_contribution(store, name@),
            is_fun_commutative(f),
            total == recs@.subrange(0, i as int).to_set().fold(0int, f),
            -(i * FIXED_LIMIT) <= total <= i * FIXED_LIMIT,
            i * FIXED_LIMIT < 0x8000_0000_0000_0000_0000_0000_0000_0000,
            forall|k: int| 0 <= k < i ==> !non_numeric(store[recs@[k] as int].attrs, name@),
        decreases recs.len() - i,
    {
        let x = recs[i];
        let rec = &records[x];
        assert(store[x as int] == rec@);
        let c: i128 = match rec.get(name) {
            None => 0,
            Some(Attr::Int(v)) => *v as i128 * MICROS,
            Some(Attr::Float(f)) => f.micros,
            Some(_) => {
                return None;
            },
        };
        proof {
            let prefix = recs@.subrange(0, i as int);
            assert(recs@.subrange(0, i + 1) =~= prefix.push(x));
            prefix.lemma_push_to_set_commute(x);
            assert(!prefix.to_set().contains(x)) by {
                if prefix.contains(x) {
                    let k = choose|k: int| 0 <= k < i && prefix[k] == x;
                    assert(recs@[k] == recs@[i as int]);
                }
            }
            seq_to_set_is_finite(prefix);
            lemma_fold_insert(prefix.to_set(), 0int, f, x);
            assert(c == contribution(store[x as int].attrs, name@));
            assert(-FIXED_LIMIT <= c <= FIXED_LIMIT);
            assert(i + 1 <= usize::MAX);
            assert(-((i + 1) * FIXED_LIMIT) <= total + c <= (i + 1) * FIXED_LIMIT) by (nonlinear_arith)
                requires
                    -(i * FIXED_LIMIT) <= total <= i * FIXED_LIMIT,
                    -FIXED_LIMIT <= c <= FIXED_LIMIT,
            ;
            assert((i + 1) * FIXED_LIMIT < 0x8000_0000_0000_0000_0000_0000_0000_0000) by (nonlinear_arith)
                requires
                    i + 1 <= usize::MAX,
            ;
        }
        total = total + c;
        i = i + 1;
    }
    assert(recs@.subrange(0, recs.len() as int) =~= recs@);
    Some(total)
}

impl Collection {
    /// Computes `op` over each group: its number of records, or the total or the
    /// mean of an attribute, in millionths. A record without the attribute counts
    /// as zero; a mean is rounded down to a millionth. A total or mean over an
    /// attribute that some record holds as a flag or a text fails.
    pub fn fold(&self, records: &Vec<Record>, op: FoldOperation) -> (r: Result<FoldResult, DataError>)
        requires
            within(self@, records.len() as int),
            records.len() <= i32::MAX,
        ensures
            r is Err <==> fold_fails(self@, store_model(records@), op),
            r matches Err(e) ==> e == DataError::AggregationTypeError,
            r matches Ok(res) ==> res@ == fold_model(self@, store_model(records@), op) && res.op() == op,
    {
        proof {
            use_type_invariant(self);
            lemma_view(self);
        }
        let ghost a = self@;
        let ghost store = store_model(records@);
        let ghost target = fold_model(a, store, op);
        let mut out: Vec<(u64, Attr)> = Vec::new();
        let ghost mut model: Map<u64, AttrModel> = Map::empty();
        assert(target.restrict(Set::new(|g: u64| exists|k: int| 0 <= k < 0 && self.groups@[k].id == g)) =~= model);
        let mut i: usize = 0;
        while i < self.groups.len()
            invariant
                groups_match(self.groups@, a),
                a == self@,
                within(a, records.len() as int),
                records.len() <= i32::MAX,
                store == store_model(records@),
                target == fold_model(a, store, op),
                i <= self.groups.len(),
                entries_match(out@, model),
                model == target.restrict(Set::new(|g: u64| exists|k: int| 0 <= k < i && self.groups@[k].id == g)),
                forall|k: int, q: int| 0 <= k < i && 0 <= q < self.groups@[k].records.len() ==> !(#[trigger] fold_fails_at(op, store, self.groups@[k].records@[q])),
            decreases self.groups.len() - i,
        {
            let grp: &Group = &self.groups[i];
            assert(self.groups@[i as int] == *grp);
            assert(a.contains_key(grp.id) && a[grp.id] == grp.records@.to_set());
            proof {
                assert forall|k: int| 0 <= k < grp.records.len() implies grp.records@[k] < records.len() by {
                    assert(a[grp.id].contains(grp.records@[k]));
                }
                lemma_distinct_below(grp.records@, records.len());
            }
            let n = grp.records.len();
            let v = match &op {
                FoldOperation::COUNT => Attr::Int(n as i32),
                FoldOperation::SUM(name) => match group_sum(&grp.records, records, name.as_str()) {
                    Some(t) => Attr::Float(Fixed { micros: t }),
                    None => {
                        proof {
                            let k = choose|k: int| 0 <= k < grp.records.len() && non_numeric(store[grp.records@[k] as int].attrs, name@);
                            assert(a[grp.id].contains(grp.records@[k]));
                        }
                        return Err(DataError::AggregationTypeError);
                    },
                },
                FoldOperation::AVG(name) => match group_sum(&grp.records, records, name.as_str()) {
                    Some(t) => {
                        let q = floor_div_exec(t, n as i128);
                        Attr::Float(Fixed { micros: q })
                    },
                    None => {
                        proof {
                            let k = choose|k: int| 0 <= k < grp.records.len() && non_numeric(store[grp.records@[k] as int].attrs, name@);
                            assert(a[grp.id].contains(grp.records@[k]));
                        }
                        return Err(DataError::AggregationTypeError);
                    },
                },
            };
            proof {
                assert forall|q: int| 0 <= q < grp.records.len() implies !(#[trigger] fold_fails_at(op, store, grp.records@[q])) by {}
            }
            let ghost seen = Set::new(|g: u64| exists|k: int| 0 <= k < i && self.groups@[k].id == g);
            let ghost seen2 = Set::new(|g: u64| exists|k: int| 0 <= k < i + 1 && self.groups@[k].id == g);
            proof {
                assert(seen2 =~= seen.insert(grp.id));
                assert(!seen.contains(grp.id));
                assert(v@ == fold_value(op, a[grp.id], store));
                assert(target.restrict(seen2) =~= target.restrict(seen).insert(grp.id, v@));
                assert(!model.contains_key(grp.id));
                let out2 = out@.push((grp.id, v));
                let model2 = model.insert(grp.id, v@);
                assert forall|k: int| 0 <= k < out@.len() implies out2[k] == out@[k] && out@[k].0 != grp.id by {
                    assert(model.contains_key(out@[k].0));
                }
                assert forall|g: u64| model2.contains_key(g) implies exists|k: int| 0 <= k < out2.len() && out2[k].0 == g by {
                    if g != grp.id {
                        let k = choose|k: int| 0 <= k < out@.len() && out@[k].0 == g;
                        assert(out2[k].0 == g);
                    } else {
                        assert(out2[out@.len() as int].0 == g);
                    }
                }
                assert forall|k: int| #![trigger out2[k]] 0 <= k < out2.len() implies model2.contains_key(out2[k].0) && model2[out2[k].0] == out2[k].1@ by {
                    if k < out@.len() {
                        assert(model.contains_key(out@[k].0));
                    }
                }
                model = model2;
            }
            out.push((grp.id, v));
            i = i + 1;
        }
        proof {
            assert(Set::new(|g: u64| exists|k: int| 0 <= k < self.groups@.len() && self.groups@[k].id == g) =~= a.dom());
            assert(target.restrict(a.dom()) =~= target);
            assert(!fold_fails(a, store, op)) by {
                match op {
                    FoldOperation::COUNT => {},
                    FoldOperation::SUM(name) => {
                        assert forall|g: u64, r: usize| a.contains_key(g) && #[trigger] a[g].contains(r) implies !non_numeric(store[r as int].attrs, name@) by {
                            let k = choose|k: int| 0 <= k < self.groups@.len() && self.groups@[k].id == g;
                            assert(self.groups@[k].records@.to_set().contains(r));
                            let q = choose|q: int| 0 <= q < self.groups@[k].records@.len() && self.groups@[k].records@[q] == r;
                            assert(!fold_fails_at(op, store, self.groups@[k].records@[q]));
                        }
                    },
                    FoldOperation::AVG(name) => {
                        assert forall|g: u64, r: usize| a.contains_key(g) && #[trigger] a[g].contains(r) implies !non_numeric(store[r as int].attrs, name@) by {
                            let k = choose|k: int| 0 <= k < self.groups@.len() && self.groups@[k].id == g;
                            assert(self.groups@[k].records@.to_set().contains(r));
                            let q = choose|q: int| 0 <= q < self.groups@[k].records@.len() && self.groups@[k].records@[q] == r;
                            assert(!fold_fails_at(op, store, self.groups@[k].records@[q]));
                        }
                    },
                }
            }
        }
        Ok(FoldResult { fold_func: op, result: out, model: Ghost(model) })
    }
}

/// Whether `op` fails on the record at position `r`.
pub open spec fn fold_fails_at(op: FoldOperation, store: Seq<RecordModel>, r: usize) -> bool {
    match op {
        FoldOperation::COUNT => false,
        FoldOperation::SUM(name) => non_numeric(store[r as int].attrs, name@),
        FoldOperation::AVG(name) => non_numeric(store[r as int].attrs, name@),
    }
}

} // verus!
