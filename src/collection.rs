use crate::attr::{attr_cmp, Attr, AttrModel};
use crate::record::{Record, RecordModel};
use std::cmp::Ordering;
use vstd::prelude::*;

verus! {

/// The records of a store, as models.
pub open spec fn store_model(records: Seq<Record>) -> Seq<RecordModel> {
    records.map_values(|r: Record| r@)
}

pub open spec fn nonempty(s: Set<usize>) -> bool {
    exists|r: usize| s.contains(r)
}

/// Every member of every group is a position in a store of `n` records.
pub open spec fn within(m: Map<u64, Set<usize>>, n: int) -> bool {
    forall|g: u64, r: usize| m.contains_key(g) && #[trigger] m[g].contains(r) ==> r < n
}

/// Every member of a group is a record of `store` whose group key is the group's id,
/// and no group is empty.
pub open spec fn consistent(m: Map<u64, Set<usize>>, store: Seq<RecordModel>) -> bool {
    &&& within(m, store.len() as int)
    &&& forall|g: u64, r: usize| m.contains_key(g) && #[trigger] m[g].contains(r) ==> store[r as int].group_id == g
    &&& forall|g: u64| #[trigger] m.contains_key(g) ==> nonempty(m[g])
}

/// The records at positions `members` of `store`, grouped by group key.
pub open spec fn partition(store: Seq<RecordModel>, members: Seq<usize>) -> Map<u64, Set<usize>> {
    Map::new(
        |g: u64|
            exists|i: int| 0 <= i < members.len() && #[trigger] store[members[i] as int].group_id == g,
        |g: u64| Set::new(|r: usize| members.contains(r) && store[r as int].group_id == g),
    )
}

/// A group of records that share a group key; records are held by their position in
/// the store they were read from.
pub struct Group {
    pub(crate) id: u64,
    pub(crate) records: Vec<usize>,
}

/// Groups of records by group key. No group is empty.
pub struct Collection {
    pub(crate) groups: Vec<Group>,
    pub(crate) model: Ghost<Map<u64, Set<usize>>>,
}

/// `gs` holds each id once, with a nonempty list of distinct members whose set is the
/// one that `m` gives that id, and every id of `m`.
pub(crate) open spec fn groups_match(gs: Seq<Group>, m: Map<u64, Set<usize>>) -> bool {
    &&& forall|i: int, j: int| 0 <= i < gs.len() && 0 <= j < gs.len() && i != j ==> gs[i].id != gs[j].id
    &&& forall|i: int|
        #![trigger gs[i]]
        0 <= i < gs.len() ==> {
            &&& gs[i].records@.no_duplicates()
            &&& gs[i].records@.len() > 0
            &&& m.contains_key(gs[i].id)
            &&& m[gs[i].id] == gs[i].records@.to_set()
        }
    &&& forall|g: u64| m.contains_key(g) ==> exists|i: int| 0 <= i < gs.len() && gs[i].id == g
}

impl View for Collection {
    type V = Map<u64, Set<usize>>;

    closed spec fn view(&self) -> Map<u64, Set<usize>> {
        self.model@
    }
}

pub(crate) proof fn lemma_view(c: &Collection)
    ensures
        c@ == c.model@,
{
}

proof fn lemma_push_group(gs: Seq<Group>, m: Map<u64, Set<usize>>, g: Group)
    requires
        groups_match(gs, m),
        !m.contains_key(g.id),
        g.records@.no_duplicates(),
        g.records@.len() > 0,
    ensures
        groups_match(gs.push(g), m.insert(g.id, g.records@.to_set())),
{
    let gs2 = gs.push(g);
    let m2 = m.insert(g.id, g.records@.to_set());
    assert forall|i: int| 0 <= i < gs.len() implies gs2[i] == gs[i] && gs[i].id != g.id by {
        assert(m.contains_key(gs[i].id));
    }
    assert forall|k: u64| m2.contains_key(k) implies exists|i: int|
        0 <= i < gs2.len() && gs2[i].id == k by {
        if k != g.id {
            let i = choose|i: int| 0 <= i < gs.len() && gs[i].id == k;
            assert(gs2[i].id == k);
        } else {
            assert(gs2[gs.len() as int].id == k);
        }
    }
    assert forall|i: int| 0 <= i < gs2.len() implies #[trigger] m2.contains_key(gs2[i].id)
        && m2[gs2[i].id] == gs2[i].records@.to_set() by {
        if i < gs.len() {
            assert(m.contains_key(gs[i].id));
        }
    }
}

proof fn lemma_push_no_dup(s: Seq<usize>, x: usize)
    requires
        s.no_duplicates(),
        !s.contains(x),
    ensures
        s.push(x).no_duplicates(),
{
    let t = s.push(x);
    assert forall|i: int, j: int| 0 <= i < t.len() && 0 <= j < t.len() && i != j implies t[i]
        != t[j] by {
        if i < s.len() && j < s.len() {
            assert(t[i] == s[i] && t[j] == s[j]);
        } else if i < s.len() {
            assert(t[i] == s[i]);
        } else {
            assert(t[j] == s[j]);
        }
    }
}

fn vec_contains(v: &Vec<usize>, x: usize) -> (r: bool)
    ensures
        r == v@.contains(x),
{
    let mut i: usize = 0;
    while i < v.len()
        invariant
            i <= v.len(),
            forall|k: int| 0 <= k < i ==> v@[k] != x,
        decreases v.len() - i,
    {
        if v[i] == x {
            return true;
        }
        i = i + 1;
    }
    false
}

/// Position of the group with id `id`.
fn find_group(gs: &Vec<Group>, m: Ghost<Map<u64, Set<usize>>>, id: u64) -> (r: Option<usize>)
    requires
        groups_match(gs@, m@),
    ensures
        r matches Some(i) ==> i < gs.len() && gs@[i as int].id == id && m@.contains_key(id)
            && m@[id] == gs@[i as int].records@.to_set(),
        r is None ==> !m@.contains_key(id),
{
    let mut i: usize = 0;
    while i < gs.len()
        invariant
            i <= gs.len(),
            groups_match(gs@, m@),
            forall|k: int| 0 <= k < i ==> gs@[k].id != id,
        decreases gs.len() - i,
    {
        if gs[i].id == id {
            assert(m@.contains_key(gs@[i as int].id));
            return Some(i);
        }
        i = i + 1;
    }
    None
}

/// Groups present on both sides, each with the records common to both; groups left
/// empty are dropped.
pub open spec fn intersect_model(a: Map<u64, Set<usize>>, b: Map<u64, Set<usize>>) -> Map<
    u64,
    Set<usize>,
> {
    Map::new(
        |g: u64| a.contains_key(g) && b.contains_key(g) && nonempty(a[g].intersect(b[g])),
        |g: u64| a[g].intersect(b[g]),
    )
}

/// Groups present on either side, each with the records of both.
pub open spec fn unite_model(a: Map<u64, Set<usize>>, b: Map<u64, Set<usize>>) -> Map<
    u64,
    Set<usize>,
> {
    Map::new(
        |g: u64| a.contains_key(g) || b.contains_key(g),
        |g: u64|
            if a.contains_key(g) && b.contains_key(g) {
                a[g].union(b[g])
            } else if a.contains_key(g) {
                a[g]
            } else {
                b[g]
            },
    )
}

/// Group `g` of `a` without the records of group `g` of `b`.
pub open spec fn minus(a: Map<u64, Set<usize>>, b: Map<u64, Set<usize>>, g: u64) -> Set<usize> {
    if b.contains_key(g) {
        a[g].difference(b[g])
    } else {
        a[g]
    }
}

/// Groups of `a`, each without the records of the same group of `b`; groups left
/// empty are dropped.
pub open spec fn subtract_model(a: Map<u64, Set<usize>>, b: Map<u64, Set<usize>>) -> Map<
    u64,
    Set<usize>,
> {
    Map::new(|g: u64| a.contains_key(g) && nonempty(minus(a, b, g)), |g: u64| minus(a, b, g))
}

/// Record `r` has attribute `name`, and it compares to `val` as `ord` says.
pub open spec fn keeps(r: RecordModel, name: Seq<char>, val: AttrModel, ord: Ordering) -> bool {
    r.attrs.contains_key(name) && attr_cmp(r.attrs[name], val) == Some(ord)
}

/// The members of `s` whose records satisfy the condition.
pub open spec fn kept(
    s: Set<usize>,
    store: Seq<RecordModel>,
    name: Seq<char>,
    val: AttrModel,
    ord: Ordering,
) -> Set<usize> {
    s.filter(|r: usize| keeps(store[r as int], name, val, ord))
}

/// Groups of `a`, each with only the records that satisfy the condition; groups left
/// empty are dropped.
pub open spec fn filter_model(
    a: Map<u64, Set<usize>>,
    store: Seq<RecordModel>,
    name: Seq<char>,
    val: AttrModel,
    ord: Ordering,
) -> Map<u64, Set<usize>> {
    Map::new(
        |g: u64| a.contains_key(g) && nonempty(kept(a[g], store, name, val, ord)),
        |g: u64| kept(a[g], store, name, val, ord),
    )
}

/// A condition on one attribute: its value compares to `val` as `ord`.
pub struct FilterCond {
    pub attr_name: String,
    pub val: Attr,
    pub ord: Ordering,
}

/// Ids of the first `i` groups of `gs`.
spec fn ids_upto(gs: Seq<Group>, i: int) -> Set<u64> {
    Set::new(|g: u64| exists|k: int| 0 <= k < i && gs[k].id == g)
}

proof fn lemma_ids_step(gs: Seq<Group>, m: Map<u64, Set<usize>>, i: int)
    requires
        groups_match(gs, m),
        0 <= i < gs.len(),
    ensures
        ids_upto(gs, i + 1) == ids_upto(gs, i).insert(gs[i].id),
        !ids_upto(gs, i).contains(gs[i].id),
{
    assert(ids_upto(gs, i + 1) =~= ids_upto(gs, i).insert(gs[i].id));
}

proof fn lemma_ids_all(gs: Seq<Group>, m: Map<u64, Set<usize>>)
    requires
        groups_match(gs, m),
    ensures
        m.dom() <= ids_upto(gs, gs.len() as int),
{
}

proof fn lemma_restrict_step(t: Map<u64, Set<usize>>, seen: Set<u64>, id: u64)
    ensures
        t.contains_key(id) ==> t.restrict(seen.insert(id)) =~= t.restrict(seen).insert(id, t[id]),
        !t.contains_key(id) ==> t.restrict(seen.insert(id)) =~= t.restrict(seen),
{
}

proof fn lemma_nonempty_vec(v: Seq<usize>)
    ensures
        nonempty(v.to_set()) <==> v.len() > 0,
{
    if v.len() > 0 {
        assert(v.to_set().contains(v[0]));
    }
}

proof fn lemma_prefix_step(a: Seq<usize>, i: int)
    requires
        0 <= i < a.len(),
    ensures
        a.subrange(0, i + 1).to_set() == a.subrange(0, i).to_set().insert(a[i]),
        a.no_duplicates() ==> !a.subrange(0, i).contains(a[i]),
{
    assert(a.subrange(0, i + 1) =~= a.subrange(0, i).push(a[i]));
    a.subrange(0, i).lemma_push_to_set_commute(a[i]);
    if a.no_duplicates() && a.subrange(0, i).contains(a[i]) {
        let k = choose|k: int| 0 <= k < i && a.subrange(0, i)[k] == a[i];
        assert(a[k] == a[i]);
    }
}

/// The members of `a` that are also in `b`.
fn intersect_vec(a: &Vec<usize>, b: &Vec<usize>) -> (r: Vec<usize>)
    requires
        a@.no_duplicates(),
    ensures
        r@.no_duplicates(),
        r@.to_set() == a@.to_set().intersect(b@.to_set()),
{
    let mut r: Vec<usize> = Vec::new();
    let mut i: usize = 0;
    assert(a@.subrange(0, 0).to_set() =~= Set::empty());
    assert(r@.to_set() =~= Set::empty());
    while i < a.len()
        invariant
            i <= a.len(),
            a@.no_duplicates(),
            r@.no_duplicates(),
            r@.to_set() == a@.subrange(0, i as int).to_set().intersect(b@.to_set()),
        decreases a.len() - i,
    {
        proof {
            lemma_prefix_step(a@, i as int);
        }
        let x = a[i];
        if vec_contains(b, x) {
            proof {
                assert(!r@.to_set().contains(x));
                lemma_push_no_dup(r@, x);
                r@.lemma_push_to_set_commute(x);
            }
            r.push(x);
            assert(r@.to_set() =~= a@.subrange(0, i + 1).to_set().intersect(b@.to_set()));
        } else {
            assert(r@.to_set() =~= a@.subrange(0, i + 1).to_set().intersect(b@.to_set()));
        }
        i = i + 1;
    }
    assert(a@.subrange(0, a.len() as int) =~= a@);
    r
}

/// The members of `a` that are not in `b`.
fn difference_vec(a: &Vec<usize>, b: &Vec<usize>) -> (r: Vec<usize>)
    requires
        a@.no_duplicates(),
    ensures
        r@.no_duplicates(),
        r@.to_set() == a@.to_set().difference(b@.to_set()),
{
    let mut r: Vec<usize> = Vec::new();
    let mut i: usize = 0;
    assert(a@.subrange(0, 0).to_set() =~= Set::empty());
    assert(r@.to_set() =~= Set::empty());
    while i < a.len()
        invariant
            i <= a.len(),
            a@.no_duplicates(),
            r@.no_duplicates(),
            r@.to_set() == a@.subrange(0, i as int).to_set().difference(b@.to_set()),
        decreases a.len() - i,
    {
        proof {
            lemma_prefix_step(a@, i as int);
        }
        let x = a[i];
        if !vec_contains(b, x) {
            proof {
                assert(!r@.to_set().contains(x));
                lemma_push_no_dup(r@, x);
                r@.lemma_push_to_set_commute(x);
            }
            r.push(x);
            assert(r@.to_set() =~= a@.subrange(0, i + 1).to_set().difference(b@.to_set()));
        } else {
            assert(r@.to_set() =~= a@.subrange(0, i + 1).to_set().difference(b@.to_set()));
        }
        i = i + 1;
    }
    assert(a@.subrange(0, a.len() as int) =~= a@);
    r
}

/// The members of `a`, then those of `b` that are not in `a`.
fn union_vec(a: &Vec<usize>, b: &Vec<usize>) -> (r: Vec<usize>)
    requires
        a@.no_duplicates(),
        b@.no_duplicates(),
    ensures
        r@.no_duplicates(),
        r@.to_set() == a@.to_set().union(b@.to_set()),
{
    let mut r: Vec<usize> = a.clone();
    let mut i: usize = 0;
    assert(b@.subrange(0, 0).to_set() =~= Set::empty());
    assert(r@.to_set() =~= a@.to_set().union(b@.subrange(0, 0).to_set()));
    while i < b.len()
        invariant
            i <= b.len(),
            b@.no_duplicates(),
            r@.no_duplicates(),
            r@.to_set() == a@.to_set().union(b@.subrange(0, i as int).to_set()),
        decreases b.len() - i,
    {
        proof {
            lemma_prefix_step(b@, i as int);
        }
        let x = b[i];
        if !vec_contains(&r, x) {
            proof {
                lemma_push_no_dup(r@, x);
                r@.lemma_push_to_set_commute(x);
            }
            r.push(x);
            assert(r@.to_set() =~= a@.to_set().union(b@.subrange(0, i + 1).to_set()));
        } else {
            assert(r@.to_set().contains(x));
            assert(r@.to_set() =~= a@.to_set().union(b@.subrange(0, i + 1).to_set()));
        }
        i = i + 1;
    }
    assert(b@.subrange(0, b.len() as int) =~= b@);
    r
}

fn copy_vec(v: &Vec<usize>) -> (r: Vec<usize>)
    ensures
        r@ == v@,
{
    let r = v.clone();
    assert(r@ =~= v@);
    r
}

fn same_ordering(a: Ordering, b: Ordering) -> (r: bool)
    ensures
        r == (a == b),
{
    match (a, b) {
        (Ordering::Less, Ordering::Less) => true,
        (Ordering::Equal, Ordering::Equal) => true,
        (Ordering::Greater, Ordering::Greater) => true,
        _ => false,
    }
}

/// Whether record `rec` satisfies the condition.
fn keeps_exec(rec: &Record, cond: &FilterCond) -> (r: bool)
    ensures
        r == keeps(rec@, cond.attr_name@, cond.val@, cond.ord),
{
    match rec.get(cond.attr_name.as_str()) {
        None => false,
        Some(a) => match a.compare(&cond.val) {
            Some(o) => same_ordering(o, cond.ord),
            None => false,
        },
    }
}

/// The members of `a` whose records satisfy the condition.
fn filter_vec(a: &Vec<usize>, records: &Vec<Record>, cond: &FilterCond) -> (r: Vec<usize>)
    requires
        a@.no_duplicates(),
        forall|k: int| 0 <= k < a.len() ==> a@[k] < records.len(),
    ensures
        r@.no_duplicates(),
        r@.to_set() == kept(
            a@.to_set(),
            store_model(records@),
            cond.attr_name@,
            cond.val@,
            cond.ord,
        ),
{
    let ghost store = store_model(records@);
    let ghost p = |x: usize| keeps(store[x as int], cond.attr_name@, cond.val@, cond.ord);
    let mut r: Vec<usize> = Vec::new();
    let mut i: usize = 0;
    assert(a@.subrange(0, 0).to_set() =~= Set::empty());
    assert(r@.to_set() =~= Set::empty().filter(p));
    while i < a.len()
        invariant
            i <= a.len(),
            a@.no_duplicates(),
            forall|k: int| 0 <= k < a.len() ==> a@[k] < records.len(),
            store == store_model(records@),
            p == (|x: usize| keeps(store[x as int], cond.attr_name@, cond.val@, cond.ord)),
            r@.no_duplicates(),
            r@.to_set() == a@.subrange(0, i as int).to_set().filter(p),
        decreases a.len() - i,
    {
        proof {
            lemma_prefix_step(a@, i as int);
        }
        let x = a[i];
        assert(store[x as int] == records@[x as int]@);
        if keeps_exec(&records[x], cond) {
            proof {
                assert(!r@.to_set().contains(x));
                lemma_push_no_dup(r@, x);
                r@.lemma_push_to_set_commute(x);
            }
            r.push(x);
            assert(r@.to_set() =~= a@.subrange(0, i + 1).to_set().filter(p));
        } else {
            assert(r@.to_set() =~= a@.subrange(0, i + 1).to_set().filter(p));
        }
        i = i + 1;
    }
    assert(a@.subrange(0, a.len() as int) =~= a@);
    r
}

impl Collection {
    #[verifier::type_invariant]
    pub(crate) open spec fn inv(&self) -> bool {
        groups_match(self.groups@, self.model@)
    }

    /// Groups the records of `records` at positions `members` by their group key.
    pub fn new(records: &Vec<Record>, members: Vec<usize>) -> (r: Collection)
        requires
            forall|i: int| 0 <= i < members.len() ==> members[i] < records.len(),
        ensures
            r@ == partition(store_model(records@), members@),
            consistent(r@, store_model(records@)),
    {
        let ghost store = store_model(records@);
        let mut groups: Vec<Group> = Vec::new();
        let ghost mut model: Map<u64, Set<usize>> = Map::empty();
        assert(partition(store, members@.subrange(0, 0)) =~~= model);
        let mut k: usize = 0;
        while k < members.len()
            invariant
                k <= members.len(),
                store == store_model(records@),
                forall|i: int| 0 <= i < members.len() ==> members[i] < records.len(),
                groups_match(groups@, model),
                model == partition(store, members@.subrange(0, k as int)),
            decreases members.len() - k,
        {
            let m = members[k];
            let g = records[m].group_id();
            let ghost prev = members@.subrange(0, k as int);
            let ghost next = members@.subrange(0, k + 1);
            assert(store[m as int] == records@[m as int]@);
            proof {
                assert forall|x: usize| next.contains(x) <==> prev.contains(x) || x == m by {
                    if next.contains(x) {
                        let i = choose|i: int| 0 <= i < next.len() && next[i] == x;
                        if i < k {
                            assert(prev[i] == x);
                        }
                    }
                    if prev.contains(x) {
                        let i = choose|i: int| 0 <= i < prev.len() && prev[i] == x;
                        assert(next[i] == x);
                    }
                    if x == m {
                        assert(next[k as int] == x);
                    }
                }
            }
            let ghost new_model = model.insert(g, model.get(g).unwrap_or(Set::empty()).insert(m));
            match find_group(&groups, Ghost(model), g) {
                Some(j) => {
                    if !vec_contains(&groups[j].records, m) {
                        let ghost before = groups@;
                        let mut grp = groups.remove(j);
                        proof {
                            lemma_push_no_dup(grp.records@, m);
                            grp.records@.lemma_push_to_set_commute(m);
                            assert(before[j as int].id == g);
                        }
                        grp.records.push(m);
                        groups.insert(j, grp);
                        proof {
                            assert forall|i: int| 0 <= i < groups@.len() && i != j implies groups@[i]
                                == before[i] by {}
                            assert(groups_match(groups@, new_model)) by {
                                assert forall|i: int| 0 <= i < groups@.len() implies #[trigger] new_model.contains_key(groups@[i].id)
                                    && new_model[groups@[i].id] == groups@[i].records@.to_set() by {
                                    if i != j {
                                        assert(model.contains_key(before[i].id));
                                    }
                                }
                                assert forall|q: u64| new_model.contains_key(q) implies exists|i: int|
                                    0 <= i < groups@.len() && groups@[i].id == q by {
                                    let i = choose|i: int| 0 <= i < before.len() && before[i].id == q;
                                    assert(groups@[i].id == q);
                                }
                            }
                        }
                    } else {
                        proof {
                            let s = model[g];
                            assert(s.insert(m) =~= s);
                            assert(new_model =~= model);
                        }
                    }
                },
                None => {
                    let mut recs: Vec<usize> = Vec::new();
                    recs.push(m);
                    proof {
                        assert(recs@.no_duplicates());
                        lemma_push_group(groups@, model, Group { id: g, records: recs });
                        assert(recs@.to_set() =~= Set::empty().insert(m)) by {
                            assert(recs@[0] == m);
                        }
                    }
                    groups.push(Group { id: g, records: recs });
                },
            }
            proof {
                let target = partition(store, next);
                assert forall|q: u64| #[trigger] target.contains_key(q) <==> new_model.contains_key(q) by {
                    if target.contains_key(q) {
                        let i = choose|i: int| 0 <= i < next.len() && store[next[i] as int].group_id == q;
                        if i < k {
                            assert(prev[i] == next[i]);
                        }
                    }
                    if model.contains_key(q) {
                        let i = choose|i: int| 0 <= i < prev.len() && store[prev[i] as int].group_id == q;
                        assert(next[i] == prev[i]);
                    }
                    if q == g {
                        assert(next[k as int] == m);
                    }
                }
                assert forall|q: u64| #[trigger] target.contains_key(q) implies target[q] =~= new_model[q] by {
                    if q == g && !model.contains_key(q) {
                        assert forall|x: usize| target[q].contains(x) implies x == m by {
                            if prev.contains(x) {
                                let i = choose|i: int| 0 <= i < prev.len() && prev[i] == x;
                                assert(model.contains_key(q));
                            }
                        }
                    }
                }
                assert(target =~~= new_model);
                model = new_model;
            }
            k = k + 1;
        }
        assert(members@.subrange(0, members.len() as int) =~= members@);
        let r = Collection { groups, model: Ghost(model) };
        proof {
            lemma_partition_consistent(store, members@);
        }
        r
    }

    /// Keeps, in each group, the records whose attribute `attr_name` compares to
    /// `val` as `ord` says; a record without the attribute, or whose value is of
    /// another case, is dropped. Groups left empty are dropped.
    pub fn filter_records(self, records: &Vec<Record>, filter_cond: FilterCond) -> (r: Collection)
        requires
            within(self@, records.len() as int),
        ensures
            r@ == filter_model(
                self@,
                store_model(records@),
                filter_cond.attr_name@,
                filter_cond.val@,
                filter_cond.ord,
            ),
    {
        proof {
            use_type_invariant(&self);
        }
        let ghost a = self@;
        let ghost store = store_model(records@);
        let ghost target = filter_model(
            a,
            store,
            filter_cond.attr_name@,
            filter_cond.val@,
            filter_cond.ord,
        );
        let mut out: Vec<Group> = Vec::new();
        let ghost mut model: Map<u64, Set<usize>> = Map::empty();
        assert(target.restrict(ids_upto(self.groups@, 0)) =~= model);
        let mut i: usize = 0;
        while i < self.groups.len()
            invariant
                target == filter_model(
                    a,
                    store,
                    filter_cond.attr_name@,
                    filter_cond.val@,
                    filter_cond.ord,
                ),
                groups_match(self.groups@, a),
                within(a, records.len() as int),
                store == store_model(records@),
                i <= self.groups.len(),
                groups_match(out@, model),
                model == target.restrict(ids_upto(self.groups@, i as int)),
            decreases self.groups.len() - i,
        {
            let grp = &self.groups[i];
            proof {
                lemma_ids_step(self.groups@, a, i as int);
                lemma_restrict_step(target, ids_upto(self.groups@, i as int), grp.id);
                assert forall|k: int| 0 <= k < grp.records.len() implies grp.records@[k]
                    < records.len() by {
                    assert(a[grp.id].contains(grp.records@[k]));
                }
            }
            let recs = filter_vec(&grp.records, records, &filter_cond);
            proof {
                lemma_nonempty_vec(recs@);
            }
            if recs.len() > 0 {
                let g = Group { id: grp.id, records: recs };
                proof {
                    lemma_push_group(out@, model, g);
                    model = model.insert(g.id, g.records@.to_set());
                }
                out.push(g);
            }
            i = i + 1;
        }
        proof {
            lemma_ids_all(self.groups@, a);
            assert(target.restrict(ids_upto(self.groups@, self.groups@.len() as int)) =~= target);
        }
        Collection { groups: out, model: Ghost(model) }
    }

    /// For each group present on both sides, the records present on both sides;
    /// groups left empty are dropped.
    pub fn intersection(self, other: &Self) -> (r: Collection)
        ensures
            r@ == intersect_model(self@, other@),
    {
        proof {
            use_type_invariant(&self);
            use_type_invariant(other);
        }
        let ghost a = self@;
        let ghost b = other@;
        let ghost target = intersect_model(a, b);
        let mut out: Vec<Group> = Vec::new();
        let ghost mut model: Map<u64, Set<usize>> = Map::empty();
        assert(target.restrict(ids_upto(self.groups@, 0)) =~= model);
        let mut i: usize = 0;
        while i < self.groups.len()
            invariant
                target == intersect_model(a, b),
                groups_match(self.groups@, a),
                groups_match(other.groups@, b),
                i <= self.groups.len(),
                groups_match(out@, model),
                model == target.restrict(ids_upto(self.groups@, i as int)),
            decreases self.groups.len() - i,
        {
            let grp = &self.groups[i];
            proof {
                lemma_ids_step(self.groups@, a, i as int);
                lemma_restrict_step(target, ids_upto(self.groups@, i as int), grp.id);
                assert(self.groups@[i as int] == *grp);
                assert(a.contains_key(grp.id) && a[grp.id] == grp.records@.to_set());
            }
            match find_group(&other.groups, Ghost(b), grp.id) {
                Some(j) => {
                    let recs = intersect_vec(&grp.records, &other.groups[j].records);
                    proof {
                        lemma_nonempty_vec(recs@);
                        assert(target.contains_key(grp.id) == (recs.len() > 0));
                    }
                    if recs.len() > 0 {
                        let g = Group { id: grp.id, records: recs };
                        proof {
                            lemma_push_group(out@, model, g);
                            model = model.insert(g.id, g.records@.to_set());
                        }
                        out.push(g);
                    }
                },
                None => {},
            }
            i = i + 1;
        }
        proof {
            lemma_ids_all(self.groups@, a);
            assert(target.restrict(ids_upto(self.groups@, self.groups@.len() as int)) =~= target);
        }
        Collection { groups: out, model: Ghost(model) }
    }

    /// For each group of `self`, its records that the same group of `other` lacks;
    /// groups left empty are dropped.
    pub fn difference(self, other: &Self) -> (r: Collection)
        ensures
            r@ == subtract_model(self@, other@),
    {
        proof {
            use_type_invariant(&self);
            use_type_invariant(other);
        }
        let ghost a = self@;
        let ghost b = other@;
        let ghost target = subtract_model(a, b);
        let mut out: Vec<Group> = Vec::new();
        let ghost mut model: Map<u64, Set<usize>> = Map::empty();
        assert(target.restrict(ids_upto(self.groups@, 0)) =~= model);
        let mut i: usize = 0;
        while i < self.groups.len()
            invariant
                target == subtract_model(a, b),
                groups_match(self.groups@, a),
                groups_match(other.groups@, b),
                i <= self.groups.len(),
                groups_match(out@, model),
                model == target.restrict(ids_upto(self.groups@, i as int)),
            decreases self.groups.len() - i,
        {
            let grp = &self.groups[i];
            proof {
                lemma_ids_step(self.groups@, a, i as int);
                lemma_restrict_step(target, ids_upto(self.groups@, i as int), grp.id);
                assert(self.groups@[i as int] == *grp);
                assert(a.contains_key(grp.id) && a[grp.id] == grp.records@.to_set());
            }
            let recs = match find_group(&other.groups, Ghost(b), grp.id) {
                Some(j) => difference_vec(&grp.records, &other.groups[j].records),
                None => copy_vec(&grp.records),
            };
            proof {
                lemma_nonempty_vec(recs@);
            }
            if recs.len() > 0 {
                let g = Group { id: grp.id, records: recs };
                proof {
                    lemma_push_group(out@, model, g);
                    model = model.insert(g.id, g.records@.to_set());
                }
                out.push(g);
            }
            i = i + 1;
        }
        proof {
            lemma_ids_all(self.groups@, a);
            assert(target.restrict(ids_upto(self.groups@, self.groups@.len() as int)) =~= target);
        }
        Collection { groups: out, model: Ghost(model) }
    }

    /// For each group present on either side, the records of both sides.
    pub fn union(self, other: &Self) -> (r: Collection)
        ensures
            r@ == unite_model(self@, other@),
    {
        proof {
            use_type_invariant(&self);
            use_type_invariant(other);
        }
        let ghost a = self@;
        let ghost b = other@;
        let ghost target = unite_model(a, b);
        let mut out: Vec<Group> = Vec::new();
        let ghost mut model: Map<u64, Set<usize>> = Map::empty();
        assert(target.restrict(ids_upto(self.groups@, 0)) =~= model);
        let mut i: usize = 0;
        while i < self.groups.len()
            invariant
                target == unite_model(a, b),
                groups_match(self.groups@, a),
                groups_match(other.groups@, b),
                i <= self.groups.len(),
                groups_match(out@, model),
                model == target.restrict(ids_upto(self.groups@, i as int)),
            decreases self.groups.len() - i,
        {
            let grp = &self.groups[i];
            proof {
                lemma_ids_step(self.groups@, a, i as int);
                lemma_restrict_step(target, ids_upto(self.groups@, i as int), grp.id);
                assert(self.groups@[i as int] == *grp);
                assert(a.contains_key(grp.id) && a[grp.id] == grp.records@.to_set());
            }
            let recs = match find_group(&other.groups, Ghost(b), grp.id) {
                Some(j) => union_vec(&grp.records, &other.groups[j].records),
                None => copy_vec(&grp.records),
            };
            proof {
                lemma_nonempty_vec(recs@);
                lemma_nonempty_vec(grp.records@);
                assert(recs@.to_set().contains(grp.records@[0]));
                assert(target.contains_key(grp.id));
                assert(target[grp.id] == recs@.to_set());
            }
            let g = Group { id: grp.id, records: recs };
            proof {
                lemma_push_group(out@, model, g);
                model = model.insert(g.id, g.records@.to_set());
            }
            out.push(g);
            i = i + 1;
        }
        proof {
            lemma_ids_all(self.groups@, a);
            assert(ids_upto(self.groups@, self.groups@.len() as int) =~= a.dom());
            assert(target.restrict(a.dom().union(ids_upto(other.groups@, 0))) =~= model);
        }
        let mut k: usize = 0;
        while k < other.groups.len()
            invariant
                target == unite_model(a, b),
                groups_match(self.groups@, a),
                groups_match(other.groups@, b),
                k <= other.groups.len(),
                groups_match(out@, model),
                model == target.restrict(a.dom().union(ids_upto(other.groups@, k as int))),
            decreases other.groups.len() - k,
        {
            let grp = &other.groups[k];
            proof {
                assert(other.groups@[k as int] == *grp);
                assert(b.contains_key(grp.id) && b[grp.id] == grp.records@.to_set());
                lemma_ids_step(other.groups@, b, k as int);
                assert(a.dom().union(ids_upto(other.groups@, k + 1)) =~= a.dom().union(
                    ids_upto(other.groups@, k as int),
                ).insert(grp.id));
                lemma_restrict_step(
                    target,
                    a.dom().union(ids_upto(other.groups@, k as int)),
                    grp.id,
                );
            }
            match find_group(&self.groups, Ghost(a), grp.id) {
                Some(_) => {
                    proof {
                        assert(a.dom().union(ids_upto(other.groups@, k as int)).insert(grp.id)
                            =~= a.dom().union(ids_upto(other.groups@, k as int)));
                    }
                },
                None => {
                    let g = Group { id: grp.id, records: copy_vec(&grp.records) };
                    proof {
                        lemma_push_group(out@, model, g);
                        model = model.insert(g.id, g.records@.to_set());
                    }
                    out.push(g);
                },
            }
            k = k + 1;
        }
        proof {
            lemma_ids_all(other.groups@, b);
            assert(target.restrict(a.dom().union(ids_upto(other.groups@, other.groups@.len() as int)))
                =~= target);
        }
        Collection { groups: out, model: Ghost(model) }
    }

    /// Number of groups.
    pub fn len(&self) -> (r: usize)
        ensures
            r == self@.dom().len(),
            self@.dom().finite(),
    {
        let ids = self.ids();
        proof {
            ids@.unique_seq_to_set();
        }
        ids.len()
    }

    /// The group ids, each once.
    pub fn ids(&self) -> (r: Vec<u64>)
        ensures
            r@.no_duplicates(),
            r@.to_set() == self@.dom(),
    {
        proof {
            use_type_invariant(self);
        }
        let mut r: Vec<u64> = Vec::new();
        let mut i: usize = 0;
        while i < self.groups.len()
            invariant
                i <= self.groups.len(),
                groups_match(self.groups@, self.model@),
                r@.len() == i,
                forall|k: int| 0 <= k < i ==> r@[k] == self.groups@[k].id,
            decreases self.groups.len() - i,
        {
            r.push(self.groups[i].id);
            i = i + 1;
        }
        assert(r@.no_duplicates()) by {
            assert forall|a: int, b: int| 0 <= a < r@.len() && 0 <= b < r@.len() && a != b implies r@[a] != r@[b] by {
                assert(r@[a] == self.groups@[a].id && r@[b] == self.groups@[b].id);
            }
        }
        assert(r@.to_set() =~= self@.dom()) by {
            assert forall|g: u64| r@.to_set().contains(g) <==> self@.dom().contains(g) by {
                if r@.contains(g) {
                    let k = choose|k: int| 0 <= k < r@.len() && r@[k] == g;
                    assert(self.model@.contains_key(self.groups@[k].id));
                }
                if self.model@.contains_key(g) {
                    let k = choose|k: int| 0 <= k < self.groups@.len() && self.groups@[k].id == g;
                    assert(r@[k] == g);
                }
            }
        }
        r
    }

    /// The positions of the records of group `id`, each once.
    pub fn members(&self, id: u64) -> (r: Option<Vec<usize>>)
        ensures
            r matches Some(v) ==> self@.contains_key(id) && v@.no_duplicates() && v@.to_set()
                == self@[id],
            r is None ==> !self@.contains_key(id),
    {
        proof {
            use_type_invariant(self);
        }
        match find_group(&self.groups, Ghost(self.model@), id) {
            Some(j) => Some(copy_vec(&self.groups[j].records)),
            None => None,
        }
    }
}

/// A partition of valid positions is consistent with its store.
proof fn lemma_partition_consistent(store: Seq<RecordModel>, members: Seq<usize>)
    requires
        forall|i: int| 0 <= i < members.len() ==> members[i] < store.len(),
    ensures
        consistent(partition(store, members), store),
{
    let p = partition(store, members);
    assert forall|g: u64, r: usize| p.contains_key(g) && #[trigger] p[g].contains(r) implies r
        < store.len() by {
        let i = choose|i: int| 0 <= i < members.len() && members[i] == r;
    }
    assert forall|g: u64| #[trigger] p.contains_key(g) implies nonempty(p[g]) by {
        let i = choose|i: int| 0 <= i < members.len() && #[trigger] store[members[i] as int].group_id == g;
        assert(members.contains(members[i]));
        assert(p[g].contains(members[i]));
    }
}

} // verus!
