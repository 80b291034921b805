use crate::attr::{Attr, AttrModel};
use crate::parse::parse_like;
use vstd::prelude::*;

verus! {

/// Bucketing of a numeric column: `floor((value - start) / step)`.
#[derive(Clone, Copy, Debug, PartialEq, Eq, Structural)]
pub struct Interval {
    pub start: i32,
    pub step: i32,
}

/// How a column contributes to a record's group key.
#[derive(Clone, Copy, Debug, PartialEq, Eq, Structural)]
pub enum ComponentRule {
    Unique,
    Interval(Interval),
}

/// Why a record could not be built or a fold could not be computed.
#[derive(Clone, Copy, Debug, PartialEq, Eq, Structural)]
pub enum DataError {
    /// The input names a column that the schema does not declare.
    UnknownColumn,
    /// The text cannot be read as the column's declared type.
    TypeMismatch,
    /// The input lacks a column that a grouping rule needs.
    MissingGroupingAttribute,
    /// An interval rule with step zero, or on a column that is not numeric.
    InvalidRule,
    /// An aggregate over a column that is not numeric.
    AggregationTypeError,
}

impl Interval {
    pub fn new(start: i32, step: i32) -> (r: Interval)
        ensures
            r.start == start,
            r.step == step,
    {
        Interval { start, step }
    }
}

/// Position of the first entry named `name`, at or after `i`.
pub open spec fn index_from<X>(entries: Seq<(Seq<char>, X)>, name: Seq<char>, i: int) -> Option<
    int,
>
    decreases entries.len() - i,
{
    if i < 0 || i >= entries.len() {
        None
    } else if entries[i].0 == name {
        Some(i)
    } else {
        index_from(entries, name, i + 1)
    }
}

/// What the first entry named `name` holds.
pub open spec fn lookup<X>(entries: Seq<(Seq<char>, X)>, name: Seq<char>) -> Option<X> {
    match index_from(entries, name, 0) {
        Some(i) => Some(entries[i].1),
        None => None,
    }
}

/// `entries` with `name` set to `x`: in place where it is present, else at the end.
pub open spec fn set_entry<X>(entries: Seq<(Seq<char>, X)>, name: Seq<char>, x: X) -> Seq<
    (Seq<char>, X),
> {
    match index_from(entries, name, 0) {
        Some(i) => entries.update(i, (name, x)),
        None => entries.push((name, x)),
    }
}

/// The schema: each column's declared type and, for some, a grouping rule,
/// both in order of registration.
pub struct CtxModel {
    pub types: Seq<(Seq<char>, AttrModel)>,
    pub rules: Seq<(Seq<char>, ComponentRule)>,
}

/// The schema after registering `name` with type sample `sample` and rule `rule`.
pub open spec fn register(
    m: CtxModel,
    name: Seq<char>,
    sample: AttrModel,
    rule: Option<ComponentRule>,
) -> CtxModel {
    CtxModel {
        types: set_entry(m.types, name, sample),
        rules: match rule {
            Some(r) => set_entry(m.rules, name, r),
            None => m.rules,
        },
    }
}

/// The value that raw text `raw` gives in column `name`.
pub open spec fn attr_of(m: CtxModel, name: Seq<char>, raw: Seq<char>) -> Result<
    AttrModel,
    DataError,
> {
    match lookup(m.types, name) {
        None => Err(DataError::UnknownColumn),
        Some(sample) => match parse_like(sample, raw) {
            Some(v) => Ok(v),
            None => Err(DataError::TypeMismatch),
        },
    }
}

/// Schema: declared column types and grouping rules.
pub struct Ctx {
    attr_type: Vec<(String, Attr)>,
    group_by: Vec<(String, ComponentRule)>,
}

pub open spec fn attr_entry_model(p: (String, Attr)) -> (Seq<char>, AttrModel) {
    (p.0@, p.1@)
}

pub open spec fn rule_entry_model(p: (String, ComponentRule)) -> (Seq<char>, ComponentRule) {
    (p.0@, p.1)
}

impl View for Ctx {
    type V = CtxModel;

    closed spec fn view(&self) -> CtxModel {
        CtxModel {
            types: self.attr_type@.map_values(|p: (String, Attr)| attr_entry_model(p)),
            rules: self.group_by@.map_values(|p: (String, ComponentRule)| rule_entry_model(p)),
        }
    }
}

/// Index of the first entry of `v` named `key`.
pub(crate) fn find_name<X>(v: &Vec<(String, X)>, key: &String) -> (r: Option<usize>)
    ensures
        r matches Some(i) ==> index_from(
            v@.map_values(|p: (String, X)| (p.0@, p.1)),
            key@,
            0,
        ) == Some(i as int),
        r is None ==> index_from(v@.map_values(|p: (String, X)| (p.0@, p.1)), key@, 0) is None,
        r matches Some(i) ==> i < v.len() && v@[i as int].0@ == key@,
{
    let ghost names = v@.map_values(|p: (String, X)| (p.0@, p.1));
    let mut i: usize = 0;
    while i < v.len()
        invariant
            i <= v.len(),
            names == v@.map_values(|p: (String, X)| (p.0@, p.1)),
            index_from(names, key@, 0) == index_from(names, key@, i as int),
        decreases v.len() - i,
    {
        if v[i].0 == *key {
            return Some(i);
        }
        i = i + 1;
    }
    None
}

/// Where `index_from` answers, the entry it names has that name, and no earlier one does.
pub(crate) proof fn lemma_index_from<X>(entries: Seq<(Seq<char>, X)>, name: Seq<char>, i: int)
    requires
        0 <= i <= entries.len(),
    ensures
        index_from(entries, name, i) matches Some(j) ==> i <= j < entries.len() && entries[j].0
            == name && forall|k: int| i <= k < j ==> entries[k].0 != name,
        index_from(entries, name, i) is None ==> forall|k: int|
            i <= k < entries.len() ==> entries[k].0 != name,
    decreases entries.len() - i,
{
    if i < entries.len() {
        lemma_index_from(entries, name, i + 1);
    }
}

proof fn lemma_index_map<X, Y>(v: Seq<(String, X)>, f: spec_fn(X) -> Y, name: Seq<char>, i: int)
    requires
        0 <= i <= v.len(),
    ensures
        index_from(v.map_values(|p: (String, X)| (p.0@, p.1)), name, i) == index_from(
            v.map_values(|p: (String, X)| (p.0@, f(p.1))),
            name,
            i,
        ),
    decreases v.len() - i,
{
    if i < v.len() {
        lemma_index_map(v, f, name, i + 1);
    }
}

proof fn lemma_types_index(c: &Ctx, name: Seq<char>)
    ensures
        index_from(c.attr_type@.map_values(|p: (String, Attr)| (p.0@, p.1)), name, 0)
            == index_from(c@.types, name, 0),
{
    let f = |a: Attr| a@;
    lemma_index_map(c.attr_type@, f, name, 0);
    assert(c.attr_type@.map_values(|p: (String, Attr)| (p.0@, f(p.1))) =~= c@.types);
}

impl Ctx {
    pub fn new() -> (r: Ctx)
        ensures
            r@.types.len() == 0,
            r@.rules.len() == 0,
    {
        let r = Ctx { attr_type: Vec::new(), group_by: Vec::new() };
        assert(r@.types =~= Seq::empty());
        assert(r@.rules =~= Seq::empty());
        r
    }

    /// Declares column `attr_name` with the type of `attr_type`, and with grouping
    /// rule `group_by` when one is given. A column registered again is replaced.
    pub fn add_attr_type(&mut self, attr_name: &str, attr_type: Attr, group_by: Option<ComponentRule>)
        ensures
            final(self)@ == register(old(self)@, attr_name@, attr_type@, group_by),
    {
        let key: String = attr_name.to_owned();
        let ghost model = attr_type@;
        let ghost old_view = self@;
        proof {
            lemma_types_index(self, key@);
        }
        match find_name(&self.attr_type, &key) {
            Some(i) => {
                self.attr_type.set(i, (key.clone(), attr_type));
            },
            None => {
                self.attr_type.push((key.clone(), attr_type));
            },
        }
        assert(self@.types =~= set_entry(old_view.types, attr_name@, model));
        if let Some(rule) = group_by {
            proof {
                let rv = self.group_by@.map_values(|p: (String, ComponentRule)| (p.0@, p.1));
                assert(rv =~= old_view.rules);
            }
            match find_name(&self.group_by, &key) {
                Some(i) => {
                    self.group_by.set(i, (key, rule));
                },
                None => {
                    self.group_by.push((key, rule));
                },
            }
            assert(self@.rules =~= set_entry(old_view.rules, attr_name@, rule));
        } else {
            assert(self@.rules =~= old_view.rules);
        }
    }

    /// The declared type sample of column `name`.
    pub fn type_of(&self, name: &String) -> (r: Option<&Attr>)
        ensures
            r matches Some(a) ==> lookup(self@.types, name@) == Some(a@),
            r is None ==> lookup(self@.types, name@) is None,
    {
        proof {
            lemma_types_index(self, name@);
        }
        match find_name(&self.attr_type, name) {
            Some(i) => Some(&self.attr_type[i].1),
            None => None,
        }
    }

    /// Number of grouping rules.
    pub fn rule_count(&self) -> (r: usize)
        ensures
            r == self@.rules.len(),
    {
        self.group_by.len()
    }

    /// The `i`-th grouping rule, in order of registration.
    pub fn rule_at(&self, i: usize) -> (r: (&String, ComponentRule))
        requires
            i < self@.rules.len(),
        ensures
            r.0@ == self@.rules[i as int].0,
            r.1 == self@.rules[i as int].1,
    {
        (&self.group_by[i].0, self.group_by[i].1)
    }
}

impl Attr {
    /// Reads `raw_attr` as a value of column `header`, whose type the schema fixes.
    pub fn new(ctx: &Ctx, header: &str, raw_attr: &str) -> (r: Result<Attr, DataError>)
        ensures
            r matches Ok(a) ==> attr_of(ctx@, header@, raw_attr@) == Ok::<AttrModel, DataError>(
                a@,
            ),
            r matches Err(e) ==> attr_of(ctx@, header@, raw_attr@) == Err::<AttrModel, DataError>(
                e,
            ),
    {
        let key: String = header.to_owned();
        match ctx.type_of(&key) {
            None => Err(DataError::UnknownColumn),
            Some(sample) => match sample.parse_like(raw_attr) {
                Some(v) => Ok(v),
                None => Err(DataError::TypeMismatch),
            },
        }
    }
}

} // verus!
