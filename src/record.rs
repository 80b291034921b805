use crate::attr::{trunc_units, Attr, AttrModel, FIXED_LIMIT};
use crate::schema::{
    attr_of, find_name, index_from, lemma_index_from, ComponentRule, Ctx, CtxModel, DataError,
};
use vstd::arithmetic::div_mod::{
    lemma_fundamental_div_mod, lemma_fundamental_div_mod_converse, lemma_mod_pos_bound,
};
use vstd::prelude::*;

verus! {

/// Starting state of the group-key hash (64-bit FNV-1a offset basis).
pub const HASH_OFFSET: u64 = 14695981039346656037;

/// Multiplier of the group-key hash (64-bit FNV prime).
pub const HASH_PRIME: u64 = 1099511628211;

/// What one grouping column contributes to a record's group key.
pub enum KeyPart {
    Num(int),
    Flag(bool),
    Text(Seq<char>),
}

/// `floor(a / b)` for `b != 0`.
pub open spec fn floor_div(a: int, b: int) -> int {
    if b > 0 {
        a / b
    } else {
        (-a) / (-b)
    }
}

/// The bucket of the integer `x` under `rule`.
pub open spec fn numeric_part(x: int, rule: ComponentRule) -> Result<KeyPart, DataError> {
    match rule {
        ComponentRule::Unique => Ok(KeyPart::Num(x)),
        ComponentRule::Interval(iv) => if iv.step == 0 {
            Err(DataError::InvalidRule)
        } else {
            Ok(KeyPart::Num(floor_div(x - iv.start, iv.step as int)))
        },
    }
}

/// The contribution of value `v` under `rule`: decimals count by their integer part
/// toward zero; an interval over a flag or a text is refused.
pub open spec fn key_part(v: AttrModel, rule: ComponentRule) -> Result<KeyPart, DataError> {
    match v {
        AttrModel::Int(x) => numeric_part(x as int, rule),
        AttrModel::Float(m) => numeric_part(trunc_units(m), rule),
        AttrModel::Bool(b) => match rule {
            ComponentRule::Unique => Ok(KeyPart::Flag(b)),
            ComponentRule::Interval(_) => Err(DataError::InvalidRule),
        },
        AttrModel::Str(s) => match rule {
            ComponentRule::Unique => Ok(KeyPart::Text(s)),
            ComponentRule::Interval(_) => Err(DataError::InvalidRule),
        },
    }
}

/// The words that one key part feeds to the hash: a tag, then its value.
pub open spec fn part_words(p: KeyPart) -> Seq<u64> {
    match p {
        KeyPart::Num(x) => seq![
            0u64,
            (x as i128) as u128 as u64,
            (((x as i128) as u128) >> 64u128) as u64,
        ],
        KeyPart::Flag(b) => seq![
            1u64,
            if b {
                1u64
            } else {
                0u64
            },
        ],
        KeyPart::Text(s) => seq![2u64, s.len() as u64] + s.map_values(|c: char| c as u32 as u64),
    }
}

/// The words of all key parts, in order.
pub open spec fn parts_words(ps: Seq<KeyPart>) -> Seq<u64>
    decreases ps.len(),
{
    if ps.len() == 0 {
        Seq::empty()
    } else {
        parts_words(ps.drop_last()) + part_words(ps.last())
    }
}

/// One step of the hash: mix in word `w`.
pub open spec fn mix(h: u64, w: u64) -> u64 {
    (h ^ w).wrapping_mul(HASH_PRIME)
}

/// FNV-1a over 64-bit words.
pub open spec fn hash_words(ws: Seq<u64>) -> u64
    decreases ws.len(),
{
    if ws.len() == 0 {
        HASH_OFFSET
    } else {
        mix(hash_words(ws.drop_last()), ws.last())
    }
}

/// The parsed attributes of a row, column by column; the first failure wins.
pub open spec fn parse_row(c: CtxModel, raw: Seq<(Seq<char>, Seq<char>)>) -> Result<
    Seq<(Seq<char>, AttrModel)>,
    DataError,
>
    decreases raw.len(),
{
    if raw.len() == 0 {
        Ok(Seq::empty())
    } else {
        match parse_row(c, raw.drop_last()) {
            Err(e) => Err(e),
            Ok(p) => match attr_of(c, raw.last().0, raw.last().1) {
                Err(e) => Err(e),
                Ok(v) => Ok(p.push((raw.last().0, v))),
            },
        }
    }
}

/// Named values as a map: a later value for a name replaces an earlier one.
pub open spec fn attrs_model(p: Seq<(Seq<char>, AttrModel)>) -> Map<Seq<char>, AttrModel>
    decreases p.len(),
{
    if p.len() == 0 {
        Map::empty()
    } else {
        attrs_model(p.drop_last()).insert(p.last().0, p.last().1)
    }
}

/// The key parts of a record with attributes `attrs`, in the schema's rule order.
pub open spec fn key_parts(
    rules: Seq<(Seq<char>, ComponentRule)>,
    attrs: Map<Seq<char>, AttrModel>,
) -> Result<Seq<KeyPart>, DataError>
    decreases rules.len(),
{
    if rules.len() == 0 {
        Ok(Seq::empty())
    } else {
        match key_parts(rules.drop_last(), attrs) {
            Err(e) => Err(e),
            Ok(ps) => if !attrs.contains_key(rules.last().0) {
                Err(DataError::MissingGroupingAttribute)
            } else {
                match key_part(attrs[rules.last().0], rules.last().1) {
                    Err(e) => Err(e),
                    Ok(p) => Ok(ps.push(p)),
                }
            },
        }
    }
}

/// The group key of a record with attributes `attrs`.
pub open spec fn group_key(c: CtxModel, attrs: Map<Seq<char>, AttrModel>) -> Result<
    u64,
    DataError,
> {
    match key_parts(c.rules, attrs) {
        Err(e) => Err(e),
        Ok(ps) => Ok(hash_words(parts_words(ps))),
    }
}

/// A record: its attributes by name, and its group key.
pub struct RecordModel {
    pub attrs: Map<Seq<char>, AttrModel>,
    pub group_id: u64,
}

/// The record that `raw` gives under schema `c`.
pub open spec fn build(c: CtxModel, raw: Seq<(Seq<char>, Seq<char>)>) -> Result<
    RecordModel,
    DataError,
> {
    match parse_row(c, raw) {
        Err(e) => Err(e),
        Ok(p) => match group_key(c, attrs_model(p)) {
            Err(e) => Err(e),
            Ok(g) => Ok(RecordModel { attrs: attrs_model(p), group_id: g }),
        },
    }
}

/// A row of `(column, text)` pairs, as character sequences.
pub open spec fn raw_model(raw: Seq<(&str, &str)>) -> Seq<(Seq<char>, Seq<char>)> {
    raw.map_values(|p: (&str, &str)| (p.0@, p.1@))
}

/// Entries with their names as character sequences.
pub open spec fn names_of(v: Seq<(String, Attr)>) -> Seq<(Seq<char>, Attr)> {
    v.map_values(|p: (String, Attr)| (p.0@, p.1))
}

/// `v` holds each name once, with the value that `m` gives it, and every name of `m`.
pub open spec fn attrs_match(v: Seq<(String, Attr)>, m: Map<Seq<char>, AttrModel>) -> bool {
    &&& forall|i: int, j: int| 0 <= i < v.len() && 0 <= j < v.len() && i != j ==> v[i].0@ != v[j].0@
    &&& forall|i: int|
        0 <= i < v.len() ==> #[trigger] m.contains_key(v[i].0@) && m[v[i].0@] == v[i].1@
    &&& forall|k: Seq<char>| m.contains_key(k) ==> exists|i: int| 0 <= i < v.len() && v[i].0@ == k
}

/// Every decimal value lies within `FIXED_LIMIT` millionths.
pub open spec fn values_bounded(attrs: Map<Seq<char>, AttrModel>) -> bool {
    forall|k: Seq<char>| #[trigger]
        attrs.contains_key(k) ==> match attrs[k] {
            AttrModel::Float(m) => -FIXED_LIMIT <= m <= FIXED_LIMIT,
            _ => true,
        }
}

/// An immutable row with its group key.
pub struct Record {
    attrs: Vec<(String, Attr)>,
    group_id: u64,
    model: Ghost<Map<Seq<char>, AttrModel>>,
}

impl View for Record {
    type V = RecordModel;

    closed spec fn view(&self) -> RecordModel {
        RecordModel { attrs: self.model@, group_id: self.group_id }
    }
}

proof fn lemma_parse_err(c: CtxModel, raw: Seq<(Seq<char>, Seq<char>)>, k: int)
    requires
        0 <= k <= raw.len(),
        parse_row(c, raw.subrange(0, k)) is Err,
    ensures
        parse_row(c, raw) == parse_row(c, raw.subrange(0, k)),
    decreases raw.len(),
{
    if k < raw.len() {
        assert(raw.drop_last().subrange(0, k) =~= raw.subrange(0, k));
        lemma_parse_err(c, raw.drop_last(), k);
    } else {
        assert(raw.subrange(0, k) =~= raw);
    }
}

proof fn lemma_key_err(
    rules: Seq<(Seq<char>, ComponentRule)>,
    attrs: Map<Seq<char>, AttrModel>,
    k: int,
)
    requires
        0 <= k <= rules.len(),
        key_parts(rules.subrange(0, k), attrs) is Err,
    ensures
        key_parts(rules, attrs) == key_parts(rules.subrange(0, k), attrs),
    decreases rules.len(),
{
    if k < rules.len() {
        assert(rules.drop_last().subrange(0, k) =~= rules.subrange(0, k));
        lemma_key_err(rules.drop_last(), attrs, k);
    } else {
        assert(rules.subrange(0, k) =~= rules);
    }
}

proof fn lemma_hash_push(ws: Seq<u64>, w: u64)
    ensures
        hash_words(ws.push(w)) == mix(hash_words(ws), w),
{
    assert(ws.push(w).drop_last() =~= ws);
}

fn feed(h: u64, w: u64) -> (r: u64)
    ensures
        r == mix(h, w),
{
    (h ^ w).wrapping_mul(HASH_PRIME)
}

/// `floor(a / b)`.
pub(crate) fn floor_div_exec(a: i128, b: i128) -> (r: i128)
    requires
        b != 0,
        a > i128::MIN,
        b > i128::MIN,
    ensures
        r == floor_div(a as int, b as int),
{
    let n: i128 = if b > 0 {
        a
    } else {
        -a
    };
    let d: i128 = if b > 0 {
        b
    } else {
        -b
    };
    assert(floor_div(a as int, b as int) == (n as int) / (d as int));
    if n >= 0 {
        n / d
    } else {
        let q = (-n) / d;
        let m = (-n) % d;
        proof {
            lemma_fundamental_div_mod(-n as int, d as int);
            lemma_mod_pos_bound(-n as int, d as int);
        }
        if m == 0 {
            proof {
                assert(n == (-q) * d) by (nonlinear_arith)
                    requires
                        -n == d * q + m,
                        m == 0,
                ;
                lemma_fundamental_div_mod_converse(n as int, d as int, -q, 0);
            }
            -q
        } else {
            proof {
                assert(n == (-q - 1) * d + (d - m)) by (nonlinear_arith)
                    requires
                        -n == d * q + m,
                ;
                lemma_fundamental_div_mod_converse(n as int, d as int, -q - 1, d - m);
            }
            -q - 1
        }
    }
}

impl Record {
    /// Builds a record from `(column, text)` pairs: each text is read as its
    /// column's declared type, and the group key is computed from the schema's
    /// grouping rules in their order of registration.
    pub fn new(ctx: &Ctx, raw_record: Vec<(&str, &str)>) -> (r: Result<Record, DataError>)
        ensures
            r matches Ok(rec) ==> build(ctx@, raw_model(raw_record@)) == Ok::<
                RecordModel,
                DataError,
            >(rec@),
            r matches Err(e) ==> build(ctx@, raw_model(raw_record@)) == Err::<
                RecordModel,
                DataError,
            >(e),
    {
        let ghost raw = raw_model(raw_record@);
        let mut attrs: Vec<(String, Attr)> = Vec::new();
        let ghost mut parsed: Seq<(Seq<char>, AttrModel)> = Seq::empty();
        let ghost mut model: Map<Seq<char>, AttrModel> = Map::empty();
        assert(raw.subrange(0, 0) =~= Seq::empty());
        let mut i: usize = 0;
        while i < raw_record.len()
            invariant
                i <= raw_record.len(),
                raw == raw_model(raw_record@),
                parse_row(ctx@, raw.subrange(0, i as int)) == Ok::<
                    Seq<(Seq<char>, AttrModel)>,
                    DataError,
                >(parsed),
                model == attrs_model(parsed),
                attrs_match(attrs@, model),
                values_bounded(model),
            decreases raw_record.len() - i,
        {
            let (name, text) = raw_record[i];
            proof {
                assert(raw.subrange(0, i + 1).drop_last() =~= raw.subrange(0, i as int));
                assert(raw.subrange(0, i + 1).last() == (name@, text@));
            }
            let v = match Attr::new(ctx, name, text) {
                Ok(v) => v,
                Err(e) => {
                    proof {
                        lemma_parse_err(ctx@, raw, i + 1);
                        assert(raw.subrange(0, raw.len() as int) =~= raw);
                    }
                    return Err(e);
                },
            };
            let key: String = name.to_owned();
            let ghost vm = v@;
            let ghost before = attrs@;
            proof {
                lemma_index_from(names_of(attrs@), key@, 0);
            }
            match find_name(&attrs, &key) {
                Some(j) => {
                    attrs.set(j, (key, v));
                    proof {
                        assert(before[j as int].0@ == name@);
                        assert forall|a: int| 0 <= a < attrs@.len() && a != j implies attrs@[a]
                            == before[a] by {}
                    }
                },
                None => {
                    attrs.push((key, v));
                    proof {
                        assert forall|a: int| 0 <= a < before.len() implies before[a].0@
                            != name@ by {
                            assert(names_of(before)[a].0 == before[a].0@);
                        }
                        assert forall|a: int| 0 <= a < before.len() implies attrs@[a]
                            == before[a] by {}
                    }
                },
            }
            proof {
                let new_model = model.insert(name@, vm);
                assert(values_bounded(new_model));
                assert(attrs_match(attrs@, new_model)) by {
                    assert forall|k: Seq<char>| new_model.contains_key(k) implies exists|t: int|
                        0 <= t < attrs@.len() && attrs@[t].0@ == k by {
                        if k != name@ {
                            let t = choose|t: int| 0 <= t < before.len() && before[t].0@ == k;
                            assert(attrs@[t].0@ == k);
                        } else {
                            if exists|t: int| 0 <= t < before.len() && before[t].0@ == name@ {
                                let t = choose|t: int|
                                    0 <= t < before.len() && before[t].0@ == name@;
                                assert(names_of(before)[t].0 == name@);
                                assert(attrs@[t].0@ == k);
                            } else {
                                assert(attrs@[before.len() as int].0@ == k);
                            }
                        }
                    }
                    assert forall|a: int| 0 <= a < attrs@.len() implies #[trigger]
                        new_model.contains_key(attrs@[a].0@) && new_model[attrs@[a].0@]
                        == attrs@[a].1@ by {
                        if attrs@[a].0@ != name@ {
                            assert(attrs@[a] == before[a]);
                            assert(model.contains_key(before[a].0@));
                        }
                    }
                }
                let prev = parsed;
                parsed = parsed.push((name@, vm));
                model = new_model;
                assert(parsed.drop_last() =~= prev);
            }
            i = i + 1;
        }
        assert(raw.subrange(0, raw.len() as int) =~= raw);
        match Self::key_of(ctx, &attrs, Ghost(model)) {
            Err(e) => Err(e),
            Ok(group_id) => Ok(Record { attrs, group_id, model: Ghost(model) }),
        }
    }

    /// Computes the group key of a record whose attributes are `attrs`.
    fn key_of(ctx: &Ctx, attrs: &Vec<(String, Attr)>, model: Ghost<Map<Seq<char>, AttrModel>>) -> (r:
        Result<u64, DataError>)
        requires
            attrs_match(attrs@, model@),
        ensures
            r matches Ok(g) ==> group_key(ctx@, model@) == Ok::<u64, DataError>(g),
            r matches Err(e) ==> group_key(ctx@, model@) == Err::<u64, DataError>(e),
    {
        let ghost rules = ctx@.rules;
        let ghost m = model@;
        let ghost mut parts: Seq<KeyPart> = Seq::empty();
        let mut h: u64 = HASH_OFFSET;
        let n = ctx.rule_count();
        assert(rules.subrange(0, 0) =~= Seq::<(Seq<char>, ComponentRule)>::empty());
        let mut i: usize = 0;
        while i < n
            invariant
                n == rules.len(),
                rules == ctx@.rules,
                m == model@,
                attrs_match(attrs@, m),
                i <= n,
                key_parts(rules.subrange(0, i as int), m) == Ok::<Seq<KeyPart>, DataError>(parts),
                h == hash_words(parts_words(parts)),
            decreases n - i,
        {
            let (name, rule) = ctx.rule_at(i);
            proof {
                assert(rules.subrange(0, i + 1).drop_last() =~= rules.subrange(0, i as int));
                assert(rules.subrange(0, i + 1).last() == (name@, rule));
                lemma_index_from(names_of(attrs@), name@, 0);
            }
            let j = match find_name(attrs, name) {
                Some(j) => j,
                None => {
                    proof {
                        if m.contains_key(name@) {
                            let t = choose|t: int| 0 <= t < attrs@.len() && attrs@[t].0@ == name@;
                            assert(names_of(attrs@)[t].0 == name@);
                        }
                        lemma_key_err(rules, m, i + 1);
                        assert(rules.subrange(0, rules.len() as int) =~= rules);
                    }
                    return Err(DataError::MissingGroupingAttribute);
                },
            };
            let value = &attrs[j].1;
            assert(m[name@] == value@);
            let ghost ws = parts_words(parts);
            let step = match Self::feed_part(h, value, rule, Ghost(ws)) {
                Err(e) => {
                    proof {
                        lemma_key_err(rules, m, i + 1);
                        assert(rules.subrange(0, rules.len() as int) =~= rules);
                    }
                    return Err(e);
                },
                Ok(next) => next,
            };
            proof {
                let p = key_part(m[name@], rule)->Ok_0;
                let new_parts = parts.push(p);
                assert(new_parts.drop_last() =~= parts);
                parts = new_parts;
            }
            h = step;
            i = i + 1;
        }
        assert(rules.subrange(0, rules.len() as int) =~= rules);
        Ok(h)
    }

    /// Feeds the key part of `value` under `rule` into hash state `h`, which has
    /// taken the words `ws`.
    fn feed_part(h: u64, value: &Attr, rule: ComponentRule, ws: Ghost<Seq<u64>>) -> (r: Result<
        u64,
        DataError,
    >)
        requires
            h == hash_words(ws@),
        ensures
            r matches Err(e) ==> key_part(value@, rule) == Err::<KeyPart, DataError>(e),
            r matches Ok(g) ==> key_part(value@, rule) is Ok && g == hash_words(
                ws@ + part_words(key_part(value@, rule)->Ok_0),
            ),
    {
        match value {
            Attr::Int(x) => Self::feed_number(h, *x as i128, rule, ws),
            Attr::Float(f) => {
                let t = f.trunc();
                Self::feed_number(h, t, rule, ws)
            },
            Attr::Bool(b) => match rule {
                ComponentRule::Unique => {
                    let w: u64 = if *b {
                        1
                    } else {
                        0
                    };
                    let h1 = feed(h, 1);
                    let h2 = feed(h1, w);
                    proof {
                        lemma_hash_push(ws@, 1);
                        lemma_hash_push(ws@.push(1), w);
                        assert(ws@.push(1).push(w) =~= ws@ + part_words(KeyPart::Flag(*b)));
                    }
                    Ok(h2)
                },
                ComponentRule::Interval(_) => Err(DataError::InvalidRule),
            },
            Attr::Str(s) => match rule {
                ComponentRule::Unique => {
                    let text = s.as_str();
                    let len = text.unicode_len();
                    let ghost chars = s@.map_values(|c: char| c as u32 as u64);
                    let ghost head = ws@.push(2u64).push(len as u64);
                    proof {
                        lemma_hash_push(ws@, 2);
                        lemma_hash_push(ws@.push(2u64), len as u64);
                        assert(head + chars.subrange(0, 0) =~= head);
                    }
                    let mut g = feed(feed(h, 2), len as u64);
                    let mut k: usize = 0;
                    while k < len
                        invariant
                            k <= len == s@.len(),
                            text@ == s@,
                            chars == s@.map_values(|c: char| c as u32 as u64),
                            g == hash_words(head + chars.subrange(0, k as int)),
                        decreases len - k,
                    {
                        let c = text.get_char(k);
                        proof {
                            lemma_hash_push(head + chars.subrange(0, k as int), c as u32 as u64);
                            assert((head + chars.subrange(0, k as int)).push(c as u32 as u64) =~= head
                                + chars.subrange(0, k + 1));
                        }
                        g = feed(g, c as u32 as u64);
                        k = k + 1;
                    }
                    proof {
                        assert(head + chars.subrange(0, len as int) =~= ws@ + part_words(
                            KeyPart::Text(s@),
                        ));
                    }
                    Ok(g)
                },
                ComponentRule::Interval(_) => Err(DataError::InvalidRule),
            },
        }
    }

    /// Feeds the bucket of the integer `x` under `rule` into hash state `h`.
    fn feed_number(h: u64, x: i128, rule: ComponentRule, ws: Ghost<Seq<u64>>) -> (r: Result<
        u64,
        DataError,
    >)
        requires
            h == hash_words(ws@),
            -0x1000_0000_0000_0000_0000_0000_0000 < x < 0x1000_0000_0000_0000_0000_0000_0000,
        ensures
            r matches Err(e) ==> numeric_part(x as int, rule) == Err::<KeyPart, DataError>(e),
            r matches Ok(g) ==> numeric_part(x as int, rule) is Ok && g == hash_words(
                ws@ + part_words(numeric_part(x as int, rule)->Ok_0),
            ),
    {
        let b: i128 = match rule {
            ComponentRule::Unique => x,
            ComponentRule::Interval(iv) => {
                if iv.step == 0 {
                    return Err(DataError::InvalidRule);
                }
                floor_div_exec(x - iv.start as i128, iv.step as i128)
            },
        };
        let ghost p = numeric_part(x as int, rule)->Ok_0;
        assert(p == KeyPart::Num(b as int));
        let lo = (b as u128) as u64;
        let hi = ((b as u128) >> 64) as u64;
        let h1 = feed(h, 0);
        let h2 = feed(h1, lo);
        let h3 = feed(h2, hi);
        proof {
            lemma_hash_push(ws@, 0);
            lemma_hash_push(ws@.push(0), lo);
            lemma_hash_push(ws@.push(0).push(lo), hi);
            assert(ws@.push(0).push(lo).push(hi) =~= ws@ + part_words(p));
        }
        Ok(h3)
    }

    /// The value of column `name`, if the record has it.
    pub fn get(&self, name: &str) -> (r: Option<&Attr>)
        ensures
            r matches Some(a) ==> self@.attrs.contains_key(name@) && self@.attrs[name@] == a@,
            r is None ==> !self@.attrs.contains_key(name@),
            values_bounded(self@.attrs),
    {
        proof {
            use_type_invariant(self);
        }
        let key: String = name.to_owned();
        proof {
            lemma_index_from(names_of(self.attrs@), key@, 0);
        }
        match find_name(&self.attrs, &key) {
            Some(j) => {
                proof {
                    assert(self.model@.contains_key(self.attrs@[j as int].0@));
                }
                Some(&self.attrs[j].1)
            },
            None => {
                proof {
                    if self.model@.contains_key(name@) {
                        let t = choose|t: int|
                            0 <= t < self.attrs@.len() && self.attrs@[t].0@ == name@;
                        assert(names_of(self.attrs@)[t].0 == name@);
                    }
                }
                None
            },
        }
    }

    /// The group key.
    pub fn group_id(&self) -> (r: u64)
        ensures
            r == self@.group_id,
    {
        self.group_id
    }

    #[verifier::type_invariant]
    spec fn inv(&self) -> bool {
        attrs_match(self.attrs@, self.model@) && values_bounded(self.model@)
    }
}

} // verus!
