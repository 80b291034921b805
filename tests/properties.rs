use std::cmp::Ordering;
use tabgroup::{
    Attr, Collection, ComponentRule, Ctx, DataError, Fixed, FilterCond, FoldOperation, Interval,
    Record,
};

fn ctx() -> Ctx {
    let mut ctx = Ctx::new();
    ctx.add_attr_type("id", Attr::Int(0), Some(ComponentRule::Unique));
    ctx.add_attr_type(
        "t",
        Attr::Float(Fixed::from_micros(0)),
        Some(ComponentRule::Interval(Interval::new(1, 3))),
    );
    ctx.add_attr_type("i", Attr::Int(0), None);
    ctx.add_attr_type("f", Attr::Float(Fixed::from_micros(0)), None);
    ctx.add_attr_type("b", Attr::Bool(false), None);
    ctx.add_attr_type("s", Attr::Str(String::new()), None);
    ctx
}

fn rec(ctx: &Ctx, pairs: &[(&str, &str)]) -> Result<Record, DataError> {
    Record::new(ctx, pairs.to_vec())
}

fn float(micros: i128) -> Attr {
    Attr::Float(Fixed::from_micros(micros))
}

fn size(c: &Collection, id: u64) -> usize {
    c.members(id).map(|m| m.len()).unwrap_or(0)
}

#[test]
fn building_twice_gives_the_same_record() {
    let c = ctx();
    let pairs = [("id", "4"), ("t", "5.5"), ("i", "9"), ("s", "x")];
    let a = rec(&c, &pairs).unwrap();
    let b = rec(&c, &pairs).unwrap();
    assert_eq!(a.group_id(), b.group_id());
    for name in ["id", "t", "i", "s"] {
        assert_eq!(a.get(name), b.get(name));
    }
}

#[test]
fn column_order_does_not_change_the_group() {
    let c = ctx();
    let a = rec(&c, &[("id", "4"), ("t", "5.5"), ("i", "9")]).unwrap();
    let b = rec(&c, &[("i", "9"), ("t", "5.5"), ("id", "4")]).unwrap();
    let d = rec(&c, &[("t", "5.5"), ("id", "4"), ("i", "9")]).unwrap();
    assert_eq!(a.group_id(), b.group_id());
    assert_eq!(a.group_id(), d.group_id());
    assert_eq!(b.get("i"), Some(&Attr::Int(9)));
}

#[test]
fn interval_buckets_scenario() {
    let c = ctx();
    let ids: Vec<u64> = ["1.1", "2.9", "3.0", "3.9", "7.9"]
        .iter()
        .map(|t| rec(&c, &[("id", "0"), ("t", t)]).unwrap().group_id())
        .collect();
    assert_eq!(ids[0], ids[1]);
    assert_eq!(ids[0], ids[2]);
    assert_eq!(ids[0], ids[3]);
    assert_ne!(ids[0], ids[4]);
}

#[test]
fn negative_values_bucket_by_floor() {
    let c = ctx();
    // floor((-1 - 1) / 3) = -1 and floor((1 - 1) / 3) = 0, where truncation gives 0 for both
    let a = rec(&c, &[("id", "0"), ("t", "-1")]).unwrap();
    let b = rec(&c, &[("id", "0"), ("t", "1")]).unwrap();
    let d = rec(&c, &[("id", "0"), ("t", "-3")]).unwrap();
    let e = rec(&c, &[("id", "0"), ("t", "-2")]).unwrap();
    assert_ne!(a.group_id(), b.group_id());
    assert_ne!(a.group_id(), d.group_id());
    assert_eq!(a.group_id(), e.group_id());
}

#[test]
fn partition_places_each_record_once() {
    let c = ctx();
    let records: Vec<Record> = [("0", "1"), ("0", "8"), ("1", "1"), ("0", "2"), ("1", "2")]
        .iter()
        .map(|(id, t)| rec(&c, &[("id", id), ("t", t)]).unwrap())
        .collect();
    let members = vec![0, 1, 2, 3, 4, 3];
    let col = Collection::new(&records, members);
    assert_eq!(col.len(), 3);
    let mut seen = vec![0usize; records.len()];
    for id in col.ids() {
        for m in col.members(id).unwrap() {
            assert_eq!(records[m].group_id(), id);
            seen[m] += 1;
        }
    }
    assert_eq!(seen, vec![1, 1, 1, 1, 1]);
}

#[test]
fn partial_view_holds_only_its_members() {
    let c = ctx();
    let records: Vec<Record> = ["1", "2", "9"]
        .iter()
        .map(|t| rec(&c, &[("id", "0"), ("t", t)]).unwrap())
        .collect();
    let col = Collection::new(&records, vec![0, 2]);
    assert_eq!(col.len(), 2);
    assert_eq!(col.members(records[0].group_id()), Some(vec![0]));
    assert_eq!(col.members(records[2].group_id()), Some(vec![2]));
}

fn two_group_records(c: &Ctx) -> Vec<Record> {
    [("0", "1"), ("0", "1"), ("0", "1"), ("1", "1"), ("1", "1")]
        .iter()
        .map(|(id, t)| rec(c, &[("id", id), ("t", t)]).unwrap())
        .collect()
}

#[test]
fn intersect_then_unite_covers_other_side() {
    let c = ctx();
    let records = two_group_records(&c);
    let g0 = records[0].group_id();
    let a = Collection::new(&records, vec![0, 3]);
    let b = Collection::new(&records, vec![1, 2, 4]);
    let r = a.intersection(&b).union(&b);
    let mut m = r.members(g0).unwrap();
    m.sort();
    assert_eq!(m, vec![1, 2]);
    assert_eq!(r.members(records[3].group_id()).unwrap().len(), 1);
}

#[test]
fn subtract_self_is_empty() {
    let c = ctx();
    let records = two_group_records(&c);
    let a = Collection::new(&records, vec![0, 1, 2, 3, 4]);
    let a2 = Collection::new(&records, vec![0, 1, 2, 3, 4]);
    assert_eq!(a.difference(&a2).len(), 0);
}

#[test]
fn unite_then_intersect_stays_within_other_side() {
    let c = ctx();
    let records = two_group_records(&c);
    let a = Collection::new(&records, vec![0, 3]);
    let b = Collection::new(&records, vec![1, 4]);
    let r = a.union(&b).intersection(&b);
    let mut all: Vec<usize> = r.ids().iter().flat_map(|id| r.members(*id).unwrap()).collect();
    all.sort();
    assert_eq!(all, vec![1, 4]);
}

#[test]
fn identity_not_value_decides_membership() {
    let c = ctx();
    let records = two_group_records(&c);
    // records 0 and 1 hold equal values but are different records
    let a = Collection::new(&records, vec![0]);
    let b = Collection::new(&records, vec![1]);
    assert_eq!(a.intersection(&b).len(), 0);
}

#[test]
fn difference_keeps_groups_missing_from_other() {
    let c = ctx();
    let records = two_group_records(&c);
    let a = Collection::new(&records, vec![0, 1, 3]);
    let b = Collection::new(&records, vec![0]);
    let d = a.difference(&b);
    assert_eq!(d.len(), 2);
    assert_eq!(d.members(records[0].group_id()), Some(vec![1]));
    assert_eq!(size(&d, records[3].group_id()), 1);
}

#[test]
fn union_passes_groups_of_either_side() {
    let c = ctx();
    let records = two_group_records(&c);
    let a = Collection::new(&records, vec![0]);
    let b = Collection::new(&records, vec![3, 4]);
    let u = a.union(&b);
    assert_eq!(u.len(), 2);
    assert_eq!(size(&u, records[3].group_id()), 2);
    assert_eq!(size(&u, records[0].group_id()), 1);
}

fn mixed_records(c: &Ctx) -> Vec<Record> {
    vec![
        rec(c, &[("id", "0"), ("t", "1"), ("i", "5"), ("s", "apple")]).unwrap(),
        rec(c, &[("id", "0"), ("t", "1"), ("i", "-7"), ("s", "pear")]).unwrap(),
        rec(c, &[("id", "0"), ("t", "1"), ("s", "fig")]).unwrap(),
    ]
}

#[test]
fn filter_compares_text_and_drops_missing_or_other_cases() {
    let c = ctx();
    let records = mixed_records(&c);
    let col = Collection::new(&records, vec![0, 1, 2]);
    let by_text = col.filter_records(
        &records,
        FilterCond { attr_name: "s".into(), val: Attr::Str("b".into()), ord: Ordering::Greater },
    );
    assert_eq!(by_text.ids().len(), 1);
    let mut m = by_text.members(records[0].group_id()).unwrap();
    m.sort();
    assert_eq!(m, vec![1, 2]);

    let col = Collection::new(&records, vec![0, 1, 2]);
    let by_int = col.filter_records(
        &records,
        FilterCond { attr_name: "i".into(), val: Attr::Int(0), ord: Ordering::Less },
    );
    assert_eq!(by_int.members(records[0].group_id()), Some(vec![1]));

    let col = Collection::new(&records, vec![0, 1, 2]);
    let other_case = col.filter_records(
        &records,
        FilterCond { attr_name: "i".into(), val: float(0), ord: Ordering::Less },
    );
    assert_eq!(other_case.len(), 0);
}

#[test]
fn fold_scenario_count_sum_average() {
    let c = ctx();
    let values = ["233", "23", "2333", "0", "-28", "233", "366", "243"];
    let records: Vec<Record> = values
        .iter()
        .map(|v| rec(&c, &[("id", "0"), ("t", "1"), ("i", v)]).unwrap())
        .collect();
    let col = Collection::new(&records, (0..8).collect());
    let g = records[0].group_id();
    assert_eq!(col.fold(&records, FoldOperation::COUNT).unwrap().get(g), Some(&Attr::Int(8)));
    assert_eq!(
        col.fold(&records, FoldOperation::SUM("i".into())).unwrap().get(g),
        Some(&float(3_403_000_000))
    );
    assert_eq!(
        col.fold(&records, FoldOperation::AVG("i".into())).unwrap().get(g),
        Some(&float(425_375_000))
    );
}

#[test]
fn fold_missing_attribute_counts_as_zero_and_mean_rounds_down() {
    let c = ctx();
    let records = vec![
        rec(&c, &[("id", "0"), ("t", "1"), ("f", "-0.000001")]).unwrap(),
        rec(&c, &[("id", "0"), ("t", "1")]).unwrap(),
    ];
    let col = Collection::new(&records, vec![0, 1]);
    let g = records[0].group_id();
    assert_eq!(col.fold(&records, FoldOperation::SUM("f".into())).unwrap().get(g), Some(&float(-1)));
    assert_eq!(col.fold(&records, FoldOperation::AVG("f".into())).unwrap().get(g), Some(&float(-1)));
    let res = col.fold(&records, FoldOperation::AVG("i".into())).unwrap();
    assert_eq!(res.get(g), Some(&float(0)));
    assert!(matches!(res.fold_func(), FoldOperation::AVG(n) if n == "i"));
}

#[test]
fn fold_per_group() {
    let c = ctx();
    let records = vec![
        rec(&c, &[("id", "0"), ("t", "1"), ("i", "2")]).unwrap(),
        rec(&c, &[("id", "1"), ("t", "1"), ("i", "3")]).unwrap(),
        rec(&c, &[("id", "1"), ("t", "1"), ("f", "1.5")]).unwrap(),
    ];
    let col = Collection::new(&records, vec![0, 1, 2]);
    let res = col.fold(&records, FoldOperation::SUM("i".into())).unwrap();
    assert_eq!(res.len(), 2);
    assert_eq!(res.get(records[0].group_id()), Some(&float(2_000_000)));
    assert_eq!(res.get(records[1].group_id()), Some(&float(3_000_000)));
    let res = col.fold(&records, FoldOperation::AVG("f".into())).unwrap();
    assert_eq!(res.get(records[1].group_id()), Some(&float(750_000)));
}

#[test]
fn fold_over_text_fails() {
    let c = ctx();
    let records = mixed_records(&c);
    let col = Collection::new(&records, vec![0, 1, 2]);
    assert_eq!(
        col.fold(&records, FoldOperation::SUM("s".into())).err(),
        Some(DataError::AggregationTypeError)
    );
    assert_eq!(
        col.fold(&records, FoldOperation::AVG("s".into())).err(),
        Some(DataError::AggregationTypeError)
    );
    assert!(col.fold(&records, FoldOperation::COUNT).is_ok());
}

#[test]
fn parse_integer_text() {
    let c = ctx();
    let get = |v: &str| rec(&c, &[("id", "0"), ("t", "1"), ("i", v)]).map(|r| r.get("i").cloned_value());
    assert_eq!(get("+5").unwrap(), Attr::Int(5));
    assert_eq!(get("-0").unwrap(), Attr::Int(0));
    assert_eq!(get("-2147483648").unwrap(), Attr::Int(i32::MIN));
    assert_eq!(get("2147483647").unwrap(), Attr::Int(i32::MAX));
    assert_eq!(get("2147483648").err(), Some(DataError::TypeMismatch));
    assert_eq!(get("").err(), Some(DataError::TypeMismatch));
    assert_eq!(get("-").err(), Some(DataError::TypeMismatch));
    assert_eq!(get("1.5").err(), Some(DataError::TypeMismatch));
    assert_eq!(get("true").err(), Some(DataError::TypeMismatch));
}

trait ClonedValue {
    fn cloned_value(self) -> Attr;
}

impl ClonedValue for Option<&Attr> {
    fn cloned_value(self) -> Attr {
        self.unwrap().copy_value()
    }
}

#[test]
fn parse_decimal_text() {
    let c = ctx();
    let get = |v: &str| rec(&c, &[("id", "0"), ("t", "1"), ("f", v)]).map(|r| r.get("f").cloned_value());
    assert_eq!(get("1.").unwrap(), float(1_000_000));
    assert_eq!(get(".5").unwrap(), float(500_000));
    assert_eq!(get("-.5").unwrap(), float(-500_000));
    assert_eq!(get("+2.25").unwrap(), float(2_250_000));
    assert_eq!(get("1.2345678").unwrap(), float(1_234_567));
    assert_eq!(get("12").unwrap(), float(12_000_000));
    assert_eq!(get(".").err(), Some(DataError::TypeMismatch));
    assert_eq!(get("1e3").err(), Some(DataError::TypeMismatch));
    assert_eq!(get("1.2.3").err(), Some(DataError::TypeMismatch));
    assert_eq!(get("99999999999999").err(), Some(DataError::TypeMismatch));
}

#[test]
fn parse_flag_text_in_any_case() {
    let c = ctx();
    let get = |v: &str| rec(&c, &[("id", "0"), ("t", "1"), ("b", v)]).map(|r| r.get("b").cloned_value());
    for v in ["true", "True", "TRUE", "tRuE", "t", "T"] {
        assert_eq!(get(v).unwrap(), Attr::Bool(true));
    }
    for v in ["false", "FALSE", "fAlSe", "f", "F"] {
        assert_eq!(get(v).unwrap(), Attr::Bool(false));
    }
    assert_eq!(get("yes").err(), Some(DataError::TypeMismatch));
    assert_eq!(get("").err(), Some(DataError::TypeMismatch));
}

#[test]
fn text_is_kept_verbatim() {
    let c = ctx();
    let r = rec(&c, &[("id", "0"), ("t", "1"), ("s", " Héllo, 1.5 ")]).unwrap();
    assert_eq!(r.get("s"), Some(&Attr::Str(" Héllo, 1.5 ".into())));
}

#[test]
fn missing_grouping_column_is_an_error() {
    let c = ctx();
    assert_eq!(
        rec(&c, &[("id", "0"), ("i", "1")]).err(),
        Some(DataError::MissingGroupingAttribute)
    );
}

#[test]
fn invalid_rules_are_errors() {
    let mut c = Ctx::new();
    c.add_attr_type("n", Attr::Int(0), Some(ComponentRule::Interval(Interval::new(0, 0))));
    assert_eq!(rec(&c, &[("n", "3")]).err(), Some(DataError::InvalidRule));

    let mut c = Ctx::new();
    c.add_attr_type("b", Attr::Bool(false), Some(ComponentRule::Interval(Interval::new(0, 2))));
    assert_eq!(rec(&c, &[("b", "t")]).err(), Some(DataError::InvalidRule));

    let mut c = Ctx::new();
    c.add_attr_type("b", Attr::Bool(false), Some(ComponentRule::Unique));
    c.add_attr_type("s", Attr::Str(String::new()), Some(ComponentRule::Unique));
    let x = rec(&c, &[("b", "t"), ("s", "ab")]).unwrap();
    let y = rec(&c, &[("b", "f"), ("s", "ab")]).unwrap();
    let z = rec(&c, &[("b", "t"), ("s", "ab")]).unwrap();
    assert_ne!(x.group_id(), y.group_id());
    assert_eq!(x.group_id(), z.group_id());
}

#[test]
fn negative_step_buckets_by_floor() {
    let mut c = Ctx::new();
    c.add_attr_type("n", Attr::Int(0), Some(ComponentRule::Interval(Interval::new(0, -2))));
    // floor(3 / -2) = -2 and floor(4 / -2) = -2, while floor(2 / -2) = -1
    let a = rec(&c, &[("n", "3")]).unwrap();
    let b = rec(&c, &[("n", "4")]).unwrap();
    let d = rec(&c, &[("n", "2")]).unwrap();
    assert_eq!(a.group_id(), b.group_id());
    assert_ne!(a.group_id(), d.group_id());
}

#[test]
fn reregistering_a_column_replaces_it() {
    let mut c = Ctx::new();
    c.add_attr_type("n", Attr::Int(0), Some(ComponentRule::Unique));
    c.add_attr_type("n", Attr::Str(String::new()), None);
    let r = rec(&c, &[("n", "abc")]).unwrap();
    assert_eq!(r.get("n"), Some(&Attr::Str("abc".into())));
    let other = rec(&c, &[("n", "xyz")]).unwrap();
    // the rule stays, now over text
    assert_ne!(r.group_id(), other.group_id());
}

#[test]
fn later_duplicate_column_wins() {
    let c = ctx();
    let r = rec(&c, &[("id", "0"), ("t", "1"), ("i", "1"), ("i", "2")]).unwrap();
    assert_eq!(r.get("i"), Some(&Attr::Int(2)));
}

#[test]
fn first_failing_column_decides_the_error() {
    let c = ctx();
    assert_eq!(
        rec(&c, &[("i", "x"), ("zz", "1")]).err(),
        Some(DataError::TypeMismatch)
    );
    assert_eq!(
        rec(&c, &[("zz", "1"), ("i", "x")]).err(),
        Some(DataError::UnknownColumn)
    );
}

#[test]
fn attr_order_and_equality() {
    assert_eq!(Attr::Int(1).partial_cmp(&Attr::Int(2)), Some(Ordering::Less));
    assert_eq!(Attr::Bool(true).partial_cmp(&Attr::Bool(false)), Some(Ordering::Greater));
    assert_eq!(
        Attr::Str("ab".into()).partial_cmp(&Attr::Str("abc".into())),
        Some(Ordering::Less)
    );
    assert_eq!(Attr::Str("b".into()).compare(&Attr::Str("abc".into())), Some(Ordering::Greater));
    assert_eq!(float(5).partial_cmp(&float(5)), Some(Ordering::Equal));
    assert_eq!(Attr::Int(1).partial_cmp(&float(1_000_000)), None);
    assert_ne!(Attr::Int(1), float(1_000_000));
    assert!(Attr::Int(1) < Attr::Int(3));
}

#[test]
fn fixed_integer_part() {
    assert_eq!(Fixed::from_micros(2_999_999).trunc(), 2);
    assert_eq!(Fixed::from_micros(-2_999_999).trunc(), -2);
    assert_eq!(Fixed::from_int(-4).micros, -4_000_000);
    assert_eq!(Fixed::from_micros(i128::MIN).trunc(), i128::MIN / 1_000_000);
}
