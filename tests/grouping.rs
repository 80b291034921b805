use std::cmp::Ordering;
use std::iter::zip;
use tabgroup::{
    Attr, Collection, ComponentRule, Ctx, DataError, Fixed, FilterCond, FoldOperation, Interval,
    Record,
};

fn make_a_ctx() -> Ctx {
    let mut ctx = Ctx::new();
    ctx.add_attr_type("userid", Attr::Int(0), Some(ComponentRule::Unique));
    ctx.add_attr_type(
        "time",
        Attr::Float(Fixed::from_micros(0)),
        Some(ComponentRule::Interval(Interval { start: 1, step: 3 })),
    );
    ctx.add_attr_type("i", Attr::Int(0), None);
    ctx.add_attr_type("f", Attr::Float(Fixed::from_micros(0)), None);
    ctx.add_attr_type("b", Attr::Bool(false), None);
    ctx.add_attr_type("s", Attr::Str("hello".into()), None);
    ctx
}

fn float(micros: i128) -> Attr {
    Attr::Float(Fixed::from_micros(micros))
}

fn row(ctx: &Ctx, headers: &[&str], values: &[&str]) -> Result<Record, DataError> {
    Record::new(
        ctx,
        zip(headers.iter(), values.iter())
            .map(|(x, y)| (*x, *y))
            .collect(),
    )
}

fn rows(ctx: &Ctx, headers: &[&str], values: &[Vec<&str>]) -> Vec<Record> {
    values
        .iter()
        .map(|v| row(ctx, headers, v).unwrap())
        .collect()
}

fn all(records: &[Record]) -> Vec<usize> {
    (0..records.len()).collect()
}

fn eight_rows() -> Vec<Vec<&'static str>> {
    vec![
        vec!["0", "1", "233"],
        vec!["0", "1", "23"],
        vec!["0", "1", "2333"],
        vec!["0", "1", "0"],
        vec!["0", "1", "-28"],
        vec!["0", "1", "233"],
        vec!["0", "1", "366"],
        vec!["0", "1", "243"],
    ]
}

fn first_group_size(c: &Collection) -> usize {
    let ids = c.ids();
    c.members(ids[0]).unwrap().len()
}

#[test]
fn construct_record() {
    let headers = vec!["userid", "time", "i", "f", "b", "s"];
    let raw_record_a = vec!["23", "2", "0", ".23", "true", "hello"];
    let raw_record_b = vec!["23", "3", "8", ".45", "true", "world"];
    let raw_record_c = vec!["24", "2", "1", ".25", "false", "yeah"];
    let ctx = make_a_ctx();

    let record_a = row(&ctx, &headers, &raw_record_a).unwrap();

    assert_eq!(record_a.get("userid"), Some(&Attr::Int(23)));
    assert_eq!(record_a.get("time"), Some(&float(2_000_000)));
    assert_eq!(record_a.get("i"), Some(&Attr::Int(0)));
    assert_eq!(record_a.get("f"), Some(&float(230_000)));
    assert_eq!(record_a.get("b"), Some(&Attr::Bool(true)));
    assert_eq!(record_a.get("x"), None);

    let record_b = row(&ctx, &headers, &raw_record_b).unwrap();
    let record_c = row(&ctx, &headers, &raw_record_c).unwrap();

    assert_eq!(record_a.group_id(), record_b.group_id());
    assert_ne!(record_a.group_id(), record_c.group_id());
}

#[test]
fn group_record() {
    let headers = vec!["userid", "time"];
    let ctx = make_a_ctx();
    let record_group_a = vec![
        vec!["0", "1.1"],
        vec!["0", "2.9"],
        vec!["0", "3"],
        vec!["0", "3.9"],
    ];
    let record_group_b = vec![vec!["0", "7.9"], vec!["0", "9"]];
    let record_group_c = vec![vec!["1", "4.1"], vec!["1", "6.9"]];

    let get_group_state = |record_group: Vec<Vec<&str>>| -> (bool, Option<u64>) {
        record_group
            .into_iter()
            .map(|raw_record| row(&ctx, &headers, &raw_record).unwrap())
            .fold((true, None), |(is_same_group_id, group_id), x| {
                if let Some(group_id) = group_id {
                    if is_same_group_id && x.group_id() == group_id {
                        (true, Some(x.group_id()))
                    } else {
                        (false, Some(x.group_id()))
                    }
                } else {
                    (true, Some(x.group_id()))
                }
            })
    };

    let (is_same_group_id_a, group_id_a) = get_group_state(record_group_a);
    let (is_same_group_id_b, group_id_b) = get_group_state(record_group_b);
    let (is_same_group_id_c, group_id_c) = get_group_state(record_group_c);
    assert_eq!(is_same_group_id_a, true);
    assert_eq!(is_same_group_id_b, true);
    assert_eq!(is_same_group_id_c, true);
    assert_ne!(group_id_a, group_id_b);
    assert_ne!(group_id_b, group_id_c);
    assert_ne!(group_id_c, group_id_a);
}

#[test]
fn construct_collection() {
    let headers = vec!["userid", "time"];
    let ctx = make_a_ctx();
    let records = rows(
        &ctx,
        &headers,
        &[
            // group_a
            vec!["0", "1.1"],
            vec!["0", "2.9"],
            vec!["0", "3"],
            vec!["0", "3.9"],
            // group_b
            vec!["0", "7.9"],
            vec!["0", "9"],
            // group_c
            vec!["1", "4.1"],
            vec!["1", "6.9"],
        ],
    );
    let collection = Collection::new(&records, all(&records));
    assert_eq!(collection.len(), 3);
}

#[test]
fn filter_collection() {
    let headers = vec!["userid", "time", "i"];
    let ctx = make_a_ctx();
    let records = rows(&ctx, &headers, &eight_rows());
    let collection = Collection::new(&records, all(&records));
    let filter_cond = FilterCond {
        attr_name: "i".into(),
        val: Attr::Int(232),
        ord: Ordering::Greater,
    };
    let collection = collection.filter_records(&records, filter_cond);

    assert_eq!(first_group_size(&collection), 5);
}

#[test]
fn set_operations_on_collections() {
    let headers = vec!["userid", "time", "i"];
    let ctx = make_a_ctx();
    let records = rows(&ctx, &headers, &eight_rows());
    let whole_view = all(&records);
    let end_with_3_view: Vec<usize> = (0..records.len())
        .filter(|k| {
            if let Some(Attr::Int(x)) = records[*k].get("i") {
                x % 10 == 3
            } else {
                false
            }
        })
        .collect();
    let whole_view = Collection::new(&records, whole_view);
    let end_with_3_view = Collection::new(&records, end_with_3_view);
    let intersection = whole_view.intersection(&end_with_3_view);

    assert_eq!(first_group_size(&intersection), 5);

    let union = intersection.union(&end_with_3_view);
    assert_eq!(first_group_size(&union), 5);

    let difference = union.difference(&end_with_3_view);
    assert_eq!(difference.len(), 0);
}

#[test]
fn fold_collections() {
    let headers = vec!["userid", "time", "i"];
    let ctx = make_a_ctx();
    let records = rows(&ctx, &headers, &eight_rows());
    let collection = Collection::new(&records, all(&records));

    let count_result = collection.fold(&records, FoldOperation::COUNT).unwrap();
    assert_eq!(count_result.len(), 1);
    assert_eq!(count_result.entry(0).1, &Attr::Int(8));

    let sum_result = collection
        .fold(&records, FoldOperation::SUM("i".into()))
        .unwrap();
    assert_eq!(sum_result.entry(0).1, &float(3_403_000_000));

    let avg_result = collection
        .fold(&records, FoldOperation::AVG("i".into()))
        .unwrap();
    assert_eq!(avg_result.entry(0).1, &float(425_375_000));
}

#[test]
fn unexpected_header() {
    let ctx = make_a_ctx();
    let headers = ["userid", "time", "x"];
    let record = vec!["0", "0", "0"];
    assert_eq!(
        row(&ctx, &headers, &record).err(),
        Some(DataError::UnknownColumn)
    );
}

#[test]
fn invalid_attr_type() {
    let ctx = make_a_ctx();
    let headers = ["userid", "time", "i"];
    let record = vec!["0", "0", "true"];
    assert_eq!(
        row(&ctx, &headers, &record).err(),
        Some(DataError::TypeMismatch)
    );
}
