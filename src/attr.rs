use std::cmp::Ordering;
use vstd::prelude::*;

verus! {

/// Millionths in one unit of a `Fixed` number.
pub const MICROS: i128 = 1000000;

/// Largest magnitude, in millionths, that a parsed decimal may have.
pub const FIXED_LIMIT: i128 = 9223372036854775807;

/// A decimal number held exactly, as a count of millionths.
#[derive(Clone, Copy, Debug, PartialEq, Eq, Structural)]
pub struct Fixed {
    pub micros: i128,
}

/// A typed attribute value.
#[derive(Debug)]
pub enum Attr {
    Int(i32),
    Float(Fixed),
    Bool(bool),
    Str(String),
}

/// What an `Attr` holds, with text as a sequence of characters.
pub enum AttrModel {
    Int(i32),
    Float(int),
    Bool(bool),
    Str(Seq<char>),
}

impl View for Attr {
    type V = AttrModel;

    open spec fn view(&self) -> AttrModel {
        match self {
            Attr::Int(v) => AttrModel::Int(*v),
            Attr::Float(f) => AttrModel::Float(f.micros as int),
            Attr::Bool(b) => AttrModel::Bool(*b),
            Attr::Str(s) => AttrModel::Str(s@),
        }
    }
}

/// The integer part of `m` millionths, rounded toward zero.
pub open spec fn trunc_units(m: int) -> int {
    if m >= 0 {
        m / 1000000
    } else {
        -((-m) / 1000000)
    }
}

impl Fixed {
    pub fn from_micros(micros: i128) -> (r: Fixed)
        ensures
            r.micros == micros,
    {
        Fixed { micros }
    }

    /// The exact value of an integer.
    pub fn from_int(v: i32) -> (r: Fixed)
        ensures
            r.micros == v as int * 1000000,
    {
        Fixed { micros: v as i128 * MICROS }
    }

    /// The integer part, rounded toward zero.
    pub fn trunc(&self) -> (r: i128)
        ensures
            r == trunc_units(self.micros as int),
    {
        if self.micros >= 0 {
            self.micros / MICROS
        } else if self.micros == i128::MIN {
            // -(2^127) / 10^6 does not fit a negation of the input, so split off one unit
            -((-(self.micros + MICROS)) / MICROS) - 1
        } else {
            -((-self.micros) / MICROS)
        }
    }
}

/// Order of two integers.
pub open spec fn cmp_int(a: int, b: int) -> Ordering {
    if a < b {
        Ordering::Less
    } else if a == b {
        Ordering::Equal
    } else {
        Ordering::Greater
    }
}

/// `false` orders before `true`.
pub open spec fn bool_rank(b: bool) -> int {
    if b {
        1
    } else {
        0
    }
}

/// Lexicographic order of two character sequences, from position `i` on.
pub open spec fn cmp_chars_from(a: Seq<char>, b: Seq<char>, i: int) -> Ordering
    decreases a.len() - i,
{
    if i < 0 || i >= a.len() {
        if i >= 0 && i < b.len() {
            Ordering::Less
        } else {
            Ordering::Equal
        }
    } else if i >= b.len() {
        Ordering::Greater
    } else if a[i] != b[i] {
        cmp_int(a[i] as int, b[i] as int)
    } else {
        cmp_chars_from(a, b, i + 1)
    }
}

/// Lexicographic order of two character sequences.
pub open spec fn cmp_chars(a: Seq<char>, b: Seq<char>) -> Ordering {
    cmp_chars_from(a, b, 0)
}

/// Order of two attribute values: defined only when both hold the same case.
pub open spec fn attr_cmp(a: AttrModel, b: AttrModel) -> Option<Ordering> {
    match (a, b) {
        (AttrModel::Int(x), AttrModel::Int(y)) => Some(cmp_int(x as int, y as int)),
        (AttrModel::Float(x), AttrModel::Float(y)) => Some(cmp_int(x, y)),
        (AttrModel::Bool(x), AttrModel::Bool(y)) => Some(cmp_int(bool_rank(x), bool_rank(y))),
        (AttrModel::Str(x), AttrModel::Str(y)) => Some(cmp_chars(x, y)),
        _ => None,
    }
}

fn cmp_i128(a: i128, b: i128) -> (r: Ordering)
    ensures
        r == cmp_int(a as int, b as int),
{
    if a < b {
        Ordering::Less
    } else if a == b {
        Ordering::Equal
    } else {
        Ordering::Greater
    }
}

fn cmp_text(a: &String, b: &String) -> (r: Ordering)
    ensures
        r == cmp_chars(a@, b@),
{
    let sa = a.as_str();
    let sb = b.as_str();
    let la = sa.unicode_len();
    let lb = sb.unicode_len();
    let mut i: usize = 0;
    while i < la && i < lb
        invariant
            sa@ == a@,
            sb@ == b@,
            la == a@.len(),
            lb == b@.len(),
            i <= la,
            i <= lb,
            cmp_chars_from(a@, b@, 0) == cmp_chars_from(a@, b@, i as int),
        decreases la - i,
    {
        let ca = sa.get_char(i);
        let cb = sb.get_char(i);
        if ca != cb {
            return cmp_i128(ca as u32 as i128, cb as u32 as i128);
        }
        i = i + 1;
    }
    if i < lb {
        Ordering::Less
    } else if i < la {
        Ordering::Greater
    } else {
        Ordering::Equal
    }
}

impl Attr {
    /// The order of two values: `None` when their cases differ.
    pub fn compare(&self, other: &Attr) -> (r: Option<Ordering>)
        ensures
            r == attr_cmp(self@, other@),
    {
        match (self, other) {
            (Attr::Int(x), Attr::Int(y)) => Some(cmp_i128(*x as i128, *y as i128)),
            (Attr::Float(x), Attr::Float(y)) => Some(cmp_i128(x.micros, y.micros)),
            (Attr::Bool(x), Attr::Bool(y)) => {
                let rx: i128 = if *x {
                    1
                } else {
                    0
                };
                let ry: i128 = if *y {
                    1
                } else {
                    0
                };
                Some(cmp_i128(rx, ry))
            },
            (Attr::Str(x), Attr::Str(y)) => Some(cmp_text(x, y)),
            _ => None,
        }
    }

    /// A copy of the value.
    pub fn copy_value(&self) -> (r: Attr)
        ensures
            r@ == self@,
    {
        match self {
            Attr::Int(v) => Attr::Int(*v),
            Attr::Float(f) => Attr::Float(*f),
            Attr::Bool(b) => Attr::Bool(*b),
            Attr::Str(s) => Attr::Str(s.clone()),
        }
    }
}

impl PartialEq for Attr {
    fn eq(&self, other: &Attr) -> (r: bool) {
        match (self, other) {
            (Attr::Int(x), Attr::Int(y)) => *x == *y,
            (Attr::Float(x), Attr::Float(y)) => x.micros == y.micros,
            (Attr::Bool(x), Attr::Bool(y)) => *x == *y,
            (Attr::Str(x), Attr::Str(y)) => *x == *y,
            _ => false,
        }
    }
}

impl vstd::std_specs::cmp::PartialEqSpecImpl for Attr {
    open spec fn obeys_eq_spec() -> bool {
        true
    }

    open spec fn eq_spec(&self, other: &Attr) -> bool {
        self@ == other@
    }
}

impl PartialOrd for Attr {
    fn partial_cmp(&self, other: &Attr) -> (r: Option<Ordering>) {
        self.compare(other)
    }
}

impl vstd::std_specs::cmp::PartialOrdSpecImpl for Attr {
    open spec fn obeys_partial_cmp_spec() -> bool {
        true
    }

    open spec fn partial_cmp_spec(&self, other: &Attr) -> Option<Ordering> {
        attr_cmp(self@, other@)
    }
}

} // verus!
