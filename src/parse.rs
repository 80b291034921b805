use crate::attr::{Attr, AttrModel, Fixed, FIXED_LIMIT, MICROS};
use vstd::prelude::*;

verus! {

/// An ASCII decimal digit.
pub open spec fn is_digit(c: char) -> bool {
    '0' <= c && c <= '9'
}

/// Every character is a decimal digit.
pub open spec fn all_digits(s: Seq<char>) -> bool {
    forall|i: int| 0 <= i < s.len() ==> is_digit(#[trigger] s[i])
}

/// Value of a decimal digit.
pub open spec fn digit_value(c: char) -> int {
    c as int - '0' as int
}

/// The number that a string of decimal digits writes.
pub open spec fn digits_value(s: Seq<char>) -> int
    decreases s.len(),
{
    if s.len() == 0 {
        0
    } else {
        digits_value(s.drop_last()) * 10 + digit_value(s.last())
    }
}

/// `10^n`.
pub open spec fn pow10(n: nat) -> int
    decreases n,
{
    if n == 0 {
        1
    } else {
        10 * pow10((n - 1) as nat)
    }
}

/// Length of a leading `+` or `-`.
pub open spec fn sign_len(s: Seq<char>) -> int {
    if s.len() > 0 && (s[0] == '+' || s[0] == '-') {
        1
    } else {
        0
    }
}

/// Text that starts with `-`.
pub open spec fn is_negative(s: Seq<char>) -> bool {
    s.len() > 0 && s[0] == '-'
}

/// The text after its sign.
pub open spec fn unsigned_part(s: Seq<char>) -> Seq<char> {
    s.subrange(sign_len(s), s.len() as int)
}

/// `v` with the sign that `s` starts with.
pub open spec fn signed(s: Seq<char>, v: int) -> int {
    if is_negative(s) {
        -v
    } else {
        v
    }
}

/// Base-10 integer text: an optional sign, then one or more digits.
pub open spec fn int_text(s: Seq<char>) -> Option<int> {
    let body = unsigned_part(s);
    if body.len() > 0 && all_digits(body) {
        Some(signed(s, digits_value(body)))
    } else {
        None
    }
}

/// The 32-bit integer that `s` writes, if it writes one in range.
pub open spec fn int_of_text(s: Seq<char>) -> Option<i32> {
    match int_text(s) {
        Some(v) => if i32::MIN <= v <= i32::MAX {
            Some(v as i32)
        } else {
            None
        },
        None => None,
    }
}

/// Position of the first `.` in `s` at or after `i`, or `s.len()`.
pub open spec fn dot_from(s: Seq<char>, i: int) -> int
    decreases s.len() - i,
{
    if i < 0 || i >= s.len() {
        s.len() as int
    } else if s[i] == '.' {
        i
    } else {
        dot_from(s, i + 1)
    }
}

/// Digits before the point.
pub open spec fn whole_digits(b: Seq<char>) -> Seq<char> {
    b.subrange(0, dot_from(b, 0))
}

/// Digits after the point, if there is one.
pub open spec fn fraction_digits(b: Seq<char>) -> Seq<char> {
    let d = dot_from(b, 0);
    if d < b.len() {
        b.subrange(d + 1, b.len() as int)
    } else {
        Seq::empty()
    }
}

/// Millionths written by the digits after the point; those after the sixth are dropped.
pub open spec fn fraction_micros(f: Seq<char>) -> int {
    if f.len() >= 6 {
        digits_value(f.subrange(0, 6))
    } else {
        digits_value(f) * pow10((6 - f.len()) as nat)
    }
}

/// Decimal text: an optional sign, digits, and an optional point followed by
/// digits, with at least one digit in all. The value is in millionths.
pub open spec fn decimal_text(s: Seq<char>) -> Option<int> {
    let b = unsigned_part(s);
    let w = whole_digits(b);
    let f = fraction_digits(b);
    if all_digits(w) && all_digits(f) && (w.len() > 0 || f.len() > 0) {
        Some(signed(s, digits_value(w) * 1000000 + fraction_micros(f)))
    } else {
        None
    }
}

/// The decimal that `s` writes, if it writes one within `FIXED_LIMIT` millionths.
pub open spec fn fixed_of_text(s: Seq<char>) -> Option<int> {
    match decimal_text(s) {
        Some(v) => if -FIXED_LIMIT <= v <= FIXED_LIMIT {
            Some(v)
        } else {
            None
        },
        None => None,
    }
}

/// `c` is the lower-case ASCII letter `l` in either case.
pub open spec fn letter_ci(c: char, l: char) -> bool {
    c == l || c as u32 + 32 == l as u32
}

/// `s` is the lower-case word `w`, in any letter case.
pub open spec fn word_ci(s: Seq<char>, w: Seq<char>) -> bool {
    s.len() == w.len() && forall|i: int| 0 <= i < s.len() ==> letter_ci(#[trigger] s[i], w[i])
}

/// `true`, `t`, `false` or `f`, in any letter case.
pub open spec fn bool_of_text(s: Seq<char>) -> Option<bool> {
    if word_ci(s, seq!['t', 'r', 'u', 'e']) || word_ci(s, seq!['t']) {
        Some(true)
    } else if word_ci(s, seq!['f', 'a', 'l', 's', 'e']) || word_ci(s, seq!['f']) {
        Some(false)
    } else {
        None
    }
}

/// The value that `raw` gives in a column whose type is the case of `sample`.
pub open spec fn parse_like(sample: AttrModel, raw: Seq<char>) -> Option<AttrModel> {
    match sample {
        AttrModel::Int(_) => match int_of_text(raw) {
            Some(v) => Some(AttrModel::Int(v)),
            None => None,
        },
        AttrModel::Float(_) => match fixed_of_text(raw) {
            Some(v) => Some(AttrModel::Float(v)),
            None => None,
        },
        AttrModel::Bool(_) => match bool_of_text(raw) {
            Some(v) => Some(AttrModel::Bool(v)),
            None => None,
        },
        AttrModel::Str(_) => Some(AttrModel::Str(raw)),
    }
}

proof fn lemma_digits_prefix(s: Seq<char>, k: int)
    requires
        all_digits(s),
        0 <= k <= s.len(),
    ensures
        0 <= digits_value(s.subrange(0, k)) <= digits_value(s),
    decreases s.len(),
{
    if k == s.len() {
        assert(s.subrange(0, k) =~= s);
        if s.len() > 0 {
            lemma_digits_prefix(s.drop_last(), 0);
        }
    } else {
        let t = s.drop_last();
        lemma_digits_prefix(t, k);
        assert(s.subrange(0, k) =~= t.subrange(0, k));
    }
}

/// Value of the digits `s[from..to]`, when all are digits and it is at most `cap`.
fn digits_upto(s: &str, from: usize, to: usize, cap: u64) -> (r: Option<u64>)
    requires
        from <= to <= s@.len(),
        cap <= 1000000000000000,
    ensures
        r.is_some() <==> all_digits(s@.subrange(from as int, to as int)) && digits_value(
            s@.subrange(from as int, to as int),
        ) <= cap,
        r matches Some(v) ==> v == digits_value(s@.subrange(from as int, to as int)),
{
    let ghost full = s@.subrange(from as int, to as int);
    let mut acc: u64 = 0;
    let mut i: usize = from;
    while i < to
        invariant
            from <= i <= to <= s@.len(),
            full == s@.subrange(from as int, to as int),
            all_digits(s@.subrange(from as int, i as int)),
            acc == digits_value(s@.subrange(from as int, i as int)),
            acc <= cap,
            cap <= 1000000000000000,
        decreases to - i,
    {
        let c = s.get_char(i);
        if !('0' <= c && c <= '9') {
            assert(full[i - from] == c);
            return None;
        }
        let d = (c as u32 - '0' as u32) as u64;
        assert(d <= 9);
        proof {
            let next = s@.subrange(from as int, i + 1);
            assert(next.drop_last() =~= s@.subrange(from as int, i as int));
            assert(next.last() == c);
        }
        acc = acc * 10 + d;
        i = i + 1;
        assert(all_digits(s@.subrange(from as int, i as int))) by {
            assert forall|j: int| 0 <= j < i - from implies is_digit(
                #[trigger] s@.subrange(from as int, i as int)[j],
            ) by {
                if j < i - 1 - from {
                    assert(s@.subrange(from as int, i as int)[j] == s@.subrange(
                        from as int,
                        i - 1,
                    )[j]);
                }
            }
        }
        if acc > cap {
            proof {
                if all_digits(full) {
                    lemma_digits_prefix(full, i - from);
                    assert(full.subrange(0, i - from) =~= s@.subrange(from as int, i as int));
                }
            }
            return None;
        }
    }
    Some(acc)
}

fn sign_length(s: &str, n: usize) -> (r: usize)
    requires
        n == s@.len(),
    ensures
        r == sign_len(s@),
{
    if n > 0 {
        let c = s.get_char(0);
        if c == '+' || c == '-' {
            return 1;
        }
    }
    0
}

fn negative(s: &str, n: usize) -> (r: bool)
    requires
        n == s@.len(),
    ensures
        r == is_negative(s@),
{
    n > 0 && s.get_char(0) == '-'
}

/// Parses base-10 integer text into an `i32`.
pub fn parse_int(s: &str) -> (r: Option<i32>)
    ensures
        r == int_of_text(s@),
{
    let n = s.unicode_len();
    let k = sign_length(s, n);
    let neg = negative(s, n);
    assert(s@.subrange(k as int, n as int) == unsigned_part(s@));
    if k == n {
        return None;
    }
    match digits_upto(s, k, n, 2147483648) {
        None => {
            proof {
                let b = unsigned_part(s@);
                if all_digits(b) {
                    assert(digits_value(b) > 2147483648);
                }
            }
            None
        },
        Some(v) => {
            if neg {
                Some((0 - v as i64) as i32)
            } else if v <= 2147483647 {
                Some(v as i32)
            } else {
                None
            }
        },
    }
}

fn find_dot(s: &str, from: usize, n: usize) -> (r: usize)
    requires
        from <= n == s@.len(),
    ensures
        from <= r <= n,
        r - from == dot_from(s@.subrange(from as int, n as int), 0),
{
    let ghost b = s@.subrange(from as int, n as int);
    let mut i: usize = from;
    while i < n
        invariant
            from <= i <= n == s@.len(),
            b == s@.subrange(from as int, n as int),
            dot_from(b, 0) == dot_from(b, i - from),
        decreases n - i,
    {
        if s.get_char(i) == '.' {
            return i;
        }
        i = i + 1;
    }
    i
}

proof fn lemma_pow10_bounds(n: nat)
    requires
        n <= 6,
    ensures
        1 <= pow10(n) <= 1000000,
        pow10(n) * pow10((6 - n) as nat) == 1000000,
{
    reveal_with_fuel(pow10, 7);
    assert(pow10(0) == 1);
    assert(pow10(1) == 10);
    assert(pow10(2) == 100);
    assert(pow10(3) == 1000);
    assert(pow10(4) == 10000);
    assert(pow10(5) == 100000);
    assert(pow10(6) == 1000000);
    if n == 0 {
        assert(pow10(n) * pow10((6 - n) as nat) == 1000000);
    } else if n == 1 {
        assert(pow10(n) * pow10((6 - n) as nat) == 1000000);
    } else if n == 2 {
        assert(pow10(n) * pow10((6 - n) as nat) == 1000000);
    } else if n == 3 {
        assert(pow10(n) * pow10((6 - n) as nat) == 1000000);
    } else if n == 4 {
        assert(pow10(n) * pow10((6 - n) as nat) == 1000000);
    } else if n == 5 {
        assert(pow10(n) * pow10((6 - n) as nat) == 1000000);
    }
}

proof fn lemma_digits_below_pow(s: Seq<char>)
    requires
        all_digits(s),
    ensures
        0 <= digits_value(s) < pow10(s.len()),
    decreases s.len(),
{
    if s.len() > 0 {
        let t = s.drop_last();
        assert(is_digit(s[s.len() - 1]));
        lemma_digits_below_pow(t);
        assert(digits_value(t) * 10 + 9 < pow10(s.len())) by (nonlinear_arith)
            requires
                digits_value(t) < pow10(t.len()),
                pow10(s.len()) == 10 * pow10(t.len()),
        {
        }
    }
}

fn pow10_exec(n: usize) -> (r: u64)
    requires
        n <= 6,
    ensures
        r == pow10(n as nat),
{
    proof {
        lemma_pow10_bounds(n as nat);
    }
    let mut r: u64 = 1;
    let mut i: usize = 0;
    while i < n
        invariant
            i <= n <= 6,
            r == pow10(i as nat),
        decreases n - i,
    {
        proof {
            lemma_pow10_bounds((i + 1) as nat);
        }
        r = r * 10;
        i = i + 1;
    }
    r
}

fn all_digits_in(s: &str, from: usize, to: usize) -> (r: bool)
    requires
        from <= to <= s@.len(),
    ensures
        r == all_digits(s@.subrange(from as int, to as int)),
{
    let mut i: usize = from;
    while i < to
        invariant
            from <= i <= to <= s@.len(),
            forall|j: int| from <= j < i ==> is_digit(#[trigger] s@[j]),
        decreases to - i,
    {
        let c = s.get_char(i);
        if !('0' <= c && c <= '9') {
            assert(s@.subrange(from as int, to as int)[i - from] == c);
            return false;
        }
        i = i + 1;
    }
    assert forall|j: int| 0 <= j < to - from implies is_digit(
        #[trigger] s@.subrange(from as int, to as int)[j],
    ) by {
        assert(s@.subrange(from as int, to as int)[j] == s@[j + from]);
    }
    true
}

/// Parses decimal text into millionths.
pub fn parse_fixed(s: &str) -> (r: Option<Fixed>)
    ensures
        r matches Some(f) ==> fixed_of_text(s@) == Some(f.micros as int),
        r is None ==> fixed_of_text(s@) is None,
{
    let n = s.unicode_len();
    let k = sign_length(s, n);
    let neg = negative(s, n);
    let ghost b = unsigned_part(s@);
    assert(s@.subrange(k as int, n as int) == b);
    let d = find_dot(s, k, n);
    let ghost w = whole_digits(b);
    let ghost f = fraction_digits(b);
    assert(w =~= s@.subrange(k as int, d as int));
    let f_start: usize = if d < n {
        d + 1
    } else {
        n
    };
    assert(f =~= s@.subrange(f_start as int, n as int));
    if k == d && f_start == n {
        return None;
    }
    if !all_digits_in(s, f_start, n) {
        return None;
    }
    let f_len = n - f_start;
    let head_end: usize = if f_len >= 6 {
        f_start + 6
    } else {
        n
    };
    let ghost h = s@.subrange(f_start as int, head_end as int);
    proof {
        assert forall|j: int| 0 <= j < h.len() implies is_digit(#[trigger] h[j]) by {
            assert(h[j] == f[j]);
        }
        lemma_digits_below_pow(h);
        lemma_pow10_bounds(h.len());
        lemma_pow10_bounds((6 - h.len()) as nat);
        if f.len() >= 6 {
            assert(f.subrange(0, 6) =~= h);
        } else {
            assert(f =~= h);
        }
        lemma_digits_prefix(f, 0);
    }
    let head = match digits_upto(s, f_start, head_end, 999999) {
        None => {
            return None;
        },
        Some(v) => v,
    };
    let scale: u64 = pow10_exec(6 - (head_end - f_start));
    assert(head * scale <= 999999) by (nonlinear_arith)
        requires
            head < pow10(h.len()),
            pow10(h.len()) * scale == 1000000,
            scale >= 1,
    {
    }
    let frac: u64 = head * scale;
    assert(frac == fraction_micros(f)) by {
        if f.len() >= 6 {
            assert(h.len() == 6);
            assert(scale == 1) by {
                reveal_with_fuel(pow10, 2);
            }
        }
    }
    let whole = match digits_upto(s, k, d, 10000000000000) {
        None => {
            return None;
        },
        Some(v) => v,
    };
    let micros: i128 = whole as i128 * MICROS + frac as i128;
    if micros > FIXED_LIMIT {
        return None;
    }
    if neg {
        Some(Fixed { micros: -micros })
    } else {
        Some(Fixed { micros })
    }
}

/// `s` is the ASCII lower-case word `w`, in any letter case.
fn word_ci_exec(s: &str, n: usize, w: &Vec<char>) -> (r: bool)
    requires
        n == s@.len(),
    ensures
        r == word_ci(s@, w@),
{
    if n != w.len() {
        return false;
    }
    let mut i: usize = 0;
    while i < n
        invariant
            n == s@.len() == w@.len(),
            i <= n,
            forall|j: int| 0 <= j < i ==> letter_ci(#[trigger] s@[j], w@[j]),
        decreases n - i,
    {
        let c = s.get_char(i);
        let l = w[i];
        assert(s@[i as int] == c);
        if !(c == l || c as u32 + 32 == l as u32) {
            return false;
        }
        i = i + 1;
    }
    true
}

/// Parses `true`, `t`, `false` or `f`, in any letter case.
pub fn parse_bool(s: &str) -> (r: Option<bool>)
    ensures
        r == bool_of_text(s@),
{
    let n = s.unicode_len();
    let t_word = vec!['t', 'r', 'u', 'e'];
    let t_short = vec!['t'];
    let f_word = vec!['f', 'a', 'l', 's', 'e'];
    let f_short = vec!['f'];
    assert(t_word@ =~= seq!['t', 'r', 'u', 'e']);
    assert(t_short@ =~= seq!['t']);
    assert(f_word@ =~= seq!['f', 'a', 'l', 's', 'e']);
    assert(f_short@ =~= seq!['f']);
    if word_ci_exec(s, n, &t_word) || word_ci_exec(s, n, &t_short) {
        Some(true)
    } else if word_ci_exec(s, n, &f_word) || word_ci_exec(s, n, &f_short) {
        Some(false)
    } else {
        None
    }
}

impl Attr {
    /// Reads `raw` as a value of the same case as `self`.
    pub fn parse_like(&self, raw: &str) -> (r: Option<Attr>)
        ensures
            r matches Some(a) ==> parse_like(self@, raw@) == Some(a@),
            r is None ==> parse_like(self@, raw@) is None,
    {
        match self {
            Attr::Int(_) => match parse_int(raw) {
                Some(v) => Some(Attr::Int(v)),
                None => None,
            },
            Attr::Float(_) => match parse_fixed(raw) {
                Some(v) => Some(Attr::Float(v)),
                None => None,
            },
            Attr::Bool(_) => match parse_bool(raw) {
                Some(v) => Some(Attr::Bool(v)),
                None => None,
            },
            Attr::Str(_) => Some(Attr::Str(raw.to_owned())),
        }
    }
}

} // verus!
