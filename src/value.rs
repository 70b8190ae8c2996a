use vstd::prelude::*;
use vstd::string::*;

verus! {

/// A single SQL value.
#[derive(Debug, Clone, PartialEq)]
pub enum Value {
    Null,
    Integer(i64),
    Text(String),
}

/// The outcome of comparing two values of one type.
#[derive(Debug, Clone, Copy, PartialEq, Eq, Structural)]
pub enum Order {
    Less,
    Equal,
    Greater,
}

/// Lexicographic comparison of two character sequences, by code point.
pub open spec fn text_order(a: Seq<char>, b: Seq<char>) -> Order
    decreases a.len(),
{
    if a.len() == 0 && b.len() == 0 {
        Order::Equal
    } else if a.len() == 0 {
        Order::Less
    } else if b.len() == 0 {
        Order::Greater
    } else if a[0] == b[0] {
        text_order(a.drop_first(), b.drop_first())
    } else if (a[0] as u32) < (b[0] as u32) {
        Order::Less
    } else {
        Order::Greater
    }
}

/// How two values compare: integers numerically, texts lexicographically;
/// `None` when either is `Null` or the types differ.
pub open spec fn value_order(a: Value, b: Value) -> Option<Order> {
    match (a, b) {
        (Value::Integer(x), Value::Integer(y)) => Some(
            if x < y {
                Order::Less
            } else if x == y {
                Order::Equal
            } else {
                Order::Greater
            },
        ),
        (Value::Text(x), Value::Text(y)) => Some(text_order(x@, y@)),
        _ => None,
    }
}

/// ASCII upper case letters fold to lower case; every other character is itself.
pub open spec fn fold_char(c: char) -> u32 {
    if 'A' <= c && c <= 'Z' {
        (c as u32 + 32) as u32
    } else {
        c as u32
    }
}

pub open spec fn chars_match(p: char, s: char, ignore_case: bool) -> bool {
    p == s || (ignore_case && fold_char(p) == fold_char(s))
}

/// Whether `s[j..]` matches the pattern `p[i..]`, where `%` stands for any run of
/// characters and `_` for any single character.
pub open spec fn like_at(p: Seq<char>, s: Seq<char>, i: int, j: int, ignore_case: bool) -> bool
    decreases p.len() - i + s.len() - j,
{
    if i < 0 || j < 0 || i > p.len() || j > s.len() {
        false
    } else if i == p.len() {
        j == s.len()
    } else if p[i] == '%' {
        like_at(p, s, i + 1, j, ignore_case) || (j < s.len() && like_at(p, s, i, j + 1, ignore_case))
    } else if j == s.len() {
        false
    } else if p[i] == '_' || chars_match(p[i], s[j], ignore_case) {
        like_at(p, s, i + 1, j + 1, ignore_case)
    } else {
        false
    }
}

/// Whether the whole of `s` matches the pattern `p`.
pub open spec fn like_match(p: Seq<char>, s: Seq<char>, ignore_case: bool) -> bool {
    like_at(p, s, 0, 0, ignore_case)
}

impl Value {
    /// A copy of the value.
    pub fn duplicate(&self) -> (r: Value)
        ensures
            r == *self,
    {
        match self {
            Value::Null => Value::Null,
            Value::Integer(i) => Value::Integer(*i),
            Value::Text(s) => Value::Text(s.clone()),
        }
    }
}

/// The characters of a string, in order.
pub fn chars_of(s: &str) -> (r: Vec<char>)
    ensures
        r@ == s@,
{
    let n = s.unicode_len();
    let mut r: Vec<char> = Vec::new();
    let mut i: usize = 0;
    while i < n
        invariant
            n == s@.len(),
            i <= n,
            r@ == s@.subrange(0, i as int),
        decreases n - i,
    {
        r.push(s.get_char(i));
        i = i + 1;
    }
    assert(r@ =~= s@);
    r
}

proof fn lemma_text_order_suffix(a: Seq<char>, b: Seq<char>, i: int)
    requires
        0 <= i <= a.len(),
        i <= b.len(),
        a.subrange(0, i) == b.subrange(0, i),
    ensures
        text_order(a, b) == text_order(a.subrange(i, a.len() as int), b.subrange(i, b.len() as int)),
    decreases i,
{
    if i > 0 {
        assert(a[0] == a.subrange(0, i)[0]);
        assert(b[0] == b.subrange(0, i)[0]);
        let a1 = a.drop_first();
        let b1 = b.drop_first();
        assert(a1.subrange(0, i - 1) =~= a.subrange(1, i));
        assert(b1.subrange(0, i - 1) =~= b.subrange(1, i));
        assert(a.subrange(1, i) =~= a.subrange(0, i).subrange(1, i));
        assert(b.subrange(1, i) =~= b.subrange(0, i).subrange(1, i));
        lemma_text_order_suffix(a1, b1, i - 1);
        assert(a1.subrange(i - 1, a1.len() as int) =~= a.subrange(i, a.len() as int));
        assert(b1.subrange(i - 1, b1.len() as int) =~= b.subrange(i, b.len() as int));
    } else {
        assert(a.subrange(0, a.len() as int) =~= a);
        assert(b.subrange(0, b.len() as int) =~= b);
    }
}

/// Compares two strings character by character.
pub fn compare_text(a: &str, b: &str) -> (r: Order)
    ensures
        r == text_order(a@, b@),
{
    let ac = chars_of(a);
    let bc = chars_of(b);
    let mut i: usize = 0;
    while i < ac.len() && i < bc.len()
        invariant
            ac@ == a@,
            bc@ == b@,
            i <= ac.len(),
            i <= bc.len(),
            ac@.subrange(0, i as int) == bc@.subrange(0, i as int),
        decreases ac.len() - i,
    {
        let x = ac[i];
        let y = bc[i];
        if x != y {
            proof {
                lemma_text_order_suffix(a@, b@, i as int);
                let sa = a@.subrange(i as int, a@.len() as int);
                let sb = b@.subrange(i as int, b@.len() as int);
                assert(sa[0] == x);
                assert(sb[0] == y);
            }
            if (x as u32) < (y as u32) {
                return Order::Less;
            } else {
                return Order::Greater;
            }
        }
        proof {
            assert(ac@.subrange(0, i + 1) =~= ac@.subrange(0, i as int).push(x));
            assert(bc@.subrange(0, i + 1) =~= bc@.subrange(0, i as int).push(y));
        }
        i = i + 1;
    }
    proof {
        lemma_text_order_suffix(a@, b@, i as int);
    }
    if ac.len() == i && bc.len() == i {
        Order::Equal
    } else if ac.len() == i {
        Order::Less
    } else {
        Order::Greater
    }
}

/// Compares two values; `None` when either is `Null` or their types differ.
pub fn compare_values(a: &Value, b: &Value) -> (r: Option<Order>)
    ensures
        r == value_order(*a, *b),
{
    match (a, b) {
        (Value::Integer(x), Value::Integer(y)) => {
            if *x < *y {
                Some(Order::Less)
            } else if *x == *y {
                Some(Order::Equal)
            } else {
                Some(Order::Greater)
            }
        },
        (Value::Text(x), Value::Text(y)) => Some(compare_text(x.as_str(), y.as_str())),
        _ => None,
    }
}

fn fold(c: char) -> (r: u32)
    ensures
        r == fold_char(c),
{
    if 'A' <= c && c <= 'Z' {
        (c as u32) + 32
    } else {
        c as u32
    }
}

fn like_from(p: &Vec<char>, s: &Vec<char>, i: usize, j: usize, ignore_case: bool) -> (r: bool)
    requires
        i <= p.len(),
        j <= s.len(),
    ensures
        r == like_at(p@, s@, i as int, j as int, ignore_case),
    decreases p.len() - i + s.len() - j,
{
    if i == p.len() {
        j == s.len()
    } else if p[i] == '%' {
        if like_from(p, s, i + 1, j, ignore_case) {
            true
        } else if j < s.len() {
            like_from(p, s, i, j + 1, ignore_case)
        } else {
            false
        }
    } else if j == s.len() {
        false
    } else if p[i] == '_' || p[i] == s[j] || (ignore_case && fold(p[i]) == fold(s[j])) {
        like_from(p, s, i + 1, j + 1, ignore_case)
    } else {
        false
    }
}

/// SQL pattern matching: `LIKE` when `ignore_case` is false, `ILIKE` (ASCII
/// letters compared without case) when it is true.
pub fn like(pattern: &str, text: &str, ignore_case: bool) -> (r: bool)
    ensures
        r == like_match(pattern@, text@, ignore_case),
{
    let p = chars_of(pattern);
    let s = chars_of(text);
    like_from(&p, &s, 0, 0, ignore_case)
}

} // verus!
