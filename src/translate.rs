use vstd::prelude::*;
use crate::data::Row;
use crate::value::{Value, Order, value_order, like_match, compare_values, like};

verus! {

/// The value of column `c` of a row's items; `Null` past the row's end.
pub open spec fn item_at(items: Seq<Value>, c: usize) -> Value {
    if c < items.len() {
        items[c as int]
    } else {
        Value::Null
    }
}

fn read_item(items: &Vec<Value>, c: usize) -> (r: Value)
    ensures
        r == item_at(items@, c),
{
    if c < items.len() {
        items[c].duplicate()
    } else {
        Value::Null
    }
}

/// A comparison operator.
#[derive(Debug, Clone, Copy, PartialEq, Eq, Structural)]
pub enum CmpOp {
    Eq,
    NotEq,
    Lt,
    Gt,
    LtEq,
    GtEq,
}

/// Whether an ordering satisfies an operator; an undefined ordering (a `Null`
/// or a type mismatch) satisfies none.
pub open spec fn op_holds(op: CmpOp, o: Option<Order>) -> bool {
    match o {
        None => false,
        Some(o) => match op {
            CmpOp::Eq => o == Order::Equal,
            CmpOp::NotEq => o != Order::Equal,
            CmpOp::Lt => o == Order::Less,
            CmpOp::Gt => o == Order::Greater,
            CmpOp::LtEq => o != Order::Greater,
            CmpOp::GtEq => o != Order::Less,
        },
    }
}

fn op_check(op: CmpOp, o: Option<Order>) -> (r: bool)
    ensures
        r == op_holds(op, o),
{
    match o {
        None => false,
        Some(o) => match op {
            CmpOp::Eq => o == Order::Equal,
            CmpOp::NotEq => o != Order::Equal,
            CmpOp::Lt => o == Order::Less,
            CmpOp::Gt => o == Order::Greater,
            CmpOp::LtEq => o != Order::Greater,
            CmpOp::GtEq => o != Order::Less,
        },
    }
}

/// One side of a comparison: a column of the row, by position, or a literal.
#[derive(Debug, Clone, PartialEq)]
pub enum Operand {
    Column(usize),
    Literal(Value),
}

impl Operand {
    pub open spec fn value_in(self, items: Seq<Value>) -> Value {
        match self {
            Operand::Column(c) => item_at(items, c),
            Operand::Literal(v) => v,
        }
    }

    pub fn eval(&self, items: &Vec<Value>) -> (r: Value)
        ensures
            r == self.value_in(items@),
    {
        match self {
            Operand::Column(c) => read_item(items, *c),
            Operand::Literal(v) => v.duplicate(),
        }
    }
}

/// A predicate over a row's items. `All` is the predicate of a statement
/// without a `WHERE` clause.
#[derive(Debug, PartialEq)]
pub enum Filter {
    All,
    Compare(Operand, CmpOp, Operand),
    /// The operand matches the pattern; the flag asks for `ILIKE`.
    Like(Operand, String, bool),
    And(Box<Filter>, Box<Filter>),
    Or(Box<Filter>, Box<Filter>),
    Not(Box<Filter>),
}

impl Filter {
    /// Whether a row with these items passes the filter. Comparisons with `Null`
    /// and between values of different types are false.
    pub open spec fn holds(self, items: Seq<Value>) -> bool
        decreases self,
    {
        match self {
            Filter::All => true,
            Filter::Compare(a, op, b) => op_holds(op, value_order(a.value_in(items), b.value_in(items))),
            Filter::Like(a, pattern, ignore_case) => match a.value_in(items) {
                Value::Text(t) => like_match(pattern@, t@, ignore_case),
                _ => false,
            },
            Filter::And(f, g) => f.holds(items) && g.holds(items),
            Filter::Or(f, g) => f.holds(items) || g.holds(items),
            Filter::Not(f) => !f.holds(items),
        }
    }

    pub fn check_items(&self, items: &Vec<Value>) -> (r: bool)
        ensures
            r == self.holds(items@),
        decreases self,
    {
        match self {
            Filter::All => true,
            Filter::Compare(a, op, b) => {
                let x = a.eval(items);
                let y = b.eval(items);
                op_check(*op, compare_values(&x, &y))
            },
            Filter::Like(a, pattern, ignore_case) => {
                let x = a.eval(items);
                match x {
                    Value::Text(t) => like(pattern.as_str(), t.as_str(), *ignore_case),
                    _ => false,
                }
            },
            Filter::And(f, g) => f.check_items(items) && g.check_items(items),
            Filter::Or(f, g) => f.check_items(items) || g.check_items(items),
            Filter::Not(f) => !f.check_items(items),
        }
    }

    /// Whether the row passes the filter.
    pub fn check<K>(&self, row: &Row<K>) -> (r: bool)
        ensures
            r == self.holds(row.items@),
    {
        self.check_items(&row.items)
    }
}

/// The columns a query returns: all of them, or the listed positions in the
/// listed order.
#[derive(Debug, Clone, PartialEq)]
pub enum Blend {
    All,
    Columns(Vec<usize>),
}

impl Blend {
    /// The items that remain of a row's items.
    pub open spec fn project(self, items: Seq<Value>) -> Seq<Value> {
        match self {
            Blend::All => items,
            Blend::Columns(cs) => Seq::new(cs@.len(), |i: int| item_at(items, cs@[i])),
        }
    }

    /// Keeps the requested items of a row, under the same key.
    pub fn apply<K>(&self, row: Row<K>) -> (r: Row<K>)
        ensures
            r.key == row.key,
            r.items@ == self.project(row.items@),
    {
        match self {
            Blend::All => row,
            Blend::Columns(cs) => {
                let mut items: Vec<Value> = Vec::new();
                let mut i: usize = 0;
                while i < cs.len()
                    invariant
                        i <= cs.len(),
                        items@ =~= self.project(row.items@).subrange(0, i as int),
                        *self == Blend::Columns(*cs),
                    decreases cs.len() - i,
                {
                    items.push(read_item(&row.items, cs[i]));
                    i = i + 1;
                }
                Row { key: row.key, items }
            },
        }
    }
}

/// A window over the positions of the filtered rows: `count` rows from
/// `offset` on; no `count` leaves the window open at the end.
#[derive(Debug, Clone, Copy, PartialEq, Eq, Structural)]
pub struct Limit {
    pub offset: usize,
    pub count: Option<usize>,
}

impl Limit {
    pub open spec fn admits(self, index: int) -> bool {
        self.offset <= index && match self.count {
            None => true,
            Some(n) => index < self.offset + n,
        }
    }

    /// Whether position `index` of the filtered rows lies in the window.
    pub fn check(&self, index: usize) -> (r: bool)
        ensures
            r == self.admits(index as int),
    {
        if index < self.offset {
            false
        } else {
            match self.count {
                None => true,
                Some(n) => index - self.offset < n,
            }
        }
    }
}

/// The value an assignment computes from a row's items before the update.
#[derive(Debug, PartialEq)]
pub enum Expr {
    Literal(Value),
    Column(usize),
    /// Integer sum; `Null` when an operand is no integer or the sum leaves
    /// the 64-bit range.
    Add(Box<Expr>, Box<Expr>),
}

impl Expr {
    pub open spec fn value_in(self, items: Seq<Value>) -> Value
        decreases self,
    {
        match self {
            Expr::Literal(v) => v,
            Expr::Column(c) => item_at(items, c),
            Expr::Add(a, b) => match (a.value_in(items), b.value_in(items)) {
                (Value::Integer(x), Value::Integer(y)) => if i64::MIN <= x + y <= i64::MAX {
                    Value::Integer((x + y) as i64)
                } else {
                    Value::Null
                },
                _ => Value::Null,
            },
        }
    }

    pub fn eval(&self, items: &Vec<Value>) -> (r: Value)
        ensures
            r == self.value_in(items@),
        decreases self,
    {
        match self {
            Expr::Literal(v) => v.duplicate(),
            Expr::Column(c) => read_item(items, *c),
            Expr::Add(a, b) => {
                let x = a.eval(items);
                let y = b.eval(items);
                match (x, y) {
                    (Value::Integer(x), Value::Integer(y)) => match x.checked_add(y) {
                        Some(s) => Value::Integer(s),
                        None => Value::Null,
                    },
                    _ => Value::Null,
                }
            },
        }
    }
}

/// `column = expr`, the column given by its position.
#[derive(Debug, PartialEq)]
pub struct Assignment {
    pub column: usize,
    pub expr: Expr,
}

/// The assignments of an `UPDATE`, applied in order.
#[derive(Debug, PartialEq)]
pub struct Update {
    pub assignments: Vec<Assignment>,
}

/// The value of column `j` after the assignments: that of the last one aimed
/// at it, computed from the items before the update, or the old value.
pub open spec fn updated_item(assignments: Seq<Assignment>, items: Seq<Value>, j: int) -> Value
    decreases assignments.len(),
{
    if assignments.len() == 0 {
        items[j]
    } else if assignments.last().column == j {
        assignments.last().expr.value_in(items)
    } else {
        updated_item(assignments.drop_last(), items, j)
    }
}

/// Whether some assignment is aimed at column `j`.
pub open spec fn assigned(assignments: Seq<Assignment>, j: int) -> bool {
    exists|a: int| 0 <= a < assignments.len() && assignments[a].column == j
}

pub proof fn lemma_unassigned_kept(assignments: Seq<Assignment>, items: Seq<Value>, j: int)
    requires
        !assigned(assignments, j),
    ensures
        updated_item(assignments, items, j) == items[j],
    decreases assignments.len(),
{
    if assignments.len() > 0 {
        let a = assignments.drop_last();
        assert(!assigned(a, j)) by {
            if assigned(a, j) {
                let w = choose|w: int| 0 <= w < a.len() && a[w].column == j;
                assert(assignments[w].column == j);
            }
        }
        assert(assignments[assignments.len() - 1].column != j);
        lemma_unassigned_kept(a, items, j);
    }
}

impl Update {
    /// The items of a row after the update.
    pub open spec fn apply_items(self, items: Seq<Value>) -> Seq<Value> {
        Seq::new(items.len(), |j: int| updated_item(self.assignments@, items, j))
    }

    /// The updated row, under the same key.
    pub fn apply<K>(&self, row: Row<K>) -> (r: Row<K>)
        ensures
            r.key == row.key,
            r.items@ == self.apply_items(row.items@),
    {
        let Row { key, items } = row;
        let mut out: Vec<Value> = Vec::new();
        let mut j: usize = 0;
        while j < items.len()
            invariant
                j <= items.len(),
                out@.len() == j,
                forall|k: int| 0 <= k < j ==> #[trigger] out@[k] == items@[k],
            decreases items.len() - j,
        {
            out.push(items[j].duplicate());
            j = j + 1;
        }
        let mut i: usize = 0;
        while i < self.assignments.len()
            invariant
                i <= self.assignments.len(),
                out@.len() == items.len(),
                forall|k: int|
                    0 <= k < items.len() ==> #[trigger] out@[k] == updated_item(
                        self.assignments@.subrange(0, i as int),
                        items@,
                        k,
                    ),
            decreases self.assignments.len() - i,
        {
            let a = &self.assignments[i];
            let ghost pre = self.assignments@.subrange(0, i as int);
            let ghost next = self.assignments@.subrange(0, i + 1);
            proof {
                assert(next.drop_last() =~= pre);
                assert(next.last() == *a);
            }
            if a.column < out.len() {
                let v = a.expr.eval(&items);
                out.set(a.column, v);
            }
            proof {
                assert forall|k: int| 0 <= k < items.len() implies #[trigger] out@[k] == updated_item(
                    next,
                    items@,
                    k,
                ) by {}
            }
            i = i + 1;
        }
        assert(self.assignments@.subrange(0, self.assignments@.len() as int) =~= self.assignments@);
        assert(out@ =~= self.apply_items(items@));
        Row { key, items: out }
    }
}

} // verus!
