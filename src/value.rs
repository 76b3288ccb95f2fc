//! Typed scalar values and labelled rows.
use vstd::prelude::*;
use vstd::string::StrSliceExecFns;

verus! {

/// The type of a column in a table's schema.
#[derive(Clone, Copy, Debug, PartialEq, Eq, Structural)]
pub enum ColType {
    Int,
    Bool,
    Text,
}

/// A typed scalar. `Null` fits a column of every type.
#[derive(Clone, Debug)]
pub enum Value {
    Null,
    Int(i64),
    Bool(bool),
    Text(String),
}

/// What a value is, mathematically.
pub enum ValueModel {
    Null,
    Int(int),
    Bool(bool),
    Text(Seq<char>),
}

impl View for Value {
    type V = ValueModel;

    open spec fn view(&self) -> ValueModel {
        match self {
            Value::Null => ValueModel::Null,
            Value::Int(x) => ValueModel::Int(*x as int),
            Value::Bool(b) => ValueModel::Bool(*b),
            Value::Text(s) => ValueModel::Text(s@),
        }
    }
}

/// Lexicographic order of two character sequences: -1, 0 or 1.
pub open spec fn text_order(a: Seq<char>, b: Seq<char>) -> int
    decreases a.len(),
{
    if a.len() == 0 && b.len() == 0 {
        0
    } else if a.len() == 0 {
        -1
    } else if b.len() == 0 {
        1
    } else if (a[0] as u32) < (b[0] as u32) {
        -1
    } else if (a[0] as u32) > (b[0] as u32) {
        1
    } else {
        text_order(a.drop_first(), b.drop_first())
    }
}

/// How two values compare: `Some(-1 | 0 | 1)` when both are of the same
/// variant, `None` when they cannot be compared.
pub open spec fn value_order(a: ValueModel, b: ValueModel) -> Option<int> {
    match (a, b) {
        (ValueModel::Null, ValueModel::Null) => Some(0),
        (ValueModel::Int(x), ValueModel::Int(y)) => Some(
            if x < y {
                -1
            } else if x > y {
                1
            } else {
                0
            },
        ),
        (ValueModel::Bool(x), ValueModel::Bool(y)) => Some(
            if x == y {
                0
            } else if !x {
                -1
            } else {
                1
            },
        ),
        (ValueModel::Text(x), ValueModel::Text(y)) => Some(text_order(x, y)),
        _ => None,
    }
}

/// Whether a value may stand in a column of the given type.
pub open spec fn fits(v: ValueModel, t: ColType) -> bool {
    match v {
        ValueModel::Null => true,
        ValueModel::Int(_) => t == ColType::Int,
        ValueModel::Bool(_) => t == ColType::Bool,
        ValueModel::Text(_) => t == ColType::Text,
    }
}

fn text_compare(a: &String, b: &String) -> (r: i8)
    ensures
        r as int == text_order(a@, b@),
{
    let sa = a.as_str();
    let sb = b.as_str();
    let la = sa.unicode_len();
    let lb = sb.unicode_len();
    let mut i: usize = 0;
    assert(a@.skip(0) =~= a@);
    assert(b@.skip(0) =~= b@);
    while i < la && i < lb
        invariant
            la == a@.len(),
            lb == b@.len(),
            sa@ == a@,
            sb@ == b@,
            i <= la,
            i <= lb,
            text_order(a@, b@) == text_order(a@.skip(i as int), b@.skip(i as int)),
        decreases la - i,
    {
        let ca = sa.get_char(i);
        let cb = sb.get_char(i);
        assert(a@.skip(i as int).drop_first() =~= a@.skip(i + 1));
        assert(b@.skip(i as int).drop_first() =~= b@.skip(i + 1));
        if (ca as u32) < (cb as u32) {
            return -1;
        } else if (ca as u32) > (cb as u32) {
            return 1;
        }
        i += 1;
    }
    if i == la && i == lb {
        0
    } else if i == la {
        -1
    } else {
        1
    }
}

impl Value {
    /// A copy of this value.
    pub fn duplicate(&self) -> (r: Value)
        ensures
            r == *self,
    {
        match self {
            Value::Null => Value::Null,
            Value::Int(x) => Value::Int(*x),
            Value::Bool(b) => Value::Bool(*b),
            Value::Text(s) => Value::Text(s.clone()),
        }
    }

    /// Compares two values; `None` where their variants differ.
    pub fn order(&self, other: &Value) -> (r: Option<i8>)
        ensures
            r matches Some(k) ==> value_order(self@, other@) == Some(k as int),
            r is None ==> value_order(self@, other@) is None,
    {
        match (self, other) {
            (Value::Null, Value::Null) => Some(0),
            (Value::Int(x), Value::Int(y)) => Some(
                if *x < *y {
                    -1
                } else if *x > *y {
                    1
                } else {
                    0
                },
            ),
            (Value::Bool(x), Value::Bool(y)) => Some(
                if *x == *y {
                    0
                } else if !*x {
                    -1
                } else {
                    1
                },
            ),
            (Value::Text(x), Value::Text(y)) => Some(text_compare(x, y)),
            _ => None,
        }
    }

    /// Whether the value may stand in a column of type `t`.
    pub fn fits(&self, t: ColType) -> (r: bool)
        ensures
            r == fits(self@, t),
    {
        match self {
            Value::Null => true,
            Value::Int(_) => t == ColType::Int,
            Value::Bool(_) => t == ColType::Bool,
            Value::Text(_) => t == ColType::Text,
        }
    }
}

/// The labels of some cells.
pub open spec fn labels_of(cells: Seq<(String, Value)>) -> Seq<Seq<char>> {
    cells.map_values(|p: (String, Value)| p.0@)
}

/// The values of some cells.
pub open spec fn values_of(cells: Seq<(String, Value)>) -> Seq<ValueModel> {
    cells.map_values(|p: (String, Value)| p.1@)
}

/// The views of some names.
pub open spec fn names_view(names: Seq<String>) -> Seq<Seq<char>> {
    names.map_values(|n: String| n@)
}

impl PartialEq for Value {
    fn eq(&self, other: &Value) -> (r: bool) {
        match (self, other) {
            (Value::Null, Value::Null) => true,
            (Value::Int(x), Value::Int(y)) => *x == *y,
            (Value::Bool(x), Value::Bool(y)) => *x == *y,
            (Value::Text(x), Value::Text(y)) => *x == *y,
            _ => false,
        }
    }
}

impl vstd::std_specs::cmp::PartialEqSpecImpl for Value {
    open spec fn obeys_eq_spec() -> bool {
        true
    }

    open spec fn eq_spec(&self, other: &Value) -> bool {
        self@ == other@
    }
}

/// One row: an ordered sequence of (label, value) pairs.
#[derive(Clone, Debug)]
pub struct LabeledTypedTuple(pub Vec<(String, Value)>);

impl LabeledTypedTuple {
    /// The labels of the row, in order.
    pub open spec fn labels(&self) -> Seq<Seq<char>> {
        labels_of(self.0@)
    }

    /// The values of the row, in order.
    pub open spec fn values(&self) -> Seq<ValueModel> {
        values_of(self.0@)
    }

    /// A copy of this row.
    pub fn duplicate(&self) -> (r: LabeledTypedTuple)
        ensures
            r.0@ == self.0@,
    {
        let mut out: Vec<(String, Value)> = Vec::new();
        let mut i: usize = 0;
        while i < self.0.len()
            invariant
                i <= self.0@.len(),
                out@ == self.0@.take(i as int),
            decreases self.0@.len() - i,
        {
            let cell = (self.0[i].0.clone(), self.0[i].1.duplicate());
            out.push(cell);
            assert(self.0@.take(i + 1) =~= self.0@.take(i as int).push(self.0@[i as int]));
            i += 1;
        }
        assert(self.0@.take(i as int) =~= self.0@);
        LabeledTypedTuple(out)
    }
}

/// Swapping two character sequences reverses their order.
pub proof fn lemma_text_order_antisym(a: Seq<char>, b: Seq<char>)
    ensures
        text_order(a, b) == -text_order(b, a),
        -1 <= text_order(a, b) <= 1,
    decreases a.len(),
{
    if a.len() > 0 && b.len() > 0 && (a[0] as u32) == (b[0] as u32) {
        lemma_text_order_antisym(a.drop_first(), b.drop_first());
    }
}

/// Swapping two values reverses their order.
pub proof fn lemma_value_order_antisym(a: ValueModel, b: ValueModel)
    ensures
        value_order(a, b) matches Some(x) ==> value_order(b, a) == Some(-x) && -1 <= x <= 1,
{
    match (a, b) {
        (ValueModel::Text(x), ValueModel::Text(y)) => lemma_text_order_antisym(x, y),
        _ => {},
    }
}

/// Two non-null values that fit one column type can be compared.
pub proof fn lemma_comparable(a: ValueModel, b: ValueModel, t: ColType)
    requires
        fits(a, t),
        fits(b, t),
        !(a is Null),
        !(b is Null),
    ensures
        value_order(a, b) is Some,
{
}

/// Two character sequences in order with each other are the same.
pub proof fn lemma_text_order_zero(a: Seq<char>, b: Seq<char>)
    requires
        text_order(a, b) == 0,
    ensures
        a == b,
    decreases a.len(),
{
    if a.len() > 0 && b.len() > 0 {
        lemma_text_order_zero(a.drop_first(), b.drop_first());
        vstd::utf8::char_u32_cast(a[0], a[0] as u32);
        vstd::utf8::char_u32_cast(b[0], a[0] as u32);
        assert(a =~= seq![a[0]] + a.drop_first());
        assert(b =~= seq![b[0]] + b.drop_first());
    }
}

/// Lexicographic order is transitive.
pub proof fn lemma_text_order_trans(a: Seq<char>, b: Seq<char>, c: Seq<char>)
    requires
        text_order(a, b) == -1,
        text_order(b, c) == -1,
    ensures
        text_order(a, c) == -1,
    decreases a.len(),
{
    if a.len() > 0 && b.len() > 0 && c.len() > 0 && (a[0] as u32) == (b[0] as u32) && (b[0] as u32) == (
    c[0] as u32) {
        lemma_text_order_trans(a.drop_first(), b.drop_first(), c.drop_first());
    }
}

/// Values in order with each other are the same.
pub proof fn lemma_value_order_zero(a: ValueModel, b: ValueModel)
    requires
        value_order(a, b) == Some(0int),
    ensures
        a == b,
{
    match (a, b) {
        (ValueModel::Text(x), ValueModel::Text(y)) => lemma_text_order_zero(x, y),
        _ => {},
    }
}

/// The order of values is transitive.
pub proof fn lemma_value_order_trans(a: ValueModel, b: ValueModel, c: ValueModel)
    requires
        value_order(a, b) == Some(-1int),
        value_order(b, c) == Some(-1int),
    ensures
        value_order(a, c) == Some(-1int),
{
    match (a, b, c) {
        (ValueModel::Text(x), ValueModel::Text(y), ValueModel::Text(z)) => lemma_text_order_trans(x, y, z),
        _ => {},
    }
}

} // verus!
