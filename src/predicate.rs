//! The predicate language: comparisons between columns and literals,
//! evaluated against one row under a caller-supplied list of column names.
use vstd::prelude::*;
use crate::value::{names_view, value_order, values_of, LabeledTypedTuple, Value, ValueModel};

verus! {

/// Items that can be compared: a column named by the caller's name list, or
/// a literal value.
#[derive(Clone, Debug)]
pub enum Comparator {
    Col(String),
    Val(Value),
}

/// A comparison between two comparators.
#[derive(Clone, Debug)]
pub enum Cmp {
    Eq(Comparator, Comparator),
    Lt(Comparator, Comparator),
    Gt(Comparator, Comparator),
    Ne(Comparator, Comparator),
}

/// The first position in `i .. bound` whose name is `n`.
pub open spec fn find_name(names: Seq<Seq<char>>, n: Seq<char>, i: int, bound: int) -> Option<int>
    decreases bound - i,
{
    if i >= bound {
        None
    } else if names[i] == n {
        Some(i)
    } else {
        find_name(names, n, i + 1, bound)
    }
}

/// The number of positions at which a row and a name list are aligned.
pub open spec fn aligned_len(vals: Seq<ValueModel>, names: Seq<Seq<char>>) -> int {
    if vals.len() < names.len() {
        vals.len() as int
    } else {
        names.len() as int
    }
}

/// What a comparator stands for in a row: a column is the row's value at the
/// first aligned position whose name matches; `None` where there is none.
pub open spec fn resolve(c: Comparator, vals: Seq<ValueModel>, names: Seq<Seq<char>>) -> Option<
    ValueModel,
> {
    match c {
        Comparator::Col(n) => match find_name(names, n@, 0, aligned_len(vals, names)) {
            Some(i) => Some(vals[i]),
            None => None,
        },
        Comparator::Val(v) => Some(v@),
    }
}

impl Cmp {
    /// The two operands of the comparison.
    pub open spec fn operands(self) -> (Comparator, Comparator) {
        match self {
            Cmp::Eq(a, b) => (a, b),
            Cmp::Lt(a, b) => (a, b),
            Cmp::Gt(a, b) => (a, b),
            Cmp::Ne(a, b) => (a, b),
        }
    }

    /// Whether an order between two comparable values satisfies the comparison.
    pub open spec fn accepts(self, k: int) -> bool {
        match self {
            Cmp::Eq(_, _) => k == 0,
            Cmp::Lt(_, _) => k < 0,
            Cmp::Gt(_, _) => k > 0,
            Cmp::Ne(_, _) => k != 0,
        }
    }

    /// Three-valued evaluation: `None` where an operand does not resolve,
    /// `Some(false)` where the two values cannot be compared.
    pub open spec fn evaluate(self, vals: Seq<ValueModel>, names: Seq<Seq<char>>) -> Option<bool> {
        match (resolve(self.operands().0, vals, names), resolve(self.operands().1, vals, names)) {
            (Some(x), Some(y)) => match value_order(x, y) {
                Some(k) => Some(self.accepts(k)),
                None => Some(false),
            },
            _ => None,
        }
    }

    /// The comparison holds of the row: it resolves and is true.
    pub open spec fn holds(self, vals: Seq<ValueModel>, names: Seq<Seq<char>>) -> bool {
        self.evaluate(vals, names) == Some(true)
    }

    /// Returns whether or not the row falls under the comparison clause; an
    /// operand that does not resolve makes the answer `false`.
    pub fn has_value(&self, tup: &LabeledTypedTuple, attr_names: &[String]) -> (r: bool)
        ensures
            r == self.holds(values_of(tup.0@), names_view(attr_names@)),
    {
        match self.helper(tup, attr_names) {
            Some(b) => b,
            None => false,
        }
    }

    fn helper(&self, tup: &LabeledTypedTuple, attr_names: &[String]) -> (r: Option<bool>)
        ensures
            r == self.evaluate(values_of(tup.0@), names_view(attr_names@)),
    {
        let (a, b) = match self {
            Cmp::Eq(a, b) => (a, b),
            Cmp::Lt(a, b) => (a, b),
            Cmp::Gt(a, b) => (a, b),
            Cmp::Ne(a, b) => (a, b),
        };
        let a_val = match a.to_value_for(tup, attr_names) {
            Some(v) => v,
            None => return None,
        };
        let b_val = match b.to_value_for(tup, attr_names) {
            Some(v) => v,
            None => return None,
        };
        match a_val.order(&b_val) {
            Some(k) => Some(
                match self {
                    Cmp::Eq(_, _) => k == 0,
                    Cmp::Lt(_, _) => k < 0,
                    Cmp::Gt(_, _) => k > 0,
                    Cmp::Ne(_, _) => k != 0,
                },
            ),
            None => Some(false),
        }
    }
}

impl Comparator {
    fn to_value_for(&self, tup: &LabeledTypedTuple, attr_names: &[String]) -> (r: Option<Value>)
        ensures
            r matches Some(v) ==> resolve(*self, values_of(tup.0@), names_view(attr_names@)) == Some(v@),
            r is None ==> resolve(*self, values_of(tup.0@), names_view(attr_names@)) is None,
    {
        match self {
            Comparator::Col(c) => {
                let bound: usize = if tup.0.len() < attr_names.len() {
                    tup.0.len()
                } else {
                    attr_names.len()
                };
                let mut i: usize = 0;
                while i < bound
                    invariant
                        *self == Comparator::Col(*c),
                        bound == aligned_len(values_of(tup.0@), names_view(attr_names@)),
                        i <= bound,
                        find_name(names_view(attr_names@), c@, 0, bound as int) == find_name(
                            names_view(attr_names@),
                            c@,
                            i as int,
                            bound as int,
                        ),
                    decreases bound - i,
                {
                    if attr_names[i] == *c {
                        assert(find_name(names_view(attr_names@), c@, i as int, bound as int) == Some(i as int));
                        return Some(tup.0[i].1.duplicate());
                    }
                    i += 1;
                }
                None
            },
            Comparator::Val(v) => Some(v.duplicate()),
        }
    }
}

/// `find_name` finds nothing when no name in the range is `n`.
proof fn lemma_find_name_absent(names: Seq<Seq<char>>, n: Seq<char>, i: int, bound: int)
    requires
        forall|j: int| i <= j < bound ==> names[j] != n,
    ensures
        find_name(names, n, i, bound) is None,
    decreases bound - i,
{
    if i < bound {
        lemma_find_name_absent(names, n, i + 1, bound);
    }
}

/// A comparison that names a column absent from the name list does not hold
/// of any row: evaluation fails closed rather than failing the caller.
pub proof fn lemma_absent_column_fails_closed(
    c: Cmp,
    vals: Seq<ValueModel>,
    names: Seq<Seq<char>>,
    missing: String,
)
    requires
        c.operands().0 == Comparator::Col(missing) || c.operands().1 == Comparator::Col(missing),
        forall|j: int| 0 <= j < names.len() ==> names[j] != missing@,
    ensures
        c.evaluate(vals, names) is None,
        !c.holds(vals, names),
{
    lemma_find_name_absent(names, missing@, 0, aligned_len(vals, names));
}

/// `Eq` and `Ne` on the same operands never hold together, and where an
/// operand does not resolve neither holds.
pub proof fn lemma_eq_ne_exclusive(a: Comparator, b: Comparator, vals: Seq<ValueModel>, names: Seq<Seq<char>>)
    ensures
        !(Cmp::Eq(a, b).holds(vals, names) && Cmp::Ne(a, b).holds(vals, names)),
        (resolve(a, vals, names) is None || resolve(b, vals, names) is None) ==> (!Cmp::Eq(a, b).holds(vals, names)
            && !Cmp::Ne(a, b).holds(vals, names)),
{
}

} // verus!
