//! Evaluation of filter expressions against the rows of a table.
use vstd::prelude::*;

use crate::types::{
    column_names, comparison_holds, expression_holds, first_index, lemma_first_index,
    lemma_no_index, op_holds, ColumnDefinition, ColumnName, ColumnValue, Expression, Operator,
};

verus! {

/// Position of the first column named `name` in `columns`, if any.
pub fn column_position(columns: &[ColumnDefinition], name: &ColumnName) -> (r: Option<usize>)
    ensures
        match r {
            Some(i) => first_index(column_names(columns@), name@) == Some(i as int),
            None => first_index(column_names(columns@), name@) is None,
        },
{
    let ghost names = column_names(columns@);
    let mut i: usize = 0;
    while i < columns.len()
        invariant
            i <= columns@.len(),
            names == column_names(columns@),
            names.len() == columns@.len(),
            forall|j: int| 0 <= j < i ==> names[j] != name@,
        decreases columns@.len() - i,
    {
        assert(names[i as int] == columns@[i as int].name@);
        if columns[i].name.eq(name) {
            proof {
                lemma_first_index(names, name@, i as int);
            }
            return Some(i);
        }
        i = i + 1;
    }
    proof {
        lemma_no_index(names, name@);
    }
    None
}

/// Whether `operator` holds between `val_a` and `val_b`.
pub fn evaluate_binary_operator(operator: &Operator, val_a: &ColumnValue, val_b: &ColumnValue) -> (r:
    bool)
    ensures
        r == op_holds(*operator, val_a@, val_b@),
{
    match operator {
        Operator::Eq => val_a.eq(val_b),
        Operator::Neq => !val_a.eq(val_b),
        Operator::Gt => val_a.compare(val_b) > 0,
        Operator::Lt => val_a.compare(val_b) < 0,
        Operator::Gte => val_a.compare(val_b) >= 0,
        Operator::Lte => val_a.compare(val_b) <= 0,
    }
}

/// Whether `expression` holds of `tuple`, a row of a table with the given
/// columns.
pub fn evaluate_expression(
    columns: &[ColumnDefinition],
    expression: &Expression,
    tuple: &[Option<ColumnValue>],
) -> (r: bool)
    ensures
        r == expression_holds(columns@, *expression, tuple@),
    decreases expression,
{
    broadcast use vstd::std_specs::vec::axiom_vec_index_decreases;

    match expression {
        Expression::ColumnComparison(comparison) => {
            proof {
                assert(comparison_holds(columns@, *comparison, tuple@) == expression_holds(
                    columns@,
                    *expression,
                    tuple@,
                ));
            }
            match column_position(columns, &comparison.column) {
                None => false,
                Some(pos) => {
                    if pos < tuple.len() {
                        match &tuple[pos] {
                            Some(value) => evaluate_binary_operator(
                                &comparison.operator,
                                value,
                                &comparison.value,
                            ),
                            None => false,
                        }
                    } else {
                        false
                    }
                },
            }
        },
        Expression::And(expressions) => {
            let mut i: usize = 0;
            while i < expressions.len()
                invariant
                    i <= expressions@.len(),
                    *expression == Expression::And(*expressions),
                    forall|j: int|
                        0 <= j < i ==> expression_holds(columns@, #[trigger] expressions@[j], tuple@),
                decreases expressions@.len() - i,
            {
                proof {
                    assert(decreases_to!(*expression => expression->And_0));
                    assert(decreases_to!(*expressions => expressions@));
                    assert(decreases_to!(expressions@ => expressions@[i as int]));
                }
                let holds = evaluate_expression(columns, &expressions[i], tuple);
                if !holds {
                    assert(!expression_holds(columns@, expressions@[i as int], tuple@));
                    return false;
                }
                i = i + 1;
            }
            true
        },
        Expression::Or(expressions) => {
            let mut i: usize = 0;
            while i < expressions.len()
                invariant
                    i <= expressions@.len(),
                    *expression == Expression::Or(*expressions),
                    forall|j: int|
                        0 <= j < i ==> !expression_holds(columns@, #[trigger] expressions@[j], tuple@),
                decreases expressions@.len() - i,
            {
                proof {
                    assert(decreases_to!(*expression => expression->Or_0));
                    assert(decreases_to!(*expressions => expressions@));
                    assert(decreases_to!(expressions@ => expressions@[i as int]));
                }
                let holds = evaluate_expression(columns, &expressions[i], tuple);
                if holds {
                    assert(expression_holds(columns@, expressions@[i as int], tuple@));
                    return true;
                }
                i = i + 1;
            }
            false
        },
        Expression::Not(inner) => !evaluate_expression(columns, inner, tuple),
    }
}

} // verus!
