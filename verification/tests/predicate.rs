//! Filters of a query as predicates of the log reader.

use comet_delta::delta::predicate::{
    catalyst_to_kernel_expression_with_names, catalyst_to_kernel_predicate,
    catalyst_to_kernel_predicate_with_names, BinaryOp, CompareOp, Expr, Expression, Literal,
    Predicate,
};

fn col(i: i32) -> Expr {
    Expr::Bound(i)
}

fn lit(v: i32) -> Expr {
    Expr::Literal(Literal::Int(v))
}

fn binary(op: BinaryOp, l: Expr, r: Expr) -> Expr {
    Expr::Binary { op, left: Some(Box::new(l)), right: Some(Box::new(r)) }
}

fn names() -> Vec<String> {
    vec!["a".to_string(), "b".to_string()]
}

fn a_compared(op: CompareOp) -> Predicate {
    Predicate::Compare {
        op,
        left: Expression::Column("a".to_string()),
        right: Expression::Integer(5),
    }
}

fn not(p: Predicate) -> Predicate {
    Predicate::Not(Box::new(p))
}

#[test]
fn comparisons() {
    let t = |op| catalyst_to_kernel_predicate_with_names(&binary(op, col(0), lit(5)), &names());
    assert_eq!(t(BinaryOp::Eq), a_compared(CompareOp::Equal));
    assert_eq!(t(BinaryOp::Neq), not(a_compared(CompareOp::Equal)));
    assert_eq!(t(BinaryOp::Lt), a_compared(CompareOp::LessThan));
    assert_eq!(t(BinaryOp::GtEq), not(a_compared(CompareOp::LessThan)));
    assert_eq!(t(BinaryOp::Gt), a_compared(CompareOp::GreaterThan));
    assert_eq!(t(BinaryOp::LtEq), not(a_compared(CompareOp::GreaterThan)));
}

#[test]
fn junctions_and_null_tests() {
    let e = binary(
        BinaryOp::And,
        Expr::IsNotNull(Some(Box::new(col(1)))),
        binary(
            BinaryOp::Or,
            Expr::Not(Some(Box::new(Expr::IsNull(Some(Box::new(col(0))))))),
            Expr::Other,
        ),
    );
    let null = |n: &str| Predicate::IsNull(Expression::Column(n.to_string()));
    assert_eq!(
        catalyst_to_kernel_predicate_with_names(&e, &names()),
        Predicate::And(
            Box::new(not(null("b"))),
            Box::new(Predicate::Or(
                Box::new(not(null("a"))),
                Box::new(Predicate::Unknown("unsupported_catalyst_expr".to_string())),
            )),
        )
    );
}

#[test]
fn missing_operands_are_unknown() {
    let t = |e: Expr| catalyst_to_kernel_predicate(&e);
    let unknown = |s: &str| Predicate::Unknown(s.to_string());
    assert_eq!(t(Expr::IsNull(None)), unknown("missing_child"));
    assert_eq!(t(Expr::IsNotNull(None)), unknown("missing_child"));
    assert_eq!(t(Expr::Not(None)), unknown("not_missing_child"));
    let half = |op| Expr::Binary { op, left: Some(Box::new(lit(1))), right: None };
    assert_eq!(t(half(BinaryOp::Eq)), unknown("binary_missing_child"));
    assert_eq!(t(half(BinaryOp::And)), unknown("and_missing_child"));
    assert_eq!(t(half(BinaryOp::Or)), unknown("or_missing_child"));
    assert_eq!(t(lit(1)), unknown("unsupported_catalyst_expr"));
}

#[test]
fn operands() {
    let t = |e: Expr| catalyst_to_kernel_expression_with_names(&e, &names());
    assert_eq!(t(col(1)), Expression::Column("b".to_string()));
    let out = Expression::Unknown("bound_ref_out_of_range".to_string());
    assert_eq!(t(col(2)), out);
    assert_eq!(t(col(-1)), out);
    assert_eq!(t(Expr::Other), Expression::Unknown("unsupported_expr_operand".to_string()));
    let l = |l: Literal| t(Expr::Literal(l));
    assert_eq!(l(Literal::Bool(true)), Expression::Boolean(true));
    assert_eq!(l(Literal::Byte(1)), Expression::Integer(1));
    assert_eq!(l(Literal::Short(2)), Expression::Integer(2));
    assert_eq!(l(Literal::Int(3)), Expression::Integer(3));
    assert_eq!(l(Literal::Long(4)), Expression::Long(4));
    assert_eq!(l(Literal::Float(1.5f32.to_bits())), Expression::Float(1.5f32.to_bits()));
    assert_eq!(l(Literal::Double(2.5f64.to_bits())), Expression::Double(2.5f64.to_bits()));
    assert_eq!(l(Literal::Str("s".to_string())), Expression::Str("s".to_string()));
    assert_eq!(l(Literal::Null), Expression::NullString);
    // A decimal, say.
    assert_eq!(l(Literal::Other), Expression::Unknown("unsupported_literal".to_string()));
}

#[test]
fn without_names_columns_are_unknown() {
    assert_eq!(
        catalyst_to_kernel_predicate(&binary(BinaryOp::Eq, col(0), lit(5))),
        Predicate::Compare {
            op: CompareOp::Equal,
            left: Expression::Unknown("bound_ref_out_of_range".to_string()),
            right: Expression::Integer(5),
        }
    );
}
