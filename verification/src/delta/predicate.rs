//! Filters of a query as predicates of the table's log reader, by which it leaves
//! out files. What the log reader does not understand becomes unknown: that leaves
//! out no file.

use vstd::prelude::*;

verus! {

/// The value of a literal in a query. Floating-point values are held by their bits.
pub enum Literal {
    Bool(bool),
    Byte(i32),
    Short(i32),
    Int(i32),
    Long(i64),
    Float(u32),
    Double(u64),
    Str(String),
    /// A missing value.
    Null,
    /// A value of any other type.
    Other,
}

/// An operator with two operands.
#[derive(Clone, Copy, Debug, PartialEq, Eq, Structural)]
pub enum BinaryOp {
    Eq,
    Neq,
    Lt,
    LtEq,
    Gt,
    GtEq,
    And,
    Or,
}

/// An expression in a query. An operand may be missing.
pub enum Expr {
    /// A column, by its position.
    Bound(i32),
    Literal(Literal),
    IsNull(Option<Box<Expr>>),
    IsNotNull(Option<Box<Expr>>),
    Not(Option<Box<Expr>>),
    Binary { op: BinaryOp, left: Option<Box<Expr>>, right: Option<Box<Expr>> },
    /// Anything else.
    Other,
}

/// A value in a predicate of the log reader.
#[derive(Debug, PartialEq, Eq)]
pub enum Expression {
    Column(String),
    Boolean(bool),
    Integer(i32),
    Long(i64),
    Float(u32),
    Double(u64),
    Str(String),
    /// The missing text.
    NullString,
    Unknown(String),
}

/// A comparison of the log reader.
#[derive(Clone, Copy, Debug, PartialEq, Eq, Structural)]
pub enum CompareOp {
    Equal,
    LessThan,
    GreaterThan,
}

/// A predicate of the log reader.
#[derive(Debug, PartialEq, Eq)]
pub enum Predicate {
    IsNull(Expression),
    Compare { op: CompareOp, left: Expression, right: Expression },
    Not(Box<Predicate>),
    And(Box<Predicate>, Box<Predicate>),
    Or(Box<Predicate>, Box<Predicate>),
    Unknown(String),
}

/// A value in a predicate, as mathematical values.
pub enum ExpressionState {
    Column(Seq<char>),
    Boolean(bool),
    Integer(i32),
    Long(i64),
    Float(u32),
    Double(u64),
    Str(Seq<char>),
    NullString,
    Unknown(Seq<char>),
}

/// A predicate, as mathematical values.
pub enum PredicateState {
    IsNull(ExpressionState),
    Compare { op: CompareOp, left: ExpressionState, right: ExpressionState },
    Not(Box<PredicateState>),
    And(Box<PredicateState>, Box<PredicateState>),
    Or(Box<PredicateState>, Box<PredicateState>),
    Unknown(Seq<char>),
}

impl View for Expression {
    type V = ExpressionState;

    open spec fn view(&self) -> ExpressionState {
        match *self {
            Expression::Column(s) => ExpressionState::Column(s@),
            Expression::Boolean(b) => ExpressionState::Boolean(b),
            Expression::Integer(v) => ExpressionState::Integer(v),
            Expression::Long(v) => ExpressionState::Long(v),
            Expression::Float(v) => ExpressionState::Float(v),
            Expression::Double(v) => ExpressionState::Double(v),
            Expression::Str(s) => ExpressionState::Str(s@),
            Expression::NullString => ExpressionState::NullString,
            Expression::Unknown(s) => ExpressionState::Unknown(s@),
        }
    }
}

/// A predicate as mathematical values.
pub open spec fn predicate_view(p: Predicate) -> PredicateState
    decreases p,
{
    match p {
        Predicate::IsNull(e) => PredicateState::IsNull(e@),
        Predicate::Compare { op, left, right } => PredicateState::Compare {
            op,
            left: left@,
            right: right@,
        },
        Predicate::Not(c) => PredicateState::Not(Box::new(predicate_view(*c))),
        Predicate::And(a, b) => PredicateState::And(
            Box::new(predicate_view(*a)),
            Box::new(predicate_view(*b)),
        ),
        Predicate::Or(a, b) => PredicateState::Or(
            Box::new(predicate_view(*a)),
            Box::new(predicate_view(*b)),
        ),
        Predicate::Unknown(s) => PredicateState::Unknown(s@),
    }
}

/// What a literal becomes. Small integers become integers, a missing value the
/// missing text, and what has no counterpart is unknown.
pub open spec fn literal_value(l: Literal) -> ExpressionState {
    match l {
        Literal::Bool(b) => ExpressionState::Boolean(b),
        Literal::Byte(v) => ExpressionState::Integer(v),
        Literal::Short(v) => ExpressionState::Integer(v),
        Literal::Int(v) => ExpressionState::Integer(v),
        Literal::Long(v) => ExpressionState::Long(v),
        Literal::Float(v) => ExpressionState::Float(v),
        Literal::Double(v) => ExpressionState::Double(v),
        Literal::Str(s) => ExpressionState::Str(s@),
        Literal::Null => ExpressionState::NullString,
        Literal::Other => ExpressionState::Unknown("unsupported_literal"@),
    }
}

/// What an operand becomes.
pub open spec fn operand(e: Expr, names: Seq<String>) -> ExpressionState {
    match e {
        Expr::Bound(i) => if 0 <= i < names.len() {
            ExpressionState::Column(names[i as int]@)
        } else {
            ExpressionState::Unknown("bound_ref_out_of_range"@)
        },
        Expr::Literal(l) => literal_value(l),
        _ => ExpressionState::Unknown("unsupported_expr_operand"@),
    }
}

/// The opposite of a predicate.
pub open spec fn negated(p: PredicateState) -> PredicateState {
    PredicateState::Not(Box::new(p))
}

/// What a comparison of two operands becomes. The log reader has three comparisons;
/// the others are their opposites.
pub open spec fn comparison(
    op: BinaryOp,
    left: ExpressionState,
    right: ExpressionState,
) -> PredicateState {
    match op {
        BinaryOp::Lt => PredicateState::Compare { op: CompareOp::LessThan, left, right },
        BinaryOp::LtEq => negated(
            PredicateState::Compare { op: CompareOp::GreaterThan, left, right },
        ),
        BinaryOp::Gt => PredicateState::Compare { op: CompareOp::GreaterThan, left, right },
        BinaryOp::GtEq => negated(
            PredicateState::Compare { op: CompareOp::LessThan, left, right },
        ),
        BinaryOp::Neq => negated(PredicateState::Compare { op: CompareOp::Equal, left, right }),
        _ => PredicateState::Compare { op: CompareOp::Equal, left, right },
    }
}

/// What a filter becomes.
pub open spec fn translated(e: Expr, names: Seq<String>) -> PredicateState
    decreases e,
{
    match e {
        Expr::IsNull(Some(c)) => PredicateState::IsNull(operand(*c, names)),
        Expr::IsNull(None) => PredicateState::Unknown("missing_child"@),
        Expr::IsNotNull(Some(c)) => negated(PredicateState::IsNull(operand(*c, names))),
        Expr::IsNotNull(None) => PredicateState::Unknown("missing_child"@),
        Expr::Not(Some(c)) => negated(translated(*c, names)),
        Expr::Not(None) => PredicateState::Unknown("not_missing_child"@),
        Expr::Binary { op, left, right } => match (left, right) {
            (Some(l), Some(r)) => match op {
                BinaryOp::And => PredicateState::And(
                    Box::new(translated(*l, names)),
                    Box::new(translated(*r, names)),
                ),
                BinaryOp::Or => PredicateState::Or(
                    Box::new(translated(*l, names)),
                    Box::new(translated(*r, names)),
                ),
                _ => comparison(op, operand(*l, names), operand(*r, names)),
            },
            _ => PredicateState::Unknown(
                match op {
                    BinaryOp::And => "and_missing_child"@,
                    BinaryOp::Or => "or_missing_child"@,
                    _ => "binary_missing_child"@,
                },
            ),
        },
        _ => PredicateState::Unknown("unsupported_catalyst_expr"@),
    }
}

fn catalyst_literal_to_kernel(l: &Literal) -> (e: Expression)
    ensures
        e@ == literal_value(*l),
{
    match l {
        Literal::Bool(b) => Expression::Boolean(*b),
        Literal::Byte(v) => Expression::Integer(*v),
        Literal::Short(v) => Expression::Integer(*v),
        Literal::Int(v) => Expression::Integer(*v),
        Literal::Long(v) => Expression::Long(*v),
        Literal::Float(v) => Expression::Float(*v),
        Literal::Double(v) => Expression::Double(*v),
        Literal::Str(s) => Expression::Str(s.clone()),
        Literal::Null => Expression::NullString,
        Literal::Other => Expression::Unknown("unsupported_literal".to_owned()),
    }
}

/// The value that an operand becomes, with the names of the columns. Without names a
/// column is unknown.
pub fn catalyst_to_kernel_expression_with_names(expr: &Expr, column_names: &Vec<String>) -> (e:
    Expression)
    ensures
        e@ == operand(*expr, column_names@),
{
    match expr {
        Expr::Bound(i) => {
            let n: usize = column_names.len();
            if *i >= 0 && (*i as u32 as u64) < n as u64 {
                Expression::Column(column_names[*i as usize].clone())
            } else {
                Expression::Unknown("bound_ref_out_of_range".to_owned())
            }
        },
        Expr::Literal(l) => catalyst_literal_to_kernel(l),
        _ => Expression::Unknown("unsupported_expr_operand".to_owned()),
    }
}

fn not_pred(p: Predicate) -> (r: Predicate)
    ensures
        predicate_view(r) == negated(predicate_view(p)),
{
    Predicate::Not(Box::new(p))
}

fn binary_pred(op: BinaryOp, left: Expression, right: Expression) -> (p: Predicate)
    requires
        op != BinaryOp::And,
        op != BinaryOp::Or,
    ensures
        predicate_view(p) == comparison(op, left@, right@),
{
    match op {
        BinaryOp::Lt => Predicate::Compare { op: CompareOp::LessThan, left, right },
        BinaryOp::LtEq => not_pred(
            Predicate::Compare { op: CompareOp::GreaterThan, left, right },
        ),
        BinaryOp::Gt => Predicate::Compare { op: CompareOp::GreaterThan, left, right },
        BinaryOp::GtEq => not_pred(Predicate::Compare { op: CompareOp::LessThan, left, right }),
        BinaryOp::Neq => not_pred(Predicate::Compare { op: CompareOp::Equal, left, right }),
        _ => Predicate::Compare { op: CompareOp::Equal, left, right },
    }
}

/// The predicate that a filter becomes, with the names of the columns.
pub fn catalyst_to_kernel_predicate_with_names(expr: &Expr, column_names: &Vec<String>) -> (p:
    Predicate)
    ensures
        predicate_view(p) == translated(*expr, column_names@),
    decreases expr,
{
    match expr {
        Expr::IsNull(child) => match child {
            Some(c) => Predicate::IsNull(
                catalyst_to_kernel_expression_with_names(c, column_names),
            ),
            None => Predicate::Unknown("missing_child".to_owned()),
        },
        Expr::IsNotNull(child) => match child {
            Some(c) => not_pred(
                Predicate::IsNull(catalyst_to_kernel_expression_with_names(c, column_names)),
            ),
            None => Predicate::Unknown("missing_child".to_owned()),
        },
        Expr::Not(child) => match child {
            Some(c) => not_pred(catalyst_to_kernel_predicate_with_names(c, column_names)),
            None => Predicate::Unknown("not_missing_child".to_owned()),
        },
        Expr::Binary { op, left, right } => match (left, right) {
            (Some(l), Some(r)) => match op {
                BinaryOp::And => Predicate::And(
                    Box::new(catalyst_to_kernel_predicate_with_names(l, column_names)),
                    Box::new(catalyst_to_kernel_predicate_with_names(r, column_names)),
                ),
                BinaryOp::Or => Predicate::Or(
                    Box::new(catalyst_to_kernel_predicate_with_names(l, column_names)),
                    Box::new(catalyst_to_kernel_predicate_with_names(r, column_names)),
                ),
                _ => {
                    let a: Expression = catalyst_to_kernel_expression_with_names(l, column_names);
                    let b: Expression = catalyst_to_kernel_expression_with_names(r, column_names);
                    binary_pred(*op, a, b)
                },
            },
            _ => match op {
                BinaryOp::And => Predicate::Unknown("and_missing_child".to_owned()),
                BinaryOp::Or => Predicate::Unknown("or_missing_child".to_owned()),
                _ => Predicate::Unknown("binary_missing_child".to_owned()),
            },
        },
        _ => Predicate::Unknown("unsupported_catalyst_expr".to_owned()),
    }
}

/// The predicate that a filter becomes, without the names of the columns.
pub fn catalyst_to_kernel_predicate(expr: &Expr) -> (p: Predicate)
    ensures
        predicate_view(p) == translated(*expr, Seq::<String>::empty()),
{
    let names: Vec<String> = Vec::new();
    let p: Predicate = catalyst_to_kernel_predicate_with_names(expr, &names);
    assert(names@ =~= Seq::<String>::empty());
    p
}

/// What is true of a row: whether a value is missing, how two values compare, and
/// what an expression that is not understood comes to. The outcome of a comparison,
/// and of an expression, may be missing.
pub struct RowFacts {
    pub is_null: spec_fn(ExpressionState) -> bool,
    pub compare: spec_fn(CompareOp, ExpressionState, ExpressionState) -> Option<bool>,
    pub other: spec_fn(Expr) -> Option<bool>,
}

/// The value is known of the row.
pub open spec fn is_known(e: ExpressionState) -> bool {
    !(e is Unknown) && !(e is NullString)
}

/// The opposite of an outcome.
pub open spec fn not3(a: Option<bool>) -> Option<bool> {
    match a {
        Some(b) => Some(!b),
        None => None,
    }
}

/// Both of two outcomes.
pub open spec fn and3(a: Option<bool>, b: Option<bool>) -> Option<bool> {
    if a == Some(false) || b == Some(false) {
        Some(false)
    } else if a == Some(true) && b == Some(true) {
        Some(true)
    } else {
        None
    }
}

/// Either of two outcomes.
pub open spec fn or3(a: Option<bool>, b: Option<bool>) -> Option<bool> {
    not3(and3(not3(a), not3(b)))
}

/// What a comparison comes to.
pub open spec fn compared(
    f: RowFacts,
    op: BinaryOp,
    left: ExpressionState,
    right: ExpressionState,
) -> Option<bool> {
    match op {
        BinaryOp::Lt => (f.compare)(CompareOp::LessThan, left, right),
        BinaryOp::LtEq => not3((f.compare)(CompareOp::GreaterThan, left, right)),
        BinaryOp::Gt => (f.compare)(CompareOp::GreaterThan, left, right),
        BinaryOp::GtEq => not3((f.compare)(CompareOp::LessThan, left, right)),
        BinaryOp::Neq => not3((f.compare)(CompareOp::Equal, left, right)),
        _ => (f.compare)(CompareOp::Equal, left, right),
    }
}

/// What a filter comes to on a row.
pub open spec fn filter_value(e: Expr, names: Seq<String>, f: RowFacts) -> Option<bool>
    decreases e,
{
    match e {
        Expr::IsNull(Some(c)) => match operand(*c, names) {
            ExpressionState::Unknown(_) => (f.other)(e),
            ExpressionState::NullString => Some(true),
            known => Some((f.is_null)(known)),
        },
        Expr::IsNotNull(Some(c)) => match operand(*c, names) {
            ExpressionState::Unknown(_) => (f.other)(e),
            ExpressionState::NullString => Some(false),
            known => Some(!(f.is_null)(known)),
        },
        Expr::Not(Some(c)) => not3(filter_value(*c, names, f)),
        Expr::Binary { op, left, right } => match (left, right) {
            (Some(l), Some(r)) => match op {
                BinaryOp::And => and3(filter_value(*l, names, f), filter_value(*r, names, f)),
                BinaryOp::Or => or3(filter_value(*l, names, f), filter_value(*r, names, f)),
                _ => if is_known(operand(*l, names)) && is_known(operand(*r, names)) {
                    compared(f, op, operand(*l, names), operand(*r, names))
                } else {
                    (f.other)(e)
                },
            },
            _ => (f.other)(e),
        },
        _ => (f.other)(e),
    }
}

/// What a predicate comes to on a row. What is unknown, and a comparison with the
/// missing text, come to nothing; the missing text is missing.
pub open spec fn predicate_value(p: PredicateState, f: RowFacts) -> Option<bool>
    decreases p,
{
    match p {
        PredicateState::IsNull(e) => match e {
            ExpressionState::Unknown(_) => None,
            ExpressionState::NullString => Some(true),
            _ => Some((f.is_null)(e)),
        },
        PredicateState::Compare { op, left, right } => if is_known(left) && is_known(right) {
            (f.compare)(op, left, right)
        } else {
            None
        },
        PredicateState::Not(c) => not3(predicate_value(*c, f)),
        PredicateState::And(a, b) => and3(predicate_value(*a, f), predicate_value(*b, f)),
        PredicateState::Or(a, b) => or3(predicate_value(*a, f), predicate_value(*b, f)),
        PredicateState::Unknown(_) => None,
    }
}

/// Where a predicate comes to something on a row, the filter that it was made from
/// comes to the same: no file is left out for a row that the filter keeps.
pub proof fn translation_is_never_wrong(e: Expr, names: Seq<String>, f: RowFacts)
    ensures
        predicate_value(translated(e, names), f) matches Some(b) ==> filter_value(e, names, f)
            == Some(b),
    decreases e,
{
    reveal_with_fuel(predicate_value, 2);
    match e {
        Expr::Not(Some(c)) => {
            translation_is_never_wrong(*c, names, f);
        },
        Expr::Binary { op, left, right } => match (left, right) {
            (Some(l), Some(r)) => {
                if op == BinaryOp::And || op == BinaryOp::Or {
                    translation_is_never_wrong(*l, names, f);
                    translation_is_never_wrong(*r, names, f);
                }
            },
            _ => {},
        },
        _ => {},
    }
}

/// Without the names of the columns, a comparison with a column says nothing.
pub proof fn unnamed_columns_say_nothing(i: i32, op: BinaryOp, other: Expr, f: RowFacts)
    requires
        op != BinaryOp::And,
        op != BinaryOp::Or,
    ensures
        predicate_value(
            translated(
                Expr::Binary {
                    op,
                    left: Some(Box::new(Expr::Bound(i))),
                    right: Some(Box::new(other)),
                },
                Seq::<String>::empty(),
            ),
            f,
        ) is None,
{
    reveal_with_fuel(predicate_value, 2);
}

/// A value: what a literal denotes, and what a column of a row holds. Floating-point values
/// are held by their bits.
pub enum Datum {
    Truth(bool),
    Int(int),
    Long(int),
    Float(u32),
    Double(u64),
    Text(Seq<char>),
}

/// A row as a query sees it: the values of its columns by position, of which some may be
/// missing; the order of values, where they have one, as a number that is negative, zero or
/// positive; and what an expression that is not looked into comes to.
pub struct Row {
    pub columns: Seq<Option<Datum>>,
    pub order: spec_fn(Datum, Datum) -> Option<int>,
    pub other: spec_fn(Expr) -> Option<bool>,
}

/// What a literal denotes: its own value, or the missing one. Nothing is known of a value of
/// any other type.
pub open spec fn literal_datum(l: Literal) -> Option<Option<Datum>> {
    match l {
        Literal::Bool(b) => Some(Some(Datum::Truth(b))),
        Literal::Byte(v) => Some(Some(Datum::Int(v as int))),
        Literal::Short(v) => Some(Some(Datum::Int(v as int))),
        Literal::Int(v) => Some(Some(Datum::Int(v as int))),
        Literal::Long(v) => Some(Some(Datum::Long(v as int))),
        Literal::Float(bits) => Some(Some(Datum::Float(bits))),
        Literal::Double(bits) => Some(Some(Datum::Double(bits))),
        Literal::Str(s) => Some(Some(Datum::Text(s@))),
        Literal::Null => Some(None),
        Literal::Other => None,
    }
}

/// What an operand of a query denotes on a row: a column its value in the row, a literal its
/// own.
pub open spec fn query_datum(e: Expr, row: Row) -> Option<Option<Datum>> {
    match e {
        Expr::Bound(i) => if 0 <= i < row.columns.len() {
            Some(row.columns[i as int])
        } else {
            None
        },
        Expr::Literal(l) => literal_datum(l),
        _ => None,
    }
}

/// What a comparison in a query says of how two values are ordered.
pub open spec fn holds_of_order(op: BinaryOp, order: int) -> bool {
    match op {
        BinaryOp::Eq => order == 0,
        BinaryOp::Neq => order != 0,
        BinaryOp::Lt => order < 0,
        BinaryOp::LtEq => order <= 0,
        BinaryOp::Gt => order > 0,
        BinaryOp::GtEq => order >= 0,
        _ => false,
    }
}

/// How two values are ordered, where neither is missing.
pub open spec fn ordered(row: Row, a: Option<Datum>, b: Option<Datum>) -> Option<int> {
    match (a, b) {
        (Some(x), Some(y)) => (row.order)(x, y),
        _ => None,
    }
}

/// What a filter comes to on a row, by the query's own literals and column positions.
pub open spec fn query_value(e: Expr, row: Row) -> Option<bool>
    decreases e,
{
    match e {
        Expr::IsNull(Some(c)) => match query_datum(*c, row) {
            Some(v) => Some(v is None),
            None => (row.other)(e),
        },
        Expr::IsNotNull(Some(c)) => match query_datum(*c, row) {
            Some(v) => Some(v is Some),
            None => (row.other)(e),
        },
        Expr::Not(Some(c)) => not3(query_value(*c, row)),
        Expr::Binary { op, left, right } => match (left, right) {
            (Some(l), Some(r)) => match op {
                BinaryOp::And => and3(query_value(*l, row), query_value(*r, row)),
                BinaryOp::Or => or3(query_value(*l, row), query_value(*r, row)),
                _ => match (query_datum(*l, row), query_datum(*r, row)) {
                    (Some(a), Some(b)) => match ordered(row, a, b) {
                        Some(order) => Some(holds_of_order(op, order)),
                        None => None,
                    },
                    _ => (row.other)(e),
                },
            },
            _ => (row.other)(e),
        },
        _ => (row.other)(e),
    }
}

/// What an expression of the log reader denotes on a row whose columns it knows by name.
pub open spec fn kernel_datum(
    e: Expression,
    named: spec_fn(Seq<char>) -> Option<Datum>,
) -> Option<Option<Datum>> {
    match e {
        Expression::Column(name) => Some(named(name@)),
        Expression::Boolean(b) => Some(Some(Datum::Truth(b))),
        Expression::Integer(v) => Some(Some(Datum::Int(v as int))),
        Expression::Long(v) => Some(Some(Datum::Long(v as int))),
        Expression::Float(bits) => Some(Some(Datum::Float(bits))),
        Expression::Double(bits) => Some(Some(Datum::Double(bits))),
        Expression::Str(s) => Some(Some(Datum::Text(s@))),
        Expression::NullString => Some(None),
        Expression::Unknown(_) => None,
    }
}

/// What a predicate of the log reader comes to on a row. What is unknown comes to nothing.
pub open spec fn kernel_value(
    p: Predicate,
    row: Row,
    named: spec_fn(Seq<char>) -> Option<Datum>,
) -> Option<bool>
    decreases p,
{
    match p {
        Predicate::IsNull(e) => match kernel_datum(e, named) {
            Some(v) => Some(v is None),
            None => None,
        },
        Predicate::Compare { op, left, right } => match (
            kernel_datum(left, named),
            kernel_datum(right, named),
        ) {
            (Some(a), Some(b)) => match ordered(row, a, b) {
                Some(order) => Some(
                    match op {
                        CompareOp::Equal => order == 0,
                        CompareOp::LessThan => order < 0,
                        CompareOp::GreaterThan => order > 0,
                    },
                ),
                None => None,
            },
            _ => None,
        },
        Predicate::Not(c) => not3(kernel_value(*c, row, named)),
        Predicate::And(a, b) => and3(kernel_value(*a, row, named), kernel_value(*b, row, named)),
        Predicate::Or(a, b) => or3(kernel_value(*a, row, named), kernel_value(*b, row, named)),
        Predicate::Unknown(_) => None,
    }
}

/// The names are those of the row's first columns.
pub open spec fn names_columns(
    names: Seq<String>,
    row: Row,
    named: spec_fn(Seq<char>) -> Option<Datum>,
) -> bool {
    &&& names.len() <= row.columns.len()
    &&& forall|i: int| 0 <= i < names.len() ==> named((#[trigger] names[i])@) == row.columns[i]
}

/// The log reader understands the operand: a column that has a name, or a literal of a type
/// that it has.
pub open spec fn understood_operand(e: Expr, names: Seq<String>) -> bool {
    match e {
        Expr::Bound(i) => 0 <= i < names.len(),
        Expr::Literal(l) => !(l is Other),
        _ => false,
    }
}

/// The log reader understands the whole filter.
pub open spec fn understood(e: Expr, names: Seq<String>) -> bool
    decreases e,
{
    match e {
        Expr::IsNull(Some(c)) => understood_operand(*c, names),
        Expr::IsNotNull(Some(c)) => understood_operand(*c, names),
        Expr::Not(Some(c)) => understood(*c, names),
        Expr::Binary { op, left, right } => match (left, right) {
            (Some(l), Some(r)) => if op == BinaryOp::And || op == BinaryOp::Or {
                understood(*l, names) && understood(*r, names)
            } else {
                understood_operand(*l, names) && understood_operand(*r, names)
            },
            _ => false,
        },
        _ => false,
    }
}

/// A literal keeps its value: what it becomes denotes what it denotes, and only a literal
/// that denotes nothing becomes unknown.
pub proof fn a_literal_keeps_its_value(
    l: Literal,
    e: Expression,
    named: spec_fn(Seq<char>) -> Option<Datum>,
)
    requires
        e@ == literal_value(l),
    ensures
        kernel_datum(e, named) == literal_datum(l),
{
}

/// An operand keeps its value: what it becomes denotes on a row what the operand does, where
/// the log reader understands it, and is unknown otherwise.
pub proof fn an_operand_keeps_its_value(
    q: Expr,
    e: Expression,
    names: Seq<String>,
    row: Row,
    named: spec_fn(Seq<char>) -> Option<Datum>,
)
    requires
        e@ == operand(q, names),
        names_columns(names, row, named),
    ensures
        understood_operand(q, names) ==> kernel_datum(e, named) == query_datum(q, row)
            && kernel_datum(e, named) is Some,
        !understood_operand(q, names) ==> kernel_datum(e, named) is None,
{
    match q {
        Expr::Literal(l) => {
            a_literal_keeps_its_value(l, e, named);
        },
        Expr::Bound(i) => {
            if 0 <= i < names.len() {
                assert(named(names[i as int]@) == row.columns[i as int]);
            }
        },
        _ => {},
    }
}

/// Where the predicate that a filter becomes comes to something on a row, the filter comes
/// to the same on it: no file is left out for a row that the filter keeps. A filter that
/// the log reader understands loses nothing: its predicate comes to what it comes to, on
/// every row.
#[verifier::rlimit(60)]
pub proof fn a_filter_keeps_its_meaning(
    e: Expr,
    p: Predicate,
    names: Seq<String>,
    row: Row,
    named: spec_fn(Seq<char>) -> Option<Datum>,
)
    requires
        predicate_view(p) == translated(e, names),
        names_columns(names, row, named),
    ensures
        kernel_value(p, row, named) matches Some(b) ==> query_value(e, row) == Some(b),
        understood(e, names) ==> kernel_value(p, row, named) == query_value(e, row),
    decreases e,
{
    reveal_with_fuel(kernel_value, 2);
    reveal_with_fuel(predicate_view, 2);
    match e {
        Expr::IsNull(Some(c)) => {
            if let Predicate::IsNull(x) = p {
                an_operand_keeps_its_value(*c, x, names, row, named);
            }
        },
        Expr::IsNotNull(Some(c)) => {
            if let Predicate::Not(inner) = p {
                if let Predicate::IsNull(x) = *inner {
                    an_operand_keeps_its_value(*c, x, names, row, named);
                }
            }
        },
        Expr::Not(Some(c)) => {
            if let Predicate::Not(inner) = p {
                a_filter_keeps_its_meaning(*c, *inner, names, row, named);
            }
        },
        Expr::Binary { op, left, right } => match (left, right) {
            (Some(l), Some(r)) => {
                if op == BinaryOp::And {
                    if let Predicate::And(a, b) = p {
                        a_filter_keeps_its_meaning(*l, *a, names, row, named);
                        a_filter_keeps_its_meaning(*r, *b, names, row, named);
                    }
                } else if op == BinaryOp::Or {
                    if let Predicate::Or(a, b) = p {
                        a_filter_keeps_its_meaning(*l, *a, names, row, named);
                        a_filter_keeps_its_meaning(*r, *b, names, row, named);
                    }
                } else {
                    let core = match p {
                        Predicate::Not(inner) => *inner,
                        _ => p,
                    };
                    if let Predicate::Compare { op: _, left: x, right: y } = core {
                        an_operand_keeps_its_value(*l, x, names, row, named);
                        an_operand_keeps_its_value(*r, y, names, row, named);
                    }
                }
            },
            _ => {},
        },
        _ => {},
    }
}

} // verus!
