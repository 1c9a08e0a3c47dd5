//! The expressions and identities of an analyzed circuit, and how they read as text.

use crate::field::FieldElement;
use crate::text::{decimal, decimal_text, join, join_text, views_of};
use vstd::prelude::*;

verus! {

/// A reference to a column, on the row under evaluation or on the row after it.
#[derive(Debug)]
pub struct PolynomialReference {
    pub name: String,
    /// Whether the reference is to the row after the one under evaluation.
    pub next: bool,
}

#[derive(Clone, Copy, Debug, PartialEq, Eq, Structural)]
pub enum BinaryOperator {
    Add,
    Sub,
    Mul,
    Div,
}

#[derive(Clone, Copy, Debug, PartialEq, Eq, Structural)]
pub enum UnaryOperator {
    Plus,
    Minus,
}

#[derive(Debug)]
pub enum Expression {
    /// A named constant of the circuit.
    Constant(String),
    PolynomialReference(PolynomialReference),
    LocalVariableReference(u64),
    PublicReference(String),
    Number(FieldElement),
    String(String),
    Tuple(Vec<Expression>),
    BinaryOperation(Box<Expression>, BinaryOperator, Box<Expression>),
    UnaryOperation(UnaryOperator, Box<Expression>),
    FunctionCall(String, Vec<Expression>),
    /// A scrutinee and the arms to choose from; an arm without a pattern matches every value.
    MatchExpression(Box<Expression>, Vec<(Option<FieldElement>, Expression)>),
}

#[derive(Clone, Copy, Debug, PartialEq, Eq, Structural)]
pub enum IdentityKind {
    Polynomial,
    Plookup,
    Permutation,
    Connect,
}

/// A list of expressions, with an optional selector that switches it on row by row.
#[derive(Debug)]
pub struct SelectedExpressions {
    pub selector: Option<Expression>,
    pub expressions: Vec<Expression>,
}

/// A relation that has to hold on every row. A polynomial identity keeps its
/// expression as the selector of its left side.
#[derive(Debug)]
pub struct Identity {
    pub kind: IdentityKind,
    pub left: SelectedExpressions,
    pub right: SelectedExpressions,
}

pub open spec fn binary_operator_text(op: BinaryOperator) -> Seq<char> {
    match op {
        BinaryOperator::Add => "+"@,
        BinaryOperator::Sub => "-"@,
        BinaryOperator::Mul => "*"@,
        BinaryOperator::Div => "/"@,
    }
}

pub open spec fn unary_operator_text(op: UnaryOperator) -> Seq<char> {
    match op {
        UnaryOperator::Plus => "+"@,
        UnaryOperator::Minus => "-"@,
    }
}

pub open spec fn reference_text(reference: PolynomialReference) -> Seq<char> {
    if reference.next {
        reference.name@ + "'"@
    } else {
        reference.name@
    }
}

/// How an expression reads in the language of the circuit.
pub open spec fn expression_text(e: Expression) -> Seq<char>
    decreases e,
{
    match e {
        Expression::Constant(name) => name@,
        Expression::PolynomialReference(reference) => reference_text(reference),
        Expression::LocalVariableReference(index) => "$"@ + decimal_text(index as nat),
        Expression::PublicReference(name) => ":"@ + name@,
        Expression::Number(value) => decimal_text(value@ as nat),
        Expression::String(value) => "\""@ + value@ + "\""@,
        Expression::Tuple(items) => "("@ + join_text(expression_texts(items@), ", "@) + ")"@,
        Expression::BinaryOperation(left, op, right) => "("@ + expression_text(*left) + " "@
            + binary_operator_text(op) + " "@ + expression_text(*right) + ")"@,
        Expression::UnaryOperation(op, inner) => unary_operator_text(op) + expression_text(
            *inner,
        ),
        Expression::FunctionCall(name, arguments) => name@ + "("@ + join_text(
            expression_texts(arguments@),
            ", "@,
        ) + ")"@,
        Expression::MatchExpression(scrutinee, arms) => "match "@ + expression_text(*scrutinee)
            + " { "@ + arms_text(arms@) + "}"@,
    }
}

/// The texts of the expressions, in order.
pub open spec fn expression_texts(items: Seq<Expression>) -> Seq<Seq<char>>
    decreases items,
{
    if items.len() == 0 {
        Seq::empty()
    } else {
        expression_texts(items.drop_last()).push(expression_text(items.last()))
    }
}

/// The arms of a match expression, each followed by a comma and a space.
pub open spec fn arms_text(arms: Seq<(Option<FieldElement>, Expression)>) -> Seq<char>
    decreases arms,
{
    if arms.len() == 0 {
        Seq::empty()
    } else {
        arms_text(arms.drop_last()) + (match arms.last().0 {
            Some(pattern) => decimal_text(pattern@ as nat),
            None => "_"@,
        }) + " => "@ + expression_text(arms.last().1) + ", "@
    }
}

pub open spec fn selected_expressions_text(selected: SelectedExpressions) -> Seq<char> {
    (match selected.selector {
        Some(selector) => expression_text(selector) + " "@,
        None => Seq::empty(),
    }) + "{ "@ + join_text(expression_texts(selected.expressions@), ", "@) + " }"@
}

pub open spec fn identity_text(identity: Identity) -> Seq<char> {
    match identity.kind {
        IdentityKind::Polynomial => (match identity.left.selector {
            Some(expression) => expression_text(expression),
            None => Seq::empty(),
        }) + " = 0;"@,
        IdentityKind::Plookup => selected_expressions_text(identity.left) + " in "@
            + selected_expressions_text(identity.right) + ";"@,
        IdentityKind::Permutation => selected_expressions_text(identity.left) + " is "@
            + selected_expressions_text(identity.right) + ";"@,
        IdentityKind::Connect => selected_expressions_text(identity.left) + " connect "@
            + selected_expressions_text(identity.right) + ";"@,
    }
}

impl BinaryOperator {
    pub fn to_string(&self) -> (r: String)
        ensures
            r@ == binary_operator_text(*self),
    {
        match self {
            BinaryOperator::Add => String::from_str("+"),
            BinaryOperator::Sub => String::from_str("-"),
            BinaryOperator::Mul => String::from_str("*"),
            BinaryOperator::Div => String::from_str("/"),
        }
    }
}

impl UnaryOperator {
    pub fn to_string(&self) -> (r: String)
        ensures
            r@ == unary_operator_text(*self),
    {
        match self {
            UnaryOperator::Plus => String::from_str("+"),
            UnaryOperator::Minus => String::from_str("-"),
        }
    }
}

impl PolynomialReference {
    pub fn to_string(&self) -> (r: String)
        ensures
            r@ == reference_text(*self),
    {
        let mut out = self.name.clone();
        if self.next {
            out.append("'");
        }
        out
    }
}

/// The expressions as text, separated by a comma and a space.
pub fn format_expressions(items: &Vec<Expression>) -> (r: String)
    ensures
        r@ == join_text(expression_texts(items@), ", "@),
    decreases items,
{
    let mut parts: Vec<String> = Vec::new();
    let mut i: usize = 0;
    while i < items.len()
        invariant
            i <= items@.len(),
            views_of(parts@) == expression_texts(items@.take(i as int)),
        decreases items@.len() - i,
    {
        let ghost longer = items@.take(i + 1);
        assert(longer.drop_last() =~= items@.take(i as int));
        assert(longer.last() == items@[i as int]);
        let part = items[i].to_string();
        parts.push(part);
        assert(views_of(parts@) =~= expression_texts(longer));
        i += 1;
    }
    assert(items@.take(i as int) =~= items@);
    join(&parts, ", ")
}

fn format_arms(arms: &Vec<(Option<FieldElement>, Expression)>) -> (r: String)
    ensures
        r@ == arms_text(arms@),
    decreases arms,
{
    let mut out = String::new();
    let mut i: usize = 0;
    while i < arms.len()
        invariant
            i <= arms@.len(),
            out@ == arms_text(arms@.take(i as int)),
        decreases arms@.len() - i,
    {
        let ghost longer = arms@.take(i + 1);
        assert(longer.drop_last() =~= arms@.take(i as int));
        assert(longer.last() == arms@[i as int]);
        match &arms[i].0 {
            Some(pattern) => {
                out.append(pattern.to_string().as_str());
            },
            None => {
                out.append("_");
            },
        }
        out.append(" => ");
        out.append(arms[i].1.to_string().as_str());
        out.append(", ");
        i += 1;
    }
    assert(arms@.take(i as int) =~= arms@);
    out
}

impl Expression {
    /// The expression in the language of the circuit.
    pub fn to_string(&self) -> (r: String)
        ensures
            r@ == expression_text(*self),
        decreases self,
    {
        match self {
            Expression::Constant(name) => name.clone(),
            Expression::PolynomialReference(reference) => reference.to_string(),
            Expression::LocalVariableReference(index) => {
                let mut out = String::from_str("$");
                out.append(decimal(*index).as_str());
                out
            },
            Expression::PublicReference(name) => {
                let mut out = String::from_str(":");
                out.append(name.as_str());
                out
            },
            Expression::Number(value) => value.to_string(),
            Expression::String(value) => {
                let mut out = String::from_str("\"");
                out.append(value.as_str());
                out.append("\"");
                out
            },
            Expression::Tuple(items) => {
                let mut out = String::from_str("(");
                out.append(format_expressions(items).as_str());
                out.append(")");
                out
            },
            Expression::BinaryOperation(left, op, right) => {
                let mut out = String::from_str("(");
                out.append(left.to_string().as_str());
                out.append(" ");
                out.append(op.to_string().as_str());
                out.append(" ");
                out.append(right.to_string().as_str());
                out.append(")");
                out
            },
            Expression::UnaryOperation(op, inner) => {
                let mut out = op.to_string();
                out.append(inner.to_string().as_str());
                out
            },
            Expression::FunctionCall(name, arguments) => {
                let mut out = name.clone();
                out.append("(");
                out.append(format_expressions(arguments).as_str());
                out.append(")");
                out
            },
            Expression::MatchExpression(scrutinee, arms) => {
                let mut out = String::from_str("match ");
                out.append(scrutinee.to_string().as_str());
                out.append(" { ");
                out.append(format_arms(arms).as_str());
                out.append("}");
                out
            },
        }
    }
}

impl SelectedExpressions {
    pub fn to_string(&self) -> (r: String)
        ensures
            r@ == selected_expressions_text(*self),
    {
        let mut out = String::new();
        match &self.selector {
            Some(selector) => {
                out.append(selector.to_string().as_str());
                out.append(" ");
            },
            None => {},
        }
        assert(out@ =~= (match self.selector {
            Some(selector) => expression_text(selector) + " "@,
            None => Seq::empty(),
        }));
        out.append("{ ");
        out.append(format_expressions(&self.expressions).as_str());
        out.append(" }");
        out
    }
}

impl Identity {
    /// The identity in the language of the circuit.
    pub fn to_string(&self) -> (r: String)
        ensures
            r@ == identity_text(*self),
    {
        match self.kind {
            IdentityKind::Polynomial => {
                let mut out = String::new();
                match &self.left.selector {
                    Some(expression) => {
                        out.append(expression.to_string().as_str());
                    },
                    None => {},
                }
                assert(out@ =~= (match self.left.selector {
                    Some(expression) => expression_text(expression),
                    None => Seq::empty(),
                }));
                out.append(" = 0;");
                out
            },
            IdentityKind::Plookup => {
                let mut out = self.left.to_string();
                out.append(" in ");
                out.append(self.right.to_string().as_str());
                out.append(";");
                out
            },
            IdentityKind::Permutation => {
                let mut out = self.left.to_string();
                out.append(" is ");
                out.append(self.right.to_string().as_str());
                out.append(";");
                out
            },
            IdentityKind::Connect => {
                let mut out = self.left.to_string();
                out.append(" connect ");
                out.append(self.right.to_string().as_str());
                out.append(";");
                out
            },
        }
    }
}

} // verus!
