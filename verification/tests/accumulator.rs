use polar_core::partial::constraints::Constraints;
use polar_core::terms::{InstanceLiteral, Operation, Operator, Pattern, Symbol, Term, Value};

fn sym(name: &str) -> Symbol {
    Symbol::new(name)
}

fn num(n: i64) -> Term {
    Term::new(Value::Number(n))
}

fn this() -> Term {
    Term::new(Value::Variable(sym("_this")))
}

fn op(operator: Operator, left: Term, right: Term) -> Operation {
    Operation { operator, args: vec![left, right] }
}

fn expr(o: Operation) -> Term {
    Term::new(Value::Expression(o))
}

fn instance(tag: &str) -> Term {
    Term::new(Value::Pattern(Pattern::Instance(InstanceLiteral { tag: sym(tag) })))
}

#[test]
fn new_accumulator_is_empty() {
    let c = Constraints::new(sym("x"));
    assert!(c.operations().is_empty());
    assert_eq!(c.name(), &sym("x"));
    assert_eq!(c.into_expression(), expr(Operation { operator: Operator::And, args: vec![] }));
}

#[test]
fn unify_appends_one_operation_on_the_receiver() {
    let mut c = Constraints::new(sym("x"));
    c.unify(num(1));
    assert_eq!(c.operations(), &vec![op(Operator::Unify, this(), num(1))]);
    c.unify(num(2));
    assert_eq!(
        c.operations(),
        &vec![op(Operator::Unify, this(), num(1)), op(Operator::Unify, this(), num(2))]
    );
}

#[test]
fn compare_puts_the_receiver_on_the_left() {
    let operators = [
        Operator::Lt,
        Operator::Gt,
        Operator::Leq,
        Operator::Geq,
        Operator::Eq,
        Operator::Neq,
    ];
    let mut c = Constraints::new(sym("x"));
    for operator in operators.iter() {
        c.compare(*operator, num(7));
    }
    assert_eq!(c.operations().len(), 6);
    for (i, operator) in operators.iter().enumerate() {
        assert_eq!(c.operations()[i], op(*operator, this(), num(7)));
    }
}

#[test]
fn isa_appends_the_type_constraint() {
    let mut c = Constraints::new(sym("x"));
    c.unify(num(1));
    let _check = c.isa(instance("Post"));
    assert_eq!(
        c.operations(),
        &vec![op(Operator::Unify, this(), num(1)), op(Operator::Isa, this(), instance("Post"))]
    );
}

#[test]
fn lookup_records_a_field_and_returns_a_new_partial() {
    let mut c = Constraints::new(sym("x"));
    let placeholder = Term::new(Value::Variable(sym("_value_1")));
    let field = Term::new(Value::String("a".to_string()));
    let child = c.lookup(field.clone(), placeholder.clone());
    assert_eq!(
        c.operations(),
        &vec![op(Operator::Unify, placeholder, expr(op(Operator::Dot, this(), field)))]
    );
    assert_eq!(child, Term::new(Value::Partial(Constraints::new(sym("_value_1")))));
}

#[test]
fn into_term_wraps_the_constraints() {
    let mut c = Constraints::new(sym("x"));
    c.unify(num(1));
    let copy = c.clone();
    assert_eq!(c.into_term(), Term::new(Value::Partial(copy)));
}

#[test]
fn into_expression_keeps_the_order_of_assertions() {
    let mut c = Constraints::new(sym("x"));
    c.unify(num(1));
    c.compare(Operator::Gt, num(0));
    let _ = c.isa(instance("Post"));
    c.compare(Operator::Neq, num(5));
    c.unify(num(1));
    let expected = expr(Operation {
        operator: Operator::And,
        args: vec![
            expr(op(Operator::Unify, this(), num(1))),
            expr(op(Operator::Gt, this(), num(0))),
            expr(op(Operator::Isa, this(), instance("Post"))),
            expr(op(Operator::Neq, this(), num(5))),
            expr(op(Operator::Unify, this(), num(1))),
        ],
    });
    assert_eq!(c.into_expression(), expected);
}

#[test]
fn clone_with_name_keeps_the_operations() {
    let mut c = Constraints::new(sym("x"));
    c.unify(num(1));
    let renamed = c.clone_with_name(sym("y"));
    assert_eq!(renamed.name(), &sym("y"));
    assert_eq!(renamed.operations(), c.operations());
    assert_eq!(c.name(), &sym("x"));
}

#[test]
fn clone_with_operations_keeps_the_name() {
    let mut c = Constraints::new(sym("x"));
    c.unify(num(1));
    let replaced = c.clone_with_operations(vec![op(Operator::Lt, this(), num(3))]);
    assert_eq!(replaced.name(), &sym("x"));
    assert_eq!(replaced.operations(), &vec![op(Operator::Lt, this(), num(3))]);
    assert_eq!(c.operations(), &vec![op(Operator::Unify, this(), num(1))]);
}

#[test]
fn operations_mut_gives_access_to_the_list() {
    let mut c = Constraints::new(sym("x"));
    c.unify(num(1));
    c.operations_mut().push(op(Operator::Gt, this(), num(0)));
    c.operations_mut().remove(0);
    assert_eq!(c.operations(), &vec![op(Operator::Gt, this(), num(0))]);
    assert_eq!(c.name(), &sym("x"));
}

#[test]
fn variable_term_is_the_receiver() {
    let c = Constraints::new(sym("x"));
    assert_eq!(c.variable_term(), this());
}

#[test]
fn branches_record_their_own_constraints() {
    let mut trunk = Constraints::new(sym("x"));
    trunk.unify(num(1));
    let mut left = trunk.clone();
    let mut right = trunk.clone();
    left.compare(Operator::Gt, num(0));
    right.compare(Operator::Lt, num(0));
    assert_eq!(
        left.operations(),
        &vec![op(Operator::Unify, this(), num(1)), op(Operator::Gt, this(), num(0))]
    );
    assert_eq!(
        right.operations(),
        &vec![op(Operator::Unify, this(), num(1)), op(Operator::Lt, this(), num(0))]
    );
    assert_eq!(trunk.operations(), &vec![op(Operator::Unify, this(), num(1))]);
}
