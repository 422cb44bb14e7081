use polar_core::bindings::Bindings;
use polar_core::counter::Counter;
use polar_core::events::QueryEvent;
use polar_core::partial::constraints::{Constraints, IsaConstraintCheck};
use polar_core::partial::simplify::simplify_bindings;
use polar_core::terms::{InstanceLiteral, Operation, Operator, Pattern, Symbol, Term, Value};

fn sym(name: &str) -> Symbol {
    Symbol::new(name)
}

fn num(n: i64) -> Term {
    Term::new(Value::Number(n))
}

fn string(s: &str) -> Term {
    Term::new(Value::String(s.to_string()))
}

fn var(name: &str) -> Term {
    Term::new(Value::Variable(sym(name)))
}

fn instance(tag: &str) -> Term {
    Term::new(Value::Pattern(Pattern::Instance(InstanceLiteral { tag: sym(tag) })))
}

fn operator_to_polar(operator: Operator) -> &'static str {
    match operator {
        Operator::Unify => "=",
        Operator::Isa => "matches",
        Operator::Dot => ".",
        Operator::And => "and",
        Operator::Or => "or",
        Operator::Not => "not",
        Operator::Lt => "<",
        Operator::Gt => ">",
        Operator::Leq => "<=",
        Operator::Geq => ">=",
        Operator::Eq => "==",
        Operator::Neq => "!=",
    }
}

fn precedence(operator: Operator) -> u8 {
    match operator {
        Operator::Dot => 9,
        Operator::Isa => 5,
        Operator::Eq
        | Operator::Neq
        | Operator::Lt
        | Operator::Gt
        | Operator::Leq
        | Operator::Geq => 5,
        Operator::Unify => 4,
        Operator::Not => 3,
        Operator::And => 2,
        Operator::Or => 1,
    }
}

fn to_polar_parens(outer: Operator, term: &Term) -> String {
    match term.value() {
        Value::Expression(inner) if precedence(inner.operator) < precedence(outer) => {
            format!("({})", to_polar(term))
        }
        _ => to_polar(term),
    }
}

fn join(outer: Operator, args: &[Term], separator: &str) -> String {
    args.iter().map(|a| to_polar_parens(outer, a)).collect::<Vec<String>>().join(separator)
}

fn operation_to_polar(o: &Operation) -> String {
    match o.operator {
        Operator::Dot => {
            let field = match o.args[1].value() {
                Value::String(s) => s.clone(),
                _ => to_polar(&o.args[1]),
            };
            format!("{}.{}", to_polar(&o.args[0]), field)
        }
        Operator::Not => format!("not {}", to_polar_parens(o.operator, &o.args[0])),
        Operator::And => join(o.operator, &o.args, " and "),
        Operator::Or => join(o.operator, &o.args, " or "),
        _ => format!(
            "{} {} {}",
            to_polar_parens(o.operator, &o.args[0]),
            operator_to_polar(o.operator),
            to_polar_parens(o.operator, &o.args[1])
        ),
    }
}

fn to_polar(term: &Term) -> String {
    match term.value() {
        Value::Number(n) => format!("{}", n),
        Value::String(s) => format!("\"{}\"", s),
        Value::Boolean(b) => format!("{}", b),
        Value::List(l) => format!("[{}]", l.iter().map(to_polar).collect::<Vec<String>>().join(", ")),
        Value::Variable(s) => s.0.clone(),
        Value::Expression(o) => operation_to_polar(o),
        Value::Partial(c) => format!(
            "partial({}) {{ {} }}",
            c.name().0,
            c.operations().iter().map(operation_to_polar).collect::<Vec<String>>().join(", ")
        ),
        Value::Pattern(Pattern::Instance(i)) => format!("{}{{}}", i.tag.0),
    }
}

/// The term with each variable that is bound replaced by what it is bound
/// to, as the evaluator hands its bindings out.
fn deref(term: &Term, bindings: &[(Symbol, Term)]) -> Term {
    match term.value() {
        Value::Variable(name) => match bindings.iter().find(|(n, _)| n == name) {
            Some((_, bound)) => deref(bound, bindings),
            None => term.clone(),
        },
        Value::List(l) => Term::new(Value::List(l.iter().map(|t| deref(t, bindings)).collect())),
        Value::Expression(o) => Term::new(Value::Expression(deref_operation(o, bindings))),
        Value::Partial(c) => Term::new(Value::Partial(c.clone_with_operations(
            c.operations().iter().map(|o| deref_operation(o, bindings)).collect(),
        ))),
        _ => term.clone(),
    }
}

fn deref_operation(o: &Operation, bindings: &[(Symbol, Term)]) -> Operation {
    Operation { operator: o.operator, args: o.args.iter().map(|t| deref(t, bindings)).collect() }
}

/// The bindings of a finished branch: every variable with what it is bound
/// to, variables inside replaced by their values.
fn result_bindings(raw: &[(Symbol, Term)]) -> Bindings {
    let mut bindings = Bindings::new();
    for (name, term) in raw {
        bindings.insert(name.clone(), deref(term, raw));
    }
    bindings
}

fn partial_expression(bindings: &Bindings, name: &str) -> String {
    let term = bindings.get(&sym(name)).unwrap();
    match term.value() {
        Value::Expression(_) => to_polar(term),
        other => panic!("not an expression: {:?}", other),
    }
}

/// One step of a rule body on a partial.
enum Step {
    Unify(Term),
    Compare(Operator, Term),
    Isa(Term),
    /// `x.field op value`
    Field(&'static str, Operator, Term),
}

/// Evaluates rule bodies, one after the other, on the partial `root`, with
/// `oracle` as the host's class hierarchy. Returns the simplified bindings,
/// or nothing if a type constraint conflicts with an earlier one.
fn evaluate(root: &str, bodies: &[&[Step]], oracle: &dyn Fn(&str, &str) -> bool) -> Option<Bindings> {
    let counter_start = 1;
    let mut counter = Counter::new(counter_start);
    let mut partial = Constraints::new(sym(root));
    let mut raw: Vec<(Symbol, Term)> = Vec::new();
    let mut fresh = 0;
    for body in bodies {
        for step in body.iter() {
            match step {
                Step::Unify(other) => partial.unify(other.clone()),
                Step::Compare(operator, other) => partial.compare(*operator, other.clone()),
                Step::Isa(other) => {
                    let mut check: IsaConstraintCheck = partial.isa(other.clone());
                    loop {
                        match check.run(&mut counter).unwrap() {
                            QueryEvent::Done { result } => {
                                if !result {
                                    return None;
                                }
                                break;
                            }
                            QueryEvent::ExternalIsSubclass {
                                call_id,
                                left_class_tag,
                                right_class_tag,
                            } => {
                                let answer = oracle(&left_class_tag.0, &right_class_tag.0);
                                check.external_question_result(call_id, answer).unwrap();
                            }
                        }
                    }
                }
                Step::Field(field, operator, other) => {
                    fresh += 1;
                    let name = format!("_value_{}", fresh);
                    let child = partial.lookup(string(field), var(&name));
                    let mut child = match child.value() {
                        Value::Partial(c) => c.clone(),
                        _ => panic!("not a partial"),
                    };
                    match operator {
                        Operator::Unify => child.unify(other.clone()),
                        _ => child.compare(*operator, other.clone()),
                    }
                    raw.push((sym(&name), child.into_term()));
                }
            }
        }
    }
    raw.push((sym(root), partial.into_term()));
    Some(simplify_bindings(result_bindings(&raw)).unwrap())
}

fn no_oracle(_: &str, _: &str) -> bool {
    panic!("no question expected")
}

#[test]
fn basic_test() {
    // f(x) if x = 1;
    // f(x) if x = 2;
    // f(x) if x.a = 3 or x.b = 4;
    let mut first = Bindings::new();
    first.insert(sym("a"), num(1));
    let first = simplify_bindings(first).unwrap();
    assert_eq!(first.get(&sym("a")).unwrap(), &num(1));

    let mut second = Bindings::new();
    second.insert(sym("a"), num(2));
    let second = simplify_bindings(second).unwrap();
    assert_eq!(second.get(&sym("a")).unwrap(), &num(2));

    let next = evaluate("a", &[&[Step::Field("a", Operator::Unify, num(3))]], &no_oracle).unwrap();
    assert_eq!(partial_expression(&next, "a"), "_this.a = 3");

    let next = evaluate("a", &[&[Step::Field("b", Operator::Unify, num(4))]], &no_oracle).unwrap();
    assert_eq!(partial_expression(&next, "a"), "_this.b = 4");
}

#[test]
fn test_partial_and() {
    // f(x, y, z) if x = y and x = z;   with y = 1, z = 2
    let next =
        evaluate("a", &[&[Step::Unify(num(1)), Step::Unify(num(2))]], &no_oracle).unwrap();
    assert_eq!(partial_expression(&next, "a"), "_this = 1 and _this = 2");
}

#[test]
fn test_partial_two_rule() {
    // f(x, y, z) if x = y and x = z and g(x);
    // g(x) if x = 3;
    // g(x) if x = 4 or x = 5;
    let f: &[Step] = &[Step::Unify(num(1)), Step::Unify(num(2))];

    let next = evaluate("a", &[f, &[Step::Unify(num(3))]], &no_oracle).unwrap();
    assert_eq!(partial_expression(&next, "a"), "_this = 1 and _this = 2 and _this = 3");

    let next = evaluate("a", &[f, &[Step::Unify(num(4))]], &no_oracle).unwrap();
    assert_eq!(partial_expression(&next, "a"), "_this = 1 and _this = 2 and _this = 4");

    let next = evaluate("a", &[f, &[Step::Unify(num(5))]], &no_oracle).unwrap();
    assert_eq!(partial_expression(&next, "a"), "_this = 1 and _this = 2 and _this = 5");
}

#[test]
fn test_partial_isa() {
    // f(x: Post) if x.foo = 1;
    // f(x: User) if x.bar = 1;
    let next = evaluate(
        "a",
        &[&[Step::Isa(instance("Post")), Step::Field("foo", Operator::Unify, num(1))]],
        &no_oracle,
    )
    .unwrap();
    assert_eq!(partial_expression(&next, "a"), "_this matches Post{} and _this.foo = 1");

    let next = evaluate(
        "a",
        &[&[Step::Isa(instance("User")), Step::Field("bar", Operator::Unify, num(1))]],
        &no_oracle,
    )
    .unwrap();
    assert_eq!(partial_expression(&next, "a"), "_this matches User{} and _this.bar = 1");
}

#[test]
fn test_partial_isa_two_rule() {
    // f(x: Post) if x.foo = 0 and g(x);
    // f(x: User) if x.bar = 1 and g(x);
    // g(x: Post) if x.post = 1;
    // g(x: PostSubclass) if x.post_subclass = 1;
    // g(x: User) if x.user = 1;
    // g(x: UserSubclass) if x.user_subclass = 1;
    let f: Vec<Vec<Step>> = vec![
        vec![Step::Isa(instance("Post")), Step::Field("foo", Operator::Unify, num(0))],
        vec![Step::Isa(instance("User")), Step::Field("bar", Operator::Unify, num(1))],
    ];
    let g: Vec<Vec<Step>> = vec![
        vec![Step::Isa(instance("Post")), Step::Field("post", Operator::Unify, num(1))],
        vec![
            Step::Isa(instance("PostSubclass")),
            Step::Field("post_subclass", Operator::Unify, num(1)),
        ],
        vec![Step::Isa(instance("User")), Step::Field("user", Operator::Unify, num(1))],
        vec![
            Step::Isa(instance("UserSubclass")),
            Step::Field("user_subclass", Operator::Unify, num(1)),
        ],
    ];
    let oracle = |left: &str, right: &str| left.starts_with(right);

    let mut results: Vec<String> = Vec::new();
    for head in f.iter() {
        for tail in g.iter() {
            if let Some(next) = evaluate("a", &[head, tail], &oracle) {
                results.push(partial_expression(&next, "a"));
            }
        }
    }

    assert_eq!(
        results[0],
        "_this matches Post{} and _this.foo = 0 and _this matches Post{} and _this.post = 1"
    );
    assert_eq!(
        results[1],
        "_this matches Post{} and _this.foo = 0 and _this matches PostSubclass{} and _this.post_subclass = 1"
    );
    assert_eq!(
        results[2],
        "_this matches User{} and _this.bar = 1 and _this matches User{} and _this.user = 1"
    );
    assert_eq!(
        results[3],
        "_this matches User{} and _this.bar = 1 and _this matches UserSubclass{} and _this.user_subclass = 1"
    );
    assert_eq!(results.len(), 4);
}

#[test]
fn test_partial_comparison() {
    // positive(x) if x > 0;
    // positive(x) if x > 0 and x < 0;
    let next = evaluate("a", &[&[Step::Compare(Operator::Gt, num(0))]], &no_oracle).unwrap();
    assert_eq!(partial_expression(&next, "a"), "_this > 0");

    let next = evaluate(
        "a",
        &[&[Step::Compare(Operator::Gt, num(0)), Step::Compare(Operator::Lt, num(0))]],
        &no_oracle,
    )
    .unwrap();
    assert_eq!(partial_expression(&next, "a"), "_this > 0 and _this < 0");
}

#[test]
fn test_partial_comparison_dot() {
    // positive(x) if x.a > 0;
    let next = evaluate("a", &[&[Step::Field("a", Operator::Gt, num(0))]], &no_oracle).unwrap();
    assert_eq!(partial_expression(&next, "a"), "_this.a > 0");
}

/// The constraints of the partial that a lookup has returned.
fn constraints_of(term: Term) -> Constraints {
    match term.value() {
        Value::Partial(c) => c.clone(),
        _ => panic!("not a partial"),
    }
}

#[test]
fn test_partial_comparison_dot_chain() {
    // positive(x) if x.a.b.c > 0;
    let mut root = Constraints::new(sym("a"));
    let mut first = constraints_of(root.lookup(string("a"), var("_value_1")));
    let mut second = constraints_of(first.lookup(string("b"), var("_value_2")));
    let mut third = constraints_of(second.lookup(string("c"), var("_value_3")));
    third.compare(Operator::Gt, num(0));
    let raw = vec![
        (sym("_value_3"), third.into_term()),
        (sym("_value_2"), second.into_term()),
        (sym("_value_1"), first.into_term()),
        (sym("a"), root.into_term()),
    ];
    let next = simplify_bindings(result_bindings(&raw)).unwrap();
    assert_eq!(partial_expression(&next, "a"), "_this.a.b.c > 0");
    assert_eq!(next.names(), vec![sym("a")]);
}

#[test]
fn test_partial_two_fields_of_one_record() {
    // f(x) if x.a.b > 0 and x.a.c < 1 and x.d = 2;
    let mut root = Constraints::new(sym("a"));
    let mut first = constraints_of(root.lookup(string("a"), var("_value_1")));
    let mut second = constraints_of(first.lookup(string("b"), var("_value_2")));
    second.compare(Operator::Gt, num(0));
    let mut third = constraints_of(first.lookup(string("c"), var("_value_3")));
    third.compare(Operator::Lt, num(1));
    let mut fourth = constraints_of(root.lookup(string("d"), var("_value_4")));
    fourth.unify(num(2));
    let raw = vec![
        (sym("a"), root.into_term()),
        (sym("_value_1"), first.into_term()),
        (sym("_value_2"), second.into_term()),
        (sym("_value_3"), third.into_term()),
        (sym("_value_4"), fourth.into_term()),
    ];
    let next = simplify_bindings(result_bindings(&raw)).unwrap();
    assert_eq!(
        partial_expression(&next, "a"),
        "_this.a.b > 0 and _this.a.c < 1 and _this.d = 2"
    );
    assert_eq!(next.names(), vec![sym("a")]);
}
