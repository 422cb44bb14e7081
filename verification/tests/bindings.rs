use polar_core::bindings::Bindings;
use polar_core::partial::constraints::Constraints;
use polar_core::terms::{InstanceLiteral, Operation, Operator, Pattern, Symbol, Term, Value};

fn sym(name: &str) -> Symbol {
    Symbol::new(name)
}

fn num(n: i64) -> Term {
    Term::new(Value::Number(n))
}

#[test]
fn new_bindings_bind_nothing() {
    let b = Bindings::new();
    assert!(b.names().is_empty());
    assert_eq!(b.get(&sym("a")), None);
    assert!(!b.contains_key(&sym("a")));
}

#[test]
fn insert_binds_and_overwrites() {
    let mut b = Bindings::new();
    assert_eq!(b.insert(sym("a"), num(1)), None);
    assert_eq!(b.insert(sym("b"), num(2)), None);
    assert_eq!(b.get(&sym("a")), Some(&num(1)));
    assert_eq!(b.get(&sym("b")), Some(&num(2)));
    assert_eq!(b.insert(sym("a"), num(3)), Some(num(1)));
    assert_eq!(b.get(&sym("a")), Some(&num(3)));
    assert_eq!(b.get(&sym("b")), Some(&num(2)));
    let mut names = b.names();
    names.sort_by_key(|s| s.0.clone());
    assert_eq!(names, vec![sym("a"), sym("b")]);
}

#[test]
fn remove_unbinds_one_name() {
    let mut b = Bindings::new();
    b.insert(sym("a"), num(1));
    b.insert(sym("b"), num(2));
    b.insert(sym("c"), num(3));
    assert_eq!(b.remove(&sym("b")), Some(num(2)));
    assert_eq!(b.remove(&sym("b")), None);
    assert!(b.contains_key(&sym("a")));
    assert!(!b.contains_key(&sym("b")));
    assert!(b.contains_key(&sym("c")));
    assert_eq!(b.get(&sym("c")), Some(&num(3)));
    assert_eq!(b.names().len(), 2);
}

#[test]
fn clone_of_bindings_is_independent() {
    let mut b = Bindings::new();
    b.insert(sym("a"), num(1));
    let mut copy = b.clone();
    copy.insert(sym("a"), num(2));
    copy.insert(sym("b"), num(3));
    assert_eq!(b.get(&sym("a")), Some(&num(1)));
    assert_eq!(b.get(&sym("b")), None);
    assert_eq!(copy.get(&sym("a")), Some(&num(2)));
}

#[test]
fn symbols_know_temporaries_and_the_receiver() {
    assert!(sym("_value_1").is_temporary_var());
    assert!(sym("_this").is_temporary_var());
    assert!(sym("_").is_temporary_var());
    assert!(!sym("a").is_temporary_var());
    assert!(!sym("a_").is_temporary_var());
    assert!(!sym("").is_temporary_var());
    assert!(sym("_this").is_this());
    assert!(!sym("_thi").is_this());
    assert!(!sym("_this_").is_this());
    assert!(!sym("this").is_this());
    assert!(sym("a") == sym("a"));
    assert!(sym("a") != sym("b"));
    assert!(sym("a") != sym("ab"));
}

#[test]
fn terms_are_compared_by_structure() {
    let a = Term::new(Value::Expression(Operation {
        operator: Operator::Gt,
        args: vec![Term::new(Value::Variable(sym("_this"))), num(0)],
    }));
    let b = a.clone();
    let c = Term::new(Value::Expression(Operation {
        operator: Operator::Gt,
        args: vec![Term::new(Value::Variable(sym("_this"))), num(1)],
    }));
    let d = Term::new(Value::Expression(Operation {
        operator: Operator::Gt,
        args: vec![Term::new(Value::Variable(sym("_this")))],
    }));
    let e = Term::new(Value::Expression(Operation {
        operator: Operator::Lt,
        args: vec![Term::new(Value::Variable(sym("_this"))), num(0)],
    }));
    assert!(a == b);
    assert!(a != c);
    assert!(a != d);
    assert!(d != a);
    assert!(a != e);
    assert!(num(1) != Term::new(Value::Boolean(true)));
    assert!(num(1) != num(2));
    assert!(Term::new(Value::Boolean(true)) != Term::new(Value::Boolean(false)));
    assert!(Term::new(Value::String("x".to_string())) == Term::new(Value::String("x".to_string())));
    assert!(Term::new(Value::String("x".to_string())) != Term::new(Value::Variable(sym("x"))));
    assert!(
        Term::new(Value::List(vec![num(1), num(2)])) == Term::new(Value::List(vec![num(1), num(2)]))
    );
    assert!(
        Term::new(Value::List(vec![num(1), num(2)])) != Term::new(Value::List(vec![num(2), num(1)]))
    );
    let post = Term::new(Value::Pattern(Pattern::Instance(InstanceLiteral { tag: sym("Post") })));
    let user = Term::new(Value::Pattern(Pattern::Instance(InstanceLiteral { tag: sym("User") })));
    assert!(post == post.clone());
    assert!(post != user);
    let p = Constraints::new(sym("p")).into_term();
    let q = Constraints::new(sym("q")).into_term();
    let mut grown = Constraints::new(sym("p"));
    grown.unify(num(1));
    assert!(p == p.clone());
    assert!(p != q);
    assert!(p != grown.clone().into_term());
    assert!(grown.clone() == grown);
    assert_eq!(a.value(), &a.value);
}
