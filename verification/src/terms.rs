//! Symbols, terms and operations, and their mathematical models.

use crate::partial::constraints::Constraints;
use vstd::prelude::*;
use vstd::std_specs::cmp::PartialEqSpecImpl;

verus! {

/// The name of the receiver inside the operations of a partial.
pub open spec fn this_name() -> Seq<char> {
    "_this"@
}

/// A variable name.
#[derive(Debug, Eq, Hash)]
pub struct Symbol(pub String);

/// The operators of the policy language that partial evaluation meets.
#[derive(Debug, Clone, Copy, PartialEq, Eq, Hash, Structural)]
pub enum Operator {
    Unify,
    Isa,
    Dot,
    And,
    Or,
    Not,
    Lt,
    Gt,
    Leq,
    Geq,
    Eq,
    Neq,
}

/// An instance pattern: the class that a value must belong to.
#[derive(Debug, Eq, Hash)]
pub struct InstanceLiteral {
    pub tag: Symbol,
}

/// A shape that a value can be matched against.
#[derive(Debug, Eq, Hash)]
pub enum Pattern {
    Instance(InstanceLiteral),
}

/// An operator applied to an ordered list of terms.
#[derive(Debug, Eq, Hash)]
pub struct Operation {
    pub operator: Operator,
    pub args: Vec<Term>,
}

/// What a term holds.
#[derive(Debug, Eq, Hash)]
pub enum Value {
    Number(i64),
    String(String),
    Boolean(bool),
    List(Vec<Term>),
    Variable(Symbol),
    Expression(Operation),
    Partial(Constraints),
    Pattern(Pattern),
}

/// An immutable node of the term tree.
#[derive(Debug, Eq, Hash)]
pub struct Term {
    pub value: Value,
}

/// The model of a pattern.
pub enum PatternView {
    Instance { tag: Seq<char> },
}

/// The model of an operation.
pub struct OperationView {
    pub operator: Operator,
    pub args: Seq<ValueView>,
}

/// The model of a set of constraints.
pub struct ConstraintsView {
    pub variable: Seq<char>,
    pub operations: Seq<OperationView>,
}

/// The model of a value, and of the term that wraps it.
pub enum ValueView {
    Number(int),
    String(Seq<char>),
    Boolean(bool),
    List(Seq<ValueView>),
    Variable(Seq<char>),
    Expression(OperationView),
    Partial(ConstraintsView),
    Pattern(PatternView),
}

/// The model of a term: that of the value it wraps.
pub open spec fn term_view(t: Term) -> ValueView
    decreases t,
{
    value_view(t.value)
}

/// The model of a value.
pub open spec fn value_view(v: Value) -> ValueView
    decreases v,
{
    match v {
        Value::Number(n) => ValueView::Number(n as int),
        Value::String(s) => ValueView::String(s@),
        Value::Boolean(b) => ValueView::Boolean(b),
        Value::List(l) => ValueView::List(terms_view(l@)),
        Value::Variable(s) => ValueView::Variable(s.0@),
        Value::Expression(o) => ValueView::Expression(operation_view(o)),
        Value::Partial(c) => ValueView::Partial(constraints_view(c)),
        Value::Pattern(p) => ValueView::Pattern(pattern_view(p)),
    }
}

/// The model of a pattern.
pub open spec fn pattern_view(p: Pattern) -> PatternView {
    match p {
        Pattern::Instance(i) => PatternView::Instance { tag: i.tag.0@ },
    }
}

/// The model of an operation: its operator and the models of its operands.
pub open spec fn operation_view(o: Operation) -> OperationView
    decreases o,
{
    OperationView { operator: o.operator, args: terms_view(o.args@) }
}

/// The model of a set of constraints: the variable's name and the models
/// of the operations.
pub open spec fn constraints_view(c: Constraints) -> ConstraintsView
    decreases c,
{
    ConstraintsView { variable: c.variable.0@, operations: operations_view(c.operations@) }
}

/// The models of the terms of a list, in order.
pub open spec fn terms_view(s: Seq<Term>) -> Seq<ValueView>
    decreases s,
{
    Seq::new(s.len(), |i: int| if 0 <= i < s.len() { term_view(s[i]) } else { arbitrary() })
}

/// The models of the operations of a list, in order.
pub open spec fn operations_view(s: Seq<Operation>) -> Seq<OperationView>
    decreases s,
{
    Seq::new(s.len(), |i: int| if 0 <= i < s.len() { operation_view(s[i]) } else { arbitrary() })
}

impl View for Symbol {
    type V = Seq<char>;

    open spec fn view(&self) -> Seq<char> {
        self.0@
    }
}

impl View for Pattern {
    type V = PatternView;

    open spec fn view(&self) -> PatternView {
        pattern_view(*self)
    }
}

impl View for Term {
    type V = ValueView;

    open spec fn view(&self) -> ValueView {
        term_view(*self)
    }
}

impl View for Value {
    type V = ValueView;

    open spec fn view(&self) -> ValueView {
        value_view(*self)
    }
}

impl View for Operation {
    type V = OperationView;

    open spec fn view(&self) -> OperationView {
        operation_view(*self)
    }
}

/// The view of a list of terms has the list's length and holds, at each
/// place, the view of the term that stands there.
pub proof fn lemma_terms_view(s: Seq<Term>)
    ensures
        terms_view(s).len() == s.len(),
        forall|i: int| 0 <= i < s.len() ==> #[trigger] terms_view(s)[i] == term_view(s[i]),
{
}

/// The view of a list of operations has the list's length and holds, at each
/// place, the view of the operation that stands there.
pub proof fn lemma_operations_view(s: Seq<Operation>)
    ensures
        operations_view(s).len() == s.len(),
        forall|i: int|
            0 <= i < s.len() ==> #[trigger] operations_view(s)[i] == operation_view(s[i]),
{
}

/// Appending an operation to a list appends its view to the list's view.
pub proof fn lemma_operations_view_push(s: Seq<Operation>, o: Operation)
    ensures
        operations_view(s.push(o)) == operations_view(s).push(operation_view(o)),
{
    assert(operations_view(s.push(o)) =~= operations_view(s).push(operation_view(o)));
}

/// A copy of a symbol.
fn clone_symbol(s: &Symbol) -> (r: Symbol)
    ensures
        r@ == s@,
{
    Symbol(s.0.clone())
}

/// A copy of a term.
fn clone_term(t: &Term) -> (r: Term)
    ensures
        r@ == t@,
    decreases t,
{
    Term { value: clone_value(&t.value) }
}

/// A copy of a value.
fn clone_value(v: &Value) -> (r: Value)
    ensures
        r@ == v@,
    decreases v,
{
    match v {
        Value::Number(n) => Value::Number(*n),
        Value::String(s) => Value::String(s.clone()),
        Value::Boolean(b) => Value::Boolean(*b),
        Value::List(l) => Value::List(clone_terms(l)),
        Value::Variable(s) => Value::Variable(clone_symbol(s)),
        Value::Expression(o) => Value::Expression(clone_operation(o)),
        Value::Partial(c) => Value::Partial(clone_constraints(c)),
        Value::Pattern(p) => Value::Pattern(p.clone()),
    }
}

/// A copy of an operation.
fn clone_operation(o: &Operation) -> (r: Operation)
    ensures
        r@ == o@,
    decreases o,
{
    Operation { operator: o.operator, args: clone_terms(&o.args) }
}

/// A copy of a set of constraints.
pub(crate) fn clone_constraints(c: &Constraints) -> (r: Constraints)
    ensures
        r@ == c@,
    decreases c,
{
    Constraints { operations: clone_operations(&c.operations), variable: clone_symbol(&c.variable) }
}

/// A copy of a list of terms.
fn clone_terms(v: &Vec<Term>) -> (r: Vec<Term>)
    ensures
        terms_view(r@) == terms_view(v@),
    decreases v,
{
    let mut r: Vec<Term> = Vec::new();
    let mut i: usize = 0;
    while i < v.len()
        invariant
            i <= v.len(),
            r@.len() == i,
            forall|j: int| 0 <= j < i ==> term_view(r@[j]) == term_view(v@[j]),
        decreases v.len() - i,
    {
        let t = clone_term(&v[i]);
        r.push(t);
        i += 1;
    }
    assert(terms_view(r@) =~= terms_view(v@));
    r
}

/// A copy of a list of operations.
pub(crate) fn clone_operations(v: &Vec<Operation>) -> (r: Vec<Operation>)
    ensures
        operations_view(r@) == operations_view(v@),
    decreases v,
{
    let mut r: Vec<Operation> = Vec::new();
    let mut i: usize = 0;
    while i < v.len()
        invariant
            i <= v.len(),
            r@.len() == i,
            forall|j: int| 0 <= j < i ==> operation_view(r@[j]) == operation_view(v@[j]),
        decreases v.len() - i,
    {
        let o = clone_operation(&v[i]);
        r.push(o);
        i += 1;
    }
    assert(operations_view(r@) =~= operations_view(v@));
    r
}

impl Clone for Symbol {
    fn clone(&self) -> (r: Self)
        ensures
            r@ == self@,
    {
        clone_symbol(self)
    }
}

impl Clone for InstanceLiteral {
    fn clone(&self) -> (r: Self)
        ensures
            r.tag@ == self.tag@,
    {
        InstanceLiteral { tag: clone_symbol(&self.tag) }
    }
}

impl Clone for Pattern {
    fn clone(&self) -> (r: Self)
        ensures
            r@ == self@,
    {
        match self {
            Pattern::Instance(i) => Pattern::Instance(i.clone()),
        }
    }
}

impl Clone for Term {
    fn clone(&self) -> (r: Self)
        ensures
            r@ == self@,
    {
        clone_term(self)
    }
}

impl Clone for Value {
    fn clone(&self) -> (r: Self)
        ensures
            r@ == self@,
    {
        clone_value(self)
    }
}

impl Clone for Operation {
    fn clone(&self) -> (r: Self)
        ensures
            r@ == self@,
    {
        clone_operation(self)
    }
}

/// Whether two values have the same structure.
fn value_eq(a: &Value, b: &Value) -> (r: bool)
    ensures
        r == (a@ == b@),
    decreases a,
{
    match (a, b) {
        (Value::Number(x), Value::Number(y)) => *x == *y,
        (Value::String(x), Value::String(y)) => *x == *y,
        (Value::Boolean(x), Value::Boolean(y)) => *x == *y,
        (Value::List(x), Value::List(y)) => terms_eq(x, y),
        (Value::Variable(x), Value::Variable(y)) => x.0 == y.0,
        (Value::Expression(x), Value::Expression(y)) => operation_eq(x, y),
        (Value::Partial(x), Value::Partial(y)) => constraints_eq(x, y),
        (Value::Pattern(x), Value::Pattern(y)) => pattern_eq(x, y),
        _ => false,
    }
}

/// Whether two patterns have the same structure.
fn pattern_eq(a: &Pattern, b: &Pattern) -> (r: bool)
    ensures
        r == (a@ == b@),
{
    match (a, b) {
        (Pattern::Instance(x), Pattern::Instance(y)) => x.tag.0 == y.tag.0,
    }
}

/// Whether two operations have the same structure.
fn operation_eq(a: &Operation, b: &Operation) -> (r: bool)
    ensures
        r == (a@ == b@),
    decreases a,
{
    a.operator == b.operator && terms_eq(&a.args, &b.args)
}

/// Whether two sets of constraints have the same structure.
pub(crate) fn constraints_eq(a: &Constraints, b: &Constraints) -> (r: bool)
    ensures
        r == (a@ == b@),
    decreases a,
{
    a.variable.0 == b.variable.0 && operations_eq(&a.operations, &b.operations)
}

/// Whether two lists of terms have the same structure.
fn terms_eq(a: &Vec<Term>, b: &Vec<Term>) -> (r: bool)
    ensures
        r == (terms_view(a@) == terms_view(b@)),
    decreases a,
{
    proof {
        lemma_terms_view(a@);
        lemma_terms_view(b@);
    }
    if a.len() != b.len() {
        return false;
    }
    let mut i: usize = 0;
    while i < a.len()
        invariant
            i <= a.len(),
            a.len() == b.len(),
            forall|j: int| 0 <= j < i ==> term_view(a@[j]) == term_view(b@[j]),
        decreases a.len() - i,
    {
        if !value_eq(&a[i].value, &b[i].value) {
            assert(terms_view(a@)[i as int] != terms_view(b@)[i as int]);
            return false;
        }
        i += 1;
    }
    assert(terms_view(a@) =~= terms_view(b@));
    true
}

/// Whether two lists of operations have the same structure.
fn operations_eq(a: &Vec<Operation>, b: &Vec<Operation>) -> (r: bool)
    ensures
        r == (operations_view(a@) == operations_view(b@)),
    decreases a,
{
    proof {
        lemma_operations_view(a@);
        lemma_operations_view(b@);
    }
    if a.len() != b.len() {
        return false;
    }
    let mut i: usize = 0;
    while i < a.len()
        invariant
            i <= a.len(),
            a.len() == b.len(),
            forall|j: int| 0 <= j < i ==> operation_view(a@[j]) == operation_view(b@[j]),
        decreases a.len() - i,
    {
        if !operation_eq(&a[i], &b[i]) {
            assert(operations_view(a@)[i as int] != operations_view(b@)[i as int]);
            return false;
        }
        i += 1;
    }
    assert(operations_view(a@) =~= operations_view(b@));
    true
}

impl PartialEq for Symbol {
    fn eq(&self, other: &Self) -> (r: bool) {
        self.0 == other.0
    }
}

impl PartialEqSpecImpl for Symbol {
    open spec fn obeys_eq_spec() -> bool {
        true
    }

    open spec fn eq_spec(&self, other: &Self) -> bool {
        self@ == other@
    }
}

impl PartialEq for InstanceLiteral {
    fn eq(&self, other: &Self) -> (r: bool) {
        self.tag.0 == other.tag.0
    }
}

impl PartialEqSpecImpl for InstanceLiteral {
    open spec fn obeys_eq_spec() -> bool {
        true
    }

    open spec fn eq_spec(&self, other: &Self) -> bool {
        self.tag@ == other.tag@
    }
}

impl PartialEq for Pattern {
    fn eq(&self, other: &Self) -> (r: bool) {
        pattern_eq(self, other)
    }
}

impl PartialEqSpecImpl for Pattern {
    open spec fn obeys_eq_spec() -> bool {
        true
    }

    open spec fn eq_spec(&self, other: &Self) -> bool {
        self@ == other@
    }
}

impl PartialEq for Operation {
    fn eq(&self, other: &Self) -> (r: bool) {
        operation_eq(self, other)
    }
}

impl PartialEqSpecImpl for Operation {
    open spec fn obeys_eq_spec() -> bool {
        true
    }

    open spec fn eq_spec(&self, other: &Self) -> bool {
        self@ == other@
    }
}

impl PartialEq for Value {
    fn eq(&self, other: &Self) -> (r: bool) {
        value_eq(self, other)
    }
}

impl PartialEqSpecImpl for Value {
    open spec fn obeys_eq_spec() -> bool {
        true
    }

    open spec fn eq_spec(&self, other: &Self) -> bool {
        self@ == other@
    }
}

impl PartialEq for Term {
    fn eq(&self, other: &Self) -> (r: bool) {
        value_eq(&self.value, &other.value)
    }
}

impl PartialEqSpecImpl for Term {
    open spec fn obeys_eq_spec() -> bool {
        true
    }

    open spec fn eq_spec(&self, other: &Self) -> bool {
        self@ == other@
    }
}

/// Whether a name marks a variable that the evaluator introduced itself.
pub open spec fn is_temporary_name(name: Seq<char>) -> bool {
    name.len() > 0 && name[0] == '_'
}

/// The model of the receiver variable.
pub open spec fn this_view() -> ValueView {
    ValueView::Variable(this_name())
}

impl Symbol {
    /// The symbol with this name.
    pub fn new(name: &str) -> (r: Symbol)
        ensures
            r@ == name@,
    {
        Symbol(name.to_owned())
    }

    /// Whether the evaluator introduced this variable itself: such names
    /// begin with an underscore.
    pub fn is_temporary_var(&self) -> (r: bool)
        ensures
            r == is_temporary_name(self@),
    {
        let s = self.0.as_str();
        s.unicode_len() > 0 && s.get_char(0) == '_'
    }

    /// Whether this is the receiver's name.
    pub fn is_this(&self) -> (r: bool)
        ensures
            r == (self@ == this_name()),
    {
        let this = "_this".to_owned();
        self.0 == this
    }
}

impl Term {
    /// The term that holds `value`.
    pub fn new(value: Value) -> (r: Term)
        ensures
            r@ == value@,
            r.value == value,
    {
        Term { value }
    }

    /// What the term holds.
    pub fn value(&self) -> (r: &Value)
        ensures
            *r == self.value,
    {
        &self.value
    }
}

} // verus!
