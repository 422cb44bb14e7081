//! Simplification of partials: a partial that was unified with an expression
//! is replaced by its own operations, stated about that expression.
//!
//! A pass goes over a term from the leaves up. Where it finds a partial
//! unified with an expression, it puts the conjunction of the partial's
//! operations there, with the expression in the place of the receiver
//! wherever the receiver occurs in them. Passes are repeated until one
//! changes nothing.

use crate::bindings::Bindings;
use crate::partial::constraints::lookup_op;
use crate::terms::{
    is_temporary_name, lemma_operations_view, lemma_terms_view, operation_view, operations_view,
    term_view, terms_view, this_name, this_view, ConstraintsView, Operation, OperationView,
    Operator, Symbol, Term, Value, ValueView,
};
use vstd::prelude::*;

verus! {

/// Whether a value is a field lookup.
pub open spec fn is_dot(v: ValueView) -> bool {
    v matches ValueView::Expression(o) && o.operator == Operator::Dot
}

/// Whether a value stands for the receiver: the receiver itself, or a field
/// lookup on what stands for the receiver.
pub open spec fn stands_for_this(v: ValueView) -> bool
    decreases v,
{
    match v {
        ValueView::Variable(name) => name == this_name(),
        ValueView::Expression(o) => o.operator == Operator::Dot && o.args.len() >= 1
            && stands_for_this(o.args[0]),
        _ => false,
    }
}

/// A term with the receiver replaced wherever it occurs. The receiver itself
/// becomes the replacement. A lookup that starts from the receiver keeps its
/// fields and starts from the replacement where that is a lookup too, and
/// becomes the replacement where it is not. A partial inside the term stays
/// as it is: the receiver in it is its own.
pub open spec fn sub_this(term: ValueView, replacement: ValueView) -> ValueView
    decreases term,
{
    if stands_for_this(term) && (term == this_view() || !is_dot(replacement)) {
        replacement
    } else {
        match term {
            ValueView::Expression(o) => ValueView::Expression(
                sub_this_operation(o, replacement),
            ),
            ValueView::List(l) => ValueView::List(sub_this_terms(l, replacement)),
            _ => term,
        }
    }
}

/// An operation with the receiver replaced in each operand.
pub open spec fn sub_this_operation(o: OperationView, replacement: ValueView) -> OperationView
    decreases o,
{
    OperationView { operator: o.operator, args: sub_this_terms(o.args, replacement) }
}

/// The terms of a list, each with the receiver replaced.
pub open spec fn sub_this_terms(l: Seq<ValueView>, replacement: ValueView) -> Seq<ValueView>
    decreases l,
{
    Seq::new(
        l.len(),
        |i: int|
            if 0 <= i < l.len() {
                sub_this(l[i], replacement)
            } else {
                arbitrary()
            },
    )
}

/// The partial and the expression of a unification of one with the other,
/// whichever side each is on.
pub open spec fn partial_and_expression(o: OperationView) -> Option<(ConstraintsView, ValueView)> {
    if o.operator == Operator::Unify && o.args.len() >= 2 {
        match (o.args[0], o.args[1]) {
            (ValueView::Partial(c), ValueView::Expression(_)) => Some((c, o.args[1])),
            (ValueView::Expression(_), ValueView::Partial(c)) => Some((c, o.args[0])),
            _ => None,
        }
    } else {
        None
    }
}

/// The operations of a partial as the operands of a conjunction, each with
/// the receiver replaced.
pub open spec fn unified_operands(ops: Seq<OperationView>, replacement: ValueView) -> Seq<
    ValueView,
> {
    Seq::new(ops.len(), |i: int| ValueView::Expression(sub_this_operation(ops[i], replacement)))
}

/// The rule of the simplifier: the unification of a partial with an
/// expression becomes the conjunction of the partial's operations, with the
/// expression in the receiver's place. Any other operation stays as it is.
pub open spec fn rewritten(o: OperationView) -> OperationView {
    match partial_and_expression(o) {
        Some((c, replacement)) => OperationView {
            operator: Operator::And,
            args: unified_operands(c.operations, replacement),
        },
        None => o,
    }
}

/// One pass of the simplifier over a term, from the leaves up.
pub open spec fn fold_term(t: ValueView) -> ValueView
    decreases t,
{
    match t {
        ValueView::List(l) => ValueView::List(fold_terms(l)),
        ValueView::Expression(o) => ValueView::Expression(fold_operation(o)),
        ValueView::Partial(c) => ValueView::Partial(
            ConstraintsView { variable: c.variable, operations: fold_operations(c.operations) },
        ),
        _ => t,
    }
}

/// One pass of the simplifier over each term of a list.
pub open spec fn fold_terms(l: Seq<ValueView>) -> Seq<ValueView>
    decreases l,
{
    Seq::new(l.len(), |i: int| if 0 <= i < l.len() { fold_term(l[i]) } else { arbitrary() })
}

/// One pass of the simplifier over each operation of a list.
pub open spec fn fold_operations(l: Seq<OperationView>) -> Seq<OperationView>
    decreases l,
{
    Seq::new(l.len(), |i: int| if 0 <= i < l.len() { fold_operation(l[i]) } else { arbitrary() })
}

/// An operation with one pass made over each operand, and nothing changed at
/// its own level.
pub open spec fn fold_operands(o: OperationView) -> OperationView
    decreases o, 0int,
{
    OperationView { operator: o.operator, args: fold_terms(o.args) }
}

/// One pass of the simplifier over an operation: first over its operands,
/// then the rule on the operation itself.
pub open spec fn fold_operation(o: OperationView) -> OperationView
    decreases o, 1int,
{
    rewritten(fold_operands(o))
}

/// Whether a term is a field lookup.
fn term_is_dot(t: &Term) -> (r: bool)
    ensures
        r == is_dot(t@),
{
    match &t.value {
        Value::Expression(o) => o.operator == Operator::Dot,
        _ => false,
    }
}

/// Whether a value stands for the receiver: the receiver itself, or a field
/// lookup on what stands for the receiver.
pub fn is_this_arg(value: &Value) -> (r: bool)
    ensures
        r == stands_for_this(value@),
    decreases value,
{
    match value {
        Value::Variable(name) => name.is_this(),
        Value::Expression(o) => {
            proof {
                lemma_terms_view(o.args@);
            }
            o.operator == Operator::Dot && o.args.len() >= 1 && is_this_arg(&o.args[0].value)
        },
        _ => false,
    }
}

/// A term with the receiver replaced by `replacement` wherever it occurs
/// outside a partial.
pub fn replace_this(term: &Term, replacement: &Term) -> (r: Term)
    ensures
        r@ == sub_this(term@, replacement@),
    decreases term,
{
    if is_this_arg(&term.value) {
        let bare = match &term.value {
            Value::Variable(_) => true,
            _ => false,
        };
        if bare || !term_is_dot(replacement) {
            return replacement.clone();
        }
    }
    match &term.value {
        Value::Expression(o) => Term::new(Value::Expression(replace_this_in_operation(o, replacement))),
        Value::List(l) => Term::new(Value::List(replace_this_in_terms(l, replacement))),
        _ => term.clone(),
    }
}

/// An operation with the receiver replaced in each operand.
fn replace_this_in_operation(o: &Operation, replacement: &Term) -> (r: Operation)
    ensures
        r@ == sub_this_operation(o@, replacement@),
    decreases o,
{
    Operation { operator: o.operator, args: replace_this_in_terms(&o.args, replacement) }
}

/// The terms of a list, each with the receiver replaced.
fn replace_this_in_terms(l: &Vec<Term>, replacement: &Term) -> (r: Vec<Term>)
    ensures
        terms_view(r@) == sub_this_terms(terms_view(l@), replacement@),
    decreases l,
{
    proof {
        lemma_terms_view(l@);
    }
    let mut out: Vec<Term> = Vec::new();
    let mut i: usize = 0;
    while i < l.len()
        invariant
            i <= l.len(),
            out@.len() == i,
            forall|j: int|
                0 <= j < i ==> term_view(out@[j]) == sub_this(term_view(l@[j]), replacement@),
        decreases l.len() - i,
    {
        out.push(replace_this(&l[i], replacement));
        i += 1;
    }
    assert(terms_view(out@) =~= sub_this_terms(terms_view(l@), replacement@));
    out
}

/// The operations of a partial as the operands of a conjunction, each with
/// the receiver replaced by `replacement`.
pub fn map_ops(ops: &Vec<Operation>, replacement: &Term) -> (r: Vec<Term>)
    ensures
        terms_view(r@) == unified_operands(operations_view(ops@), replacement@),
{
    proof {
        lemma_operations_view(ops@);
    }
    let mut out: Vec<Term> = Vec::new();
    let mut i: usize = 0;
    while i < ops.len()
        invariant
            i <= ops.len(),
            out@.len() == i,
            forall|j: int|
                0 <= j < i ==> term_view(out@[j]) == ValueView::Expression(
                    sub_this_operation(operation_view(ops@[j]), replacement@),
                ),
        decreases ops.len() - i,
    {
        out.push(Term::new(Value::Expression(replace_this_in_operation(&ops[i], replacement))));
        i += 1;
    }
    assert(terms_view(out@) =~= unified_operands(operations_view(ops@), replacement@));
    out
}

/// One pass over a term.
fn pass_over_term(t: &Term) -> (r: Term)
    ensures
        r@ == fold_term(t@),
    decreases t,
{
    match &t.value {
        Value::List(l) => Term::new(Value::List(pass_over_terms(l))),
        Value::Expression(o) => Term::new(Value::Expression(pass_over_operation(o))),
        Value::Partial(c) => Term::new(
            Value::Partial(c.clone_with_operations(pass_over_operations(&c.operations))),
        ),
        _ => t.clone(),
    }
}

/// One pass over each term of a list.
fn pass_over_terms(l: &Vec<Term>) -> (r: Vec<Term>)
    ensures
        terms_view(r@) == fold_terms(terms_view(l@)),
    decreases l,
{
    proof {
        lemma_terms_view(l@);
    }
    let mut out: Vec<Term> = Vec::new();
    let mut i: usize = 0;
    while i < l.len()
        invariant
            i <= l.len(),
            out@.len() == i,
            forall|j: int| 0 <= j < i ==> term_view(out@[j]) == fold_term(term_view(l@[j])),
        decreases l.len() - i,
    {
        out.push(pass_over_term(&l[i]));
        i += 1;
    }
    assert(terms_view(out@) =~= fold_terms(terms_view(l@)));
    out
}

/// One pass over each operation of a list.
fn pass_over_operations(l: &Vec<Operation>) -> (r: Vec<Operation>)
    ensures
        operations_view(r@) == fold_operations(operations_view(l@)),
    decreases l,
{
    proof {
        lemma_operations_view(l@);
    }
    let mut out: Vec<Operation> = Vec::new();
    let mut i: usize = 0;
    while i < l.len()
        invariant
            i <= l.len(),
            out@.len() == i,
            forall|j: int|
                0 <= j < i ==> operation_view(out@[j]) == fold_operation(operation_view(l@[j])),
        decreases l.len() - i,
    {
        out.push(pass_over_operation(&l[i]));
        i += 1;
    }
    assert(operations_view(out@) =~= fold_operations(operations_view(l@)));
    out
}

/// One pass over an operation: over its operands first, and then, where
/// they are a partial and an expression that are unified, the conjunction of
/// the partial's operations on that expression.
fn pass_over_operation(o: &Operation) -> (r: Operation)
    ensures
        r@ == fold_operation(o@),
    decreases o,
{
    let args = pass_over_terms(&o.args);
    proof {
        lemma_terms_view(args@);
    }
    let unified: Option<Vec<Term>> = if o.operator == Operator::Unify && args.len() >= 2 {
        let left = &args[0];
        let right = &args[1];
        match (&left.value, &right.value) {
            (Value::Partial(c), Value::Expression(_)) => Some(map_ops(&c.operations, right)),
            (Value::Expression(_), Value::Partial(c)) => Some(map_ops(&c.operations, left)),
            _ => None,
        }
    } else {
        None
    };
    match unified {
        Some(operands) => Operation { operator: Operator::And, args: operands },
        None => Operation { operator: o.operator, args },
    }
}

/// The rewriting pass that replaces a partial unified with an expression by
/// the partial's operations on that expression.
pub struct Simplifier;

impl Simplifier {
    /// One pass over a term.
    pub fn fold_term(&mut self, t: Term) -> (r: Term)
        ensures
            r@ == fold_term(t@),
    {
        pass_over_term(&t)
    }

    /// One pass over an operation.
    pub fn fold_operation(&mut self, o: Operation) -> (r: Operation)
        ensures
            r@ == fold_operation(o@),
    {
        pass_over_operation(&o)
    }
}

/// Why a term could not be simplified.
#[derive(Debug, Clone, Copy, PartialEq, Eq, Structural)]
pub enum SimplifyError {
    /// The term still changed after the largest number of passes.
    NoFixedPoint,
}

/// The largest number of passes that may change a term.
pub const MAX_PASSES: u64 = 256;

/// What simplification gives: the first term in the sequence of passes that
/// a further pass leaves as it is, if it comes after at most `passes` passes.
pub open spec fn simplify_outcome(t: ValueView, passes: nat) -> Result<ValueView, SimplifyError>
    decreases passes,
{
    if fold_term(t) == t {
        Ok(t)
    } else if passes == 0 {
        Err(SimplifyError::NoFixedPoint)
    } else {
        simplify_outcome(fold_term(t), (passes - 1) as nat)
    }
}

/// What simplification gives with the largest number of passes.
pub open spec fn simplified_term(t: ValueView) -> Result<ValueView, SimplifyError> {
    simplify_outcome(t, MAX_PASSES as nat)
}

/// Rewrites a term until a pass no longer changes it.
pub fn simplify_partial(term: Term) -> (r: Result<Term, SimplifyError>)
    ensures
        match simplified_term(term@) {
            Ok(v) => r matches Ok(x) && x@ == v,
            Err(e) => r == Err::<Term, SimplifyError>(e),
        },
{
    let mut current = term;
    let mut left: u64 = MAX_PASSES;
    loop
        invariant
            simplify_outcome(current@, left as nat) == simplified_term(term@),
        decreases left,
    {
        let new = pass_over_term(&current);
        if new == current {
            return Ok(new);
        }
        if left == 0 {
            return Err(SimplifyError::NoFixedPoint);
        }
        left -= 1;
        current = new;
    }
}

/// Whether a name is a root of a set of bindings: a variable of the policy,
/// bound to a partial.
pub open spec fn is_root(b: Map<Seq<char>, ValueView>, name: Seq<char>) -> bool {
    b.contains_key(name) && !is_temporary_name(name) && b[name] is Partial
}

/// A partial as the expression that its constraints stand for; any other
/// value as it is.
pub open spec fn as_expression(v: ValueView) -> ValueView {
    match v {
        ValueView::Partial(c) => c.expression(),
        _ => v,
    }
}

/// The bindings with each partial as an expression.
pub open spec fn expressions_of(b: Map<Seq<char>, ValueView>) -> Map<Seq<char>, ValueView> {
    Map::new(|name: Seq<char>| b.contains_key(name), |name: Seq<char>| as_expression(b[name]))
}

/// The bindings of the variables of the policy.
pub open spec fn without_temporaries(b: Map<Seq<char>, ValueView>) -> Map<Seq<char>, ValueView> {
    Map::new(
        |name: Seq<char>| b.contains_key(name) && !is_temporary_name(name),
        |name: Seq<char>| b[name],
    )
}

/// Whether some root of the bindings cannot be simplified.
pub open spec fn some_root_fails(b: Map<Seq<char>, ValueView>) -> bool {
    exists|name: Seq<char>| is_root(b, name) && #[trigger] simplified_term(b[name]) is Err
}

/// The bindings with each root simplified.
pub open spec fn with_roots_simplified(b: Map<Seq<char>, ValueView>) -> Map<
    Seq<char>,
    ValueView,
> {
    Map::new(
        |name: Seq<char>| b.contains_key(name),
        |name: Seq<char>|
            if is_root(b, name) {
                simplified_term(b[name])->Ok_0
            } else {
                b[name]
            },
    )
}

/// The simplified bindings: each root simplified, each partial as an
/// expression, and no temporary variable.
pub open spec fn simplified(b: Map<Seq<char>, ValueView>) -> Map<Seq<char>, ValueView> {
    without_temporaries(expressions_of(with_roots_simplified(b)))
}

/// What simplifying a set of bindings gives: the simplified bindings, or an
/// error if some root reaches no fixed point.
pub open spec fn simplified_bindings(b: Map<Seq<char>, ValueView>) -> Result<
    Map<Seq<char>, ValueView>,
    SimplifyError,
> {
    if some_root_fails(b) {
        Err(SimplifyError::NoFixedPoint)
    } else {
        Ok(simplified(b))
    }
}

/// Whether one of the first `k` names is `name`.
spec fn among(names: Seq<Symbol>, k: int, name: Seq<char>) -> bool {
    exists|i: int| 0 <= i < k && (#[trigger] names[i])@ == name
}

/// No name occurs twice.
spec fn distinct(names: Seq<Symbol>) -> bool {
    forall|i: int, j: int| 0 <= i < j < names.len() ==> #[trigger] names[i]@ != #[trigger] names[j]@
}

/// A name is among the first `k + 1` exactly if it is among the first `k` or
/// is the one after them.
proof fn lemma_among_next(names: Seq<Symbol>, k: int, name: Seq<char>)
    requires
        0 <= k < names.len(),
    ensures
        among(names, k + 1, name) <==> among(names, k, name) || names[k]@ == name,
{
    if among(names, k, name) {
        let i = choose|i: int| 0 <= i < k && (#[trigger] names[i])@ == name;
        assert(names[i]@ == name);
    }
    if among(names, k + 1, name) {
        let i = choose|i: int| 0 <= i < k + 1 && (#[trigger] names[i])@ == name;
        if i < k {
            assert(among(names, k, name));
        }
    }
}

/// A name is among all the names exactly if it stands at some place.
proof fn lemma_among_all(names: Seq<Symbol>, name: Seq<char>)
    ensures
        among(names, names.len() as int, name) <==> exists|i: int|
            0 <= i < names.len() && #[trigger] names[i]@ == name,
{
    if among(names, names.len() as int, name) {
        let i = choose|i: int| 0 <= i < names.len() && (#[trigger] names[i])@ == name;
        assert(names[i]@ == name);
    }
    if exists|i: int| 0 <= i < names.len() && #[trigger] names[i]@ == name {
        let i = choose|i: int| 0 <= i < names.len() && #[trigger] names[i]@ == name;
        assert(names[i]@ == name);
    }
}

/// Among names that are distinct, none is among those before it.
proof fn lemma_not_among_earlier(names: Seq<Symbol>, k: int)
    requires
        distinct(names),
        0 <= k < names.len(),
    ensures
        !among(names, k, names[k]@),
{
    if among(names, k, names[k]@) {
        let i = choose|i: int| 0 <= i < k && (#[trigger] names[i])@ == names[k]@;
        assert(names[i]@ != names[k]@);
    }
}

/// A name is among a list with one more name at its end exactly if it is
/// among the list or is that name.
proof fn lemma_among_push(names: Seq<Symbol>, last: Symbol, name: Seq<char>)
    ensures
        among(names.push(last), names.len() as int + 1, name) <==> among(
            names,
            names.len() as int,
            name,
        ) || last@ == name,
{
    let longer = names.push(last);
    lemma_among_next(longer, names.len() as int, name);
    if among(names, names.len() as int, name) {
        let i = choose|i: int| 0 <= i < names.len() && (#[trigger] names[i])@ == name;
        assert(longer[i]@ == name);
    }
    if among(longer, names.len() as int, name) {
        let i = choose|i: int| 0 <= i < names.len() && (#[trigger] longer[i])@ == name;
        assert(names[i]@ == name);
    }
}

/// Whether a term is a partial.
fn is_partial(term: &Term) -> (r: bool)
    ensures
        r == (term@ is Partial),
{
    match &term.value {
        Value::Partial(_) => true,
        _ => false,
    }
}

/// The roots of a set of bindings, each once.
pub fn get_roots(bindings: &Bindings) -> (roots: Vec<Symbol>)
    ensures
        forall|i: int| 0 <= i < roots@.len() ==> is_root(bindings@, #[trigger] roots@[i]@),
        forall|name: Seq<char>|
            is_root(bindings@, name) ==> exists|i: int|
                0 <= i < roots@.len() && #[trigger] roots@[i]@ == name,
        forall|i: int, j: int|
            0 <= i < j < roots@.len() ==> #[trigger] roots@[i]@ != #[trigger] roots@[j]@,
{
    let names = bindings.names();
    let mut roots: Vec<Symbol> = Vec::new();
    let mut k: usize = 0;
    while k < names.len()
        invariant
            k <= names@.len(),
            distinct(names@),
            distinct(roots@),
            forall|name: Seq<char>|
                #![trigger among(roots@, roots@.len() as int, name)]
                #![trigger among(names@, k as int, name)]
                among(roots@, roots@.len() as int, name) <==> among(names@, k as int, name)
                    && is_root(bindings@, name),
        decreases names.len() - k,
    {
        let name = &names[k];
        let found = !name.is_temporary_var() && match bindings.get(name) {
            Some(term) => is_partial(term),
            None => false,
        };
        assert(found == is_root(bindings@, name@));
        let ghost before = roots@;
        if found {
            roots.push(name.clone());
        }
        proof {
            lemma_not_among_earlier(names@, k as int);
            if found {
                let last = roots@[before.len() as int];
                assert(roots@ =~= before.push(last));
                assert(last@ == name@);
                assert forall|n: Seq<char>|
                    #![trigger among(roots@, roots@.len() as int, n)]
                    #![trigger among(names@, k + 1, n)]
                    among(roots@, roots@.len() as int, n) <==> among(names@, k + 1, n) && is_root(
                        bindings@,
                        n,
                    ) by {
                    lemma_among_next(names@, k as int, n);
                    lemma_among_push(before, last, n);
                }
                assert forall|i: int, j: int| 0 <= i < j < roots@.len() implies #[trigger] roots@[i]@
                    != #[trigger] roots@[j]@ by {
                    if j == before.len() {
                        assert(before[i]@ == roots@[i]@);
                        assert(among(before, before.len() as int, before[i]@));
                        assert(among(names@, k as int, before[i]@));
                    } else {
                        assert(before[i]@ != before[j]@);
                    }
                }
            } else {
                assert forall|n: Seq<char>|
                    #![trigger among(roots@, roots@.len() as int, n)]
                    #![trigger among(names@, k + 1, n)]
                    among(roots@, roots@.len() as int, n) <==> among(names@, k + 1, n) && is_root(
                        bindings@,
                        n,
                    ) by {
                    lemma_among_next(names@, k as int, n);
                }
            }
        }
        k += 1;
    }
    proof {
        assert forall|i: int| 0 <= i < roots@.len() implies is_root(
            bindings@,
            #[trigger] roots@[i]@,
        ) by {
            lemma_among_all(roots@, roots@[i]@);
        }
        assert forall|name: Seq<char>| is_root(bindings@, name) implies exists|i: int|
            0 <= i < roots@.len() && #[trigger] roots@[i]@ == name by {
            lemma_among_all(names@, name);
            lemma_among_all(roots@, name);
        }
    }
    roots
}

/// The bindings with the first `k` names' partials as expressions.
spec fn expressions_among(b: Map<Seq<char>, ValueView>, names: Seq<Symbol>, k: int) -> Map<
    Seq<char>,
    ValueView,
> {
    Map::new(
        |name: Seq<char>| b.contains_key(name),
        |name: Seq<char>|
            if among(names, k, name) {
                as_expression(b[name])
            } else {
                b[name]
            },
    )
}

/// Replaces each partial by the expression that its constraints stand for.
pub fn to_expressions(bindings: &mut Bindings)
    ensures
        final(bindings)@ == expressions_of(old(bindings)@),
{
    let names = bindings.names();
    let mut k: usize = 0;
    assert(bindings@ =~= expressions_among(old(bindings)@, names@, 0));
    while k < names.len()
        invariant
            k <= names@.len(),
            distinct(names@),
            forall|name: Seq<char>|
                old(bindings)@.contains_key(name) <==> exists|i: int|
                    0 <= i < names@.len() && #[trigger] names@[i]@ == name,
            bindings@ == expressions_among(old(bindings)@, names@, k as int),
        decreases names.len() - k,
    {
        let name = &names[k];
        proof {
            lemma_not_among_earlier(names@, k as int);
        }
        let expression = match bindings.get(name) {
            Some(term) => match &term.value {
                Value::Partial(partial) => Some(partial.clone().into_expression()),
                _ => None,
            },
            None => None,
        };
        if let Some(expression) = expression {
            bindings.insert(name.clone(), expression);
        }
        proof {
            assert forall|n: Seq<char>| among(names@, k + 1, n) <==> among(names@, k as int, n)
                || names@[k as int]@ == n by {
                lemma_among_next(names@, k as int, n);
            }
            assert(bindings@ =~= expressions_among(old(bindings)@, names@, k + 1));
        }
        k += 1;
    }
    proof {
        assert forall|n: Seq<char>| old(bindings)@.contains_key(n) implies among(
            names@,
            names@.len() as int,
            n,
        ) by {
            lemma_among_all(names@, n);
        }
        assert(bindings@ =~= expressions_of(old(bindings)@));
    }
}

/// The bindings without those of the temporary variables among the first
/// `k` names.
spec fn without_temporaries_among(
    b: Map<Seq<char>, ValueView>,
    names: Seq<Symbol>,
    k: int,
) -> Map<Seq<char>, ValueView> {
    Map::new(
        |name: Seq<char>|
            b.contains_key(name) && !(is_temporary_name(name) && among(names, k, name)),
        |name: Seq<char>| b[name],
    )
}

/// Removes the bindings of temporary variables.
pub fn remove_temporaries(bindings: &mut Bindings)
    ensures
        final(bindings)@ == without_temporaries(old(bindings)@),
{
    let names = bindings.names();
    let mut k: usize = 0;
    assert(bindings@ =~= without_temporaries_among(old(bindings)@, names@, 0));
    while k < names.len()
        invariant
            k <= names@.len(),
            forall|name: Seq<char>|
                old(bindings)@.contains_key(name) ==> exists|i: int|
                    0 <= i < names@.len() && #[trigger] names@[i]@ == name,
            bindings@ == without_temporaries_among(old(bindings)@, names@, k as int),
        decreases names.len() - k,
    {
        let name = &names[k];
        if name.is_temporary_var() {
            bindings.remove(name);
        }
        proof {
            assert forall|n: Seq<char>| among(names@, k + 1, n) <==> among(names@, k as int, n)
                || names@[k as int]@ == n by {
                lemma_among_next(names@, k as int, n);
            }
            assert(bindings@ =~= without_temporaries_among(old(bindings)@, names@, k + 1));
        }
        k += 1;
    }
    proof {
        assert forall|n: Seq<char>| old(bindings)@.contains_key(n) implies among(
            names@,
            names@.len() as int,
            n,
        ) by {
            lemma_among_all(names@, n);
        }
        assert(bindings@ =~= without_temporaries(old(bindings)@));
    }
}

/// The bindings with the roots among the first `k` names simplified.
spec fn roots_simplified_among(b: Map<Seq<char>, ValueView>, roots: Seq<Symbol>, k: int) -> Map<
    Seq<char>,
    ValueView,
> {
    Map::new(
        |name: Seq<char>| b.contains_key(name),
        |name: Seq<char>|
            if among(roots, k, name) {
                simplified_term(b[name])->Ok_0
            } else {
                b[name]
            },
    )
}

/// Simplifies a finished set of bindings: rewrites each root until it no
/// longer changes, turns each partial into the expression that it stands
/// for, and drops the temporary variables. Fails if a root reaches no fixed
/// point.
pub fn simplify_bindings(bindings: Bindings) -> (r: Result<Bindings, SimplifyError>)
    ensures
        match simplified_bindings(bindings@) {
            Ok(after) => r matches Ok(x) && x@ == after,
            Err(e) => r matches Err(x) && x == e,
        },
{
    let mut current = bindings;
    let roots = get_roots(&current);
    let mut k: usize = 0;
    assert(current@ =~= roots_simplified_among(bindings@, roots@, 0));
    while k < roots.len()
        invariant
            k <= roots@.len(),
            distinct(roots@),
            forall|i: int| 0 <= i < roots@.len() ==> is_root(bindings@, #[trigger] roots@[i]@),
            forall|name: Seq<char>|
                is_root(bindings@, name) ==> exists|i: int|
                    0 <= i < roots@.len() && #[trigger] roots@[i]@ == name,
            forall|name: Seq<char>| #[trigger]
                among(roots@, k as int, name) ==> simplified_term(bindings@[name]) is Ok,
            current@ == roots_simplified_among(bindings@, roots@, k as int),
        decreases roots.len() - k,
    {
        let root = &roots[k];
        proof {
            lemma_not_among_earlier(roots@, k as int);
            assert(is_root(bindings@, root@));
        }
        let term = match current.get(root) {
            Some(term) => term.clone(),
            None => vstd::pervasive::unreached(),
        };
        match simplify_partial(term) {
            Ok(new) => {
                current.insert(root.clone(), new);
            },
            Err(e) => {
                return Err(e);
            },
        }
        proof {
            assert forall|n: Seq<char>| among(roots@, k + 1, n) <==> among(roots@, k as int, n)
                || roots@[k as int]@ == n by {
                lemma_among_next(roots@, k as int, n);
            }
            assert forall|n: Seq<char>| #[trigger] among(roots@, k + 1, n) implies simplified_term(
                bindings@[n],
            ) is Ok by {
                lemma_among_next(roots@, k as int, n);
            }
            assert(current@ =~= roots_simplified_among(bindings@, roots@, k + 1));
        }
        k += 1;
    }
    proof {
        assert forall|n: Seq<char>| is_root(bindings@, n) <==> among(
            roots@,
            roots@.len() as int,
            n,
        ) by {
            lemma_among_all(roots@, n);
        }
        assert(!some_root_fails(bindings@));
        assert(current@ =~= with_roots_simplified(bindings@));
    }
    to_expressions(&mut current);
    remove_temporaries(&mut current);
    Ok(current)
}

/// What simplification gives is a fixed point: a further pass changes
/// nothing, so simplifying it again gives the same term.
pub proof fn lemma_outcome_is_fixed(t: ValueView, passes: nat, again: nat)
    requires
        simplify_outcome(t, passes) is Ok,
    ensures
        fold_term(simplify_outcome(t, passes)->Ok_0) == simplify_outcome(t, passes)->Ok_0,
        simplify_outcome(simplify_outcome(t, passes)->Ok_0, again) == simplify_outcome(t, passes),
    decreases passes,
{
    if fold_term(t) != t && passes > 0 {
        lemma_outcome_is_fixed(fold_term(t), (passes - 1) as nat, again);
    }
}

/// Simplification keeps a partial a partial, for the same variable.
pub proof fn lemma_outcome_of_partial(t: ValueView, passes: nat)
    requires
        t is Partial,
        simplify_outcome(t, passes) is Ok,
    ensures
        simplify_outcome(t, passes)->Ok_0 is Partial,
        simplify_outcome(t, passes)->Ok_0->Partial_0.variable == t->Partial_0.variable,
    decreases passes,
{
    if fold_term(t) != t && passes > 0 {
        lemma_outcome_of_partial(fold_term(t), (passes - 1) as nat);
    }
}

/// Simplified bindings hold no partial and no temporary variable, so they
/// have no roots.
pub proof fn lemma_simplified_has_no_roots(b: Map<Seq<char>, ValueView>)
    ensures
        forall|name: Seq<char>| #[trigger]
            simplified(b).contains_key(name) ==> !is_temporary_name(name) && !(
            simplified(b)[name] is Partial),
        forall|name: Seq<char>| !is_root(simplified(b), name),
{
}

/// Simplifying is idempotent: simplified bindings can be simplified again,
/// and that changes nothing.
pub proof fn lemma_simplify_idempotent(b: Map<Seq<char>, ValueView>)
    ensures
        simplified_bindings(simplified(b)) == Ok::<Map<Seq<char>, ValueView>, SimplifyError>(
            simplified(b),
        ),
{
    lemma_simplified_has_no_roots(b);
    assert(simplified(simplified(b)) =~= simplified(b));
}

/// A value that holds no other term.
pub open spec fn is_scalar(v: ValueView) -> bool {
    v is Number || v is String || v is Boolean
}

/// The lookup of `field` on `base`.
pub open spec fn lookup_of(base: ValueView, field: Seq<char>) -> ValueView {
    ValueView::Expression(
        OperationView { operator: Operator::Dot, args: seq![base, ValueView::String(field)] },
    )
}

/// The lookups of `fields`, one on the other in their order, starting from
/// `base`.
pub open spec fn path_from(base: ValueView, fields: Seq<Seq<char>>) -> ValueView
    decreases fields.len(),
{
    if fields.len() == 0 {
        base
    } else {
        path_from(lookup_of(base, fields[0]), fields.drop_first())
    }
}

/// An operation inside `depth` conjunctions of one operand each.
pub open spec fn wrapped(depth: nat, o: OperationView) -> OperationView
    decreases depth,
{
    if depth == 0 {
        o
    } else {
        OperationView {
            operator: Operator::And,
            args: seq![ValueView::Expression(wrapped((depth - 1) as nat, o))],
        }
    }
}

/// The partials of a chain of lookups, as the evaluator leaves them: the
/// first name has looked the first field up, the placeholder of that lookup
/// the second field, and so on; the last placeholder holds `constraint`.
pub open spec fn chain(
    names: Seq<Seq<char>>,
    fields: Seq<Seq<char>>,
    constraint: OperationView,
) -> ConstraintsView
    decreases fields.len(),
{
    if fields.len() == 0 {
        ConstraintsView { variable: names[0], operations: seq![constraint] }
    } else {
        ConstraintsView {
            variable: names[0],
            operations: seq![
                lookup_op(
                    ValueView::String(fields[0]),
                    ValueView::Partial(chain(names.drop_first(), fields.drop_first(), constraint)),
                ),
            ],
        }
    }
}

/// An operation of `on` with a scalar.
pub open spec fn constraint_on(on: ValueView, operator: Operator, scalar: ValueView) -> OperationView {
    OperationView { operator, args: seq![on, scalar] }
}

/// Replacing the receiver by a lookup moves a path of lookups to what its
/// base becomes.
proof fn lemma_sub_this_path(base: ValueView, fields: Seq<Seq<char>>, replacement: ValueView)
    requires
        is_dot(replacement),
    ensures
        sub_this(path_from(base, fields), replacement) == path_from(
            sub_this(base, replacement),
            fields,
        ),
    decreases fields.len(),
{
    if fields.len() > 0 {
        let first = lookup_of(base, fields[0]);
        lemma_sub_this_path(first, fields.drop_first(), replacement);
        let o = first->Expression_0;
        assert(sub_this_terms(o.args, replacement) =~= seq![
            sub_this(base, replacement),
            ValueView::String(fields[0]),
        ]);
        assert(sub_this(first, replacement) == lookup_of(sub_this(base, replacement), fields[0]));
    }
}

/// Replacing the receiver by a lookup goes through conjunctions to the
/// operation inside.
proof fn lemma_sub_this_wrapped(depth: nat, o: OperationView, replacement: ValueView)
    requires
        is_dot(replacement),
    ensures
        sub_this_operation(wrapped(depth, o), replacement) == wrapped(
            depth,
            sub_this_operation(o, replacement),
        ),
    decreases depth,
{
    if depth > 0 {
        let inner = wrapped((depth - 1) as nat, o);
        lemma_sub_this_wrapped((depth - 1) as nat, o, replacement);
        assert(sub_this(ValueView::Expression(inner), replacement) == ValueView::Expression(
            sub_this_operation(inner, replacement),
        ));
        assert(sub_this_terms(wrapped(depth, o).args, replacement) =~= seq![
            ValueView::Expression(sub_this_operation(inner, replacement)),
        ]);
    }
}

/// A pass leaves a path of lookups as it is, if it leaves the base.
proof fn lemma_fold_path(base: ValueView, fields: Seq<Seq<char>>)
    requires
        fold_term(base) == base,
    ensures
        fold_term(path_from(base, fields)) == path_from(base, fields),
    decreases fields.len(),
{
    if fields.len() > 0 {
        let first = lookup_of(base, fields[0]);
        let o = first->Expression_0;
        assert(fold_terms(o.args) =~= o.args);
        assert(partial_and_expression(fold_operands(o)) is None);
        assert(fold_operation(o) == o);
        assert(fold_term(first) == first);
        lemma_fold_path(first, fields.drop_first());
    }
}

/// A pass leaves conjunctions of one operand as they are, if it leaves the
/// operation inside.
proof fn lemma_fold_wrapped(depth: nat, o: OperationView)
    requires
        fold_operation(o) == o,
    ensures
        fold_operation(wrapped(depth, o)) == wrapped(depth, o),
    decreases depth,
{
    if depth > 0 {
        let inner = wrapped((depth - 1) as nat, o);
        lemma_fold_wrapped((depth - 1) as nat, o);
        let outer = wrapped(depth, o);
        assert(fold_term(ValueView::Expression(inner)) == ValueView::Expression(inner));
        assert(fold_terms(outer.args) =~= outer.args);
        assert(partial_and_expression(fold_operands(outer)) is None);
    }
}

/// A pass leaves an operation of a path with a scalar as it is.
proof fn lemma_fold_constraint(fields: Seq<Seq<char>>, operator: Operator, scalar: ValueView)
    requires
        is_scalar(scalar),
    ensures
        fold_operation(constraint_on(path_from(this_view(), fields), operator, scalar))
            == constraint_on(path_from(this_view(), fields), operator, scalar),
{
    let on = path_from(this_view(), fields);
    let o = constraint_on(on, operator, scalar);
    lemma_fold_path(this_view(), fields);
    assert(fold_terms(o.args) =~= o.args);
    assert(partial_and_expression(fold_operands(o)) is None);
}

/// One pass resolves a whole chain of lookups: it leaves the constraint on
/// the path of all the fields, inside one conjunction for each lookup.
proof fn lemma_fold_chain(
    names: Seq<Seq<char>>,
    fields: Seq<Seq<char>>,
    operator: Operator,
    scalar: ValueView,
)
    requires
        is_scalar(scalar),
    ensures
        fold_term(
            ValueView::Partial(chain(names, fields, constraint_on(this_view(), operator, scalar))),
        ) == ValueView::Partial(
            ConstraintsView {
                variable: names[0],
                operations: seq![
                    wrapped(
                        fields.len(),
                        constraint_on(path_from(this_view(), fields), operator, scalar),
                    ),
                ],
            },
        ),
    decreases fields.len(),
{
    let held = constraint_on(this_view(), operator, scalar);
    let here = chain(names, fields, held);
    if fields.len() == 0 {
        lemma_fold_constraint(fields, operator, scalar);
        assert(fold_operations(here.operations) =~= here.operations);
    } else {
        let rest = fields.drop_first();
        let inner = chain(names.drop_first(), rest, held);
        let lookup = lookup_of(this_view(), fields[0]);
        let unified = lookup_op(ValueView::String(fields[0]), ValueView::Partial(inner));
        let inside = constraint_on(path_from(this_view(), rest), operator, scalar);
        let resolved = wrapped(rest.len(), inside);
        let after = ConstraintsView { variable: names.drop_first()[0], operations: seq![resolved] };
        lemma_fold_chain(names.drop_first(), rest, operator, scalar);
        assert(fold_term(ValueView::Partial(inner)) == ValueView::Partial(after));
        lemma_fold_path(this_view(), seq![fields[0]]);
        assert(path_from(this_view(), seq![fields[0]]) == lookup) by {
            assert(seq![fields[0]].drop_first().len() == 0);
            assert(path_from(lookup_of(this_view(), seq![fields[0]][0]), seq![fields[0]].drop_first())
                == lookup);
        }
        assert(fold_term(lookup) == lookup);
        assert(unified.args =~= seq![ValueView::Partial(inner), lookup]);
        assert(fold_terms(unified.args) =~= seq![ValueView::Partial(after), lookup]);
        let folded = fold_operands(unified);
        assert(partial_and_expression(folded) == Some((after, lookup)));
        // The lookup takes the receiver's place in the constraint.
        lemma_sub_this_wrapped(rest.len(), inside, lookup);
        lemma_sub_this_path(this_view(), rest, lookup);
        assert(sub_this(this_view(), lookup) == lookup);
        assert(sub_this(scalar, lookup) == scalar);
        assert(sub_this_terms(inside.args, lookup) =~= seq![path_from(lookup, rest), scalar]);
        assert(path_from(this_view(), fields) == path_from(lookup, rest));
        let outside = constraint_on(path_from(this_view(), fields), operator, scalar);
        assert(sub_this_operation(inside, lookup) == outside);
        assert(unified_operands(after.operations, lookup) =~= seq![
            ValueView::Expression(wrapped(rest.len(), outside)),
        ]);
        assert(fold_operation(unified) == wrapped(fields.len(), outside));
        assert(here.operations =~= seq![unified]);
        assert(fold_operations(here.operations) =~= seq![wrapped(fields.len(), outside)]);
    }
}

/// A chain of lookups comes out flat, however long it is: where a partial
/// has looked a field up, the placeholder's partial has looked the next field
/// up on its receiver, and so on, and the last placeholder's partial holds
/// one operation of its receiver with a scalar, simplification gives that
/// operation of the whole path of fields with the scalar. No placeholder is
/// left in it.
pub proof fn lemma_lookup_chain(
    names: Seq<Seq<char>>,
    fields: Seq<Seq<char>>,
    operator: Operator,
    scalar: ValueView,
)
    requires
        is_scalar(scalar),
    ensures
        simplified_term(
            ValueView::Partial(chain(names, fields, constraint_on(this_view(), operator, scalar))),
        ) == Ok::<ValueView, SimplifyError>(
            ValueView::Partial(
                ConstraintsView {
                    variable: names[0],
                    operations: seq![
                        wrapped(
                            fields.len(),
                            constraint_on(path_from(this_view(), fields), operator, scalar),
                        ),
                    ],
                },
            ),
        ),
{
    let start = ValueView::Partial(
        chain(names, fields, constraint_on(this_view(), operator, scalar)),
    );
    let flat = wrapped(
        fields.len(),
        constraint_on(path_from(this_view(), fields), operator, scalar),
    );
    let after = ConstraintsView { variable: names[0], operations: seq![flat] };
    lemma_fold_chain(names, fields, operator, scalar);
    lemma_fold_constraint(fields, operator, scalar);
    lemma_fold_wrapped(
        fields.len(),
        constraint_on(path_from(this_view(), fields), operator, scalar),
    );
    assert(fold_operations(after.operations) =~= after.operations);
    assert(fold_term(ValueView::Partial(after)) == ValueView::Partial(after));
    assert(simplify_outcome(ValueView::Partial(after), (MAX_PASSES - 1) as nat) == Ok::<
        ValueView,
        SimplifyError,
    >(ValueView::Partial(after)));
    assert(fold_term(start) == ValueView::Partial(after));
}

/// A constraint on a field of the receiver comes out flat: where a partial
/// has looked `field` up and the placeholder's own partial holds one
/// operation of the receiver with a scalar, simplification gives that
/// operation of the field with the scalar, and the placeholder is gone from
/// it.
pub proof fn lemma_lookup_round_trip(
    variable: Seq<char>,
    field: Seq<char>,
    placeholder: Seq<char>,
    operator: Operator,
    scalar: ValueView,
)
    requires
        is_scalar(scalar),
    ensures
        ({
            let held = ConstraintsView {
                variable: placeholder,
                operations: seq![constraint_on(this_view(), operator, scalar)],
            };
            let root = ConstraintsView {
                variable,
                operations: seq![lookup_op(ValueView::String(field), ValueView::Partial(held))],
            };
            let flat = ValueView::Expression(
                constraint_on(lookup_of(this_view(), field), operator, scalar),
            );
            &&& simplified_term(ValueView::Partial(root)) matches Ok(ValueView::Partial(after))
            &&& after.variable == variable
            &&& after.operations == seq![OperationView { operator: Operator::And, args: seq![flat] }]
        }),
{
    let names = seq![variable, placeholder];
    let fields = seq![field];
    let constraint = constraint_on(this_view(), operator, scalar);
    lemma_lookup_chain(names, fields, operator, scalar);
    assert(names.drop_first() =~= seq![placeholder]);
    assert(fields.drop_first() =~= Seq::<Seq<char>>::empty());
    assert(chain(names.drop_first(), fields.drop_first(), constraint) == (ConstraintsView {
        variable: placeholder,
        operations: seq![constraint],
    }));
    assert(path_from(this_view(), fields) == lookup_of(this_view(), field)) by {
        assert(path_from(lookup_of(this_view(), fields[0]), fields.drop_first()) == lookup_of(
            this_view(),
            field,
        ));
    }
    let flat = constraint_on(lookup_of(this_view(), field), operator, scalar);
    assert(wrapped(1, flat) == (OperationView {
        operator: Operator::And,
        args: seq![ValueView::Expression(flat)],
    })) by {
        assert(wrapped(0, flat) == flat);
    }
}

/// Whether the receiver occurs in a term, outside the partials that the term
/// holds.
pub open spec fn holds_this(v: ValueView) -> bool
    decreases v,
{
    match v {
        ValueView::Variable(name) => name == this_name(),
        ValueView::Expression(o) => exists|i: int|
            0 <= i < o.args.len() && holds_this(#[trigger] o.args[i]),
        ValueView::List(l) => exists|i: int| 0 <= i < l.len() && holds_this(#[trigger] l[i]),
        _ => false,
    }
}

/// What stands for the receiver holds it.
pub proof fn lemma_stands_for_this_holds_this(v: ValueView)
    requires
        stands_for_this(v),
    ensures
        holds_this(v),
    decreases v,
{
    if v is Expression {
        let o = v->Expression_0;
        lemma_stands_for_this_holds_this(o.args[0]);
    }
}

/// Only the receiver is replaced: a term in which it does not occur stays as
/// it is, whatever the replacement. So a constant, another variable and a
/// lookup on another variable stay.
pub proof fn lemma_sub_this_keeps_other_terms(term: ValueView, replacement: ValueView)
    requires
        !holds_this(term),
    ensures
        sub_this(term, replacement) == term,
    decreases term,
{
    if stands_for_this(term) {
        lemma_stands_for_this_holds_this(term);
    }
    match term {
        ValueView::Expression(o) => {
            assert forall|i: int| 0 <= i < o.args.len() implies sub_this(
                #[trigger] o.args[i],
                replacement,
            ) == o.args[i] by {
                lemma_sub_this_keeps_other_terms(o.args[i], replacement);
            }
            assert(sub_this_terms(o.args, replacement) =~= o.args);
        },
        ValueView::List(l) => {
            assert forall|i: int| 0 <= i < l.len() implies sub_this(#[trigger] l[i], replacement)
                == l[i] by {
                lemma_sub_this_keeps_other_terms(l[i], replacement);
            }
            assert(sub_this_terms(l, replacement) =~= l);
        },
        _ => {},
    }
}

} // verus!
