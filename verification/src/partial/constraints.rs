//! The constraints that accumulate on an unbound variable, and the check
//! that a new type constraint is compatible with the earlier ones.

use crate::counter::{following, Counter};
use crate::error::{unexpected_call_id, OperationalError};
use crate::events::{QueryEvent, QueryEventView};
use crate::terms::{
    clone_constraints, clone_operations, constraints_eq, constraints_view, lemma_operations_view,
    lemma_operations_view_push, lemma_terms_view, operation_view, operations_view, term_view,
    terms_view, this_view, ConstraintsView, Operation, OperationView, Operator, Pattern,
    PatternView, Symbol, Term, Value, ValueView,
};
use vstd::prelude::*;
use vstd::std_specs::cmp::PartialEqSpecImpl;

verus! {

/// The constraints gathered so far on one unbound variable: operations on
/// the receiver, in the order in which they were asserted.
#[derive(Debug, Eq, Hash)]
pub struct Constraints {
    pub operations: Vec<Operation>,
    pub variable: Symbol,
}

impl View for Constraints {
    type V = ConstraintsView;

    open spec fn view(&self) -> ConstraintsView {
        constraints_view(*self)
    }
}

impl Clone for Constraints {
    fn clone(&self) -> (r: Self)
        ensures
            r@ == self@,
    {
        clone_constraints(self)
    }
}

impl PartialEq for Constraints {
    fn eq(&self, other: &Self) -> (r: bool) {
        constraints_eq(self, other)
    }
}

impl PartialEqSpecImpl for Constraints {
    open spec fn obeys_eq_spec() -> bool {
        true
    }

    open spec fn eq_spec(&self, other: &Self) -> bool {
        self@ == other@
    }
}

/// Whether an operator compares two values.
pub open spec fn is_comparison(operator: Operator) -> bool {
    operator == Operator::Lt || operator == Operator::Gt || operator == Operator::Leq || operator
        == Operator::Geq || operator == Operator::Eq || operator == Operator::Neq
}

/// The operation that unifies the receiver with a term.
pub open spec fn unify_op(other: ValueView) -> OperationView {
    OperationView { operator: Operator::Unify, args: seq![this_view(), other] }
}

/// The operation that matches the receiver against a term.
pub open spec fn isa_op(other: ValueView) -> OperationView {
    OperationView { operator: Operator::Isa, args: seq![this_view(), other] }
}

/// The comparison of the receiver, on the left, with a term.
pub open spec fn compare_op(operator: Operator, other: ValueView) -> OperationView {
    OperationView { operator, args: seq![this_view(), other] }
}

/// The operation that unifies a placeholder with a field of the receiver.
pub open spec fn lookup_op(field: ValueView, value: ValueView) -> OperationView {
    OperationView {
        operator: Operator::Unify,
        args: seq![
            value,
            ValueView::Expression(
                OperationView { operator: Operator::Dot, args: seq![this_view(), field] },
            ),
        ],
    }
}

impl ConstraintsView {
    /// No constraints on `variable`.
    pub open spec fn empty(variable: Seq<char>) -> ConstraintsView {
        ConstraintsView { variable, operations: Seq::empty() }
    }

    /// These constraints and then one more.
    pub open spec fn with(self, op: OperationView) -> ConstraintsView {
        ConstraintsView { variable: self.variable, operations: self.operations.push(op) }
    }

    /// The conjunction of the operations, each as an expression of its own,
    /// in their order.
    pub open spec fn expression(self) -> ValueView {
        ValueView::Expression(
            OperationView {
                operator: Operator::And,
                args: Seq::new(
                    self.operations.len(),
                    |i: int| ValueView::Expression(self.operations[i]),
                ),
            },
        )
    }
}

impl Constraints {
    /// No constraints yet on `variable`.
    pub fn new(variable: Symbol) -> (r: Self)
        ensures
            r@ == ConstraintsView::empty(variable@),
    {
        let r = Constraints { operations: Vec::new(), variable };
        assert(operations_view(r.operations@) =~= Seq::empty());
        r
    }

    /// The operations recorded so far, in order.
    pub fn operations(&self) -> (r: &Vec<Operation>)
        ensures
            *r == self.operations,
            operations_view(r@) == self@.operations,
    {
        &self.operations
    }

    /// The list of operations, to be changed in place.
    pub fn operations_mut(&mut self) -> (r: &mut Vec<Operation>)
        ensures
            *r == old(self).operations,
            final(self).operations == *final(r),
            final(self).variable == old(self).variable,
    {
        &mut self.operations
    }

    /// Appends an operation.
    fn record(&mut self, op: Operation)
        ensures
            final(self)@ == old(self)@.with(op@),
            final(self).variable == old(self).variable,
            final(self).operations@ == old(self).operations@.push(op),
    {
        proof {
            lemma_operations_view_push(self.operations@, op);
        }
        self.operations.push(op);
    }

    /// The operation of `operator` on two operands.
    fn binary(operator: Operator, left: Term, right: Term) -> (r: Operation)
        ensures
            r@ == (OperationView { operator, args: seq![left@, right@] }),
    {
        let mut args: Vec<Term> = Vec::new();
        args.push(left);
        args.push(right);
        assert(terms_view(args@) =~= seq![left@, right@]);
        Operation { operator, args }
    }

    /// Records that the receiver is unified with `other`.
    pub fn unify(&mut self, other: Term)
        ensures
            final(self)@ == old(self)@.with(unify_op(other@)),
    {
        let op = Self::binary(Operator::Unify, self.variable_term(), other);
        self.record(op);
    }

    /// Records that the receiver matches `other`, and returns the check of
    /// this new constraint against those recorded before it.
    pub fn isa(&mut self, other: Term) -> (check: IsaConstraintCheck)
        ensures
            final(self)@ == old(self)@.with(isa_op(other@)),
            check@ == IsaCheckView::new(old(self)@.operations, isa_op(other@)),
    {
        let isa_op = Self::binary(Operator::Isa, self.variable_term(), other);
        let check = IsaConstraintCheck::new(clone_operations(&self.operations), isa_op.clone());
        self.record(isa_op);
        check
    }

    /// Records a comparison with the receiver on the left.
    pub fn compare(&mut self, operator: Operator, other: Term)
        requires
            is_comparison(operator),
        ensures
            final(self)@ == old(self)@.with(compare_op(operator, other@)),
    {
        let op = Self::binary(operator, self.variable_term(), other);
        self.record(op);
    }

    /// Records that `value` is the field `field` of the receiver, and
    /// returns a partial for `value` with no constraints yet.
    pub fn lookup(&mut self, field: Term, value: Term) -> (r: Term)
        requires
            field@ is String,
            value@ is Variable,
        ensures
            final(self)@ == old(self)@.with(lookup_op(field@, value@)),
            r@ == ValueView::Partial(ConstraintsView::empty(value@->Variable_0)),
    {
        let name = match &value.value {
            Value::Variable(name) => name.clone(),
            _ => vstd::pervasive::unreached(),
        };
        let dot = Self::binary(Operator::Dot, self.variable_term(), field);
        let op = Self::binary(Operator::Unify, value, Term::new(Value::Expression(dot)));
        self.record(op);
        Term::new(Value::Partial(Constraints::new(name)))
    }

    /// These constraints as a term.
    pub fn into_term(self) -> (r: Term)
        ensures
            r@ == ValueView::Partial(self@),
    {
        Term::new(Value::Partial(self))
    }

    /// The expression that these constraints stand for: the conjunction of
    /// the operations in the order in which they were recorded.
    pub fn into_expression(self) -> (r: Term)
        ensures
            r@ == self@.expression(),
    {
        proof {
            lemma_operations_view(self.operations@);
        }
        let ghost operations = self.operations@;
        let mut args: Vec<Term> = Vec::new();
        for op in it: self.operations
            invariant
                it.seq() == operations,
                args@.len() == it.index(),
                forall|j: int|
                    0 <= j < it.index() ==> term_view(args@[j]) == ValueView::Expression(
                        operation_view(operations[j]),
                    ),
        {
            args.push(Term::new(Value::Expression(op)));
        }
        let r = Term::new(Value::Expression(Operation { operator: Operator::And, args }));
        assert(terms_view(args@) =~= self@.expression()->Expression_0.args);
        r
    }

    /// The same operations as constraints on `name`.
    pub fn clone_with_name(&self, name: Symbol) -> (r: Self)
        ensures
            r@ == (ConstraintsView { variable: name@, operations: self@.operations }),
    {
        Constraints { operations: clone_operations(&self.operations), variable: name }
    }

    /// Constraints on the same variable that hold `operations` instead.
    pub fn clone_with_operations(&self, operations: Vec<Operation>) -> (r: Self)
        ensures
            r@ == (ConstraintsView {
                variable: self@.variable,
                operations: operations_view(operations@),
            }),
            r.operations == operations,
    {
        Constraints { operations, variable: self.variable.clone() }
    }

    /// The variable that the constraints are on.
    pub fn name(&self) -> (r: &Symbol)
        ensures
            *r == self.variable,
            r@ == self@.variable,
    {
        &self.variable
    }

    /// The receiver as a term.
    pub fn variable_term(&self) -> (r: Term)
        ensures
            r@ == this_view(),
    {
        Term::new(Value::Variable(Symbol::new("_this")))
    }
}

/// The class tag of the instance pattern that is an operation's last
/// operand, if it has one.
pub open spec fn instance_tag(o: OperationView) -> Option<Seq<char>> {
    if o.args.len() > 0 {
        match o.args.last() {
            ValueView::Pattern(PatternView::Instance { tag }) => Some(tag),
            _ => None,
        }
    } else {
        None
    }
}

/// The class tag that an earlier operation demands, if it is a type
/// constraint with an instance pattern.
pub open spec fn demanded_tag(o: OperationView) -> Option<Seq<char>> {
    if o.operator == Operator::Isa {
        instance_tag(o)
    } else {
        None
    }
}

/// The place of the last operation that demands a class, if there is one.
pub open spec fn last_demand(ops: Seq<OperationView>) -> Option<int>
    decreases ops.len(),
{
    if ops.len() == 0 {
        None
    } else if demanded_tag(ops.last()) is Some {
        Some(ops.len() - 1)
    } else {
        last_demand(ops.drop_last())
    }
}

/// The model of a check: the earlier operations still to look at, the class
/// of the new constraint, the answer that has come in and was not yet acted
/// on, and the identifier of the question that waits for its answer, if one
/// does.
pub struct IsaCheckView {
    pub existing: Seq<OperationView>,
    pub proposed_tag: Option<Seq<char>>,
    pub result: Option<bool>,
    pub last_call_id: Option<u64>,
}

/// A step of a check: the check after it, the next free call identifier, and
/// the event for the evaluator.
pub struct IsaStep {
    pub check: IsaCheckView,
    pub counter: u64,
    pub event: QueryEventView,
}

impl IsaCheckView {
    /// The check of a new type constraint against the operations recorded
    /// before it.
    pub open spec fn new(existing: Seq<OperationView>, proposed: OperationView) -> IsaCheckView {
        IsaCheckView {
            existing,
            proposed_tag: instance_tag(proposed),
            result: None,
            last_call_id: None,
        }
    }

    /// One step. With no class to check, the check is done and holds. After
    /// a negative answer it is done and fails. Otherwise it goes back through
    /// the remaining operations to the last one that demands a class, and
    /// asks whether the new class is a subclass of that one; with none left
    /// it is done and holds.
    pub open spec fn step(self, counter: u64) -> IsaStep {
        if self.proposed_tag is None {
            IsaStep { check: self, counter, event: QueryEventView::Done { result: true } }
        } else if self.result == Some(false) {
            IsaStep {
                check: IsaCheckView { result: None, ..self },
                counter,
                event: QueryEventView::Done { result: false },
            }
        } else {
            match last_demand(self.existing) {
                Some(i) => IsaStep {
                    check: IsaCheckView {
                        existing: self.existing.take(i),
                        result: None,
                        last_call_id: Some(counter),
                        ..self
                    },
                    counter: following(counter),
                    event: QueryEventView::ExternalIsSubclass {
                        call_id: counter,
                        left_class_tag: self.proposed_tag->Some_0,
                        right_class_tag: demanded_tag(self.existing[i])->Some_0,
                    },
                },
                None => IsaStep {
                    check: IsaCheckView { existing: Seq::empty(), result: None, ..self },
                    counter,
                    event: QueryEventView::Done { result: true },
                },
            }
        }
    }

    /// The check after an answer under `call_id`: the answer is taken in and
    /// no question waits any more. Nothing if no question waits for an
    /// answer, or the one that does has another identifier.
    pub open spec fn answered(self, call_id: u64, answer: bool) -> Option<IsaCheckView> {
        if self.last_call_id == Some(call_id) {
            Some(IsaCheckView { result: Some(answer), last_call_id: None, ..self })
        } else {
            None
        }
    }
}

/// The resumable check that a new type constraint is compatible with the
/// constraints recorded before it.
#[derive(Debug, PartialEq, Eq)]
pub struct IsaConstraintCheck {
    existing: Vec<Operation>,
    proposed_tag: Option<Symbol>,
    result: Option<bool>,
    last_call_id: Option<u64>,
}

impl View for IsaConstraintCheck {
    type V = IsaCheckView;

    closed spec fn view(&self) -> IsaCheckView {
        IsaCheckView {
            existing: operations_view(self.existing@),
            proposed_tag: match self.proposed_tag {
                Some(tag) => Some(tag@),
                None => None,
            },
            result: self.result,
            last_call_id: self.last_call_id,
        }
    }
}

/// The class tag of the instance pattern that is an operation's last
/// operand, if it has one.
fn tag_of(o: &Operation) -> (r: Option<Symbol>)
    ensures
        r is Some <==> instance_tag(o@) is Some,
        r matches Some(tag) ==> Some(tag@) == instance_tag(o@),
{
    proof {
        lemma_terms_view(o.args@);
    }
    if o.args.len() == 0 {
        return None;
    }
    match &o.args[o.args.len() - 1].value {
        Value::Pattern(Pattern::Instance(instance)) => Some(instance.tag.clone()),
        _ => None,
    }
}

impl IsaConstraintCheck {
    /// The check of the type constraint `proposed` against the operations
    /// `existing` that were recorded before it. Nothing has been asked yet.
    pub fn new(existing: Vec<Operation>, proposed: Operation) -> (r: Self)
        ensures
            r@ == IsaCheckView::new(operations_view(existing@), proposed@),
    {
        IsaConstraintCheck {
            existing,
            proposed_tag: tag_of(&proposed),
            result: None,
            last_call_id: None,
        }
    }

    /// Looks at one earlier operation. If it demands a class, takes a fresh
    /// call identifier and returns the question whether the new class is a
    /// subclass of that one; if not, returns nothing and changes nothing.
    fn check_constraint(&mut self, constraint: Operation, counter: &mut Counter) -> (r: Option<
        QueryEvent,
    >)
        requires
            old(self)@.proposed_tag is Some,
        ensures
            match demanded_tag(constraint@) {
                Some(tag) => {
                    &&& r matches Some(event)
                    &&& event@ == (QueryEventView::ExternalIsSubclass {
                        call_id: old(counter)@,
                        left_class_tag: old(self)@.proposed_tag->Some_0,
                        right_class_tag: tag,
                    })
                    &&& final(self)@ == (IsaCheckView {
                        last_call_id: Some(old(counter)@),
                        ..old(self)@
                    })
                    &&& final(counter)@ == following(old(counter)@)
                },
                None => r is None && final(self)@ == old(self)@ && final(counter)@ == old(counter)@,
            },
    {
        if constraint.operator != Operator::Isa {
            return None;
        }
        match tag_of(&constraint) {
            Some(right_class_tag) => {
                let left_class_tag = match &self.proposed_tag {
                    Some(tag) => tag.clone(),
                    None => vstd::pervasive::unreached(),
                };
                let call_id = counter.next();
                self.last_call_id = Some(call_id);
                Some(QueryEvent::ExternalIsSubclass { call_id, left_class_tag, right_class_tag })
            },
            None => None,
        }
    }

    /// One step of the check.
    pub fn run(&mut self, counter: &mut Counter) -> (r: Result<QueryEvent, OperationalError>)
        ensures
            r matches Ok(event) && event@ == old(self)@.step(old(counter)@).event,
            final(self)@ == old(self)@.step(old(counter)@).check,
            final(counter)@ == old(self)@.step(old(counter)@).counter,
    {
        if self.proposed_tag.is_none() {
            return Ok(QueryEvent::Done { result: true });
        }
        let pending = self.result;
        self.result = None;
        if let Some(result) = pending {
            if !result {
                return Ok(QueryEvent::Done { result: false });
            }
        }
        loop
            invariant
                self@.proposed_tag == old(self)@.proposed_tag,
                self@.proposed_tag is Some,
                old(self)@.result != Some(false),
                self@.result is None,
                self@.last_call_id == old(self)@.last_call_id,
                counter@ == old(counter)@,
                self@.existing.len() <= old(self)@.existing.len(),
                self@.existing == old(self)@.existing.take(self@.existing.len() as int),
                last_demand(self@.existing) == last_demand(old(self)@.existing),
            decreases self@.existing.len(),
        {
            let ghost before = self.existing@;
            let next = self.existing.pop();
            if let Some(constraint) = next {
                proof {
                    lemma_operations_view(before);
                    lemma_operations_view(self.existing@);
                    assert(operations_view(self.existing@) =~= operations_view(
                        before,
                    ).drop_last());
                    assert(operations_view(before).last() == constraint@);
                    assert(operations_view(self.existing@) =~= old(self)@.existing.take(
                        self.existing@.len() as int,
                    ));
                }
                if let Some(event) = self.check_constraint(constraint, counter) {
                    return Ok(event);
                }
            } else {
                proof {
                    assert(operations_view(self.existing@) =~= Seq::empty());
                }
                return Ok(QueryEvent::Done { result: true });
            }
        }
    }

    /// Takes in the host's answer to the question asked under `call_id`. An
    /// answer under an identifier that no question waits under is refused,
    /// and changes nothing: that is any answer before the first question, a
    /// second answer to one question, and an answer under another
    /// identifier than that of the last question.
    pub fn external_question_result(&mut self, call_id: u64, answer: bool) -> (r: Result<
        (),
        OperationalError,
    >)
        ensures
            match old(self)@.answered(call_id, answer) {
                Some(check) => r is Ok && final(self)@ == check,
                None => {
                    &&& r matches Err(e)
                    &&& e.message() == unexpected_call_id()
                    &&& final(self)@ == old(self)@
                },
            },
    {
        let expected = match self.last_call_id {
            Some(pending) => pending == call_id,
            None => false,
        };
        if !expected {
            return Err(OperationalError::InvalidState("Unexpected call id".to_owned()));
        }
        self.result = Some(answer);
        self.last_call_id = None;
        Ok(())
    }

    /// An independent copy of the check, for a branch of the evaluation.
    pub fn clone_runnable(&self) -> (r: Self)
        ensures
            r@ == self@,
    {
        IsaConstraintCheck {
            existing: clone_operations(&self.existing),
            proposed_tag: match &self.proposed_tag {
                Some(tag) => Some(tag.clone()),
                None => None,
            },
            result: self.result,
            last_call_id: self.last_call_id,
        }
    }
}

impl Clone for IsaConstraintCheck {
    fn clone(&self) -> (r: Self)
        ensures
            r@ == self@,
    {
        self.clone_runnable()
    }
}

/// A constraint that can be asserted of the receiver.
pub enum Assertion {
    Unify(ValueView),
    Compare(Operator, ValueView),
    Isa(ValueView),
}

impl Assertion {
    /// The operation that asserting the constraint records.
    pub open spec fn operation(self) -> OperationView {
        match self {
            Assertion::Unify(other) => unify_op(other),
            Assertion::Compare(operator, other) => compare_op(operator, other),
            Assertion::Isa(other) => isa_op(other),
        }
    }
}

/// The constraints after a sequence of assertions, made in order.
pub open spec fn asserted(c: ConstraintsView, assertions: Seq<Assertion>) -> ConstraintsView
    decreases assertions.len(),
{
    if assertions.len() == 0 {
        c
    } else {
        asserted(c, assertions.drop_last()).with(assertions.last().operation())
    }
}

/// Assertions are kept in the order in which they were made: after any
/// sequence of them on a new accumulator, the expression is the conjunction
/// of their operations, one operand for each, in that order.
pub proof fn lemma_accumulation_order(variable: Seq<char>, assertions: Seq<Assertion>)
    ensures
        asserted(ConstraintsView::empty(variable), assertions).expression() == ValueView::Expression(
            OperationView {
                operator: Operator::And,
                args: Seq::new(
                    assertions.len(),
                    |i: int| ValueView::Expression(assertions[i].operation()),
                ),
            },
        ),
{
    lemma_asserted(ConstraintsView::empty(variable), assertions);
    let after = asserted(ConstraintsView::empty(variable), assertions);
    assert(after.expression()->Expression_0.args =~= Seq::new(
        assertions.len(),
        |i: int| ValueView::Expression(assertions[i].operation()),
    ));
}

/// A sequence of assertions appends its operations, in order, to those
/// recorded before, and leaves the variable as it is.
pub proof fn lemma_asserted(c: ConstraintsView, assertions: Seq<Assertion>)
    ensures
        asserted(c, assertions).variable == c.variable,
        asserted(c, assertions).operations == c.operations + Seq::new(
            assertions.len(),
            |i: int| assertions[i].operation(),
        ),
    decreases assertions.len(),
{
    if assertions.len() > 0 {
        lemma_asserted(c, assertions.drop_last());
    }
    assert(asserted(c, assertions).operations =~= c.operations + Seq::new(
        assertions.len(),
        |i: int| assertions[i].operation(),
    ));
}

/// The last demand is the latest operation that demands a class: it is in
/// the list, it demands one, and no operation after it does. There is none
/// exactly if no operation demands a class.
pub proof fn lemma_last_demand(ops: Seq<OperationView>)
    ensures
        match last_demand(ops) {
            Some(i) => {
                &&& 0 <= i < ops.len()
                &&& demanded_tag(ops[i]) is Some
                &&& forall|j: int| i < j < ops.len() ==> demanded_tag(#[trigger] ops[j]) is None
            },
            None => forall|j: int| 0 <= j < ops.len() ==> demanded_tag(#[trigger] ops[j]) is None,
        },
    decreases ops.len(),
{
    if ops.len() > 0 && demanded_tag(ops.last()) is None {
        lemma_last_demand(ops.drop_last());
        assert forall|j: int| 0 <= j < ops.len() - 1 implies ops[j] == ops.drop_last()[j] by {}
    }
}

/// Each question uses up the operation that it is about and those after it:
/// a step that asks leaves fewer operations to look at, so a check asks at
/// most as many questions as there were operations.
pub proof fn lemma_question_shortens(check: IsaCheckView, counter: u64)
    requires
        check.step(counter).event is ExternalIsSubclass,
    ensures
        check.step(counter).check.existing.len() < check.existing.len(),
        check.step(counter).check.existing == check.existing.take(
            check.step(counter).check.existing.len() as int,
        ),
        check.step(counter).check.proposed_tag == check.proposed_tag,
{
    lemma_last_demand(check.existing);
}

/// A check that has asked nothing takes no answer: on a new check every
/// answer is refused, whatever its identifier.
pub proof fn lemma_new_check_refuses_answers(
    existing: Seq<OperationView>,
    proposed: OperationView,
    call_id: u64,
    answer: bool,
)
    ensures
        IsaCheckView::new(existing, proposed).answered(call_id, answer) is None,
{
}

/// A question is answered once: after an answer was taken in, a further
/// answer is refused until the check asks again.
pub proof fn lemma_answer_is_taken_once(
    check: IsaCheckView,
    call_id: u64,
    answer: bool,
    next_id: u64,
    next_answer: bool,
)
    requires
        check.answered(call_id, answer) is Some,
    ensures
        check.answered(call_id, answer)->Some_0.answered(next_id, next_answer) is None,
{
}

/// An answer is taken in exactly under the identifier of the question that
/// the last step has asked.
pub proof fn lemma_answer_matches_question(
    check: IsaCheckView,
    counter: u64,
    call_id: u64,
    answer: bool,
)
    requires
        check.step(counter).event is ExternalIsSubclass,
    ensures
        check.step(counter).check.answered(call_id, answer) is Some <==> call_id
            == check.step(counter).event->call_id,
{
}

/// A negative answer is final: once the host has answered the question of a
/// check with "not a subclass", the next step completes the check with
/// `false` and takes no call identifier, so nothing more is asked.
pub proof fn lemma_negative_answer_is_final(check: IsaCheckView, counter: u64, later: u64)
    requires
        check.step(counter).event is ExternalIsSubclass,
    ensures
        check.step(counter).event->call_id == counter,
        check.step(counter).check.answered(counter, false) is Some,
        check.step(counter).check.answered(counter, false)->Some_0.step(later).event == (
        QueryEventView::Done { result: false }),
        check.step(counter).check.answered(counter, false)->Some_0.step(later).counter == later,
{
}

/// Without a conflict there is no question: the check of a new constraint
/// whose operand is no instance pattern, or against operations none of which
/// demands a class, completes at its first step with `true` and takes no
/// call identifier.
pub proof fn lemma_no_demand_no_question(
    existing: Seq<OperationView>,
    proposed: OperationView,
    counter: u64,
)
    requires
        instance_tag(proposed) is None || forall|i: int|
            0 <= i < existing.len() ==> demanded_tag(#[trigger] existing[i]) is None,
    ensures
        IsaCheckView::new(existing, proposed).step(counter).event == (QueryEventView::Done {
            result: true,
        }),
        IsaCheckView::new(existing, proposed).step(counter).counter == counter,
{
    lemma_last_demand(existing);
}

} // verus!
