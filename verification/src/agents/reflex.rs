//! The simple reflex agent: the action depends on the current percept only.
//!
//! The agent holds two functions. The first interprets a percept as a state,
//! the second matches a rule against that state and yields the action. Nothing
//! is remembered between two calls.

use std::marker::PhantomData;
use vstd::prelude::*;

verus! {

/// Hands its argument back: the interpretation to use when a percept already
/// is the state that the rules are written over.
pub fn identity<T>(t: T) -> (r: T)
    ensures
        r == t,
{
    t
}

/// An agent that answers each percept with `rule_match(interpret_input(percept))`.
#[verifier::reject_recursive_types(Percept)]
#[verifier::reject_recursive_types(State)]
#[verifier::reject_recursive_types(Action)]
pub struct SimpleReflexAgent<Percept, State, Action, InterpretInput, RuleMatch> where
    InterpretInput: Fn(Percept) -> State,
    RuleMatch: Fn(State) -> Action,
 {
    interpret_input: InterpretInput,
    rule_match: RuleMatch,
    _phantom: PhantomData<(Percept, State, Action)>,
}

impl<Percept, State, Action, InterpretInput, RuleMatch> SimpleReflexAgent<
    Percept,
    State,
    Action,
    InterpretInput,
    RuleMatch,
> where InterpretInput: Fn(Percept) -> State, RuleMatch: Fn(State) -> Action {
    /// The interpretation function that the agent was made with.
    pub closed spec fn interpreter(&self) -> InterpretInput {
        self.interpret_input
    }

    /// The rule-matching function that the agent was made with.
    pub closed spec fn matcher(&self) -> RuleMatch {
        self.rule_match
    }

    /// The agent can be run on `percept`: the interpretation accepts the
    /// percept, and the rules accept every state that it may be read as.
    pub open spec fn accepts(&self, percept: Percept) -> bool {
        &&& call_requires(self.interpreter(), (percept,))
        &&& forall|state: State| #[trigger]
            call_ensures(self.interpreter(), (percept,), state) ==> call_requires(
                self.matcher(),
                (state,),
            )
    }

    /// `action` is a possible answer to `percept`: the rules' answer to a
    /// state that the interpretation gives for the percept.
    pub open spec fn answers(&self, percept: Percept, action: Action) -> bool {
        exists|state: State|
            {
                &&& #[trigger] call_ensures(self.interpreter(), (percept,), state)
                &&& call_ensures(self.matcher(), (state,), action)
            }
    }

    /// Makes an agent of the two functions. It holds nothing else.
    pub fn new(interpret_input: InterpretInput, rule_match: RuleMatch) -> (agent: Self)
        ensures
            agent.interpreter() == interpret_input,
            agent.matcher() == rule_match,
    {
        SimpleReflexAgent { interpret_input, rule_match, _phantom: PhantomData }
    }

    /// Interprets the percept, matches the rules against the state, and
    /// returns their action. The agent is not changed.
    pub fn run(&self, percept: Percept) -> (action: Action)
        requires
            self.accepts(percept),
        ensures
            self.answers(percept, action),
    {
        let state = (self.interpret_input)(percept);
        (self.rule_match)(state)
    }

    /// Both functions of the agent are pure: each gives at most one result
    /// for an argument.
    pub open spec fn is_pure(&self) -> bool {
        &&& forall|percept: Percept, s1: State, s2: State|
            #![trigger call_ensures(self.interpreter(), (percept,), s1), call_ensures(self.interpreter(), (percept,), s2)]
            call_ensures(self.interpreter(), (percept,), s1) && call_ensures(
                self.interpreter(),
                (percept,),
                s2,
            ) ==> s1 == s2
        &&& forall|state: State, a1: Action, a2: Action|
            #![trigger call_ensures(self.matcher(), (state,), a1), call_ensures(self.matcher(), (state,), a2)]
            call_ensures(self.matcher(), (state,), a1) && call_ensures(
                self.matcher(),
                (state,),
                a2,
            ) ==> a1 == a2
    }

    /// The two functions of the agent compute `interpret` and `rules`:
    /// whatever either returns is the value of its mathematical counterpart.
    pub open spec fn computes(
        &self,
        interpret: spec_fn(Percept) -> State,
        rules: spec_fn(State) -> Action,
    ) -> bool {
        &&& forall|percept: Percept, state: State| #[trigger]
            call_ensures(self.interpreter(), (percept,), state) ==> state == interpret(percept)
        &&& forall|state: State, action: Action| #[trigger]
            call_ensures(self.matcher(), (state,), action) ==> action == rules(state)
    }

    /// An agent whose functions compute `interpret` and `rules` answers a
    /// percept with `rules(interpret(percept))` and with nothing else.
    pub proof fn lemma_answer_is_composition(
        &self,
        interpret: spec_fn(Percept) -> State,
        rules: spec_fn(State) -> Action,
        percept: Percept,
        action: Action,
    )
        requires
            self.computes(interpret, rules),
            self.answers(percept, action),
        ensures
            action == rules(interpret(percept)),
    {
        let state = choose|state: State|
            {
                &&& #[trigger] call_ensures(self.interpreter(), (percept,), state)
                &&& call_ensures(self.matcher(), (state,), action)
            };
        assert(state == interpret(percept));
    }

    /// An agent with pure functions gives one answer to a percept, however
    /// often it is asked and whatever it was asked in between: two answers of
    /// the same agent to the same percept are equal.
    pub proof fn lemma_answer_is_repeatable(&self, percept: Percept, first: Action, second: Action)
        requires
            self.is_pure(),
            self.answers(percept, first),
            self.answers(percept, second),
        ensures
            first == second,
    {
        let s1 = choose|state: State|
            {
                &&& #[trigger] call_ensures(self.interpreter(), (percept,), state)
                &&& call_ensures(self.matcher(), (state,), first)
            };
        let s2 = choose|state: State|
            {
                &&& #[trigger] call_ensures(self.interpreter(), (percept,), state)
                &&& call_ensures(self.matcher(), (state,), second)
            };
        assert(s1 == s2);
    }
}

} // verus!
