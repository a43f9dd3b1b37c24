//! Chains of effects that are applied one after the other.

use vstd::prelude::*;
use crate::level::Level;

verus! {

/// Core DSP effect interface, over samples of the type `S`.
pub trait Effect<S>: Send {
    /// What the effect remembers from one buffer to the next.
    open spec fn memory(&self) -> Seq<S> {
        Seq::empty()
    }

    /// What processing a buffer may do: from this effect and the samples `input` to
    /// an effect that remembers `memory` and the samples `output`. An effect that
    /// says nothing of it may do anything.
    open spec fn step(&self, input: Seq<S>, memory: Seq<S>, output: Seq<S>) -> bool {
        true
    }

    fn name(&self) -> &str;

    fn process(&mut self, buffer: &mut [S])
        ensures
            old(self).step(old(buffer)@, final(self).memory(), final(buffer)@),
    ;

    fn parameters(&self) -> Vec<EffectParam>;

    fn set_parameter(&mut self, name: &str, value: Level);
}

#[derive(Debug, Clone)]
pub struct EffectParam {
    pub name: String,
    pub min: Level,
    pub max: Level,
    pub default: Level,
    pub current: Level,
}

/// What a parameter says, its name over characters.
#[verifier::ext_equal]
pub struct ParamView {
    pub name: Seq<char>,
    pub min: Level,
    pub max: Level,
    pub default: Level,
    pub current: Level,
}

impl View for EffectParam {
    type V = ParamView;

    open spec fn view(&self) -> ParamView {
        ParamView {
            name: self.name@,
            min: self.min,
            max: self.max,
            default: self.default,
            current: self.current,
        }
    }
}

pub open spec fn params_view(v: Seq<EffectParam>) -> Seq<ParamView> {
    Seq::new(v.len(), |i: int| v[i]@)
}

/// Ordered chain of effects applied to a single virtual sink.
#[verifier::reject_recursive_types(S)]
pub struct EffectsChain<S> {
    effects: Vec<Box<dyn Effect<S>>>,
}

/// `stages` are the samples before, between and after the effects of a chain:
/// each effect made its step from one stage to the next.
pub open spec fn passes<S>(
    before: Seq<Box<dyn Effect<S>>>,
    after: Seq<Box<dyn Effect<S>>>,
    stages: Seq<Seq<S>>,
) -> bool {
    &&& after.len() == before.len()
    &&& stages.len() == before.len() + 1
    &&& forall|i: int|
        #![trigger before[i]]
        0 <= i < before.len() ==> before[i].step(stages[i], after[i].memory(), stages[i + 1])
}

impl<S> View for EffectsChain<S> {
    type V = Seq<Box<dyn Effect<S>>>;

    closed spec fn view(&self) -> Seq<Box<dyn Effect<S>>> {
        self.effects@
    }
}

impl<S> EffectsChain<S> {
    pub fn new() -> (r: EffectsChain<S>)
        ensures
            r@ == Seq::<Box<dyn Effect<S>>>::empty(),
    {
        EffectsChain { effects: Vec::new() }
    }

    /// Adds an effect behind the others.
    pub fn push(&mut self, effect: Box<dyn Effect<S>>)
        ensures
            final(self)@ == old(self)@.push(effect),
    {
        self.effects.push(effect);
    }

    /// Removes the effect at `index`, where there is one.
    pub fn remove(&mut self, index: usize)
        ensures
            final(self)@ == (if index < old(self)@.len() {
                old(self)@.remove(index as int)
            } else {
                old(self)@
            }),
    {
        if index < self.effects.len() {
            self.effects.remove(index);
        }
    }

    /// Applies the effects in order.
    pub fn process(&mut self, buffer: &mut [S])
        ensures
            exists|stages: Seq<Seq<S>>| #[trigger]
                passes(old(self)@, final(self)@, stages) && stages[0] == old(buffer)@
                    && stages.last() == final(buffer)@,
    {
        let ghost before = self@;
        let ghost mut stages: Seq<Seq<S>> = seq![buffer@];
        let n: usize = self.effects.len();
        for i in 0..n
            invariant
                n == self.effects@.len(),
                before.len() == n,
                stages.len() == i + 1,
                stages[0] == old(buffer)@,
                stages.last() == buffer@,
                forall|j: int| i <= j < n ==> #[trigger] self.effects@[j] == before[j],
                forall|j: int|
                    #![trigger before[j]]
                    0 <= j < i ==> before[j].step(
                        stages[j],
                        self.effects@[j].memory(),
                        stages[j + 1],
                    ),
        {
            let ghost was = self.effects@;
            assert(was[i as int] == before[i as int]);
            self.effects[i].process(buffer);
            proof {
                let next = stages.push(buffer@);
                assert forall|j: int|
                    #![trigger before[j]]
                    0 <= j < i + 1 implies before[j].step(
                    next[j],
                    self.effects@[j].memory(),
                    next[j + 1],
                ) by {
                    if j < i {
                        assert(self.effects@[j] == was[j]);
                        assert(next[j] == stages[j] && next[j + 1] == stages[j + 1]);
                    }
                }
                stages = next;
            }
        }
        assert(passes(before, self@, stages));
    }
}

impl<S> Default for EffectsChain<S> {
    fn default() -> (r: EffectsChain<S>)
        ensures
            r@ == Seq::<Box<dyn Effect<S>>>::empty(),
    {
        EffectsChain::new()
    }
}

/// The samples between the effects of a chain come one from the other: each effect, in
/// the order of the chain, makes its step from what the one before it left.
pub proof fn effects_follow_each_other<S>(
    before: Seq<Box<dyn Effect<S>>>,
    after: Seq<Box<dyn Effect<S>>>,
    stages: Seq<Seq<S>>,
    i: int,
)
    requires
        passes(before, after, stages),
        0 <= i < before.len(),
    ensures
        after.len() == before.len() && stages.len() == before.len() + 1,
        before[i].step(stages[i], after[i].memory(), stages[i + 1]),
{
}

/// A parameter says what its fields hold, each for itself.
pub proof fn parameters_say_their_fields(p: EffectParam, v: Seq<EffectParam>, i: int)
    ensures
        p@.name == p.name@ && p@.min == p.min && p@.max == p.max,
        p@.default == p.default && p@.current == p.current,
        params_view(v).len() == v.len(),
        0 <= i < v.len() ==> params_view(v)[i] == v[i]@,
{
}

} // verus!
