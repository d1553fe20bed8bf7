//! Doing one thing on each of several links, one link after the other.

use std::sync::Arc;

use vstd::prelude::*;

verus! {

/// What an error says when there is no link to try.
pub const NO_INNER_TRANSPORTS: &'static str = "no inner transports";

/// When to stop before every link has been tried.
#[derive(Debug, Clone, Copy, PartialEq, Eq, Structural)]
pub enum Rule {
    /// At the first link on which it works.
    FirstSuccess,
    /// At the first link on which it fails.
    FirstFailure,
    /// Never; failures do not matter.
    Everything,
}

/// Why doing something on the links failed as a whole.
#[derive(Debug)]
pub enum FanOutError<E> {
    /// There was no link to try.
    NoLinks,
    /// The error of the link that decided.
    Link(E),
}

impl<E> FanOutError<E> {
    /// What the error says, where it is not for a link to say.
    pub fn text(&self) -> (text: Option<&'static str>)
        ensures
            text is Some <==> self is NoLinks,
            text matches Some(t) ==> t@ == NO_INNER_TRANSPORTS@ && t@ == "no inner transports"@,
    {
        match self {
            FanOutError::NoLinks => Some(NO_INNER_TRANSPORTS),
            FanOutError::Link(_) => None,
        }
    }
}

/// Whether it worked on some link.
pub open spec fn any_ok<E>(outcomes: Seq<Result<(), E>>) -> bool {
    exists|i: int| 0 <= i < outcomes.len() && (#[trigger] outcomes[i]) is Ok
}

/// Whether it failed on some link.
pub open spec fn any_err<E>(outcomes: Seq<Result<(), E>>) -> bool {
    exists|i: int| 0 <= i < outcomes.len() && (#[trigger] outcomes[i]) is Err
}

/// Whether `rule` lets a run stop after `outcomes` though links are left.
pub open spec fn settled<E>(rule: Rule, outcomes: Seq<Result<(), E>>) -> bool {
    match rule {
        Rule::FirstSuccess => any_ok(outcomes),
        Rule::FirstFailure => any_err(outcomes),
        Rule::Everything => false,
    }
}

/// The overall result after `outcomes`.
///
/// With [`Rule::FirstSuccess`] a failure is the last one met; with
/// [`Rule::FirstFailure`] the first one, which is also the last as the run
/// stops there.
pub open spec fn verdict<E>(
    rule: Rule,
    outcomes: Seq<Result<(), E>>,
) -> Result<(), FanOutError<E>> {
    match rule {
        Rule::FirstSuccess => if any_ok(outcomes) {
            Ok(())
        } else if outcomes.len() == 0 {
            Err(FanOutError::NoLinks)
        } else {
            Err(FanOutError::Link(outcomes.last()->Err_0))
        },
        Rule::FirstFailure => if any_err(outcomes) {
            Err(FanOutError::Link(outcomes.last()->Err_0))
        } else {
            Ok(())
        },
        Rule::Everything => Ok(()),
    }
}

/// A run over links, in order.
pub struct FanOut<T, E> {
    rule: Rule,
    links: Vec<Arc<T>>,
    tried: usize,
    settled: bool,
    last_error: Option<E>,
    outcomes: Ghost<Seq<Result<(), E>>>,
}

impl<T, E> FanOut<T, E> {
    /// When the run stops early.
    pub closed spec fn rule(&self) -> Rule {
        self.rule
    }

    /// The links, in the order in which they are tried.
    pub closed spec fn links(&self) -> Seq<Arc<T>> {
        self.links@
    }

    /// What has come of the links tried so far.
    pub closed spec fn outcomes(&self) -> Seq<Result<(), E>> {
        self.outcomes@
    }

    /// Whether there is another link to try.
    pub open spec fn pending(&self) -> bool {
        self.outcomes().len() < self.links().len() && !settled(self.rule(), self.outcomes())
    }

    /// The bookkeeping agrees with the outcomes, and no link was tried after
    /// the one that settled the run.
    pub closed spec fn wf(&self) -> bool {
        &&& self.tried == self.outcomes@.len()
        &&& self.tried <= self.links@.len()
        &&& self.settled == settled(self.rule, self.outcomes@)
        &&& self.tried > 0 ==> !settled(self.rule, self.outcomes@.drop_last())
        &&& self.last_error == (if self.tried > 0 && self.outcomes@.last() is Err {
            Some(self.outcomes@.last()->Err_0)
        } else {
            None
        })
    }

    /// Whether this is a run over `links` that has not tried any of them.
    pub open spec fn is_start(&self, rule: Rule, links: Seq<Arc<T>>) -> bool {
        &&& self.wf()
        &&& self.rule() == rule
        &&& self.links() == links
        &&& self.outcomes() == Seq::<Result<(), E>>::empty()
    }

    /// A run over `links`.
    pub fn new(rule: Rule, links: Vec<Arc<T>>) -> (run: Self)
        ensures
            run.is_start(rule, links@),
    {
        FanOut {
            rule,
            links,
            tried: 0,
            settled: false,
            last_error: None,
            outcomes: Ghost(Seq::empty()),
        }
    }

    /// The link to try next, if the run is not over.
    pub fn next(&self) -> (link: Option<Arc<T>>)
        requires
            self.wf(),
        ensures
            link is Some <==> self.pending(),
            link matches Some(inner) ==> inner == self.links()[self.outcomes().len() as int],
    {
        if self.settled || self.tried >= self.links.len() {
            None
        } else {
            Some(self.links[self.tried].clone())
        }
    }

    /// Notes what came of the link that was to be tried next.
    pub fn record(&mut self, outcome: Result<(), E>)
        requires
            old(self).wf(),
            old(self).pending(),
        ensures
            final(self).wf(),
            final(self).rule() == old(self).rule(),
            final(self).links() == old(self).links(),
            final(self).outcomes() == old(self).outcomes().push(outcome),
    {
        let ghost before = self.outcomes@;
        let ghost after = before.push(outcome);
        proof {
            lemma_push_outcome(before, outcome);
            assert(after.drop_last() =~= before);
        }
        assert(self.tried < self.links.len());
        self.tried = self.tried + 1;
        self.outcomes = Ghost(after);
        match outcome {
            Ok(()) => {
                self.settled = match self.rule {
                    Rule::FirstSuccess => true,
                    Rule::FirstFailure => false,
                    Rule::Everything => false,
                };
                self.last_error = None;
            },
            Err(error) => {
                self.settled = match self.rule {
                    Rule::FirstSuccess => false,
                    Rule::FirstFailure => true,
                    Rule::Everything => false,
                };
                self.last_error = Some(error);
            },
        }
    }

    /// The overall result.
    pub fn finish(self) -> (result: Result<(), FanOutError<E>>)
        requires
            self.wf(),
        ensures
            result == verdict(self.rule(), self.outcomes()),
    {
        proof {
            if self.outcomes@.len() > 0 {
                lemma_push_outcome(self.outcomes@.drop_last(), self.outcomes@.last());
                assert(self.outcomes@.drop_last().push(self.outcomes@.last()) =~= self.outcomes@);
            }
        }
        match self.rule {
            Rule::Everything => Ok(()),
            Rule::FirstSuccess => if self.settled {
                Ok(())
            } else {
                match self.last_error {
                    Some(error) => Err(FanOutError::Link(error)),
                    None => Err(FanOutError::NoLinks),
                }
            },
            Rule::FirstFailure => match self.last_error {
                Some(error) => Err(FanOutError::Link(error)),
                None => Ok(()),
            },
        }
    }
}

proof fn lemma_push_outcome<E>(before: Seq<Result<(), E>>, outcome: Result<(), E>)
    ensures
        any_ok(before.push(outcome)) <==> any_ok(before) || outcome is Ok,
        any_err(before.push(outcome)) <==> any_err(before) || outcome is Err,
{
    let after = before.push(outcome);
    assert(after[before.len() as int] == outcome);
    if any_ok(before) {
        let i = choose|i: int| 0 <= i < before.len() && (#[trigger] before[i]) is Ok;
        assert(after[i] is Ok);
    }
    if any_err(before) {
        let i = choose|i: int| 0 <= i < before.len() && (#[trigger] before[i]) is Err;
        assert(after[i] is Err);
    }
    if any_ok(after) {
        let i = choose|i: int| 0 <= i < after.len() && (#[trigger] after[i]) is Ok;
        assert(i < before.len() ==> before[i] is Ok);
    }
    if any_err(after) {
        let i = choose|i: int| 0 <= i < after.len() && (#[trigger] after[i]) is Err;
        assert(i < before.len() ==> before[i] is Err);
    }
}

/// A run that looks for the first success and is over has either succeeded or
/// tried every link in vain; only the last link tried can have succeeded.
pub proof fn law_first_success<T, E>(run: FanOut<T, E>)
    requires
        run.wf(),
        run.rule() == Rule::FirstSuccess,
        !run.pending(),
    ensures
        verdict(run.rule(), run.outcomes()) is Ok <==> any_ok(run.outcomes()),
        verdict(run.rule(), run.outcomes()) is Err ==> run.outcomes().len() == run.links().len(),
        verdict(run.rule(), run.outcomes()) == Err::<(), FanOutError<E>>(FanOutError::NoLinks)
            <==> run.links().len() == 0,
        run.outcomes().len() > 0 ==> !any_ok(run.outcomes().drop_last()),
{
}

/// A run that stops at the first failure and is over has succeeded exactly
/// when it worked on every link.
pub proof fn law_first_failure<T, E>(run: FanOut<T, E>)
    requires
        run.wf(),
        run.rule() == Rule::FirstFailure,
        !run.pending(),
    ensures
        verdict(run.rule(), run.outcomes()) is Ok <==> run.outcomes().len() == run.links().len()
            && !any_err(run.outcomes()),
        verdict(run.rule(), run.outcomes()) is Err ==> {
            &&& run.outcomes().last() is Err
            &&& !any_err(run.outcomes().drop_last())
        },
{
    if run.outcomes().len() > 0 {
        let before = run.outcomes().drop_last();
        lemma_push_outcome(before, run.outcomes().last());
        assert(before.push(run.outcomes().last()) =~= run.outcomes());
    }
}

/// A run that minds no failure and is over has tried every link.
pub proof fn law_everything<T, E>(run: FanOut<T, E>)
    requires
        run.wf(),
        run.rule() == Rule::Everything,
        !run.pending(),
    ensures
        run.outcomes().len() == run.links().len(),
        verdict(run.rule(), run.outcomes()) is Ok,
{
}

/// A run that has just started has all its links before it.
pub proof fn law_start<T, E>(run: FanOut<T, E>, rule: Rule, links: Seq<Arc<T>>)
    requires
        run.is_start(rule, links),
    ensures
        run.wf(),
        run.rule() == rule,
        run.links() == links,
        run.outcomes().len() == 0,
        run.pending() <==> links.len() > 0,
{
}

/// A run goes on to the next link exactly as long as there is one and the rule
/// does not end it: a success ends a search for one, a failure ends a run that
/// is to work everywhere, and nothing ends a run that minds no failure.
pub proof fn law_when_a_run_goes_on<T, E>(run: FanOut<T, E>)
    requires
        run.wf(),
    ensures
        run.rule() == Rule::Everything ==> (run.pending() <==> run.outcomes().len()
            < run.links().len()),
        run.rule() == Rule::FirstSuccess ==> (run.pending() <==> {
            &&& run.outcomes().len() < run.links().len()
            &&& forall|i: int|
                0 <= i < run.outcomes().len() ==> (#[trigger] run.outcomes()[i]) is Err
        }),
        run.rule() == Rule::FirstFailure ==> (run.pending() <==> {
            &&& run.outcomes().len() < run.links().len()
            &&& forall|i: int|
                0 <= i < run.outcomes().len() ==> (#[trigger] run.outcomes()[i]) is Ok
        }),
{
}

/// The result of a run that is over: with nothing to mind it is a success; a
/// search succeeds where one link did, and else fails as the last link did, or
/// for want of links; a run that is to work everywhere succeeds where every
/// link did, and else fails as the link did that ended it.
pub proof fn law_what_comes_of_a_run<T, E>(run: FanOut<T, E>)
    requires
        run.wf(),
        !run.pending(),
    ensures
        ({
            let outcomes = run.outcomes();
            let result = verdict(run.rule(), outcomes);
            &&& run.rule() == Rule::Everything ==> result is Ok
            &&& run.rule() == Rule::FirstSuccess ==> {
                &&& result is Ok <==> exists|i: int|
                    0 <= i < outcomes.len() && (#[trigger] outcomes[i]) is Ok
                &&& result matches Err(FanOutError::NoLinks) ==> run.links().len() == 0
                &&& result matches Err(FanOutError::Link(error)) ==> {
                    &&& outcomes.len() == run.links().len()
                    &&& outcomes.len() > 0
                    &&& outcomes.last() == Err::<(), E>(error)
                }
            }
            &&& run.rule() == Rule::FirstFailure ==> {
                &&& result is Ok <==> {
                    &&& outcomes.len() == run.links().len()
                    &&& forall|i: int|
                        0 <= i < outcomes.len() ==> (#[trigger] outcomes[i]) is Ok
                }
                &&& result is Err ==> {
                    &&& result->Err_0 is Link
                    &&& outcomes.len() > 0
                    &&& outcomes.last() == Err::<(), E>(result->Err_0->Link_0)
                }
            }
        }),
{
    let outcomes = run.outcomes();
    if outcomes.len() > 0 {
        let before = outcomes.drop_last();
        lemma_push_outcome(before, outcomes.last());
        assert(before.push(outcomes.last()) =~= outcomes);
        assert(outcomes[outcomes.len() - 1] == outcomes.last());
    }
}

} // verus!
