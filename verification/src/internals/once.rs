//! One-time initialisation that can be repeated after a fork.

use vstd::prelude::*;

verus! {

/// How far a one-time initialisation has come.
#[derive(Clone, Copy, Debug, PartialEq, Eq, Structural)]
pub enum Progress {
    /// Nobody has started.
    New,
    /// Somebody is running the initialiser.
    Running,
    /// The initialiser has returned.
    Done,
}

/// Where one of several callers stands in its call.
#[derive(Clone, Copy, Debug, PartialEq, Eq, Structural)]
pub enum Caller {
    /// It is about to look whether the initialiser has returned.
    Calling,
    /// It is about to claim the initialisation.
    Claiming,
    /// It is running its initialiser.
    Running,
    /// It waits for an initialiser to return.
    Waiting,
    /// Its call has returned.
    Returned,
}

/// One step of a caller, which nothing interrupts: how far the initialisation is then, and where the
/// caller stands.
pub open spec fn caller_step(progress: Progress, at: Caller) -> (Progress, Caller) {
    match at {
        Caller::Calling => if progress == Progress::Done {
            (progress, Caller::Returned)
        } else {
            (progress, Caller::Claiming)
        },
        Caller::Claiming => if progress == Progress::New {
            (Progress::Running, Caller::Running)
        } else {
            (progress, Caller::Waiting)
        },
        Caller::Running => (Progress::Done, Caller::Waiting),
        Caller::Waiting => if progress == Progress::Done {
            (progress, Caller::Returned)
        } else {
            (progress, Caller::Waiting)
        },
        Caller::Returned => (progress, Caller::Returned),
    }
}

/// Runs an initialiser at most once.
pub struct Once {
    state: Progress,
}

impl Once {
    pub closed spec fn progress(&self) -> Progress {
        self.state
    }

    pub fn new() -> (r: Self)
        ensures
            r.progress() == Progress::New,
    {
        Once { state: Progress::New }
    }

    /// Runs `f` unless it ran before. While somebody else is still running it, there would be
    /// nothing to do but wait; callers that share this take their steps with `advance`.
    pub fn call_once<F: FnOnce()>(&mut self, f: F)
        requires
            old(self).progress() != Progress::Running,
            old(self).progress() == Progress::New ==> call_requires(f, ()),
        ensures
            final(self).progress() == Progress::Done,
            old(self).progress() == Progress::New ==> call_ensures(f, (), ()),
    {
        if matches!(self.state, Progress::Done) {
            return;
        }
        self.start(f);
    }

    fn start<F: FnOnce()>(&mut self, f: F)
        requires
            old(self).progress() == Progress::New,
            call_requires(f, ()),
        ensures
            final(self).progress() == Progress::Done,
            call_ensures(f, (), ()),
    {
        self.state = Progress::Running;
        f();
        self.state = Progress::Done;
    }

    /// Claims the right to initialise; only the first caller gets it.
    pub fn begin(&mut self) -> (r: bool)
        ensures
            r <==> old(self).progress() == Progress::New,
            final(self).progress() == if r {
                Progress::Running
            } else {
                old(self).progress()
            },
    {
        if matches!(self.state, Progress::New) {
            self.state = Progress::Running;
            true
        } else {
            false
        }
    }

    /// Ends an initialisation that was claimed.
    pub fn finish(&mut self)
        requires
            old(self).progress() == Progress::Running,
        ensures
            final(self).progress() == Progress::Done,
    {
        self.state = Progress::Done;
    }

    /// Takes the next step of a caller that shares this with others. A caller that gets to
    /// `Running` runs its initialiser before its next step.
    pub fn advance(&mut self, at: Caller) -> (r: Caller)
        requires
            at is Running ==> old(self).progress() == Progress::Running,
        ensures
            (final(self).progress(), r) == caller_step(old(self).progress(), at),
    {
        match at {
            Caller::Calling => if matches!(self.state, Progress::Done) {
                Caller::Returned
            } else {
                Caller::Claiming
            },
            Caller::Claiming => if self.begin() {
                Caller::Running
            } else {
                Caller::Waiting
            },
            Caller::Running => {
                self.finish();
                Caller::Waiting
            },
            Caller::Waiting => if matches!(self.state, Progress::Done) {
                Caller::Returned
            } else {
                Caller::Waiting
            },
            Caller::Returned => Caller::Returned,
        }
    }

    /// Makes the initialiser run again in a forked process.
    pub fn reset_at_fork_oncelock(&mut self)
        ensures
            final(self).progress() == Progress::New,
    {
        self.state = Progress::New;
    }
}

/// Several callers of one `Once`.
pub struct Callers {
    pub progress: Progress,
    /// Where each caller stands.
    pub at: Seq<Caller>,
    /// The callers whose initialisers were started.
    pub started: Seq<int>,
}

impl Callers {
    /// Nobody has done anything yet.
    pub open spec fn fresh(&self) -> bool {
        &&& self.progress == Progress::New
        &&& forall|c: int| 0 <= c < self.at.len() ==> (#[trigger] self.at[c]) is Calling
        &&& self.started.len() == 0
    }

    /// `after` is what follows a step of caller `c`.
    pub open spec fn stepped(&self, after: &Self, c: int) -> bool {
        let (progress, at) = caller_step(self.progress, self.at[c]);
        &&& 0 <= c < self.at.len()
        &&& after.progress == progress
        &&& after.at == self.at.update(c, at)
        &&& after.started == if self.at[c] is Claiming && at is Running {
            self.started.push(c)
        } else {
            self.started
        }
    }

    /// Who is running is the only one that was started, and nobody has returned before the
    /// initialiser has.
    pub open spec fn sound(&self) -> bool {
        &&& self.started.len() <= 1
        &&& self.started.len() == 0 <==> self.progress == Progress::New
        &&& forall|c: int|
            0 <= c < self.at.len() && (#[trigger] self.at[c]) is Running ==> self.progress
                == Progress::Running && self.started[0] == c
        &&& forall|c: int|
            0 <= c < self.at.len() && (#[trigger] self.at[c]) is Returned ==> self.progress
                == Progress::Done
    }
}

/// Some step leads from each state of `trace` to the next one.
pub open spec fn steps(trace: Seq<Callers>) -> bool {
    forall|k: int| 0 <= k && k + 1 < trace.len() ==> #[trigger] step_at(trace, k)
}

/// Some caller took the step from state `k` of `trace` to the next one.
pub open spec fn step_at(trace: Seq<Callers>, k: int) -> bool {
    exists|c: int| #[trigger] trace[k].stepped(&trace[k + 1], c)
}

/// However the steps of several callers follow each other, at most one of their initialisers is
/// started; once any of the calls has returned, exactly one was, and nobody is running it any more.
pub proof fn law_one_initialiser_runs(trace: Seq<Callers>, k: int)
    requires
        0 <= k < trace.len(),
        trace[0].fresh(),
        steps(trace),
    ensures
        trace[k].started.len() <= 1,
        (exists|c: int| 0 <= c < trace[k].at.len() && (#[trigger] trace[k].at[c]) is Returned) ==> {
            &&& trace[k].started.len() == 1
            &&& forall|c: int|
                0 <= c < trace[k].at.len() ==> !((#[trigger] trace[k].at[c]) is Running)
        },
{
    lemma_sound(trace, k);
}

proof fn lemma_sound(trace: Seq<Callers>, k: int)
    requires
        0 <= k < trace.len(),
        trace[0].fresh(),
        steps(trace),
    ensures
        trace[k].sound(),
    decreases k,
{
    if k > 0 {
        lemma_sound(trace, k - 1);
        let a = trace[k - 1];
        let b = trace[k];
        assert(step_at(trace, k - 1));
        let c = choose|c: int| #[trigger] a.stepped(&b, c);
        assert forall|d: int| 0 <= d < b.at.len() && (#[trigger] b.at[d]) is Running implies
            b.progress == Progress::Running && b.started[0] == d by {
            if d != c {
                assert(a.at[d] is Running);
                if a.at[c] is Running {
                    assert(a.started[0] == c);
                }
            }
        }
        assert forall|d: int| 0 <= d < b.at.len() && (#[trigger] b.at[d]) is Returned implies
            b.progress == Progress::Done by {
            if d != c {
                assert(a.at[d] is Returned);
            }
        }
        if a.at[c] is Running {
            assert(a.progress == Progress::Running);
        }
    }
}

/// Nothing that was done is undone. The first to claim the initialisation runs it, and nobody claims
/// it after; who runs it ends it; once it has ended, whoever calls or waits returns.
pub proof fn law_callers_get_through(progress: Progress, at: Caller)
    ensures
        progress == Progress::Done ==> caller_step(progress, at).0 == Progress::Done || at is Running,
        progress == Progress::Running ==> caller_step(progress, at).0 != Progress::New,
        progress == Progress::New && at is Claiming ==> caller_step(progress, at) == (
            Progress::Running,
            Caller::Running,
        ),
        caller_step(progress, at).1 is Running ==> progress == Progress::New && at is Claiming,
        at is Running ==> caller_step(progress, at).0 == Progress::Done,
        progress == Progress::Done && (at is Calling || at is Waiting) ==> caller_step(
            progress,
            at,
        ).1 is Returned,
        caller_step(progress, at).1 is Returned ==> progress == Progress::Done || at is Returned,
        at is Calling && progress != Progress::Done ==> caller_step(progress, at) == (
            progress,
            Caller::Claiming,
        ),
{
}

} // verus!
