//! The sync session: a state machine driving confirm → pull → push.
//!
//! The session owns the decisions; performing the prompt, the pull and each
//! push is the embedding application's business. An empty plan completes at
//! once, a declined confirmation cancels before any store mutation, a failed
//! pull or push ends the session with its cause, and pushes that completed
//! before a failure stay pushed — the `completed` count reports how many.
//! `Done`, `Cancelled` and `Failed` are terminal: no step leaves them.

use vstd::prelude::*;

use crate::plan::TagSyncStatus;
use crate::text::{trim_ws, trim_ws_str};

verus! {

/// Why the tag store refused an operation.
#[derive(Copy, Clone, PartialEq, Eq, Structural, Debug)]
pub enum StoreFailure {
    RemoteUnavailable,
    AuthFailure,
}

/// How a session failed: the batch pull, or one push after `completed`
/// pushes had already succeeded.
#[derive(Copy, Clone, PartialEq, Eq, Structural, Debug)]
pub enum SyncFailure {
    PullFailed { cause: StoreFailure },
    PushFailed { cause: StoreFailure, completed: usize },
}

/// Where a session stands.
#[derive(Copy, Clone, PartialEq, Eq, Structural, Debug)]
pub enum SessionState {
    Idle,
    Diffed,
    AwaitingConfirmation,
    Pulling,
    Pushing,
    Done,
    Cancelled,
    Failed(SyncFailure),
}

/// A sync session over one computed plan. The plan is fixed for the life of
/// the session; `pushed` counts the per-tag pushes that have completed.
pub struct SyncSession {
    pub plan: TagSyncStatus,
    pub state: SessionState,
    pub pushed: usize,
}

impl SyncSession {
    /// The push counter never runs past the plan.
    pub open spec fn wf(self) -> bool {
        self.pushed <= self.plan.to_push@.len()
    }

    /// A plan with nothing to push and nothing to pull.
    pub open spec fn plan_empty(self) -> bool {
        self.plan.to_push@.len() == 0 && self.plan.to_pull@.len() == 0
    }

    /// No state a finished session can leave.
    pub open spec fn is_terminal(self) -> bool {
        self.state is Done || self.state is Cancelled || self.state is Failed
    }

    /// Opens a session over a computed plan.
    pub fn new(plan: TagSyncStatus) -> (s: SyncSession)
        ensures
            s.plan == plan,
            s.state is Idle,
            s.pushed == 0,
            s.wf(),
    {
        SyncSession { plan, state: SessionState::Idle, pushed: 0 }
    }

    /// Takes note of the computed diff: an empty plan is already done, with
    /// no prompt and no store call; anything else awaits presentation.
    pub fn note_plan(&mut self)
        requires
            old(self).state is Idle,
            old(self).wf(),
        ensures
            final(self).plan == old(self).plan,
            final(self).pushed == old(self).pushed,
            final(self).wf(),
            old(self).plan_empty() ==> final(self).state is Done,
            !old(self).plan_empty() ==> final(self).state is Diffed,
    {
        if self.plan.is_synced() {
            self.state = SessionState::Done;
        } else {
            self.state = SessionState::Diffed;
        }
    }

    /// The prompt went out; the session now blocks on the answer.
    pub fn issue_prompt(&mut self)
        requires
            old(self).state is Diffed,
            old(self).wf(),
        ensures
            final(self).plan == old(self).plan,
            final(self).pushed == old(self).pushed,
            final(self).wf(),
            final(self).state is AwaitingConfirmation,
    {
        self.state = SessionState::AwaitingConfirmation;
    }

    /// The user answered: affirmatively, on to pulling; anything else
    /// cancels the session before any store mutation.
    pub fn answer(&mut self, affirmative: bool)
        requires
            old(self).state is AwaitingConfirmation,
            old(self).wf(),
        ensures
            final(self).plan == old(self).plan,
            final(self).pushed == old(self).pushed,
            final(self).wf(),
            affirmative ==> final(self).state is Pulling,
            !affirmative ==> final(self).state is Cancelled,
    {
        if affirmative {
            self.state = SessionState::Pulling;
        } else {
            self.state = SessionState::Cancelled;
        }
    }

    /// The batch pull came back: on success the session moves to pushing;
    /// on failure it ends with the pull's cause.
    pub fn pull_result(&mut self, outcome: Result<(), StoreFailure>)
        requires
            old(self).state is Pulling,
            old(self).wf(),
        ensures
            final(self).plan == old(self).plan,
            final(self).pushed == old(self).pushed,
            final(self).wf(),
            outcome is Ok ==> final(self).state is Pushing,
            outcome matches Err(c) ==> final(self).state == SessionState::Failed(
                SyncFailure::PullFailed { cause: c },
            ),
    {
        match outcome {
            Ok(_) => {
                self.state = SessionState::Pushing;
            },
            Err(cause) => {
                self.state = SessionState::Failed(SyncFailure::PullFailed { cause });
            },
        }
    }

    /// The tag the next per-tag push should send, if any pushes remain.
    pub fn next_push(&self) -> (r: Option<&String>)
        requires
            self.state is Pushing,
            self.wf(),
        ensures
            match r {
                Some(t) => self.pushed < self.plan.to_push@.len() && t@
                    == self.plan.to_push@[self.pushed as int]@,
                None => self.pushed == self.plan.to_push@.len(),
            },
    {
        if self.pushed < self.plan.to_push.len() {
            Some(&self.plan.to_push[self.pushed])
        } else {
            None
        }
    }

    /// One per-tag push succeeded; the session stays in `Pushing` and the
    /// count moves on.
    pub fn push_succeeded(&mut self)
        requires
            old(self).state is Pushing,
            old(self).wf(),
            old(self).pushed < old(self).plan.to_push@.len(),
        ensures
            final(self).plan == old(self).plan,
            final(self).pushed == old(self).pushed + 1,
            final(self).wf(),
            final(self).state is Pushing,
    {
        let n = self.plan.to_push.len();
        assert(self.pushed < n);
        self.pushed = self.pushed + 1;
    }

    /// One per-tag push failed: the batch aborts, the session ends with the
    /// cause and with how many pushes had already completed — those tags
    /// stay pushed, there is no rollback.
    pub fn push_failed(&mut self, cause: StoreFailure)
        requires
            old(self).state is Pushing,
            old(self).wf(),
            old(self).pushed < old(self).plan.to_push@.len(),
        ensures
            final(self).plan == old(self).plan,
            final(self).pushed == old(self).pushed,
            final(self).wf(),
            final(self).state == SessionState::Failed(
                SyncFailure::PushFailed { cause, completed: old(self).pushed },
            ),
    {
        self.state = SessionState::Failed(SyncFailure::PushFailed { cause, completed: self.pushed });
    }

    /// Every push went through: the session is done.
    pub fn finish(&mut self)
        requires
            old(self).state is Pushing,
            old(self).wf(),
            old(self).pushed == old(self).plan.to_push@.len(),
        ensures
            final(self).plan == old(self).plan,
            final(self).pushed == old(self).pushed,
            final(self).wf(),
            final(self).state is Done,
    {
        self.state = SessionState::Done;
    }

    /// Is the session over?
    pub fn finished(&self) -> (r: bool)
        ensures
            r == self.is_terminal(),
    {
        match self.state {
            SessionState::Done => true,
            SessionState::Cancelled => true,
            SessionState::Failed(_) => true,
            _ => false,
        }
    }
}

/// The confirmation rule: an answer is affirmative exactly when it trims
/// (ASCII whitespace) to a single `y`, of either case; anything else, empty
/// input included, is negative.
pub fn is_affirmative(input: &str) -> (r: bool)
    ensures
        r == (trim_ws(input@) == seq!['y'] || trim_ws(input@) == seq!['Y']),
{
    let t = trim_ws_str(input);
    let len = t.as_str().unicode_len();
    if len != 1 {
        proof {
            assert(trim_ws(input@).len() != 1);
        }
        return false;
    }
    let c = t.as_str().get_char(0);
    proof {
        if c == 'y' {
            assert(t@ =~= seq!['y']);
        }
        if c == 'Y' {
            assert(t@ =~= seq!['Y']);
        }
        if c != 'y' && c != 'Y' {
            assert(trim_ws(input@)[0] == c);
        }
    }
    c == 'y' || c == 'Y'
}

} // verus!
