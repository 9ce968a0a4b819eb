//! Scheduled decoding: a token that meets experts that are not resident stops,
//! says which it needs, and goes on from the same place once they are there.

use vstd::prelude::*;

verus! {

/// A token that has stopped in a layer: the experts it needs, and what it takes to
/// go on.
#[derive(Debug)]
pub struct TokenPause<T> {
    pub layer: usize,
    pub experts: Vec<u32>,
    pub x: Vec<T>,
    pub inj: Vec<T>,
    pub stream: Vec<T>,
    pub token: usize,
    pub pos: usize,
}

/// What comes of a step: logits, or the experts that are needed first.
#[derive(Debug)]
pub enum SchedForward<T> {
    Logits(Vec<T>),
    NeedExperts { layer: usize, experts: Vec<u32> },
}

/// What scheduled decoding remembers between calls.
#[derive(Debug)]
pub struct Scheduler<T> {
    pub mode: bool,
    /// The experts that the layer just run is missing.
    pub blocked: Option<Vec<u32>>,
    pub pause: Option<TokenPause<T>>,
}

impl<T> Scheduler<T> {
    /// Nothing is scheduled.
    pub fn new() -> (r: Scheduler<T>)
        ensures
            !r.mode && r.blocked is None && r.pause is None,
    {
        Scheduler { mode: false, blocked: None, pause: None }
    }

    /// Turns scheduling on.
    pub fn enable_sched_mode(&mut self)
        ensures
            final(self).mode,
            final(self).blocked == old(self).blocked,
            final(self).pause == old(self).pause,
    {
        self.mode = true;
    }

    /// Holds a layer up for the experts it is missing: where scheduling is on, the
    /// model is a package and any are missing.
    pub fn block(&mut self, package: bool, cold: Vec<u32>) -> (r: bool)
        ensures
            r == (old(self).mode && package && cold@.len() > 0),
            r ==> final(self).blocked == Some(cold),
            !r ==> final(self).blocked == old(self).blocked,
            final(self).mode == old(self).mode,
            final(self).pause == old(self).pause,
    {
        if self.mode && package && cold.len() > 0 {
            self.blocked = Some(cold);
            true
        } else {
            false
        }
    }

    /// Stops a token in a layer that was held up: what it needs to go on is kept.
    pub fn pause_at(
        &mut self,
        layer: usize,
        x: Vec<T>,
        inj: Vec<T>,
        stream: Vec<T>,
        token: usize,
        pos: usize,
    ) -> (r: bool)
        ensures
            r == (old(self).blocked is Some),
            r ==> *final(self) == stopped(
                *old(self),
                TokenPause { layer, experts: old(self).blocked->0, x, inj, stream, token, pos },
            ),
            !r ==> *final(self) == *old(self),
    {
        match self.blocked.take() {
            Some(experts) => {
                self.pause = Some(TokenPause { layer, experts, x, inj, stream, token, pos });
                true
            },
            None => false,
        }
    }

    /// Stops a token again that was about to go on, in the same layer and with the same
    /// state, for the experts that are missing now.
    pub fn pause_again(&mut self, pause: TokenPause<T>) -> (r: Option<TokenPause<T>>)
        ensures
            match old(self).blocked {
                Some(experts) => r is None && *final(self) == stopped(
                    *old(self),
                    TokenPause { experts, ..pause },
                ),
                None => r == Some(pause) && *final(self) == *old(self),
            },
    {
        match self.blocked.take() {
            Some(experts) => {
                self.pause = Some(
                    TokenPause {
                        layer: pause.layer,
                        experts,
                        x: pause.x,
                        inj: pause.inj,
                        stream: pause.stream,
                        token: pause.token,
                        pos: pause.pos,
                    },
                );
                None
            },
            None => Some(pause),
        }
    }

    /// The token to go on with: the one that has stopped, if it is this one. A token
    /// that is another than the one that has stopped is fed from the start, and the one
    /// that has stopped is forgotten.
    pub fn resume(&mut self, token: usize, pos: usize) -> (r: Option<TokenPause<T>>)
        ensures
            final(self).pause is None,
            final(self).mode == old(self).mode,
            final(self).blocked == old(self).blocked,
            r == resumed(*old(self), token, pos),
    {
        match self.pause.take() {
            Some(p) => if p.token == token && p.pos == pos {
                Some(p)
            } else {
                None
            },
            None => None,
        }
    }

    /// What a step answers: the experts that the token stopped for, or its logits.
    pub fn answer(&self, logits: Vec<T>) -> (r: SchedForward<T>)
        ensures
            match self.pause {
                Some(p) => r matches SchedForward::NeedExperts { layer, experts } && layer == p.layer
                    && experts@ == p.experts@,
                None => r == SchedForward::Logits(logits),
            },
    {
        match &self.pause {
            Some(p) => SchedForward::NeedExperts { layer: p.layer, experts: p.experts.clone() },
            None => SchedForward::Logits(logits),
        }
    }
}

/// The scheduler after a token has stopped.
pub open spec fn stopped<T>(s: Scheduler<T>, p: TokenPause<T>) -> Scheduler<T> {
    Scheduler { blocked: None, pause: Some(p), ..s }
}

/// The token that has stopped, if it is this one.
pub open spec fn resumed<T>(s: Scheduler<T>, token: usize, pos: usize) -> Option<TokenPause<T>> {
    match s.pause {
        Some(p) => if p.token == token && p.pos == pos {
            Some(p)
        } else {
            None
        },
        None => None,
    }
}

/// A token that has stopped goes on with exactly the state it stopped with, and no
/// other token does.
pub proof fn law_a_paused_token_goes_on_where_it_stopped<T>(
    s: Scheduler<T>,
    p: TokenPause<T>,
    token: usize,
    pos: usize,
)
    ensures
        resumed(stopped(s, p), p.token, p.pos) == Some(p),
        token != p.token || pos != p.pos ==> resumed(stopped(s, p), token, pos) is None,
{
}

} // verus!
