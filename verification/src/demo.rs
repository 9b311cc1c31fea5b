//! The demo of the daemon: it takes a composite lock, holds it and gives it back,
//! again and again.
//!
//! [`Demo::step`] decides; whoever runs the demo does what it says and tells it what
//! came of that.
use vstd::prelude::*;

use crate::composite::{
    has_empty_key, is_canonical, key_views, Composite, CompositeError, CompositeView, Progress,
    MAX_COMPOSITE_KEYS,
};
use crate::types::{Fence, LockId};

verus! {

/// How long an attempt may take, in nanoseconds. One that stalls is given up and made
/// again, rather than waited for without end.
pub const DEMO_ATTEMPT: u64 = 8_000_000_000;

/// What the demo is at.
#[derive(Debug, Clone, Copy, PartialEq, Eq)]
pub enum DemoStage {
    /// Some key is asked for.
    Waiting,
    /// Every key is held.
    Holding,
    /// Every key was given back, or nothing was asked for yet.
    Resting,
}

/// Something that the demo is told.
#[derive(Debug, Clone)]
pub enum DemoEvent {
    /// The node has acquired a lock, this many nanoseconds into the attempt.
    Acquired(LockId, Fence, u64),
    /// The wait is over.
    TimedOut,
    /// The pause, for which the keys are held or rested from, is over.
    Woke,
}

/// [`DemoEvent`] with its lock as text.
#[verifier::ext_equal]
pub enum DemoEventView {
    Acquired(Seq<char>, Fence, u64),
    TimedOut,
    Woke,
}

impl View for DemoEvent {
    type V = DemoEventView;

    open spec fn view(&self) -> DemoEventView {
        match *self {
            DemoEvent::Acquired(lock, fence, elapsed) => DemoEventView::Acquired(
                lock@,
                fence,
                elapsed,
            ),
            DemoEvent::TimedOut => DemoEventView::TimedOut,
            DemoEvent::Woke => DemoEventView::Woke,
        }
    }
}

/// What the demo does once it has asked.
#[derive(Debug, Clone)]
pub enum DemoNext {
    /// Nothing: it was told something that it does not wait for.
    Nothing,
    /// Wait for an acquisition, for so many nanoseconds at most.
    Wait(u64),
    /// Hold the keys for a while.
    Hold,
    /// Release these keys, one after the other, forget what was acquired, and rest.
    GiveBack(Vec<LockId>),
}

/// [`DemoNext`] with its keys as text.
#[verifier::ext_equal]
pub enum DemoNextView {
    Nothing,
    Wait(u64),
    Hold,
    GiveBack(Seq<Seq<char>>),
}

impl View for DemoNext {
    type V = DemoNextView;

    open spec fn view(&self) -> DemoNextView {
        match *self {
            DemoNext::Nothing => DemoNextView::Nothing,
            DemoNext::Wait(left) => DemoNextView::Wait(left),
            DemoNext::Hold => DemoNextView::Hold,
            DemoNext::GiveBack(keys) => DemoNextView::GiveBack(key_views(keys@)),
        }
    }
}

/// What the demo does: it asks for a key, if there is one to ask for, and goes on.
#[derive(Debug, Clone)]
pub struct DemoAction {
    pub ask: Option<LockId>,
    pub go_on: DemoNext,
}

/// [`DemoAction`] with its keys as text.
#[verifier::ext_equal]
pub struct DemoActionView {
    pub ask: Option<Seq<char>>,
    pub go_on: DemoNextView,
}

impl View for DemoAction {
    type V = DemoActionView;

    open spec fn view(&self) -> DemoActionView {
        DemoActionView {
            ask: match self.ask {
                Some(key) => Some(key@),
                None => None,
            },
            go_on: self.go_on@,
        }
    }
}

/// The content of a [`Demo`].
#[verifier::ext_equal]
pub struct DemoView {
    pub stage: DemoStage,
    pub composite: CompositeView,
}

impl DemoView {
    /// The composite is one, and the keys are held while the demo says so.
    pub open spec fn wf(self) -> bool {
        &&& self.composite.wf()
        &&& self.stage is Waiting ==> !self.composite.is_held()
        &&& self.stage is Holding ==> self.composite.is_held()
    }

    /// Everything is given back.
    pub open spec fn give_back(self, ask: Option<Seq<char>>) -> (DemoView, DemoActionView) {
        (
            DemoView { stage: DemoStage::Resting, ..self },
            DemoActionView { ask, go_on: DemoNextView::GiveBack(self.composite.keys) },
        )
    }

    /// A lock was acquired: the next key is asked for, if that was the one waited for;
    /// once all are held they are, and an attempt that has taken too long is given up.
    pub open spec fn acquired(self, lock: Seq<char>, fence: Fence, elapsed: u64) -> (
        DemoView,
        DemoActionView,
    ) {
        let next = DemoView { composite: self.composite.on_acquired(lock, fence), ..self };
        let ask = if self.composite.pending() == Some(lock) {
            next.composite.pending()
        } else {
            None
        };
        if next.composite.is_held() {
            (
                DemoView { stage: DemoStage::Holding, ..next },
                DemoActionView { ask, go_on: DemoNextView::Hold },
            )
        } else if elapsed >= DEMO_ATTEMPT {
            next.give_back(ask)
        } else {
            (
                next,
                DemoActionView { ask, go_on: DemoNextView::Wait((DEMO_ATTEMPT - elapsed) as u64) },
            )
        }
    }

    /// A new attempt: the first key is asked for.
    pub open spec fn begin(self) -> (DemoView, DemoActionView) {
        let composite = CompositeView { fences: Seq::empty(), ..self.composite };
        (
            DemoView { stage: DemoStage::Waiting, composite },
            DemoActionView { ask: composite.pending(), go_on: DemoNextView::Wait(DEMO_ATTEMPT) },
        )
    }

    /// What the demo does when it is told something.
    pub open spec fn step(self, event: DemoEventView) -> (DemoView, DemoActionView) {
        match (self.stage, event) {
            (DemoStage::Waiting, DemoEventView::Acquired(lock, fence, elapsed)) => self.acquired(
                lock,
                fence,
                elapsed,
            ),
            (DemoStage::Waiting, DemoEventView::TimedOut) => self.give_back(None),
            (DemoStage::Holding, DemoEventView::Woke) => self.give_back(None),
            (DemoStage::Resting, DemoEventView::Woke) => self.begin(),
            _ => (self, DemoActionView { ask: None, go_on: DemoNextView::Nothing }),
        }
    }
}

/// The demo.
#[derive(Debug, Clone)]
pub struct Demo {
    stage: DemoStage,
    composite: Composite,
}

impl View for Demo {
    type V = DemoView;

    closed spec fn view(&self) -> DemoView {
        DemoView { stage: self.stage, composite: self.composite@ }
    }
}

impl Demo {
    /// A demo that takes `keys` as one; it rests until it is woken.
    pub fn new(keys: &[String]) -> (r: Result<Demo, CompositeError>)
        ensures
            match r {
                Err(CompositeError::EmptyKey) => has_empty_key(key_views(keys@)),
                Err(CompositeError::Empty) => keys@.len() == 0,
                Err(CompositeError::TooMany(n)) => {
                    &&& !has_empty_key(key_views(keys@))
                    &&& n == key_views(keys@).to_set().len()
                    &&& n > MAX_COMPOSITE_KEYS
                },
                Ok(d) => {
                    &&& d@.wf()
                    &&& keys@.len() > 0
                    &&& !has_empty_key(key_views(keys@))
                    &&& key_views(keys@).to_set().len() <= MAX_COMPOSITE_KEYS
                    &&& d@.stage is Resting
                    &&& is_canonical(d@.composite.keys, key_views(keys@))
                    &&& d@.composite.fences.len() == 0
                },
            },
    {
        match Composite::new(keys) {
            Ok(composite) => Ok(Demo { stage: DemoStage::Resting, composite }),
            Err(e) => Err(e),
        }
    }

    /// The keys and the tokens they are held with.
    pub fn composite(&self) -> (c: &Composite)
        ensures
            c@ == self@.composite,
    {
        &self.composite
    }

    /// Give every key back.
    fn give_back(&mut self, ask: Option<LockId>) -> (action: DemoAction)
        requires
            old(self)@.wf(),
        ensures
            final(self)@.wf(),
            (final(self)@, action@) == old(self)@.give_back(
                match ask {
                    Some(key) => Some(key@),
                    None => None,
                },
            ),
    {
        let mut keys: Vec<LockId> = Vec::new();
        let all = self.composite.keys();
        let mut i: usize = 0;
        while i < all.len()
            invariant
                i <= all@.len(),
                keys@.len() == i,
                forall|j: int| 0 <= j < i ==> (#[trigger] keys@[j])@ == all@[j]@,
            decreases all@.len() - i,
        {
            keys.push(all[i].clone());
            i += 1;
        }
        assert(key_views(keys@) =~= key_views(all@));
        self.stage = DemoStage::Resting;
        DemoAction { ask, go_on: DemoNext::GiveBack(keys) }
    }

    /// What to do when something has happened.
    pub fn step(&mut self, event: DemoEvent) -> (action: DemoAction)
        requires
            old(self)@.wf(),
        ensures
            final(self)@.wf(),
            (final(self)@, action@) == old(self)@.step(event@),
    {
        match (self.stage, event) {
            (DemoStage::Waiting, DemoEvent::Acquired(lock, fence, elapsed)) => {
                let ask: Option<LockId> = match self.composite.on_acquired(lock.as_str(), fence) {
                    Progress::Next(key) => Some(key),
                    _ => None,
                };
                if self.composite.is_held() {
                    self.stage = DemoStage::Holding;
                    DemoAction { ask, go_on: DemoNext::Hold }
                } else if elapsed >= DEMO_ATTEMPT {
                    self.give_back(ask)
                } else {
                    DemoAction { ask, go_on: DemoNext::Wait(DEMO_ATTEMPT - elapsed) }
                }
            },
            (DemoStage::Waiting, DemoEvent::TimedOut) => self.give_back(None),
            (DemoStage::Holding, DemoEvent::Woke) => self.give_back(None),
            (DemoStage::Resting, DemoEvent::Woke) => {
                self.composite.restart();
                self.stage = DemoStage::Waiting;
                let ask: Option<LockId> = match self.composite.pending() {
                    Some(key) => Some(key.clone()),
                    None => None,
                };
                DemoAction { ask, go_on: DemoNext::Wait(DEMO_ATTEMPT) }
            },
            _ => DemoAction { ask: None, go_on: DemoNext::Nothing },
        }
    }
}

/// **Attempts are bounded.** After [`DEMO_ATTEMPT`] an attempt either holds every key or
/// is given up, whatever is acquired then; and whatever ends an attempt, every key is given
/// back, in order.
pub proof fn law_attempts_are_bounded(d: DemoView, event: DemoEventView)
    requires
        d.wf(),
    ensures
        d.stage is Waiting && (event is TimedOut || (event matches DemoEventView::Acquired(
            _,
            _,
            elapsed,
        ) && elapsed >= DEMO_ATTEMPT)) ==> d.step(event).0.stage !is Waiting,
        !(d.stage is Resting) && d.step(event).0.stage is Resting <==> d.step(event).1.go_on
            == DemoNextView::GiveBack(d.composite.keys),
        d.step(event).1.go_on is Hold ==> d.step(event).0.composite.is_held(),
{
}

} // verus!
