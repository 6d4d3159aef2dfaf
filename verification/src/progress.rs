//! Progress and cancellation of a long run.
use vstd::prelude::*;

use crate::ir;

verus! {

/// The part of the pipeline that is at work.
#[derive(Clone, Copy, Debug, PartialEq, Eq, Structural)]
pub enum Phase {
    Compose,
}

#[derive(Clone, Copy, Debug, PartialEq, Eq, Structural)]
pub enum Error {
    /// The run was cancelled.
    Cancelled,
}

/// What a piece of work made.
pub enum Made {
    /// The shape of a layer, where it has one.
    Layer(Option<ir::ShapeView>),
    /// A whole document.
    Document(ir::DocView),
    /// The shapes of all layers, or nothing where the run was found cancelled.
    Layers(Option<Seq<Option<ir::ShapeView>>>),
}

/// What work can make.
pub trait Product {
    /// What `self` is. Ghost: compiled code never calls it.
    spec fn made(&self) -> Made;
}

/// What passes between a run and its surroundings, and what it makes.
pub enum Event {
    /// The run asked whether it is cancelled, and was told.
    Check { cancelled: bool },
    /// The run told that `done` parts of `total` are done.
    Report { phase: Phase, done: usize, total: usize },
    /// The run did the work of this part, which made this.
    Work { part: usize, made: Made },
}

/// Whether `asks` and `tells` bear out the event: what was told of a check is an
/// answer of `asks`, and what was reported was put to `tells`.
pub open spec fn occurred<C: Fn() -> bool, R: Fn(Phase, usize, usize)>(
    asks: C,
    tells: R,
    event: Event,
) -> bool {
    match event {
        Event::Check { cancelled } => asks.ensures((), cancelled),
        Event::Report { phase, done, total } => tells.ensures((phase, done, total), ()),
        Event::Work { .. } => true,
    }
}

/// Whether `asks` and `tells` bear out all of `trace` from the event `from` on.
pub open spec fn borne_out<C: Fn() -> bool, R: Fn(Phase, usize, usize)>(
    asks: C,
    tells: R,
    trace: Seq<Event>,
    from: nat,
) -> bool {
    forall|i: int| from <= i < trace.len() ==> occurred(asks, tells, #[trigger] trace[i])
}

/// Whether `asks` has no other answer than that the run is cancelled.
pub open spec fn surely_cancelled<C: Fn() -> bool>(asks: C) -> bool {
    forall|b: bool| #[trigger] asks.ensures((), b) ==> b
}

/// How a run asks whether it is cancelled, and tells how far it is.
pub struct Ctx<C, R> {
    cancelled: C,
    sink: R,
    trace: Ghost<Seq<Event>>,
}

impl<C: Fn() -> bool, R: Fn(Phase, usize, usize)> Ctx<C, R> {
    pub closed spec fn asks(&self) -> C {
        self.cancelled
    }

    pub closed spec fn tells(&self) -> R {
        self.sink
    }

    /// What has passed so far.
    pub closed spec fn trace(&self) -> Seq<Event> {
        self.trace@
    }

    /// Whether the question and every report can be put.
    pub open spec fn usable(&self) -> bool {
        &&& self.asks().requires(())
        &&& forall|phase: Phase, done: usize, total: usize| #[trigger]
            self.tells().requires((phase, done, total))
    }

    /// A run that asks `cancelled` and tells `sink`.
    pub fn new(cancelled: C, sink: R) -> (r: Self)
        ensures
            r.asks() == cancelled,
            r.tells() == sink,
            r.trace() == Seq::<Event>::empty(),
    {
        Ctx { cancelled, sink, trace: Ghost(Seq::empty()) }
    }

    /// Fail where the run is cancelled.
    pub fn check(&mut self) -> (r: Result<(), Error>)
        requires
            old(self).usable(),
        ensures
            final(self).asks() == old(self).asks(),
            final(self).tells() == old(self).tells(),
            old(self).asks().ensures((), r is Err),
            final(self).trace() == old(self).trace().push(Event::Check { cancelled: r is Err }),
    {
        let cancelled = (self.cancelled)();
        proof {
            self.trace@ = self.trace@.push(Event::Check { cancelled });
        }
        if cancelled {
            Err(Error::Cancelled)
        } else {
            Ok(())
        }
    }

    /// Do the work `w` of a part; it is given what tells whether the run is
    /// cancelled. What it makes is returned and kept in the trace.
    pub fn work<T: Product, W: FnOnce(&C) -> T>(&mut self, part: usize, w: W) -> (r: T)
        requires
            w.requires((&old(self).asks(),)),
        ensures
            w.ensures((&old(self).asks(),), r),
            final(self).asks() == old(self).asks(),
            final(self).tells() == old(self).tells(),
            final(self).trace() == old(self).trace().push(Event::Work { part, made: r.made() }),
    {
        assert(self.asks() == self.cancelled);
        let r = w(&self.cancelled);
        proof {
            self.trace@ = self.trace@.push(Event::Work { part, made: r.made() });
        }
        r
    }

    /// Tell that `done` parts of `total` are done.
    pub fn report(&mut self, phase: Phase, done: usize, total: usize)
        requires
            old(self).usable(),
        ensures
            final(self).asks() == old(self).asks(),
            final(self).tells() == old(self).tells(),
            old(self).tells().ensures((phase, done, total), ()),
            final(self).trace() == old(self).trace().push(Event::Report { phase, done, total }),
    {
        assert(self.tells() == self.sink);
        (self.sink)(phase, done, total);
        proof {
            self.trace@ = self.trace@.push(Event::Report { phase, done, total });
        }
    }
}

} // verus!
