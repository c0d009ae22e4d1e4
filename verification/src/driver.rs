//! The ring driver: what to ask of the ring next, decided from what it
//! answered last.
//!
//! The driver owns the read requests and performs no I/O. Its caller creates
//! the ring, submits the reads, waits for their completions and prints; after
//! each of these it tells the driver what happened ([`Event`]) and is told
//! what to do next ([`Action`]). Requests are taken in order, one at a time:
//! a read is submitted only when the one before it has completed and its text
//! has been printed.

use std::collections::VecDeque;
use vstd::prelude::*;
use vstd::utf8::valid_utf8;

use crate::error::Error;
use crate::request::{flat, IORequest, RequestView};
use crate::text::{line_of, render};

verus! {

/// Where a run stands.
#[derive(Debug, Clone, Copy, PartialEq, Eq, Structural)]
pub enum Phase {
    /// Nothing has been asked of the caller yet.
    Created,
    /// The ring was asked for.
    SettingUp,
    /// The read tagged `tag` was handed out for submission.
    Submitting { tag: u64 },
    /// The read tagged `tag` is in flight.
    Waiting { tag: u64 },
    /// The text of a completed read was handed out for printing.
    Emitting,
    /// Every request has been dealt with.
    Finished,
    /// The run was given up with `error`.
    Failed { error: Error },
}

/// What the caller reports to the driver.
#[derive(Debug, PartialEq, Eq)]
pub enum Event {
    /// The run begins.
    Start,
    /// The ring was created.
    RingReady,
    /// The ring could not be created.
    RingFailed,
    /// The read was handed to the ring.
    Submitted,
    /// The read could not be handed to the ring.
    SubmitFailed,
    /// A completion arrived. It carries the tag and the result that the ring
    /// reported, and the buffers of the read as the read left them.
    Completed { user_data: u64, result: i32, bufs: Vec<[u8; 512]> },
    /// Waiting for a completion failed.
    WaitFailed,
    /// The text was printed.
    Written,
}

/// What the driver asks of its caller.
#[derive(Debug, PartialEq, Eq)]
pub enum Action {
    /// Create a ring with room for `entries` submissions and as many
    /// completions.
    Setup { entries: u32 },
    /// Submit one vectored read from descriptor `fd`, starting at byte
    /// `offset` of the file, into all of `bufs` in order, tagged `user_data`.
    Submit { fd: i32, offset: u64, user_data: u64, bufs: Vec<[u8; 512]> },
    /// Block until the next completion arrives.
    Wait,
    /// Print `text`.
    Emit { text: String },
    /// The run is over.
    Finish,
    /// Give the run up.
    Abort { error: Error },
}

/// An [`Event`] as a value of the model: buffers by their flat bytes.
pub enum EventView {
    Start,
    RingReady,
    RingFailed,
    Submitted,
    SubmitFailed,
    Completed { user_data: u64, result: i32, data: Seq<u8> },
    WaitFailed,
    Written,
}

/// An [`Action`] as a value of the model: buffers by their flat bytes, text
/// by its characters.
pub enum ActionView {
    Setup { entries: u32 },
    Submit { fd: i32, offset: u64, user_data: u64, data: Seq<u8> },
    Wait,
    Emit { text: Seq<char> },
    Finish,
    Abort { error: Error },
}

impl View for Event {
    type V = EventView;

    open spec fn view(&self) -> EventView {
        match *self {
            Event::Start => EventView::Start,
            Event::RingReady => EventView::RingReady,
            Event::RingFailed => EventView::RingFailed,
            Event::Submitted => EventView::Submitted,
            Event::SubmitFailed => EventView::SubmitFailed,
            Event::Completed { user_data, result, bufs } => EventView::Completed {
                user_data,
                result,
                data: flat(bufs@),
            },
            Event::WaitFailed => EventView::WaitFailed,
            Event::Written => EventView::Written,
        }
    }
}

impl View for Action {
    type V = ActionView;

    open spec fn view(&self) -> ActionView {
        match *self {
            Action::Setup { entries } => ActionView::Setup { entries },
            Action::Submit { fd, offset, user_data, bufs } => ActionView::Submit {
                fd,
                offset,
                user_data,
                data: flat(bufs@),
            },
            Action::Wait => ActionView::Wait,
            Action::Emit { text } => ActionView::Emit { text: text@ },
            Action::Finish => ActionView::Finish,
            Action::Abort { error } => ActionView::Abort { error },
        }
    }
}

/// The state of a run: the requests not yet taken up, the tag that the first
/// of them will carry, which is its position in the whole list, and the
/// phase.
pub struct DriverView {
    pub pending: Seq<RequestView>,
    pub next_tag: nat,
    pub phase: Phase,
}

/// The state in which a run over `requests` begins.
pub open spec fn initial(requests: Seq<RequestView>) -> DriverView {
    DriverView { pending: requests, next_tag: 0, phase: Phase::Created }
}

/// Giving the run up with `error`.
pub open spec fn fail(s: DriverView, error: Error) -> (DriverView, ActionView) {
    (DriverView { phase: Phase::Failed { error }, ..s }, ActionView::Abort { error })
}

/// Taking up the next request: requests of empty files are passed over, the
/// first one with a chunk to read is handed out for submission, tagged with
/// its position, and the run is over when none is left.
pub open spec fn advance(s: DriverView) -> (DriverView, ActionView)
    decreases s.pending.len(),
{
    if s.pending.len() == 0 {
        (DriverView { phase: Phase::Finished, ..s }, ActionView::Finish)
    } else {
        let first = s.pending[0];
        let rest = DriverView { pending: s.pending.drop_first(), next_tag: s.next_tag + 1, ..s };
        if first.fsize == 0 {
            advance(rest)
        } else {
            (
                DriverView { phase: Phase::Submitting { tag: s.next_tag as u64 }, ..rest },
                ActionView::Submit {
                    fd: first.fd,
                    offset: 0,
                    user_data: s.next_tag as u64,
                    data: first.blank(),
                },
            )
        }
    }
}

/// `k` is the position in `pending` of the first request with a chunk to
/// read.
pub open spec fn first_readable(pending: Seq<RequestView>, k: int) -> bool {
    &&& 0 <= k < pending.len()
    &&& pending[k].fsize != 0
    &&& forall|j: int| 0 <= j < k ==> (#[trigger] pending[j]).fsize == 0
}

/// What [`advance`] comes to. Where some pending request has a chunk to
/// read, the first such request is handed out, with all its buffers, still
/// zero, to be read into from the start of the file under the tag of its
/// position, and the requests before it are dropped unread. Where none has,
/// the run is over.
pub proof fn lemma_advance(s: DriverView)
    ensures
        match advance(s).1 {
            ActionView::Finish => {
                &&& forall|j: int| 0 <= j < s.pending.len() ==> (#[trigger] s.pending[j]).fsize == 0
                &&& advance(s).0.phase == Phase::Finished
            },
            ActionView::Submit { fd, offset, user_data, data } => exists|k: int|
                {
                    &&& #[trigger] first_readable(s.pending, k)
                    &&& fd == s.pending[k].fd
                    &&& offset == 0
                    &&& user_data == (s.next_tag + k) as u64
                    &&& data == s.pending[k].blank()
                    &&& advance(s).0 == (DriverView {
                        pending: s.pending.subrange(k + 1, s.pending.len() as int),
                        next_tag: (s.next_tag + k + 1) as nat,
                        phase: Phase::Submitting { tag: user_data },
                    })
                },
            _ => false,
        },
    decreases s.pending.len(),
{
    if s.pending.len() != 0 {
        let rest = DriverView { pending: s.pending.drop_first(), next_tag: s.next_tag + 1, ..s };
        if s.pending[0].fsize == 0 {
            lemma_advance(rest);
            match advance(rest).1 {
                ActionView::Finish => {
                    assert forall|j: int| 0 <= j < s.pending.len() implies (#[trigger] s.pending[j]).fsize
                        == 0 by {
                        if j > 0 {
                            assert(s.pending[j] == rest.pending[j - 1]);
                        }
                    }
                },
                ActionView::Submit { fd, offset, user_data, data } => {
                    let k = choose|k: int|
                        {
                            &&& #[trigger] first_readable(rest.pending, k)
                            &&& fd == rest.pending[k].fd
                            &&& user_data == (rest.next_tag + k) as u64
                            &&& data == rest.pending[k].blank()
                            &&& advance(rest).0 == (DriverView {
                                pending: rest.pending.subrange(k + 1, rest.pending.len() as int),
                                next_tag: (rest.next_tag + k + 1) as nat,
                                phase: Phase::Submitting { tag: user_data },
                            })
                        };
                    assert(first_readable(s.pending, k + 1)) by {
                        assert forall|j: int| 0 <= j < k + 1 implies (#[trigger] s.pending[j]).fsize
                            == 0 by {
                            if j > 0 {
                                assert(s.pending[j] == rest.pending[j - 1]);
                            }
                        }
                    }
                    assert(rest.pending.subrange(k + 1, rest.pending.len() as int)
                        =~= s.pending.subrange(k + 2, s.pending.len() as int));
                },
                _ => {},
            }
        } else {
            assert(first_readable(s.pending, 0));
            assert(s.pending.drop_first() =~= s.pending.subrange(1, s.pending.len() as int));
        }
    }
}

/// A read is handed out only between reads, in answer to the ring being
/// ready or to a text having been printed, so that at most one is in flight.
/// It is never a read of nothing: the buffers handed out hold at least one
/// chunk, and a whole number of chunks.
pub proof fn lemma_submit(s: DriverView, event: EventView)
    requires
        spec_step(s, event).1 is Submit,
    ensures
        (s.phase == Phase::SettingUp && event == EventView::RingReady) || (s.phase
            == Phase::Emitting && event == EventView::Written),
        spec_step(s, event).0.phase == (Phase::Submitting {
            tag: spec_step(s, event).1->Submit_user_data,
        }),
        spec_step(s, event).1->Submit_offset == 0,
        spec_step(s, event).1->Submit_data.len() >= 512,
        spec_step(s, event).1->Submit_data.len() % 512 == 0,
{
    lemma_advance(s);
}

/// The driver asks to wait only for a read that it was told was submitted.
pub proof fn lemma_wait(s: DriverView, event: EventView)
    requires
        spec_step(s, event).1 is Wait,
    ensures
        s.phase is Submitting,
        event == EventView::Submitted,
        spec_step(s, event).0.phase == (Phase::Waiting { tag: s.phase->Submitting_tag }),
{
    lemma_advance(s);
}

/// One step of a run: the state after `event` and the action that the driver
/// answers with.
pub open spec fn spec_step(s: DriverView, event: EventView) -> (DriverView, ActionView) {
    match s.phase {
        Phase::Finished => (s, ActionView::Finish),
        Phase::Failed { error } => (s, ActionView::Abort { error }),
        Phase::Created => match event {
            EventView::Start => if s.pending.len() <= u32::MAX {
                (
                    DriverView { phase: Phase::SettingUp, ..s },
                    ActionView::Setup { entries: s.pending.len() as u32 },
                )
            } else {
                fail(s, Error::QueueSetup)
            },
            _ => fail(s, Error::Protocol),
        },
        Phase::SettingUp => match event {
            EventView::RingReady => advance(s),
            EventView::RingFailed => fail(s, Error::QueueSetup),
            _ => fail(s, Error::Protocol),
        },
        Phase::Submitting { tag } => match event {
            EventView::Submitted => (
                DriverView { phase: Phase::Waiting { tag }, ..s },
                ActionView::Wait,
            ),
            EventView::SubmitFailed => fail(s, Error::Submission),
            _ => fail(s, Error::Protocol),
        },
        Phase::Waiting { tag } => match event {
            EventView::Completed { user_data, result, data } => if user_data != tag {
                fail(s, Error::Protocol)
            } else if valid_utf8(data) {
                (
                    DriverView { phase: Phase::Emitting, ..s },
                    ActionView::Emit { text: line_of(data) },
                )
            } else {
                fail(s, Error::Decoding)
            },
            EventView::WaitFailed => fail(s, Error::CompletionWait),
            _ => fail(s, Error::Protocol),
        },
        Phase::Emitting => match event {
            EventView::Written => advance(s),
            _ => fail(s, Error::Protocol),
        },
    }
}

/// The driver of one run.
#[derive(Debug)]
pub struct Driver {
    pending: VecDeque<IORequest>,
    next_tag: usize,
    phase: Phase,
}

impl View for Driver {
    type V = DriverView;

    closed spec fn view(&self) -> DriverView {
        DriverView {
            pending: self.pending@.map_values(|r: IORequest| r@),
            next_tag: self.next_tag as nat,
            phase: self.phase,
        }
    }
}

impl Driver {
    #[verifier::type_invariant]
    spec fn well_formed(&self) -> bool {
        self.next_tag + self.pending@.len() <= usize::MAX
    }

    /// A driver for `requests`, which it will take up in their order.
    pub fn new(requests: Vec<IORequest>) -> (driver: Driver)
        ensures
            driver@ == initial(requests@.map_values(|r: IORequest| r@)),
    {
        let mut rest = requests;
        let mut pending: VecDeque<IORequest> = VecDeque::new();
        while rest.len() > 0
            invariant
                rest@ + pending@ == requests@,
            decreases rest@.len(),
        {
            let ghost before = rest@;
            let last = rest.pop().unwrap();
            pending.push_front(last);
            assert(rest@ + pending@ =~= before + pending@.drop_first());
        }
        assert(pending@ =~= requests@);
        assert(pending@.len() <= usize::MAX) by {
            vstd::std_specs::vec::axiom_spec_len(&requests);
        }
        Driver { pending, next_tag: 0, phase: Phase::Created }
    }

    /// Where the run stands.
    pub fn phase(&self) -> (phase: Phase)
        ensures
            phase == self@.phase,
    {
        self.phase
    }

    /// The number of requests not yet taken up.
    pub fn pending(&self) -> (n: usize)
        ensures
            n == self@.pending.len(),
    {
        self.pending.len()
    }

    fn fail(self, error: Error) -> (next: (Driver, Action))
        ensures
            (next.0@, next.1@) == fail(self@, error),
    {
        proof {
            use_type_invariant(&self);
        }
        let Driver { pending, next_tag, phase: _ } = self;
        (Driver { pending, next_tag, phase: Phase::Failed { error } }, Action::Abort { error })
    }

    fn advance(self) -> (next: (Driver, Action))
        ensures
            (next.0@, next.1@) == advance(self@),
    {
        proof {
            use_type_invariant(&self);
        }
        let Driver { mut pending, mut next_tag, phase } = self;
        loop
            invariant
                next_tag + pending@.len() <= usize::MAX,
                advance(
                    DriverView {
                        pending: pending@.map_values(|r: IORequest| r@),
                        next_tag: next_tag as nat,
                        phase,
                    },
                ) == advance(self@),
            decreases pending@.len(),
        {
            let ghost before = pending@.map_values(|r: IORequest| r@);
            match pending.pop_front() {
                None => {
                    return (Driver { pending, next_tag, phase: Phase::Finished }, Action::Finish);
                },
                Some(request) => {
                    let tag: u64 = next_tag as u64;
                    next_tag = next_tag + 1;
                    proof {
                        assert(pending@.map_values(|r: IORequest| r@) =~= before.drop_first());
                        assert(request@ == before[0]);
                    }
                    if request.fsize() != 0 {
                        let fd = request.fd();
                        let bufs = request.into_bufs();
                        return (
                            Driver { pending, next_tag, phase: Phase::Submitting { tag } },
                            Action::Submit { fd, offset: 0, user_data: tag, bufs },
                        );
                    }
                },
            }
        }
    }

    /// Takes `event` in: gives the driver as it stands after it, and what to
    /// do next.
    pub fn step(self, event: Event) -> (next: (Driver, Action))
        ensures
            (next.0@, next.1@) == spec_step(self@, event@),
    {
        proof {
            use_type_invariant(&self);
        }
        match self.phase {
            Phase::Finished => (self, Action::Finish),
            Phase::Failed { error } => (self, Action::Abort { error }),
            Phase::Created => match event {
                Event::Start => {
                    let total = self.pending.len();
                    if total <= u32::MAX as usize {
                        let Driver { pending, next_tag, phase: _ } = self;
                        (
                            Driver { pending, next_tag, phase: Phase::SettingUp },
                            Action::Setup { entries: total as u32 },
                        )
                    } else {
                        self.fail(Error::QueueSetup)
                    }
                },
                _ => self.fail(Error::Protocol),
            },
            Phase::SettingUp => match event {
                Event::RingReady => self.advance(),
                Event::RingFailed => self.fail(Error::QueueSetup),
                _ => self.fail(Error::Protocol),
            },
            Phase::Submitting { tag } => match event {
                Event::Submitted => {
                    let Driver { pending, next_tag, phase: _ } = self;
                    (Driver { pending, next_tag, phase: Phase::Waiting { tag } }, Action::Wait)
                },
                Event::SubmitFailed => self.fail(Error::Submission),
                _ => self.fail(Error::Protocol),
            },
            Phase::Waiting { tag } => match event {
                Event::Completed { user_data, result: _, bufs } => {
                    if user_data != tag {
                        self.fail(Error::Protocol)
                    } else {
                        match render(&bufs) {
                            Ok(text) => {
                                let Driver { pending, next_tag, phase: _ } = self;
                                (
                                    Driver { pending, next_tag, phase: Phase::Emitting },
                                    Action::Emit { text },
                                )
                            },
                            Err(error) => self.fail(error),
                        }
                    }
                },
                Event::WaitFailed => self.fail(Error::CompletionWait),
                _ => self.fail(Error::Protocol),
            },
            Phase::Emitting => match event {
                Event::Written => self.advance(),
                _ => self.fail(Error::Protocol),
            },
        }
    }
}

} // verus!
