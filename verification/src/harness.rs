//! The probe loop: a bounded number of attempts to append one line to a
//! file on the card, then rest for good.
//!
//! The loop is a state machine. An attempt starts in `Idle`, acquires the
//! transport and mounts the volume in `Acquiring`, opens the file in
//! `Mounted`, appends and closes in `FileOpen`, and is back in `Idle`. A
//! failure in any state ends the attempt and leads back to `Idle`; it never
//! ends the loop. When the budget of attempts is spent the machine parks.
//!
//! Waiting is the caller's part: the machine says how long to rest before
//! the caller wakes it again.
use vstd::prelude::*;
use crate::append::{append, append_refused};
use crate::bus::CardBus;
use crate::clock::Timestamp;
use crate::dir::absent;
use crate::error::{FsError, VolumeError};
use crate::file::{
    close,
    open_for_append,
    open_refused,
    opened,
    stored_file,
    OpenFileHandle,
};
use crate::name::{name_parts_of, stored_name};
use crate::transport::BlockTransport;
use crate::volume::{mount, mount_result, volume_on, Volume};

verus! {

/// Where the probe loop stands.
#[derive(Clone, Copy, Debug, PartialEq, Eq, Structural)]
pub enum HarnessState {
    /// Between attempts.
    Idle,
    /// Acquiring the transport and mounting the volume.
    Acquiring,
    /// The volume is mounted; the file is being opened.
    Mounted,
    /// The file is open; the line is being appended and the file closed.
    FileOpen,
    /// The budget is spent.
    Parked,
}

/// What the machine is told.
#[derive(Clone, Copy, Debug, PartialEq, Eq, Structural)]
pub enum Event {
    /// The rest is over.
    Wake,
    /// The work of the present state succeeded.
    Done,
    /// The work of the present state failed.
    Failed,
}

/// What is to be done next.
#[derive(Clone, Copy, Debug, PartialEq, Eq, Structural)]
pub enum Action {
    /// Acquire the transport and mount the volume.
    Acquire,
    /// Open the file.
    OpenFile,
    /// Append the line and close the file.
    AppendAndClose,
    /// Wait this many milliseconds, then wake the machine.
    Rest(u32),
    /// Wait this many milliseconds, then wake the machine; it stays parked.
    Park(u32),
}

/// The probe loop's state and settings.
#[derive(Clone, Copy, Debug, PartialEq, Eq, Structural)]
pub struct Harness {
    pub state: HarnessState,
    /// Attempts that may still be started.
    pub remaining: u32,
    /// Milliseconds to rest between attempts.
    pub rest_ms: u32,
    /// Milliseconds between wake-ups once parked.
    pub park_ms: u32,
}

/// The state that follows `state` on `event`, with `remaining` attempts
/// left.
pub open spec fn next_state(state: HarnessState, remaining: u32, event: Event) -> HarnessState {
    match (state, event) {
        (HarnessState::Idle, Event::Wake) => if remaining > 0 {
            HarnessState::Acquiring
        } else {
            HarnessState::Parked
        },
        (HarnessState::Acquiring, Event::Done) => HarnessState::Mounted,
        (HarnessState::Mounted, Event::Done) => HarnessState::FileOpen,
        (HarnessState::FileOpen, Event::Done) => HarnessState::Idle,
        (HarnessState::Acquiring, Event::Failed) => HarnessState::Idle,
        (HarnessState::Mounted, Event::Failed) => HarnessState::Idle,
        (HarnessState::FileOpen, Event::Failed) => HarnessState::Idle,
        _ => state,
    }
}

/// The attempts left after `event`: one fewer when an attempt starts.
pub open spec fn next_remaining(state: HarnessState, remaining: u32, event: Event) -> u32 {
    if state == HarnessState::Idle && event == Event::Wake && remaining > 0 {
        (remaining - 1) as u32
    } else {
        remaining
    }
}

impl Harness {
    /// What is to be done in the present state.
    pub open spec fn pending(&self) -> Action {
        match self.state {
            HarnessState::Idle => Action::Rest(self.rest_ms),
            HarnessState::Acquiring => Action::Acquire,
            HarnessState::Mounted => Action::OpenFile,
            HarnessState::FileOpen => Action::AppendAndClose,
            HarnessState::Parked => Action::Park(self.park_ms),
        }
    }

    /// A machine in `Idle` with a budget of `attempts`.
    pub fn new(attempts: u32, rest_ms: u32, park_ms: u32) -> (h: Harness)
        ensures
            h == (Harness { state: HarnessState::Idle, remaining: attempts, rest_ms, park_ms }),
    {
        Harness { state: HarnessState::Idle, remaining: attempts, rest_ms, park_ms }
    }

    /// Takes an event and says what is to be done next.
    pub fn on_event(&mut self, event: Event) -> (action: Action)
        ensures
            final(self).state == next_state(old(self).state, old(self).remaining, event),
            final(self).remaining == next_remaining(old(self).state, old(self).remaining, event),
            final(self).rest_ms == old(self).rest_ms,
            final(self).park_ms == old(self).park_ms,
            action == final(self).pending(),
    {
        match (self.state, event) {
            (HarnessState::Idle, Event::Wake) => {
                if self.remaining > 0 {
                    self.remaining = self.remaining - 1;
                    self.state = HarnessState::Acquiring;
                } else {
                    self.state = HarnessState::Parked;
                }
            },
            (HarnessState::Acquiring, Event::Done) => {
                self.state = HarnessState::Mounted;
            },
            (HarnessState::Mounted, Event::Done) => {
                self.state = HarnessState::FileOpen;
            },
            (HarnessState::FileOpen, Event::Done) => {
                self.state = HarnessState::Idle;
            },
            (HarnessState::Acquiring, Event::Failed) => {
                self.state = HarnessState::Idle;
            },
            (HarnessState::Mounted, Event::Failed) => {
                self.state = HarnessState::Idle;
            },
            (HarnessState::FileOpen, Event::Failed) => {
                self.state = HarnessState::Idle;
            },
            _ => {},
        }
        match self.state {
            HarnessState::Idle => Action::Rest(self.rest_ms),
            HarnessState::Acquiring => Action::Acquire,
            HarnessState::Mounted => Action::OpenFile,
            HarnessState::FileOpen => Action::AppendAndClose,
            HarnessState::Parked => Action::Park(self.park_ms),
        }
    }
}

/// The state and the attempts left after a run of events.
pub open spec fn after_events(state: HarnessState, remaining: u32, events: Seq<Event>) -> (
    HarnessState,
    u32,
)
    decreases events.len(),
{
    if events.len() == 0 {
        (state, remaining)
    } else {
        let before = after_events(state, remaining, events.drop_last());
        (
            next_state(before.0, before.1, events.last()),
            next_remaining(before.0, before.1, events.last()),
        )
    }
}

/// How many attempts a run of events starts.
pub open spec fn attempts_started(state: HarnessState, remaining: u32, events: Seq<Event>) -> nat
    decreases events.len(),
{
    if events.len() == 0 {
        0
    } else {
        let before = after_events(state, remaining, events.drop_last());
        attempts_started(state, remaining, events.drop_last()) + (if before.0 == HarnessState::Idle
            && next_state(before.0, before.1, events.last()) == HarnessState::Acquiring {
            1nat
        } else {
            0nat
        })
    }
}

/// Whatever events come, the machine starts no more attempts than its
/// budget allows: the attempts started and the attempts left add up to the
/// budget.
pub proof fn lemma_attempts_bounded(state: HarnessState, remaining: u32, events: Seq<Event>)
    ensures
        attempts_started(state, remaining, events) + after_events(state, remaining, events).1
            == remaining,
    decreases events.len(),
{
    if events.len() > 0 {
        lemma_attempts_bounded(state, remaining, events.drop_last());
    }
}

/// A parked machine stays parked, whatever events come.
pub proof fn lemma_parked_for_good(remaining: u32, events: Seq<Event>)
    ensures
        after_events(HarnessState::Parked, remaining, events).0 == HarnessState::Parked,
    decreases events.len(),
{
    if events.len() > 0 {
        lemma_parked_for_good(remaining, events.drop_last());
    }
}

/// A failure in any state of an attempt leads back to `Idle`, from where
/// the next wake-up starts the next attempt or parks.
pub proof fn lemma_failure_ends_attempt(state: HarnessState, remaining: u32)
    requires
        state == HarnessState::Acquiring || state == HarnessState::Mounted || state
            == HarnessState::FileOpen,
    ensures
        next_state(state, remaining, Event::Failed) == HarnessState::Idle,
        next_remaining(state, remaining, Event::Failed) == remaining,
        next_state(HarnessState::Idle, remaining, Event::Wake) == (if remaining > 0 {
            HarnessState::Acquiring
        } else {
            HarnessState::Parked
        }),
{
}

/// What the file held before: nothing where the directory had no such
/// file.
pub open spec fn prior_content(image: Seq<Seq<u8>>, vol: Volume, name: Seq<u8>) -> Seq<u8> {
    match stored_file(image, vol, name) {
        Some(content) => content,
        None => Seq::empty(),
    }
}

/// The card stores, under `name`, what it stored before followed by `line`.
pub open spec fn logged(
    before: Seq<Seq<u8>>,
    after: Seq<Seq<u8>>,
    vol: Volume,
    name: Seq<u8>,
    line: Seq<u8>,
) -> bool {
    stored_file(after, vol, name) == Some(prior_content(before, vol, name) + line)
}

/// When an attempt may end in state `reached` with the error `e`. Only a
/// transport error can come on any card: every other error is the one that
/// the card's sectors, the name and the line decide.
pub open spec fn attempt_refused(
    before: Seq<Seq<u8>>,
    name: Seq<char>,
    line: Seq<u8>,
    now: Timestamp,
    reached: HarnessState,
    e: FsError,
) -> bool {
    match e {
        FsError::Transport(_) => true,
        _ => match reached {
            HarnessState::Acquiring => mount_result(before, Err(e)),
            HarnessState::Mounted => match volume_on(before) {
                Ok(vol) => match stored_name(name_parts_of(name)) {
                    None => e == FsError::Volume(VolumeError::BadName),
                    Some(stored) => open_refused(before, vol, stored, e),
                },
                Err(_) => false,
            },
            HarnessState::FileOpen => match (volume_on(before), stored_name(name_parts_of(name))) {
                (Ok(vol), Some(stored)) => exists|handle: OpenFileHandle, image: Seq<Seq<u8>>|
                    opened(before, image, vol, stored, now, handle) && append_refused(
                        image,
                        vol,
                        handle,
                        line,
                        e,
                    ),
                _ => false,
            },
            _ => false,
        },
    }
}

/// How one attempt ended.
#[derive(Debug)]
pub struct Report {
    /// The state in which the attempt ended: `FileOpen` where it got as far
    /// as appending.
    pub reached: HarnessState,
    /// The bytes appended, or why the attempt ended early.
    pub result: Result<usize, FsError>,
}

/// Appends `line` to the open file and closes it.
fn append_and_close<B: CardBus>(
    handle: OpenFileHandle,
    volume: &Volume,
    transport: &mut BlockTransport<B>,
    line: &[u8],
    now: &Timestamp,
) -> (r: Result<usize, FsError>)
    requires
        old(transport).wf(),
        volume.lies_on(old(transport).image()),
        handle.valid_on(old(transport).image(), *volume),
        now.wf(),
    ensures
        final(transport).wf(),
        volume.lies_on(final(transport).image()),
        final(transport).image().len() == old(transport).image().len(),
        r matches Ok(n) ==> n == line@.len() && stored_file(
            final(transport).image(),
            *volume,
            handle.entry.name@,
        ) == Some(handle.content(old(transport).image(), *volume) + line@),
        r matches Err(e) ==> e is Transport || append_refused(
            old(transport).image(),
            *volume,
            handle,
            line@,
            e,
        ),
        r matches Err(FsError::Transport(_)) ==> !old(transport).reliable(),
        old(transport).reliable() ==> final(transport).reliable(),
{
    let mut handle = handle;
    let written = match append(&mut handle, volume, transport, line) {
        Err(e) => {
            return Err(e);
        },
        Ok(n) => n,
    };
    match close(handle, volume, transport, now) {
        Err(e) => Err(e),
        Ok(()) => Ok(written),
    }
}

/// Runs one attempt: acquires the transport, mounts the volume, opens the
/// file `name`, appends `line`, closes the file, and ends the transport's
/// session.
///
/// Takes the machine from `Acquiring` through the states of the attempt
/// back to `Idle`. On success the card stores, under the name, what it
/// stored before followed by the line.
pub fn run_attempt<B: CardBus>(
    harness: &mut Harness,
    transport: &mut BlockTransport<B>,
    name: &str,
    line: &[u8],
    now: &Timestamp,
) -> (report: Report)
    requires
        old(harness).state == HarnessState::Acquiring,
        old(transport).wf(),
        now.wf(),
    ensures
        final(harness).state == HarnessState::Idle,
        final(harness).remaining == old(harness).remaining,
        final(harness).rest_ms == old(harness).rest_ms,
        final(harness).park_ms == old(harness).park_ms,
        final(transport).wf(),
        !final(transport).established,
        final(transport).image().len() == old(transport).image().len(),
        report.result matches Ok(n) ==> {
            &&& n == line@.len()
            &&& report.reached == HarnessState::FileOpen
            &&& volume_on(old(transport).image()) matches Ok(vol)
            &&& stored_name(name_parts_of(name@)) matches Some(stored)
            &&& logged(old(transport).image(), final(transport).image(), vol, stored, line@)
        },
        report.result matches Err(e) ==> attempt_refused(
            old(transport).image(),
            name@,
            line@,
            *now,
            report.reached,
            e,
        ),
        report.result matches Err(FsError::Transport(_)) ==> !old(transport).reliable(),
        old(transport).reliable() ==> final(transport).reliable(),
{
    let ghost before = transport.image();
    let mounted = match transport.acquire() {
        Err(e) => Err(FsError::Transport(e)),
        Ok(()) => mount(transport),
    };
    let volume = match mounted {
        Err(e) => {
            harness.on_event(Event::Failed);
            transport.release();
            return Report { reached: HarnessState::Acquiring, result: Err(e) };
        },
        Ok(volume) => volume,
    };
    harness.on_event(Event::Done);
    let handle = match open_for_append(&volume, transport, name, now) {
        Err(e) => {
            harness.on_event(Event::Failed);
            transport.release();
            return Report { reached: HarnessState::Mounted, result: Err(e) };
        },
        Ok(handle) => handle,
    };
    harness.on_event(Event::Done);
    let ghost held = handle;
    let ghost created = transport.image();
    proof {
        let stored = stored_name(name_parts_of(name@))->Some_0;
        if absent(before, volume, stored) {
            assert(handle.content(created, volume) =~= Seq::<u8>::empty());
        }
    }
    let result = append_and_close(handle, &volume, transport, line, now);
    proof {
        let stored = stored_name(name_parts_of(name@))->Some_0;
        if result is Err && !(result->Err_0 is Transport) {
            assert(opened(before, created, volume, stored, *now, held) && append_refused(
                created,
                volume,
                held,
                line@,
                result->Err_0,
            ));
        }
    }
    match result {
        Err(_) => {
            harness.on_event(Event::Failed);
        },
        Ok(_) => {
            harness.on_event(Event::Done);
        },
    }
    transport.release();
    Report { reached: HarnessState::FileOpen, result }
}

} // verus!
