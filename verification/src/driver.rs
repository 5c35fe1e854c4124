//! The simulation driver: a run as a machine that turns events into actions.
//!
//! The driver owns the lattice and the mask source and decides what happens
//! next; whoever runs it owns the files and the interrupt flag. It reports
//! what it found on disk and what became of each action, and carries out the
//! action that comes back:
//!
//! * `Idle`: waits to be told how long the measurement log is.
//! * `Resuming`: waits for the snapshot, if there is one.
//! * `Running`: a sweep is done and its sample is out to be logged.
//! * `Checkpointing`: a snapshot is out to be saved.
//! * `Terminated`: the run is over.

use crate::bytes::ByteOrder;
use crate::lattice::{
    blank, colour_bytes, lemma_restored_round_trip, lemma_snapshot_round_trip, restored,
    sample_of, snapshot, sweep_masks, swept, whole, Grid, Lattice, Sample,
};
use crate::mask::{drawn, lemma_blank_is_drawn, MaskSource, Signature};
use crate::sublat::{LoadError, MAX_WORDS};
use rand::rngs::SmallRng;
use vstd::prelude::*;

verus! {

/// Bytes that one sample takes in the measurement log.
pub const SAMPLE_BYTES: u64 = 4;

/// Where a run stands.
#[derive(Clone, Copy, Debug, PartialEq, Eq, Structural)]
pub enum Phase {
    Idle,
    Resuming,
    Running,
    Checkpointing,
    Terminated,
}

/// Why a driver cannot be set up.
#[derive(Clone, Copy, Debug, PartialEq, Eq, Structural)]
pub enum ConfigError {
    /// The width, in words, is zero or more than `MAX_WORDS`.
    Width(usize),
}

/// Why a run was given up.
#[derive(Clone, Copy, Debug, PartialEq, Eq, Structural)]
pub enum RunError {
    /// The snapshot on disk is not one of this lattice.
    Snapshot(LoadError),
    /// An event arrived in a phase that does not wait for it.
    OutOfTurn,
}

/// What the outside reports to the driver.
#[derive(Debug)]
pub enum Event {
    /// The run begins. `log_len` is the length of the measurement log in
    /// bytes, or `None` if there is no log yet.
    Started { log_len: Option<u64> },
    /// The snapshot was looked for: its bytes, or `None` if there is none.
    SnapshotRead { bytes: Option<Vec<u8>> },
    /// The sample was appended to the log and flushed. `interrupted` says
    /// whether a request to stop has come in.
    Logged { interrupted: bool },
    /// The snapshot was written.
    Saved,
}

/// What the driver asks the outside to do next.
#[derive(Debug)]
pub enum Action {
    /// Read the snapshot, then report `SnapshotRead`.
    ReadSnapshot,
    /// Append this sample to the measurement log and flush it, then report
    /// `Logged`.
    Append(Sample),
    /// Replace the snapshot on disk by these bytes, then report `Saved`.
    Save(Vec<u8>),
    /// Leave; the run has ended in good order.
    Exit,
    /// Leave with a failure.
    Abort(RunError),
}

/// An event, as contracts see it.
pub enum Signal {
    Started(Option<u64>),
    SnapshotRead(Option<Seq<u8>>),
    Logged(bool),
    Saved,
}

/// An action, as contracts see it.
pub enum Reply {
    ReadSnapshot,
    Append(Sample),
    Save(Seq<u8>),
    Exit,
    Abort(RunError),
}

impl View for Event {
    type V = Signal;

    open spec fn view(&self) -> Signal {
        match self {
            Event::Started { log_len } => Signal::Started(*log_len),
            Event::SnapshotRead { bytes } => Signal::SnapshotRead(
                match bytes {
                    Some(b) => Some(b@),
                    None => None,
                },
            ),
            Event::Logged { interrupted } => Signal::Logged(*interrupted),
            Event::Saved => Signal::Saved,
        }
    }
}

impl View for Action {
    type V = Reply;

    open spec fn view(&self) -> Reply {
        match self {
            Action::ReadSnapshot => Reply::ReadSnapshot,
            Action::Append(s) => Reply::Append(*s),
            Action::Save(b) => Reply::Save(b@),
            Action::Exit => Reply::Exit,
            Action::Abort(e) => Reply::Abort(*e),
        }
    }
}

/// What a run is set up with and never changes.
pub struct Setup {
    /// Width of each colour in words.
    pub words: nat,
    /// Byte order of the snapshots.
    pub order: ByteOrder,
    /// Number of sweeps that the log is to reach.
    pub total: nat,
}

/// What changes in the course of a run.
pub struct Run {
    pub grid: Grid,
    /// Number of samples in the measurement log.
    pub measured: nat,
    pub phase: Phase,
}

/// Number of samples that a log of `log_len` bytes holds; none if there is
/// no log.
pub open spec fn measured_in(log_len: Option<u64>) -> nat {
    match log_len {
        None => 0,
        Some(len) => (len / SAMPLE_BYTES) as nat,
    }
}

/// What the driver does once it knows the lattice and the number of samples
/// in the log: one more sweep if the log is short of the total, else the
/// final snapshot.
pub open spec fn proceed(setup: Setup, grid: Grid, measured: nat, tape: Seq<u128>) -> (Run, Reply) {
    if measured < setup.total {
        let next = swept(grid, setup.words, tape, 16);
        (
            Run { grid: next, measured, phase: Phase::Running },
            Reply::Append(sample_of(next, setup.words)),
        )
    } else {
        (
            Run { grid, measured, phase: Phase::Checkpointing },
            Reply::Save(snapshot(setup.order, grid)),
        )
    }
}

/// The run given up: nothing changes but the phase.
pub open spec fn given_up(pre: Run, why: RunError) -> (Run, Reply) {
    (Run { grid: pre.grid, measured: pre.measured, phase: Phase::Terminated }, Reply::Abort(why))
}

/// The driver's transition function: the state and the action that follow
/// from a state and an event. `tape` holds the masks of the sweep, where
/// the transition makes one.
pub open spec fn react(setup: Setup, pre: Run, signal: Signal, tape: Seq<u128>) -> (Run, Reply) {
    match (pre.phase, signal) {
        (Phase::Idle, Signal::Started(log_len)) => (
            Run { grid: pre.grid, measured: measured_in(log_len), phase: Phase::Resuming },
            Reply::ReadSnapshot,
        ),
        (Phase::Resuming, Signal::SnapshotRead(None)) => proceed(
            setup,
            pre.grid,
            pre.measured,
            tape,
        ),
        (Phase::Resuming, Signal::SnapshotRead(Some(bytes))) => {
            if bytes.len() == 4 * colour_bytes(setup.words) {
                proceed(setup, restored(setup.order, bytes, setup.words), pre.measured, tape)
            } else {
                given_up(
                    pre,
                    RunError::Snapshot(
                        LoadError::Length {
                            expected: (4 * colour_bytes(setup.words)) as usize,
                            found: bytes.len() as usize,
                        },
                    ),
                )
            }
        },
        (Phase::Running, Signal::Logged(interrupted)) => {
            if interrupted {
                (
                    Run { grid: pre.grid, measured: pre.measured + 1, phase: Phase::Checkpointing },
                    Reply::Save(snapshot(setup.order, pre.grid)),
                )
            } else {
                proceed(setup, pre.grid, pre.measured + 1, tape)
            }
        },
        (Phase::Checkpointing, Signal::Saved) => (
            Run { grid: pre.grid, measured: pre.measured, phase: Phase::Terminated },
            Reply::Exit,
        ),
        _ => given_up(pre, RunError::OutOfTurn),
    }
}

/// A run that resumes with nothing left to do adds nothing. If the log
/// already holds the total number of samples, the driver makes no sweep and
/// asks for no sample to be appended: it goes straight to the snapshot, and
/// the bytes that it asks to be saved are the bytes that it read.
pub proof fn lemma_resume_adds_nothing(
    setup: Setup,
    idle: Run,
    log_len: u64,
    bytes: Seq<u8>,
    tape0: Seq<u128>,
    tape1: Seq<u128>,
)
    requires
        1 <= setup.words <= MAX_WORDS,
        idle.phase == Phase::Idle,
        log_len / 4 >= setup.total,
        bytes.len() == 4 * colour_bytes(setup.words),
    ensures
        ({
            let (resuming, first) = react(setup, idle, Signal::Started(Some(log_len)), tape0);
            let (after, second) = react(setup, resuming, Signal::SnapshotRead(Some(bytes)), tape1);
            &&& first == Reply::ReadSnapshot
            &&& second == Reply::Save(bytes)
            &&& after.measured == log_len / 4
            &&& after.phase == Phase::Checkpointing
            &&& after.grid == restored(setup.order, bytes, setup.words)
        }),
{
    lemma_restored_round_trip(setup.order, bytes, setup.words);
}

/// A run that is interrupted and resumed goes on as the run that was not
/// interrupted. Take a run with a sample out to be logged. If it is
/// interrupted, it saves a snapshot; a new driver that finds this snapshot,
/// and a log with one sample more, then does with any masks exactly what
/// the first run would have done with them had it not been interrupted: it
/// makes the sweep that comes next, or none if the log is complete, from the
/// same lattice and with the same count. No sweep is made twice and none is
/// left out.
pub proof fn lemma_resume_continues(setup: Setup, running: Run, idle: Run, tape: Seq<u128>)
    requires
        1 <= setup.words <= MAX_WORDS,
        whole(running.grid, setup.words),
        running.phase == Phase::Running,
        idle.phase == Phase::Idle,
        4 * (running.measured + 1) <= u64::MAX,
    ensures
        ({
            let saved = react(setup, running, Signal::Logged(true), tape).1;
            let log_len = (4 * (running.measured + 1)) as u64;
            let (resuming, first) = react(setup, idle, Signal::Started(Some(log_len)), tape);
            &&& saved is Save
            &&& first == Reply::ReadSnapshot
            &&& react(setup, resuming, Signal::SnapshotRead(Some(saved->Save_0)), tape) == react(
                setup,
                running,
                Signal::Logged(false),
                tape,
            )
        }),
{
    lemma_snapshot_round_trip(setup.order, running.grid, setup.words);
}

/// A run that is interrupted stops at the sweep in hand: the sample that was
/// logged is counted, no further sweep is made, and the snapshot that goes
/// out is of the lattice as the sweep left it.
pub proof fn lemma_interrupt_stops(setup: Setup, running: Run, tape: Seq<u128>)
    requires
        running.phase == Phase::Running,
    ensures
        ({
            let (after, reply) = react(setup, running, Signal::Logged(true), tape);
            &&& reply == Reply::Save(snapshot(setup.order, running.grid))
            &&& after.grid == running.grid
            &&& after.measured == running.measured + 1
            &&& after.phase == Phase::Checkpointing
        }),
{
}

/// The count of samples follows the log. It is set from the length of the
/// log when the run starts, goes up by one when a sample is reported as
/// logged, and does not change otherwise. A sample is out to be logged
/// exactly while the phase is `Running`, and only while the log is short of
/// the total.
pub proof fn lemma_measured_follows_log(setup: Setup, pre: Run, signal: Signal, tape: Seq<u128>)
    ensures
        ({
            let (post, reply) = react(setup, pre, signal, tape);
            &&& post.phase == Phase::Running <==> reply is Append
            &&& post.phase == Phase::Running ==> post.measured < setup.total
            &&& post.measured == match (pre.phase, signal) {
                (Phase::Idle, Signal::Started(log_len)) => measured_in(log_len),
                (Phase::Running, Signal::Logged(_)) => pre.measured + 1,
                _ => pre.measured,
            }
        }),
{
}

/// The driver of one simulation run.
pub struct Ising {
    lattice: Lattice,
    source: MaskSource,
    order: ByteOrder,
    total: u64,
    measured: u64,
    phase: Phase,
}

impl Ising {
    /// What the driver was set up with.
    pub closed spec fn setup(&self) -> Setup {
        Setup { words: self.lattice.words(), order: self.order, total: self.total as nat }
    }

    /// Where the run stands.
    pub closed spec fn run(&self) -> Run {
        Run { grid: self.lattice@, measured: self.measured as nat, phase: self.phase }
    }

    /// The digits of the signature that the masks are drawn under.
    pub closed spec fn digits(&self) -> Seq<bool> {
        self.source.digits()
    }

    /// Whether the driver is in order: the lattice is whole, and while a
    /// sample is out to be logged the log is short of the total.
    pub closed spec fn wf(&self) -> bool {
        &&& self.lattice.wf()
        &&& self.phase == Phase::Running ==> self.measured < self.total
    }

    /// A driver in phase `Idle` for a lattice of width `words`, all sites
    /// down, that draws its masks from `rng` under `sig`, keeps snapshots in
    /// byte order `order` and is to bring the log to `total` samples. The
    /// width must be at least one and at most `MAX_WORDS`.
    pub fn new(words: usize, sig: Signature, rng: SmallRng, order: ByteOrder, total: u64) -> (r:
        Result<Self, ConfigError>)
        ensures
            match r {
                Ok(ising) => {
                    &&& 1 <= words <= MAX_WORDS
                    &&& ising.wf()
                    &&& ising.setup() == (Setup { words: words as nat, order, total: total as nat })
                    &&& ising.run() == (Run {
                        grid: blank(words as nat),
                        measured: 0,
                        phase: Phase::Idle,
                    })
                    &&& ising.digits() == sig@
                },
                Err(ConfigError::Width(w)) => (words == 0 || words > MAX_WORDS) && w == words,
            },
    {
        if words == 0 || words > MAX_WORDS {
            return Err(ConfigError::Width(words));
        }
        Ok(
            Ising {
                lattice: Lattice::new(words),
                source: MaskSource::new(sig, rng),
                order,
                total,
                measured: 0,
                phase: Phase::Idle,
            },
        )
    }

    /// The phase that the run is in.
    pub fn phase(&self) -> (p: Phase)
        ensures
            p == self.run().phase,
    {
        self.phase
    }

    /// Number of samples that the log holds, as far as the driver knows.
    pub fn measured(&self) -> (m: u64)
        ensures
            m == self.run().measured,
    {
        self.measured
    }

    /// Number of samples that the log is to reach.
    pub fn total(&self) -> (t: u64)
        ensures
            t == self.setup().total,
    {
        self.total
    }

    /// The lattice as it stands.
    pub fn lattice(&self) -> (l: &Lattice)
        ensures
            l@ == self.run().grid,
            l.words() == self.setup().words,
            self.wf() ==> l.wf(),
    {
        &self.lattice
    }

    fn give_up(&mut self, why: RunError) -> (action: Action)
        requires
            old(self).wf(),
        ensures
            final(self).wf(),
            final(self).setup() == old(self).setup(),
            final(self).digits() == old(self).digits(),
            (final(self).run(), action@) == given_up(old(self).run(), why),
    {
        self.phase = Phase::Terminated;
        Action::Abort(why)
    }

    fn save(&mut self) -> (action: Action)
        requires
            old(self).wf(),
        ensures
            final(self).wf(),
            final(self).setup() == old(self).setup(),
            final(self).digits() == old(self).digits(),
            final(self).run() == (Run {
                grid: old(self).run().grid,
                measured: old(self).run().measured,
                phase: Phase::Checkpointing,
            }),
            action@ == Reply::Save(snapshot(old(self).setup().order, old(self).run().grid)),
    {
        self.phase = Phase::Checkpointing;
        let mut bytes: Vec<u8> = Vec::new();
        self.lattice.store(self.order, &mut bytes);
        assert(bytes@ =~= snapshot(self.order, self.lattice@));
        Action::Save(bytes)
    }

    fn go_on(&mut self) -> (out: (Action, Ghost<Seq<u128>>))
        requires
            old(self).wf(),
        ensures
            final(self).wf(),
            final(self).setup() == old(self).setup(),
            final(self).digits() == old(self).digits(),
            out.1@.len() == sweep_masks(old(self).setup().words),
            drawn(old(self).digits(), out.1@),
            (final(self).run(), out.0@) == proceed(
                old(self).setup(),
                old(self).run().grid,
                old(self).run().measured,
                out.1@,
            ),
    {
        if self.measured < self.total {
            let ghost before = self.lattice@;
            let ghost n = self.lattice.words();
            let ghost digits = self.source.digits();
            self.lattice.sweep(&mut self.source);
            let ghost tape = choose|tape: Seq<u128>|
                {
                    &&& tape.len() == sweep_masks(n)
                    &&& drawn(digits, tape)
                    &&& self.lattice@ == swept(before, n, tape, 16)
                };
            self.phase = Phase::Running;
            let sample: Sample = self.lattice.sample();
            (Action::Append(sample), Ghost(tape))
        } else {
            let ghost tape = Seq::new(sweep_masks(self.setup().words), |i: int| 0u128);
            proof {
                lemma_blank_is_drawn(self.digits(), sweep_masks(self.setup().words));
            }
            (self.save(), Ghost(tape))
        }
    }

    /// Takes in one event and says what is to be done next.
    ///
    /// The state and the action that follow are those that `react` gives
    /// for the state before, the event, and the masks that the sweep drew,
    /// where the step made a sweep. An event that the phase does not wait
    /// for ends the run.
    pub fn step(&mut self, event: Event) -> (action: Action)
        requires
            old(self).wf(),
        ensures
            final(self).wf(),
            final(self).setup() == old(self).setup(),
            final(self).digits() == old(self).digits(),
            exists|tape: Seq<u128>|
                {
                    &&& tape.len() == sweep_masks(old(self).setup().words)
                    &&& drawn(old(self).digits(), tape)
                    &&& (final(self).run(), action@) == react(
                        old(self).setup(),
                        old(self).run(),
                        event@,
                        tape,
                    )
                },
    {
        let ghost mut tape = Seq::new(sweep_masks(self.setup().words), |i: int| 0u128);
        proof {
            lemma_blank_is_drawn(self.digits(), sweep_masks(self.setup().words));
        }
        let action = match event {
            Event::Started { log_len } => {
                match self.phase {
                    Phase::Idle => {
                        self.measured = match log_len {
                            None => 0,
                            Some(len) => len / SAMPLE_BYTES,
                        };
                        self.phase = Phase::Resuming;
                        Action::ReadSnapshot
                    },
                    _ => self.give_up(RunError::OutOfTurn),
                }
            },
            Event::SnapshotRead { bytes } => {
                match self.phase {
                    Phase::Resuming => {
                        match bytes {
                            None => {
                                let (a, Ghost(t)) = self.go_on();
                                proof {
                                    tape = t;
                                }
                                a
                            },
                            Some(b) => {
                                match self.lattice.load(self.order, b.as_slice()) {
                                    Ok(()) => {
                                        let (a, Ghost(t)) = self.go_on();
                                        proof {
                                            tape = t;
                                        }
                                        a
                                    },
                                    Err(e) => self.give_up(RunError::Snapshot(e)),
                                }
                            },
                        }
                    },
                    _ => self.give_up(RunError::OutOfTurn),
                }
            },
            Event::Logged { interrupted } => {
                match self.phase {
                    Phase::Running => {
                        self.measured = self.measured + 1;
                        self.phase = Phase::Checkpointing;
                        if interrupted {
                            self.save()
                        } else {
                            let (a, Ghost(t)) = self.go_on();
                            proof {
                                tape = t;
                            }
                            a
                        }
                    },
                    _ => self.give_up(RunError::OutOfTurn),
                }
            },
            Event::Saved => {
                match self.phase {
                    Phase::Checkpointing => {
                        self.phase = Phase::Terminated;
                        Action::Exit
                    },
                    _ => self.give_up(RunError::OutOfTurn),
                }
            },
        };
        assert((self.run(), action@) == react(old(self).setup(), old(self).run(), event@, tape));
        assert(tape.len() == sweep_masks(old(self).setup().words));
        assert(drawn(old(self).digits(), tape));
        action
    }
}

} // verus!
