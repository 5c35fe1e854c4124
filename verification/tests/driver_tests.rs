use ising::bytes::ByteOrder;
use ising::driver::{Action, ConfigError, Event, Ising, Phase, RunError, SAMPLE_BYTES};
use ising::lattice::{Colour, Sample};
use ising::mask::Signature;
use ising::rnd::SmallRng;
use ising::sublat::LoadError;
use rand::SeedableRng;

fn driver(sig: &str, seed: u64, total: u64) -> Ising {
    Ising::new(
        1,
        Signature::parse(sig).unwrap(),
        SmallRng::seed_from_u64(seed),
        ByteOrder::Little,
        total,
    )
    .unwrap()
}

/// What a run leaves behind.
struct Outcome {
    samples: Vec<Sample>,
    snapshot: Vec<u8>,
}

/// Runs a driver to the end as a host would: `log_len` and `snapshot` are
/// what it finds on disk, `stop_after` is the number of samples after which
/// a request to stop comes in.
fn run(ising: &mut Ising, log_len: Option<u64>, snapshot: Option<Vec<u8>>, stop_after: Option<usize>) -> Outcome {
    let mut samples = Vec::new();
    let mut saved = None;
    let mut pending = snapshot;
    let mut action = ising.step(Event::Started { log_len });
    loop {
        action = match action {
            Action::ReadSnapshot => ising.step(Event::SnapshotRead { bytes: pending.take() }),
            Action::Append(sample) => {
                samples.push(sample);
                let interrupted = stop_after.map_or(false, |n| samples.len() >= n);
                ising.step(Event::Logged { interrupted })
            }
            Action::Save(bytes) => {
                saved = Some(bytes);
                ising.step(Event::Saved)
            }
            Action::Exit => break,
            Action::Abort(e) => panic!("run given up: {:?}", e),
        };
    }
    Outcome { samples, snapshot: saved.unwrap() }
}

#[test]
fn a_sample_takes_four_bytes() {
    assert_eq!(SAMPLE_BYTES, 4);
}

#[test]
fn new_rejects_a_width_of_zero() {
    let r = Ising::new(0, Signature::parse("01").unwrap(), SmallRng::seed_from_u64(1), ByteOrder::Little, 1);
    assert_eq!(r.err(), Some(ConfigError::Width(0)));
}

#[test]
fn new_rejects_a_width_beyond_the_limit() {
    let r = Ising::new(512, Signature::parse("01").unwrap(), SmallRng::seed_from_u64(1), ByteOrder::Little, 1);
    assert_eq!(r.err(), Some(ConfigError::Width(512)));
}

#[test]
fn new_driver_is_idle_with_every_site_down() {
    let ising = driver("01", 1, 5);
    assert_eq!(ising.phase(), Phase::Idle);
    assert_eq!(ising.measured(), 0);
    assert_eq!(ising.total(), 5);
    assert_eq!(ising.lattice().mag(), 0);
    assert_eq!(ising.lattice().width(), 1);
}

#[test]
fn start_counts_the_samples_in_the_log() {
    let mut ising = driver("01", 1, 5);
    assert!(matches!(ising.step(Event::Started { log_len: Some(12) }), Action::ReadSnapshot));
    assert_eq!(ising.phase(), Phase::Resuming);
    assert_eq!(ising.measured(), 3);
    let mut ising = driver("01", 1, 5);
    assert!(matches!(ising.step(Event::Started { log_len: Some(14) }), Action::ReadSnapshot));
    assert_eq!(ising.measured(), 3);
    let mut ising = driver("01", 1, 5);
    assert!(matches!(ising.step(Event::Started { log_len: None }), Action::ReadSnapshot));
    assert_eq!(ising.measured(), 0);
}

#[test]
fn a_fresh_run_makes_the_total_number_of_sweeps() {
    let mut ising = driver("0011", 2, 3);
    let out = run(&mut ising, None, None, None);
    assert_eq!(out.samples.len(), 3);
    assert_eq!(out.snapshot.len(), 8192);
    assert_eq!(ising.phase(), Phase::Terminated);
    assert_eq!(ising.measured(), 3);
    for s in &out.samples {
        assert_eq!(s.sites, 65536);
        assert!(s.up <= s.sites);
    }
}

#[test]
fn the_phases_follow_one_another() {
    let mut ising = driver("0011", 2, 2);
    assert_eq!(ising.phase(), Phase::Idle);
    assert!(matches!(ising.step(Event::Started { log_len: None }), Action::ReadSnapshot));
    assert_eq!(ising.phase(), Phase::Resuming);
    assert!(matches!(ising.step(Event::SnapshotRead { bytes: None }), Action::Append(_)));
    assert_eq!(ising.phase(), Phase::Running);
    assert_eq!(ising.measured(), 0);
    assert!(matches!(ising.step(Event::Logged { interrupted: false }), Action::Append(_)));
    assert_eq!(ising.phase(), Phase::Running);
    assert_eq!(ising.measured(), 1);
    assert!(matches!(ising.step(Event::Logged { interrupted: false }), Action::Save(_)));
    assert_eq!(ising.phase(), Phase::Checkpointing);
    assert_eq!(ising.measured(), 2);
    assert!(matches!(ising.step(Event::Saved), Action::Exit));
    assert_eq!(ising.phase(), Phase::Terminated);
}

#[test]
fn the_sample_is_the_magnetisation_after_the_sweep() {
    let mut ising = driver("0011", 3, 1);
    ising.step(Event::Started { log_len: None });
    match ising.step(Event::SnapshotRead { bytes: None }) {
        Action::Append(sample) => {
            assert_eq!(sample.up, ising.lattice().mag());
            assert_eq!(sample, ising.lattice().sample());
        }
        other => panic!("unexpected action {:?}", other),
    }
}

#[test]
fn the_snapshot_is_the_lattice_as_the_last_sweep_left_it() {
    let mut ising = driver("0011", 4, 2);
    let out = run(&mut ising, None, None, None);
    let mut bytes: Vec<u8> = Vec::new();
    ising.lattice().store(ByteOrder::Little, &mut bytes);
    assert_eq!(out.snapshot, bytes);
    assert_eq!(out.samples[1], ising.lattice().sample());
}

#[test]
fn a_run_with_nothing_to_do_goes_straight_to_the_snapshot() {
    let mut ising = driver("0011", 5, 0);
    let out = run(&mut ising, None, None, None);
    assert_eq!(out.samples.len(), 0);
    assert_eq!(out.snapshot, vec![0u8; 8192]);
}

#[test]
fn an_interrupt_stops_the_run_after_the_sweep_in_hand() {
    let mut ising = driver("0011", 6, 10);
    let out = run(&mut ising, None, None, Some(4));
    assert_eq!(out.samples.len(), 4);
    assert_eq!(ising.measured(), 4);
    assert_eq!(ising.phase(), Phase::Terminated);
    let mut bytes: Vec<u8> = Vec::new();
    ising.lattice().store(ByteOrder::Little, &mut bytes);
    assert_eq!(out.snapshot, bytes);
}

#[test]
fn an_interrupt_before_the_first_sweep_lets_that_sweep_finish() {
    let mut ising = driver("0011", 6, 10);
    let out = run(&mut ising, None, None, Some(0));
    assert_eq!(out.samples.len(), 1);
}

#[test]
fn resuming_a_finished_run_changes_nothing() {
    let mut first = driver("0011", 7, 5);
    let whole = run(&mut first, None, None, None);
    assert_eq!(whole.samples.len(), 5);
    let mut second = driver("0011", 8, 5);
    let again = run(&mut second, Some(4 * 5), Some(whole.snapshot.clone()), None);
    assert_eq!(again.samples.len(), 0);
    assert_eq!(again.snapshot, whole.snapshot);
    assert_eq!(second.measured(), 5);
}

#[test]
fn resuming_an_interrupted_run_makes_the_sweeps_that_are_left() {
    let mut first = driver("0011", 9, 6);
    let part = run(&mut first, None, None, Some(2));
    assert_eq!(part.samples.len(), 2);
    let mut second = driver("0011", 10, 6);
    let rest = run(&mut second, Some(4 * 2), Some(part.snapshot.clone()), None);
    assert_eq!(rest.samples.len(), 4);
    assert_eq!(second.measured(), 6);
}

#[test]
fn resuming_continues_from_the_lattice_of_the_snapshot() {
    // At zero probability a sweep is a function of the lattice alone, so a
    // run in two parts must end where a run in one part ends.
    let mut seed = driver("0000", 11, 0);
    seed.step(Event::Started { log_len: None });
    let mut start = vec![0u8; 8192];
    for (i, b) in start.iter_mut().enumerate() {
        *b = (i * 37 % 251) as u8;
    }
    let mut one = driver("0000", 12, 4);
    let whole = run(&mut one, None, Some(start.clone()), None);
    let mut two = driver("0000", 13, 4);
    let part = run(&mut two, None, Some(start.clone()), Some(1));
    let mut three = driver("0000", 14, 4);
    let rest = run(&mut three, Some(4), Some(part.snapshot.clone()), None);
    assert_eq!(part.samples.len() + rest.samples.len(), whole.samples.len());
    assert_eq!(rest.snapshot, whole.snapshot);
    let mut joined = part.samples.clone();
    joined.extend(rest.samples.iter().cloned());
    assert_eq!(joined, whole.samples);
}

#[test]
fn the_same_generator_gives_the_same_run() {
    let mut a = driver("0101", 15, 3);
    let mut b = driver("0101", 15, 3);
    let x = run(&mut a, None, None, None);
    let y = run(&mut b, None, None, None);
    assert_eq!(x.samples, y.samples);
    assert_eq!(x.snapshot, y.snapshot);
}

#[test]
fn a_truncated_snapshot_ends_the_run() {
    let mut ising = driver("0011", 16, 3);
    ising.step(Event::Started { log_len: None });
    let action = ising.step(Event::SnapshotRead { bytes: Some(vec![0u8; 8191]) });
    assert!(matches!(
        action,
        Action::Abort(RunError::Snapshot(LoadError::Length { expected: 8192, found: 8191 }))
    ));
    assert_eq!(ising.phase(), Phase::Terminated);
    assert_eq!(ising.lattice().mag(), 0);
}

#[test]
fn an_event_out_of_turn_ends_the_run() {
    let mut ising = driver("0011", 17, 3);
    assert!(matches!(ising.step(Event::Saved), Action::Abort(RunError::OutOfTurn)));
    assert_eq!(ising.phase(), Phase::Terminated);
    let mut ising = driver("0011", 17, 3);
    assert!(matches!(
        ising.step(Event::Logged { interrupted: false }),
        Action::Abort(RunError::OutOfTurn)
    ));
    let mut ising = driver("0011", 17, 3);
    assert!(matches!(
        ising.step(Event::SnapshotRead { bytes: None }),
        Action::Abort(RunError::OutOfTurn)
    ));
    let mut ising = driver("0011", 17, 3);
    ising.step(Event::Started { log_len: None });
    assert!(matches!(
        ising.step(Event::Started { log_len: None }),
        Action::Abort(RunError::OutOfTurn)
    ));
    assert_eq!(ising.phase(), Phase::Terminated);
    assert!(matches!(ising.step(Event::Saved), Action::Abort(RunError::OutOfTurn)));
}

#[test]
fn a_snapshot_is_read_in_the_order_of_the_driver() {
    let mut bytes = vec![0u8; 8192];
    bytes[0] = 1;
    let mut little = driver("0", 18, 0);
    little.step(Event::Started { log_len: None });
    little.step(Event::SnapshotRead { bytes: Some(bytes.clone()) });
    assert_eq!(little.lattice().word(Colour::S00, 0, 0), 1);
    let mut big = Ising::new(
        1,
        Signature::parse("0").unwrap(),
        SmallRng::seed_from_u64(18),
        ByteOrder::Big,
        0,
    )
    .unwrap();
    big.step(Event::Started { log_len: None });
    big.step(Event::SnapshotRead { bytes: Some(bytes) });
    assert_eq!(big.lattice().word(Colour::S00, 0, 0), 1 << 120);
}
