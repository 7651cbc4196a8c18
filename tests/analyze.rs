use busy_beaver::analyze::Analyzer;
use busy_beaver::gen::{Gen, Opt};
use busy_beaver::outcome::Outcome;
use busy_beaver::tm::Tm;

/// Packs action codes, lowest slot first.
fn pack(codes: &[u64]) -> u64 {
    let mut out = 0;
    for (i, c) in codes.iter().enumerate() {
        out |= c << (5 * i);
    }
    out
}

fn analyze(n: u8, codes: &[u64], max_steps: u32) -> Outcome {
    let tm = Tm::from_id(n, pack(codes)).expect("valid id");
    Analyzer::new(max_steps).analyze(tm)
}

#[test]
fn analyze_immediate_halt() {
    // A0: 1LH
    assert_eq!(analyze(1, &[4, 0], 100), Outcome::ImmediateHalt { wrote_one: true });
    // A0: 0RH
    assert_eq!(analyze(1, &[7, 0], 100), Outcome::ImmediateHalt { wrote_one: false });
    assert_eq!(
        Analyzer::check_immediate_halt(Tm::from_id(1, pack(&[5, 0])).unwrap()),
        Some(Outcome::ImmediateHalt { wrote_one: false })
    );
    assert_eq!(Analyzer::check_immediate_halt(Tm::from_id(1, 0).unwrap()), None);
}

#[test]
fn analyze_simple_elope() {
    // A0: 1RA
    assert_eq!(analyze(2, &[2, 8, 0, 0], 100), Outcome::SimpleElope);
    assert_eq!(
        Analyzer::check_simple_elope(Tm::from_id(2, 0).unwrap()),
        Some(Outcome::SimpleElope)
    );
    assert_eq!(Analyzer::check_simple_elope(Tm::from_id(2, 4).unwrap()), None);
}

#[test]
fn analyze_no_halt_state() {
    // A0: 1LB, everything else 1LA: no transition halts.
    assert_eq!(analyze(2, &[4, 0, 0, 0], 100), Outcome::NoHaltState);
    assert_eq!(
        Analyzer::check_halt_exists(Tm::from_id(2, 4).unwrap()),
        Some(Outcome::NoHaltState)
    );
    assert_eq!(Analyzer::check_halt_exists(Tm::from_id(2, pack(&[4, 0, 0, 8])).unwrap()), None);
}

#[test]
fn analyze_halt_not_reachable() {
    // A0: 0RB, B0: 0LA, B1: 1LH. No 1 is ever written, so B1 never fires.
    assert_eq!(analyze(2, &[7, 0, 1, 8], 100), Outcome::HaltStateNotReachable);
    // The same, but A0 writes a 1: B1 becomes reachable.
    assert_ne!(analyze(2, &[6, 0, 1, 8], 100), Outcome::HaltStateNotReachable);
}

#[test]
fn analyze_halt_reachable_only_through_ones() {
    // A0: 0RB, B0: 1LC, C0: 1LA, C1: 1LH. The search meets the one written by
    // B0 and starts over with on-1 transitions.
    let tm = Tm::from_id(3, pack(&[7, 0, 4 * 2, 0, 0, 12])).unwrap();
    let mut analyzer = Analyzer::new(100);
    assert_eq!(analyzer.check_halt_reachable(tm), None);
    // A0: 0RB, B0: 0LC, C0: 0LA, C1: 1LH: nothing writes a one.
    let tm = Tm::from_id(3, pack(&[7, 0, 4 * 2 + 1, 0, 1, 12])).unwrap();
    assert_eq!(analyzer.check_halt_reachable(tm), Some(Outcome::HaltStateNotReachable));
}

#[test]
fn analyze_two_state_busy_beaver() {
    // A0: 1RB, A1: 1LB, B0: 1LA, B1: 1RH
    let codes = [6, 4, 0, 10];
    assert_eq!(analyze(2, &codes, 6), Outcome::Halted { steps: 6, ones: 4 });
    assert_eq!(analyze(2, &codes, 200), Outcome::Halted { steps: 6, ones: 4 });
    assert_eq!(analyze(2, &codes, 3), Outcome::AbortedAfterMaxSteps);
    assert_eq!(analyze(2, &codes, 5), Outcome::AbortedAfterMaxSteps);
    assert!(analyze(2, &codes, 3).was_aborted());
    assert!(!analyze(2, &codes, 6).was_aborted());
}

#[test]
fn analyze_three_state_busy_beaver() {
    // A0: 1RB, A1: 1RH, B0: 0RC, B1: 1RB, C0: 1LC, C1: 1LA
    let codes = [6, 14, 4 * 2 + 3, 6, 4 * 2, 0];
    assert_eq!(analyze(3, &codes, 200), Outcome::Halted { steps: 14, ones: 6 });
}

#[test]
fn analyze_run_away_detected() {
    // A0: 1RB, A1: 1RH, B0: 1RA: runs right forever over blank cells.
    assert_eq!(analyze(2, &[6, 10, 2, 0], 1_000_000), Outcome::RunAwayDetected);
}

#[test]
fn analyze_run_away_after_a_detour() {
    // A0: 1RB, A1: 1LH, B0: 1LC, C0: 1LC, C1: 1LC. The head comes back into
    // the written range once, then C runs left for ever.
    let outcome = analyze(3, &[6, 12, 8, 0, 8, 8], 1_000_000);
    assert_eq!(outcome, Outcome::RunAwayDetected);
}

#[test]
fn analyze_bouncing_machine_halts() {
    // A0: 1RB, A1: 1LA, B0: 1LA, B1: 1RH
    assert_eq!(analyze(2, &[6, 0, 0, 10], 100), Outcome::Halted { steps: 5, ones: 3 });
}

#[test]
fn analyze_run_tm_directly() {
    let tm = Tm::from_id(2, pack(&[6, 4, 0, 10])).unwrap();
    let mut analyzer = Analyzer::new(200);
    assert_eq!(analyzer.run_tm(tm), Outcome::Halted { steps: 6, ones: 4 });
    // The analyzer is reused: the tape is cleared between runs.
    assert_eq!(analyzer.run_tm(tm), Outcome::Halted { steps: 6, ones: 4 });
}

#[test]
fn analyze_zero_step_limit_stops_after_one_step() {
    assert_eq!(analyze(2, &[6, 4, 0, 10], 0), Outcome::AbortedAfterMaxSteps);
}

#[test]
fn analyze_every_two_state_machine() {
    let gen = Gen::new(2, Opt::KeepAll);
    let mut analyzer = Analyzer::new(100);
    let mut best = 0;
    let mut halted = 0;
    for tm in gen.for_range(0, gen.num_tms()) {
        if let Outcome::Halted { steps, ones } = analyzer.analyze(tm) {
            assert!(steps <= 100);
            halted += 1;
            if ones > best {
                best = ones;
            }
        }
    }
    assert_eq!(best, 4);
    assert!(halted > 0);
}
