use busy_beaver::gen::{num_machines, All, Gen, Opt, TmGenerator};
use busy_beaver::tm::Tm;

const OPTS: [Opt; 3] = [Opt::KeepAll, Opt::SkipSymmetries, Opt::AlsoSkipHaltZero];

fn all(gen: &Gen) -> Vec<Tm> {
    gen.for_range(0, gen.num_tms())
}

/// Counts the machines with `n` states whose halting transitions all move
/// left.
fn count(n: u8) -> u64 {
    let gen = Gen::new(n, Opt::KeepAll);
    let total = gen.num_tms();
    let mut count = 0;
    let mut start = 0;
    while start < total {
        let stop = std::cmp::min(total, start + 1_000_000);
        for tm in gen.for_range(start, stop) {
            let halts_right = (0..n).any(|s| {
                let state = tm.state(s);
                [state.on_0(), state.on_1()]
                    .iter()
                    .any(|a| a.will_halt() && a.movement() == busy_beaver::tm::Move::Right)
            });
            if !halts_right {
                count += 1;
            }
        }
        start = stop;
    }
    count
}

#[test]
fn total_count_fits() {
    assert_eq!(count(1), num_machines(1));
    assert_eq!(count(2), num_machines(2));
    assert_eq!(count(3), num_machines(3));
}

#[test]
fn gen_total_count_fits() {
    assert_eq!(num_machines(1), 36);
    assert_eq!(num_machines(2), 10_000);
    assert_eq!(num_machines(3), 7_529_536);
    assert_eq!(num_machines(4), 11_019_960_576);
    assert_eq!(num_machines(5), 26_559_922_791_424);
    assert_eq!(num_machines(0), 1);
}

#[test]
fn gen_counts() {
    assert_eq!(Gen::new(1, Opt::KeepAll).num_tms(), 64);
    assert_eq!(Gen::new(1, Opt::SkipSymmetries).num_tms(), 32);
    assert_eq!(Gen::new(1, Opt::AlsoSkipHaltZero).num_tms(), 18);
    assert_eq!(Gen::new(2, Opt::KeepAll).num_tms(), 20_736);
    assert_eq!(Gen::new(2, Opt::SkipSymmetries).num_tms(), 10_368);
    assert_eq!(Gen::new(2, Opt::AlsoSkipHaltZero).num_tms(), 5_000);
    assert_eq!(Gen::new(6, Opt::KeepAll).num_tms(), 232_218_265_089_212_416);
    assert_eq!(Gen::new(3, Opt::KeepAll).num_possible_actions(), 16);
    assert_eq!(Gen::new(3, Opt::SkipSymmetries).num_possible_actions(), 16);
    assert_eq!(Gen::new(3, Opt::AlsoSkipHaltZero).num_possible_actions(), 14);
}

#[test]
fn gen_for_all_yields_num_tms_machines() {
    for n in 1..=2u8 {
        for &opt in OPTS.iter() {
            let gen = Gen::new(n, opt);
            assert_eq!(all(&gen).len() as u64, gen.num_tms());
        }
    }
}

#[test]
fn gen_single_tm_equals_ranged() {
    for n in 1..=2u8 {
        for &opt in OPTS.iter() {
            let gen = Gen::new(n, opt);
            let all = all(&gen);
            for index in 0..gen.num_tms() {
                assert_eq!(all[index as usize], gen.tm_at(index));
            }
        }
    }
}

#[test]
fn gen_chunked_equals_full() {
    for n in 1..=3u8 {
        for &opt in OPTS.iter() {
            let gen = Gen::new(n, opt);
            let chunk_size = match n {
                1 => 5,
                2 => 80,
                _ => 10_000,
            };
            let end = if n == 3 { 200_000 } else { gen.num_tms() };
            let full = gen.for_range(0, end);
            let mut chunked = Vec::new();
            let mut start = 0;
            while start < end {
                let stop = std::cmp::min(end, start + chunk_size);
                chunked.extend(gen.for_range(start, stop));
                start = stop;
            }
            assert_eq!(full, chunked);
        }
    }
}

#[test]
fn gen_all_unique_and_valid() {
    for n in 1..=2u8 {
        for &opt in OPTS.iter() {
            let gen = Gen::new(n, opt);
            let mut ids: Vec<u64> = all(&gen).iter().map(|tm| tm.encoded).collect();
            for &id in ids.iter() {
                assert_eq!(Tm::from_id(n, id).map(|tm| tm.encoded), Some(id));
            }
            ids.sort();
            assert!((0..ids.len() - 1).all(|i| ids[i] != ids[i + 1]));
        }
    }
}

#[test]
fn gen_keep_all_is_every_valid_machine() {
    let gen = Gen::new(1, Opt::KeepAll);
    let mut ids: Vec<u64> = all(&gen).iter().map(|tm| tm.encoded).collect();
    ids.sort();
    let valid: Vec<u64> = (0..1024u64).filter(|&id| Tm::from_id(1, id).is_some()).collect();
    assert_eq!(ids, valid);
}

#[test]
fn gen_skip_symmetries_keeps_no_mirror_pair() {
    for n in 1..=2u8 {
        for &opt in [Opt::SkipSymmetries, Opt::AlsoSkipHaltZero].iter() {
            let gen = Gen::new(n, opt);
            let tms = all(&gen);
            let mut ids: Vec<u64> = tms.iter().map(|tm| tm.encoded).collect();
            ids.sort();
            for tm in tms.iter() {
                // The last transition moves left.
                let last = tm.state(n - 1).on_1();
                assert_eq!(last.movement(), busy_beaver::tm::Move::Left);
                // Its mirror image is not generated.
                let mut mirror = tm.encoded;
                for i in 0..2 * n as u64 {
                    mirror ^= 0b10 << (5 * i);
                }
                assert!(ids.binary_search(&mirror).is_err());
            }
        }
    }
}

#[test]
fn gen_also_skip_halt_zero_has_no_halting_zero() {
    let gen = Gen::new(2, Opt::AlsoSkipHaltZero);
    for tm in all(&gen) {
        for s in 0..2 {
            let state = tm.state(s);
            for action in [state.on_0(), state.on_1()].iter() {
                if action.will_halt() {
                    assert!(action.write_value().0);
                }
            }
        }
    }
}

#[test]
fn gen_first_machines() {
    let gen = Gen::new(2, Opt::KeepAll);
    assert_eq!(gen.tm_at(0).encoded, 0);
    assert_eq!(gen.tm_at(1).encoded, 1);
    assert_eq!(gen.tm_at(12).encoded, 1 << 5);
    assert_eq!(gen.tm_at(13).encoded, (1 << 5) | 1);
    let gen = Gen::new(2, Opt::SkipSymmetries);
    // The last slot's digit 1 is the action code 1, its digit 2 the code 4.
    assert_eq!(gen.tm_at(1728).encoded, 1 << 15);
    assert_eq!(gen.tm_at(3456).encoded, 4 << 15);
    assert_eq!(gen.tm_at(10_367).encoded, pack_last(11, 11, 11, 9));
    let gen = Gen::new(2, Opt::AlsoSkipHaltZero);
    // Digit 9 of a slot is the code 10 (halt, move right, write 1).
    assert_eq!(gen.tm_at(9).encoded, 10);
    assert_eq!(gen.tm_at(4_999).encoded, pack_last(10, 10, 10, 8));
    assert!(gen.for_range(7, 7).is_empty());
    assert_eq!(gen.description(), "All TMs without symmetry and without TMs with H_0 transitions");
}

fn pack_last(a: u64, b: u64, c: u64, d: u64) -> u64 {
    a | (b << 5) | (c << 10) | (d << 15)
}

#[test]
fn gen_all_generator_matches_keep_all() {
    let all = All { n: 2 };
    let gen = Gen::new(2, Opt::KeepAll);
    assert_eq!(TmGenerator::num_tms(&all), 20_736);
    assert_eq!(TmGenerator::num_possible_actions(&all), 12);
    assert_eq!(all.for_all(), gen.for_range(0, gen.num_tms()));
    assert_eq!(all.tm_at(12_345), gen.tm_at(12_345));
    assert_eq!(all.for_range(10, 20), gen.for_range(10, 20));
    assert_eq!(TmGenerator::description(&all), "All TMs");
}

#[test]
fn gen_for_all_through_the_trait() {
    let gen = Gen::new(1, Opt::AlsoSkipHaltZero);
    let tms = TmGenerator::for_all(&gen);
    assert_eq!(tms.len(), 18);
    for (i, tm) in tms.iter().enumerate() {
        assert_eq!(*tm, gen.tm_at(i as u64));
    }
}

/// Flips the direction of every action.
fn mirror(n: u8, encoded: u64) -> u64 {
    let mut out = encoded;
    for i in 0..2 * n as u64 {
        out ^= 0b10 << (5 * i);
    }
    out
}

/// Whether every halting action of the machine writes a one.
fn halts_write_one(n: u8, encoded: u64) -> bool {
    (0..2 * n as u64).all(|i| {
        let code = (encoded >> (5 * i)) & 31;
        code >> 2 != n as u64 || code & 1 == 0
    })
}

#[test]
fn gen_one_of_each_mirror_pair() {
    for n in 1..=2u8 {
        for &opt in [Opt::SkipSymmetries, Opt::AlsoSkipHaltZero].iter() {
            let gen = Gen::new(n, opt);
            let mut ids: Vec<u64> = all(&gen).iter().map(|tm| tm.encoded).collect();
            ids.sort();
            let space = Gen::new(n, Opt::KeepAll);
            let mut pairs = 0;
            for tm in all(&space) {
                if opt == Opt::AlsoSkipHaltZero && !halts_write_one(n, tm.encoded) {
                    assert!(ids.binary_search(&tm.encoded).is_err());
                    continue;
                }
                let here = ids.binary_search(&tm.encoded).is_ok();
                let there = ids.binary_search(&mirror(n, tm.encoded)).is_ok();
                assert!(here != there, "machine {} and its mirror", tm.encoded);
                pairs += 1;
            }
            assert_eq!(pairs, 2 * gen.num_tms());
        }
    }
}

#[test]
fn gen_halting_last_transition_has_one_representative() {
    // A0: 1RA, A1: 0LH and its mirror image A0: 1LA, A1: 0RH.
    let gen = Gen::new(1, Opt::SkipSymmetries);
    let ids: Vec<u64> = all(&gen).iter().map(|tm| tm.encoded).collect();
    assert!(ids.contains(&162));
    assert!(!ids.contains(&(0 | (7 << 5))));
    // A0: 1RA, A1: 1LH and A0: 1LA, A1: 1RH.
    assert!(ids.contains(&(2 | (4 << 5))));
    assert!(!ids.contains(&(6 << 5)));
}

#[test]
fn gen_also_skip_halt_zero_is_complete() {
    let gen = Gen::new(1, Opt::AlsoSkipHaltZero);
    let mut ids: Vec<u64> = all(&gen).iter().map(|tm| tm.encoded).collect();
    ids.sort();
    let expected: Vec<u64> = (0..1024u64)
        .filter(|&id| Tm::from_id(1, id).is_some())
        .filter(|&id| halts_write_one(1, id))
        .filter(|&id| ((id >> 5) & 0b10) == 0)
        .collect();
    assert_eq!(ids, expected);
    assert_eq!(ids.len(), 18);
}

#[test]
fn gen_trait_range_stops_at_the_last_machine() {
    let all = All { n: 1 };
    let tms = all.for_range(60, 1_000);
    assert_eq!(tms.len(), 4);
    assert_eq!(tms[3], all.tm_at(63));
    assert!(all.for_range(64, 70).is_empty());
    assert!(all.for_range(10, 5).is_empty());
    let gen = Gen::new(1, Opt::SkipSymmetries);
    assert_eq!(TmGenerator::for_range(&gen, 30, u64::MAX).len(), 2);
    assert_eq!(TmGenerator::num_possible_actions(&gen), 8);
}

#[test]
fn gen_walk_matches_for_range() {
    for &opt in OPTS.iter() {
        let gen = Gen::new(2, opt);
        let total = gen.num_tms();
        for &(start, end) in [(0, total), (5, 5), (100, 357), (total - 3, total)].iter() {
            let mut walk = gen.walk(start, end);
            let mut walked = Vec::new();
            while let Some(tm) = walk.next() {
                walked.push(tm);
            }
            assert!(walk.next().is_none());
            assert_eq!(walked, gen.for_range(start, end));
        }
    }
}

#[test]
fn gen_walk_over_four_states_without_collecting() {
    let gen = Gen::new(4, Opt::AlsoSkipHaltZero);
    let start = gen.num_tms() - 1000;
    let mut walk = gen.walk(start, gen.num_tms());
    let mut index = start;
    while let Some(tm) = walk.next() {
        if index % 97 == 0 {
            assert_eq!(tm, gen.tm_at(index));
        }
        index += 1;
    }
    assert_eq!(index, gen.num_tms());
}
