use busy_beaver::tape::{CellId, CellValue, Tape};

fn check_empty(tape: &Tape) {
    for i in -200..200 {
        assert_eq!(tape.get(CellId(i)), CellValue(false), "at cell {}", i);
    }

    assert_eq!(tape.get(CellId(-123_456)), CellValue(false));
    assert_eq!(tape.get(CellId(8_764_243)), CellValue(false));
    assert_eq!(tape.written_range(), CellId(0)..CellId(0));
}

fn check_write_at_0(tape: &mut Tape) {
    tape.write(CellId(0), CellValue(false));
    assert_eq!(tape.written_range(), CellId(0)..CellId(1));
    for i in -200..200 {
        assert_eq!(tape.get(CellId(i)), CellValue(false), "at cell {}", i);
    }

    tape.write(CellId(0), CellValue(true));
    assert_eq!(tape.written_range(), CellId(0)..CellId(1));
    assert_eq!(tape.get(CellId(0)), CellValue(true));
    for i in (-200..0).chain(1..200) {
        assert_eq!(tape.get(CellId(i)), CellValue(false), "at cell {}", i);
    }
}

fn check_write_far_away(tape: &mut Tape) {
    tape.write(CellId(10), CellValue(true));
    assert_eq!(tape.written_range(), CellId(0)..CellId(11));
    assert_eq!(tape.get(CellId(10)), CellValue(true));
    for i in (-200..10).chain(11..200) {
        assert_eq!(tape.get(CellId(i)), CellValue(false), "at cell {}", i);
    }

    tape.write(CellId(-5), CellValue(true));
    assert_eq!(tape.written_range(), CellId(-5)..CellId(11));
    assert_eq!(tape.get(CellId(10)), CellValue(true));
    assert_eq!(tape.get(CellId(-5)), CellValue(true));
    for i in (-200..-5).chain(-4..10).chain(11..200) {
        assert_eq!(tape.get(CellId(i)), CellValue(false), "at cell {}", i);
    }

    tape.write(CellId(-4_321), CellValue(true));
    assert_eq!(tape.written_range(), CellId(-4_321)..CellId(11));
    assert_eq!(tape.get(CellId(10)), CellValue(true));
    assert_eq!(tape.get(CellId(-5)), CellValue(true));
    assert_eq!(tape.get(CellId(-4_321)), CellValue(true));
    for i in (-6_000..-4_321).chain(-4320..-5).chain(-4..10).chain(11..6_000) {
        assert_eq!(tape.get(CellId(i)), CellValue(false), "at cell {}", i);
    }

    tape.write(CellId(56_789), CellValue(true));
    assert_eq!(tape.written_range(), CellId(-4_321)..CellId(56_789 + 1));
    assert_eq!(tape.get(CellId(10)), CellValue(true));
    assert_eq!(tape.get(CellId(-5)), CellValue(true));
    assert_eq!(tape.get(CellId(-4_321)), CellValue(true));
    assert_eq!(tape.get(CellId(56_789)), CellValue(true));
    for i in (-100_000..-4_321)
        .chain(-4320..-5)
        .chain(-4..10)
        .chain(11..56_789)
        .chain(56_789 + 1..100_000)
    {
        assert_eq!(tape.get(CellId(i)), CellValue(false), "at cell {}", i);
    }
}

#[test]
fn tape_empty_tape() {
    let tape = Tape::new();


    for i in -200..200 {
        assert_eq!(tape.get(CellId(i)), CellValue(false), "at cell {}", i);
    }

    assert_eq!(tape.get(CellId(-123_456)), CellValue(false));
    assert_eq!(tape.get(CellId(8_764_243)), CellValue(false));
    assert_eq!(tape.written_range(), CellId(0)..CellId(0));
}

#[test]
fn tape_write_at_0() {
    let mut tape = Tape::new();


    tape.write(CellId(0), CellValue(false));
    assert_eq!(tape.written_range(), CellId(0)..CellId(1));
    for i in -200..200 {
        assert_eq!(tape.get(CellId(i)), CellValue(false), "at cell {}", i);
    }

    tape.write(CellId(0), CellValue(true));
    assert_eq!(tape.written_range(), CellId(0)..CellId(1));
    assert_eq!(tape.get(CellId(0)), CellValue(true));
    for i in (-200..0).chain(1..200) {
        assert_eq!(tape.get(CellId(i)), CellValue(false), "at cell {}", i);
    }
}

#[test]
fn tape_write_far_away() {
    let mut tape = Tape::new();


    tape.write(CellId(10), CellValue(true));
    assert_eq!(tape.written_range(), CellId(0)..CellId(11));
    assert_eq!(tape.get(CellId(10)), CellValue(true));
    for i in (-200..10).chain(11..200) {
        assert_eq!(tape.get(CellId(i)), CellValue(false), "at cell {}", i);
    }

    tape.write(CellId(-5), CellValue(true));
    assert_eq!(tape.written_range(), CellId(-5)..CellId(11));
    assert_eq!(tape.get(CellId(10)), CellValue(true));
    assert_eq!(tape.get(CellId(-5)), CellValue(true));
    for i in (-200..-5).chain(-4..10).chain(11..200) {
        assert_eq!(tape.get(CellId(i)), CellValue(false), "at cell {}", i);
    }

    tape.write(CellId(-4_321), CellValue(true));
    assert_eq!(tape.written_range(), CellId(-4_321)..CellId(11));
    assert_eq!(tape.get(CellId(10)), CellValue(true));
    assert_eq!(tape.get(CellId(-5)), CellValue(true));
    assert_eq!(tape.get(CellId(-4_321)), CellValue(true));
    for i in (-6_000..-4_321).chain(-4320..-5).chain(-4..10).chain(11..6_000) {
        assert_eq!(tape.get(CellId(i)), CellValue(false), "at cell {}", i);
    }

    tape.write(CellId(56_789), CellValue(true));
    assert_eq!(tape.written_range(), CellId(-4_321)..CellId(56_789 + 1));
    assert_eq!(tape.get(CellId(10)), CellValue(true));
    assert_eq!(tape.get(CellId(-5)), CellValue(true));
    assert_eq!(tape.get(CellId(-4_321)), CellValue(true));
    assert_eq!(tape.get(CellId(56_789)), CellValue(true));
    for i in (-100_000..-4_321)
        .chain(-4320..-5)
        .chain(-4..10)
        .chain(11..56_789)
        .chain(56_789 + 1..100_000)
    {
        assert_eq!(tape.get(CellId(i)), CellValue(false), "at cell {}", i);
    }
}

#[test]
fn tests_empty_tape() {
    let tape = Tape::new();

    for i in -200..200 {
        assert_eq!(tape.get(CellId(i)), CellValue(false), "at cell {}", i);
    }

    assert_eq!(tape.get(CellId(-123_456)), CellValue(false));
    assert_eq!(tape.get(CellId(8_764_243)), CellValue(false));
    assert_eq!(tape.written_range(), CellId(0)..CellId(0));
}

#[test]
fn tests_write_at_0() {
    let mut tape = Tape::new();

    tape.write(CellId(0), CellValue(false));
    assert_eq!(tape.written_range(), CellId(0)..CellId(1));
    for i in -200..200 {
        assert_eq!(tape.get(CellId(i)), CellValue(false), "at cell {}", i);
    }

    tape.write(CellId(0), CellValue(true));
    assert_eq!(tape.written_range(), CellId(0)..CellId(1));
    assert_eq!(tape.get(CellId(0)), CellValue(true));
    for i in (-200..0).chain(1..200) {
        assert_eq!(tape.get(CellId(i)), CellValue(false), "at cell {}", i);
    }
}

#[test]
fn tests_write_far_away() {
    let mut tape = Tape::new();


    tape.write(CellId(10), CellValue(true));
    assert_eq!(tape.written_range(), CellId(0)..CellId(11));
    assert_eq!(tape.get(CellId(10)), CellValue(true));
    for i in (-200..10).chain(11..200) {
        assert_eq!(tape.get(CellId(i)), CellValue(false), "at cell {}", i);
    }

    tape.write(CellId(-5), CellValue(true));
    assert_eq!(tape.written_range(), CellId(-5)..CellId(11));
    assert_eq!(tape.get(CellId(10)), CellValue(true));
    assert_eq!(tape.get(CellId(-5)), CellValue(true));
    for i in (-200..-5).chain(-4..10).chain(11..200) {
        assert_eq!(tape.get(CellId(i)), CellValue(false), "at cell {}", i);
    }

    tape.write(CellId(-4_321), CellValue(true));
    assert_eq!(tape.written_range(), CellId(-4_321)..CellId(11));
    assert_eq!(tape.get(CellId(10)), CellValue(true));
    assert_eq!(tape.get(CellId(-5)), CellValue(true));
    assert_eq!(tape.get(CellId(-4_321)), CellValue(true));
    for i in (-6_000..-4_321).chain(-4320..-5).chain(-4..10).chain(11..6_000) {
        assert_eq!(tape.get(CellId(i)), CellValue(false), "at cell {}", i);
    }

    tape.write(CellId(56_789), CellValue(true));
    assert_eq!(tape.written_range(), CellId(-4_321)..CellId(56_789 + 1));
    assert_eq!(tape.get(CellId(10)), CellValue(true));
    assert_eq!(tape.get(CellId(-5)), CellValue(true));
    assert_eq!(tape.get(CellId(-4_321)), CellValue(true));
    assert_eq!(tape.get(CellId(56_789)), CellValue(true));
    for i in (-100_000..-4_321)
        .chain(-4320..-5)
        .chain(-4..10)
        .chain(11..56_789)
        .chain(56_789 + 1..100_000)
    {
        assert_eq!(tape.get(CellId(i)), CellValue(false), "at cell {}", i);
    }
}

#[test]
fn tape_scattered_writes_report_their_range() {
    let mut tape = Tape::new();
    tape.write(CellId(10), CellValue(true));
    tape.write(CellId(-4_321), CellValue(true));
    tape.write(CellId(56_789), CellValue(true));
    assert_eq!(tape.written_range(), CellId(-4_321)..CellId(56_790));
    for i in (-200_000..-4_321).chain(56_790..200_000) {
        assert_eq!(tape.get(CellId(i)), CellValue(false), "at cell {}", i);
    }
    assert_eq!(tape.get(CellId(i64::MIN)), CellValue(false));
    assert_eq!(tape.get(CellId(i64::MAX)), CellValue(false));
}

#[test]
fn tape_read_after_write() {
    let mut tape = Tape::new();
    let ids = [3i64, -1, 700, -700, 3, 0, 64, -64, 65, -65];
    let mut value = true;
    for &id in ids.iter() {
        tape.write(CellId(id), CellValue(value));
        assert_eq!(tape.get(CellId(id)), CellValue(value), "at cell {}", id);
        value = !value;
    }
    // The cell written twice keeps its last value.
    assert_eq!(tape.get(CellId(3)), CellValue(true));
    assert_eq!(tape.written_range(), CellId(-700)..CellId(701));
}

#[test]
fn tape_clear_resets_everything() {
    let mut tape = Tape::new();
    check_write_far_away(&mut tape);
    tape.clear();
    check_empty(&tape);
    check_write_at_0(&mut tape);
    tape.clear();
    check_write_far_away(&mut tape);
}

#[test]
fn tape_grows_to_the_limit_of_a_run() {
    let mut tape = Tape::new();
    tape.write(CellId(-3_000_000), CellValue(true));
    tape.write(CellId(3_000_000), CellValue(true));
    assert_eq!(tape.written_range(), CellId(-3_000_000)..CellId(3_000_001));
    assert_eq!(tape.get(CellId(-3_000_000)), CellValue(true));
    assert_eq!(tape.get(CellId(3_000_000)), CellValue(true));
    assert_eq!(tape.get(CellId(0)), CellValue(false));
}

#[test]
fn tape_clear_keeps_the_buffer() {
    let mut tape = Tape::new();
    assert_eq!(tape.num_stored_bits(), 64);
    tape.write(CellId(-1_000), CellValue(true));
    tape.write(CellId(5_000), CellValue(true));
    let bits = tape.num_stored_bits();
    assert!(bits >= 6_000);
    tape.clear();
    assert_eq!(tape.num_stored_bits(), bits);
    assert_eq!(tape.written_range(), CellId(0)..CellId(0));
    // Writes within half the buffer to either side need no growth.
    tape.write(CellId(-(bits as i64) / 2 + 1), CellValue(true));
    tape.write(CellId((bits as i64) / 2 - 1), CellValue(true));
    assert_eq!(tape.num_stored_bits(), bits);
}

#[test]
fn tape_growth_at_least_doubles() {
    let mut tape = Tape::new();
    let mut id = 0i64;
    let mut bits = tape.num_stored_bits();
    for _ in 0..20 {
        id += 50;
        tape.write(CellId(id), CellValue(true));
        let now = tape.num_stored_bits();
        if now != bits {
            assert!(now > 2 * bits);
            bits = now;
        }
    }
}
