use rand::rngs::StdRng;
use rand::SeedableRng;
use stick_ants::{Ant, AntType, Direction, ROD_LENGTH};

fn ant(position: i64, direction: Direction, typ: AntType) -> Ant {
    Ant { position, direction, typ }
}

#[test]
fn rod_length_is_a_billion_units() {
    assert_eq!(ROD_LENGTH, 1_000_000_000);
}

#[test]
fn set_keeps_molly_under_a_plain_ant() {
    let mut t = AntType::Molly;
    t.set(AntType::Plain);
    assert_eq!(t, AntType::Molly);
}

#[test]
fn set_overwrites_in_every_other_case() {
    let all = [AntType::Empty, AntType::Plain, AntType::Molly];
    for was in all {
        for other in all {
            if was == AntType::Molly && other == AntType::Plain {
                continue;
            }
            let mut t = was;
            t.set(other);
            assert_eq!(t, other);
        }
    }
}

#[test]
fn set_lets_an_empty_cell_cover_molly() {
    let mut t = AntType::Molly;
    t.set(AntType::Empty);
    assert_eq!(t, AntType::Empty);
}

#[test]
fn to_string_draws_each_kind() {
    assert_eq!(AntType::Empty.to_string(), "\x1b[47m \x1b[0m");
    assert_eq!(AntType::Plain.to_string(), "\x1b[30m\x1b[47m●\x1b[0m");
    assert_eq!(AntType::Molly.to_string(), "\x1b[35m\x1b[47m●\x1b[0m");
}

#[test]
fn default_kind_is_empty() {
    assert_eq!(AntType::default(), AntType::Empty);
}

#[test]
fn advance_walks_forward() {
    let mut a = ant(250_000_000, Direction::Forward, AntType::Plain);
    a.advance(100_000_000);
    assert_eq!(a, ant(350_000_000, Direction::Forward, AntType::Plain));
}

#[test]
fn advance_walks_backward() {
    let mut a = ant(250_000_000, Direction::Backward, AntType::Molly);
    a.advance(100_000_000);
    assert_eq!(a, ant(150_000_000, Direction::Backward, AntType::Molly));
}

#[test]
fn advance_may_leave_the_rod_at_either_end() {
    let mut a = ant(ROD_LENGTH - 1, Direction::Forward, AntType::Plain);
    a.advance(u32::MAX);
    assert_eq!(a.position, ROD_LENGTH - 1 + 4_294_967_295);
    let mut b = ant(0, Direction::Backward, AntType::Plain);
    b.advance(u32::MAX);
    assert_eq!(b.position, -4_294_967_295);
}

#[test]
fn advance_by_nothing_stays() {
    let mut a = ant(7, Direction::Backward, AntType::Plain);
    a.advance(0);
    assert_eq!(a.position, 7);
}

#[test]
fn drawn_ant_stands_where_drawn_and_walks_as_drawn() {
    assert_eq!(Ant::drawn(1, true), ant(1, Direction::Forward, AntType::Plain));
    assert_eq!(Ant::drawn(1, false), ant(1, Direction::Backward, AntType::Plain));
    assert_eq!(
        Ant::drawn(ROD_LENGTH - 1, true),
        ant(ROD_LENGTH - 1, Direction::Forward, AntType::Plain)
    );
    assert_eq!(
        Ant::drawn(123_456_789, false),
        ant(123_456_789, Direction::Backward, AntType::Plain)
    );
}

#[test]
fn random_ant_is_plain_and_inside_the_rod() {
    let mut rng = StdRng::seed_from_u64(1);
    for _ in 0..2000 {
        let a = Ant::random(&mut rng);
        assert!(0 < a.position && a.position < ROD_LENGTH);
        assert_eq!(a.typ, AntType::Plain);
    }
}

#[test]
fn random_ants_differ_in_position_and_direction() {
    let mut rng = StdRng::seed_from_u64(2);
    let first = Ant::random(&mut rng);
    let mut other_position = false;
    let mut forward = first.direction == Direction::Forward;
    let mut backward = first.direction == Direction::Backward;
    for _ in 0..200 {
        let a = Ant::random(&mut rng);
        other_position = other_position || a.position != first.position;
        forward = forward || a.direction == Direction::Forward;
        backward = backward || a.direction == Direction::Backward;
    }
    assert!(other_position);
    assert!(forward);
    assert!(backward);
}

#[test]
fn random_ants_repeat_with_the_seed() {
    let mut one = StdRng::seed_from_u64(3);
    let mut two = StdRng::seed_from_u64(3);
    for _ in 0..50 {
        assert_eq!(Ant::random(&mut one), Ant::random(&mut two));
    }
}
