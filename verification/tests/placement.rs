use rand::rngs::StdRng;
use rand::SeedableRng;
use stick_ants::order::sort_by_position;
use stick_ants::placement::{draw, place, regular, regular_position};
use stick_ants::{Ant, AntRod, AntType, Args, Direction, InvalidConfiguration, ROD_LENGTH};

fn ant(position: i64, direction: Direction, typ: AntType) -> Ant {
    Ant { position, direction, typ }
}

fn args(ant_count: usize, molly_index: Option<usize>, ant_step: u32, regular: bool) -> Args {
    Args { ant_count, molly_index, ant_step, regular }
}

#[test]
fn sort_orders_by_position() {
    let mut ants = vec![
        ant(30, Direction::Forward, AntType::Plain),
        ant(10, Direction::Backward, AntType::Molly),
        ant(20, Direction::Forward, AntType::Plain),
    ];
    sort_by_position(&mut ants);
    assert_eq!(
        ants,
        vec![
            ant(10, Direction::Backward, AntType::Molly),
            ant(20, Direction::Forward, AntType::Plain),
            ant(30, Direction::Forward, AntType::Plain),
        ]
    );
}

#[test]
fn sort_keeps_the_order_of_ants_at_one_position() {
    let mut ants = vec![
        ant(5, Direction::Forward, AntType::Plain),
        ant(3, Direction::Backward, AntType::Plain),
        ant(5, Direction::Backward, AntType::Molly),
        ant(1, Direction::Forward, AntType::Plain),
        ant(5, Direction::Forward, AntType::Empty),
    ];
    sort_by_position(&mut ants);
    assert_eq!(
        ants,
        vec![
            ant(1, Direction::Forward, AntType::Plain),
            ant(3, Direction::Backward, AntType::Plain),
            ant(5, Direction::Forward, AntType::Plain),
            ant(5, Direction::Backward, AntType::Molly),
            ant(5, Direction::Forward, AntType::Empty),
        ]
    );
}

#[test]
fn sort_of_nothing_and_of_one() {
    let mut none: Vec<Ant> = Vec::new();
    sort_by_position(&mut none);
    assert!(none.is_empty());
    let mut one = vec![ant(-4, Direction::Forward, AntType::Plain)];
    sort_by_position(&mut one);
    assert_eq!(one, vec![ant(-4, Direction::Forward, AntType::Plain)]);
}

#[test]
fn sort_of_a_reversed_sequence() {
    let mut ants: Vec<Ant> =
        (0..50).rev().map(|p| ant(p, Direction::Forward, AntType::Plain)).collect();
    sort_by_position(&mut ants);
    let positions: Vec<i64> = ants.iter().map(|a| a.position).collect();
    assert_eq!(positions, (0..50).collect::<Vec<i64>>());
}

#[test]
fn sort_agrees_with_a_stable_sort_on_many_ties() {
    let mut seed: u64 = 12345;
    for len in 0..120 {
        let mut ants = Vec::new();
        for k in 0..len {
            seed = seed.wrapping_mul(6364136223846793005).wrapping_add(1442695040888963407);
            let position = ((seed >> 33) % 7) as i64 - 3;
            // the direction and the kind tell ants at one position apart
            let direction = if k % 2 == 0 { Direction::Forward } else { Direction::Backward };
            let typ = match k % 3 {
                0 => AntType::Plain,
                1 => AntType::Molly,
                _ => AntType::Empty,
            };
            ants.push(ant(position, direction, typ));
        }
        let mut want = ants.clone();
        want.sort_by_key(|a| a.position);
        sort_by_position(&mut ants);
        assert_eq!(ants, want);
    }
}

#[test]
fn sort_of_many_ants() {
    let mut ants: Vec<Ant> = (0..100_000)
        .map(|k: i64| ant((k * 7919) % 100_003, Direction::Forward, AntType::Plain))
        .collect();
    let mut want = ants.clone();
    want.sort_by_key(|a| a.position);
    sort_by_position(&mut ants);
    assert_eq!(ants, want);
}

#[test]
fn regular_position_is_the_unit_at_or_before_the_point() {
    assert_eq!(regular_position(3, 0), 250_000_000);
    assert_eq!(regular_position(3, 1), 500_000_000);
    assert_eq!(regular_position(3, 2), 750_000_000);
    assert_eq!(regular_position(2, 0), 333_333_333);
    assert_eq!(regular_position(999_999_999, 0), 1);
    assert_eq!(regular_position(999_999_999, 999_999_998), 999_999_999);
}

#[test]
fn regular_position_is_never_the_near_end() {
    assert_eq!(regular_position(1_000_000_000, 0), 1);
    assert_eq!(regular_position(1_000_000_000, 1), 1);
    assert_eq!(regular_position(1_000_000_000, 2), 2);
    assert_eq!(regular_position(2_000_000_000, 0), 1);
    assert_eq!(regular_position(2_000_000_000, 2), 1);
    assert_eq!(regular_position(2_000_000_000, 4), 2);
    assert_eq!(regular_position(2_000_000_000, 1_999_999_999), 999_999_999);
    assert_eq!(regular_position(usize::MAX, 0), 1);
    assert_eq!(regular_position(usize::MAX, usize::MAX - 1), 999_999_999);
}

#[test]
fn regular_three() {
    assert_eq!(
        regular(3),
        vec![
            ant(250_000_000, Direction::Forward, AntType::Plain),
            ant(500_000_000, Direction::Forward, AntType::Molly),
            ant(750_000_000, Direction::Backward, AntType::Plain),
        ]
    );
}

#[test]
fn regular_even_count_has_molly_at_half_the_count() {
    assert_eq!(
        regular(4),
        vec![
            ant(200_000_000, Direction::Forward, AntType::Plain),
            ant(400_000_000, Direction::Forward, AntType::Plain),
            ant(600_000_000, Direction::Forward, AntType::Molly),
            ant(800_000_000, Direction::Backward, AntType::Plain),
        ]
    );
}

#[test]
fn regular_rounds_down_to_a_unit() {
    assert_eq!(
        regular(2),
        vec![
            ant(333_333_333, Direction::Forward, AntType::Plain),
            ant(666_666_666, Direction::Forward, AntType::Molly),
        ]
    );
}

#[test]
fn regular_none_and_one() {
    assert!(regular(0).is_empty());
    assert_eq!(regular(1), vec![ant(500_000_000, Direction::Forward, AntType::Molly)]);
}

#[test]
fn draw_gives_the_count_on_the_rod() {
    let mut rng = StdRng::seed_from_u64(11);
    let ants = draw(40, &mut rng);
    assert_eq!(ants.len(), 40);
    for a in &ants {
        assert!(0 < a.position && a.position < ROD_LENGTH);
        assert_eq!(a.typ, AntType::Plain);
    }
    assert!(draw(0, &mut rng).is_empty());
}

#[test]
fn place_sorts_and_names_molly_by_rank() {
    let drawn = vec![
        ant(700, Direction::Backward, AntType::Plain),
        ant(100, Direction::Forward, AntType::Plain),
        ant(400, Direction::Backward, AntType::Plain),
    ];
    assert_eq!(
        place(drawn, 1),
        vec![
            ant(100, Direction::Forward, AntType::Plain),
            ant(400, Direction::Backward, AntType::Molly),
            ant(700, Direction::Backward, AntType::Plain),
        ]
    );
}

#[test]
fn place_overwrites_the_kinds_that_came() {
    let drawn = vec![
        ant(9, Direction::Forward, AntType::Molly),
        ant(9, Direction::Backward, AntType::Empty),
        ant(2, Direction::Forward, AntType::Molly),
    ];
    assert_eq!(
        place(drawn, 2),
        vec![
            ant(2, Direction::Forward, AntType::Plain),
            ant(9, Direction::Forward, AntType::Plain),
            ant(9, Direction::Backward, AntType::Molly),
        ]
    );
}

#[test]
fn place_with_a_rank_that_no_ant_has_names_no_molly() {
    let drawn = vec![ant(3, Direction::Forward, AntType::Plain)];
    assert_eq!(place(drawn, 1), vec![ant(3, Direction::Forward, AntType::Plain)]);
    assert!(place(Vec::new(), 0).is_empty());
}

#[test]
fn check_accepts_and_rejects() {
    assert_eq!(args(4, Some(3), 1, false).check(), Ok(()));
    assert_eq!(args(4, None, 1, true).check(), Ok(()));
    assert_eq!(args(0, None, 1, true).check(), Ok(()));
    assert_eq!(args(4, Some(4), 1, false).check(), Err(InvalidConfiguration::MollyIndex));
    assert_eq!(args(0, Some(0), 1, false).check(), Err(InvalidConfiguration::MollyIndex));
    assert_eq!(args(4, Some(0), 0, false).check(), Err(InvalidConfiguration::AntStep));
    assert_eq!(args(4, Some(9), 0, false).check(), Err(InvalidConfiguration::MollyIndex));
}

#[test]
fn new_gives_the_parameters_or_what_is_wrong_with_them() {
    let a = Args::new(40, Some(30), 5, false).unwrap();
    assert_eq!((a.ant_count, a.molly_index, a.ant_step, a.regular), (40, Some(30), 5, false));
    let b = Args::new(7, None, 1, true).unwrap();
    assert_eq!((b.ant_count, b.molly_index, b.ant_step, b.regular), (7, None, 1, true));
    assert_eq!(b.molly_rank(), 3);
    assert!(Args::new(0, None, 1, false).is_ok());
    assert!(matches!(Args::new(4, Some(4), 1, false), Err(InvalidConfiguration::MollyIndex)));
    assert!(matches!(
        Args::new(4, Some(usize::MAX), 1, true),
        Err(InvalidConfiguration::MollyIndex)
    ));
    assert!(matches!(Args::new(0, Some(0), 1, false), Err(InvalidConfiguration::MollyIndex)));
    assert!(matches!(Args::new(4, Some(3), 0, false), Err(InvalidConfiguration::AntStep)));
    assert!(matches!(Args::new(4, None, 0, true), Err(InvalidConfiguration::AntStep)));
    assert!(matches!(Args::new(4, Some(4), 0, true), Err(InvalidConfiguration::MollyIndex)));
}

#[test]
fn regular_ants_start_inside_the_rod() {
    for count in [1, 2, 3, 10, 999, 100_000] {
        let ants = regular(count);
        assert_eq!(ants.len(), count);
        for a in &ants {
            assert!(0 < a.position && a.position < ROD_LENGTH);
        }
    }
}

#[test]
fn molly_rank_is_the_one_given_or_the_middle() {
    assert_eq!(args(25, None, 1, false).molly_rank(), 12);
    assert_eq!(args(4, None, 1, false).molly_rank(), 2);
    assert_eq!(args(4, Some(0), 1, false).molly_rank(), 0);
    assert_eq!(args(0, None, 1, false).molly_rank(), 0);
}

#[test]
fn single_regular_ant_is_molly_in_the_middle() {
    let mut rng = StdRng::seed_from_u64(0);
    let rod = AntRod::from_args(&args(1, None, 100_000_000, true), &mut rng).unwrap();
    assert_eq!(rod.ants(), &vec![ant(500_000_000, Direction::Forward, AntType::Molly)]);
    assert_eq!(rod.time(), 0);
    assert_eq!(rod.ant_step(), 100_000_000);
    assert!(rod.has_ants());
}

#[test]
fn three_regular_ants() {
    let mut rng = StdRng::seed_from_u64(0);
    let rod = AntRod::from_args(&args(3, None, 100_000_000, true), &mut rng).unwrap();
    let positions: Vec<i64> = rod.ants().iter().map(|a| a.position).collect();
    let kinds: Vec<AntType> = rod.ants().iter().map(|a| a.typ).collect();
    let directions: Vec<Direction> = rod.ants().iter().map(|a| a.direction).collect();
    assert_eq!(positions, vec![250_000_000, 500_000_000, 750_000_000]);
    assert_eq!(kinds, vec![AntType::Plain, AntType::Molly, AntType::Plain]);
    assert_eq!(directions, vec![Direction::Forward, Direction::Forward, Direction::Backward]);
}

#[test]
fn molly_index_equal_to_the_count_is_refused() {
    let mut rng = StdRng::seed_from_u64(0);
    let r = AntRod::from_args(&args(4, Some(4), 1_000_000, false), &mut rng);
    assert!(matches!(r, Err(InvalidConfiguration::MollyIndex)));
}

#[test]
fn no_ants_is_over_at_once() {
    let mut rng = StdRng::seed_from_u64(0);
    for regular in [true, false] {
        let rod = AntRod::from_args(&args(0, None, 1_000_000, regular), &mut rng).unwrap();
        assert!(rod.ants().is_empty());
        assert!(!rod.has_ants());
        assert_eq!(rod.time(), 0);
    }
}

#[test]
fn molly_index_is_checked_in_regular_mode_too() {
    let mut rng = StdRng::seed_from_u64(0);
    let r = AntRod::from_args(&args(3, Some(3), 1, true), &mut rng);
    assert!(matches!(r, Err(InvalidConfiguration::MollyIndex)));
}

#[test]
fn regular_mode_puts_molly_in_the_middle_whatever_index_is_given() {
    let mut rng = StdRng::seed_from_u64(0);
    let rod = AntRod::from_args(&args(3, Some(0), 1, true), &mut rng).unwrap();
    let kinds: Vec<AntType> = rod.ants().iter().map(|a| a.typ).collect();
    assert_eq!(kinds, vec![AntType::Plain, AntType::Molly, AntType::Plain]);
}

#[test]
fn a_step_of_zero_is_refused() {
    let mut rng = StdRng::seed_from_u64(0);
    for regular in [true, false] {
        let r = AntRod::from_args(&args(5, None, 0, regular), &mut rng);
        assert!(matches!(r, Err(InvalidConfiguration::AntStep)));
    }
}

#[test]
fn a_bad_molly_index_is_named_before_a_bad_step() {
    let mut rng = StdRng::seed_from_u64(0);
    let r = AntRod::from_args(&args(5, Some(5), 0, false), &mut rng);
    assert!(matches!(r, Err(InvalidConfiguration::MollyIndex)));
}

#[test]
fn random_placement_is_sorted_with_molly_at_her_rank() {
    for seed in 0..20 {
        let mut rng = StdRng::seed_from_u64(seed);
        let rod = AntRod::from_args(&args(30, Some(7), 1_000_000, false), &mut rng).unwrap();
        let ants = rod.ants();
        assert_eq!(ants.len(), 30);
        for w in ants.windows(2) {
            assert!(w[0].position <= w[1].position);
        }
        for (i, a) in ants.iter().enumerate() {
            assert!(0 < a.position && a.position < ROD_LENGTH);
            assert_eq!(a.typ, if i == 7 { AntType::Molly } else { AntType::Plain });
        }
    }
}

#[test]
fn random_placement_defaults_to_molly_at_half_the_count() {
    let mut rng = StdRng::seed_from_u64(5);
    let rod = AntRod::from_args(&args(25, None, 1_000_000, false), &mut rng).unwrap();
    for (i, a) in rod.ants().iter().enumerate() {
        assert_eq!(a.typ == AntType::Molly, i == 12);
    }
}

#[test]
fn random_placement_spreads_the_ants() {
    let mut rng = StdRng::seed_from_u64(6);
    let rod = AntRod::from_args(&args(64, None, 1_000_000, false), &mut rng).unwrap();
    let ants = rod.ants();
    assert!(ants.first().unwrap().position < ants.last().unwrap().position);
    assert!(ants.iter().any(|a| a.direction == Direction::Forward));
    assert!(ants.iter().any(|a| a.direction == Direction::Backward));
}

#[test]
fn random_placement_repeats_with_the_seed() {
    let mut one = StdRng::seed_from_u64(8);
    let mut two = StdRng::seed_from_u64(8);
    let a = AntRod::from_args(&args(25, None, 1_000_000, false), &mut one).unwrap();
    let b = AntRod::from_args(&args(25, None, 1_000_000, false), &mut two).unwrap();
    assert_eq!(a.ants(), b.ants());
}
