use rand::rngs::StdRng;
use rand::SeedableRng;
use stick_ants::{Ant, AntRod, AntType, Args, Direction, Drawer};

const CLEAR: &str = "\x1b[2F\x1b[0J";
const EMPTY: &str = "\x1b[47m \x1b[0m";
const PLAIN: &str = "\x1b[30m\x1b[47m●\x1b[0m";
const MOLLY: &str = "\x1b[35m\x1b[47m●\x1b[0m";

fn ant(position: i64, typ: AntType) -> Ant {
    Ant { position, direction: Direction::Forward, typ }
}

#[test]
fn new_drawer_has_its_cells_and_no_picture() {
    let d = Drawer::new(7);
    assert_eq!(d.resolution(), 7);
    assert_eq!(d.buffer(), "");
    assert_eq!(Drawer::new(0).resolution(), 0);
}

#[test]
fn draw_without_ants_shows_empty_cells() {
    let mut d = Drawer::new(3);
    d.draw(&Vec::new());
    assert_eq!(d.buffer(), format!("{CLEAR}{EMPTY}{EMPTY}{EMPTY}"));
}

#[test]
fn draw_shows_each_ant_in_its_cell() {
    let mut rng = StdRng::seed_from_u64(0);
    let args = Args { ant_count: 3, molly_index: None, ant_step: 1, regular: true };
    let rod = AntRod::from_args(&args, &mut rng).unwrap();
    let mut d = Drawer::new(4);
    d.draw(rod.ants());
    assert_eq!(d.buffer(), format!("{CLEAR}{EMPTY}{PLAIN}{MOLLY}{PLAIN}"));
}

#[test]
fn draw_rounds_a_position_down_to_its_cell() {
    let mut d = Drawer::new(10);
    d.draw(&vec![ant(0, AntType::Plain), ant(199_999_999, AntType::Molly), ant(999_999_999, AntType::Plain)]);
    let mut want = String::from(CLEAR);
    for c in 0..10 {
        want += match c {
            0 | 9 => PLAIN,
            1 => MOLLY,
            _ => EMPTY,
        };
    }
    assert_eq!(d.buffer(), want);
}

#[test]
fn draw_shows_molly_where_she_shares_a_cell() {
    let mut d = Drawer::new(1);
    d.draw(&vec![
        ant(100, AntType::Plain),
        ant(200, AntType::Molly),
        ant(300, AntType::Plain),
    ]);
    assert_eq!(d.buffer(), format!("{CLEAR}{MOLLY}"));
    d.draw(&vec![ant(100, AntType::Plain), ant(300, AntType::Plain)]);
    assert_eq!(d.buffer(), format!("{CLEAR}{PLAIN}"));
}

#[test]
fn draw_forgets_the_last_picture() {
    let mut d = Drawer::new(2);
    d.draw(&vec![ant(0, AntType::Molly)]);
    assert_eq!(d.buffer(), format!("{CLEAR}{MOLLY}{EMPTY}"));
    d.draw(&vec![ant(500_000_000, AntType::Plain)]);
    assert_eq!(d.buffer(), format!("{CLEAR}{EMPTY}{PLAIN}"));
}

#[test]
fn draw_on_no_cells_shows_nothing() {
    let mut d = Drawer::new(0);
    d.draw(&vec![ant(5, AntType::Molly)]);
    assert_eq!(d.buffer(), CLEAR);
}
