use hashlife::cell::Leaf;
use hashlife::universe::Universe;

#[test]
fn new_universe_has_dark_buffer() {
    let u = Universe::new(4);
    assert_eq!(u.get_cells().len(), 64);
    assert!(u.get_cells().iter().all(|&c| c == 0));
}

#[test]
fn coordinates_translate() {
    let u = Universe::new(4);
    assert_eq!(u.to_universe(1, 2), (5, 6));
    assert_eq!(u.to_viewport(5, 6), (1, 2));
    assert_eq!(u.to_linear_viewport(1, 2), 10);
    assert_eq!(u.to_linear_universe(1, 2), 18);
}

#[test]
fn toggle_shows_in_buffer() {
    let mut u = Universe::new(4);
    u.toggle(1, 2);
    assert_eq!(u.get_cells()[10], 1);
    assert_eq!(u.state_at(5, 6), Leaf::Alive);
    u.toggle(1, 2);
    assert_eq!(u.get_cells()[10], 0);
}

#[test]
fn tick_refreshes_buffer() {
    let mut u = Universe::new(4);
    for (x, y) in [(2, 3), (3, 3), (4, 3)] {
        u.toggle(x, y);
    }
    u.tick();
    let alive: Vec<usize> =
        (0..64).filter(|&i| u.get_cells()[i] == 1).collect();
    assert_eq!(alive, vec![26, 27, 28]);
    assert_eq!(u.state_at(7, 6), Leaf::Alive);
}

#[test]
fn reset_clears_buffer() {
    let mut u = Universe::new(3);
    u.toggle(0, 0);
    u.toggle(3, 3);
    u.reset();
    assert!(u.get_cells().iter().all(|&c| c == 0));
    assert_eq!(u.state_at(2, 2), Leaf::Dead);
}
