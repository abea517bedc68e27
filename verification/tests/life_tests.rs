use hexing::layout::HexLayout;
use hexing::utils::neighbors;
use hexing::HexPosition;

/// A small deterministic pseudo-random bit source.
struct Lcg(u64);

impl Lcg {
    fn next_bool(&mut self) -> bool {
        self.0 = self.0.wrapping_mul(6364136223846793005).wrapping_add(1442695040888963407);
        (self.0 >> 63) == 1
    }
}

fn next_generation(grid: &HexLayout<bool>, size: usize) -> HexLayout<bool> {
    let mut next_grid: HexLayout<bool> = HexLayout::new_from_range(size, HexPosition(0, 0));
    for pos in grid.positions() {
        let alive_neighbors = neighbors(pos)
            .into_iter()
            .filter(|n| *grid.get(*n).unwrap_or(&false))
            .count();
        let current_state = *grid.get(pos).unwrap();
        let next_state = match (current_state, alive_neighbors) {
            (true, x) if x != 2 => false,
            (false, 2) => true,
            _ => current_state,
        };
        next_grid.set(pos, next_state);
    }
    next_grid
}

#[test]
fn life_step_on_random_grid_keeps_the_key_set_size() {
    let size = 10usize;
    let mut grid: HexLayout<bool> = HexLayout::new_from_range(size, HexPosition(0, 0));
    let mut rng = Lcg(12345);
    for pos in grid.positions() {
        let state = rng.next_bool();
        grid.set(pos, state);
    }
    let before = grid.len();
    let next = next_generation(&grid, size);
    assert_eq!(next.len(), before);
    assert_eq!(before, 1 + 3 * size * (size - 1));
}

#[test]
fn life_step_applies_the_two_neighbor_rule() {
    // a cell with exactly two live neighbors lives; all others die
    let mut grid: HexLayout<bool> = HexLayout::new_from_range(3, HexPosition(0, 0));
    grid.set(HexPosition(1, 0), true);
    grid.set(HexPosition(-1, 0), true);
    let next = next_generation(&grid, 3);
    // the center has exactly two live neighbors and comes alive
    assert_eq!(next.get(HexPosition(0, 0)), Some(&true));
    // the two live cells each have no live neighbors and die
    assert_eq!(next.get(HexPosition(1, 0)), Some(&false));
    assert_eq!(next.get(HexPosition(-1, 0)), Some(&false));
}
