use hashlife::cell::Leaf;
use hashlife::cell_manager::CellManager;

fn brute_step(g: &Vec<Vec<bool>>) -> Vec<Vec<bool>> {
    let n = g.len() as i64;
    let mut out = vec![vec![false; g.len()]; g.len()];
    for x in 0..n {
        for y in 0..n {
            let mut count = 0;
            for dx in -1..=1 {
                for dy in -1..=1 {
                    if dx == 0 && dy == 0 {
                        continue;
                    }
                    let (a, b) = (x + dx, y + dy);
                    if a >= 0 && b >= 0 && a < n && b < n && g[a as usize][b as usize] {
                        count += 1;
                    }
                }
            }
            let alive = g[x as usize][y as usize];
            out[x as usize][y as usize] = if alive { count == 2 || count == 3 } else { count == 3 };
        }
    }
    out
}

fn read(cm: &CellManager, n: usize) -> Vec<Vec<bool>> {
    let mut g = vec![vec![false; n]; n];
    for x in 0..n {
        for y in 0..n {
            g[x][y] = cm.state_at(x as u32, y as u32) == Leaf::Alive;
        }
    }
    g
}

#[test]
fn every_4x4_pattern_matches_brute_force() {
    let mut cm = CellManager::setup(2);
    for pattern in 0u32..(1 << 16) {
        cm.reset(2);
        let mut g = vec![vec![false; 4]; 4];
        for bit in 0..16 {
            if pattern & (1 << bit) != 0 {
                let (x, y) = (bit / 4, bit % 4);
                cm.toggle(x, y);
                g[x as usize][y as usize] = true;
            }
        }
        cm.step();
        assert_eq!(read(&cm, 4), brute_step(&g), "pattern {:#06x}", pattern);
    }
}

#[test]
fn random_soups_match_brute_force() {
    let mut seed: u64 = 0x2545_f491_4f6c_dd1d;
    for _ in 0..6 {
        let mut cm = CellManager::setup(4);
        let mut g = vec![vec![false; 16]; 16];
        for x in 0..16 {
            for y in 0..16 {
                seed = seed.wrapping_mul(6364136223846793005).wrapping_add(1442695040888963407);
                if (seed >> 33) % 3 == 0 {
                    cm.toggle(x, y);
                    g[x as usize][y as usize] = true;
                }
            }
        }
        for _ in 0..8 {
            cm.step();
            g = brute_step(&g);
            assert_eq!(read(&cm, 16), g);
        }
    }
}
