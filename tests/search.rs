use maze_walkers::{
    create_maze, distance, flip_between, open_if_solid, isqrt, new_grid, path_contains, speed_for, AStar, Done,
    Square, Walker, INITIAL_SPEED, SPEED_ONE,
};

fn open_grid(rows: usize, cols: usize) -> Vec<Vec<Square>> {
    let mut g = new_grid(rows, cols).unwrap();
    for row in g.iter_mut() {
        for sq in row.iter_mut() {
            sq.solid = false;
        }
    }
    g
}

fn finished_count(a: &AStar) -> usize {
    a.walkers.iter().filter(|w| w.done == Done::Finished).count()
}

#[test]
fn new_grid_refuses_degenerate_sizes() {
    assert!(new_grid(0, 5).is_none());
    assert!(new_grid(5, 0).is_none());
    assert!(new_grid(1, 1).is_none());
    assert!(new_grid(1, 2).is_some());
}

#[test]
fn new_grid_is_solid_and_indexed() {
    let g = new_grid(3, 4).unwrap();
    assert_eq!(g.len(), 3);
    for (r, row) in g.iter().enumerate() {
        assert_eq!(row.len(), 4);
        for (c, sq) in row.iter().enumerate() {
            assert!(sq.solid);
            assert_eq!(sq.index, (r, c));
            assert_eq!(sq.potential, 0);
        }
    }
}

#[test]
fn isqrt_rounds_down() {
    assert_eq!(isqrt(0), 0);
    assert_eq!(isqrt(1), 1);
    assert_eq!(isqrt(15), 3);
    assert_eq!(isqrt(16), 4);
    assert_eq!(isqrt(32_000_000), 5656);
    assert_eq!(isqrt(u64::MAX), 4_294_967_295);
}

#[test]
fn distance_in_thousandths() {
    assert_eq!(distance((0, 0), (3, 4)), 5000);
    assert_eq!(distance((4, 4), (0, 0)), 5656);
    assert_eq!(distance((2, 7), (2, 7)), 0);
    assert_eq!(distance((0, 0), (1, 1)), 1414);
}

#[test]
fn speed_follows_squared_ratio() {
    assert_eq!(speed_for(0, 1000), SPEED_ONE);
    assert_eq!(speed_for(500, 1000), 250);
    assert_eq!(speed_for(1000, 1000), 0);
    assert_eq!(speed_for(900, 1000), 10);
    assert_eq!(speed_for(0, 0), SPEED_ONE);
}

#[test]
fn walker_step_moves_and_records() {
    let start = Square { solid: false, index: (0, 0), potential: 0 };
    let mut w = Walker::new(start, Vec::new());
    assert_eq!(w.speed, INITIAL_SPEED);
    let next = Square { solid: false, index: (0, 1), potential: 500 };
    w.step(next, 1000);
    assert_eq!(w.position, (0, 1));
    assert_eq!(w.path, vec![(0, 1)]);
    assert_eq!(w.speed, 250);
    assert_eq!(w.counter, 0);
    w.step(next, 1000);
    assert_eq!(w.path, vec![(0, 1)]);
}

#[test]
fn path_contains_finds_entries() {
    let p = vec![(1, 2), (3, 4)];
    assert!(path_contains(&p, (3, 4)));
    assert!(!path_contains(&p, (4, 3)));
}

#[test]
fn flip_between_swaps_in_range_only() {
    let mut v = vec![1, 2, 3, 4];
    flip_between(&mut v, 0, 2);
    assert_eq!(v, vec![3, 2, 1, 4]);
    flip_between(&mut v, 3, 1);
    assert_eq!(v, vec![3, 4, 1, 2]);
    flip_between(&mut v, 1, 1);
    flip_between(&mut v, 0, 9);
    assert_eq!(v, vec![3, 4, 1, 2]);
}

#[test]
fn potentials_on_open_grid() {
    let g = open_grid(5, 5);
    let mut a = AStar::new((0, 0), (4, 4));
    let p = a.generate_potentials(&g);
    assert_eq!(p[4][4].potential, 5656);
    assert_eq!(p[0][0].potential, 5656);
    assert_eq!(p[0][4].potential, 4000 + 4000);
    assert_eq!(a.max_potential, 8000);
    for row in &p {
        for sq in row {
            assert!(sq.potential <= a.max_potential);
            assert!(!sq.solid);
        }
    }
}

#[test]
fn goal_potential_is_distance_from_start() {
    let g = open_grid(6, 9);
    let mut a = AStar::new((1, 2), (5, 7));
    let p = a.generate_potentials(&g);
    assert_eq!(p[5][7].potential, distance((1, 2), (5, 7)));
}

#[test]
fn first_tick_forks_one_walker_per_open_neighbor() {
    let g = open_grid(5, 5);
    let mut a = AStar::new((2, 2), (4, 4));
    let g = a.generate_potentials(&g);
    a.step(&g);
    assert_eq!(a.walkers.len(), 1 + 4);
    assert_eq!(a.path.len(), 4);
    let mut seen = a.path.clone();
    seen.sort();
    assert_eq!(seen, vec![(1, 2), (2, 1), (2, 3), (3, 2)]);
    for w in &a.walkers[1..] {
        assert!(a.path.contains(&w.position));
        assert_eq!(w.path, vec![w.position]);
    }
}

#[test]
fn corner_start_has_two_branches() {
    let g = open_grid(5, 5);
    let mut a = AStar::new((0, 0), (4, 4));
    let g = a.generate_potentials(&g);
    a.step(&g);
    assert_eq!(a.walkers.len(), 3);
    assert_eq!(a.path, vec![(0, 1), (1, 0)]);
    assert_eq!(a.walkers[1].position, (0, 1));
    assert_eq!(a.walkers[2].position, (1, 0));
}

#[test]
fn visited_list_never_shrinks() {
    let g = open_grid(7, 7);
    let mut a = AStar::new((0, 0), (6, 6));
    let g = a.generate_potentials(&g);
    let mut before = a.path.clone();
    for _ in 0..60 {
        a.step(&g);
        assert!(a.path.len() >= before.len());
        assert_eq!(&a.path[..before.len()], &before[..]);
        let mut sorted = a.path.clone();
        sorted.sort();
        sorted.dedup();
        assert_eq!(sorted.len(), a.path.len());
        before = a.path.clone();
    }
}

#[test]
fn open_grid_search_reaches_goal_first_in_list() {
    let g = open_grid(5, 5);
    let mut a = AStar::new((0, 0), (4, 4));
    let g = a.generate_potentials(&g);
    let mut ticks = 0;
    while finished_count(&a) == 0 && ticks < 10_000 {
        a.step(&g);
        ticks += 1;
    }
    assert_eq!(finished_count(&a), 1);
    assert_eq!(a.walkers[0].done, Done::Finished);
    assert_eq!(a.walkers[0].position, (4, 4));
    assert!(a.walkers[0].path.len() >= 8);
    assert!(a.walkers[0].path.len() <= a.path.len());
    let len = a.walkers.len();
    a.step(&g);
    assert_eq!(a.walkers.len(), len);
}

#[test]
fn neighbour_goal_finishes_on_first_tick() {
    let g = open_grid(2, 2);
    let mut a = AStar::new((0, 0), (0, 1));
    let g = a.generate_potentials(&g);
    a.step(&g);
    assert_eq!(a.walkers[0].done, Done::Finished);
    assert_eq!(a.walkers[0].position, (0, 1));
}

#[test]
fn walled_in_walker_is_stuck_for_good() {
    let mut g = new_grid(3, 3).unwrap();
    g[1][1].solid = false;
    let mut a = AStar::new((1, 1), (2, 2));
    let g = a.generate_potentials(&g);
    a.step(&g);
    assert_eq!(a.walkers.len(), 1);
    assert_eq!(a.walkers[0].done, Done::NotFinished(true));
    let pos = a.walkers[0].position;
    for _ in 0..5 {
        a.step(&g);
        assert_eq!(a.walkers.len(), 1);
        assert_eq!(a.walkers[0].done, Done::NotFinished(true));
        assert_eq!(a.walkers[0].position, pos);
        assert!(a.path.is_empty());
    }
}

#[test]
fn slow_walker_waits_below_threshold() {
    let g = open_grid(3, 3);
    let mut a = AStar::new((0, 0), (2, 2));
    let g = a.generate_potentials(&g);
    a.walkers[0].speed = 100;
    a.step(&g);
    a.step(&g);
    assert_eq!(a.walkers.len(), 1);
    assert_eq!(a.walkers[0].counter, 200);
    a.step(&g);
    assert_eq!(a.walkers[0].counter, 300);
    assert_eq!(a.walkers.len(), 1);
    a.step(&g);
    assert_eq!(a.walkers.len(), 3);
    assert_eq!(a.walkers[0].counter, 0);
}

fn lattice_connected(g: &Vec<Vec<Square>>) -> bool {
    let rows = g.len();
    let cols = g[0].len();
    for pr in 0..2 {
        for pc in 0..2 {
            let lattice: Vec<(usize, usize)> = (0..rows)
                .flat_map(|r| (0..cols).map(move |c| (r, c)))
                .filter(|&(r, c)| r % 2 == pr && c % 2 == pc)
                .collect();
            if lattice.is_empty() || lattice.iter().any(|&(r, c)| g[r][c].solid) {
                continue;
            }
            let mut seen = vec![vec![false; cols]; rows];
            let mut todo = vec![lattice[0]];
            seen[lattice[0].0][lattice[0].1] = true;
            while let Some((r, c)) = todo.pop() {
                let mut next = vec![];
                if r > 0 {
                    next.push((r - 1, c));
                }
                if r + 1 < rows {
                    next.push((r + 1, c));
                }
                if c > 0 {
                    next.push((r, c - 1));
                }
                if c + 1 < cols {
                    next.push((r, c + 1));
                }
                for (nr, nc) in next {
                    if !g[nr][nc].solid && !seen[nr][nc] {
                        seen[nr][nc] = true;
                        todo.push((nr, nc));
                    }
                }
            }
            if lattice.iter().all(|&(r, c)| seen[r][c]) {
                return true;
            }
        }
    }
    false
}

#[test]
fn carved_maze_keeps_corners_open() {
    for _ in 0..20 {
        let mut g = new_grid(9, 12).unwrap();
        assert!(create_maze(&mut g, 10));
        for &(r, c) in &[(0, 0), (1, 0), (0, 1), (1, 1), (8, 11), (7, 11), (8, 10), (7, 10)] {
            assert!(!g[r][c].solid);
        }
    }
}

#[test]
fn carved_maze_lattice_is_connected() {
    for size in [4usize, 5, 10, 21] {
        let mut g = new_grid(size, size + 3).unwrap();
        assert!(create_maze(&mut g, 0));
        assert!(lattice_connected(&g));
        for (r, row) in g.iter().enumerate() {
            for (c, sq) in row.iter().enumerate() {
                assert_eq!(sq.index, (r, c));
            }
        }
    }
}

#[test]
fn carving_refuses_thin_grids() {
    let mut g = new_grid(1, 6).unwrap();
    assert!(!create_maze(&mut g, 3));
    assert!(g[0].iter().all(|s| s.solid));
}

#[test]
fn random_openings_only_open_cells() {
    let mut g = new_grid(10, 10).unwrap();
    create_maze(&mut g, 0);
    let before: Vec<Vec<bool>> = g.iter().map(|r| r.iter().map(|s| s.solid).collect()).collect();
    let mut h = g.clone();
    create_maze(&mut h, 30);
    for r in 0..10 {
        for c in 0..10 {
            if !before[r][c] {
                assert!(!h[r][c].solid);
            }
        }
    }
}

#[test]
fn position_square_is_looked_up_by_index() {
    let g = open_grid(4, 3);
    let a = AStar::new((2, 1), (0, 0));
    let sq = a.find_position_square(&g).unwrap();
    assert_eq!(sq.index, (2, 1));
    let b = AStar::new((7, 1), (0, 0));
    assert!(b.find_position_square(&g).is_none());
}

#[test]
fn pruning_drops_only_stuck_walkers() {
    let g = open_grid(4, 4);
    let mut a = AStar::new((0, 0), (3, 3));
    let g = a.generate_potentials(&g);
    for _ in 0..40 {
        a.step(&g);
    }
    let kept: Vec<(usize, usize)> = a
        .walkers
        .iter()
        .filter(|w| w.done != Done::NotFinished(true))
        .map(|w| w.position)
        .collect();
    let path_before = a.path.clone();
    a.prune_stuck();
    let after: Vec<(usize, usize)> = a.walkers.iter().map(|w| w.position).collect();
    assert_eq!(after, kept);
    assert!(a.walkers.iter().all(|w| w.done != Done::NotFinished(true)));
    assert_eq!(a.path, path_before);
}

#[test]
fn pruning_walled_in_walker_empties_list() {
    let mut g = new_grid(3, 3).unwrap();
    g[1][1].solid = false;
    let mut a = AStar::new((1, 1), (2, 2));
    let g = a.generate_potentials(&g);
    a.step(&g);
    a.prune_stuck();
    assert!(a.walkers.is_empty());
}

#[test]
fn open_if_solid_opens_only_a_solid_cell() {
    let mut g = new_grid(3, 3).unwrap();
    assert!(open_if_solid(&mut g, 1, 2));
    assert!(!g[1][2].solid);
    let open: usize = g.iter().flatten().filter(|s| !s.solid).count();
    assert_eq!(open, 1);
    let before = g.clone();
    assert!(!open_if_solid(&mut g, 1, 2));
    for r in 0..3 {
        for c in 0..3 {
            assert_eq!(g[r][c].solid, before[r][c].solid);
        }
    }
}

#[test]
fn random_openings_on_full_grid_change_nothing() {
    let mut g = new_grid(4, 4).unwrap();
    create_maze(&mut g, 0);
    for row in g.iter_mut() {
        for sq in row.iter_mut() {
            sq.solid = false;
        }
    }
    assert!(create_maze(&mut g, 5));
    assert!(g.iter().flatten().all(|s| !s.solid));
}

#[test]
fn carving_opens_at_most_the_bound() {
    for _ in 0..10 {
        let mut g = new_grid(9, 9).unwrap();
        create_maze(&mut g, 4);
        let open = g.iter().flatten().filter(|s| !s.solid).count();
        // At most 2 * 25 - 1 from carving (for the largest lattice), 4 random, 8 corners.
        assert!(open <= 2 * 25 - 1 + 4 + 8);
        assert!(open >= 16);
    }
}

#[test]
fn goal_has_least_potential_up_to_rounding() {
    let g = open_grid(7, 9);
    let mut a = AStar::new((1, 6), (5, 2));
    let p = a.generate_potentials(&g);
    let goal = p[5][2].potential;
    for row in &p {
        for sq in row {
            assert!(goal <= sq.potential + 1);
        }
    }
}
