use movable::coords::{calculate_base_inertia, calculate_heading, Cell, NodeCoords};
use movable::grid::{check_path_width, get_neighbours, MovementGrid};
use movable::heading::Heading;
use movable::search::{calculate_a_star, reconstruct_path, AStarNode, MoveCosts, SearchState};
use movable::steering::{complete_unit_move, plan_unit_move, UnitAction};

fn cell(x: u32, y: u32) -> Cell {
    Cell { x, y }
}

fn node(x: u32, y: u32, h: Heading) -> NodeCoords {
    NodeCoords { xy: cell(x, y), h: Some(h) }
}

fn open_grid(width: usize, height: usize) -> MovementGrid {
    MovementGrid { grid: vec![vec![0u8; height]; width] }
}

/// Costs scaled as the game scales them: (distance + 20 * penalty) * 100 for
/// a step, distance * 100 for the estimate, truncated to integers.
fn game_costs(gridmap: &MovementGrid, target: Cell) -> MoveCosts {
    let mut straight = Vec::new();
    let mut diagonal = Vec::new();
    for p in 0..5 {
        let penalty = p as f32;
        straight.push(((1.0f32 + penalty * 20.0) * 100.0) as i32);
        diagonal.push(((2.0f32.sqrt() + penalty * 20.0) * 100.0) as i32);
    }
    let mut heuristic = Vec::new();
    for x in 0..gridmap.grid.len() {
        let mut column = Vec::new();
        for y in 0..gridmap.grid[0].len() {
            let dx = x as f32 - target.x as f32;
            let dy = y as f32 - target.y as f32;
            column.push(((dx * dx + dy * dy).sqrt() * 100.0) as i32);
        }
        heuristic.push(column);
    }
    MoveCosts { straight, diagonal, heuristic }
}

#[test]
fn heading_of_each_neighbouring_step() {
    let c = cell(5, 5);
    assert_eq!(calculate_heading(&c, &cell(4, 5)), Heading::E);
    assert_eq!(calculate_heading(&c, &cell(4, 6)), Heading::NE);
    assert_eq!(calculate_heading(&c, &cell(5, 6)), Heading::N);
    assert_eq!(calculate_heading(&c, &cell(6, 6)), Heading::NW);
    assert_eq!(calculate_heading(&c, &cell(6, 5)), Heading::W);
    assert_eq!(calculate_heading(&c, &cell(6, 4)), Heading::SW);
    assert_eq!(calculate_heading(&c, &cell(5, 4)), Heading::S);
    assert_eq!(calculate_heading(&c, &cell(4, 4)), Heading::SE);
}

#[test]
fn heading_of_other_offsets_is_south_east() {
    assert_eq!(calculate_heading(&cell(5, 5), &cell(5, 5)), Heading::SE);
    assert_eq!(calculate_heading(&cell(5, 5), &cell(8, 5)), Heading::SE);
    assert_eq!(calculate_heading(&cell(0, 0), &cell(2, 2)), Heading::SE);
}

#[test]
fn reversed_step_has_opposite_heading() {
    let order = [Heading::N, Heading::NE, Heading::E, Heading::SE, Heading::S, Heading::SW, Heading::W, Heading::NW];
    let c = cell(3, 3);
    for dx in -1i32..=1 {
        for dy in -1i32..=1 {
            if dx == 0 && dy == 0 {
                continue;
            }
            let t = cell((3 + dx) as u32, (3 + dy) as u32);
            let there = calculate_heading(&c, &t);
            let back = calculate_heading(&t, &c);
            assert_eq!(order[(there.index() as usize + 4) % 8], back);
        }
    }
}

#[test]
fn base_inertia_values() {
    let at = |h: Option<Heading>| NodeCoords { xy: cell(0, 0), h };
    assert_eq!(calculate_base_inertia(&at(Some(Heading::N)), &at(Some(Heading::N))), 0);
    assert_eq!(calculate_base_inertia(&at(Some(Heading::N)), &at(Some(Heading::NE))), 1);
    assert_eq!(calculate_base_inertia(&at(Some(Heading::N)), &at(Some(Heading::E))), 2);
    assert_eq!(calculate_base_inertia(&at(Some(Heading::N)), &at(Some(Heading::SE))), 3);
    assert_eq!(calculate_base_inertia(&at(Some(Heading::N)), &at(Some(Heading::S))), 4);
    assert_eq!(calculate_base_inertia(&at(Some(Heading::N)), &at(Some(Heading::SW))), 3);
    assert_eq!(calculate_base_inertia(&at(Some(Heading::N)), &at(Some(Heading::W))), 2);
    assert_eq!(calculate_base_inertia(&at(Some(Heading::N)), &at(Some(Heading::NW))), 1);
    assert_eq!(calculate_base_inertia(&at(Some(Heading::E)), &at(Some(Heading::W))), 4);
    assert_eq!(calculate_base_inertia(&at(Some(Heading::NW)), &at(Some(Heading::NE))), 2);
}

#[test]
fn base_inertia_missing_heading_counts_as_north() {
    let at = |h: Option<Heading>| NodeCoords { xy: cell(1, 1), h };
    assert_eq!(calculate_base_inertia(&at(None), &at(Some(Heading::S))), 4);
    assert_eq!(calculate_base_inertia(&at(Some(Heading::E)), &at(None)), 2);
    assert_eq!(calculate_base_inertia(&at(None), &at(None)), 0);
}

#[test]
fn base_inertia_is_symmetric() {
    let all = [Heading::N, Heading::NE, Heading::E, Heading::SE, Heading::S, Heading::SW, Heading::W, Heading::NW];
    for a in all {
        for b in all {
            let na = NodeCoords { xy: cell(0, 0), h: Some(a) };
            let nb = NodeCoords { xy: cell(0, 0), h: Some(b) };
            let p = calculate_base_inertia(&na, &nb);
            assert_eq!(p, calculate_base_inertia(&nb, &na));
            assert!(p <= 4);
            assert_eq!(p == 0, a == b);
        }
    }
}

#[test]
fn path_width_blocks_squeeze_between_two_corners() {
    let mut g = open_grid(2, 2);
    g.grid[0][1] = 1;
    g.grid[1][0] = 1;
    assert!(!check_path_width(cell(0, 0), cell(1, 1), &g));
    assert!(!check_path_width(cell(1, 1), cell(0, 0), &g));
}

#[test]
fn path_width_passes_with_one_free_corner() {
    let mut g = open_grid(2, 2);
    g.grid[0][1] = 1;
    assert!(check_path_width(cell(0, 0), cell(1, 1), &g));
    let mut g = open_grid(2, 2);
    g.grid[1][0] = 1;
    assert!(check_path_width(cell(0, 0), cell(1, 1), &g));
}

#[test]
fn path_width_straight_step_always_passes() {
    let mut g = open_grid(2, 2);
    g.grid[0][1] = 1;
    g.grid[1][0] = 1;
    g.grid[1][1] = 1;
    assert!(check_path_width(cell(0, 0), cell(1, 0), &g));
    assert!(check_path_width(cell(0, 0), cell(0, 1), &g));
}

#[test]
fn neighbours_in_open_grid_in_scanning_order() {
    let g = open_grid(3, 3);
    let n = get_neighbours(cell(1, 1), &g);
    assert_eq!(
        n,
        vec![
            node(0, 0, Heading::SE),
            node(0, 1, Heading::E),
            node(0, 2, Heading::NE),
            node(1, 0, Heading::S),
            node(1, 2, Heading::N),
            node(2, 0, Heading::SW),
            node(2, 1, Heading::W),
            node(2, 2, Heading::NW),
        ]
    );
}

#[test]
fn neighbours_at_corner_of_grid() {
    let g = open_grid(3, 3);
    let n = get_neighbours(cell(0, 0), &g);
    assert_eq!(n, vec![node(0, 1, Heading::N), node(1, 0, Heading::W), node(1, 1, Heading::NW)]);
}

#[test]
fn neighbours_skip_blocked_cells_and_squeezes() {
    let mut g = open_grid(3, 3);
    g.grid[0][1] = 1;
    g.grid[1][0] = 1;
    g.grid[2][2] = 7;
    let n = get_neighbours(cell(0, 0), &g);
    assert!(n.is_empty());
    let n = get_neighbours(cell(1, 1), &g);
    assert_eq!(
        n,
        vec![
            node(0, 2, Heading::NE),
            node(1, 2, Heading::N),
            node(2, 0, Heading::SW),
            node(2, 1, Heading::W),
        ]
    );
}

#[test]
fn neighbour_relation_is_symmetric_on_free_cells() {
    let mut g = open_grid(4, 4);
    g.grid[1][2] = 1;
    g.grid[2][1] = 1;
    g.grid[3][3] = 1;
    for x in 0..4u32 {
        for y in 0..4u32 {
            if g.grid[x as usize][y as usize] != 0 {
                continue;
            }
            for n in get_neighbours(cell(x, y), &g) {
                let back = get_neighbours(n.xy, &g);
                assert!(back.iter().any(|m| m.xy == cell(x, y)));
            }
        }
    }
}

#[test]
fn a_star_diagonal_in_open_grid() {
    let g = open_grid(3, 3);
    let target = cell(2, 2);
    let costs = game_costs(&g, target);
    let path = calculate_a_star(&g, &costs, cell(0, 0), target).unwrap();
    assert_eq!(path, vec![node(1, 1, Heading::NW), node(0, 0, Heading::N)]);
}

#[test]
fn a_star_straight_ahead() {
    let g = open_grid(5, 5);
    let target = cell(0, 4);
    let costs = game_costs(&g, target);
    let path = calculate_a_star(&g, &costs, cell(0, 0), target).unwrap();
    assert_eq!(
        path,
        vec![node(0, 3, Heading::N), node(0, 2, Heading::N), node(0, 1, Heading::N), node(0, 0, Heading::N)]
    );
}

#[test]
fn a_star_winds_through_walls() {
    let g = MovementGrid {
        grid: vec![
            vec![0, 0, 0, 0],
            vec![1, 1, 1, 0],
            vec![0, 0, 0, 0],
            vec![0, 1, 1, 1],
            vec![0, 0, 0, 0],
        ],
    };
    let target = cell(4, 3);
    let costs = game_costs(&g, target);
    let path = calculate_a_star(&g, &costs, cell(0, 0), target).unwrap();
    assert_eq!(
        path,
        vec![
            node(4, 2, Heading::N),
            node(4, 1, Heading::NW),
            node(3, 0, Heading::SW),
            node(2, 1, Heading::S),
            node(2, 2, Heading::SW),
            node(1, 3, Heading::NW),
            node(0, 2, Heading::N),
            node(0, 1, Heading::N),
            node(0, 0, Heading::N),
        ]
    );
    for k in 1..path.len() {
        let step = get_neighbours(path[k].xy, &g);
        assert!(step.iter().any(|m| m.xy == path[k - 1].xy));
    }
    assert!(get_neighbours(path[0].xy, &g).iter().any(|m| m.xy == target));
}

#[test]
fn a_star_no_path_when_walled_off() {
    let g = MovementGrid { grid: vec![vec![0, 1, 0], vec![1, 1, 0], vec![0, 0, 0]] };
    let target = cell(2, 2);
    let costs = game_costs(&g, target);
    assert_eq!(calculate_a_star(&g, &costs, cell(0, 0), target), None);
}

#[test]
fn a_star_no_path_to_cell_outside_grid() {
    let g = open_grid(3, 3);
    let costs = game_costs(&g, cell(2, 2));
    assert_eq!(calculate_a_star(&g, &costs, cell(0, 0), cell(7, 1)), None);
}

#[test]
fn a_star_neighbouring_target_gives_single_node() {
    let g = open_grid(3, 3);
    let target = cell(1, 0);
    let costs = game_costs(&g, target);
    let path = calculate_a_star(&g, &costs, cell(0, 0), target).unwrap();
    assert_eq!(path, vec![node(0, 0, Heading::W)]);
}

#[test]
fn a_star_starts_from_blocked_cell() {
    let mut g = open_grid(3, 1);
    g.grid[0][0] = 1;
    let target = cell(2, 0);
    let costs = game_costs(&g, target);
    let path = calculate_a_star(&g, &costs, cell(0, 0), target).unwrap();
    assert_eq!(path, vec![node(1, 0, Heading::W), node(0, 0, Heading::N)]);
}

#[test]
fn plan_move_finishes_on_empty_path() {
    let path: Vec<NodeCoords> = Vec::new();
    assert_eq!(plan_unit_move(&path), UnitAction::Finish);
}

#[test]
fn plan_move_steers_towards_last_node() {
    let path = vec![node(2, 2, Heading::N), node(1, 1, Heading::NW)];
    assert_eq!(plan_unit_move(&path), UnitAction::SteerTowards(1));
}

#[test]
fn complete_move_pops_reached_node() {
    let mut path = vec![node(2, 2, Heading::N), node(1, 1, Heading::NW)];
    complete_unit_move(&mut path, true);
    assert_eq!(path, vec![node(2, 2, Heading::N)]);
    complete_unit_move(&mut path, false);
    assert_eq!(path, vec![node(2, 2, Heading::N)]);
    complete_unit_move(&mut path, true);
    assert!(path.is_empty());
    complete_unit_move(&mut path, true);
    assert!(path.is_empty());
}

#[test]
fn path_width_on_columns_of_different_length() {
    let g = MovementGrid { grid: vec![vec![0, 1], vec![1], vec![0, 0, 0]] };
    assert!(!check_path_width(cell(0, 0), cell(1, 1), &g));
    assert!(check_path_width(cell(0, 1), cell(1, 0), &g));
    assert!(check_path_width(cell(0, 0), cell(2, 1), &g));
    assert!(check_path_width(cell(2, 2), cell(2, 7), &g));
    assert!(check_path_width(cell(5, 1), cell(9, 1), &g));
}

#[test]
fn path_width_is_symmetric() {
    let mut g = open_grid(3, 3);
    g.grid[0][1] = 1;
    g.grid[1][0] = 1;
    g.grid[2][1] = 1;
    for ax in 0..3u32 {
        for ay in 0..3u32 {
            for bx in 0..3u32 {
                for by in 0..3u32 {
                    assert_eq!(
                        check_path_width(cell(ax, ay), cell(bx, by), &g),
                        check_path_width(cell(bx, by), cell(ax, ay), &g)
                    );
                }
            }
        }
    }
}

fn state_index(x: u32, y: u32, h: Heading, height: usize) -> usize {
    (x as usize * height + y as usize) * 8 + h.index() as usize
}

#[test]
fn reconstruct_follows_parent_links() {
    let g = open_grid(4, 4);
    let height = 4;
    let unvisited = AStarNode { f_score: -1, g_score: -1, came_from: None };
    let mut nodes = vec![unvisited; 4 * 4 * 8];
    let end = SearchState { x: 3, y: 3, h: Heading::W };
    let middle = SearchState { x: 2, y: 3, h: Heading::N };
    let first = SearchState { x: 1, y: 2, h: Heading::NE };
    nodes[state_index(3, 3, Heading::W, height)] = AStarNode { f_score: 9, g_score: 9, came_from: Some(middle) };
    nodes[state_index(2, 3, Heading::N, height)] = AStarNode { f_score: 5, g_score: 5, came_from: Some(first) };
    let path = reconstruct_path(&nodes, end, &g, height);
    assert_eq!(path, vec![node(2, 3, Heading::W), node(1, 2, Heading::NE)]);
}

fn walk_cost(costs: &MoveCosts, walk: &[Cell]) -> i64 {
    let mut heading = Heading::N;
    let mut total: i64 = 0;
    for i in 1..walk.len() {
        let (a, b) = (walk[i - 1], walk[i]);
        let next = calculate_heading(&a, &b);
        let penalty = calculate_base_inertia(
            &NodeCoords { xy: a, h: Some(heading) },
            &NodeCoords { xy: b, h: Some(next) },
        ) as usize;
        let step = if a.x != b.x && a.y != b.y { costs.diagonal[penalty] } else { costs.straight[penalty] };
        total += step as i64;
        heading = next;
    }
    total
}

fn cheapest_simple_walk(g: &MovementGrid, costs: &MoveCosts, walk: &mut Vec<Cell>, target: Cell, best: &mut i64) {
    let last = *walk.last().unwrap();
    if last == target {
        *best = (*best).min(walk_cost(costs, walk));
        return;
    }
    for n in get_neighbours(last, g) {
        if !walk.contains(&n.xy) {
            walk.push(n.xy);
            cheapest_simple_walk(g, costs, walk, target, best);
            walk.pop();
        }
    }
}

#[test]
fn a_star_with_zero_estimate_finds_cheapest_walk() {
    let mut g = open_grid(4, 4);
    g.grid[1][1] = 1;
    g.grid[2][2] = 1;
    let start = cell(0, 0);
    let target = cell(3, 3);
    let mut costs = game_costs(&g, target);
    for column in costs.heuristic.iter_mut() {
        for h in column.iter_mut() {
            *h = 0;
        }
    }
    let path = calculate_a_star(&g, &costs, start, target).unwrap();
    let mut walk: Vec<Cell> = path.iter().rev().map(|n| n.xy).collect();
    walk.push(target);
    let mut best = i64::MAX;
    cheapest_simple_walk(&g, &costs, &mut vec![start], target, &mut best);
    assert!(walk_cost(&costs, &walk) <= best);
    assert!(path.iter().all(|n| n.xy != target));
}

#[test]
fn neighbours_in_empty_grid() {
    let g = MovementGrid { grid: vec![] };
    assert!(get_neighbours(cell(0, 0), &g).is_empty());
}

#[test]
fn neighbours_when_later_column_is_longer() {
    let g = MovementGrid { grid: vec![vec![0, 0], vec![0, 0, 0]] };
    let n = get_neighbours(cell(0, 0), &g);
    assert_eq!(n, vec![node(0, 1, Heading::N), node(1, 0, Heading::W), node(1, 1, Heading::NW)]);
}

#[test]
fn a_star_ignores_cells_beyond_first_column_length() {
    let g = MovementGrid { grid: vec![vec![0, 0], vec![0, 0, 1, 1], vec![0, 0, 0]] };
    let target = cell(2, 1);
    let costs = game_costs(&g, target);
    let path = calculate_a_star(&g, &costs, cell(0, 0), target).unwrap();
    assert_eq!(path.last(), Some(&node(0, 0, Heading::N)));
    assert!(path.iter().all(|n| n.xy.y < 2));
}
