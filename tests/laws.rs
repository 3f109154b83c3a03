use progconc::domain::initialize_terrain_and_users;
use progconc::domain::person::Person;
use progconc::domain::terrain::Terrain;
use progconc::domain::Point;
use progconc::domain::SetupError;
use progconc::simulation::run_sequential;
use progconc::simulation::sequential_round;
use progconc::simulation::step_agent;

#[test]
fn sample_run_of_eight_agents_empties_the_grid() {
    let (mut terrain, mut persons) = initialize_terrain_and_users(8, 10, 5).unwrap();
    assert_eq!(persons.len(), 8);
    assert_eq!(terrain.count_persons_in_terrain(), 8);
    let done = run_sequential(&mut terrain, &mut persons, 10_000);
    assert!(done);
    assert_eq!(terrain.get_exited_cnt(), 8);
    assert_eq!(terrain.count_persons_in_terrain(), 0);
    assert!(persons.iter().all(|p| p.has_escaped));
}

#[test]
fn setup_gives_ids_in_steps_of_ten_on_free_non_exit_cells() {
    let (terrain, persons) = initialize_terrain_and_users(8, 10, 5).unwrap();
    for (i, p) in persons.iter().enumerate() {
        assert_eq!(p.id, (i + 1) * 10);
        assert!(!p.has_escaped);
        assert_eq!(terrain.get_pt_val(&p.position), p.id as isize);
        assert!(!terrain.is_exit_point(&p.position));
    }
}

#[test]
fn setup_is_reproducible() {
    let (_, a) = initialize_terrain_and_users(8, 10, 5).unwrap();
    let (_, b) = initialize_terrain_and_users(8, 10, 5).unwrap();
    let pa: Vec<(isize, isize)> = a.iter().map(|p| (p.position.x, p.position.y)).collect();
    let pb: Vec<(isize, isize)> = b.iter().map(|p| (p.position.x, p.position.y)).collect();
    assert_eq!(pa, pb);
}

#[test]
fn too_many_agents_fail_setup() {
    let terrain = Terrain::new_sample(10, 5);
    let free = terrain.count_free_points();
    // 50 cells: 16 obstacle cells (one of them an exit), 3 free exits.
    assert_eq!(free, 31);
    assert!(matches!(
        initialize_terrain_and_users(free + 1, 10, 5),
        Err(SetupError::InsufficientSpace)
    ));
    assert!(initialize_terrain_and_users(free, 10, 5).is_ok());
}

#[test]
fn sample_layout_of_a_small_grid() {
    let t = Terrain::new_sample(10, 5);
    // tall block: x in 1..=2, y in 1..=3
    assert_eq!(t.get_pt_val(&Point { x: 1, y: 1 }), -1);
    assert_eq!(t.get_pt_val(&Point { x: 2, y: 3 }), -1);
    // long bar: x in 4..=8, y in 1..=2
    assert_eq!(t.get_pt_val(&Point { x: 4, y: 1 }), -1);
    assert_eq!(t.get_pt_val(&Point { x: 8, y: 2 }), -1);
    assert_eq!(t.get_pt_val(&Point { x: 9, y: 2 }), 0);
    assert_eq!(t.get_pt_val(&Point { x: 3, y: 1 }), 0);
    assert_eq!(t.get_pt_val(&Point { x: 0, y: 0 }), 0);
    assert_eq!(t.get_exited_cnt(), 0);
    assert_eq!(t.count_persons_in_terrain(), 0);
}

#[test]
fn exit_cells_are_the_top_left_corner() {
    let t = Terrain::new(10, 5);
    let exits = t.get_exit_points();
    assert_eq!(exits.len(), 4);
    for e in exits.iter() {
        assert!(e.x == 0 || e.x == 1);
        assert!(e.y == 4 || e.y == 3);
    }
    assert!(t.is_exit_point(&Point { x: 1, y: 3 }));
    assert!(!t.is_exit_point(&Point { x: 2, y: 4 }));
    assert!(!t.is_exit_point(&Point { x: 0, y: 2 }));
}

#[test]
fn neighbors_are_free_cells_in_probe_order() {
    let mut t = Terrain::new(10, 5);
    t.set_pt_val(&Point { x: 4, y: 2 }, 7);
    t.set_pt_val(&Point { x: 3, y: 3 }, -1);
    let moves = t.list_possible_moves(&Point { x: 4, y: 2 });
    let got: Vec<(isize, isize)> = moves.iter().map(|p| (p.x, p.y)).collect();
    assert_eq!(
        got,
        vec![(3, 1), (3, 2), (4, 1), (4, 3), (5, 1), (5, 2), (5, 3)]
    );
    let corner = t.list_possible_moves(&Point { x: 0, y: 0 });
    let got: Vec<(isize, isize)> = corner.iter().map(|p| (p.x, p.y)).collect();
    assert_eq!(got, vec![(0, 1), (1, 0), (1, 1)]);
}

#[test]
fn best_move_is_first_nearest_to_azimuth() {
    let p = Person::new(10, Point { x: 5, y: 0 });
    // (-2, 130): (4,1) and (4,1) tie; the first one listed wins.
    let moves = vec![
        Point { x: 6, y: 1 },
        Point { x: 4, y: 1 },
        Point { x: 4, y: 0 },
        Point { x: 4, y: 1 },
    ];
    let r = p.choose_best_move(&moves);
    assert_eq!(r, Point { x: 4, y: 1 });
    assert_eq!(
        Point { x: 4, y: 1 }.square_distance_to(&Point { x: -2, y: 130 }),
        36 + 16641
    );
    // same candidates, same answer
    assert_eq!(p.choose_best_move(&moves), r);
    // nothing to choose from: stay
    assert_eq!(p.choose_best_move(&Vec::new()), Point { x: 5, y: 0 });
}

#[test]
fn ties_go_to_the_earlier_candidate() {
    let p = Person::new(10, Point { x: 0, y: 0 });
    // (0,130) and (-4,130) are both at distance 4 from (-2,130)
    let a = vec![Point { x: 0, y: 130 }, Point { x: -4, y: 130 }];
    let b = vec![Point { x: -4, y: 130 }, Point { x: 0, y: 130 }];
    assert_eq!(p.choose_best_move(&a), Point { x: 0, y: 130 });
    assert_eq!(p.choose_best_move(&b), Point { x: -4, y: 130 });
}

#[test]
fn blocked_agent_stays_in_place() {
    let mut t = Terrain::new(10, 5);
    t.add_obstacle(Point { x: 3, y: 0 }, Point { x: 5, y: 2 });
    t.set_pt_val(&Point { x: 4, y: 1 }, 0);
    let mut p = Person::new(10, Point { x: 4, y: 1 });
    p.place_on_terrain(&mut t);
    let before: Vec<isize> = t.get_data_ref().clone();
    p.look_and_move(&mut t);
    assert_eq!(p.position, Point { x: 4, y: 1 });
    assert!(!p.has_escaped);
    assert_eq!(t.get_data_ref(), &before);
    // once a cell opens, the agent moves on the next tick
    t.set_pt_val(&Point { x: 3, y: 2 }, 0);
    p.look_and_move(&mut t);
    assert_eq!(p.position, Point { x: 3, y: 2 });
    assert_eq!(t.get_pt_val(&Point { x: 3, y: 2 }), 10);
    assert_eq!(t.get_pt_val(&Point { x: 4, y: 1 }), 0);
}

#[test]
fn escaped_agent_never_acts_again() {
    let mut t = Terrain::new(10, 5);
    let mut p = Person::new(10, Point { x: 1, y: 2 });
    p.place_on_terrain(&mut t);
    p.look_and_move(&mut t);
    assert!(p.has_escaped);
    assert_eq!(t.get_exited_cnt(), 1);
    assert_eq!(t.count_persons_in_terrain(), 0);
    let before: Vec<isize> = t.get_data_ref().clone();
    for _ in 0..3 {
        p.look_and_move(&mut t);
    }
    assert_eq!(t.get_exited_cnt(), 1);
    assert_eq!(t.get_data_ref(), &before);
}

#[test]
fn move_into_occupied_cell_fails_and_changes_nothing() {
    let mut t = Terrain::new(10, 5);
    t.set_pt_val(&Point { x: 5, y: 2 }, 10);
    t.set_pt_val(&Point { x: 6, y: 2 }, 20);
    t.set_pt_val(&Point { x: 7, y: 2 }, -1);
    let before: Vec<isize> = t.get_data_ref().clone();
    assert!(t.move_src_to_dst(&Point { x: 5, y: 2 }, &Point { x: 6, y: 2 }).is_none());
    assert!(t.move_src_to_dst(&Point { x: 6, y: 2 }, &Point { x: 7, y: 2 }).is_none());
    assert_eq!(t.get_data_ref(), &before);
    assert!(t.move_src_to_dst(&Point { x: 5, y: 2 }, &Point { x: 5, y: 3 }).is_some());
    assert_eq!(t.get_pt_val(&Point { x: 5, y: 3 }), 10);
    assert_eq!(t.get_pt_val(&Point { x: 5, y: 2 }), 0);
    assert_eq!(t.get_exited_cnt(), 0);
}

#[test]
fn move_into_exit_counts_and_keeps_exit_free() {
    let mut t = Terrain::new(10, 5);
    t.set_pt_val(&Point { x: 2, y: 4 }, 30);
    assert!(t.move_src_to_dst(&Point { x: 2, y: 4 }, &Point { x: 1, y: 4 }).is_some());
    assert_eq!(t.get_exited_cnt(), 1);
    assert_eq!(t.get_pt_val(&Point { x: 1, y: 4 }), 0);
    assert_eq!(t.get_pt_val(&Point { x: 2, y: 4 }), 0);
}

#[test]
fn exits_grow_by_at_most_one_per_tick_and_occupancy_matches() {
    let (mut t, mut persons) = initialize_terrain_and_users(8, 10, 5).unwrap();
    let total = persons.len();
    let mut last = t.get_exited_cnt();
    for _round in 0..200 {
        for i in 0..persons.len() {
            if !persons[i].has_escaped {
                step_agent(&mut t, &mut persons, i);
                let now = t.get_exited_cnt();
                assert!(now >= last && now <= last + 1);
                assert!(now <= total);
                last = now;
                let in_play: Vec<&Person> = persons.iter().filter(|p| !p.has_escaped).collect();
                assert_eq!(t.count_persons_in_terrain(), total - now);
                for a in 0..in_play.len() {
                    for b in (a + 1)..in_play.len() {
                        assert_ne!(in_play[a].position, in_play[b].position);
                    }
                }
            }
        }
    }
    assert_eq!(t.get_exited_cnt(), total);
}

#[test]
fn reversed_order_escapes_the_same_ids() {
    let (mut t1, mut p1) = initialize_terrain_and_users(8, 10, 5).unwrap();
    assert!(run_sequential(&mut t1, &mut p1, 10_000));
    let (mut t2, mut p2) = initialize_terrain_and_users(8, 10, 5).unwrap();
    let mut rounds = 0;
    while t2.get_exited_cnt() < p2.len() && rounds < 10_000 {
        for i in (0..p2.len()).rev() {
            if !p2[i].has_escaped {
                step_agent(&mut t2, &mut p2, i);
            }
        }
        rounds += 1;
    }
    let mut ids1: Vec<usize> = p1.iter().filter(|p| p.has_escaped).map(|p| p.id).collect();
    let mut ids2: Vec<usize> = p2.iter().filter(|p| p.has_escaped).map(|p| p.id).collect();
    ids1.sort();
    ids2.sort();
    assert_eq!(ids1, ids2);
    assert_eq!(ids1, vec![10, 20, 30, 40, 50, 60, 70, 80]);
}

#[test]
fn one_round_moves_every_agent_in_play_once() {
    let (mut t, mut persons) = initialize_terrain_and_users(3, 10, 5).unwrap();
    let before = t.get_exited_cnt();
    sequential_round(&mut t, &mut persons);
    assert!(t.get_exited_cnt() >= before);
    assert_eq!(
        t.count_persons_in_terrain() + t.get_exited_cnt(),
        persons.len()
    );
}

#[test]
fn random_free_point_is_a_free_cell() {
    let mut t = Terrain::new(2, 2);
    // a 2x2 grid is all exits: nothing can be placed
    assert_eq!(t.count_free_points(), 0);
    assert!(t.get_random_free_point().is_none());
    let mut t3 = Terrain::new(3, 3);
    // exits: (0,2),(0,1),(1,2),(1,1); free non-exit cells: 5
    assert_eq!(t3.count_free_points(), 5);
    for _ in 0..5 {
        let p = t3.get_random_free_point().unwrap();
        assert_eq!(t3.get_pt_val(&p), 0);
        assert!(!t3.is_exit_point(&p));
        t3.set_pt_val(&p, 1);
    }
    assert!(t3.get_random_free_point().is_none());
    t.set_pt_val(&Point { x: 0, y: 0 }, 5);
    assert_eq!(t.count_persons_in_terrain(), 1);
}

#[test]
fn nth_free_point_walks_storage_order() {
    let t = Terrain::new(3, 3);
    let pts: Vec<(isize, isize)> = (0..5)
        .map(|k| {
            let p = t.nth_free_point(k).unwrap();
            (p.x, p.y)
        })
        .collect();
    assert_eq!(pts, vec![(0, 0), (1, 0), (2, 0), (2, 1), (2, 2)]);
    assert!(t.nth_free_point(5).is_none());
}

#[test]
fn persons_compare_by_id() {
    let a = Person::new(10, Point { x: 1, y: 1 });
    let b = Person::new(10, Point { x: 2, y: 2 });
    let c = Person::new(20, Point { x: 1, y: 1 });
    assert!(a == b);
    assert!(a != c);
    let u = Person::new_unplaced(7);
    assert!(u.has_escaped);
    assert_eq!(u.position, Point { x: 0, y: 0 });
}

#[test]
fn new_placed_writes_the_id() {
    let mut t = Terrain::new(4, 4);
    let p = Person::new_placed(&mut t, 40, Point { x: 3, y: 0 });
    assert_eq!(t.get_pt_val(&Point { x: 3, y: 0 }), 40);
    assert!(!p.has_escaped);
    let mut q = p;
    q.remove_from_terrain(&mut t);
    assert!(q.has_escaped);
    assert_eq!(t.get_pt_val(&Point { x: 3, y: 0 }), 0);
}

#[test]
fn pixels_show_each_cell_in_four_bytes() {
    let data: Vec<isize> = vec![0, -1, 10, 300];
    let px = progconc::pixels::argb_pixels(&data);
    assert_eq!(px.len(), 16);
    assert_eq!(&px[0..4], &[0, 0, 0, 255]);
    assert_eq!(&px[4..8], &[255, 156, 255, 255]);
    assert_eq!(&px[8..12], &[10, 232, 10, 255]);
    assert_eq!(&px[12..16], &[44, 48, 44, 255]);
}
