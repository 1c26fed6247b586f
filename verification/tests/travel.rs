use disk_scheduling::{Direction, Movement, Panel, Segment, TemplateApp};

fn queue() -> Vec<u32> {
    vec![82, 170, 23, 140, 110]
}

#[test]
fn total_seek_of_nothing_is_zero() {
    assert_eq!(TemplateApp::total_seek(&vec![], 0), 0);
    assert_eq!(TemplateApp::total_seek(&vec![], 50), 0);
    assert_eq!(TemplateApp::total_seek(&vec![], u32::MAX), 0);
}

#[test]
fn total_seek_of_one_visit_is_the_distance_to_it() {
    assert_eq!(TemplateApp::total_seek(&vec![23], 50), 27);
    assert_eq!(TemplateApp::total_seek(&vec![82], 50), 32);
    assert_eq!(TemplateApp::total_seek(&vec![50], 50), 0);
    assert_eq!(TemplateApp::total_seek(&vec![u32::MAX], 0), u32::MAX as u128);
}

#[test]
fn total_seek_of_clook_on_the_textbook_queue() {
    let order = TemplateApp::clook(&queue(), 50, Direction::Left);
    assert_eq!(TemplateApp::total_seek(&order, 50), 27 + 147 + 30 + 30 + 28);
    assert_eq!(TemplateApp::total_seek(&order, 50), 262);
}

#[test]
fn total_seek_counts_every_step_after_a_visit_at_the_start() {
    // The first visit costs nothing; the later ones still count from the
    // visit before them.
    assert_eq!(TemplateApp::total_seek(&vec![50, 60, 40], 50), 30);
    assert_eq!(TemplateApp::total_seek(&vec![50, 50, 50], 50), 0);
}

#[test]
fn total_seek_charges_the_crossing_of_cscan() {
    let order = TemplateApp::cscan(&queue(), 50, Direction::Left, 200);
    assert_eq!(order, vec![23, 0, 200, 170, 140, 110, 82]);
    assert_eq!(TemplateApp::total_seek(&order, 50), 27 + 23 + 200 + 30 + 30 + 30 + 28);
}

#[test]
fn total_seek_of_scan_on_the_textbook_queue() {
    let order = TemplateApp::scan(&queue(), 50, Direction::Left, 200);
    assert_eq!(TemplateApp::total_seek(&order, 50), 27 + 23 + 82 + 28 + 30 + 30);
}

#[test]
fn total_seek_does_not_overflow_on_long_steps() {
    let visits = vec![u32::MAX, 0, u32::MAX, 0];
    assert_eq!(TemplateApp::total_seek(&visits, 0), 4 * (u32::MAX as u128));
}

#[test]
fn closeness_order_is_not_always_the_shortest() {
    let requests = vec![45, 60, 40];
    let nearest = TemplateApp::ordered_by_closeness(&requests, 50);
    assert_eq!(nearest, vec![45, 60, 40]);
    let look = TemplateApp::clook(&requests, 50, Direction::Left);
    assert_eq!(look, vec![45, 40, 60]);
    assert_eq!(TemplateApp::total_seek(&nearest, 50), 40);
    assert_eq!(TemplateApp::total_seek(&look, 50), 30);
    assert!(TemplateApp::total_seek(&look, 50) < TemplateApp::total_seek(&nearest, 50));
}

#[test]
fn every_sweep_can_beat_the_closeness_order() {
    let requests = vec![4, 7, 2, 9, 0];
    let nearest = TemplateApp::ordered_by_closeness(&requests, 5);
    assert_eq!(nearest, vec![4, 7, 2, 9, 0]);
    assert_eq!(TemplateApp::total_seek(&nearest, 5), 25);
    let scan = TemplateApp::scan(&requests, 5, Direction::Left, 9);
    assert_eq!(scan, vec![4, 2, 0, 7, 9]);
    assert_eq!(TemplateApp::total_seek(&scan, 5), 14);
    let cscan = TemplateApp::cscan(&requests, 5, Direction::Left, 9);
    assert_eq!(cscan, vec![4, 2, 0, 9, 7]);
    assert_eq!(TemplateApp::total_seek(&cscan, 5), 16);
    let clook = TemplateApp::clook(&requests, 5, Direction::Left);
    assert_eq!(clook, vec![4, 2, 0, 9, 7]);
    assert_eq!(TemplateApp::total_seek(&clook, 5), 16);
}

#[test]
fn visits_stay_on_the_disk() {
    let requests = vec![82, 170, 23, 140, 110, 200, 0, 50];
    for head in [0u32, 50, 111, 200] {
        for direction in [Direction::Left, Direction::Right] {
            let orders = [
                TemplateApp::ordered_by_closeness(&requests, head),
                TemplateApp::scan(&requests, head, direction, 200),
                TemplateApp::cscan(&requests, head, direction, 200),
                TemplateApp::clook(&requests, head, direction),
                TemplateApp::scan(&vec![7, 3], head, direction, 200),
                TemplateApp::cscan(&vec![7, 3], head, direction, 200),
            ];
            for order in orders {
                assert!(order.iter().all(|&visit| visit <= 200));
            }
        }
    }
}

#[test]
fn arrow_direction_of_a_step_in_place() {
    for p in [0u32, 1, 50, 200, u32::MAX] {
        assert_eq!(TemplateApp::arrow_direction(p, p), Movement::Stationary);
    }
}

#[test]
fn arrow_direction_of_a_step_to_a_neighbour() {
    for p in [0u32, 1, 50, 200, u32::MAX - 1] {
        assert_eq!(TemplateApp::arrow_direction(p, p + 1), Movement::Right);
    }
    for p in [1u32, 2, 50, 200, u32::MAX] {
        assert_eq!(TemplateApp::arrow_direction(p, p - 1), Movement::Left);
    }
}

#[test]
fn arrow_direction_of_a_long_step() {
    assert_eq!(TemplateApp::arrow_direction(0, u32::MAX), Movement::Right);
    assert_eq!(TemplateApp::arrow_direction(u32::MAX, 0), Movement::Left);
    assert_eq!(TemplateApp::arrow_direction(50, 23), Movement::Left);
    assert_eq!(TemplateApp::arrow_direction(23, 170), Movement::Right);
}

#[test]
fn segments_follow_the_path() {
    let steps = TemplateApp::segments(&vec![23, 170, 170, 82], 50);
    assert_eq!(
        steps,
        vec![
            Segment { from: 50, to: 23, movement: Movement::Left },
            Segment { from: 23, to: 170, movement: Movement::Right },
            Segment { from: 170, to: 170, movement: Movement::Stationary },
            Segment { from: 170, to: 82, movement: Movement::Left },
        ]
    );
}

#[test]
fn segments_of_nothing_are_none() {
    assert_eq!(TemplateApp::segments(&vec![], 50), Vec::<Segment>::new());
}

#[test]
fn segments_start_at_the_arm() {
    let steps = TemplateApp::segments(&vec![50], 50);
    assert_eq!(steps, vec![Segment { from: 50, to: 50, movement: Movement::Stationary }]);
}

#[test]
fn default_disk_has_one_request_for_cylinder_zero() {
    let app = TemplateApp::default();
    assert_eq!(app.cylinder_count, 0);
    assert_eq!(app.arm_position_int, 0);
    assert_eq!(app.sequence, vec![0]);
    assert_eq!(app.open_panel, Panel::SSTF);
    assert_eq!(app.direction, Direction::Left);
}

#[test]
fn visit_order_follows_the_open_panel() {
    let mut app = TemplateApp {
        cylinder_count: 200,
        arm_position_int: 50,
        sequence: queue(),
        open_panel: Panel::SSTF,
        direction: Direction::Left,
    };
    assert_eq!(app.visit_order(), vec![23, 82, 110, 140, 170]);
    app.open_panel = Panel::SCAN;
    assert_eq!(app.visit_order(), vec![23, 0, 82, 110, 140, 170]);
    app.open_panel = Panel::CSCAN;
    assert_eq!(app.visit_order(), vec![23, 0, 200, 170, 140, 110, 82]);
    app.open_panel = Panel::CLOOK;
    assert_eq!(app.visit_order(), vec![23, 170, 140, 110, 82]);
    app.direction = Direction::Right;
    assert_eq!(app.visit_order(), vec![82, 110, 140, 170, 23]);
    app.open_panel = Panel::SCAN;
    assert_eq!(app.visit_order(), vec![82, 110, 140, 170, 200, 23]);
    app.open_panel = Panel::CSCAN;
    assert_eq!(app.visit_order(), vec![82, 110, 140, 170, 200, 0, 23]);
    app.open_panel = Panel::SSTF;
    assert_eq!(app.visit_order(), vec![23, 82, 110, 140, 170]);
}

#[test]
fn visit_order_of_an_idle_disk_is_empty() {
    let mut app = TemplateApp {
        cylinder_count: 200,
        arm_position_int: 50,
        sequence: vec![],
        open_panel: Panel::SSTF,
        direction: Direction::Left,
    };
    for panel in [Panel::SSTF, Panel::SCAN, Panel::CSCAN, Panel::CLOOK] {
        for direction in [Direction::Left, Direction::Right] {
            app.open_panel = panel;
            app.direction = direction;
            let order = app.visit_order();
            assert_eq!(order, Vec::<u32>::new());
            assert_eq!(TemplateApp::total_seek(&order, app.arm_position_int), 0);
            assert_eq!(TemplateApp::segments(&order, app.arm_position_int), Vec::<Segment>::new());
        }
    }
}

#[test]
fn visit_order_of_the_default_disk() {
    let mut app = TemplateApp::default();
    assert_eq!(app.visit_order(), vec![0]);
    app.open_panel = Panel::SCAN;
    assert_eq!(app.visit_order(), vec![0]);
    app.open_panel = Panel::CSCAN;
    assert_eq!(app.visit_order(), vec![0]);
    app.open_panel = Panel::CLOOK;
    assert_eq!(app.visit_order(), vec![0]);
}

#[test]
fn total_seek_agrees_with_the_sum_over_the_path() {
    let visits: Vec<u32> = (0..300u32).map(|i| (i * 7919) % 1001).collect();
    for start in [0u32, 500, 1000] {
        let mut path = vec![start];
        path.extend(visits.iter());
        let expected: u128 = path.windows(2).map(|step| step[0].abs_diff(step[1]) as u128).sum();
        assert_eq!(TemplateApp::total_seek(&visits, start), expected);
    }
}

#[test]
fn segments_add_up_to_the_total_seek() {
    let visits = TemplateApp::cscan(&queue(), 50, Direction::Right, 200);
    let steps = TemplateApp::segments(&visits, 50);
    assert_eq!(steps.len(), visits.len());
    let walked: u128 = steps.iter().map(|step| step.from.abs_diff(step.to) as u128).sum();
    assert_eq!(walked, TemplateApp::total_seek(&visits, 50));
    for (i, step) in steps.iter().enumerate() {
        assert_eq!(step.to, visits[i]);
        assert_eq!(step.from, if i == 0 { 50 } else { visits[i - 1] });
        assert_eq!(step.movement, TemplateApp::arrow_direction(step.from, step.to));
    }
}
