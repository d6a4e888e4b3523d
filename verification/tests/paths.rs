use opengrid::paths::{color_channels, frame_paths, locate, PathFrame, Progress, Standing};

fn standings(arrivals: &[f64], elapsed: f64) -> Vec<Standing> {
    arrivals
        .iter()
        .map(|&t| {
            if elapsed < t {
                Standing::Before
            } else if elapsed >= t {
                Standing::Reached
            } else {
                Standing::Unordered
            }
        })
        .collect()
}

fn position(waypoints: &[(f64, f64, f64)], elapsed: f64) -> (f64, f64, bool) {
    let arrivals: Vec<f64> = waypoints.iter().map(|w| w.2).collect();
    match locate(&standings(&arrivals, elapsed)) {
        Progress::Empty => (0.0, 0.0, true),
        Progress::Settled(i) => (waypoints[i].0, waypoints[i].1, true),
        Progress::Between(i) => {
            let (a, b) = (waypoints[i], waypoints[i + 1]);
            let duration = b.2 - a.2;
            if duration <= 0.0 {
                (b.0, b.1, false)
            } else {
                let t = (elapsed - a.2) / duration;
                (a.0 + (b.0 - a.0) * t, a.1 + (b.1 - a.1) * t, false)
            }
        }
    }
}

#[test]
fn halfway_along_a_segment() {
    let path = [(0.0, 0.0, 0.0), (10.0, 10.0, 10.0)];
    assert_eq!(locate(&standings(&[0.0, 10.0], 5.0)), Progress::Between(0));
    assert_eq!(position(&path, 5.0), (5.0, 5.0, false));
}

#[test]
fn settled_at_the_last_arrival_time() {
    let path = [(0.0, 0.0, 0.0), (10.0, 10.0, 10.0)];
    assert_eq!(locate(&standings(&[0.0, 10.0], 10.0)), Progress::Settled(1));
    assert_eq!(position(&path, 10.0), (10.0, 10.0, true));
}

#[test]
fn settled_past_the_last_arrival_time() {
    let path = [(0.0, 0.0, 0.0), (10.0, 10.0, 10.0)];
    assert_eq!(locate(&standings(&[0.0, 10.0], 15.0)), Progress::Settled(1));
    assert_eq!(position(&path, 15.0), (10.0, 10.0, true));
}

#[test]
fn a_path_without_waypoints_rests_at_the_origin() {
    assert_eq!(locate(&Vec::new()), Progress::Empty);
    assert_eq!(position(&[], 3.0), (0.0, 0.0, true));
}

#[test]
fn a_path_of_one_waypoint_rests_there() {
    assert_eq!(locate(&vec![Standing::Before]), Progress::Settled(0));
    assert_eq!(locate(&vec![Standing::Reached]), Progress::Settled(0));
    assert_eq!(locate(&vec![Standing::Unordered]), Progress::Settled(0));
    assert_eq!(position(&[(4.0, 5.0, 100.0)], 3.0), (4.0, 5.0, true));
}

#[test]
fn the_segment_is_the_one_around_the_clock() {
    let arrivals = [0.0, 2.0, 4.0, 8.0];
    assert_eq!(locate(&standings(&arrivals, 0.0)), Progress::Between(0));
    assert_eq!(locate(&standings(&arrivals, 1.9)), Progress::Between(0));
    assert_eq!(locate(&standings(&arrivals, 2.0)), Progress::Between(1));
    assert_eq!(locate(&standings(&arrivals, 3.0)), Progress::Between(1));
    assert_eq!(locate(&standings(&arrivals, 4.0)), Progress::Between(2));
    assert_eq!(locate(&standings(&arrivals, 7.9)), Progress::Between(2));
    assert_eq!(locate(&standings(&arrivals, 8.0)), Progress::Settled(3));
}

#[test]
fn before_the_first_arrival_the_first_segment_runs_backwards() {
    let path = [(10.0, 10.0, 5.0), (20.0, 30.0, 15.0)];
    assert_eq!(locate(&standings(&[5.0, 15.0], 0.0)), Progress::Between(0));
    assert_eq!(position(&path, 0.0), (5.0, 0.0, false));
    assert_eq!(
        locate(&vec![Standing::Before, Standing::Before, Standing::Before]),
        Progress::Between(0)
    );
}

#[test]
fn equal_arrival_times_snap_to_the_end_of_the_segment() {
    let path = [(1.0, 2.0, 5.0), (3.0, 4.0, 5.0)];
    assert_eq!(position(&path, 0.0), (3.0, 4.0, false));
    assert_eq!(position(&path, 5.0), (3.0, 4.0, true));
}

#[test]
fn the_first_matching_segment_wins_on_unsorted_times() {
    let arrivals = [0.0, 10.0, 2.0, 20.0];
    // Both the first and the third segment hold the clock.
    assert_eq!(locate(&standings(&arrivals, 5.0)), Progress::Between(0));
    assert_eq!(
        locate(&vec![Standing::Before, Standing::Reached, Standing::Before, Standing::Reached, Standing::Before]),
        Progress::Between(1)
    );
}

#[test]
fn a_clock_past_the_last_waypoint_settles_even_before_the_first() {
    assert_eq!(locate(&standings(&[10.0, 0.0], 5.0)), Progress::Settled(1));
    assert_eq!(
        locate(&vec![Standing::Before, Standing::Reached, Standing::Reached]),
        Progress::Settled(2)
    );
}

#[test]
fn a_clock_that_is_not_a_number_settles() {
    assert_eq!(locate(&standings(&[0.0, 10.0], f64::NAN)), Progress::Settled(1));
    assert_eq!(locate(&standings(&[0.0, f64::NAN, 10.0], 5.0)), Progress::Settled(2));
    assert_eq!(
        locate(&vec![Standing::Before, Standing::Unordered]),
        Progress::Between(0)
    );
}

#[test]
fn two_whole_paths_are_framed() {
    let words = vec![
        7, 0xFF0000, 2, 2, 1, 1, 0, 5, 5, 10, // path 7: two waypoints
        9, 0x00FF00, 3, 1, 8, 8, 4, // path 9: one waypoint
    ];
    assert_eq!(
        frame_paths(&words),
        vec![
            PathFrame { id: 7, color: 0xFF0000, speed_at: 2, first_waypoint: 4, waypoint_count: 2 },
            PathFrame { id: 9, color: 0x00FF00, speed_at: 12, first_waypoint: 14, waypoint_count: 1 },
        ]
    );
}

#[test]
fn an_empty_buffer_has_no_paths() {
    assert_eq!(frame_paths(&Vec::new()), Vec::<PathFrame>::new());
}

#[test]
fn a_path_cut_short_keeps_its_whole_waypoints() {
    // Three waypoints declared, room for one and two numbers of a second.
    let words = vec![1, 2, 3, 3, 10, 11, 12, 20, 21];
    assert_eq!(
        frame_paths(&words),
        vec![PathFrame { id: 1, color: 2, speed_at: 2, first_waypoint: 4, waypoint_count: 1 }]
    );
}

#[test]
fn a_path_without_a_whole_waypoint_is_dropped() {
    assert_eq!(frame_paths(&vec![1, 2, 3, 5]), Vec::<PathFrame>::new());
    assert_eq!(frame_paths(&vec![1, 2, 3, 5, 10, 11]), Vec::<PathFrame>::new());
}

#[test]
fn a_path_that_declares_no_waypoint_is_skipped() {
    let words = vec![1, 2, 3, 0, 4, 5, 6, 1, 7, 8, 9];
    assert_eq!(
        frame_paths(&words),
        vec![PathFrame { id: 4, color: 5, speed_at: 6, first_waypoint: 8, waypoint_count: 1 }]
    );
}

#[test]
fn numbers_that_do_not_make_a_head_are_ignored() {
    let words = vec![1, 2, 3, 1, 10, 11, 12, 99, 98, 97];
    assert_eq!(
        frame_paths(&words),
        vec![PathFrame { id: 1, color: 2, speed_at: 2, first_waypoint: 4, waypoint_count: 1 }]
    );
    assert_eq!(frame_paths(&vec![1, 2, 3]), Vec::<PathFrame>::new());
}

#[test]
fn a_huge_waypoint_count_takes_what_is_there() {
    let words = vec![1, 2, 3, u64::MAX, 10, 11, 12, 20, 21, 22];
    assert_eq!(
        frame_paths(&words),
        vec![PathFrame { id: 1, color: 2, speed_at: 2, first_waypoint: 4, waypoint_count: 2 }]
    );
}

#[test]
fn identity_and_colour_stop_at_the_largest_u32() {
    let words = vec![u64::MAX, 4294967296, 0, 1, 0, 0, 0];
    assert_eq!(
        frame_paths(&words),
        vec![PathFrame { id: u32::MAX, color: u32::MAX, speed_at: 2, first_waypoint: 4, waypoint_count: 1 }]
    );
    let words = vec![4294967295, 0xFFFFFF, 0, 1, 0, 0, 0];
    assert_eq!(frame_paths(&words)[0].id, 4294967295);
    assert_eq!(frame_paths(&words)[0].color, 0xFFFFFF);
}

#[test]
fn colour_splits_into_red_green_and_blue() {
    assert_eq!(color_channels(0xFF8000), (255, 128, 0));
    assert_eq!(color_channels(0x123456), (0x12, 0x34, 0x56));
    assert_eq!(color_channels(0), (0, 0, 0));
    assert_eq!(color_channels(0xFFFFFF), (255, 255, 255));
    assert_eq!(color_channels(0xAB010203), (1, 2, 3));
}
