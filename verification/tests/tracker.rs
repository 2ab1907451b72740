use mouse_tracker::mouse::Mouse;

const LEFT: u64 = 0;
const MIDDLE: u64 = 1;
const RIGHT: u64 = 2;

fn tracker() -> Mouse {
    Mouse::new(vec![LEFT, MIDDLE, RIGHT])
}

#[test]
fn default_state_before_first_update() {
    let m = tracker();
    for b in [LEFT, MIDDLE, RIGHT] {
        assert!(!m.get(b));
        assert!(!m.get_down(b));
        assert!(!m.get_up(b));
    }
    assert_eq!(m.position(), (0, 0));
    assert_eq!(m.delta(), (0, 0));
}

#[test]
fn press_edge_sets_held_and_down() {
    let mut m = tracker();
    m.update(&vec![], None);
    m.update(&vec![LEFT], None);
    assert!(m.get_down(LEFT));
    assert!(m.get(LEFT));
    assert!(!m.get_up(LEFT));
}

#[test]
fn release_edge_sets_up_and_clears_held() {
    let mut m = tracker();
    m.update(&vec![RIGHT], None);
    m.update(&vec![], None);
    assert!(m.get_up(RIGHT));
    assert!(!m.get(RIGHT));
    assert!(!m.get_down(RIGHT));
}

#[test]
fn hold_across_frames_reports_no_edges() {
    let mut m = tracker();
    m.update(&vec![MIDDLE], None);
    assert!(m.get(MIDDLE));
    m.update(&vec![MIDDLE], None);
    assert!(!m.get_down(MIDDLE));
    assert!(!m.get_up(MIDDLE));
    assert!(m.get(MIDDLE));
}

#[test]
fn pressed_and_released_stay_disjoint() {
    let mut m = tracker();
    let frames: Vec<Vec<u64>> = vec![
        vec![LEFT],
        vec![LEFT, RIGHT],
        vec![RIGHT],
        vec![],
        vec![LEFT, MIDDLE, RIGHT],
        vec![MIDDLE],
        vec![],
    ];
    for down in frames {
        m.update(&down, None);
        for b in [LEFT, MIDDLE, RIGHT] {
            assert!(!(m.get_down(b) && m.get_up(b)));
            if m.get_down(b) {
                assert!(m.get(b));
            }
            if m.get_up(b) {
                assert!(!m.get(b));
            }
        }
    }
}

#[test]
fn edges_reflect_one_frame_only() {
    let mut m = tracker();
    m.update(&vec![LEFT], None);
    assert!(m.get_down(LEFT));
    m.update(&vec![LEFT], None);
    assert!(!m.get_down(LEFT));
    m.update(&vec![], None);
    assert!(m.get_up(LEFT));
    m.update(&vec![], None);
    assert!(!m.get_up(LEFT));
}

#[test]
fn delta_between_two_samples() {
    let mut m = tracker();
    m.update(&vec![], Some((10, 20)));
    m.update(&vec![], Some((13, 25)));
    assert_eq!(m.delta(), (3, 5));
    assert_eq!(m.position(), (13, 25));
}

#[test]
fn missing_sample_keeps_position_and_delta() {
    let mut m = tracker();
    m.update(&vec![], Some((10, 20)));
    m.update(&vec![], Some((13, 25)));
    m.update(&vec![], None);
    assert_eq!(m.position(), (13, 25));
    assert_eq!(m.delta(), (3, 5));
}

#[test]
fn click_scenario() {
    let mut m = tracker();
    m.update(&vec![LEFT], None);
    assert!(m.get(LEFT));
    assert!(m.get_down(LEFT));
    assert!(!m.get_up(LEFT));
    m.update(&vec![LEFT], None);
    assert!(!m.get_down(LEFT));
    assert!(!m.get_up(LEFT));
    assert!(m.get(LEFT));
    m.update(&vec![], None);
    assert!(m.get_up(LEFT));
    assert!(!m.get(LEFT));
}

#[test]
fn unrecognized_button_reports_nothing() {
    let mut m = tracker();
    let stray: u64 = 99;
    m.update(&vec![stray, LEFT], None);
    assert!(!m.get(stray));
    assert!(!m.get_down(stray));
    assert!(!m.get_up(stray));
    assert!(m.get(LEFT));
    m.update(&vec![], None);
    assert!(!m.get_up(stray));
}

#[test]
fn duplicate_snapshot_entries_count_once() {
    let mut m = tracker();
    m.update(&vec![LEFT, LEFT, LEFT], None);
    assert!(m.get(LEFT));
    assert!(m.get_down(LEFT));
    m.update(&vec![LEFT, LEFT], None);
    assert!(!m.get_down(LEFT));
    assert!(!m.get_up(LEFT));
}

#[test]
fn empty_recognized_set_tracks_nothing() {
    let mut m = Mouse::new(vec![]);
    m.update(&vec![LEFT], Some((4, 4)));
    assert!(!m.get(LEFT));
    assert!(!m.get_down(LEFT));
    assert_eq!(m.position(), (4, 4));
    assert_eq!(m.delta(), (4, 4));
}

#[test]
fn delta_spans_the_full_coordinate_range() {
    let mut m = tracker();
    m.update(&vec![], Some((i32::MAX, i32::MIN)));
    m.update(&vec![], Some((i32::MIN, i32::MAX)));
    assert_eq!(
        m.delta(),
        (
            i32::MIN as i64 - i32::MAX as i64,
            i32::MAX as i64 - i32::MIN as i64
        )
    );
    assert_eq!(m.position(), (i32::MIN, i32::MAX));
}

#[test]
fn buttons_are_tracked_independently() {
    let mut m = tracker();
    m.update(&vec![LEFT, MIDDLE], None);
    assert!(m.get_down(LEFT));
    assert!(m.get_down(MIDDLE));
    assert!(!m.get_down(RIGHT));
    m.update(&vec![MIDDLE, RIGHT], None);
    assert!(m.get_up(LEFT));
    assert!(!m.get(LEFT));
    assert!(m.get(MIDDLE));
    assert!(!m.get_down(MIDDLE));
    assert!(m.get_down(RIGHT));
    assert!(m.get(RIGHT));
}

#[test]
fn first_sample_measures_from_origin() {
    let mut m = tracker();
    m.update(&vec![], Some((7, -3)));
    assert_eq!(m.position(), (7, -3));
    assert_eq!(m.delta(), (7, -3));
}
