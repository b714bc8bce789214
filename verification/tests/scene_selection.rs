use veloren::scene::{
    camera_stance, input_action, select_nearest, CameraStance, InputAction, InputKind,
    MAX_LIGHT_COUNT,
};

#[test]
fn nearest_are_sorted_and_stable() {
    let keys = vec![5, 1, 3, 1, 9, 0];
    assert_eq!(select_nearest(&keys, 10), vec![5, 1, 3, 2, 0, 4]);
    assert_eq!(select_nearest(&keys, 3), vec![5, 1, 3]);
    assert_eq!(select_nearest(&keys, 0), Vec::<usize>::new());
    assert_eq!(select_nearest(&vec![], 3), Vec::<usize>::new());
}

#[test]
fn nearest_matches_a_stable_sort_then_truncate() {
    let keys: Vec<i32> = (0..100).map(|i| ((i * 37) % 11) as i32 - 5).collect();
    let mut expected: Vec<usize> = (0..keys.len()).collect();
    expected.sort_by_key(|&i| keys[i]);
    expected.truncate(MAX_LIGHT_COUNT);
    assert_eq!(select_nearest(&keys, MAX_LIGHT_COUNT), expected);
}

#[test]
fn camera_stances() {
    assert_eq!(camera_stance(true, true, true, Some(true), false), CameraStance::Rolling);
    assert_eq!(camera_stance(true, false, true, Some(true), false), CameraStance::Running);
    assert_eq!(camera_stance(true, false, true, Some(false), false), CameraStance::Standing);
    assert_eq!(camera_stance(true, false, true, None, true), CameraStance::Standing);
    assert_eq!(camera_stance(false, true, true, Some(true), true), CameraStance::Aiming);
    assert_eq!(camera_stance(false, true, true, Some(true), false), CameraStance::Standing);
}

#[test]
fn input_routing() {
    assert_eq!(input_action(InputKind::Resize), InputAction::SetAspectRatio);
    assert_eq!(input_action(InputKind::CursorPan), InputAction::RotateCamera);
    assert_eq!(input_action(InputKind::Zoom), InputAction::ZoomCamera);
    assert_eq!(input_action(InputKind::AnalogCameraX), InputAction::SetCameraInputX);
    assert_eq!(input_action(InputKind::AnalogCameraY), InputAction::SetCameraInputY);
    assert_eq!(input_action(InputKind::AnalogOther), InputAction::Ignore);
    assert_eq!(input_action(InputKind::Other), InputAction::Ignore);
}

#[test]
fn shadow_matrix_layout() {
    assert_eq!(veloren::scene::SHADOW_MAT_SLOTS, 194);
    assert_eq!(veloren::scene::shadow_mat_count(0), 6);
    assert_eq!(veloren::scene::shadow_mat_count(31), 192);
    assert_eq!(veloren::scene::shadow_mat_count(MAX_LIGHT_COUNT), 198);
    assert!(veloren::scene::shadow_mats_fit(31));
    assert!(!veloren::scene::shadow_mats_fit(MAX_LIGHT_COUNT));
}
