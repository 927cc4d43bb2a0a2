use blackmamba_paint::animation::{
    finish_reveal_plan, reveal_walk, AnimationError, CameraKeyframe, CameraSample, CameraTrack,
    RevealBranch, RevealDirection, RevealEvent, RevealPlan, RevealStep,
};

fn event(node_index: usize, at_ms: u64, branch: RevealBranch) -> RevealEvent {
    RevealEvent { node_index, at_ms, branch }
}

#[test]
fn revealed_nodes_follow_event_order() {
    let plan = RevealPlan {
        seed_node_index: 2,
        duration_ms: 1000,
        events: vec![
            event(2, 0, RevealBranch::Seed),
            event(1, 500, RevealBranch::Start),
            event(3, 500, RevealBranch::End),
            event(0, 1000, RevealBranch::Start),
        ],
    };
    assert_eq!(plan.revealed_nodes_at(0), vec![2]);
    assert_eq!(plan.revealed_nodes_at(499), vec![2]);
    assert_eq!(plan.revealed_nodes_at(500), vec![2, 1, 3]);
    assert_eq!(plan.revealed_nodes_at(5000), vec![2, 1, 3, 0]);
}

#[test]
fn reveal_walk_visits_both_branches_from_the_seed() {
    let steps = reveal_walk(5, 2, RevealDirection::Both).unwrap();
    let summary: Vec<(usize, usize, RevealBranch)> = steps
        .iter()
        .map(|step| (step.node_index, step.previous_index, step.branch))
        .collect();
    assert_eq!(
        summary,
        vec![
            (2, 2, RevealBranch::Seed),
            (1, 2, RevealBranch::Start),
            (0, 1, RevealBranch::Start),
            (3, 2, RevealBranch::End),
            (4, 3, RevealBranch::End),
        ]
    );
}

#[test]
fn reveal_walk_in_one_direction() {
    assert_eq!(
        reveal_walk(3, 0, RevealDirection::TowardEnd).unwrap(),
        vec![
            RevealStep { node_index: 0, previous_index: 0, branch: RevealBranch::Seed },
            RevealStep { node_index: 1, previous_index: 0, branch: RevealBranch::End },
            RevealStep { node_index: 2, previous_index: 1, branch: RevealBranch::End },
        ]
    );
    assert_eq!(
        reveal_walk(3, 0, RevealDirection::TowardStart).unwrap(),
        vec![RevealStep { node_index: 0, previous_index: 0, branch: RevealBranch::Seed }]
    );
}

#[test]
fn reveal_walk_rejects_empty_paths_and_bad_seeds() {
    assert_eq!(reveal_walk(0, 0, RevealDirection::Both), Err(AnimationError::EmptyPath));
    assert_eq!(
        reveal_walk(3, 3, RevealDirection::Both),
        Err(AnimationError::InvalidSeedIndex(3))
    );
}

#[test]
fn finished_plan_orders_by_time_then_node() {
    let plan = finish_reveal_plan(
        2,
        vec![
            event(2, 0, RevealBranch::Seed),
            event(1, 500, RevealBranch::Start),
            event(0, 1000, RevealBranch::Start),
            event(3, 500, RevealBranch::End),
            event(4, 1000, RevealBranch::End),
        ],
    );
    assert_eq!(plan.seed_node_index, 2);
    assert_eq!(plan.duration_ms, 1000);
    assert_eq!(
        plan.events,
        vec![
            event(2, 0, RevealBranch::Seed),
            event(1, 500, RevealBranch::Start),
            event(3, 500, RevealBranch::End),
            event(0, 1000, RevealBranch::Start),
            event(4, 1000, RevealBranch::End),
        ]
    );
}

#[test]
fn empty_plan_lasts_zero_milliseconds() {
    let plan = finish_reveal_plan(0, Vec::new());
    assert_eq!(plan.duration_ms, 0);
    assert!(plan.events.is_empty());
}

#[test]
fn camera_track_sorts_keyframes() {
    let track = CameraTrack::new(vec![
        CameraKeyframe { at_ms: 1000, camera: 'b' },
        CameraKeyframe { at_ms: 0, camera: 'a' },
        CameraKeyframe { at_ms: 2500, camera: 'c' },
    ])
    .unwrap();
    let times: Vec<u64> = track.keyframes.iter().map(|k| k.at_ms).collect();
    assert_eq!(times, vec![0, 1000, 2500]);
    assert_eq!(track.keyframes[1].camera, 'b');
}

#[test]
fn camera_track_rejects_empty_and_duplicate_times() {
    assert_eq!(
        CameraTrack::<char>::new(Vec::new()).unwrap_err(),
        AnimationError::EmptyCameraTrack
    );
    assert_eq!(
        CameraTrack::new(vec![
            CameraKeyframe { at_ms: 900, camera: 'a' },
            CameraKeyframe { at_ms: 300, camera: 'b' },
            CameraKeyframe { at_ms: 900, camera: 'c' },
            CameraKeyframe { at_ms: 300, camera: 'd' },
        ])
        .unwrap_err(),
        AnimationError::DuplicateCameraTime(300)
    );
}

#[test]
fn camera_track_locates_moments() {
    let track = CameraTrack::new(vec![
        CameraKeyframe { at_ms: 0, camera: 0u8 },
        CameraKeyframe { at_ms: 1000, camera: 1u8 },
        CameraKeyframe { at_ms: 3000, camera: 2u8 },
    ])
    .unwrap();
    assert_eq!(track.locate(0), CameraSample::Keyframe(0));
    assert_eq!(
        track.locate(500),
        CameraSample::Between { start: 0, elapsed_ms: 500, span_ms: 1000 }
    );
    assert_eq!(
        track.locate(1000),
        CameraSample::Between { start: 0, elapsed_ms: 1000, span_ms: 1000 }
    );
    assert_eq!(
        track.locate(2000),
        CameraSample::Between { start: 1, elapsed_ms: 1000, span_ms: 2000 }
    );
    assert_eq!(track.locate(3000), CameraSample::Keyframe(2));
    assert_eq!(track.locate(9000), CameraSample::Keyframe(2));
}

#[test]
fn reveal_is_progressive_over_a_finished_plan() {
    let plan = finish_reveal_plan(
        1,
        vec![
            event(1, 0, RevealBranch::Seed),
            event(0, 700, RevealBranch::Start),
            event(2, 300, RevealBranch::End),
            event(3, 900, RevealBranch::End),
        ],
    );
    let mut previous: Vec<usize> = Vec::new();
    for at_ms in [0, 299, 300, 650, 700, 899, 900, 2000] {
        let now = plan.revealed_nodes_at(at_ms);
        assert!(now.len() >= previous.len());
        assert_eq!(&now[..previous.len()], &previous[..]);
        previous = now;
    }
    assert_eq!(previous, vec![1, 2, 0, 3]);
}

#[test]
fn both_directions_reveal_every_node_once() {
    for count in 1..8usize {
        for seed in 0..count {
            let steps = reveal_walk(count, seed, RevealDirection::Both).unwrap();
            let mut seen: Vec<usize> = steps.iter().map(|s| s.node_index).collect();
            seen.sort();
            assert_eq!(seen, (0..count).collect::<Vec<_>>());
        }
    }
}
