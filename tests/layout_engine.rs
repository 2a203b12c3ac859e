use himewm::layout::Layout;
use himewm::variant::{EndBehaviour, EndBehaviourType, RepeatingSplit, Variant};
use himewm::variants_container::{VariantsContainer, VariantsContainerReturn};
use himewm::zone::{Direction, InvisibleBorder, Zone};

fn two_column_variant(direction: Direction) -> Variant {
    Variant::new(
        vec![
            vec![Zone::new(0, 0, 1920, 1200)],
            vec![Zone::new(0, 0, 960, 1200), Zone::new(960, 0, 960, 1200)],
        ],
        EndBehaviour {
            from: None,
            position_idx: 1,
            behaviour: EndBehaviourType::Directional { direction },
        },
    )
}

#[test]
fn extending() {
    let mut variant = two_column_variant(Direction::Down);
    variant.extend();
    let last_positions = &variant.positions()[variant.positions().len() - 1];
    assert_eq!(last_positions[0], Zone::new(0, 0, 960, 1200));
    assert_eq!(last_positions[1], Zone::new(960, 0, 960, 600));
    assert_eq!(last_positions[2], Zone::new(960, 600, 960, 600));
}

#[test]
fn extending_upwards_puts_new_zones_above() {
    let mut variant = two_column_variant(Direction::Up);
    variant.extend();
    let last = &variant.positions()[2];
    assert_eq!(last[1], Zone::new(960, 600, 960, 600));
    assert_eq!(last[2], Zone::new(960, 0, 960, 600));
}

#[test]
fn extending_many_states_keeps_counts() {
    let mut variant = two_column_variant(Direction::Right);
    variant.ensure_states(6);
    for (k, state) in variant.positions().iter().enumerate() {
        assert_eq!(state.len(), k + 1);
    }
    let fourth = &variant.positions()[3];
    assert_eq!(fourth[1], Zone::new(960, 0, 320, 1200));
    assert_eq!(fourth[2], Zone::new(1280, 0, 320, 1200));
    assert_eq!(fourth[3], Zone::new(1600, 0, 320, 1200));
}

#[test]
fn repeating_split_cuts_by_ratio_and_swaps() {
    let mut variant = Variant::new(
        vec![vec![Zone::new(0, 0, 1920, 1200)]],
        EndBehaviour {
            from: None,
            position_idx: 0,
            behaviour: EndBehaviourType::Repeating {
                splits: vec![
                    RepeatingSplit::new(Direction::Right, 1, 2, 1, false),
                    RepeatingSplit::new(Direction::Down, 1, 4, 1, true),
                ],
            },
        },
    );
    variant.extend();
    assert_eq!(variant.positions()[1], vec![Zone::new(0, 0, 960, 1200), Zone::new(960, 0, 960, 1200)]);
    variant.extend();
    assert_eq!(
        variant.positions()[2],
        vec![Zone::new(0, 0, 960, 1200), Zone::new(960, 300, 960, 900), Zone::new(960, 0, 960, 300)]
    );
}

#[test]
fn padding_uses_edge_padding_on_monitor_edges() {
    let mut variant = two_column_variant(Direction::Down);
    let monitor = Zone::new(0, 0, 1920, 1200);
    let r = variant.get_internal_positions(2, 10, 4, &monitor, &InvisibleBorder::none());
    assert_eq!(r[0], Zone::new(4, 4, 960 - 4 - 10, 1200 - 8));
    assert_eq!(r[1], Zone::new(970, 4, 960 - 10 - 4, 1200 - 8));
}

#[test]
fn invisible_border_widens_windows() {
    let mut variant = two_column_variant(Direction::Down);
    let monitor = Zone::new(0, 0, 1920, 1200);
    let r = variant.get_internal_positions(1, 0, 0, &monitor, &InvisibleBorder::platform_default());
    assert_eq!(r[0], Zone::new(-7, 0, 1934, 1207));
}

#[test]
fn degenerate_window_is_at_least_one_pixel() {
    let mut variant = Variant::new(
        vec![vec![Zone::new(0, 0, 10, 10)]],
        EndBehaviour {
            from: None,
            position_idx: 0,
            behaviour: EndBehaviourType::Directional { direction: Direction::Down },
        },
    );
    let r = variant.get_internal_positions(1, 20, 20, &Zone::new(0, 0, 10, 10), &InvisibleBorder::none());
    assert_eq!(r[0].w, 1);
    assert_eq!(r[0].h, 1);
}

#[test]
fn adapting_to_own_monitor_gives_nothing() {
    let layout = Layout::new(1920, 1200);
    assert!(layout.adapt_to_monitor(&Zone::new(0, 0, 1920, 1200)).is_none());
}

#[test]
fn adapting_rescales_and_is_idempotent() {
    let variant = two_column_variant(Direction::Down);
    let layout = Layout::from_parts(Zone::new(0, 0, 1920, 1200), VariantsContainer::Variants(vec![variant]), vec![0]);
    let target = Zone::new(1920, 0, 1280, 720);
    let adapted = layout.adapt_to_monitor(&target).unwrap();
    assert_eq!(*adapted.get_monitor_rect(), target);
    match adapted.get_variants().get(&[0]) {
        VariantsContainerReturn::Variant(v) => {
            assert_eq!(v.positions()[1], vec![Zone::new(1920, 0, 640, 720), Zone::new(2560, 0, 640, 720)]);
        }
        VariantsContainerReturn::Container(_) => panic!("expected a variant"),
    }
    assert!(adapted.adapt_to_monitor(&target).is_none());
}

#[test]
fn variant_tree_paths_are_clamped() {
    let tree = VariantsContainer::Container(vec![
        VariantsContainer::Variants(vec![1, 2]),
        VariantsContainer::Variants(vec![3, 4, 5]),
    ]);
    assert_eq!(tree.len(), 2);
    assert_eq!(*tree.get_innermost(&[1, 9]), 5);
    assert_eq!(*tree.get_innermost(&[7]), 3);
    assert_eq!(*tree.get_innermost(&[]), 1);
    let doubled = tree.map(&|x: &i32| x * 2);
    assert_eq!(*doubled.get_innermost(&[1, 1]), 8);
}

#[test]
fn variant_tree_mutable_access_writes_back() {
    let mut tree = VariantsContainer::Container(vec![
        VariantsContainer::Variants(vec![1, 2]),
        VariantsContainer::Variants(vec![3]),
    ]);
    *tree.get_innermost_mut(&[0, 1]) = 20;
    assert_eq!(*tree.get_innermost(&[0, 1]), 20);
    if let himewm::variants_container::VariantsContainerReturnMut::Variant(v) = tree.get_mut(&[1, 0]) {
        *v = 30;
    }
    assert_eq!(*tree.get_innermost(&[1]), 30);
}

#[test]
fn directional_slices_share_the_remainder() {
    let mut variant = Variant::new(
        vec![vec![Zone::new(0, 0, 10, 10)]],
        EndBehaviour {
            from: None,
            position_idx: 0,
            behaviour: EndBehaviourType::Directional { direction: Direction::Down },
        },
    );
    variant.ensure_states(4);
    let heights: Vec<i32> = variant.positions()[3].iter().map(|z| z.h).collect();
    assert_eq!(heights, vec![2, 2, 3, 3]);
    assert_eq!(variant.positions()[3][3], Zone::new(0, 7, 10, 3));
}
