use klotski::components::{EventQueue, Gameplay, GameplayState, Renderable, RenderableKind, Time};

#[test]
fn static_renderable_has_one_path() {
    let r = Renderable::new_static("/images/floor.png");
    assert_eq!(r.kind(), RenderableKind::Static);
    assert_eq!(r.path(0), "/images/floor.png");
    assert_eq!(r.path(7), "/images/floor.png");
}

#[test]
fn animated_renderable_wraps_its_index() {
    let r = Renderable::new_animated(vec!["/a.png", "/b.png", "/c.png"]);
    assert_eq!(r.kind(), RenderableKind::Animated);
    assert_eq!(r.path(0), "/a.png");
    assert_eq!(r.path(2), "/c.png");
    assert_eq!(r.path(3), "/a.png");
    assert_eq!(r.path(7), "/b.png");
}

#[test]
fn gameplay_defaults() {
    let g = Gameplay::default();
    assert_eq!(g.state, GameplayState::Playing);
    assert_eq!(g.moves_count, 0);
    assert_eq!(GameplayState::default(), GameplayState::Playing);
    assert_eq!(GameplayState::Playing.name(), "Playing");
    assert_eq!(GameplayState::Won.name(), "Won");
}

#[test]
fn time_starts_at_zero_and_queue_empty() {
    assert_eq!(Time::new().delta_nanos, 0);
    assert!(EventQueue::new().events.is_empty());
}
