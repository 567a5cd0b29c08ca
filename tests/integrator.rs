use rtc::integrator::{next_bounce, traces, Bounce, Surface};

#[test]
fn no_budget_traces_nothing() {
    assert!(!traces(0));
    assert!(traces(1));
    assert_eq!(next_bounce(0, Surface::Emitter), Bounce::Black);
    assert_eq!(next_bounce(0, Surface::Scatterer), Bounce::Black);
    assert_eq!(next_bounce(0, Surface::Miss), Bounce::Black);
}

#[test]
fn miss_returns_background() {
    assert_eq!(next_bounce(50, Surface::Miss), Bounce::Background);
}

#[test]
fn light_returns_its_emission_at_any_depth() {
    for depth in [1, 2, 50, u32::MAX] {
        assert_eq!(next_bounce(depth, Surface::Emitter), Bounce::Emission);
    }
}

#[test]
fn scatter_continues_with_one_less() {
    assert_eq!(next_bounce(50, Surface::Scatterer), Bounce::Continue(49));
    assert_eq!(next_bounce(1, Surface::Scatterer), Bounce::Continue(0));
}
