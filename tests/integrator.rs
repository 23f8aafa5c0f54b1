use raytracer::integrator::{after_bounce, start_path, Bounce, Ending, PathStep};

#[test]
fn spent_budget_is_black() {
    assert_eq!(start_path(0), PathStep::Finish { ending: Ending::Black });
    assert_eq!(start_path(-3), PathStep::Finish { ending: Ending::Black });
}

#[test]
fn budget_allows_a_trace() {
    assert_eq!(start_path(50), PathStep::Trace { remaining: 49 });
    assert_eq!(start_path(1), PathStep::Trace { remaining: 0 });
}

#[test]
fn miss_ends_in_sky() {
    assert_eq!(after_bounce(5, Bounce::Miss), PathStep::Finish { ending: Ending::Sky });
    assert_eq!(after_bounce(0, Bounce::Miss), PathStep::Finish { ending: Ending::Sky });
}

#[test]
fn absorption_ends_black() {
    assert_eq!(after_bounce(5, Bounce::Absorbed), PathStep::Finish { ending: Ending::Black });
}

#[test]
fn scatter_spends_one_bounce() {
    assert_eq!(after_bounce(5, Bounce::Scattered), PathStep::Trace { remaining: 4 });
    assert_eq!(after_bounce(0, Bounce::Scattered), PathStep::Finish { ending: Ending::Black });
}

#[test]
fn always_scattering_path_traces_depth_rays() {
    let mut traced = 0;
    let mut step = start_path(3);
    let ending = loop {
        match step {
            PathStep::Trace { remaining } => {
                traced += 1;
                step = after_bounce(remaining, Bounce::Scattered);
            }
            PathStep::Finish { ending } => break ending,
        }
    };
    assert_eq!(traced, 3);
    assert_eq!(ending, Ending::Black);
}
