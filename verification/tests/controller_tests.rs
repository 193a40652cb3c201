use kmeans_quant::controller::{Controller, Event, Phase, MAX_ITERATIONS};

#[test]
fn controller_starts_in_init() {
    let controller = Controller::new();
    assert_eq!(controller, Controller { phase: Phase::Init, iterations: 0 });
    assert!(!controller.is_finished());
}

#[test]
fn iteration_is_assign_then_update() {
    let mut controller = Controller::new();
    assert_eq!(controller.step(Event::Started), Phase::Assign);
    assert_eq!(controller.step(Event::Assigned), Phase::Update);
    assert_eq!(controller.iterations, 0);
    assert_eq!(controller.step(Event::Updated { converged: false }), Phase::Assign);
    assert_eq!(controller.iterations, 1);
    assert_eq!(controller.step(Event::Assigned), Phase::Update);
    assert_eq!(controller.step(Event::Updated { converged: true }), Phase::Finalize);
    assert_eq!(controller.iterations, 2);
    assert!(controller.is_finished());
}

#[test]
fn unexpected_events_change_nothing() {
    let mut controller = Controller::new();
    assert_eq!(controller.step(Event::Assigned), Phase::Init);
    assert_eq!(controller.step(Event::Updated { converged: true }), Phase::Init);
    controller.step(Event::Started);
    assert_eq!(controller.step(Event::Started), Phase::Assign);
    assert_eq!(controller.step(Event::Updated { converged: true }), Phase::Assign);
    controller.step(Event::Assigned);
    assert_eq!(controller.step(Event::Assigned), Phase::Update);
    assert_eq!(controller, Controller { phase: Phase::Update, iterations: 0 });
}

#[test]
fn run_stops_at_the_ceiling() {
    assert_eq!(MAX_ITERATIONS, 30);
    let mut controller = Controller::new();
    controller.step(Event::Started);
    let mut passes = 0;
    while !controller.is_finished() {
        assert_eq!(controller.step(Event::Assigned), Phase::Update);
        controller.step(Event::Updated { converged: false });
        passes += 1;
        assert!(passes <= 30);
    }
    assert_eq!(passes, 30);
    assert_eq!(controller, Controller { phase: Phase::Finalize, iterations: 30 });
}

#[test]
fn finalize_is_terminal() {
    let mut controller = Controller::new();
    controller.step(Event::Started);
    controller.step(Event::Assigned);
    controller.step(Event::Updated { converged: true });
    let ended = controller;
    assert_eq!(controller.step(Event::Started), Phase::Finalize);
    assert_eq!(controller.step(Event::Assigned), Phase::Finalize);
    assert_eq!(controller.step(Event::Updated { converged: false }), Phase::Finalize);
    assert_eq!(controller, ended);
}
