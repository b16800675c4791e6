use aima_rust::agents::envs::weather::{Weather, Window};
use aima_rust::agents::reflex::{identity, SimpleReflexAgent};

fn window_rule(weather: Weather) -> Window {
    match weather {
        Weather::Sunny => Window::Open,
        Weather::Rainy => Window::Close,
    }
}

#[test]
fn identity_hands_its_argument_back() {
    assert_eq!(identity(5u32), 5);
    assert_eq!(identity("percept"), "percept");
    assert_eq!(identity(Window::Close), Window::Close);
}

#[test]
fn reflex_agent_reacts_to_the_weather() {
    let agent = SimpleReflexAgent::new(identity, window_rule);
    assert_eq!(agent.run(Weather::Sunny), Window::Open);
    assert_eq!(agent.run(Weather::Rainy), Window::Close);
}

#[test]
fn reflex_agent_is_the_composition_of_its_functions() {
    let interpret = |reading: i32| reading > 20;
    let rules = |warm: bool| if warm { Window::Open } else { Window::Close };
    let agent = SimpleReflexAgent::new(interpret, rules);
    for reading in [-40, 0, 20, 21, 35] {
        assert_eq!(agent.run(reading), rules(interpret(reading)));
    }
    assert_eq!(agent.run(20), Window::Close);
    assert_eq!(agent.run(21), Window::Open);
}

#[test]
fn reflex_agent_gives_the_same_answer_again() {
    let agent = SimpleReflexAgent::new(identity, window_rule);
    let first = agent.run(Weather::Sunny);
    assert_eq!(agent.run(Weather::Rainy), Window::Close);
    assert_eq!(agent.run(Weather::Rainy), Window::Close);
    assert_eq!(agent.run(Weather::Sunny), first);
}

#[test]
fn reflex_agent_ignores_how_often_it_was_called() {
    let fresh = SimpleReflexAgent::new(identity, window_rule);
    let used = SimpleReflexAgent::new(identity, window_rule);
    for _ in 0..10_000 {
        assert_eq!(used.run(Weather::Rainy), Window::Close);
    }
    assert_eq!(used.run(Weather::Sunny), fresh.run(Weather::Sunny));
    assert_eq!(used.run(Weather::Sunny), Window::Open);
}
