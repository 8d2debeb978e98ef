use rusty_shooter::game::{CommandEvent, CommandKind, CommandSource, Effect, Game, InputKind, Key, RoutedEvent};
use rusty_shooter::scheduler::GameTime;

fn press(key: Key) -> RoutedEvent {
    RoutedEvent { kind: InputKind::KeyPressed(key), handled: false }
}

fn click(source: CommandSource) -> CommandEvent {
    CommandEvent { source, kind: CommandKind::Click, handled: false }
}

#[test]
fn consumed_input_never_reaches_the_session() {
    let mut g = Game::new(10, 0);
    g.start_new_game();
    let mut ev = press(Key::Other(7));
    let fx = g.process_input_event(&mut ev, true);
    assert!(ev.handled);
    assert!(!fx.contains(&Effect::ForwardToSession));
    assert!(fx.is_empty());
}

#[test]
fn unconsumed_input_is_forwarded_to_a_live_session() {
    let mut g = Game::new(10, 0);
    let mut ev = press(Key::Other(7));
    assert!(g.process_input_event(&mut ev, false).is_empty());
    g.start_new_game();
    let mut ev = press(Key::Other(7));
    assert_eq!(g.process_input_event(&mut ev, false), vec![Effect::ForwardToSession]);
    assert!(!ev.handled);
}

#[test]
fn menu_key_toggles_in_two_steps() {
    let mut g = Game::new(10, 0);
    g.set_menu_visible(false);
    let mut first = press(Key::Escape);
    assert_eq!(g.process_input_event(&mut first, false), vec![Effect::SetMenuVisible(true)]);
    assert!(g.is_menu_visible());
    let mut second = press(Key::Escape);
    assert_eq!(g.process_input_event(&mut second, true), vec![Effect::SetMenuVisible(false)]);
    assert!(!g.is_menu_visible());
}

#[test]
fn key_release_does_not_toggle_menu() {
    let mut g = Game::new(10, 0);
    let mut ev = RoutedEvent { kind: InputKind::KeyReleased(Key::Escape), handled: false };
    assert!(g.process_input_event(&mut ev, false).is_empty());
    assert!(g.is_menu_visible());
}

#[test]
fn close_request_stops_even_when_consumed() {
    let mut g = Game::new(10, 0);
    g.start_new_game();
    let mut ev = RoutedEvent { kind: InputKind::CloseRequested, handled: false };
    assert_eq!(g.process_input_event(&mut ev, true), vec![Effect::Stop]);
    assert!(!g.is_running());
}

#[test]
fn new_game_twice_keeps_one_session() {
    let mut g = Game::new(10, 0);
    let first = g.start_new_game();
    assert_eq!(first, vec![Effect::CreateSession, Effect::SetMenuVisible(false)]);
    let second = g.start_new_game();
    assert_eq!(second, vec![Effect::DestroySession, Effect::CreateSession, Effect::SetMenuVisible(false)]);
    assert!(g.has_level());
    assert!(!g.is_menu_visible());
}

#[test]
fn handled_command_is_not_run_again() {
    let mut g = Game::new(10, 0);
    let mut ev = click(CommandSource::NewGame);
    let fx = g.process_ui_event(&mut ev);
    assert!(ev.handled);
    assert_eq!(fx, vec![Effect::CreateSession, Effect::SetMenuVisible(false)]);
    assert!(g.process_ui_event(&mut ev).is_empty());
    assert!(g.has_level());
}

#[test]
fn save_and_load_commands_hand_back_work() {
    let mut g = Game::new(10, 0);
    let mut save = click(CommandSource::SaveGame);
    assert_eq!(g.process_ui_event(&mut save), vec![Effect::Save]);
    assert!(save.handled);
    let mut load = click(CommandSource::LoadGame);
    assert_eq!(g.process_ui_event(&mut load), vec![Effect::Load]);
    assert!(load.handled);
}

#[test]
fn quit_tears_down_and_stops() {
    let mut g = Game::new(10, 0);
    g.start_new_game();
    let mut ev = click(CommandSource::QuitGame);
    assert_eq!(g.process_ui_event(&mut ev), vec![Effect::DestroySession, Effect::Stop]);
    assert!(!g.has_level());
    assert!(!g.is_running());
}

#[test]
fn unknown_source_and_non_click_are_ignored() {
    let mut g = Game::new(10, 0);
    let mut other = click(CommandSource::Other(42));
    assert!(g.process_ui_event(&mut other).is_empty());
    assert!(!other.handled);
    let mut hover = CommandEvent { source: CommandSource::NewGame, kind: CommandKind::Other, handled: false };
    assert!(g.process_ui_event(&mut hover).is_empty());
    assert!(!hover.handled);
    assert!(!g.has_level());
}

#[test]
fn update_runs_only_with_a_session() {
    let mut g = Game::new(10, 0);
    let t = GameTime { elapsed: 10, delta: 10 };
    assert_eq!(g.update(&t), None);
    g.start_new_game();
    assert_eq!(g.update(&t), Some(t));
}

#[test]
fn game_limit_fps_uses_its_own_tick() {
    let mut g = Game::new(10, 100);
    assert_eq!(g.limit_fps(100 + 1_000_000, 1000), 0);
    assert_eq!(g.last_tick_time(), 1_000_100);
    assert_eq!(g.limit_fps(1_000_100 + 250_000, 1000), 750_000);
    assert_eq!(g.last_tick_time(), 2_000_100);
}

#[test]
fn game_plans_its_own_steps() {
    let mut g = Game::new(10, 0);
    let plan = g.plan_updates(35);
    assert_eq!(plan, vec![
        GameTime { elapsed: 10, delta: 10 },
        GameTime { elapsed: 20, delta: 10 },
        GameTime { elapsed: 30, delta: 10 },
    ]);
    assert_eq!(g.time(), GameTime { elapsed: 30, delta: 10 });
}
