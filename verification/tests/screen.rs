use qproj::screen::{despawns_on_unload, LoadingStrategy, ScreenRegistry, ScreenSchedule, ScreenState, TfwSettings};

#[test]
fn state_predicates() {
    assert!(ScreenState::Ready.is_ready());
    assert!(ScreenState::Loading.is_loading());
    assert!(ScreenState::Unloading.is_unloading());
    assert!(ScreenState::Unloaded.is_unloaded());
    assert!(!ScreenState::Ready.is_loading());
    assert_eq!(ScreenState::default(), ScreenState::Unloaded);
    assert!(TfwSettings::default().initial_screen_name.is_none());
}

#[test]
fn schedules_map_to_states() {
    assert_eq!(ScreenState::from(ScreenSchedule::Main), ScreenState::Ready);
    assert_eq!(ScreenState::from(ScreenSchedule::Fixed), ScreenState::Ready);
    assert_eq!(ScreenState::from(ScreenSchedule::Load), ScreenState::Loading);
    assert_eq!(ScreenState::from(ScreenSchedule::Unload), ScreenState::Unloading);
}

#[test]
fn which_schedules_run() {
    assert!(ScreenSchedule::Main.should_run(false, ScreenState::Loading));
    assert!(!ScreenSchedule::Main.should_run(true, ScreenState::Loading));
    assert!(ScreenSchedule::Main.should_run(true, ScreenState::Ready));
    assert!(!ScreenSchedule::Main.should_run(false, ScreenState::Unloaded));
    assert!(!ScreenSchedule::Fixed.should_run(false, ScreenState::Unloading));
    assert!(!ScreenSchedule::Main.should_run(false, ScreenState::Unloading));
    assert!(ScreenSchedule::Fixed.should_run(false, ScreenState::Loading));
    assert!(ScreenSchedule::Fixed.should_run(false, ScreenState::Ready));
    assert!(ScreenSchedule::Load.should_run(false, ScreenState::Loading));
    assert!(!ScreenSchedule::Load.should_run(false, ScreenState::Ready));
    assert!(ScreenSchedule::Unload.should_run(true, ScreenState::Unloading));
}

#[test]
fn loading_strategies() {
    assert!(LoadingStrategy::Blocking.is_blocking());
    assert!(!LoadingStrategy::Nonblocking.is_blocking());
    assert!(LoadingStrategy::Blocking.blocks(true));
    assert!(!LoadingStrategy::Blocking.blocks(false));
    assert!(!LoadingStrategy::Nonblocking.blocks(true));
}

#[test]
fn load_and_unload() {
    let mut r = ScreenRegistry::new();
    r.register(1, "Title".to_string());
    r.register(2, "Game".to_string());
    assert_eq!(r.get(1).unwrap().state, ScreenState::Unloaded);
    r.load(1);
    assert_eq!(r.get(1).unwrap().state, ScreenState::Loading);
    r.load(1);
    assert_eq!(r.get(1).unwrap().state, ScreenState::Loading);
    r.unload(1);
    assert_eq!(r.get(1).unwrap().state, ScreenState::Unloading);
    r.unload(1);
    assert_eq!(r.get(1).unwrap().state, ScreenState::Unloading);
    r.load(1);
    assert_eq!(r.get(1).unwrap().state, ScreenState::Loading);
    r.unload(2);
    assert_eq!(r.get(2).unwrap().state, ScreenState::Unloaded);
    assert_eq!(r.get(2).unwrap().name, "Game");
    assert!(r.get(3).is_none());
}

#[test]
fn the_last_known_switch_wins() {
    let mut r = ScreenRegistry::new();
    r.register(1, "Title".to_string());
    r.register(2, "Game".to_string());
    assert_eq!(r.handle_switch(&vec![1, 7, 2, 9, 8]), vec![8, 9]);
    assert_eq!(r.get(2).unwrap().state, ScreenState::Loading);
    assert_eq!(r.get(1).unwrap().state, ScreenState::Unloaded);
    assert_eq!(r.handle_switch(&vec![5, 6]), vec![6, 5]);
    assert_eq!(r.get(1).unwrap().state, ScreenState::Unloaded);
    assert_eq!(r.handle_switch(&vec![]), Vec::<u64>::new());
}

#[test]
fn find_screens_by_name() {
    let mut r = ScreenRegistry::new();
    r.register(1, "Title".to_string());
    r.register(2, "Game".to_string());
    assert_eq!(r.find_by_name(&"Game".to_string()), Some(2));
    assert_eq!(r.find_by_name(&"Nope".to_string()), None);
}

#[test]
fn cleanup_on_unload() {
    assert!(despawns_on_unload(true, true, false, false));
    assert!(despawns_on_unload(false, false, false, false));
    assert!(!despawns_on_unload(false, true, false, false));
    assert!(!despawns_on_unload(true, false, true, false));
    assert!(despawns_on_unload(true, false, true, true));
}
