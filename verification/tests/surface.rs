use wpaperd::filelist_cache::FilelistCache;
use wpaperd::surface::{
    DrawActions,
    remaining_duration, LoadOutcome, LoadStep, LoaderStatus, Surface, TimerCommand, TimerFired,
    TransitionTimer,
};
use wpaperd::wallpaper_groups::WallpaperGroups;
use wpaperd::wallpaper_info::{BackgroundMode, TextureWrap, WallpaperInfo};

const SECOND: u128 = 1_000_000_000;
const IMAGE: &str = "/nonexistent-wpaperd-test/wall.png";

fn info(duration: Option<u128>) -> WallpaperInfo {
    let mut w = WallpaperInfo::default_info();
    w.path = IMAGE.to_string();
    w.duration = duration;
    w
}

fn setup(duration: Option<u128>) -> (Surface, FilelistCache, WallpaperGroups) {
    let cache = FilelistCache::new(&vec![IMAGE.to_string()]);
    let mut groups = WallpaperGroups::new();
    let surface = Surface::new("DP-1".to_string(), info(duration), &cache, &mut groups);
    (surface, cache, groups)
}

#[test]
fn remaining_duration_counts_whole_seconds() {
    assert_eq!(Some(7 * SECOND), remaining_duration(10 * SECOND, 0, 3 * SECOND));
    // Fractions of a second are dropped on both sides.
    assert_eq!(Some(7 * SECOND), remaining_duration(10 * SECOND + 900_000_000, 0, 3 * SECOND + 999_999_999));
    assert_eq!(None, remaining_duration(10 * SECOND, 5 * SECOND, 15 * SECOND));
    assert_eq!(None, remaining_duration(10 * SECOND, 0, 20 * SECOND));
    // A clock read before the start counts as no time.
    assert_eq!(Some(10 * SECOND), remaining_duration(10 * SECOND, 5 * SECOND, 0));
    assert_eq!(None, remaining_duration(500_000_000, 0, 0));
}

#[test]
fn add_timer_uses_the_duration_with_the_transition_time() {
    let (mut s, _, _) = setup(Some(60 * SECOND));
    assert_eq!(None, s.get_remaining_duration(0));
    let added = s.add_timer(None, 0);
    assert_eq!(Some(60 * SECOND + 300 * 1_000_000), added);
    // A timer runs already.
    assert_eq!(None, s.add_timer(Some(5 * SECOND), 0));
    assert_eq!(Some(50 * SECOND), s.get_remaining_duration(10 * SECOND));
}

#[test]
fn no_duration_no_timer() {
    let (mut s, _, _) = setup(None);
    assert_eq!(None, s.add_timer(None, 0));
    assert_eq!(None, s.get_remaining_duration(0));
}

#[test]
fn pause_keeps_the_time_left_and_resume_restarts_it() {
    let (mut s, _, _) = setup(Some(60 * SECOND));
    s.add_timer(Some(60 * SECOND), 0);
    s.pause();
    assert!(s.should_pause());
    assert_eq!(TimerCommand { remove: true, add: None }, s.handle_pause_state(20 * SECOND));
    // Paused: the time left does not run.
    assert_eq!(Some(40 * SECOND), s.get_remaining_duration(100 * SECOND));
    assert_eq!(TimerCommand { remove: false, add: None }, s.handle_pause_state(100 * SECOND));
    s.resume();
    assert_eq!(
        TimerCommand { remove: false, add: Some(40 * SECOND) },
        s.handle_pause_state(100 * SECOND)
    );
    assert_eq!(Some(30 * SECOND), s.get_remaining_duration(110 * SECOND));
}

#[test]
fn toggling_twice_changes_nothing() {
    let (mut s, _, _) = setup(None);
    assert!(!s.should_pause());
    s.toggle_pause();
    assert!(s.should_pause());
    s.toggle_pause();
    assert!(!s.should_pause());
}

#[test]
fn status_follows_the_pause() {
    let (mut s, _, _) = setup(None);
    assert_eq!("running", s.status_for(true));
    assert_eq!("static", s.status_for(false));
    s.pause();
    assert_eq!("paused", s.status_for(true));
    // The image path is not a directory.
    assert_eq!("static", s.status());
}

#[test]
fn timer_fired_early_runs_again_for_the_time_left() {
    let (mut s, cache, mut groups) = setup(Some(60 * SECOND));
    s.add_timer(Some(60 * SECOND), 0);
    assert_eq!(
        TimerFired::Reschedule { duration: 20 * SECOND, next_image: false },
        s.timer_fired(40 * SECOND, &cache, &mut groups)
    );
    assert_eq!(
        TimerFired::Reschedule { duration: 60 * SECOND, next_image: true },
        s.timer_fired(60 * SECOND, &cache, &mut groups)
    );
}

#[test]
fn timer_without_duration_is_dropped() {
    let (mut s, cache, mut groups) = setup(None);
    assert_eq!(TimerFired::Drop, s.timer_fired(0, &cache, &mut groups));
    s.add_timer(Some(SECOND), 0);
    assert_eq!(TimerFired::Drop, s.timer_fired(5 * SECOND, &cache, &mut groups));
}

#[test]
fn loading_a_single_image() {
    let (mut s, cache, mut groups) = setup(None);
    assert!(!s.has_been_drawn());
    // The first step asks the loader for the image.
    match s.next_load(false, &cache, &mut groups) {
        LoadStep::Load { path, index } => {
            assert_eq!(IMAGE, path);
            assert_eq!(0, index);
        }
        LoadStep::Ready => panic!("expected a load"),
    }
    // A running transition makes the load wait.
    assert!(matches!(s.next_load(true, &cache, &mut groups), LoadStep::Ready));
    assert_eq!(LoadOutcome::Waiting, s.load_finished(LoaderStatus::Waiting, true, 0, &mut groups));
    // The first transition runs, as the first image fades in.
    assert_eq!(
        LoadOutcome::Shown { transition_time: Some(300) },
        s.load_finished(LoaderStatus::Loaded, true, 0, &mut groups)
    );
    assert_eq!(IMAGE, s.current_image());
    s.drawn();
    assert!(s.has_been_drawn());
    // Nothing more to load.
    assert!(matches!(s.next_load(false, &cache, &mut groups), LoadStep::Ready));
}

#[test]
fn loading_gives_up_after_five_errors() {
    let (mut s, cache, mut groups) = setup(None);
    for _ in 0..4 {
        assert!(matches!(s.next_load(false, &cache, &mut groups), LoadStep::Load { .. }));
        assert_eq!(LoadOutcome::Retry, s.load_finished(LoaderStatus::Error, true, 0, &mut groups));
    }
    assert!(matches!(s.next_load(false, &cache, &mut groups), LoadStep::Load { .. }));
    assert_eq!(LoadOutcome::GaveUp, s.load_finished(LoaderStatus::Error, true, 0, &mut groups));
}

#[test]
fn a_later_load_gets_its_own_tries() {
    let (mut s, cache, mut groups) = setup(None);
    for _ in 0..2 {
        for _ in 0..4 {
            assert!(matches!(s.next_load(false, &cache, &mut groups), LoadStep::Load { .. }));
            assert_eq!(LoadOutcome::Retry, s.load_finished(LoaderStatus::Error, true, 0, &mut groups));
        }
        assert!(matches!(s.next_load(false, &cache, &mut groups), LoadStep::Load { .. }));
        assert_eq!(LoadOutcome::GaveUp, s.load_finished(LoaderStatus::Error, true, 0, &mut groups));
    }
}

#[test]
fn skipped_first_transition() {
    let cache = FilelistCache::new(&vec![IMAGE.to_string()]);
    let mut groups = WallpaperGroups::new();
    let mut w = info(None);
    w.initial_transition = false;
    let mut s = Surface::new("DP-1".to_string(), w, &cache, &mut groups);
    assert_eq!(0, s.setup_drawing_image(IMAGE.to_string(), 0, 0, &mut groups));
    assert_eq!(300, s.setup_drawing_image(IMAGE.to_string(), 0, 0, &mut groups));
}

#[test]
fn reload_is_done_once_loaded() {
    let (mut s, cache, mut groups) = setup(None);
    assert!(matches!(s.next_load(false, &cache, &mut groups), LoadStep::Load { .. }));
    s.load_finished(LoaderStatus::Loaded, true, 0, &mut groups);
    s.reload();
    assert!(matches!(s.next_load(false, &cache, &mut groups), LoadStep::Load { .. }));
    assert_eq!(
        LoadOutcome::Shown { transition_time: None },
        s.load_finished(LoaderStatus::Loaded, true, 0, &mut groups)
    );
    assert!(matches!(s.next_load(false, &cache, &mut groups), LoadStep::Ready));
}

#[test]
fn new_duration_counts_the_time_already_shown() {
    let (mut s, cache, mut groups) = setup(Some(60 * SECOND));
    s.add_timer(Some(60 * SECOND), 0);
    let mut w = info(Some(90 * SECOND));
    let a = s.update_wallpaper_info_with(w, false, 20 * SECOND, &cache, &mut groups);
    assert!(a.changed);
    // Shown for 20 s of the new 90 s: 70 s are left.
    assert_eq!(TimerCommand { remove: true, add: Some(70 * SECOND) }, a.timer);
    assert!(!a.load);
    // Removing the duration removes the timer.
    w = info(None);
    let a = s.update_wallpaper_info_with(w, false, 30 * SECOND, &cache, &mut groups);
    assert_eq!(TimerCommand { remove: true, add: None }, a.timer);
    assert_eq!(None, s.get_remaining_duration(30 * SECOND));
}

#[test]
fn new_duration_shorter_than_the_time_shown_moves_on() {
    let (mut s, cache, mut groups) = setup(Some(60 * SECOND));
    s.add_timer(Some(60 * SECOND), 0);
    let (c, load) = {
        let a = s.update_wallpaper_info_with(info(Some(10 * SECOND)), false, 30 * SECOND, &cache, &mut groups);
        (a.timer, a.load)
    };
    assert!(load);
    assert_eq!(TimerCommand { remove: true, add: Some(10 * SECOND) }, c);
}

#[test]
fn same_settings_change_nothing() {
    let (mut s, cache, mut groups) = setup(None);
    let a = s.update_wallpaper_info_with(info(None), true, 0, &cache, &mut groups);
    assert!(!a.changed);
    let mut w = info(None);
    w.mode = BackgroundMode::Tile;
    w.transition_time = 500;
    let a = s.update_wallpaper_info_with(w, false, 0, &cache, &mut groups);
    assert!(a.changed && a.set_mode && a.draw_now);
    assert_eq!(Some(500), a.transition_time);
    assert!(!a.update_transition);
}

#[test]
fn transition_timer_ends_the_transition_once_its_time_is_up() {
    let (mut s, _, _) = setup(Some(60 * SECOND));
    assert_eq!(TransitionTimer::Drop, s.transition_timer_fired(300, 0));
    s.add_timer(Some(60 * SECOND), 0);
    assert_eq!(TransitionTimer::Reschedule(200 * 1_000_000), s.transition_timer_fired(300, 100 * 1_000_000));
    assert_eq!(TransitionTimer::Finished, s.transition_timer_fired(300, 300 * 1_000_000));
}

fn actions(request_frame: bool, finish_transition: bool, draw: bool) -> DrawActions {
    DrawActions { request_frame, finish_transition, draw }
}

#[test]
fn drawing_a_frame() {
    let (mut s, cache, mut groups) = setup(None);
    assert_eq!(actions(true, false, true), s.draw_actions(true, true));
    assert_eq!(actions(false, true, true), s.draw_actions(true, false));
    assert_eq!(actions(false, false, true), s.draw_actions(false, false));
    assert!(matches!(s.next_load(false, &cache, &mut groups), LoadStep::Load { .. }));
    // Loading: the first frame is drawn, later ones only wait.
    assert_eq!(actions(true, false, true), s.draw_actions(false, false));
    s.drawn();
    assert_eq!(actions(true, false, false), s.draw_actions(false, false));
    // A running transition comes first.
    assert_eq!(actions(true, false, true), s.draw_actions(true, true));
    s.load_finished(LoaderStatus::Loaded, true, 0, &mut groups);
    assert_eq!(actions(false, false, true), s.draw_actions(false, false));
}

#[test]
fn texture_wrap_of_each_mode() {
    assert_eq!(TextureWrap::ClampToBorder, BackgroundMode::Stretch.texture_wrap());
    assert_eq!(TextureWrap::ClampToBorder, BackgroundMode::Center.texture_wrap());
    assert_eq!(TextureWrap::ClampToBorder, BackgroundMode::Fit.texture_wrap());
    assert_eq!(TextureWrap::Repeat, BackgroundMode::Tile.texture_wrap());
    assert_eq!(TextureWrap::ClampToEdge, BackgroundMode::FitBorderColor.texture_wrap());
}
