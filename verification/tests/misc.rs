use wpaperd::filelist_cache::{filter_images, is_image, FilelistCache};
use wpaperd::output_timer::{Output, OutputTimer};
use wpaperd::wallpaper::Wallpaper;
use wpaperd::wallpaper_groups::WallpaperGroups;
use wpaperd::wallpaper_info::{Transition, TransitionKind, WallpaperInfo};

const SECOND: u128 = 1_000_000_000;

#[test]
fn image_types_are_guessed_from_the_extension() {
    assert!(is_image(&"/walls/a.png".to_string()));
    assert!(is_image(&"/walls/b.JPG".to_string()));
    assert!(!is_image(&"/walls/notes.txt".to_string()));
    assert!(!is_image(&"/walls/README".to_string()));
    let entries: Vec<String> = ["/w", "/w/a.png", "/w/b.txt", "/w/c.jpeg"].iter().map(|s| s.to_string()).collect();
    assert_eq!(vec!["/w/a.png".to_string(), "/w/c.jpeg".to_string()], filter_images(&entries));
}

#[test]
fn cache_of_missing_paths_is_empty() {
    let mut cache = FilelistCache::new(&vec!["/nonexistent-wpaperd-test".to_string()]);
    assert!(cache.get(&"/nonexistent-wpaperd-test".to_string()).is_empty());
    cache.mark_outdated(&"/nonexistent-wpaperd-test".to_string());
    cache.update_cache();
    let update = cache.update_paths(&vec!["/nonexistent-wpaperd-test/other".to_string()]);
    assert_eq!(vec!["/nonexistent-wpaperd-test".to_string()], update.removed);
    assert_eq!(vec!["/nonexistent-wpaperd-test/other".to_string()], update.added);
}

#[test]
fn output_timer_expires_after_its_time() {
    let output = Output { path: Some("/w".to_string()), mode: None, time: Some(10) };
    let mut timer = OutputTimer::new(output, 0);
    assert!(!timer.check_timeout(10 * SECOND));
    assert!(!timer.expired);
    assert!(timer.check_timeout(10 * SECOND + 1));
    assert!(timer.expired);
    // It counts again from the expiry.
    assert!(!timer.check_timeout(15 * SECOND));
    timer.update_output(Output { path: None, mode: None, time: None });
    assert!(!timer.check_timeout(1000 * SECOND));
}

#[test]
fn wallpaper_keeps_its_size() {
    let mut w = Wallpaper::new(3, 1920, 1080);
    assert_eq!(1920, w.get_image_width());
    assert_eq!(1080, w.get_image_height());
    w.load_image(800, 600);
    assert_eq!(800, w.get_image_width());
    assert_eq!(600, w.get_image_height());
}

#[test]
fn transition_times() {
    assert_eq!(300, TransitionKind::Fade.default_transition_time());
    let t = Transition { kind: TransitionKind::Ripple, settings: vec![Some(vec![7]), None] };
    assert!(t.same_as(&t.copy()));
    assert!(!t.same_as(&Transition::fade()));
    let a = WallpaperInfo::default_info();
    let b = WallpaperInfo::default_info();
    assert!(a.same_as(&b));
    assert_eq!(10, a.drawn_images_queue_size);
}

#[test]
fn joining_and_leaving_a_group() {
    let mut groups = WallpaperGroups::new();
    groups.get_or_insert(2, &"DP-1".to_string(), 5);
    groups.get_or_insert(2, &"DP-2".to_string(), 5);
    groups.get_or_insert(2, &"DP-2".to_string(), 5);
    assert_eq!(2, groups.surface_count(2));
    groups.remove(2, &"DP-2".to_string());
    assert_eq!(vec!["DP-1".to_string()], groups.surfaces_of(2));
    // The last display leaving drops the group.
    groups.remove(2, &"DP-1".to_string());
    assert!(!groups.contains(2));
}

#[test]
fn cache_keys_are_compared_as_paths() {
    let mut cache = FilelistCache::new(&vec![
        "/nonexistent-wpaperd-test/a".to_string(),
        "/nonexistent-wpaperd-test/a/".to_string(),
        "/nonexistent-wpaperd-test//b".to_string(),
    ]);
    assert!(cache.get(&"/nonexistent-wpaperd-test/./a".to_string()).is_empty());
    assert!(cache.get(&"/nonexistent-wpaperd-test/b/".to_string()).is_empty());
    let update = cache.update_paths(&vec![
        "/nonexistent-wpaperd-test/a/.".to_string(),
        "/nonexistent-wpaperd-test/c".to_string(),
    ]);
    assert_eq!(vec!["/nonexistent-wpaperd-test//b".to_string()], update.removed);
    assert_eq!(vec!["/nonexistent-wpaperd-test/c".to_string()], update.added);
}
