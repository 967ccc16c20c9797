use wpaperd::filelist_cache::FilelistCache;
use wpaperd::ipc::{
    check_monitors, clean_duration, handle_message, set_wallpaper_check, unquote, IpcError,
    IpcMessage, IpcResponse,
};
use wpaperd::surface::Surface;
use wpaperd::wallpaper_groups::WallpaperGroups;
use wpaperd::wallpaper_info::WallpaperInfo;

const SECOND: u128 = 1_000_000_000;

fn names(v: &[&str]) -> Vec<String> {
    v.iter().map(|s| s.to_string()).collect()
}

#[test]
fn unquote_strips_surrounding_quotes() {
    assert_eq!("DP-1", unquote("\"DP-1\"".to_string()));
    assert_eq!("DP-1", unquote("\"\"DP-1\"\"\"".to_string()));
    assert_eq!("DP-1", unquote("DP-1".to_string()));
    assert_eq!("\"DP-1", unquote("\"DP-1".to_string()));
    assert_eq!("", unquote("\"".to_string()));
    assert_eq!("", unquote(String::new()));
    assert_eq!("a\"b", unquote("\"a\"b\"".to_string()));
}

#[test]
fn clean_duration_drops_the_small_units() {
    assert_eq!(59 * SECOND, clean_duration(59 * SECOND + 999_999_999));
    assert_eq!(120 * SECOND, clean_duration(179 * SECOND));
    assert_eq!(3600 * SECOND, clean_duration(7199 * SECOND));
    assert_eq!(0, clean_duration(999_999_999));
}

#[test]
fn check_monitors_names_the_first_unknown() {
    let displays = names(&["DP-1", "DP-2"]);
    assert!(check_monitors(&displays, &names(&[])).is_ok());
    assert!(check_monitors(&displays, &names(&["DP-2", "DP-1"])).is_ok());
    match check_monitors(&displays, &names(&["DP-1", "HDMI-1", "HDMI-2"])) {
        Err(IpcError::MonitorNotFound { monitor }) => assert_eq!("HDMI-1", monitor),
        _ => panic!("expected MonitorNotFound"),
    }
}

fn daemon() -> (Vec<Surface>, FilelistCache, WallpaperGroups) {
    let paths = names(&["/nonexistent-wpaperd-test/a.png", "/nonexistent-wpaperd-test/b.png"]);
    let cache = FilelistCache::new(&paths);
    let mut groups = WallpaperGroups::new();
    let mut surfaces = Vec::new();
    for (name, path) in [("DP-1", &paths[0]), ("DP-2", &paths[1])] {
        let mut w = WallpaperInfo::default_info();
        w.path = path.clone();
        surfaces.push(Surface::new(name.to_string(), w, &cache, &mut groups));
    }
    (surfaces, cache, groups)
}

#[test]
fn unknown_monitor_changes_nothing() {
    let (mut surfaces, cache, mut groups) = daemon();
    let (r, redraw) = handle_message(
        &mut surfaces,
        IpcMessage::PauseWallpaper { monitors: names(&["DP-1", "HDMI-1"]) },
        0,
        &cache,
        &mut groups,
    );
    assert!(matches!(r, Err(IpcError::MonitorNotFound { monitor }) if monitor == "HDMI-1"));
    assert!(redraw.is_empty());
    assert!(!surfaces[0].should_pause());
}

#[test]
fn pause_names_or_all() {
    let (mut surfaces, cache, mut groups) = daemon();
    let (r, _) = handle_message(
        &mut surfaces,
        IpcMessage::PauseWallpaper { monitors: names(&["DP-2"]) },
        0,
        &cache,
        &mut groups,
    );
    assert!(matches!(r, Ok(IpcResponse::Success)));
    assert!(!surfaces[0].should_pause());
    assert!(surfaces[1].should_pause());
    let (_, redraw) = handle_message(
        &mut surfaces,
        IpcMessage::TogglePauseWallpaper { monitors: Vec::new() },
        0,
        &cache,
        &mut groups,
    );
    assert!(redraw.is_empty());
    assert!(surfaces[0].should_pause());
    assert!(!surfaces[1].should_pause());
    handle_message(&mut surfaces, IpcMessage::ResumeWallpaper { monitors: Vec::new() }, 0, &cache, &mut groups);
    assert!(!surfaces[0].should_pause());
}

#[test]
fn status_and_current_wallpaper() {
    let (mut surfaces, cache, mut groups) = daemon();
    surfaces[0].setup_drawing_image("/nonexistent-wpaperd-test/a.png".to_string(), 0, 0, &mut groups);
    match handle_message(
        &mut surfaces,
        IpcMessage::CurrentWallpaper { monitor: "DP-1".to_string() },
        0,
        &cache,
        &mut groups,
    ) {
        (Ok(IpcResponse::CurrentWallpaper { path }), _) => {
            assert_eq!("/nonexistent-wpaperd-test/a.png", path)
        }
        _ => panic!("expected CurrentWallpaper"),
    }
    match handle_message(&mut surfaces, IpcMessage::AllWallpapers, 0, &cache, &mut groups) {
        (Ok(IpcResponse::AllWallpapers { entries }), _) => {
            assert_eq!(2, entries.len());
            assert_eq!(("DP-2".to_string(), String::new()), entries[1]);
        }
        _ => panic!("expected AllWallpapers"),
    }
    match handle_message(
        &mut surfaces,
        IpcMessage::GetStatus { monitors: names(&["DP-2"]) },
        0,
        &cache,
        &mut groups,
    ) {
        (Ok(IpcResponse::DisplaysStatus { entries }), _) => {
            assert_eq!(vec![("DP-2".to_string(), "static".to_string(), None)], entries);
        }
        _ => panic!("expected DisplaysStatus"),
    }
    assert!(matches!(
        handle_message(
            &mut surfaces,
            IpcMessage::CurrentWallpaper { monitor: "HDMI-1".to_string() },
            0,
            &cache,
            &mut groups,
        ),
        (Err(IpcError::MonitorNotFound { .. }), _)
    ));
}

#[test]
fn next_previous_and_reload_ask_for_a_redraw() {
    let (mut surfaces, cache, mut groups) = daemon();
    let (r, redraw) = handle_message(
        &mut surfaces,
        IpcMessage::NextWallpaper { monitors: Vec::new() },
        0,
        &cache,
        &mut groups,
    );
    assert!(matches!(r, Ok(IpcResponse::Success)));
    assert_eq!(vec![0, 1], redraw);
    let (_, redraw) = handle_message(
        &mut surfaces,
        IpcMessage::ReloadWallpaper { monitors: names(&["DP-2"]) },
        0,
        &cache,
        &mut groups,
    );
    assert_eq!(vec![1], redraw);
    let (_, redraw) = handle_message(
        &mut surfaces,
        IpcMessage::PreviousWallpaper { monitors: names(&["DP-1"]) },
        0,
        &cache,
        &mut groups,
    );
    assert_eq!(vec![0], redraw);
}

#[test]
fn set_wallpaper_needs_an_existing_file() {
    let (mut surfaces, cache, mut groups) = daemon();
    match handle_message(
        &mut surfaces,
        IpcMessage::SetWallpaper {
            monitor: "DP-1".to_string(),
            wallpaper: "/nonexistent-wpaperd-test/x.png".to_string(),
        },
        0,
        &cache,
        &mut groups,
    ) {
        (Err(IpcError::DrawErrors(errors)), redraw) => {
            assert!(redraw.is_empty());
            assert_eq!(
                vec![(String::new(), "File not found: /nonexistent-wpaperd-test/x.png".to_string())],
                errors
            );
        }
        _ => panic!("expected DrawErrors"),
    }
}

#[test]
fn set_wallpaper_needs_a_file() {
    let (mut surfaces, cache, mut groups) = daemon();
    match handle_message(
        &mut surfaces,
        IpcMessage::SetWallpaper { monitor: "DP-1".to_string(), wallpaper: "/".to_string() },
        0,
        &cache,
        &mut groups,
    ) {
        (Err(IpcError::DrawErrors(errors)), redraw) => {
            assert!(redraw.is_empty());
            assert_eq!(vec![(String::new(), "Path is not a file: /".to_string())], errors);
        }
        _ => panic!("expected DrawErrors"),
    }
}

#[test]
fn set_wallpaper_refusal_follows_the_disk_answers() {
    let w = "/walls/a.png".to_string();
    assert_eq!(Some("File not found: /walls/a.png".to_string()), set_wallpaper_check(&w, false, false));
    assert_eq!(Some("File not found: /walls/a.png".to_string()), set_wallpaper_check(&w, false, true));
    assert_eq!(
        Some("Path is not a file: /walls/a.png".to_string()),
        set_wallpaper_check(&w, true, false)
    );
    // Any regular file is shown, whatever its name.
    assert_eq!(None, set_wallpaper_check(&w, true, true));
    assert_eq!(None, set_wallpaper_check(&"/etc/passwd".to_string(), true, true));
}
