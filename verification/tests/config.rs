use wpaperd::config::{
    group_conflicts, Config, ConfigError, PathKind, SerializedSorting, SerializedWallpaperInfo,
};
use wpaperd::path_order::{is_same_path, path_components_of, path_lt};
use wpaperd::wallpaper_info::{BackgroundMode, Sorting, Transition, TransitionKind};

fn section(path: Option<&str>) -> SerializedWallpaperInfo {
    let mut s = SerializedWallpaperInfo::default();
    s.path = path.map(|p| p.to_string());
    s
}

const SECOND: u128 = 1_000_000_000;

#[test]
fn path_must_be_set() {
    let r = section(None).apply_and_validate_with(&section(None), PathKind::Directory);
    assert!(matches!(r, Err(ConfigError::PathNotSet)));
}

#[test]
fn missing_path_names_where_it_came_from() {
    let r = section(Some("/own")).apply_and_validate_with(&section(None), PathKind::Missing);
    match r {
        Err(ConfigError::PathNotFound { path, inherited }) => {
            assert_eq!("/own", path);
            assert!(!inherited);
        }
        _ => panic!("expected PathNotFound"),
    }
    let r = section(None).apply_and_validate_with(&section(Some("/default")), PathKind::Missing);
    match r {
        Err(ConfigError::PathNotFound { path, inherited }) => {
            assert_eq!("/default", path);
            assert!(inherited);
        }
        _ => panic!("expected PathNotFound"),
    }
}

#[test]
fn duration_needs_a_directory() {
    let mut s = section(Some("/img.png"));
    s.duration = Some(30 * SECOND);
    let r = s.apply_and_validate_with(&section(None), PathKind::File);
    assert!(matches!(r, Err(ConfigError::DurationWithoutDirectory)));
    let r = s.apply_and_validate_with(&section(None), PathKind::Other);
    assert!(matches!(r, Err(ConfigError::DurationWithoutDirectory)));
}

#[test]
fn sorting_and_group_need_a_directory() {
    let mut s = section(Some("/img.png"));
    s.sorting = Some(SerializedSorting::Ascending);
    let r = s.apply_and_validate_with(&section(None), PathKind::File);
    assert!(matches!(r, Err(ConfigError::NotADirectory { sorting: true })));
    let mut s = section(Some("/img.png"));
    s.group = Some(2);
    let r = s.apply_and_validate_with(&section(None), PathKind::File);
    assert!(matches!(r, Err(ConfigError::NotADirectory { sorting: false })));
}

#[test]
fn a_file_section_ignores_directory_settings_inherited_from_default() {
    let mut default = section(Some("/dir"));
    default.duration = Some(60 * SECOND);
    default.sorting = Some(SerializedSorting::Descending);
    default.group = Some(3);
    let info = section(Some("/img.png")).apply_and_validate_with(&default, PathKind::File).unwrap();
    assert_eq!("/img.png", info.path);
    assert_eq!(None, info.duration);
    assert_eq!(None, info.sorting);
    // Inherited along with the path, they are kept.
    default.sorting = None;
    let info = section(None).apply_and_validate_with(&default, PathKind::Directory).unwrap();
    assert_eq!("/dir", info.path);
    assert_eq!(Some(60 * SECOND), info.duration);
    assert_eq!(Some(Sorting::GroupedRandom { group: 3 }), info.sorting);
}

#[test]
fn built_in_defaults() {
    let info = section(Some("/dir")).apply_and_validate_with(&section(None), PathKind::Directory).unwrap();
    assert_eq!("/dir", info.path);
    assert_eq!(None, info.duration);
    assert!(!info.apply_shadow);
    assert_eq!(None, info.sorting);
    assert_eq!(BackgroundMode::Center, info.mode);
    assert_eq!(10, info.drawn_images_queue_size);
    assert_eq!(300, info.transition_time);
    assert!(info.initial_transition);
    assert_eq!(TransitionKind::Fade, info.transition.kind);
    assert_eq!(None, info.offset);
}

#[test]
fn own_settings_win_over_default() {
    let mut default = section(Some("/dir"));
    default.mode = Some(BackgroundMode::Tile);
    default.queue_size = Some(4);
    default.transition_time = Some(1000);
    let mut s = section(None);
    s.mode = Some(BackgroundMode::Fit);
    s.initial_transition = Some(false);
    s.offset = Some(0x3f00_0000);
    let info = s.apply_and_validate_with(&default, PathKind::Directory).unwrap();
    assert_eq!("/dir", info.path);
    assert_eq!(BackgroundMode::Fit, info.mode);
    assert_eq!(4, info.drawn_images_queue_size);
    assert_eq!(1000, info.transition_time);
    assert!(!info.initial_transition);
    assert_eq!(Some(0x3f00_0000), info.offset);
}

#[test]
fn transition_time_defaults_to_the_transition() {
    let mut s = section(Some("/dir"));
    s.transition = Some(Transition { kind: TransitionKind::Doom, settings: Vec::new() });
    let info = s.apply_and_validate_with(&section(None), PathKind::Directory).unwrap();
    assert_eq!(TransitionKind::Doom, info.transition.kind);
    assert_eq!(TransitionKind::Doom.default_transition_time(), info.transition_time);
}

#[test]
fn group_makes_a_grouped_random_sorting() {
    let mut s = section(Some("/dir"));
    s.group = Some(7);
    let info = s.apply_and_validate_with(&section(None), PathKind::Directory).unwrap();
    assert_eq!(Some(Sorting::GroupedRandom { group: 7 }), info.sorting);
    s.sorting = Some(SerializedSorting::Random);
    let info = s.apply_and_validate_with(&section(None), PathKind::Directory).unwrap();
    assert_eq!(Some(Sorting::GroupedRandom { group: 7 }), info.sorting);
    let mut t = section(Some("/dir"));
    t.sorting = Some(SerializedSorting::Ascending);
    let info = t.apply_and_validate_with(&section(None), PathKind::Directory).unwrap();
    assert_eq!(Some(Sorting::Ascending), info.sorting);
    s.sorting = Some(SerializedSorting::Descending);
    assert!(s.asks_grouped_order(&section(None)));
    assert!(!t.asks_grouped_order(&section(None)));
}

#[test]
fn sorting_round_trip() {
    assert_eq!(SerializedSorting::Random, SerializedSorting::default_sorting());
    assert_eq!(SerializedSorting::Ascending, SerializedSorting::from_sorting(Sorting::Ascending));
    assert_eq!(SerializedSorting::Descending, SerializedSorting::from_sorting(Sorting::Descending));
    assert_eq!(SerializedSorting::Random, SerializedSorting::from_sorting(Sorting::Random));
}

fn sections() -> Vec<(String, SerializedWallpaperInfo)> {
    let mut default = section(None);
    default.duration = Some(1800 * SECOND);
    vec![
        ("default".to_string(), default),
        ("any".to_string(), section(Some("/any.png"))),
        ("DP-3".to_string(), section(Some("/walls"))),
        ("broken".to_string(), section(Some("/missing"))),
        ("Dell Inc. DELL U2419H".to_string(), section(Some("/walls/1080p"))),
    ]
}

#[test]
fn invalid_sections_are_dropped_with_their_error() {
    let kinds = vec![
        PathKind::Missing,
        PathKind::File,
        PathKind::Directory,
        PathKind::Missing,
        PathKind::Directory,
    ];
    let (config, dropped) = Config::from_sections_with(sections(), "/cfg.toml".to_string(), &kinds);
    assert_eq!("/cfg.toml", config.path);
    // `any` points its own path to a file: the duration inherited from
    // `default` is ignored and the section is kept. The section whose path
    // is missing is dropped. `default` is always kept.
    let names: Vec<&str> = dropped.iter().map(|(n, _)| n.as_str()).collect();
    assert_eq!(vec!["broken"], names);
    assert!(matches!(dropped[0].1, ConfigError::PathNotFound { .. }));
    assert_eq!(
        vec!["/any.png".to_string(), "/walls".to_string(), "/walls/1080p".to_string()],
        config.paths()
    );
    assert!(config.default_section().same_as(&sections()[0].1));
}

#[test]
fn description_takes_priority_over_name() {
    let kinds = vec![PathKind::Directory; 5];
    let (config, _) = Config::from_sections_with(sections(), "/cfg.toml".to_string(), &kinds);
    // The port added after the last " (" is ignored.
    let s = config.section_for_output("DP-3", "Dell Inc. DELL U2419H (DP-3)");
    assert_eq!(Some("/walls/1080p".to_string()), s.path);
    let s = config.section_for_output("DP-3", "Unknown monitor");
    assert_eq!(Some("/walls".to_string()), s.path);
    // Neither matches: the `any` section.
    let s = config.section_for_output("HDMI-1", "Unknown monitor");
    assert_eq!(Some("/any.png".to_string()), s.path);
}

#[test]
fn update_reports_a_change_only_when_sections_differ() {
    let kinds = vec![PathKind::Directory; 5];
    let (mut config, _) = Config::from_sections_with(sections(), "/cfg.toml".to_string(), &kinds);
    let mut reordered = sections();
    reordered.reverse();
    let (same, _) = Config::from_sections_with(reordered, "/cfg.toml".to_string(), &kinds);
    assert!(!config.update(same));
    let mut changed = sections();
    changed[2].1.mode = Some(BackgroundMode::Stretch);
    let (other, _) = Config::from_sections_with(changed, "/cfg.toml".to_string(), &kinds);
    assert!(config.update(other));
    let s = config.section_for_output("DP-3", "");
    assert_eq!(Some(BackgroundMode::Stretch), s.mode);
}

#[test]
fn sections_compare_and_copy() {
    let mut a = section(Some("/dir"));
    a.transition = Some(Transition { kind: TransitionKind::Bounce, settings: vec![Some(vec![1, 2]), None] });
    let b = a.copy();
    assert!(a.same_as(&b));
    let mut c = a.copy();
    c.group = Some(1);
    assert!(!a.same_as(&c));
}

#[test]
fn disk_is_asked_for_missing_paths() {
    let r = section(Some("/nonexistent-wpaperd-test/x")).apply_and_validate(&section(None));
    assert!(matches!(r, Err(ConfigError::PathNotFound { .. })));
}

fn display(name: &str, path: &str, sorting: Option<Sorting>) -> (String, wpaperd::wallpaper_info::WallpaperInfo) {
    let mut w = wpaperd::wallpaper_info::WallpaperInfo::default_info();
    w.path = path.to_string();
    w.sorting = sorting;
    (name.to_string(), w)
}

#[test]
fn group_members_with_different_paths_are_reported_once() {
    let g1 = Some(Sorting::GroupedRandom { group: 1 });
    let displays = vec![
        display("A", "/p1", g1),
        display("B", "/p2", g1),
        display("C", "/p2", g1),
        display("D", "/p3", Some(Sorting::Random)),
        display("E", "/p4", Some(Sorting::Random)),
    ];
    assert_eq!(
        vec![
            ("A".to_string(), "B".to_string(), 1),
            ("A".to_string(), "C".to_string(), 1),
        ],
        group_conflicts(&displays)
    );
    let displays = vec![
        display("A", "/p1", g1),
        display("B", "/p2", Some(Sorting::GroupedRandom { group: 2 })),
        display("C", "/p3", g1),
    ];
    assert_eq!(vec![("A".to_string(), "C".to_string(), 1)], group_conflicts(&displays));
    // One display, or the same path: nothing to report.
    assert!(group_conflicts(&vec![display("A", "/p1", g1)]).is_empty());
    assert!(group_conflicts(&vec![display("A", "/p1", g1), display("B", "/p1", g1)]).is_empty());
}

#[test]
fn offset_must_be_from_zero_to_one() {
    let dir = section(Some("/dir"));
    for ok in [0.0f32, -0.0, 0.5, 1.0, 1e-40] {
        let mut s = section(None);
        s.offset = Some(ok.to_bits());
        let info = s.apply_and_validate_with(&dir, PathKind::Directory).unwrap();
        assert_eq!(Some(ok.to_bits()), info.offset);
    }
    for bad in [1.5f32, 1.0000001, -0.5, f32::NAN, f32::INFINITY, f32::NEG_INFINITY] {
        let mut s = section(None);
        s.offset = Some(bad.to_bits());
        match s.apply_and_validate_with(&dir, PathKind::Directory) {
            Err(ConfigError::OffsetOutOfRange { offset }) => assert_eq!(bad.to_bits(), offset),
            _ => panic!("expected OffsetOutOfRange for {bad}"),
        }
    }
    // An offset inherited from `default` is checked too.
    let mut d = section(Some("/dir"));
    d.offset = Some(1.5f32.to_bits());
    assert!(matches!(
        section(None).apply_and_validate_with(&d, PathKind::Directory),
        Err(ConfigError::OffsetOutOfRange { .. })
    ));
}

#[test]
fn paths_are_ordered_component_by_component() {
    assert!(path_lt(&"/a".to_string(), &"/a/b".to_string()));
    assert!(path_lt(&"/a/b".to_string(), &"/a-b".to_string()));
    assert!(path_lt(&"/a-b".to_string(), &"/b".to_string()));
    assert!(!path_lt(&"/b".to_string(), &"/b".to_string()));
    assert!(!path_lt(&"/b".to_string(), &"/a".to_string()));
    assert!(path_lt(&"".to_string(), &"/".to_string()));
    let data = vec![
        ("DP-1".to_string(), section(Some("/b"))),
        ("DP-2".to_string(), section(Some("/a-b"))),
        ("DP-3".to_string(), section(Some("/a/b"))),
        ("DP-4".to_string(), section(Some("/b"))),
        ("DP-5".to_string(), section(Some("/a"))),
        ("DP-6".to_string(), section(None)),
        ("DP-7".to_string(), section(Some("/a/"))),
        ("DP-8".to_string(), section(Some("/a/./b"))),
        ("DP-9".to_string(), section(Some("//b//"))),
    ];
    let kinds = vec![PathKind::Directory; 9];
    let (config, dropped) = Config::from_sections_with(data, "/cfg.toml".to_string(), &kinds);
    // The section without a path sets what `default` sets: it is kept.
    assert!(dropped.is_empty());
    assert_eq!(
        vec!["/a".to_string(), "/a/b".to_string(), "/a-b".to_string(), "/b".to_string()],
        config.paths()
    );
}

#[test]
fn grouped_order_on_a_directory_is_refused() {
    let mut s = section(Some("/dir"));
    s.group = Some(1);
    s.sorting = Some(SerializedSorting::Ascending);
    let data = vec![("DP-1".to_string(), s.copy()), ("DP-2".to_string(), s.copy())];
    // On a directory the section cannot be used; on a file it is refused as
    // any sorting on a file is.
    let kinds = vec![PathKind::Directory, PathKind::File];
    let (config, dropped) = Config::from_sections_with(data, "/cfg.toml".to_string(), &kinds);
    assert!(config.paths().is_empty());
    assert_eq!(2, dropped.len());
    assert!(matches!(dropped[0].1, ConfigError::GroupedOrderNotImplemented));
    assert!(matches!(dropped[1].1, ConfigError::NotADirectory { sorting: true }));
    // Checked against the disk, a missing path is reported as such.
    let mut m = section(Some("/nonexistent-wpaperd-test/dir"));
    m.group = Some(1);
    m.sorting = Some(SerializedSorting::Descending);
    assert!(matches!(
        m.apply_and_validate(&section(None)),
        Err(ConfigError::PathNotFound { .. })
    ));
    // `/` is a directory.
    let mut root = section(Some("/"));
    root.group = Some(1);
    root.sorting = Some(SerializedSorting::Descending);
    assert!(matches!(
        root.apply_and_validate(&section(None)),
        Err(ConfigError::GroupedOrderNotImplemented)
    ));
}

#[test]
fn section_path_is_own_or_default() {
    assert_eq!(Some(&"/a".to_string()), section(Some("/a")).section_path(&section(Some("/b"))));
    assert_eq!(Some(&"/b".to_string()), section(None).section_path(&section(Some("/b"))));
    assert_eq!(None, section(None).section_path(&section(None)));
}

#[test]
fn paths_are_split_into_components() {
    let c = |s: &str| path_components_of(&s.to_string());
    let n = |s: &str| (3u8, s.to_string());
    assert_eq!(vec![(0u8, String::new()), n("a"), n("b")], c("/a/./b/"));
    assert_eq!(vec![(1u8, String::new()), n("a")], c("./a"));
    assert_eq!(vec![(1u8, String::new())], c("."));
    assert_eq!(vec![n("a"), (2u8, String::new()), n("b")], c("a/../b"));
    assert_eq!(vec![(0u8, String::new())], c("//"));
    assert_eq!(Vec::<(u8, String)>::new(), c(""));
    assert_eq!(vec![n(".a")], c(".a"));
    assert!(is_same_path(&"a".to_string(), &"a/".to_string()));
    assert!(is_same_path(&"a/./b".to_string(), &"a//b".to_string()));
    assert!(!is_same_path(&"a/../b".to_string(), &"b".to_string()));
    assert!(!is_same_path(&"./a".to_string(), &"a".to_string()));
    // The root, then the current directory, then the parent, then names.
    assert!(path_lt(&"/z".to_string(), &"./a".to_string()));
    assert!(path_lt(&"./a".to_string(), &"../a".to_string()));
    assert!(path_lt(&"../a".to_string(), &"-".to_string()));
    assert!(!path_lt(&"a/".to_string(), &"a".to_string()));
}
