use wpaperd::config::{Config, PathKind, SerializedWallpaperInfo};
use wpaperd::daemon::{info_for_new_output, output_identity, surface_from_name};
use wpaperd::filelist_cache::FilelistCache;
use wpaperd::surface::Surface;
use wpaperd::wallpaper_groups::WallpaperGroups;
use wpaperd::wallpaper_info::{BackgroundMode, WallpaperInfo};

#[test]
fn outputs_without_name_or_description() {
    assert_eq!(
        ("unnamed".to_string(), "no-description".to_string()),
        output_identity(None, None)
    );
    assert_eq!(
        ("DP-1".to_string(), "Dell".to_string()),
        output_identity(Some("DP-1".to_string()), Some("Dell".to_string()))
    );
}

#[test]
fn an_output_without_a_usable_section_gets_the_defaults() {
    let mut section = SerializedWallpaperInfo::default();
    section.path = Some("/nonexistent-wpaperd-test/dir".to_string());
    section.mode = Some(BackgroundMode::Tile);
    let (config, _) = Config::from_sections_with(
        vec![("DP-1".to_string(), section)],
        "/cfg.toml".to_string(),
        &vec![PathKind::Directory],
    );
    // The path is missing on disk: the section fails validation.
    let info = info_for_new_output(&config, "DP-1", "");
    assert!(info.same_as(&WallpaperInfo::default_info()));
    // No section at all.
    let info = info_for_new_output(&config, "HDMI-1", "");
    assert!(info.same_as(&WallpaperInfo::default_info()));
}

#[test]
fn displays_are_found_by_name() {
    let path = "/nonexistent-wpaperd-test/a.png".to_string();
    let cache = FilelistCache::new(&vec![path.clone()]);
    let mut groups = WallpaperGroups::new();
    let mut surfaces = Vec::new();
    for name in ["DP-1", "DP-2"] {
        let mut w = WallpaperInfo::default_info();
        w.path = path.clone();
        surfaces.push(Surface::new(name.to_string(), w, &cache, &mut groups));
    }
    assert_eq!(Some(1), surface_from_name(&surfaces, &"DP-2".to_string()));
    assert_eq!(None, surface_from_name(&surfaces, &"HDMI-1".to_string()));
}
