use wpaperd::filelist_cache::FilelistCache;
use wpaperd::image_picker::{get_previous_image_for_random, ImagePicker};
use wpaperd::queue::Queue;
use wpaperd::wallpaper_groups::WallpaperGroups;
use wpaperd::wallpaper_info::{Sorting, WallpaperInfo};

fn files(names: &[&str]) -> Vec<String> {
    names.iter().map(|s| s.to_string()).collect()
}

fn info(path: &str, sorting: Option<Sorting>) -> WallpaperInfo {
    let mut w = WallpaperInfo::default_info();
    w.path = path.to_string();
    w.sorting = sorting;
    w
}

#[test]
fn ascending_picks_in_name_order_and_wraps() {
    let f = files(&["a", "b", "c"]);
    let mut groups = WallpaperGroups::new();
    let mut picker = ImagePicker::new_with_files(&info("dir", Some(Sorting::Ascending)), &"DP-1".to_string(), 3, &mut groups);
    // The first pick starts from the first file.
    assert_eq!(Some(("a".to_string(), 0)), picker.get_image_from_files(&f, &mut groups));
    picker.update_current_image("a".to_string(), 0, &mut groups);
    assert_eq!("a", picker.current_image());
    // Going back from the first file wraps to the last one.
    picker.previous_image();
    assert_eq!(Some(("c".to_string(), 2)), picker.get_image_from_files(&f, &mut groups));
    picker.update_current_image("c".to_string(), 2, &mut groups);
    picker.previous_image();
    assert_eq!(Some(("b".to_string(), 1)), picker.get_image_from_files(&f, &mut groups));
}

#[test]
fn descending_starts_from_the_last_file() {
    let f = files(&["a", "b", "c"]);
    let mut groups = WallpaperGroups::new();
    let mut picker = ImagePicker::new_with_files(&info("dir", Some(Sorting::Descending)), &"DP-1".to_string(), 3, &mut groups);
    assert_eq!(Some(("c".to_string(), 2)), picker.get_image_from_files(&f, &mut groups));
    picker.update_current_image("c".to_string(), 2, &mut groups);
    // Previous in descending order moves up the list, wrapping.
    picker.previous_image();
    assert_eq!(Some(("a".to_string(), 0)), picker.get_image_from_files(&f, &mut groups));
}

#[test]
fn sorted_picker_finds_the_image_when_the_index_is_stale() {
    // The remembered index no longer holds the image on screen: the image is
    // looked up in the list.
    let mut groups = WallpaperGroups::new();
    let mut picker = ImagePicker::new_with_files(&info("dir", Some(Sorting::Ascending)), &"DP-1".to_string(), 3, &mut groups);
    picker.update_current_image("b".to_string(), 0, &mut groups);
    picker.previous_image();
    let f = files(&["a", "b", "c"]);
    assert_eq!(Some(("a".to_string(), 0)), picker.get_image_from_files(&f, &mut groups));
}

#[test]
fn empty_directory_gives_nothing() {
    let mut groups = WallpaperGroups::new();
    let mut picker = ImagePicker::new_with_files(&info("dir", None), &"DP-1".to_string(), 0, &mut groups);
    assert_eq!(None, picker.get_image_from_files(&Vec::new(), &mut groups));
}

#[test]
fn only_the_image_on_screen_gives_nothing() {
    let mut groups = WallpaperGroups::new();
    let mut picker = ImagePicker::new_with_files(&info("dir", None), &"DP-1".to_string(), 2, &mut groups);
    picker.update_current_image("a".to_string(), 0, &mut groups);
    assert_eq!(None, picker.get_image_from_files(&files(&["a", "a"]), &mut groups));
}

#[test]
fn random_previous_at_the_oldest_image_gives_nothing_new() {
    let f = files(&["a", "b"]);
    let mut groups = WallpaperGroups::new();
    let mut picker = ImagePicker::new_with_files(&info("dir", Some(Sorting::Random)), &"DP-1".to_string(), 2, &mut groups);
    let (path, index) = picker.get_image_from_files(&f, &mut groups).unwrap();
    assert_eq!(f[index], path);
    picker.update_current_image(path, index, &mut groups);
    picker.previous_image();
    assert_eq!(None, picker.get_image_from_files(&f, &mut groups));
}

#[test]
fn previous_for_random_past_the_oldest_returns_the_image_on_screen() {
    let mut queue = Queue::with_capacity(3);
    queue.push("a".to_string());
    queue.push("b".to_string());
    // "a" is not on disk, so walking back finds nothing and the cursor goes
    // back to the image on screen.
    let (index, path) = get_previous_image_for_random(&"b".to_string(), &mut queue);
    assert_eq!(usize::MAX, index);
    assert_eq!("b", path);
    assert_eq!("b", queue.current());
}

#[test]
fn group_members_share_the_pick() {
    let f = files(&["a", "b", "c", "d"]);
    let mut groups = WallpaperGroups::new();
    let grouped = info("dir", Some(Sorting::GroupedRandom { group: 1 }));
    let mut first = ImagePicker::new_with_files(&grouped, &"DP-1".to_string(), 4, &mut groups);
    let mut second = ImagePicker::new_with_files(&grouped, &"DP-2".to_string(), 4, &mut groups);
    let pick = first.get_image_from_files(&f, &mut groups).unwrap();
    assert_eq!(Some(pick.clone()), second.get_image_from_files(&f, &mut groups));
    let mut surfaces = first.handle_grouped_sorting(&groups);
    surfaces.sort();
    assert_eq!(vec!["DP-1".to_string(), "DP-2".to_string()], surfaces);
    // Both show it; the group remembers it.
    first.update_current_image(pick.0.clone(), pick.1, &mut groups);
    second.update_current_image(pick.0.clone(), pick.1, &mut groups);
    assert_eq!(pick.0, second.current_image());
    // A display leaving the group leaves the other one in it.
    first.release(&mut groups);
    assert_eq!(vec!["DP-2".to_string()], second.handle_grouped_sorting(&groups));
    second.release(&mut groups);
    assert!(!groups.contains(1));
}

#[test]
fn single_image_is_shown_once_unless_reloaded() {
    let path = "/nonexistent-wpaperd-test/wall.png".to_string();
    let cache = FilelistCache::new(&vec![path.clone()]);
    let mut groups = WallpaperGroups::new();
    let mut picker = ImagePicker::new(&info(&path, None), &"DP-1".to_string(), &cache, &mut groups);
    assert_eq!(Some((path.clone(), 0)), picker.get_image_from_path(&path, &cache, &mut groups));
    picker.update_current_image(path.clone(), 0, &mut groups);
    assert_eq!(None, picker.get_image_from_path(&path, &cache, &mut groups));
    picker.reload();
    assert!(picker.is_reloading());
    assert_eq!(Some((path.clone(), 0)), picker.get_image_from_path(&path, &cache, &mut groups));
    picker.reloaded();
    assert!(!picker.is_reloading());
    assert_eq!(None, picker.get_image_from_path(&path, &cache, &mut groups));
}

#[test]
fn changing_the_order_keeps_the_position() {
    let path = "/nonexistent-wpaperd-test/dir".to_string();
    let cache = FilelistCache::new(&vec![path.clone()]);
    let mut groups = WallpaperGroups::new();
    let mut picker = ImagePicker::new_with_files(&info(&path, Some(Sorting::Ascending)), &"DP-1".to_string(), 3, &mut groups);
    picker.update_current_image("b".to_string(), 1, &mut groups);
    picker.update_sorting(&info(&path, Some(Sorting::Descending)), &"DP-1".to_string(), false, &cache, &mut groups);
    picker.previous_image();
    let f = files(&["a", "b", "c"]);
    assert_eq!(Some(("c".to_string(), 2)), picker.get_image_from_files(&f, &mut groups));
}

#[test]
fn switching_to_random_keeps_the_image_on_screen_in_the_history() {
    let path = "/nonexistent-wpaperd-test/dir".to_string();
    let cache = FilelistCache::new(&vec![path.clone()]);
    let mut groups = WallpaperGroups::new();
    let mut picker = ImagePicker::new_with_files(&info(&path, Some(Sorting::Ascending)), &"DP-1".to_string(), 3, &mut groups);
    picker.update_current_image("b".to_string(), 1, &mut groups);
    picker.update_sorting(&info(&path, Some(Sorting::Random)), &"DP-1".to_string(), false, &cache, &mut groups);
    // The history holds only "b": going back finds nothing new.
    picker.previous_image();
    assert_eq!(None, picker.get_image_from_files(&files(&["a", "b", "c"]), &mut groups));
}

#[test]
fn joining_a_group_alone_gives_it_the_image_on_screen() {
    let path = "/nonexistent-wpaperd-test/dir".to_string();
    let cache = FilelistCache::new(&vec![path.clone()]);
    let mut groups = WallpaperGroups::new();
    let mut picker = ImagePicker::new_with_files(&info(&path, None), &"DP-1".to_string(), 3, &mut groups);
    picker.update_current_image("b".to_string(), 1, &mut groups);
    picker.update_sorting(&info(&path, Some(Sorting::GroupedRandom { group: 4 })), &"DP-1".to_string(), false, &cache, &mut groups);
    assert!(groups.contains(4));
    // A random picker's position is its place in the history.
    assert_eq!(0, groups.index_of(4));
    assert_eq!(1, groups.surface_count(4));
    // The group shows "b" already: no new pick without an action.
    let mut other = ImagePicker::new_with_files(&info(&path, Some(Sorting::GroupedRandom { group: 4 })), &"DP-2".to_string(), 3, &mut groups);
    assert_eq!(Some(("b".to_string(), 0)), other.get_image_from_files(&files(&["a", "b", "c"]), &mut groups));
}

#[test]
fn queue_size_follows_the_settings() {
    let path = "/nonexistent-wpaperd-test/dir".to_string();
    let cache = FilelistCache::new(&vec![path.clone()]);
    let mut groups = WallpaperGroups::new();
    let mut w = info(&path, None);
    w.drawn_images_queue_size = 2;
    let mut picker = ImagePicker::new(&w, &"DP-1".to_string(), &cache, &mut groups);
    for name in ["a", "b", "c"] {
        picker.update_current_image(name.to_string(), 0, &mut groups);
        let _ = picker.get_image_from_files(&files(&["a", "b", "c"]), &mut groups);
    }
    w.drawn_images_queue_size = 0;
    picker.update_queue_size(&w, &cache, &mut groups);
    // A size of zero counts as one: only the newest image stays.
    picker.previous_image();
    assert_eq!(None, picker.get_image_from_files(&files(&["a", "b", "c"]), &mut groups));
}
