use wpaperd::image_loader::{ImageLoader, LoaderAnswer, Poll};

fn s(v: &str) -> String {
    v.to_string()
}

#[test]
fn one_display_gets_the_decoded_image() {
    let mut loader = ImageLoader::new();
    assert_eq!(LoaderAnswer::Start, loader.background_load(&s("a.png"), &s("DP-1"), None));
    assert!(loader.is_loading(&s("a.png")));
    assert_eq!(LoaderAnswer::Waiting, loader.background_load(&s("a.png"), &s("DP-1"), Some(Poll::Running)));
    assert_eq!(
        LoaderAnswer::Loaded { keep: false },
        loader.background_load(&s("a.png"), &s("DP-1"), Some(Poll::Decoded))
    );
    assert!(!loader.is_loading(&s("a.png")));
    assert!(!loader.check_lingering_threads());
}

#[test]
fn two_displays_share_the_decoded_image() {
    let mut loader = ImageLoader::new();
    assert_eq!(LoaderAnswer::Start, loader.background_load(&s("a.png"), &s("DP-1"), None));
    assert_eq!(LoaderAnswer::Waiting, loader.background_load(&s("a.png"), &s("DP-2"), Some(Poll::Running)));
    assert_eq!(
        LoaderAnswer::Loaded { keep: true },
        loader.background_load(&s("a.png"), &s("DP-1"), Some(Poll::Decoded))
    );
    // Decoded: no thread to ask any more.
    assert!(!loader.is_loading(&s("a.png")));
    assert_eq!(
        LoaderAnswer::Loaded { keep: false },
        loader.background_load(&s("a.png"), &s("DP-2"), None)
    );
    // Forgotten: a new request starts over.
    assert_eq!(LoaderAnswer::Start, loader.background_load(&s("a.png"), &s("DP-2"), None));
}

#[test]
fn a_failed_image_is_forgotten() {
    let mut loader = ImageLoader::new();
    assert_eq!(LoaderAnswer::Start, loader.background_load(&s("bad.png"), &s("DP-1"), None));
    assert_eq!(LoaderAnswer::Error, loader.background_load(&s("bad.png"), &s("DP-1"), Some(Poll::Failed)));
    assert!(!loader.is_loading(&s("bad.png")));
    assert_eq!(LoaderAnswer::Start, loader.background_load(&s("bad.png"), &s("DP-1"), None));
    // Other images are independent.
    assert_eq!(LoaderAnswer::Start, loader.background_load(&s("b.png"), &s("DP-1"), None));
    assert!(loader.is_loading(&s("bad.png")));
    assert!(!loader.check_lingering_threads());
}
