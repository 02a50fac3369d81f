use cirrust::paths::{dav_under, paths_overlap};

#[test]
fn maps_paths_under_a_folder() {
    assert_eq!(dav_under("/Music", "/Music/a/b.mp3"), Some("a/b.mp3".into()));
    assert_eq!(dav_under("/Music/", "/Music/song.mp3"), Some("song.mp3".into()));
    assert_eq!(dav_under("/", "/song.mp3"), Some("song.mp3".into()));
    assert_eq!(dav_under("/Music", "/Music"), Some(String::new()));
    // Not under the folder, and prefix-only matches must not leak through.
    assert_eq!(dav_under("/Music", "/Photos/x.jpg"), None);
    assert_eq!(dav_under("/Music", "/MusicVideos/x.mp4"), None);
}

#[test]
fn overlap_is_segment_wise() {
    assert!(paths_overlap("/Music", "/Music"), "equal paths overlap");
    assert!(paths_overlap("/Music", "/Music/sub"), "parent covers child");
    assert!(paths_overlap("/Music/sub", "/Music"), "child is covered by parent");
    assert!(paths_overlap("/", "/anything"), "root covers everything");
    assert!(!paths_overlap("/Music", "/Music 2"), "sibling with a name prefix is distinct");
    assert!(!paths_overlap("/Music", "/Musical"), "string prefix is not a path prefix");
    assert!(!paths_overlap("/a/b", "/a/c"), "siblings are distinct");
    assert!(paths_overlap("/home/x/Cloud", "/home/x/Cloud/music"), "local nesting too");
}
