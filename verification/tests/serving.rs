use cirrust::mediahttp::{mime_for as media_mime, response_head, split_target};
use cirrust::stream::{content_range, mime_for, mime_for_ext, range_len, resolve_range, stream_start};

#[test]
fn content_types_follow_the_extension() {
    assert_eq!(mime_for("/a/B.MP3"), "audio/mpeg");
    assert_eq!(mime_for_ext("flac"), "audio/flac");
    assert_eq!(mime_for("song"), "application/octet-stream");
    // The media server only names audio and video.
    assert_eq!(media_mime("x.mp4"), "video/mp4");
    assert_eq!(media_mime("x.pdf"), "application/octet-stream");
}

#[test]
fn ranges_are_clamped_to_the_file() {
    assert_eq!(resolve_range(None, 100), (0, 99, false));
    assert_eq!(resolve_range(Some("bytes=10-19"), 100), (10, 19, true));
    assert_eq!(resolve_range(Some("bytes=10-"), 100), (10, 99, true));
    assert_eq!(resolve_range(Some("bytes=90-500"), 100), (90, 99, true));
    assert_eq!(resolve_range(Some("bytes=500-"), 100), (99, 99, true));
    assert_eq!(resolve_range(Some("items=1-2"), 100), (0, 99, false));
    assert_eq!(resolve_range(Some("bytes=0-"), 0), (0, 0, true));
    assert_eq!(range_len(100, 10, 19), 10);
    assert_eq!(range_len(0, 0, 0), 0);
    assert_eq!(content_range(10, 19, 100), "bytes 10-19/100");
}

#[test]
fn stream_requests_start_where_asked() {
    assert_eq!(stream_start(Some("bytes=1024-")), 1024);
    assert_eq!(stream_start(Some("bytes=x-")), 0);
    assert_eq!(stream_start(None), 0);
}

#[test]
fn media_targets_need_the_session_token() {
    assert_eq!(split_target("/tok/Music%2Fa.mp3", "tok").as_deref(), Some("Music%2Fa.mp3"));
    assert_eq!(split_target("/bad/Music%2Fa.mp3", "tok"), None);
    assert_eq!(split_target("/tok", "tok"), None);
}

#[test]
fn response_heads_are_exact() {
    assert_eq!(
        response_head(false, "audio/mpeg", 5, 0, 4, 5),
        "HTTP/1.1 200 OK\r\nContent-Type: audio/mpeg\r\nContent-Length: 5\r\nAccept-Ranges: bytes\r\nConnection: close\r\n\r\n"
    );
    assert_eq!(
        response_head(true, "video/mp4", 10, 10, 19, 100),
        "HTTP/1.1 206 Partial Content\r\nContent-Type: video/mp4\r\nContent-Length: 10\r\nAccept-Ranges: bytes\r\nConnection: close\r\nContent-Range: bytes 10-19/100\r\n\r\n"
    );
}

#[test]
fn extension_follows_the_file_name() {
    assert_eq!(mime_for("/music/.mp3"), "application/octet-stream");
    assert_eq!(mime_for("/music/a.b.flac"), "audio/flac");
    assert_eq!(mime_for("/music/clip.mp4/"), "video/mp4");
    assert_eq!(mime_for("/music/clip.mp4/."), "video/mp4");
    assert_eq!(mime_for("/music/x.mp3/.."), "application/octet-stream");
}
