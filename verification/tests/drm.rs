use lace_util::drm::is_video_port;

#[test]
fn video_ports() {
    assert!(is_video_port(b"/sys/class/drm/card0-eDP-1"));
    assert!(is_video_port(b"/sys/class/drm/card12-HDMI-A-1"));
    assert!(!is_video_port(b"/sys/class/drm/card0"));
    assert!(!is_video_port(b"/sys/class/drm/renderD128"));
    assert!(!is_video_port(b"/sys/class/drm/cardX-DP-1"));
    assert!(!is_video_port(b"/sys/class/drm/card-DP-1"));
    assert!(!is_video_port(b""));
}
