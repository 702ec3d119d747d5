use simbar::{frame_due, ArgbColor, DrawSize, SimbarConfig, ThemeConfig};

#[test]
fn default_settings() {
    let c = SimbarConfig::default();
    assert_eq!(c.width_fallback, 1920);
    assert_eq!(c.width, None);
    assert_eq!(c.height, 40);
    assert_eq!(c.primary_output, None);
    assert_eq!(c.frame_rate, 60);
    assert_eq!(ThemeConfig::default().background_color, ArgbColor::new(0xFF, 0x11, 0x11, 0x18));
}

#[test]
fn bar_size_follows_output() {
    let c = SimbarConfig::default();
    assert_eq!(c.bar_size(Some(2560)), DrawSize { width: 2560, height: 40 });
    assert_eq!(c.bar_size(None), DrawSize { width: 1920, height: 40 });
    let fixed = SimbarConfig { width: Some(800), ..SimbarConfig::default() };
    assert_eq!(fixed.bar_size(Some(2560)), DrawSize { width: 800, height: 40 });
}

#[test]
fn primary_output_by_position_or_name() {
    let c = SimbarConfig::default();
    assert!(c.is_primary(&None, Some((0, 0))));
    assert!(!c.is_primary(&Some("DP-1".to_string()), Some((1920, 0))));
    assert!(!c.is_primary(&None, None));
    let named = SimbarConfig { primary_output: Some("DP-1".to_string()), ..SimbarConfig::default() };
    assert!(named.is_primary(&Some("DP-1".to_string()), Some((1920, 0))));
    assert!(!named.is_primary(&Some("HDMI-A-1".to_string()), Some((0, 0))));
    assert!(!named.is_primary(&None, Some((0, 0))));
}

#[test]
fn frame_pacing() {
    let interval = SimbarConfig::default().frame_interval_ms();
    assert_eq!(interval, 16);
    assert!(frame_due(true, 100, 80, interval));
    assert!(!frame_due(true, 90, 80, interval));
    assert!(!frame_due(false, 100, 80, interval));
    assert!(frame_due(true, 5, u32::MAX - 20, interval));
}
