use attache::screenshot::{png_data_url, ScreenshotData};
use attache::storage::Storage;
use attache::window::{label_char, normalize_name, WindowSize};

#[test]
fn normalize_name_replaces_disallowed_characters() {
    assert_eq!(normalize_name("My Profile #1".to_string()), "My_Profile__1");
    assert_eq!(normalize_name("a-b/c:d_e".to_string()), "a-b/c:d_e");
    assert_eq!(normalize_name("café".to_string()), "café");
    assert_eq!(normalize_name(String::new()), "");
}

#[test]
fn label_char_given_alphanumeric_flag() {
    assert_eq!(label_char('x', true), 'x');
    assert_eq!(label_char('!', false), '_');
    assert_eq!(label_char(':', false), ':');
}

#[test]
fn screenshot_base64_and_data_url() {
    let shot = ScreenshotData::new(b"hello".to_vec(), 3, 4);
    assert_eq!(shot.format, "png");
    assert!(shot.id != 0);
    assert_eq!(shot.to_base64(), "aGVsbG8=");
    assert_eq!(shot.to_data_url(), "data:image/png;base64,aGVsbG8=");
    assert_eq!(png_data_url("QQ=="), "data:image/png;base64,QQ==");
    assert_eq!(ScreenshotData::new(vec![], 0, 0).to_base64(), "");
}

#[test]
fn storage_layout() {
    assert_eq!(Storage::config_dir(), "config");
    assert_eq!(Storage::profiles_file(), "profiles.json");
    assert_eq!(Storage::briefcases_file(), "briefcases.json");
    assert_eq!(Storage::empty_file(), "[]");
    assert_ne!(WindowSize::Full, WindowSize::Partial);
}
