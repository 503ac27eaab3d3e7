use theme_colors::color::Rgba;
use theme_colors::config::{get_default_extensions, AppConfig, GeneralConfig, SortMode};
use theme_colors::extension::{
    get_default_ext_color, get_extension, is_theme_config_file, is_visible_name, scan_enabled,
};

#[test]
fn default_extension_list() {
    let d = get_default_extensions();
    assert_eq!(d.len(), 8);
    assert_eq!(d[0].0, ".css");
    assert_eq!(d[0].1.color, "#2646dc");
    assert!(d.iter().all(|(_, s)| s.enabled));
    assert_eq!(d[7].0, ".ini");
    assert_eq!(d[7].1.color, "#ff9ff3");
}

#[test]
fn default_paths() {
    let g = GeneralConfig::with_home(Some("/home/u".to_string()));
    assert_eq!(g.themes_path, "/home/u/.config/omarchy/themes");
    assert_eq!(g.save_prefix, "new-");
    let g = GeneralConfig::with_home(Some("/root/".to_string()));
    assert_eq!(g.themes_path, "/root/.config/omarchy/themes");
    let g = GeneralConfig::with_home(None);
    assert_eq!(g.themes_path, "/home/your/.config/omarchy/themes");
    let d = GeneralConfig::default();
    assert_eq!(d.save_prefix, "new-");
    assert!(d.themes_path.ends_with(".config/omarchy/themes"));
    let c = AppConfig::fallback();
    assert_eq!(c.extensions.len(), 8);
    assert_eq!(SortMode::default(), SortMode::LastOpened);
}

#[test]
fn extensions_of_names() {
    assert_eq!(get_extension("Style.CSS"), "css");
    assert_eq!(get_extension("a.b.Toml"), "toml");
    assert_eq!(get_extension("README"), "readme");
    assert_eq!(get_extension("dir."), "");
}

#[test]
fn default_extension_colors() {
    // "css" sums to 99 + 115 + 115 = 329, and 329 % 16 = 9.
    assert_eq!(get_default_ext_color("x.CSS"), Rgba { r: 34, g: 166, b: 179, a: 255 });
    assert_eq!(get_default_ext_color(""), Rgba { r: 255, g: 107, b: 107, a: 255 });
}

#[test]
fn listed_theme_entries() {
    assert!(is_visible_name("nord"));
    assert!(!is_visible_name(".git"));
    assert!(is_theme_config_file("alacritty.toml"));
    assert!(!is_theme_config_file("preview.png"));
    assert!(!is_theme_config_file("bg.jpg"));
    assert!(!is_theme_config_file(".hidden.css"));
    assert!(is_theme_config_file("x.jpeg"));
}

#[test]
fn scanning_gate_by_extension() {
    let exts = vec![
        (".css".to_string(), true),
        (".toml".to_string(), false),
        (".css".to_string(), false),
    ];
    assert!(scan_enabled("Style.CSS", &exts));
    assert!(!scan_enabled("alacritty.toml", &exts));
    assert!(!scan_enabled("notes.txt", &exts));
    assert!(scan_enabled("css", &exts));
}
