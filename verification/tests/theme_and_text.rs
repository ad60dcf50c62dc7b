use chlorophyll::identity::identity_of;
use chlorophyll::record::record_encode;
use chlorophyll::templates::{build_variables, substitute};
use chlorophyll::theme::{find_wallpaper, is_image_path, Theme, ThemeError};

#[test]
fn identity_matches_the_known_sha256_digest() {
    let bytes: Vec<u8> = b"abc".to_vec();
    let id = identity_of("wall.png", &bytes);
    assert_eq!(id, "95972b3e720362bb451d82b0d554bfb6555a803b0aaecacd24d198ad726dcbb5");
}

#[test]
fn identity_changes_with_content_and_with_location() {
    let bytes: Vec<u8> = b"abc".to_vec();
    let changed: Vec<u8> = b"abd".to_vec();
    let id = identity_of("wall.png", &bytes);
    let id_content = identity_of("wall.png", &changed);
    let id_location = identity_of("wall2.png", &bytes);
    assert_ne!(id, id_content);
    assert_ne!(id, id_location);
    assert_eq!(id.len(), 64);
    assert_eq!(id_content, "850262720bbd7ee57b6b41a3220e18c4aeba04e70034de2b3992db9691a8311f");
}

#[test]
fn theme_hash_is_the_identity_of_its_path() {
    let theme = Theme::new("wall.png".to_string());
    let bytes: Vec<u8> = b"abc".to_vec();
    assert_eq!(theme.hash(&bytes), identity_of("wall.png", &bytes));
}

#[test]
fn animated_detection_goes_by_extension() {
    assert!(Theme::new("a/b.gif".to_string()).is_animated());
    assert!(Theme::new("A.GIF".to_string()).is_animated());
    assert!(Theme::new("x.webp".to_string()).is_animated());
    assert!(Theme::new("x.apng".to_string()).is_animated());
    assert!(!Theme::new("x.png".to_string()).is_animated());
    assert!(!Theme::new("noext".to_string()).is_animated());
    assert!(!Theme::new(".gif".to_string()).is_animated());
    assert!(Theme::new("dir.gif/".to_string()).is_animated());
    assert!(!Theme::new("a/..".to_string()).is_animated());
}

#[test]
fn image_paths_go_by_extension() {
    assert!(is_image_path("w/a.png"));
    assert!(is_image_path("a.JPEG"));
    assert!(!is_image_path("a.txt"));
    assert!(!is_image_path("png"));
}

#[test]
fn dominant_color_formats_the_first_cached_entry() {
    let palette: Vec<(u8, u8, u8)> = vec![
        (170, 187, 204),
        (0, 0, 0),
        (0, 0, 0),
        (0, 0, 0),
        (0, 0, 0),
        (0, 0, 0),
        (0, 0, 0),
        (0, 0, 0),
    ];
    let rec = record_encode(&palette);
    let theme = Theme::new("w.png".to_string());
    let junk: Vec<u8> = Vec::new();
    let c = theme.dominant_color(&junk, Some(&rec)).unwrap();
    assert_eq!(c, "0xaabbcc");
}

#[test]
fn find_wallpaper_prefers_the_direct_path() {
    let existing = vec!["shot.jpg".to_string(), "walls/shot.png".to_string()];
    let r = find_wallpaper("walls", "shot.jpg", &existing).unwrap();
    assert_eq!(r, "shot.jpg");
}

#[test]
fn find_wallpaper_tries_extensions_in_order() {
    let existing = vec!["walls/zen.jpg".to_string(), "walls/zen.png".to_string()];
    let r = find_wallpaper("walls", "zen", &existing).unwrap();
    assert_eq!(r, "walls/zen.png");

    let only_gif = vec!["walls/zen.gif".to_string()];
    let r2 = find_wallpaper("walls", "zen", &only_gif).unwrap();
    assert_eq!(r2, "walls/zen.gif");
}

#[test]
fn find_wallpaper_keeps_a_trailing_separator_single() {
    let existing = vec!["walls/zen.png".to_string()];
    let r = find_wallpaper("walls/", "zen", &existing).unwrap();
    assert_eq!(r, "walls/zen.png");
}

#[test]
fn find_wallpaper_reports_a_missing_name() {
    let existing = vec!["walls/other.png".to_string()];
    let r = find_wallpaper("walls", "zen", &existing);
    assert!(matches!(r, Err(ThemeError::NotFound)));
}

#[test]
fn substitute_replaces_known_variables() {
    let vars = vec![("accent".to_string(), "#ff0000".to_string())];
    let out = substitute("color: {{accent}};", &vars);
    assert_eq!(out, "color: #ff0000;");
}

#[test]
fn substitute_keeps_unknown_variables_literal() {
    let vars = vec![("accent".to_string(), "#ff0000".to_string())];
    let out = substitute("color: {{mystery}};", &vars);
    assert_eq!(out, "color: {{mystery}};");
}

#[test]
fn substitute_passes_unclosed_braces_through() {
    let vars: Vec<(String, String)> = Vec::new();
    let out = substitute("a{{b", &vars);
    assert_eq!(out, "a{{b");
    let out2 = substitute("ab{{cd{{ef", &vars);
    assert_eq!(out2, "ab{{cd{{ef");
}

#[test]
fn substitute_handles_several_variables() {
    let vars = vec![
        ("one".to_string(), "1".to_string()),
        ("two".to_string(), "2".to_string()),
    ];
    let out = substitute("{{one}}+{{one}}={{two}}", &vars);
    assert_eq!(out, "1+1=2");
}

#[test]
fn build_variables_lays_out_every_format() {
    let palette: Vec<(u8, u8, u8)> = vec![(255, 0, 0), (1, 128, 30)];
    let vars = build_variables(&palette, "walls/zen.png");
    assert_eq!(vars.len(), 13);
    let expect = |name: &str, value: &str| {
        let found = vars.iter().find(|v| v.0 == name).expect(name);
        assert_eq!(found.1, value, "variable {}", name);
    };
    expect("color0", "#ff0000");
    expect("color0.strip", "ff0000");
    expect("color0.rgb", "255,0,0");
    expect("color0.red", "1.0000");
    expect("color0.green", "0.0000");
    expect("color0.blue", "0.0000");
    expect("color1", "#01801e");
    expect("color1.rgb", "1,128,30");
    expect("color1.red", "0.0039");
    expect("color1.green", "0.5020");
    expect("color1.blue", "0.1176");
    expect("wallpaper", "walls/zen.png");
}
