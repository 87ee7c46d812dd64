use viewer_core::greet;
use viewer_core::index::{list_folder_images, DirEntry};
use viewer_core::launch::{parse_u32, parse_window_mode, resolve_launch_config, WindowDirective};
use viewer_core::nav::{next_image, previous_image};
use viewer_core::paths::parent_of;
use viewer_core::theme::{detect_appearance, get_appearance, AppearanceMode, HostFamily};

fn entry(path: &str, is_file: bool, created: Option<u64>) -> DirEntry {
    DirEntry { path: path.to_string(), is_file, created }
}

fn photos() -> Option<Vec<DirEntry>> {
    Some(vec![
        entry("/photos/a.png", true, Some(1)),
        entry("/photos/b.jpg", true, Some(2)),
        entry("/photos/notes.txt", true, Some(3)),
    ])
}

#[test]
fn listing_photos_example() {
    let r = list_folder_images(&photos()).unwrap();
    assert_eq!(r, vec!["/photos/a.png".to_string(), "/photos/b.jpg".to_string()]);
}

#[test]
fn listing_missing_directory_is_absent() {
    assert_eq!(list_folder_images(&None), None);
}

#[test]
fn listing_without_qualifying_files_is_absent() {
    let snap = Some(vec![
        entry("/d/notes.txt", true, Some(1)),
        entry("/d/sub.png", false, Some(2)),
        entry("/d/unreadable.png", true, None),
    ]);
    assert_eq!(list_folder_images(&snap), None);
}

#[test]
fn listing_empty_directory_is_absent() {
    assert_eq!(list_folder_images(&Some(Vec::new())), None);
}

#[test]
fn listing_sorts_by_creation_time() {
    let snap = Some(vec![
        entry("/d/late.png", true, Some(30)),
        entry("/d/early.gif", true, Some(10)),
        entry("/d/mid.bmp", true, Some(20)),
    ]);
    let r = list_folder_images(&snap).unwrap();
    assert_eq!(
        r,
        vec!["/d/early.gif".to_string(), "/d/mid.bmp".to_string(), "/d/late.png".to_string()]
    );
}

#[test]
fn listing_is_stable_on_equal_timestamps() {
    let snap = Some(vec![
        entry("/d/first.png", true, Some(5)),
        entry("/d/second.png", true, Some(5)),
        entry("/d/third.png", true, Some(5)),
    ]);
    let r = list_folder_images(&snap).unwrap();
    assert_eq!(
        r,
        vec!["/d/first.png".to_string(), "/d/second.png".to_string(), "/d/third.png".to_string()]
    );
}

#[test]
fn listing_twice_is_identical() {
    let snap = photos();
    assert_eq!(list_folder_images(&snap), list_folder_images(&snap));
}

#[test]
fn listing_folds_extension_case() {
    let snap = Some(vec![
        entry("/d/UPPER.JPG", true, Some(1)),
        entry("/d/mixed.TiFf", true, Some(2)),
        entry("/d/photo.webp", true, Some(3)),
        entry("/d/archive.tar", true, Some(4)),
    ]);
    let r = list_folder_images(&snap).unwrap();
    assert_eq!(
        r,
        vec!["/d/UPPER.JPG".to_string(), "/d/mixed.TiFf".to_string(), "/d/photo.webp".to_string()]
    );
}

#[test]
fn listing_skips_hidden_file_without_extension() {
    let snap = Some(vec![entry("/d/.png", true, Some(1)), entry("/d/noext", true, Some(2))]);
    assert_eq!(list_folder_images(&snap), None);
}

#[test]
fn next_wraps_around_photos_example() {
    let snap = photos();
    let from_first = next_image(&"/photos/a.png".to_string(), true, &snap);
    assert_eq!(from_first, Some("/photos/b.jpg".to_string()));
    let from_second = next_image(&"/photos/b.jpg".to_string(), true, &snap);
    assert_eq!(from_second, Some("/photos/a.png".to_string()));
}

#[test]
fn previous_wraps_around_photos_example() {
    let snap = photos();
    let from_first = previous_image(&"/photos/a.png".to_string(), true, &snap);
    assert_eq!(from_first, Some("/photos/b.jpg".to_string()));
    let from_second = previous_image(&"/photos/b.jpg".to_string(), true, &snap);
    assert_eq!(from_second, Some("/photos/a.png".to_string()));
}

#[test]
fn navigation_cycles_in_folder_size_steps() {
    let snap = Some(vec![
        entry("/d/a.png", true, Some(1)),
        entry("/d/b.png", true, Some(2)),
        entry("/d/c.png", true, Some(3)),
    ]);
    let start = "/d/b.png".to_string();
    let mut cur = start.clone();
    for _ in 0..3 {
        cur = next_image(&cur, true, &snap).unwrap();
    }
    assert_eq!(cur, start);
    let mut cur = start.clone();
    for _ in 0..3 {
        cur = previous_image(&cur, true, &snap).unwrap();
    }
    assert_eq!(cur, start);
}

#[test]
fn next_of_previous_returns_to_start() {
    let snap = Some(vec![
        entry("/d/a.png", true, Some(1)),
        entry("/d/b.png", true, Some(2)),
        entry("/d/c.png", true, Some(3)),
    ]);
    for p in ["/d/a.png", "/d/b.png", "/d/c.png"] {
        let p = p.to_string();
        let q = previous_image(&p, true, &snap).unwrap();
        assert_eq!(next_image(&q, true, &snap), Some(p));
    }
}

#[test]
fn navigation_disabled_returns_absence() {
    let snap = photos();
    assert_eq!(next_image(&"/photos/a.png".to_string(), false, &snap), None);
    assert_eq!(previous_image(&"/photos/a.png".to_string(), false, &snap), None);
}

#[test]
fn navigation_from_stale_path_is_absent() {
    let snap = photos();
    assert_eq!(next_image(&"/photos/gone.png".to_string(), true, &snap), None);
    assert_eq!(previous_image(&"/photos/gone.png".to_string(), true, &snap), None);
}

#[test]
fn navigation_without_index_is_absent() {
    assert_eq!(next_image(&"/d/a.png".to_string(), true, &None), None);
    let snap = Some(vec![entry("/d/notes.txt", true, Some(1))]);
    assert_eq!(previous_image(&"/d/a.png".to_string(), true, &snap), None);
}

#[test]
fn single_image_is_its_own_neighbour() {
    let snap = Some(vec![entry("/d/only.png", true, Some(1))]);
    let p = "/d/only.png".to_string();
    assert_eq!(next_image(&p, true, &snap), Some(p.clone()));
    assert_eq!(previous_image(&p, true, &snap), Some(p));
}

#[test]
fn parent_of_nested_path() {
    assert_eq!(parent_of("/photos/a.png"), Some("/photos".to_string()));
    assert_eq!(parent_of("a.png"), None);
    assert_eq!(parent_of("/a.png"), Some("/".to_string()));
    assert_eq!(parent_of("c:\\pics\\a.png"), Some("c:\\pics".to_string()));
}

#[test]
fn resolve_with_missing_image_is_all_absent() {
    let args = vec!["app".to_string(), "/nonexistent.png".to_string()];
    let c = resolve_launch_config(&args, false);
    assert_eq!(c.image_path, None);
    assert_eq!(c.display_mode, None);
}

#[test]
fn resolve_with_existing_image_and_mode() {
    let args = vec!["app".to_string(), "/pics/a.png".to_string(), "FullScreen".to_string()];
    let c = resolve_launch_config(&args, true);
    assert_eq!(c.image_path, Some("/pics/a.png".to_string()));
    assert_eq!(c.display_mode, Some("FullScreen".to_string()));
}

#[test]
fn resolve_without_arguments() {
    let c = resolve_launch_config(&vec!["app".to_string()], false);
    assert_eq!(c.image_path, None);
    assert_eq!(c.display_mode, None);
}

#[test]
fn appearance_defaults_to_light_on_failed_query() {
    assert_eq!(get_appearance(HostFamily::Windows, &None), "light");
    assert_eq!(get_appearance(HostFamily::MacOs, &None), "light");
    assert_eq!(get_appearance(HostFamily::Linux, &None), "light");
    assert_eq!(get_appearance(HostFamily::Other, &None), "light");
}

#[test]
fn appearance_windows_flag_values() {
    let dark = Some("    AppsUseLightTheme    REG_DWORD    0x0\r\n".to_string());
    let light = Some("    AppsUseLightTheme    REG_DWORD    0x1\r\n".to_string());
    assert_eq!(get_appearance(HostFamily::Windows, &dark), "dark");
    assert_eq!(get_appearance(HostFamily::Windows, &light), "light");
}

#[test]
fn appearance_macos_interface_style() {
    assert_eq!(get_appearance(HostFamily::MacOs, &Some("Dark\n".to_string())), "dark");
    assert_eq!(get_appearance(HostFamily::MacOs, &Some("Light\n".to_string())), "light");
    assert_eq!(
        detect_appearance(HostFamily::MacOs, &Some("  Dark  ".to_string())),
        AppearanceMode::Dark
    );
}

#[test]
fn appearance_linux_theme_name() {
    assert_eq!(get_appearance(HostFamily::Linux, &Some("'Adwaita-Dark'\n".to_string())), "dark");
    assert_eq!(get_appearance(HostFamily::Linux, &Some("'Adwaita'\n".to_string())), "light");
}

#[test]
fn greet_builds_the_message() {
    assert_eq!(greet("World"), "Hello, World! You've been greeted from Rust!");
}

#[test]
fn window_mode_full_screen() {
    assert_eq!(parse_window_mode(&Some("FullScreen".to_string())), WindowDirective::FullScreen);
    assert_eq!(parse_window_mode(&None), WindowDirective::Default);
}

#[test]
fn window_mode_resolution() {
    assert_eq!(
        parse_window_mode(&Some("1920x1080".to_string())),
        WindowDirective::Size(1920, 1080)
    );
    assert_eq!(parse_window_mode(&Some("800x600".to_string())), WindowDirective::Size(800, 600));
}

#[test]
fn window_mode_invalid_values_leave_default() {
    assert_eq!(parse_window_mode(&Some("fullscreen".to_string())), WindowDirective::Default);
    assert_eq!(parse_window_mode(&Some("x600".to_string())), WindowDirective::Default);
    assert_eq!(parse_window_mode(&Some("800x".to_string())), WindowDirective::Default);
    assert_eq!(parse_window_mode(&Some("800x60a".to_string())), WindowDirective::Default);
    assert_eq!(parse_window_mode(&Some("99999999999x600".to_string())), WindowDirective::Default);
    assert_eq!(parse_window_mode(&Some("1024".to_string())), WindowDirective::Default);
}

#[test]
fn parse_u32_reads_decimals() {
    assert_eq!(parse_u32("0"), Some(0));
    assert_eq!(parse_u32("+42"), Some(42));
    assert_eq!(parse_u32("4294967295"), Some(u32::MAX));
    assert_eq!(parse_u32("4294967296"), None);
    assert_eq!(parse_u32(""), None);
    assert_eq!(parse_u32("+"), None);
    assert_eq!(parse_u32("-1"), None);
    assert_eq!(parse_u32("12 "), None);
}
