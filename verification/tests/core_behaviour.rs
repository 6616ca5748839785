//! Behavioural checks of the launcher-side data modules.
use hero::downloader::{Download, Downloader, DownloadGroup};
use hero::image::Image;
use hero::localisation::Localisation;
use hero::storage::PLUTO;
use hero::user_interface::{Element, PathSelectKind, Value, ValueLink};
use hero::content::{ContentFile, ContentProviderItem, ContentProviderItemAuthor,
    ContentProviderSearchSortType};
use hero::IconData;
use hero::gif_loader::{frame_at, is_supported_uri, is_unsupported_mime};

#[test]
fn translate_returns_the_key_when_nothing_is_stored() {
    let loc = Localisation::new();
    assert_eq!(loc.translate("hello".to_string()), "hello");
}

#[test]
fn translate_finds_inserted_pairs() {
    let mut loc = Localisation::new();
    loc.insert_data("en-AU", vec![("hello", "g'day"), ("bye", "hooroo")]);
    assert_eq!(loc.translate("hello".to_string()), "g'day");
    assert_eq!(loc.translate("bye".to_string()), "hooroo");
    assert_eq!(loc.translate("missing".to_string()), "missing");
}

#[test]
fn later_pairs_win_and_other_locales_stay_apart() {
    let mut loc = Localisation::new();
    loc.insert_data("en-AU", vec![("hello", "hi"), ("hello", "g'day")]);
    assert_eq!(loc.translate("hello".to_string()), "g'day");
    loc.insert_data("de-DE", vec![("hello", "hallo")]);
    // The current locale stays en-AU, so the German entry is not read.
    assert_eq!(loc.translate("hello".to_string()), "g'day");
    // A second batch overwrites in place.
    loc.insert_data("en-AU", vec![("hello", "howdy")]);
    assert_eq!(loc.translate("hello".to_string()), "howdy");
}

#[test]
fn storage_set_then_get_round_trips() {
    let mut store = PLUTO::new("game_meta.PLUTO_PROTO".to_string(), Vec::new());
    assert_eq!(store.get(&"save_dir".to_string()), None);
    store.set("save_dir".to_string(), "/saves".to_string());
    store.set("profile".to_string(), "main".to_string());
    assert_eq!(store.get(&"save_dir".to_string()), Some("/saves".to_string()));
    store.set("save_dir".to_string(), "/elsewhere".to_string());
    assert_eq!(store.get(&"save_dir".to_string()), Some("/elsewhere".to_string()));
    assert_eq!(store.get(&"profile".to_string()), Some("main".to_string()));
}

#[test]
fn storage_new_keeps_given_items() {
    let items = vec![("a".to_string(), "1".to_string()), ("b".to_string(), "2".to_string())];
    let store = PLUTO::new("p".to_string(), items);
    assert_eq!(store.get(&"a".to_string()), Some("1".to_string()));
    assert_eq!(store.get(&"b".to_string()), Some("2".to_string()));
    assert_eq!(store.get(&"c".to_string()), None);
}

#[test]
fn downloads_can_be_grouped_and_stopped() {
    let _d: Downloader = Downloader::new();
    let group: DownloadGroup = Downloader::download_files_over_http(vec![
        "https://example.net/a".to_string(),
        "https://example.net/b".to_string(),
    ]);
    group.stop_all();
    let empty = Downloader::download_files_over_http(Vec::new());
    empty.stop_all();
}

#[test]
fn image_new_checks_the_storage_invariant() {
    assert!(Image::new(2, 2, vec![0u8; 16]).is_some());
    assert!(Image::new(2, 2, vec![0u8; 15]).is_none());
    assert!(Image::new(0, 0, Vec::new()).is_some());
    let img = Image::new(2, 1, vec![1, 2, 3, 4, 5, 6, 7, 8]).unwrap();
    assert_eq!(img.channel_at(1, 0, 2), 7);
}

#[test]
fn isqrt_matches_exact_squares_and_their_neighbours() {
    assert_eq!(hero::fixed::isqrt(0), 0);
    assert_eq!(hero::fixed::isqrt(1), 1);
    assert_eq!(hero::fixed::isqrt(15), 3);
    assert_eq!(hero::fixed::isqrt(16), 4);
    assert_eq!(hero::fixed::isqrt(17), 4);
    assert_eq!(hero::fixed::isqrt(u64::MAX as u128), 4294967295);
    assert_eq!(hero::fixed::isqrt((1u128 << 64) + 1), 4294967296);
    assert_eq!(hero::fixed::isqrt(u128::MAX), u64::MAX);
}

#[test]
fn frontend_values_wrap_and_link() {
    let v: Value<String> = Value::from("fixed".to_string());
    assert!(matches!(v, Value::Static(_)));
    let linked: Value<String> = Value::Link(ValueLink::InstanceGameMeta("key".to_string()));
    let element = Element::PathSelect { kind: PathSelectKind::Directory, value: linked };
    assert!(matches!(element, Element::PathSelect { kind: PathSelectKind::Directory, .. }));
}

#[test]
fn content_items_carry_their_fields() {
    let author = ContentProviderItemAuthor {
        id: "a1".to_string(),
        name: "someone".to_string(),
        website_url: None,
    };
    let item = ContentProviderItem {
        id: "m1".to_string(),
        name: "a mod".to_string(),
        icon: Some("https://example.net/icon.png".to_string()),
        authors: Some(vec![author]),
        summary: None,
        can_be_installed: true,
    };
    assert!(item.can_be_installed);
    assert_eq!(item.authors.as_ref().map(|a| a.len()), Some(1));
    let file = ContentFile { name: "data.pak".to_string(), icon: None, version: None };
    assert_eq!(file.name, "data.pak");
    assert!(matches!(ContentProviderSearchSortType::Rating, ContentProviderSearchSortType::Rating));
    let icon = IconData { path: "icon.png".to_string(), bytes: vec![1, 2, 3] };
    assert_eq!(icon.clone().bytes.len(), 3);
}

#[test]
fn storage_serializes_alternating_lines() {
    let mut store = PLUTO::new("p".to_string(), Vec::new());
    assert_eq!(store.serialize(), "");
    store.set("save_dir".to_string(), "/saves".to_string());
    assert_eq!(store.serialize(), "save_dir\n/saves");
    store.set("profile".to_string(), "main".to_string());
    assert_eq!(store.serialize(), "save_dir\n/saves\nprofile\nmain");
}

#[test]
fn parse_table_reads_pairs_of_lines() {
    let items = hero::storage::parse_table("a\n1\nb\n2");
    assert_eq!(items, vec![("a".to_string(), "1".to_string()), ("b".to_string(), "2".to_string())]);
    // A trailing line without a partner is dropped.
    let odd = hero::storage::parse_table("a\n1\nstray");
    assert_eq!(odd, vec![("a".to_string(), "1".to_string())]);
    assert_eq!(hero::storage::parse_table(""), Vec::new());
    // A final line break closes the last line instead of opening an empty
    // one, so an odd line count with a trailing break still drops the stray.
    let trailing = hero::storage::parse_table("a\n1\nc\n");
    assert_eq!(trailing, vec![("a".to_string(), "1".to_string())]);
    // A single line break is one empty line: no pair at all.
    assert_eq!(hero::storage::parse_table("\n"), Vec::new());
    // An empty middle value survives.
    let mid = hero::storage::parse_table("a\n\nb\n2");
    assert_eq!(mid, vec![("a".to_string(), String::new()), ("b".to_string(), "2".to_string())]);
}

#[test]
fn parse_table_strips_carriage_returns() {
    let items = hero::storage::parse_table("k\r\nv\r\n");
    assert_eq!(items, vec![("k".to_string(), "v".to_string())]);
    let store = PLUTO::new("p".to_string(), items);
    assert_eq!(store.get(&"k".to_string()), Some("v".to_string()));
    // A carriage return not followed by a line break stays.
    let bare = hero::storage::parse_table("k\nv\r");
    assert_eq!(bare, vec![("k".to_string(), "v\r".to_string())]);
}

#[test]
fn parse_table_keeps_the_later_pair_of_a_repeated_key() {
    let items = hero::storage::parse_table("k\nv1\nk\nv2");
    assert_eq!(items, vec![("k".to_string(), "v2".to_string())]);
    let store = PLUTO::new("p".to_string(), items);
    assert_eq!(store.get(&"k".to_string()), Some("v2".to_string()));
}

#[test]
fn storage_new_folds_repeated_keys() {
    let items = vec![("a".to_string(), "1".to_string()), ("a".to_string(), "2".to_string())];
    let store = PLUTO::new("p".to_string(), items);
    assert_eq!(store.get(&"a".to_string()), Some("2".to_string()));
    assert_eq!(store.serialize(), "a\n2");
}

#[test]
fn storage_round_trips_through_its_file_form() {
    let mut store = PLUTO::new("p".to_string(), Vec::new());
    store.set("a".to_string(), "1".to_string());
    store.set("b".to_string(), "two words".to_string());
    store.set("a".to_string(), "3".to_string());
    let text = store.serialize();
    let reread = PLUTO::new("p".to_string(), hero::storage::parse_table(&text));
    assert_eq!(reread.get(&"a".to_string()), Some("3".to_string()));
    assert_eq!(reread.get(&"b".to_string()), Some("two words".to_string()));
    assert_eq!(reread.serialize(), text);
}

#[test]
fn gif_uris_are_recognised() {
    assert!(is_supported_uri("https://example.net/banner.gif"));
    assert!(!is_supported_uri("https://example.net/banner.png"));
    // No extension: assume support, decide later from the bytes.
    assert!(is_supported_uri("https://example.net/banner"));
    assert!(is_supported_uri("file/.hidden"));
    assert!(is_supported_uri("dotted.dir/file"));
    assert!(!is_supported_uri("a.b/c.jpeg"));
    // A parent-directory marker names no file.
    assert!(is_supported_uri("a/.."));
    assert!(is_supported_uri(".."));
    // Trailing separators and lone-dot segments do not hide the file.
    assert!(!is_supported_uri("a/b.png/"));
    assert!(!is_supported_uri("b.png/."));
    assert!(is_supported_uri("a/b.gif//"));
    assert!(is_supported_uri("a/./"));
    assert!(is_supported_uri(""));
    assert!(is_supported_uri("/"));
}

#[test]
fn gif_mimes_are_recognised() {
    assert!(!is_unsupported_mime("image/gif"));
    assert!(is_unsupported_mime("image/png"));
    assert!(is_unsupported_mime(""));
    assert!(!is_unsupported_mime("gif"));
}

#[test]
fn animation_frames_follow_their_delays() {
    let delays: Vec<u32> = vec![100, 50, 200];
    assert_eq!(frame_at(&delays, 0), 0);
    assert_eq!(frame_at(&delays, 100), 0);
    assert_eq!(frame_at(&delays, 101), 1);
    assert_eq!(frame_at(&delays, 150), 1);
    assert_eq!(frame_at(&delays, 151), 2);
    assert_eq!(frame_at(&delays, 350), 2);
    // Frames with no delay of their own are skipped past.
    let with_zero: Vec<u32> = vec![0, 10];
    assert_eq!(frame_at(&with_zero, 0), 0);
    assert_eq!(frame_at(&with_zero, 5), 1);
}

#[test]
fn loading_bar_types_name_their_game() {
    let bar = hero::state::LoadingBarType::LoadGame { game_id: "half_light_2".to_string() };
    let hero::state::LoadingBarType::LoadGame { game_id } = bar;
    assert_eq!(game_id, "half_light_2");
}

#[test]
fn frontend_values_resolve_against_metadata() {
    let store = PLUTO::new(
        "p".to_string(),
        vec![("save_dir".to_string(), "/saves".to_string())],
    );
    let fixed: Value<String> = Value::Static("as-is".to_string());
    assert_eq!(fixed.read(Some(&store)), Some("as-is".to_string()));
    assert_eq!(fixed.read(None), Some("as-is".to_string()));
    let linked: Value<String> = Value::Link(ValueLink::InstanceGameMeta("save_dir".to_string()));
    assert_eq!(linked.read(Some(&store)), Some("/saves".to_string()));
    assert_eq!(linked.read(None), None);
    let missing: Value<String> = Value::Link(ValueLink::InstanceGameMeta("other".to_string()));
    assert_eq!(missing.read(Some(&store)), None);
}
