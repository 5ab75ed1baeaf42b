use steamscan::game::SteamGame;
use steamscan::library::collapse_backslashes;
use steamscan::library::parse_library_paths;
use steamscan::library::resolve_library_roots;
use steamscan::lines::split_lines;
use steamscan::manifest::is_manifest_filename;
use steamscan::manifest::parse_appmanifest;
use steamscan::playtime::parse_localconfig_playtimes;
use steamscan::tokenizer::quoted_values;

#[test]
fn tokenizes_quoted_values_on_a_line() {
    assert_eq!(
        quoted_values("  \"name\"\t\"Counter-Strike\""),
        vec!["name".to_string(), "Counter-Strike".to_string()]
    );
    assert_eq!(quoted_values(""), Vec::<String>::new());
    assert_eq!(quoted_values("{ } no quotes here"), Vec::<String>::new());
    assert_eq!(quoted_values("\"one\""), vec!["one".to_string()]);
}

#[test]
fn odd_quote_counts_drop_the_dangling_segment() {
    assert_eq!(quoted_values("\"a\" \"b"), vec!["a".to_string()]);
    assert_eq!(quoted_values("\"unterminated"), Vec::<String>::new());
    assert_eq!(
        quoted_values("\"a\"\"b\"\"c"),
        vec!["a".to_string(), "b".to_string()]
    );
}

#[test]
fn splits_lines_like_the_standard_library() {
    assert_eq!(split_lines(""), Vec::<String>::new());
    assert_eq!(split_lines("a\nb"), vec!["a".to_string(), "b".to_string()]);
    assert_eq!(split_lines("a\r\nb\n"), vec!["a".to_string(), "b".to_string()]);
    assert_eq!(split_lines("\n"), vec!["".to_string()]);
    assert_eq!(split_lines("x\r"), vec!["x\r".to_string()]);
    assert_eq!(split_lines("a\r\n"), vec!["a".to_string()]);
}

#[test]
fn parses_a_complete_manifest() {
    let content = "\"AppState\"\n{\n  \"appid\"\t\"10\"\n  \"name\"\t\"Counter-Strike\"\n  \"LastPlayed\"\t\"100\"\n}\n";
    assert_eq!(
        parse_appmanifest(content),
        Some(SteamGame {
            name: "Counter-Strike".to_string(),
            appid: "10".to_string(),
            last_played: 100,
            playtime_minutes: 0,
        })
    );
}

#[test]
fn manifest_without_id_or_name_yields_nothing() {
    let no_id = "\"AppState\"\n{\n  \"name\"\t\"Counter-Strike\"\n}\n";
    assert_eq!(parse_appmanifest(no_id), None);
    let no_name = "\"AppState\"\n{\n  \"appid\"\t\"10\"\n}\n";
    assert_eq!(parse_appmanifest(no_name), None);
}

#[test]
fn empty_name_counts_as_missing() {
    let empty_name = "\"AppState\"\n{\n  \"appid\"\t\"10\"\n  \"name\"\t\"\"\n}\n";
    assert_eq!(parse_appmanifest(empty_name), None);
    let overwritten = "\"AppState\"\n{\n  \"appid\"\t\"10\"\n  \"name\"\t\"G\"\n  \"name\"\t\"\"\n}\n";
    assert_eq!(parse_appmanifest(overwritten), None);
}

#[test]
fn recognises_manifest_filenames() {
    assert!(is_manifest_filename("appmanifest_10.acf"));
    assert!(is_manifest_filename("appmanifest_.acf"));
    assert!(!is_manifest_filename("appmanifest_10.txt"));
    assert!(!is_manifest_filename("manifest_10.acf"));
    assert!(!is_manifest_filename("Appmanifest_10.acf"));
    assert!(!is_manifest_filename(".acf"));
    assert!(!is_manifest_filename(""));
}

#[test]
fn unparsable_last_played_defaults_to_zero() {
    let content = "\"AppState\"\n{\n  \"appid\"\t\"10\"\n  \"name\"\t\"G\"\n  \"LastPlayed\"\t\"soon\"\n}\n";
    let game = parse_appmanifest(content).expect("manifest should parse");
    assert_eq!(game.last_played, 0);
}

#[test]
fn collapses_doubled_backslashes() {
    assert_eq!(collapse_backslashes("C:\\\\Games\\\\Steam"), "C:\\Games\\Steam");
    assert_eq!(collapse_backslashes("\\\\\\\\"), "\\\\");
    assert_eq!(collapse_backslashes("plain"), "plain");
}

#[test]
fn reads_library_paths_from_index_text() {
    let content = "\"libraryfolders\"\n{\n  \"0\"\n  {\n    \"path\"\t\"/home/u/.steam/steam\"\n  }\n  \"1\"\n  {\n    \"path\"\t\"/mnt/games\"\n  }\n}\n";
    assert_eq!(
        parse_library_paths(content),
        vec!["/home/u/.steam/steam".to_string(), "/mnt/games".to_string()]
    );
}

#[test]
fn missing_index_falls_back_to_primary_root() {
    assert_eq!(
        resolve_library_roots(None, "/root/.steam/steam"),
        vec!["/root/.steam/steam".to_string()]
    );
    assert_eq!(
        resolve_library_roots(Some("\"libraryfolders\"\n{\n}\n"), "/root/.steam/steam"),
        vec!["/root/.steam/steam".to_string()]
    );
    assert_eq!(
        resolve_library_roots(Some("  \"path\"\t\"/mnt/games\"\n"), "/root/.steam/steam"),
        vec!["/mnt/games".to_string()]
    );
}

#[test]
fn reads_playtime_from_nested_config() {
    let content = "\"UserLocalConfigStore\"\n{\n  \"Software\"\n  {\n    \"Valve\"\n    {\n      \"Steam\"\n      {\n        \"apps\"\n        {\n          \"20\"\n          {\n            \"Playtime\"\t\"321\"\n          }\n        }\n      }\n    }\n  }\n}\n";
    let table = parse_localconfig_playtimes(content);
    assert_eq!(table.get_minutes(&"20".to_string()), 321);
    assert_eq!(table.get_minutes(&"10".to_string()), 0);
}

#[test]
fn playtime_outside_apps_block_is_ignored() {
    let content = "\"store\"\n{\n  \"other\"\n  {\n    \"5\"\n    {\n      \"Playtime\"\t\"100\"\n    }\n  }\n}\n";
    let table = parse_localconfig_playtimes(content);
    assert_eq!(table.get_minutes(&"5".to_string()), 0);
}

#[test]
fn extra_closing_braces_are_tolerated() {
    let content = "}\n}\n\"apps\"\n{\n  \"7\"\n  {\n    \"Playtime\"\t\"42\"\n  }\n}\n";
    let table = parse_localconfig_playtimes(content);
    assert_eq!(table.get_minutes(&"7".to_string()), 42);
}
