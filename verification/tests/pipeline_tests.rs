use steamscan::game::SteamGame;
use steamscan::game::is_game_entry;
use steamscan::manifest::parse_appmanifest;
use steamscan::pipeline::aggregate_games;
use steamscan::playtime::PlaytimeTable;
use steamscan::playtime::parse_localconfig_playtimes;

fn game(name: &str, appid: &str, last_played: u64) -> SteamGame {
    SteamGame {
        name: name.to_string(),
        appid: appid.to_string(),
        last_played,
        playtime_minutes: 0,
    }
}

#[test]
fn keeps_every_record_with_distinct_ids() {
    let scanned = vec![
        game("Counter-Strike", "10", 0),
        game("Team Fortress Classic", "20", 0),
        game("Half-Life", "70", 0),
    ];
    let table = PlaytimeTable::new();
    let result = aggregate_games(&scanned, &table);
    assert_eq!(result.len(), 3);
    assert!(result.contains(&game("Counter-Strike", "10", 0)));
    assert!(result.contains(&game("Team Fortress Classic", "20", 0)));
    assert!(result.contains(&game("Half-Life", "70", 0)));
}

#[test]
fn filters_known_non_game_entries() {
    let scanned = vec![
        game("Proton Experimental", "1493710", 0),
        game("Steam Linux Runtime 3.0 (sniper)", "1628350", 0),
        game("Hollow Knight: Silksong", "1030300", 0),
    ];
    let table = PlaytimeTable::new();
    let result = aggregate_games(&scanned, &table);
    assert_eq!(result, vec![game("Hollow Knight: Silksong", "1030300", 0)]);
}

#[test]
fn filter_is_case_insensitive() {
    assert!(!is_game_entry(&game("PROTON Hotfix", "1", 0)));
    assert!(!is_game_entry(&game("steamworks common redistributables", "2", 0)));
    assert!(is_game_entry(&game("Protagonist Story", "3", 0)));
}

#[test]
fn first_library_wins_on_duplicate_ids() {
    let scanned = vec![
        game("Portal (primary library)", "400", 50),
        game("Portal (second library)", "400", 999),
        game("Half-Life", "70", 10),
    ];
    let table = PlaytimeTable::new();
    let result = aggregate_games(&scanned, &table);
    assert_eq!(result.len(), 2);
    assert_eq!(
        result[0],
        SteamGame {
            name: "Portal (primary library)".to_string(),
            appid: "400".to_string(),
            last_played: 50,
            playtime_minutes: 0,
        }
    );
}

#[test]
fn sorts_by_last_played_descending() {
    let scanned = vec![game("Older Game", "10", 100), game("Newer Game", "20", 200)];
    let table = PlaytimeTable::new();
    let result = aggregate_games(&scanned, &table);
    let names: Vec<&str> = result.iter().map(|g| g.name.as_str()).collect();
    assert_eq!(names, vec!["Newer Game", "Older Game"]);
    assert_eq!(result[0].last_played, 200);
    assert_eq!(result[1].last_played, 100);
    assert_eq!(result[0].playtime_minutes, 0);
    assert_eq!(result[1].playtime_minutes, 0);
}

#[test]
fn equal_timestamps_break_ties_by_ascending_id() {
    let scanned = vec![game("B", "20", 200), game("A", "10", 200)];
    let table = PlaytimeTable::new();
    let result = aggregate_games(&scanned, &table);
    let ids: Vec<&str> = result.iter().map(|g| g.appid.as_str()).collect();
    assert_eq!(ids, vec!["10", "20"]);
}

#[test]
fn playtime_merge_takes_maximum_across_profiles() {
    let profile_a = "\"apps\"\n{\n  \"5\"\n  {\n    \"Playtime\"\t\"100\"\n  }\n}\n";
    let profile_b = "\"apps\"\n{\n  \"5\"\n  {\n    \"Playtime\"\t\"50\"\n  }\n}\n";
    let mut merged = PlaytimeTable::new();
    merged.merge_max_from(&parse_localconfig_playtimes(profile_a));
    merged.merge_max_from(&parse_localconfig_playtimes(profile_b));
    assert_eq!(merged.get_minutes(&"5".to_string()), 100);

    let mut reversed = PlaytimeTable::new();
    reversed.merge_max_from(&parse_localconfig_playtimes(profile_b));
    reversed.merge_max_from(&parse_localconfig_playtimes(profile_a));
    assert_eq!(reversed.get_minutes(&"5".to_string()), 100);
}

#[test]
fn attaches_playtime_to_kept_records() {
    let content = "\"UserLocalConfigStore\"\n{\n  \"apps\"\n  {\n    \"20\"\n    {\n      \"Playtime\"\t\"321\"\n    }\n  }\n}\n";
    let table = parse_localconfig_playtimes(content);
    let scanned = vec![game("Newer Game", "20", 200)];
    let result = aggregate_games(&scanned, &table);
    assert_eq!(result.len(), 1);
    assert_eq!(result[0].appid, "20");
    assert_eq!(result[0].playtime_minutes, 321);
}

#[test]
fn end_to_end_from_manifest_texts() {
    let older = "\"AppState\"\n{\n  \"appid\"\t\"10\"\n  \"name\"\t\"Older Game\"\n  \"LastPlayed\"\t\"100\"\n}\n";
    let newer = "\"AppState\"\n{\n  \"appid\"\t\"20\"\n  \"name\"\t\"Newer Game\"\n  \"LastPlayed\"\t\"200\"\n}\n";
    let mut scanned = Vec::new();
    for content in [older, newer] {
        if let Some(g) = parse_appmanifest(content) {
            scanned.push(g);
        }
    }
    let result = aggregate_games(&scanned, &PlaytimeTable::new());
    assert_eq!(
        result,
        vec![
            SteamGame {
                name: "Newer Game".to_string(),
                appid: "20".to_string(),
                last_played: 200,
                playtime_minutes: 0,
            },
            SteamGame {
                name: "Older Game".to_string(),
                appid: "10".to_string(),
                last_played: 100,
                playtime_minutes: 0,
            },
        ]
    );
}
