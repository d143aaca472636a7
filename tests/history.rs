use canal_dredger::card::{sorted_by_position, AddOp, BoardChanges, Card};
use canal_dredger::history::{commit_message, plan_history, seconds_of, HistoryError};
use canal_dredger::local::CubeCobraLocalClient;
use canal_dredger::migration::{merge_map_from_migrations, resolve, MigrationMap, MigrationRecord};
use canal_dredger::output::{card_row, overview_text, package_file_bytes, package_rows};
use canal_dredger::snapshot::{generate_cubecobra_snapshots, snapshots_at, ChangeEvent, CobraCubeSnapshot};

fn card(id: &str, name: &str) -> Card {
    Card {
        card_id: id.to_string(),
        name: name.to_string(),
        set: Some("neo".to_string()),
        collector_number: Some("12".to_string()),
        status: Some("Owned".to_string()),
        tags: Some(vec!["aggro".to_string(), "red".to_string()]),
        finish: Some("Foil".to_string()),
        cmc: Some("3".to_string()),
        colors: Some(vec!["R".to_string(), "G".to_string()]),
        color_category: Some("Multicolored".to_string()),
        rarity: Some("rare".to_string()),
        type_line: Some("Creature".to_string()),
        position: None,
    }
}

fn adds(id: &str) -> BoardChanges {
    let mut c = BoardChanges::new();
    c.adds = vec![AddOp { card: card(id, id) }];
    c
}

fn event(date: Option<i64>, main: BoardChanges, mayb: BoardChanges) -> ChangeEvent {
    ChangeEvent { date, mainboard: main, maybeboard: mayb }
}

fn ids(b: &Option<Vec<Card>>) -> Option<Vec<String>> {
    b.as_ref().map(|v| v.iter().map(|c| c.card_id.clone()).collect())
}

fn snap(t: i64, main: bool, mayb: bool) -> CobraCubeSnapshot {
    CobraCubeSnapshot {
        timestamp: t,
        main: if main { Some(vec![card("a", "A")]) } else { None },
        mayb: if mayb { Some(vec![]) } else { None },
    }
}

#[test]
fn one_snapshot_per_changing_event_plus_now() {
    let mut main = vec![card("a", "a"), card("b", "b")];
    let mut mayb = vec![card("m", "m")];
    let events = vec![
        event(Some(300), adds("b"), BoardChanges::new()),
        event(Some(200), BoardChanges::new(), BoardChanges::new()),
        event(Some(100), BoardChanges::new(), adds("m")),
    ];
    let s = snapshots_at(&mut main, &mut mayb, &events, &MigrationMap::new(), 1000).unwrap();
    assert_eq!(s.len(), 3);
    let times: Vec<i64> = s.iter().map(|x| x.timestamp).collect();
    assert_eq!(times, vec![100, 300, 1000]);
    // the oldest is complete even though its event touched one board
    assert_eq!(ids(&s[0].main), Some(vec!["a".to_string()]));
    assert_eq!(ids(&s[0].mayb), Some(vec![]));
    assert_eq!(ids(&s[1].main), Some(vec!["a".to_string()]));
    assert_eq!(ids(&s[1].mayb), None);
    assert_eq!(ids(&s[2].main), Some(vec!["a".to_string(), "b".to_string()]));
    assert_eq!(ids(&s[2].mayb), Some(vec!["m".to_string()]));
    // the boards are left in their oldest state
    assert_eq!(ids(&Some(main)), ids(&s[0].main));
    assert_eq!(ids(&Some(mayb)), ids(&s[0].mayb));
}

#[test]
fn events_without_date_step_back_one_unit() {
    let mut main = vec![card("a", "a"), card("b", "b")];
    let mut mayb = vec![];
    let events = vec![
        event(None, adds("b"), BoardChanges::new()),
        event(None, BoardChanges::new(), BoardChanges::new()),
        event(None, adds("a"), BoardChanges::new()),
    ];
    let s = snapshots_at(&mut main, &mut mayb, &events, &MigrationMap::new(), 50).unwrap();
    let times: Vec<i64> = s.iter().map(|x| x.timestamp).collect();
    assert_eq!(times, vec![48, 49, 50]);
}

#[test]
fn no_events_gives_one_complete_snapshot() {
    let mut main = vec![card("a", "a")];
    let mut mayb = vec![];
    let s = generate_cubecobra_snapshots(&mut main, &mut mayb, &vec![], &MigrationMap::new()).unwrap();
    assert_eq!(s.len(), 1);
    assert!(s[0].main.is_some() && s[0].mayb.is_some());
}

#[test]
fn failed_reversal_stops_the_walk() {
    let mut main = vec![card("a", "a")];
    let mut mayb = vec![];
    let events = vec![event(Some(1), adds("zz"), BoardChanges::new())];
    assert!(snapshots_at(&mut main, &mut mayb, &events, &MigrationMap::new(), 5).is_err());
}

#[test]
fn commit_chain_is_linear() {
    let snaps = vec![snap(0, true, true), snap(1000, true, false), snap(2000, false, false), snap(3500, false, true)];
    let plan = plan_history(&snaps).unwrap();
    assert_eq!(plan.len(), 3);
    assert_eq!(plan[0].parent, None);
    assert_eq!(plan[1].parent, Some(0));
    assert_eq!(plan[2].parent, Some(1));
    let idx: Vec<usize> = plan.iter().map(|p| p.snapshot).collect();
    assert_eq!(idx, vec![0, 1, 3]);
    assert!(plan[0].write_main && plan[0].write_mayb);
    assert!(plan[1].write_main && !plan[1].write_mayb);
    assert!(!plan[2].write_main && plan[2].write_mayb);
    assert_eq!(plan[2].seconds, 3);
    assert_eq!(plan[0].message, "Thu, 1 Jan 1970 00:00:00 +0000\nchange mode");
}

#[test]
fn commit_plan_rejects_unwritable_time() {
    let snaps = vec![snap(i64::MAX, true, true)];
    assert_eq!(plan_history(&snaps).err(), Some(HistoryError::TimestampOutOfRange));
}

#[test]
fn seconds_round_down() {
    assert_eq!(seconds_of(1999), 1);
    assert_eq!(seconds_of(-1), -1);
    assert_eq!(seconds_of(-1000), -1);
    assert_eq!(seconds_of(-1001), -2);
}

#[test]
fn commit_message_has_time_then_description() {
    assert_eq!(commit_message(86_400_000, "x").unwrap(), "Fri, 2 Jan 1970 00:00:00 +0000\nx");
    assert_eq!(commit_message(i64::MIN, "x"), None);
}

#[test]
fn missing_set_writes_sentinel_only_there() {
    let m = MigrationMap::new();
    let full = card("a", "A");
    let mut missing = card("a", "A");
    missing.set = None;
    let r1 = card_row(&full, &m);
    let r2 = card_row(&missing, &m);
    assert_eq!(r2[1], "~~");
    assert_eq!(r1[1], "neo");
    for j in 0..11 {
        if j != 1 {
            assert_eq!(r1[j], r2[j]);
        }
    }
}

#[test]
fn row_fields_and_sentinels() {
    let mut m = MigrationMap::new();
    m.insert("a".to_string(), "b".to_string(), "New Name".to_string());
    let mut c = card("a", "Old Name");
    c.tags = Some(vec![]);
    c.colors = None;
    c.cmc = None;
    let r = card_row(&c, &m);
    assert_eq!(
        r,
        vec!["New Name", "neo", "12", "Owned", "~~", "Foil", "~~", "~~", "Multicolored", "rare", "Creature"]
    );
    let r = card_row(&card("q", "Q"), &m);
    assert_eq!(r[4], "aggro,red");
    assert_eq!(r[7], "R,G");
}

#[test]
fn board_file_is_tab_separated() {
    let m = MigrationMap::new();
    let rows = package_rows(&vec![card("a", "A")], &m);
    assert_eq!(rows.len(), 2);
    assert_eq!(rows[0][0], "Name");
    let bytes = package_file_bytes(&vec![card("a", "A")], &m).unwrap();
    let text = String::from_utf8(bytes).unwrap();
    assert_eq!(
        text,
        "Name\tSet\tCollectorNumber\tStatus\tTags\tFinish\tCmc\tColors\tColorCategory\tRarity\tTypeLine\n\
         A\tneo\t12\tOwned\taggro,red\tFoil\t3\tR,G\tMulticolored\trare\tCreature\n"
    );
}

#[test]
fn overview_lists_title_image_and_description() {
    assert_eq!(overview_text("Cube", "img", "http://x/y.png", "desc"), "# Cube\n\n![img](http://x/y.png)\ndesc\n");
}

#[test]
fn migrations_build_the_table() {
    let recs = vec![
        MigrationRecord { old_id: "a".into(), new_id: Some("b".into()), is_merge: true, name: Some("B".into()) },
        MigrationRecord { old_id: "c".into(), new_id: None, is_merge: true, name: Some("C".into()) },
        MigrationRecord { old_id: "d".into(), new_id: None, is_merge: false, name: None },
    ];
    let m = merge_map_from_migrations(&recs);
    assert_eq!(m.get(&"a".to_string()), Some(("b".to_string(), "B".to_string())));
    assert_eq!(m.get(&"c".to_string()), None);
    assert_eq!(m.get(&"d".to_string()), Some(("d".to_string(), "Unknown Card".to_string())));
    let (id, name) = resolve(&"c".to_string(), &"Raw".to_string(), &m);
    assert_eq!((id.as_str(), name.as_str()), ("c", "Raw"));
}

#[test]
fn overrides_win_over_table_rows() {
    let mut m = MigrationMap::new();
    m.insert("a".to_string(), "b".to_string(), "B".to_string());
    m.insert("x".to_string(), "y".to_string(), "Y".to_string());
    let mut o = MigrationMap::new();
    o.insert("a".to_string(), "z".to_string(), "Z".to_string());
    m.apply_overrides(&o);
    assert_eq!(m.get(&"a".to_string()), Some(("z".to_string(), "Z".to_string())));
    assert_eq!(m.get(&"x".to_string()), Some(("y".to_string(), "Y".to_string())));
}

#[test]
fn boards_sort_stably_by_position() {
    let mut a = card("a", "A");
    a.position = Some(2);
    let mut b = card("b", "B");
    b.position = Some(1);
    let c = card("c", "C");
    let mut d = card("d", "D");
    d.position = Some(1);
    let s = sorted_by_position(&vec![a, b, c, d]);
    let ids: Vec<&str> = s.iter().map(|x| x.card_id.as_str()).collect();
    assert_eq!(ids, vec!["c", "b", "d", "a"]);
}

#[test]
fn local_client_paths() {
    let c = CubeCobraLocalClient::new("./res/abc".to_string());
    assert_eq!(c.cube_path(), "./res/abc/cube.json");
    assert_eq!(c.history_path(), "./res/abc/history.json");
}
