use breadbin::catalogue::{self, Row};
use breadbin::{build_index, cover, ia_index, info, keyed, kiosk, sections, tapes};

fn owned(v: &[&str]) -> Vec<String> {
    v.iter().map(|s| s.to_string()).collect()
}

fn row(title: &str, genre: &str, downloads: i64) -> Row {
    Row {
        display: format!("{} shown", title),
        status: "available".to_string(),
        target: "ia".to_string(),
        title: title.to_string(),
        query: title.to_string(),
        ident: String::new(),
        genre: genre.to_string(),
        downloads,
    }
}

#[test]
fn rows_are_read_from_an_index() {
    let text = "A \u{2605}5\tlocal\t/a.d64\tA\ta\tid\tArcade\t12\nB\tavailable\tia\tB\tb\nshort\tline\n";
    let rows = catalogue::load_rows(text);
    assert_eq!(rows.len(), 2);
    assert!(rows[0].is_local());
    assert_eq!(rows[0].genre_or_other(), "Arcade");
    assert_eq!(rows[0].downloads, 12);
    assert!(!rows[1].is_local());
    assert_eq!(rows[1].genre_or_other(), "Other");
    assert_eq!(rows[1].downloads, 0);
    assert_eq!(catalogue::canon_of(&rows[0]), "");
    assert_eq!(catalogue::find_local(&rows, "A"), Some("/a.d64".to_string()));
    assert_eq!(catalogue::find_local(&rows, "B"), None);
}

#[test]
fn rows_are_grouped_by_genre() {
    let rows = vec![row("x", "Puzzle", 1), row("y", "", 2), row("z", "Puzzle", 3)];
    assert_eq!(
        catalogue::group_by_genre(&rows),
        vec![("Puzzle".to_string(), vec![0, 2]), ("Other".to_string(), vec![1])]
    );
}

#[test]
fn plays_are_listed_newest_first_and_once() {
    let r = row("Wizball", "Arcade", 1);
    let mut log = "1\tElite\n2\tWizball shown\n3\tElite\nbad\n".to_string();
    assert_eq!(catalogue::recent_plays(&log, None), owned(&["Elite", "Wizball shown"]));
    log.push_str(&catalogue::play_line(4, &r));
    assert_eq!(catalogue::recent_plays(&log, None), owned(&["Wizball shown", "Elite"]));
    assert_eq!(catalogue::recent_plays(&log, Some(1)), owned(&["Wizball shown"]));
    assert_eq!(catalogue::recent_plays(&log, Some(9)), owned(&["Wizball shown", "Elite"]));
    assert!(catalogue::recent_plays("", None).is_empty());
    assert_eq!(catalogue::recent_plays(&catalogue::play_line(4, &r), None), owned(&["Wizball shown"]));
}

#[test]
fn collections_are_read_by_name() {
    let text = "Classics\tWizball (1987)\nMine\tElite\nno title\nClassics\tUltima IV - Quest\tmore\n";
    assert_eq!(
        sections::collections(text),
        vec![
            ("Classics".to_string(), owned(&["wizball", "ultima4"])),
            ("Mine".to_string(), owned(&["elite"])),
        ]
    );
    assert!(sections::collections("").is_empty());
}

#[test]
fn output_of_the_program_is_read() {
    assert_eq!(catalogue::printed_path("a\n/x y.d64\n  \n"), "/x y.d64");
    assert_eq!(catalogue::printed_path(""), "");
    assert_eq!(
        catalogue::error_tail("one\n\n two \nthree\nfour\n"),
        Some("two\nthree\nfour".to_string())
    );
    assert_eq!(catalogue::error_tail(" \n"), None);
}

#[test]
fn sections_are_pinned_and_sorted() {
    let rows = vec![
        row("a", "Puzzle", 5),
        row("b", "", 100),
        row("c", "Arcade", 1),
        row("d", "Shoot'em Up", 2),
        row("e", "Puzzle", 50),
        row("f", "Racing", 60),
    ];
    let s = sections::sections(
        &rows,
        &owned(&["e shown", "gone"]),
        &owned(&["c"]),
        &vec![
            ("mine".to_string(), owned(&["b", "f"])),
            ("empty".to_string(), owned(&["zzz"])),
        ],
    );
    let names: Vec<&str> = s.iter().map(|x| x.0.as_str()).collect();
    assert_eq!(
        names,
        vec![
            "latest played", "classics", "mine", "Arcade", "Shoot'em Up", "Racing", "Puzzle", "Other",
        ]
    );
    assert_eq!(s[0].1, vec![4]);
    assert_eq!(s[2].1, vec![1, 5]);
    assert_eq!(s[6].1, vec![4, 0]);
}

#[test]
fn files_of_the_collection_are_keyed() {
    assert_eq!(build_index::file_key("Last_Ninja_2_(1988)_[4242].tap"), "lastninja2");
    assert_eq!(build_index::file_key("1942 (1986)(Elite).d64"), "1942");
    assert_eq!(build_index::file_key("Wizball 1987 Ocean.d64"), "wizball");
    assert_eq!(build_index::file_key("Elite - Side 1.d64"), "elite");
    assert_eq!(build_index::load_rank("Game_Tape_2_Side_B.tap"), (2, 2));
    assert_eq!(build_index::load_rank("Game Disk C.d64"), (3, 0));
    assert_eq!(build_index::load_rank("Game start.tap"), (1, 1));
    assert_eq!(build_index::load_rank("Game end.tap"), (1, 3));
    assert_eq!(build_index::load_rank("Game.tap"), (1, 0));
    assert!(build_index::local_file("/x/readme.txt", "readme.txt").is_none());
}

#[test]
fn the_index_matches_the_archive_and_the_collection() {
    let names = ["Wizball (Side 2).d64", "Wizball (Side 1)[cr].d64", "Wizball (Side 1).d64"];
    let files: Vec<build_index::LocalFile> = names
        .iter()
        .filter_map(|n| build_index::local_file(&format!("/c/{}", n), n))
        .collect();
    let ia = "wizball\t5\t100\tArcade\twiz_1\tWizball\nelite\t0\t50\tSpace\telite_1\tElite\nparadroid\t4\t9\t\tpara_1\tParadroid\n";
    let downloaded = vec![("para_1".to_string(), "/d/para.d64".to_string())];
    let index = build_index::build(ia, &files, &downloaded);
    assert_eq!(index.n_local, 2);
    assert_eq!(index.n_avail, 1);
    let rows = catalogue::load_rows(&index.text);
    assert_eq!(rows.len(), 3);
    assert_eq!(rows[0].target, "/c/Wizball (Side 1).d64");
    assert_eq!(rows[0].title, "Wizball");
    assert_eq!(rows[0].genre, "Arcade");
    assert_eq!(rows[0].downloads, 100);
    assert!(rows[0].display.contains("\u{2605}5"));
    assert_eq!(rows[1].status, "available");
    assert_eq!(rows[1].target, "ia");
    assert_eq!(rows[2].target, "/d/para.d64");
}

#[test]
fn the_archive_is_ranked_by_rating_and_downloads() {
    let meta = ia_index::gb64_meta(&vec![
        ia_index::GameRow { name: "Wizball".to_string(), rating: Some(5), genre: Some("Arcade".to_string()) },
        ia_index::GameRow { name: "Wizball".to_string(), rating: Some(3), genre: None },
        ia_index::GameRow { name: "Elite".to_string(), rating: Some(-1), genre: Some("(None)".to_string()) },
        ia_index::GameRow { name: "".to_string(), rating: None, genre: None },
    ]);
    assert_eq!(meta.len(), 2);
    let page = ia_index::read_page(
        r#"{"items":[
            {"identifier":"w1","title":"Wizball (1987)","downloads":10},
            {"identifier":"w2","title":"Wizball [cr]","downloads":30},
            {"identifier":"e1","title":"Elite  (UK)","downloads":99},
            {"identifier":"u1","title":"Unknown","downloads":1000}],
            "total":4,"cursor":"next"}"#,
    )
    .unwrap();
    assert_eq!(page.total, 4);
    assert_eq!(page.cursor, Some("next".to_string()));
    assert_eq!(ia_index::next_page(&page), Some("next".to_string()));
    let last = ia_index::read_page(r#"{"items":[{"identifier":"w1"}],"total":1}"#).unwrap();
    assert_eq!(ia_index::next_page(&last), None);
    let empty = ia_index::read_page(r#"{"items":[],"cursor":"more"}"#).unwrap();
    assert_eq!(ia_index::next_page(&empty), None);
    let mut best = Vec::new();
    ia_index::scan_items(&mut best, &meta, &page.items);
    assert_eq!(
        ia_index::ia_index_text(&best, &meta),
        "wizball\t5\t30\tArcade\tw2\tWizball\nelite\t0\t99\t\te1\tElite\n"
    );
    assert!(ia_index::read_page("{").is_err());
    assert!(ia_index::page_url(&Some("c1".to_string())).ends_with("&cursor=c1"));
    assert!(!ia_index::page_url(&None).contains("cursor"));
}

#[test]
fn covers_of_the_best_region_are_indexed() {
    let body = r#"{"tree":[
        {"path":"Named_Boxarts/Wizball (Japan).png"},
        {"path":"Named_Boxarts/Wizball (Europe).png"},
        {"path":"Named_Boxarts/Wizball (USA).png"},
        {"path":"Named_Snaps/Elite.png"},
        {"path":"README.md"}]}"#;
    let text = cover::build_cover_index(body).unwrap();
    let idx = cover::load_index(&text);
    assert_eq!(keyed::get(&idx, "wizball"), Some("Wizball (Europe).png".to_string()));
    assert_eq!(idx.len(), 1);
    assert!(matches!(cover::build_cover_index("x"), Err(cover::CoverError::NotJson)));
    assert!(matches!(cover::build_cover_index("{}"), Err(cover::CoverError::NoTree)));
    assert_eq!(cover::region_rank("X (World).png"), 0);
    assert_eq!(cover::region_rank("X.png"), 3);
}

#[test]
fn covers_come_from_the_set_and_then_from_the_archive() {
    let idx = vec![("wizball".to_string(), "Wizball (Europe).png".to_string())];
    let mut r = row("Wizball", "", 0);
    r.ident = "a/b c".to_string();
    let s = kiosk::cover_for(&r, &idx, "/covers");
    assert_eq!(s.len(), 2);
    assert_eq!(s[0].cache, "/covers/wizball.png");
    assert!(s[0].url.ends_with("Named_Boxarts/Wizball%20%28Europe%29.png"));
    assert_eq!(s[1].cache, "/covers/ia_a_b_c.jpg");
    assert_eq!(s[1].url, "https://archive.org/services/img/a/b c");
    assert!(s[1].may_be_icon);
    assert!(kiosk::cover_for(&row("Elite", "", 0), &idx, "/covers").is_empty());
    assert!(!cover::is_picture(&vec![0; 999]));
    assert!(cover::is_picture(&vec![0; 1000]));
}

#[test]
fn games_are_fetched_and_started_by_the_program() {
    let mut r = row("Wizball", "", 0);
    assert_eq!(kiosk::fetch_args(&r), owned(&["disk", "--source", "ia", "Wizball"]));
    r.ident = "wiz_1".to_string();
    assert_eq!(kiosk::fetch_args(&r), owned(&["disk", "--id", "wiz_1"]));
    assert_eq!(kiosk::retry_text(&r), "Retry:  c64disk --id wiz_1");
    assert_eq!(
        kiosk::retry_text(&row("Elite", "", 0)),
        "Retry:  c64disk --source ia \"Elite\""
    );
    assert_eq!(kiosk::play_args(&owned(&["-w"]), "/x.d64"), owned(&["-w", "/x.d64"]));
    assert_eq!(kiosk::could_not("load", "X"), "Could not load X");
    let b = kiosk::badges(&r, &owned(&["wizball"]), &owned(&["elite"]));
    assert!(b.joystick && !b.top_rated);
    assert_eq!(kiosk::section_bar("Arcade", 3, "hint"), "  A R C A D E (3)   hint");
    assert_eq!(
        kiosk::section_title("Fun", 2),
        "  F U N    (2 games)   click a cover to play \u{b7} esc back \u{b7} q quit"
    );
    assert!(kiosk::overview_header(7).starts_with("C64 kiosk  7 genres"));
    assert_eq!(kiosk::cards_per_row(80, 14), 5);
    assert_eq!(kiosk::cards_per_row(5, 14), 1);
}

#[test]
fn tapes_are_found_by_title() {
    let page = r#"<a href="Wizball_(1987)_%5B1234%5D/">x</a> <a href="Wizard_(1984)_%5B99%5D/">y</a>
        <a href="Wizball_(1987)_%5B1234%5D/">again</a>"#;
    let map = tapes::load_index(page);
    assert_eq!(map.len(), 2);
    assert_eq!(tapes::find_games(&map, "Wizball").len(), 1);
    assert_eq!(tapes::find_games(&map, "wiz").len(), 2);
    assert_eq!(tapes::find_games(&map, "elite").len(), 0);
    assert_eq!(tapes::find_exact(&map, "wizball")[0].0, "Wizball_(1987)_[1234]");
    assert!(tapes::find_substr(&map, "!!").is_empty());
    let folder = r#"<a href="Wizball_Side_1.TAP">a</a><a href="b.tap">b</a><a href="b.tap">b</a>"#;
    let found = tapes::tapes_in_folder(folder, "Wizball_(1987)_%5B1234%5D");
    assert_eq!(found.len(), 2);
    assert!(found[0].1.starts_with("https://uta.pokefinder.org/") || found[0].0.starts_with("https://uta.pokefinder.org/"));
    assert!(tapes::is_tape(&b"C64-TAPE-RAW\x01".to_vec()));
    assert!(!tapes::is_tape(&b"C64-TAPE".to_vec()));
    let mut targets = vec![("a".to_string(), "1".to_string())];
    tapes::add_targets(&mut targets, &vec![("a".to_string(), "2".to_string()), ("b".to_string(), "3".to_string())]);
    assert_eq!(targets.len(), 2);
    assert_eq!(
        tapes::missing_titles("A\tmissing\tx\ty\tWizball\nB\tlocal\tx\ty\tElite\n"),
        owned(&["Wizball"])
    );
}

fn cells(pairs: &[(usize, &str)]) -> Vec<Option<String>> {
    let mut v: Vec<Option<String>> = vec![None; 19];
    for (i, s) in pairs {
        v[*i] = Some(s.to_string());
    }
    v
}

#[test]
fn details_leave_absent_values_out() {
    let r = info::record(&cells(&[
        (0, "Wizball"), (1, "1987"), (2, "Ocean"), (3, "(None)"), (4, "Arcade"), (5, "Shoot'em Up"),
        (9, "1"), (10, "2"), (11, "1"), (12, "5"), (13, "1"), (14, ""), (15, "A  great\ngame"),
        (16, "Site"), (17, "http://x"),
    ]));
    assert_eq!(r.name, "Wizball");
    assert_eq!(r.year, Some("1987".to_string()));
    let labels: Vec<&str> = r.rows.iter().map(|x| x.0.as_str()).collect();
    assert_eq!(labels, vec!["Publisher", "Genre", "Players", "Rating", "Classic", "Link"]);
    assert_eq!(r.rows[1].1, "Arcade / Shoot'em Up");
    assert_eq!(r.rows[2].1, "1-2 (simultaneous)");
    assert_eq!(r.rows[3].1, "5/5");
    assert_eq!(r.rows[5].1, "Site http://x");
    assert_eq!(r.note, Some("A great game".to_string()));
    let shown = info::show(&r);
    assert!(shown.starts_with("\n  Wizball  (1987)\n  ------------------------\n    Publisher   Ocean\n"));
    assert!(shown.ends_with("\n    A great game\n\n"));
}

#[test]
fn notes_are_cut_at_a_word() {
    assert_eq!(info::truncate_note("one two three", 13), "one two three");
    assert_eq!(info::truncate_note("one two three", 9), "one two ...");
    assert_eq!(info::truncate_note("onetwothree", 5), "onetw ...");
    assert_eq!(info::players(Some(2), Some(2), Some(0)), Some("2".to_string()));
    assert_eq!(info::players(Some(1), None, None), Some("1".to_string()));
    assert_eq!(info::players(Some(0), None, Some(1)), None);
}

#[test]
fn database_cells_are_decoded() {
    assert_eq!(info::decode_text(&info::Cell::Text(b"caf\xc3\xa9".to_vec())), Some("café".to_string()));
    assert_eq!(info::decode_text(&info::Cell::Text(b"caf\xe9".to_vec())), Some("café".to_string()));
    assert_eq!(info::decode_text(&info::Cell::Integer(-1)), Some("-1".to_string()));
    assert_eq!(info::decode_text(&info::Cell::Null), None);
    assert_eq!(info::decode_int(&info::Cell::Integer(4)), Some(4));
}

#[test]
fn downloads_of_the_database_are_unpacked() {
    // "hi" in gzip, stored.
    let gz = vec![
        0x1f, 0x8b, 8, 0, 0, 0, 0, 0, 0, 0xff, 1, 2, 0, 0xfd, 0xff, 0x68, 0x69, 0xac, 0x2a, 0x93, 0xd8, 2,
        0, 0, 0,
    ];
    match info::unpack_db(gz.clone()) {
        info::Unpacked::Database(b) => assert_eq!(b, b"hi".to_vec()),
        _ => panic!("well-formed"),
    }
    match info::unpack_db(gz[..14].to_vec()) {
        info::Unpacked::Damaged(_) => {}
        _ => panic!("cut short"),
    }
    match info::unpack_db(b"SQLite format 3\0rest".to_vec()) {
        info::Unpacked::Database(b) => assert_eq!(b.len(), 20),
        _ => panic!("plain database"),
    }
    match info::unpack_db(b"<html>".to_vec()) {
        info::Unpacked::Unexpected => {}
        _ => panic!("a page"),
    }
}

#[test]
fn exact_titles_come_before_others() {
    let hit = |id: i64, name: &str, rating: i64| info::Hit { id, name: name.to_string(), rating };
    let rows = vec![hit(1, "Elite Plus", 5), hit(2, "Elite", 3), hit(3, "Elite", 4)];
    let (all, exact) = info::search(&rows, "elite");
    assert_eq!(exact.iter().map(|h| h.id).collect::<Vec<_>>(), vec![3, 2]);
    assert_eq!(all[0].id, 3);
    assert_eq!(all.len(), 3);
    assert_eq!(info::best_match(&all, &exact), Some(3));
    assert_eq!(info::best_match(&Vec::new(), &Vec::new()), None);
    assert_eq!(info::query_pattern("elite"), "%elite%");
    assert_eq!(info::fallback_patterns("Zak, a McKracken"), owned(&["%Zak%", "%McKracken%"]));
    assert_eq!(
        info::query_sql(2),
        "SELECT GA_Id, Name, Rating FROM Games WHERE Name LIKE ? AND Name LIKE ? COLLATE NOCASE"
    );
}

#[test]
fn ranked_games_are_listed_in_their_order() {
    let meta = ia_index::gb64_meta(&vec![
        ia_index::GameRow { name: "Wizball".to_string(), rating: Some(3), genre: None },
        ia_index::GameRow { name: "Elite".to_string(), rating: Some(5), genre: Some("Space".to_string()) },
    ]);
    let mut best = Vec::new();
    let items = vec![
        ia_index::IaItem { ident: "w1".to_string(), title: "Wizball".to_string(), downloads: 7 },
        ia_index::IaItem { ident: "e1".to_string(), title: "Elite".to_string(), downloads: 3 },
    ];
    ia_index::scan_items(&mut best, &meta, &items);
    let text = ia_index::ia_index_text(&best, &meta);
    let rows = catalogue::load_rows(&build_index::build(&text, &Vec::new(), &Vec::new()).text);
    assert_eq!(rows.len(), 2);
    assert_eq!((rows[0].title.as_str(), rows[0].ident.as_str()), ("Elite", "e1"));
    assert_eq!((rows[1].title.as_str(), rows[1].ident.as_str()), ("Wizball", "w1"));
}
