use breadbin::releases::{Handle, Item};
use breadbin::{disk, downloads, releases, search, tosec};

fn owned(v: &[&str]) -> Vec<String> {
    v.iter().map(|s| s.to_string()).collect()
}

fn item(reff: &str, title: &str) -> Item {
    (Handle { src: "ia", reff: reff.to_string() }, title.to_string())
}

fn titles(v: &[Item]) -> Vec<String> {
    v.iter().map(|i| i.1.clone()).collect()
}

#[test]
fn a_title_says_which_disk_it_is() {
    assert_eq!(releases::disk_no("Ultima IV (Disk 2 of 4)"), 2);
    assert_eq!(releases::disk_no("Ultima IV"), 1);
    assert_eq!(releases::side_no("Wizball Side B"), 2);
    assert_eq!(releases::side_no("Wizball Side 3"), 3);
    assert_eq!(releases::side_no("Wizball"), 0);
}

#[test]
fn the_fullest_release_wins() {
    let items = vec![
        item("1", "Pirates (1987)(MicroProse)(Disk 1 of 2)[cr Remember]"),
        item("2", "Pirates (1987)(MicroProse)(Disk 2 of 2)"),
        item("3", "Pirates (1987)(MicroProse)(Disk 1 of 2)"),
    ];
    let best = releases::best_release(items);
    assert_eq!(
        titles(&best),
        owned(&[
            "Pirates (1987)(MicroProse)(Disk 1 of 2)",
            "Pirates (1987)(MicroProse)(Disk 2 of 2)",
        ])
    );
    assert_eq!(disk::coverage(&best), (2, 2));
    assert!(releases::best_release(Vec::new()).is_empty());
}

#[test]
fn web_pages_are_no_disks() {
    assert!(disk::is_disk(&vec![0x12; 1024]));
    assert!(!disk::is_disk(&vec![0x12; 1023]));
    let mut page = b" \t\r\n<html>".to_vec();
    page.resize(4000, 0x61);
    assert!(!disk::is_disk(&page));
    assert!(disk::is_disk(&vec![0x20; 1024]));
}

#[test]
fn searches_leave_small_words_out() {
    assert_eq!(disk::words_of("The Last Ninja of the West"), owned(&["last", "ninja", "west"]));
    assert_eq!(disk::words_of("The A"), owned(&["the a"]));
    assert!(disk::ia_search_url("Last Ninja").contains("title%3A%28last+OR+ninja%29"));
}

#[test]
fn answers_of_the_archive_are_read() {
    let answer = r#"{"response":{"docs":[
        {"identifier":"wiz_1","title":"Wizball"},
        {"identifier":"x2"},
        {"title":"No id"}]}}"#;
    let found = disk::search_ia(answer).unwrap();
    assert_eq!(found[0].0.reff, "wiz_1");
    assert_eq!(found[0].1, "Wizball");
    assert_eq!(found[1].0.reff, "x2");
    assert!(disk::search_ia("nonsense").is_err());
    assert!(disk::search_ia("{}").unwrap().is_empty());
}

#[test]
fn the_best_kind_of_file_is_taken() {
    let meta = r#"{"files":[{"name":"b.D64"},{"name":"a.d64"},{"name":"c.tap"},{"size":1},{"name":"z.g64"}]}"#;
    assert_eq!(downloads::item_files(meta), owned(&["a.d64", "b.D64"]));
    assert!(downloads::item_files("no json").is_empty());
    assert_eq!(
        disk::member_to_get(&owned(&["readme.txt", "long name.d64", "x.d64", "y.d64", "z.g64"])),
        Some("x.d64".to_string())
    );
    assert_eq!(disk::member_to_get(&owned(&["readme.txt"])), None);
}

#[test]
fn a_query_is_resolved_to_one_game() {
    let results = vec![
        item("1", "Wizball (1987)(Ocean)"),
        item("2", "Wizard of Wor (1983)"),
    ];
    match search::resolve("wizball", false, &results) {
        search::Resolution::Settled(v) => assert_eq!(titles(&v), owned(&["Wizball (1987)(Ocean)"])),
        search::Resolution::Choose(_) => panic!("nothing to choose"),
    }
    match search::resolve("wizbal", true, &results) {
        search::Resolution::Settled(v) => assert!(v.is_empty()),
        search::Resolution::Choose(_) => panic!("strict"),
    }
    match search::resolve("", false, &results) {
        search::Resolution::Settled(v) => assert!(v.is_empty()),
        search::Resolution::Choose(_) => panic!("empty"),
    }
    match search::resolve("wizbal", false, &results) {
        search::Resolution::Settled(v) => assert_eq!(titles(&v), owned(&["Wizball (1987)(Ocean)"])),
        search::Resolution::Choose(v) => assert_eq!(v.len(), 2),
    }
}

#[test]
fn sources_are_not_mixed() {
    let mut c = search::Chooser::new(true);
    assert!(!c.consider(Vec::new()));
    assert!(!c.consider(vec![item("1", "Pirates (Disk 1 of 2)")]));
    assert!(c.consider(vec![
        item("2", "Pirates (Disk 1 of 2)"),
        item("3", "Pirates (Disk 2 of 2)"),
    ]));
    assert_eq!(c.best.len(), 2);
    let mut loose = search::Chooser::new(false);
    assert!(loose.consider(vec![item("1", "Pirates (Disk 1 of 2)")]));
}

#[test]
fn missing_titles_are_those_not_owned() {
    let index = "Wizball\tlocal\t/x\tWizball\twizball\nElite\tavailable\tia\tElite\telite\n";
    let popularity = "1\t2\t3\tWizball\n1\t2\t3\tElite: Gold\n1\t2\tshort\n";
    assert_eq!(search::missing_titles(index, popularity), owned(&["Elite"]));
}

#[test]
fn downloads_are_remembered_by_identifier() {
    let t = search::record_download("b\t/old\n", "a", "/new");
    assert_eq!(t, "a\t/new\nb\t/old\n");
    assert_eq!(search::record_download(&t, "b", "/newer"), "a\t/new\nb\t/newer\n");
}

#[test]
fn handles_say_how_a_disk_is_downloaded() {
    match downloads::download(&Handle { src: "tosec", reff: "https://x/y.zip".to_string() }) {
        downloads::Download::Tosec(u) => assert_eq!(u, "https://x/y.zip"),
        downloads::Download::Item(_) => panic!("source"),
    }
    match downloads::download(&Handle { src: "ia", reff: "wiz_1".to_string() }) {
        downloads::Download::Item(i) => assert_eq!(i, "wiz_1"),
        downloads::Download::Tosec(_) => panic!("source"),
    }
    assert_eq!(downloads::meta_url("wiz_1"), "https://archive.org/metadata/wiz_1");
    assert_eq!(
        downloads::file_url("wiz_1", "a b.d64"),
        "https://archive.org/download/wiz_1/a%20b.d64"
    );
}

#[test]
fn files_are_fetched_once() {
    assert_eq!(downloads::step(true, Some(5)), downloads::Step::Listed);
    assert_eq!(downloads::step(false, Some(5)), downloads::Step::There);
    assert_eq!(downloads::step(false, Some(0)), downloads::Step::Fetch);
    assert_eq!(downloads::step(false, None), downloads::Step::Fetch);
    assert_eq!(downloads::step_note(downloads::Step::Listed, "a"), "    would download: a");
    assert_eq!(downloads::step_note(downloads::Step::There, "a"), "    exists, skip: a");
    assert_eq!(downloads::saved_note("a.d64", 174848), "    saved: a.d64 (170 KB)");
    assert_eq!(downloads::listed_name("A/B"), "A-B.d64");
    assert_eq!(
        downloads::check_file(&b"<html>".to_vec(), "x.d64"),
        Err("    !! not a disk image (6B) - skipped: x.d64".to_string())
    );
    assert_eq!(downloads::check_file(&vec![0u8; 2000], "x.d64"), Ok(()));
}

#[test]
fn incomplete_games_are_marked() {
    assert_eq!(
        downloads::disks_note(&owned(&["Pirates_(Disk_1_of_2).d64", "Pirates_(Disk_2_of_2).d64"])),
        "2/2 disk(s)"
    );
    assert_eq!(
        downloads::disks_note(&owned(&["Pirates_(Disk_1_of_2).d64"])),
        "1/2 disk(s)  \u{26a0} incomplete - only 1 of 2 found"
    );
    assert_eq!(downloads::total_note(true, 3, 1), "would download 3 disk image(s) for 1 game(s).");
}

#[test]
fn archives_that_are_damaged_are_refused() {
    match downloads::find_member(&b"PK nonsense".to_vec(), "t") {
        Err(e) => assert!(e.starts_with("    !! bad TOSEC zip: ")),
        Ok(_) => panic!("damaged"),
    }
}

// A stored (uncompressed) archive, written by hand.
fn stored_zip(files: &[(&str, &[u8])]) -> Vec<u8> {
    fn crc(data: &[u8]) -> u32 {
        let mut c = 0xffff_ffffu32;
        for b in data {
            c ^= *b as u32;
            for _ in 0..8 {
                c = if c & 1 == 1 { (c >> 1) ^ 0xedb8_8320 } else { c >> 1 };
            }
        }
        !c
    }
    let mut out = Vec::new();
    let mut dir = Vec::new();
    for (name, data) in files {
        let at = out.len() as u32;
        let n = name.len() as u16;
        let len = data.len() as u32;
        out.extend([0x50, 0x4b, 3, 4, 10, 0, 0, 0, 0, 0, 0, 0, 0x21, 0]);
        out.extend(crc(data).to_le_bytes());
        out.extend(len.to_le_bytes());
        out.extend(len.to_le_bytes());
        out.extend(n.to_le_bytes());
        out.extend([0, 0]);
        out.extend(name.as_bytes());
        out.extend(*data);
        dir.extend([0x50, 0x4b, 1, 2, 10, 0, 10, 0, 0, 0, 0, 0, 0, 0, 0x21, 0]);
        dir.extend(crc(data).to_le_bytes());
        dir.extend(len.to_le_bytes());
        dir.extend(len.to_le_bytes());
        dir.extend(n.to_le_bytes());
        dir.extend([0; 12]);
        dir.extend(at.to_le_bytes());
        dir.extend(name.as_bytes());
    }
    let start = out.len() as u32;
    let size = dir.len() as u32;
    let count = files.len() as u16;
    out.extend(dir);
    out.extend([0x50, 0x4b, 5, 6, 0, 0, 0, 0]);
    out.extend(count.to_le_bytes());
    out.extend(count.to_le_bytes());
    out.extend(size.to_le_bytes());
    out.extend(start.to_le_bytes());
    out.extend([0, 0]);
    out
}

#[test]
fn images_are_unpacked_from_archives() {
    let image = vec![0x41u8; 1500];
    let zip = stored_zip(&[("readme.txt", b"hello"), ("dir/longer.d64", b"x"), ("a.D64", &image)]);
    let m = downloads::find_member(&zip, "Wiz/ball").unwrap();
    assert_eq!(m.name, "a.D64");
    assert_eq!(m.file, "Wiz-ball.D64");
    assert_eq!(downloads::unpack_member(&zip, &m), Ok(image));
    let gone = downloads::Member { name: "gone.d64".to_string(), file: "g".to_string() };
    assert_eq!(
        downloads::unpack_member(&zip, &gone),
        Err("    !! could not read zip member".to_string())
    );
    let page = stored_zip(&[("a.d64", b"<html>")]);
    let m = downloads::find_member(&page, "t").unwrap();
    assert_eq!(
        downloads::unpack_member(&page, &m),
        Err("    !! not a disk image - skipped: t.d64".to_string())
    );
    let none = stored_zip(&[("readme.txt", b"hello")]);
    match downloads::find_member(&none, "t") {
        Err(e) => assert_eq!(e, "    (no disk image in TOSEC zip)"),
        Ok(_) => panic!("nothing in it"),
    }
}

#[test]
fn listings_keep_one_link_for_each_disk() {
    let page = r#"<a href="//archive.org/download/t/x.zip/C64%2FGames%2F%5BG64%5D%2FWizball.zip">a</a>
        <a href="//archive.org/download/t/x.zip/C64%2FGames%2F%5BD64%5D%2FWizball.zip">b</a>
        <a href="//archive.org/download/t/x.zip/C64%2FGames%2F%5BD64%5D%2FElite%20%28Disk%201%29.zip">c</a>
        <a href="//archive.org/download/t/x.zip/C64%2FDemos%2F%5BD64%5D%2FOther.zip">d</a>"#;
    let (text, n) = tosec::build_tosec_index(page);
    assert_eq!(n, 2);
    let es = tosec::tosec_entries(&text);
    assert_eq!(es[0].0, "Elite (Disk 1)");
    assert_eq!(es[1].0, "Wizball");
    assert!(es[1].1.contains("%5BD64%5D"));
    assert!(es[1].1.starts_with("https://archive.org/download/"));
    let found = tosec::search_tosec(&es, "elite");
    assert_eq!(found.len(), 1);
    assert_eq!(found[0].0.src, "tosec");
    let release = tosec::release_of_game(&es, "wizball");
    assert_eq!(release.len(), 1);
}

#[test]
fn the_menu_shows_the_cleanest_title_of_a_game() {
    let es = vec![
        ("Wizball (1987)[cr X][t]".to_string(), "u1".to_string()),
        ("Wizball (1987)".to_string(), "u2".to_string()),
        ("(1987)".to_string(), "u3".to_string()),
    ];
    let games = tosec::games_for_menu(&es);
    assert_eq!(games.len(), 1);
    assert_eq!(tosec::menu_text(&games), "Wizball (1987)\twizball");
}

#[test]
fn the_lowest_disk_boots() {
    let files = owned(&["Game_(Disk_2).d64", "Game_(Disk_1_Side_B).d64", "Game_(Disk_1_Side_A).d64"]);
    assert_eq!(tosec::boot_fallback(&files), "Game_(Disk_1_Side_A).d64");
    let index = "X\tavailable\t/d/a.d64\nY\tlocal\t/d/b.d64\n";
    assert_eq!(tosec::boot_in_index(index, &owned(&["/d/a.d64", "/d/b.d64"])), Some("/d/b.d64".to_string()));
    assert_eq!(tosec::boot_in_index(index, &owned(&["/d/a.d64"])), None);
}

#[test]
fn the_line_of_the_menu_names_its_game() {
    assert_eq!(
        tosec::game_chosen("Wizball (1987)\twizball\n"),
        Some(("Wizball (1987)".to_string(), "wizball".to_string()))
    );
    assert_eq!(tosec::game_chosen(" \n"), None);
}
