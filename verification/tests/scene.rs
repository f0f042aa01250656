use breadbin::csdb::{self, Ranked};
use breadbin::demos::{self, Demo, DemoIndex};
use breadbin::grid::{Key, Mouse, Rect};
use breadbin::jukebox::{self, Command, Jukebox, ListRow, VisMode};
use breadbin::single;
use breadbin::tunes::{self, Rng, Tune};

fn owned(v: &[&str]) -> Vec<String> {
    v.iter().map(|s| s.to_string()).collect()
}

#[test]
fn elements_are_read_from_answers() {
    assert_eq!(csdb::between("a<x>b</x>c</x>", "<x>", "</x>"), Some("b".to_string()));
    assert_eq!(csdb::between("a</x><x>b", "<x>", "</x>"), None);
    assert_eq!(csdb::parse_or_zero("4294967295"), u32::MAX);
    assert_eq!(csdb::parse_or_zero("4294967296"), 0);
    assert_eq!(csdb::parse_or_zero("-0"), 0);
    assert_eq!(csdb::event_ws(7), "https://csdb.dk/webservice/?type=event&id=7&depth=1");
    assert_eq!(csdb::release_ws(7, 2), "https://csdb.dk/webservice/?type=release&id=7&depth=2");
    assert_eq!(
        csdb::links("<Link> ftp://x </Link><Link>http://a&amp;b</Link>"),
        owned(&["ftp://x", "http://a&b"])
    );
}

/// The bits of a rating in hundredths.
fn bits(hundredths: u32) -> u32 {
    (hundredths as f32 / 100.0).to_bits()
}

#[test]
fn ratings_are_read_to_the_nearest_number() {
    for t in [
        "9.85", "9.876", "9.865", "9.8650001", "9.875", "9.8765", "9", "9.", ".5", "0.1", "10.03", "0", "-0", "-1.5",
        "+2.25", "1e1", "9.8E-1", "98.5e-1", "1.e2", ".5e+1", "16777216", "16777217", "16777219", "33554435",
        "123456789.987654321", "3.4028235e38", "3.4028236e38", "340282356779733661637539395458142568447",
        "340282356779733661637539395458142568448", "1e39", "1e99", "1e-45", "7e-46", "7.1e-46", "1.1754943e-38",
        "1.1754942e-38", "1e-99", "0e99999999999999999999999999999999999999999", "1e99999999999999999999999999999999999999999",
        "1e-99999999999999999999999999999999999999999", "0.00000000000000000000000000000000000000000000000000000000000000000001e70",
        "inf", "-Infinity", "INF", "8388608.5", "8388609.5", "1.00000005960464477539062500", "1.00000005960464477539062501",
        "1.00000005960464477539062499999999999999999999999999999999999",
    ] {
        let expected = t.parse::<f32>().unwrap();
        assert_eq!(single::parse_single(t), Some(expected.to_bits()), "{t}");
        assert_eq!(csdb::parse_rating(t), expected.to_bits(), "{t}");
    }
    for t in ["", ".", "+", "-", "e5", ".e5", "1e", "1e+", "1e5.0", "1.2.3", " 1", "1 ", "1_0", "best", "infi", "0x1"] {
        assert!(t.parse::<f32>().is_err());
        assert_eq!(single::parse_single(t), None, "{t}");
        assert_eq!(csdb::parse_rating(t), 0, "{t}");
    }
    assert!(f32::from_bits(csdb::parse_rating("NaN")).is_nan());
}

#[test]
fn ratings_are_written_with_two_decimals() {
    for r in [
        9.85f32, 9.876, 9.865, 9.875, 9.885, 0.125, 0.375, 0.005, 0.015, 0.0049, 0.0, -0.0, -1.5, -0.001, 99.995, 131072.02,
        8388608.5, 16777216.0, 123456789.0, 1e-30, f32::MAX, f32::MIN, f32::MIN_POSITIVE, f32::INFINITY, f32::NEG_INFINITY,
        f32::NAN,
    ] {
        let text = csdb::write_rating(r.to_bits());
        assert_eq!(text, format!("{r:.2}"));
        assert_eq!(csdb::write_rating(csdb::parse_rating(&text)), text);
    }
    assert_eq!(csdb::write_rating(csdb::parse_rating("9.876")), "9.88");
    let mut n: u32 = 1;
    for _ in 0..2000 {
        n = n.wrapping_mul(1664525).wrapping_add(1013904223);
        let r = f32::from_bits(n);
        assert_eq!(single::write_single(n), format!("{r:.2}"));
        if !r.is_nan() {
            assert_eq!(single::parse_single(&format!("{r:e}")), Some(n));
            assert_eq!(single::parse_single(&format!("{r}")), Some(n));
        }
    }
}

#[test]
fn ranks_are_in_the_order_of_the_numbers() {
    let sorted = [f32::NEG_INFINITY, -9.5, -1.0, -1e-40, 0.0, 1e-40, 1.0, 9.5, f32::INFINITY];
    for w in sorted.windows(2) {
        assert!(single::rank(w[0].to_bits()) < single::rank(w[1].to_bits()));
    }
    assert_eq!(single::rank((-0.0f32).to_bits()), single::rank(0));
}

#[test]
fn the_list_of_the_best_is_read() {
    let page = r#"<tr><td>1</td><td><a href="/release/?id=145538">Edge &amp; Co</a> by
        <a href="/group/?id=901">Booze</a></td><td>9.85</td></tr>
        <tr><td><a href="/release/?id=9">No rating</a></td></tr>
        <tr><td><a href="/release/?id=77">Solo</a></td><td> 9.1 </td></tr>"#;
    let r = csdb::parse_toplist(page);
    assert_eq!(r.len(), 2);
    assert_eq!((r[0].id, r[0].name.as_str(), r[0].group.as_str(), r[0].rating), (145538, "Edge & Co", "Booze", bits(985)));
    assert_eq!((r[1].id, r[1].group.as_str(), r[1].rating), (77, "", bits(910)));
    assert_eq!(demos::ranked_releases(&page.as_bytes().to_vec(), 1).unwrap().len(), 1);
    assert!(demos::ranked_releases(&b"nothing".to_vec(), 9).is_none());
}

#[test]
fn parties_lose_their_year() {
    assert_eq!(csdb::party_series("X 2018"), "X");
    assert_eq!(csdb::party_series("Mekka & Symposium 1999 "), "Mekka & Symposium");
    assert_eq!(csdb::party_series("2018"), "2018");
    assert_eq!(csdb::party_series("Forever"), "Forever");
    assert_eq!(csdb::clean("a\tb\r\nc"), "a b  c");
}

#[test]
fn small_parties_fold_into_the_last_section() {
    let parties = owned(&["X", "Y", "", "X", "Y", "Y", "Z"]);
    let ratings = vec![900, 950, 999, 990, 100, 200, 1000];
    let by_count = csdb::group_by_party(&parties, &ratings, 2, 10, false);
    assert_eq!(
        by_count,
        vec![
            ("Y".to_string(), vec![1, 5, 4]),
            ("X".to_string(), vec![3, 0]),
            ("Released Outside Parties".to_string(), vec![6, 2]),
        ]
    );
    let by_best = csdb::group_by_party(&parties, &ratings, 2, 2, true);
    assert_eq!(
        by_best,
        vec![
            ("X".to_string(), vec![3, 0]),
            ("Y".to_string(), vec![1, 5]),
            ("Released Outside Parties".to_string(), vec![6, 2]),
        ]
    );
    assert_eq!(csdb::group_by_party(&owned(&["X", "X"]), &vec![1, 2], 2, 5, true).len(), 1);
}

const RELEASE: &str = "<Release><ReleaseYear>2008</ReleaseYear><ScreenShot> http://x/s.GIF </ScreenShot>\
<Place>1</Place><ReleasedAt><Event><ID>42</ID><Name>X 2008</Name></Event></ReleasedAt></Release>";

#[test]
fn releases_of_demos_are_read() {
    let r = demos::parse_release_xml(RELEASE);
    assert_eq!((r.event, r.party.as_str(), r.year, r.place, r.shot.as_str()), (42, "X 2008", 2008, 1, "http://x/s.GIF"));
    let none = demos::read_release(&None);
    assert_eq!((none.event, none.party.as_str(), none.year), (0, "", 0));
    let v = demos::parse_event_xml("<EventType>C64 Only Party</EventType><City> Utrecht</City><Country>NL</Country>");
    assert_eq!((v.event_type.as_str(), v.city.as_str(), v.country.as_str(), v.website.as_str()), ("C64 Only Party", "Utrecht", "NL", ""));
}

#[test]
fn demos_come_back_from_their_index() {
    let mut index = DemoIndex::new();
    let ranked = Ranked { id: 7, name: "Edge\tof".to_string(), group: "Booze".to_string(), rating: bits(985) };
    let release = demos::read_release(&Some(RELEASE.as_bytes().to_vec()));
    assert!(index.wants_venue(42));
    assert!(!index.wants_venue(0));
    index.enter_venue(42, &Some(b"<City>Utrecht</City>".to_vec()));
    assert!(!index.wants_venue(42));
    index.add_demo(&ranked, &release);
    index.add_demo(&ranked, &demos::read_release(&None));
    assert_eq!(
        index.text,
        "7\tEdge of\tBooze\t9.85\tX\t2008\t1\thttp://x/s.GIF\t\tUtrecht\t\t\n7\tEdge of\tBooze\t9.85\t\t0\t0\t\t\t\t\t\n"
    );
    let ds = demos::load_demos(&index.text);
    assert_eq!(ds.len(), 2);
    assert_eq!((ds[0].rating, ds[0].city.as_str(), ds[0].place), (bits(985), "Utrecht", 1));
    let old = demos::load_demos("1\ta\tb\t9.1\tp\t1999\t2\ts\nshort\tline\n");
    assert_eq!(old.len(), 1);
    assert_eq!(old[0].website, "");
}

fn demo(id: u32, name: &str, group: &str, party: &str, rating: u32, year: u32) -> Demo {
    Demo {
        id,
        name: name.to_string(),
        group: group.to_string(),
        rating: bits(rating),
        party: party.to_string(),
        year,
        place: 0,
        shot: String::new(),
        event_type: String::new(),
        city: String::new(),
        country: String::new(),
        website: String::new(),
    }
}

#[test]
fn parties_are_summed_up() {
    let mut a = demo(1, "a", "Booze", "X", 900, 2008);
    a.event_type = "C64 Only".to_string();
    a.city = "Utrecht".to_string();
    a.website = "http://old".to_string();
    let mut b = demo(2, "b", "Oxyron", "X", 910, 2012);
    b.city = "Someren".to_string();
    b.country = "NL".to_string();
    b.website = "http://new".to_string();
    let mut c = demo(3, "c", "Booze", "X", 920, 0);
    c.city = "Someren".to_string();
    let all = vec![a, b, c];
    let s = demos::party_summary(&all, &vec![2, 1, 0]);
    assert_eq!(s.headline, "C64 Only   \u{b7}   Someren, NL   \u{b7}   2008\u{2013}2012");
    assert_eq!(s.website, "http://new");
    assert_eq!(s.groups, owned(&["Booze", "Oxyron"]));
    let lines = demos::info_lines(&s, 30);
    assert_eq!(lines.len(), 3);
    assert_eq!(lines[1], ("Groups: ".to_string(), "Booze, Oxyron".to_string()));
    assert_eq!(lines[0].1.chars().count(), 26);
    assert_eq!(demos::info_rows(lines.len(), 40), 4);
    assert_eq!(demos::info_rows(lines.len(), 3), 2);
    assert_eq!(demos::info_rows(0, 40), 0);
    assert_eq!(demos::info_rows(65534, 65535), 65534);
    assert_eq!(demos::group_by_party(&all)[0].1, vec![2, 1, 0]);
}

#[test]
fn images_are_prepared_from_downloads() {
    let d = demo(12, "Edge of Disgrace!", "Booze", "X", 900, 2008);
    let raw = demos::prepare(&d, "http://x/y/demo.PRG", &vec![1, 2, 3]).unwrap();
    assert_eq!(raw.name, "12_Edge_of_Disgrace_.prg");
    assert!(raw.unpacked.is_none());
    assert_eq!(
        demos::prepare(&d, "http://x/y/demo.txt", &vec![1]).err(),
        Some("the demo download is not a recognised C64 image".to_string())
    );
    assert!(demos::prepare(&d, "http://x/y.d64", &b"PKnonsense".to_vec()).unwrap_err().starts_with("bad zip: "));
    assert!(demos::is_downloaded(12, "12_Edge_of_Disgrace_.prg"));
    assert!(!demos::is_downloaded(1, "12_Edge_of_Disgrace_.prg"));
    assert_eq!(
        demos::demo_link(&b"<Link>ftp://a</Link><Link>http://b</Link>".to_vec()),
        Ok("http://b".to_string())
    );
    assert_eq!(
        demos::demo_link(&b"<Link>ftp://a</Link>".to_vec()),
        Err("no downloadable (http) link for this demo on CSDb".to_string())
    );
}

#[test]
fn an_empty_archive_holds_no_image() {
    let d = demo(1, "x", "g", "", 1, 1);
    let mut empty = b"PK\x05\x06".to_vec();
    empty.resize(22, 0);
    assert_eq!(
        demos::prepare(&d, "http://x/y.zip", &empty).err(),
        Some("no runnable disk/program image inside the demo archive".to_string())
    );
}

#[test]
fn screenshots_are_kept_by_number() {
    let mut d = demo(5, "x", "g", "", 1, 1);
    assert_eq!(demos::shot_file(&d), None);
    d.shot = "http://x/a.JPEG".to_string();
    assert_eq!(demos::shot_file(&d), Some("5.jpeg".to_string()));
    d.shot = "http://x/a.php".to_string();
    assert_eq!(demos::shot_file(&d), Some("5.png".to_string()));
    assert!(demos::is_shot(200) && !demos::is_shot(199));
}

#[test]
fn cards_say_who_and_when() {
    let mut d = demo(5, "Edge", "Booze", "X", 985, 2008);
    assert_eq!(demos::card_name(&d), "Edge");
    d.place = 1;
    assert_eq!(demos::card_name(&d), "\u{2605} Edge");
    assert_eq!(demos::card_meta(&d), "Booze  \u{b7}  '08  \u{b7}  9.85");
    assert_eq!(demos::detail_line(&d), "Booze \u{b7} 2008 \u{b7} X");
    assert_eq!(demos::listed_demo(3, &d), "   3. 9.85  Edge  (Booze '08)");
    assert_eq!(demos::listed_demo(12, &d), "  12. 9.85  Edge  (Booze '08)");
    assert_eq!(demos::section_bar("X", 2, "h"), "  X   (2 demos)   h");
    assert!(demos::section_title("X", 2).starts_with("  X    (top 2)   click"));
    assert_eq!(demos::demo_metrics().target_cw, 22);
}

#[test]
fn releases_of_tunes_are_read() {
    let xml = "<ReleaseYear>1988</ReleaseYear><ReleasedAt><Name>X &amp; Y 2010</Name></ReleasedAt>\
        <Link>http://a.zip</Link><Link>http://b/T.SID</Link>\
        <Credit><CreditType>Code</CreditType><Handle>Nobody</Handle></Credit>\
        <Credit><CreditType>Music</CreditType><Handle><ID>1</ID><Handle>Jeroen &amp; Co</Handle></Handle></Credit>";
    let r = tunes::parse_release_xml(xml);
    assert_eq!((r.composer.as_str(), r.party.as_str(), r.year, r.sid_url.as_str()), ("Jeroen & Co", "X & Y", 1988, "http://b/T.SID"));
    let none = tunes::read_release(&None);
    assert_eq!((none.composer.as_str(), none.sid_url.as_str()), ("", ""));
}

#[test]
fn tunes_come_back_from_their_index() {
    let ranked = Ranked { id: 7, name: "T".to_string(), group: "G".to_string(), rating: bits(950) };
    let mut text = String::new();
    tunes::add_tune(&mut text, &ranked, &tunes::read_release(&None));
    assert_eq!(text, "");
    let r = tunes::parse_release_xml("<Link>http://b.sid</Link><ReleaseYear>1990</ReleaseYear>");
    tunes::add_tune(&mut text, &ranked, &r);
    assert_eq!(text, "7\tT\t\tG\t9.50\t1990\thttp://b.sid\t\n");
    let ts = tunes::load_tunes(&text);
    assert_eq!((ts[0].id, ts[0].rating, ts[0].year, ts[0].sid_url.as_str()), (7, bits(950), 1990, "http://b.sid"));
}

#[test]
fn files_of_tunes_are_checked() {
    let mut b = vec![0u8; 0x7c];
    b[0..4].copy_from_slice(b"RSID");
    assert_eq!(tunes::check_sid(&b), Ok(()));
    assert!(!tunes::is_kept_sid(&b));
    b.push(0);
    assert!(tunes::is_kept_sid(&b));
    assert_eq!(tunes::check_sid(&vec![0; 200]), Err("download was not a SID file".to_string()));
    assert_eq!(tunes::sid_file(9), "9.sid");
    let mut t = tune(1, "a", "", 1);
    assert_eq!(tunes::sid_source(&t), Err("no SID download link for this tune".to_string()));
    t.sid_url = "http://x".to_string();
    assert_eq!(tunes::sid_source(&t), Ok("http://x".to_string()));
}

#[test]
fn chance_is_not_stuck() {
    let mut r = Rng::new(Some(0));
    assert_eq!(r.0, 1);
    assert_eq!(r.next_u64(), 0x0000_0000_4082_2041);
    for _ in 0..1000 {
        assert_ne!(r.next_u64(), 0);
        assert!(r.below(7) < 7);
    }
    assert_eq!(Rng::new(None).0, 0x9e37_79b9_7f4a_7c15);
}

fn tune(id: u32, name: &str, party: &str, rating: u32) -> Tune {
    Tune {
        id,
        name: name.to_string(),
        composer: String::new(),
        group: "G".to_string(),
        party: party.to_string(),
        rating: bits(rating),
        year: 1988,
        sid_url: String::new(),
    }
}

fn jukebox() -> Jukebox {
    Jukebox::new(
        vec![tune(1, "a", "X", 900), tune(2, "b", "X", 950), tune(3, "c", "", 990)],
        Rng::new(Some(5)),
    )
}

#[test]
fn the_list_shows_sections_and_tunes() {
    let j = jukebox();
    assert_eq!(
        j.rows,
        vec![
            ListRow::Header(0), ListRow::Tune(0, 0), ListRow::Tune(0, 1), ListRow::Header(1),
            ListRow::Tune(1, 0),
        ]
    );
    assert_eq!(j.tune_at(0), None);
    assert_eq!(j.tune_at(1), Some(1));
    assert_eq!(j.tune_at(4), Some(2));
    assert_eq!(j.tune_at(5), None);
}

#[test]
fn tunes_are_played_and_followed_by_the_next() {
    let mut j = jukebox();
    assert_eq!(j.browse_key(Key::Enter), Command::Stay);
    assert_eq!(j.browse_key(Key::Down), Command::Stay);
    assert_eq!(j.browse_key(Key::Enter), Command::Play(1));
    assert_eq!(j.loading_text(1), "Loading b ...");
    j.finish(1, &Ok(()));
    assert_eq!(j.now, Some(1));
    assert_eq!(j.player_key(Key::Char('n')), Command::Play(0));
    assert_eq!(j.sel, 2);
    j.finish(0, &Ok(()));
    assert_eq!(j.player_key(Key::Char('n')), Command::Play(2));
    j.finish(2, &Err("no net".to_string()));
    assert_eq!(j.now, None);
    assert_eq!(j.status, "Could not play c: no net");
    j.finish(2, &Ok(()));
    assert_eq!(j.player_key(Key::Char('n')), Command::Stay);
    assert_eq!(j.player_key(Key::Char(' ')), Command::Pause);
    assert_eq!(j.player_key(Key::Left), Command::Back);
    j.back();
    assert_eq!(j.now, None);
    assert_eq!(j.browse_key(Key::Esc), Command::Quit);
}

#[test]
fn the_radio_tries_and_gives_up() {
    let mut j = jukebox();
    let mut tries = 1;
    let mut idx = match j.browse_key(Key::Char('r')) {
        Command::Radio(i) => i,
        _ => panic!("radio"),
    };
    assert!(j.radio);
    while let Some(next) = j.radio_result(idx, &Err("x".to_string())) {
        idx = next;
        tries += 1;
    }
    assert_eq!(tries, 12);
    assert!(!j.radio);
    assert_eq!(j.status, "Radio: could not find a playable tune");
    let idx = j.radio_next();
    assert_eq!(j.radio_result(idx, &Ok(())), None);
    assert_eq!(j.now, Some(idx));
    assert_eq!(j.tune_at(j.sel), Some(idx));
    assert!(Jukebox::radio_should_advance(None));
    assert!(Jukebox::radio_should_advance(Some(90 * 50)));
    assert!(!Jukebox::radio_should_advance(Some(90 * 50 - 1)));
    j.radio = true;
    assert_eq!(j.player_key(Key::Char('r')), Command::Stay);
    assert!(!j.radio);
}

#[test]
fn the_list_scrolls_with_the_cursor() {
    let mut j = jukebox();
    let area = Rect { x: 0, y: 0, width: 40, height: 4 };
    assert_eq!(j.lay_out(area).len(), 2);
    j.sel = 4;
    let rows = j.lay_out(area);
    assert_eq!(j.top, 3);
    assert_eq!(rows[0], (Rect { x: 0, y: 1, width: 40, height: 1 }, 3));
    assert_eq!(j.browse_mouse(Mouse::Click { column: 3, row: 2 }), Command::Play(2));
    assert_eq!(j.browse_mouse(Mouse::Click { column: 3, row: 3 }), Command::Stay);
    assert_eq!(j.browse_mouse(Mouse::ScrollUp), Command::Stay);
    assert_eq!(j.sel, 3);
    assert_eq!(j.browse_mouse(Mouse::ScrollDown), Command::Stay);
    assert_eq!(j.sel, 4);
    assert_eq!(j.browse_key(Key::Tab), Command::Stay);
    assert_eq!(j.sel, 4);
}

#[test]
fn visuals_go_round() {
    let mut j = jukebox();
    assert_eq!(j.mode, VisMode::Scope);
    for name in ["fireball", "cubes", "scope"] {
        j.player_key(Key::Char('v'));
        assert_eq!(j.mode.label(), name);
    }
}

#[test]
fn lines_of_the_jukebox_are_written() {
    let mut j = jukebox();
    assert_eq!(jukebox::header_text("X", 2), " X  (2 tunes)");
    assert_eq!(
        jukebox::tune_text(&j.all[1], true),
        "\u{25b6} \u{2605} b                                   9.50  G  '88"
    );
    assert_eq!(
        jukebox::tune_text(&j.all[0], false),
        "    a                                   9.00  G  '88"
    );
    assert_eq!(j.player_title(0, 50 * 125, false), "  \u{266a} a   by G   (G '88)   02:05   [scope]");
    j.radio = true;
    assert!(j.player_title(0, 0, false).ends_with("00:00   [scope]   [RADIO]"));
    assert!(j.player_title(0, 0, true).ends_with("[PAUSED]"));
}

#[test]
fn voices_and_samples_are_pictured() {
    assert_eq!(jukebox::wave_name(9), "noise");
    assert_eq!(jukebox::wave_name(4), "pulse");
    assert_eq!(jukebox::wave_name(3), "saw");
    assert_eq!(jukebox::wave_name(1), "tri");
    assert_eq!(jukebox::wave_name(0), "-");
    assert_eq!(jukebox::meter_cells(true, 15, 20), 20);
    assert_eq!(jukebox::meter_cells(true, 7, 20), 9);
    assert_eq!(jukebox::meter_cells(false, 15, 20), 0);
    assert_eq!(jukebox::ring_target(44100), 3675);
    assert_eq!(jukebox::frame_len(44100), 882);
    assert_eq!(jukebox::frame_len(10), 1);
    let buf: Vec<i16> = (0..882).collect();
    let s = jukebox::scope_of(&buf);
    assert_eq!(s.len(), 256);
    assert_eq!((s[0], s[1], s[255]), (0, 3, 878));
    assert_eq!(jukebox::peak(&vec![3, -32768, 9]), 32768);
    assert_eq!(jukebox::peak(&Vec::new()), 0);
}
