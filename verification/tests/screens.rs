use breadbin::catalogue::Row;
use breadbin::grid::{self, Action, Key, Metrics, Mode, Mouse, Nav, OFocus, Rect};
use breadbin::info::InfoRecord;
use breadbin::menu::{self, Menu, MenuAction, ViewItem};
use breadbin::{boot, layout};

const AREA: Rect = Rect { x: 0, y: 0, width: 80, height: 41 };

fn groups() -> Vec<(String, Vec<usize>)> {
    vec![
        ("A".to_string(), (0..10).collect()),
        ("B".to_string(), vec![20, 21]),
        ("C".to_string(), vec![30]),
    ]
}

fn nav() -> Nav {
    Nav::new(&groups(), 3, Metrics { ov_section: 20, title_h: 3, target_cw: 20 })
}

#[test]
fn the_cursor_goes_through_titles_and_cards() {
    let n = nav();
    assert_eq!(
        n.ofocus,
        vec![
            OFocus::Title(0), OFocus::Item(0, 0), OFocus::Item(0, 1), OFocus::Item(0, 2), OFocus::Title(1),
            OFocus::Item(1, 0), OFocus::Item(1, 1), OFocus::Title(2), OFocus::Item(2, 0),
        ]
    );
    assert_eq!(n.ofocus_index_of_title(1, &groups()), 4);
    assert_eq!(n.ofocus_index_of_title(2, &groups()), 7);
}

#[test]
fn keys_move_open_and_launch() {
    let g = groups();
    let mut n = nav();
    assert_eq!(n.overview_key(Key::Left, &g), Action::Stay);
    assert_eq!(n.osel, 0);
    assert_eq!(n.overview_key(Key::Right, &g), Action::Stay);
    assert_eq!(n.overview_key(Key::Enter, &g), Action::Launch(0));
    n.overview_key(Key::Left, &g);
    assert_eq!(n.overview_key(Key::Enter, &g), Action::Stay);
    assert_eq!(n.mode, Mode::Section);
    assert_eq!(n.section_key(Key::Down, &g[0].1, 80), Action::Stay);
    assert_eq!(n.sel, 4);
    assert_eq!(n.section_key(Key::Enter, &g[0].1, 80), Action::Launch(4));
    n.section_key(Key::Down, &g[0].1, 80);
    n.section_key(Key::Down, &g[0].1, 80);
    assert_eq!(n.sel, 9);
    n.section_key(Key::Up, &g[0].1, 80);
    assert_eq!(n.sel, 5);
    assert_eq!(n.section_key(Key::Char('q'), &g[0].1, 80), Action::Quit);
    assert_eq!(n.section_key(Key::Esc, &g[0].1, 80), Action::Stay);
    assert_eq!(n.mode, Mode::Overview);
    assert_eq!(n.overview_key(Key::Esc, &g), Action::Quit);
}

#[test]
fn the_overview_scrolls_to_the_cursor() {
    let g = groups();
    let mut n = nav();
    let o = n.overview_geometry(AREA, g.len());
    assert_eq!((o.visible, o.section_h, o.card_h, o.card_w), (2, 20, 16, 26));
    n.osel = 8;
    assert_eq!(n.focused_section(), 2);
    n.scroll_overview(AREA, g.len());
    assert_eq!(n.otop, 1);
    let slots = n.overview_layout(AREA, &g);
    assert_eq!(slots.len(), 5);
    assert_eq!(n.overview_mouse(Mouse::Click { column: 30, row: 6 }, &g), Action::Launch(21));
    assert_eq!(n.osel, 6);
}

#[test]
fn the_grid_lies_below_its_head() {
    let mut n = nav();
    let area = Rect { x: 0, y: 0, width: 80, height: 41 };
    let cells = n.grid_layout(area, 1, 10, 10);
    assert_eq!(cells.len(), 10);
    assert_eq!(cells[0], (Rect { x: 0, y: 1, width: 20, height: 10 }, 0));
    assert_eq!(cells[5], (Rect { x: 20, y: 11, width: 20, height: 10 }, 5));
    let cells = n.grid_layout(area, 5, 10, 10);
    assert_eq!(cells[0], (Rect { x: 0, y: 5, width: 20, height: 12 }, 0));
    n.mode = Mode::Section;
    let items: Vec<usize> = (100..110).collect();
    assert_eq!(n.section_mouse(Mouse::Click { column: 25, row: 18 }, &items, 80), Action::Launch(105));
    assert_eq!(grid::hit(&n.grid_rects, 79, 40), None);
}

#[test]
fn dialogs_are_centred() {
    let area = Rect { x: 0, y: 0, width: 100, height: 40 };
    let r = layout::error_rect(area, "one line");
    assert_eq!((r.width, r.x), (60, 20));
    assert!(r.height >= 5);
    assert!(layout::error_rect(area, "a\nb\nc").height > r.height);
}

fn row(title: &str, genre: &str, status: &str) -> Row {
    Row {
        display: title.to_string(),
        status: status.to_string(),
        target: "/t".to_string(),
        title: title.to_string(),
        query: title.to_string(),
        ident: String::new(),
        genre: genre.to_string(),
        downloads: 0,
    }
}

fn a_menu() -> Menu {
    Menu::new(vec![
        row("Wizball", "Arcade", "local"),
        row("Elite", "Space", "available"),
        row("Wizard", "Arcade", "available"),
    ])
}

#[test]
fn groups_open_and_close() {
    let mut m = a_menu();
    assert_eq!(m.view.len(), 2);
    assert_eq!(m.local_count, 1);
    assert_eq!(m.handle_key(Key::Enter), MenuAction::Stay);
    assert_eq!(m.view.len(), 4);
    assert_eq!(m.handle_key(Key::Down), MenuAction::Stay);
    assert_eq!(m.handle_key(Key::Enter), MenuAction::Chosen(0));
    m.handle_key(Key::Right);
    assert!(m.detail_open);
    m.handle_key(Key::Left);
    assert!(!m.detail_open);
    m.handle_key(Key::Left);
    assert_eq!(m.view.len(), 2);
    assert_eq!(m.sel, 0);
}

#[test]
fn typing_filters_the_menu() {
    let mut m = a_menu();
    m.handle_key(Key::Char('w'));
    m.handle_key(Key::Char('i'));
    assert_eq!(m.filter, "wi");
    assert_eq!(m.view.len(), 3);
    assert!(matches!(&m.view[0], ViewItem::Group { count: 2, expanded: true, .. }));
    m.handle_key(Key::Backspace);
    m.handle_key(Key::Backspace);
    assert_eq!(m.view.len(), 2);
    m.set_filter("zzz".to_string());
    assert!(m.view.is_empty());
}

#[test]
fn the_card_pushes_lines_down() {
    let mut m = a_menu();
    m.handle_key(Key::Enter);
    m.handle_key(Key::Down);
    m.handle_key(Key::Right);
    let s = m.lay_out(24).unwrap();
    assert_eq!(s.card, Some((0, 3, 11)));
    assert_eq!(s.rows, vec![(1, 0), (2, 1), (14, 2), (15, 3)]);
    m.handle_mouse(Mouse::Click { column: 0, row: 14 }, &s);
    assert_eq!(m.sel, 2);
    assert!(m.lay_out(2).is_none());
}

#[test]
fn details_fit_the_card() {
    let r = row("Wizball", "Arcade", "local");
    let rec = InfoRecord {
        name: "Wizball".to_string(),
        year: Some("1987".to_string()),
        rows: vec![
            ("Genre".to_string(), "Arcade".to_string()),
            ("Programmer".to_string(), "Jon Hare".to_string()),
            ("Music".to_string(), "Martin Galway".to_string()),
            ("Rating".to_string(), "5/5".to_string()),
        ],
        note: Some("a fine game about colour".to_string()),
    };
    let lines: Vec<String> = menu::detail_text(&r, Some(&rec), 30, 20).iter().map(|l| l.text.clone()).collect();
    assert_eq!(
        lines,
        vec![
            "Wizball  (1987)", "Arcade", "Jon Hare \u{b7} \u{266a} Martin Galway", "\u{2605}5/5", "",
            "a fine game about colour",
        ]
    );
    assert_eq!(menu::detail_text(&r, Some(&rec), 30, 2).len(), 2);
    assert_eq!(menu::detail_text(&r, None, 30, 9)[1].text, "(no GameBase64 entry)");
}

#[test]
fn the_power_on_screen_types_the_command() {
    assert_eq!(boot::boot_lines(0).unwrap().len(), 7);
    let at = |t: u64| boot::boot_lines(t).unwrap().last().unwrap().clone();
    assert_eq!(at(0), "\u{2588}");
    assert_eq!(at(400), " ");
    assert_eq!(at(650 + 45 * 4), "LOAD\u{2588}");
    assert_eq!(at(1500), "LOAD\"BREADBIN\",8,1");
    assert_eq!(at(2645), "RUN");
    assert!(boot::boot_lines(3095).is_none());
    assert_eq!(boot::typed_prefix("abc", 100, 0), "abc");
    assert_eq!(boot::typed_prefix("abc", 90, 45), "ab");
}

#[test]
fn the_loading_screen_stays_for_a_while() {
    assert_eq!(
        boot::loading_lines("Wizball", 0),
        vec!["".to_string(), "SEARCHING FOR WIZBALL".to_string(), "\u{2588}".to_string()]
    );
    assert_eq!(boot::loading_lines("x", 450).len(), 4);
    assert!(boot::still_loading(true, 699));
    assert!(boot::still_loading(false, 5000));
    assert!(!boot::still_loading(true, 700));
    assert_eq!(boot::stripe(3, 120, 4), 1);
    let r = boot::shrink(Rect { x: 0, y: 0, width: 80, height: 24 }, 2, 1);
    assert_eq!(r, Rect { x: 2, y: 1, width: 76, height: 22 });
    let r = boot::shrink(Rect { x: 0, y: 0, width: 3, height: 1 }, 2, 1);
    assert_eq!(r, Rect { x: 1, y: 0, width: 0, height: 0 });
}
