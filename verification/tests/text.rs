use breadbin::{grouping, keyed, layout, order, paths, table, text};

fn owned(v: &[&str]) -> Vec<String> {
    v.iter().map(|s| s.to_string()).collect()
}

#[test]
fn numbers_are_written_and_read() {
    assert_eq!(text::int_text(-120), "-120");
    assert_eq!(text::int_text(i64::MIN), "-9223372036854775808");
    assert_eq!(text::decimal_text(0), "0");
    assert_eq!(text::decimal_text(u64::MAX), u64::MAX.to_string());
    for n in [0i64, 7, -7, 10, 99, 100, i64::MAX, i64::MIN] {
        assert_eq!(text::parse_i64(&text::int_text(n)), Some(n));
    }
    assert_eq!(text::parse_u64("+7"), Some(7));
    assert_eq!(text::parse_u64("-7"), None);
    assert_eq!(text::parse_u64("18446744073709551616"), None);
    assert_eq!(text::parse_i64(""), None);
    assert_eq!(text::parse_i64("+"), None);
    assert_eq!(text::parse_i64("1 "), None);
}

#[test]
fn texts_are_compared_and_searched() {
    assert!(text::same("naïve", "naïve"));
    assert!(!text::same("naïve", "naive"));
    assert!(text::contains("Wizball", "ball"));
    assert!(!text::contains("Wizball", "Ball"));
    assert!(text::contains("", ""));
    assert!(text::starts_with("c64run", "c64"));
    assert!(!text::starts_with("c6", "c64"));
    assert!(text::ends_with("a.d64", ".d64"));
    assert_eq!(text::trim("  \u{a0}x y\t\n"), "x y");
    assert_eq!(text::count("a[b][c]", '['), 2);
    assert_eq!(text::replace("aaa", "aa", "b"), "ba");
    assert_eq!(text::to_ascii_lowercase("ÄBC"), "Äbc");
}

#[test]
fn texts_are_split_and_joined() {
    assert_eq!(text::split("a\tb\t", '\t'), owned(&["a", "b", ""]));
    assert_eq!(text::split("", '\t'), owned(&[""]));
    assert_eq!(text::splitn("a\tb\tc", '\t', 2), owned(&["a", "b\tc"]));
    assert_eq!(text::lines("a\r\nb\n\nc"), owned(&["a", "b", "", "c"]));
    assert_eq!(text::lines(""), owned(&[]));
    assert_eq!(
        text::split_once("k\tv\tw", '\t'),
        Some(("k".to_string(), "v\tw".to_string()))
    );
    assert_eq!(text::split_once("k", '\t'), None);
    assert_eq!(text::join(&owned(&["a", "b"]), ", "), "a, b");
}

#[test]
fn records_come_back_from_a_table() {
    let rs = vec![owned(&["a", "", "c d"]), owned(&["x"])];
    let t = table::write_records(&rs);
    assert_eq!(t, "a\t\tc d\nx\n");
    assert_eq!(table::records(&t), rs);
}

#[test]
fn sorting_is_stable() {
    let keys = vec![(2i64, 0i64), (1, 5), (2, 0), (1, 4)];
    assert_eq!(order::order_by_pairs(&keys), vec![3, 1, 0, 2]);
    let counts = vec![(2u64, 0u64), (3, 1), (3, 2), (2, 0)];
    assert_eq!(order::order_by_counts(&counts), vec![2, 1, 0, 3]);
    assert_eq!(
        order::sort_texts(&owned(&["b", "a", "é", "Z", "a"])),
        owned(&["Z", "a", "a", "b", "é"])
    );
}

#[test]
fn groups_keep_the_order_of_the_list() {
    let g = grouping::group(&owned(&["x", "y", "x", "", "y"]));
    assert_eq!(
        g,
        vec![
            ("x".to_string(), vec![0, 2]),
            ("y".to_string(), vec![1, 4]),
            ("".to_string(), vec![3]),
        ]
    );
}

#[test]
fn the_last_entry_of_a_key_wins() {
    let mut v: Vec<(String, String)> = Vec::new();
    keyed::put(&mut v, "a".to_string(), "1".to_string());
    keyed::put(&mut v, "b".to_string(), "2".to_string());
    keyed::put(&mut v, "a".to_string(), "3".to_string());
    assert_eq!(keyed::get(&v, "a"), Some("3".to_string()));
    assert_eq!(keyed::get(&v, "b"), Some("2".to_string()));
    assert_eq!(keyed::get(&v, "c"), None);
    assert_eq!(v.len(), 2);
}

#[test]
fn texts_are_fitted_to_the_screen() {
    assert_eq!(layout::trunc("Wizball", 7), "Wizball");
    assert_eq!(layout::trunc("Wizball", 4), "Wiz\u{2026}");
    assert_eq!(layout::trunc("Wizball", 0), "");
    assert_eq!(layout::spaced_upper("Arcade"), "A R C A D E");
    assert_eq!(
        layout::wrap("the quick brown fox", 9),
        owned(&["the quick", "brown fox"])
    );
    assert_eq!(layout::wrap("ab cdefghijklm no", 5), owned(&["ab cd", "efghi", "jklm", "no"]));
    assert_eq!(layout::wrap("abcd efghijk", 5), owned(&["abcd", "efghi", "jk"]));
    assert_eq!(layout::wrap("abcdefghij", 5), owned(&["abcde", "fghij"]));
    assert_eq!(layout::wrap("abc", 1), owned(&["a", "b", "c"]));
    assert!(layout::wrap("abc", 0).is_empty());
    assert_eq!(layout::split_whitespace(" a  b\n"), owned(&["a", "b"]));
}

#[test]
fn paths_are_taken_apart_like_the_standard_library_does() {
    for p in [
        "a/b.png", "b.png", ".hidden", "a/.hidden", "a.tar.gz", "dir/", "dir/.", "..", ".", "/", "",
        "a/..", "a/../b.c", "http://x.org/p/q.GIF", "x.", "/.", "a//b.d64", "./x.y", "a/./.",
    ] {
        let path = std::path::Path::new(p);
        assert_eq!(
            paths::file_name(p),
            path.file_name().map(|s| s.to_string_lossy().into_owned()),
            "{}",
            p
        );
        assert_eq!(
            paths::extension(p),
            path.extension().map(|s| s.to_string_lossy().into_owned()),
            "{}",
            p
        );
        if let Some(name) = path.file_name() {
            let name = name.to_string_lossy().into_owned();
            assert_eq!(
                Some(paths::stem_and_extension(&name).0),
                path.file_stem().map(|s| s.to_string_lossy().into_owned())
            );
        }
    }
}

#[test]
fn places_follow_the_settings() {
    let p = paths::Places {
        breadbin_home: None,
        user_data: None,
        home: Some("/home/u".to_string()),
        c64_lib: None,
    };
    assert_eq!(paths::data_path(&p, "x.tsv"), "/home/u/.breadbin/x.tsv");
    assert_eq!(paths::index_path(&p), "/home/u/.breadbin/c64_index.tsv");
    assert_eq!(paths::played_path(&p), "/home/u/.breadbin/played.tsv");
    assert_eq!(paths::cidx_path(&p), "/home/u/.breadbin/covers_index.tsv");
    assert_eq!(paths::cdir(&p), "/home/u/.breadbin/covers");
    assert_eq!(paths::demos_index_path(&p), "/home/u/.breadbin/demos_index.tsv");
    assert_eq!(paths::tunes_index_path(&p), "/home/u/.breadbin/tunes_index.tsv");
    assert_eq!(paths::dest_default(&p), "/home/u/Games/Commodore/C64/_IA_downloads");
    let q = paths::Places {
        breadbin_home: Some("/data".to_string()),
        user_data: Some("/user".to_string()),
        home: None,
        c64_lib: Some("/lib".to_string()),
    };
    assert_eq!(paths::user_data_dir(&q), "/user");
    assert_eq!(paths::index_path(&q), "/data/c64_index.tsv");
    assert_eq!(paths::cdir(&q), "/data/covers");
    assert_eq!(paths::sids_dir(&q), "/data/sids");
    assert_eq!(paths::shots_dir(&q), "/data/demo_covers");
    assert_eq!(paths::downloads_dir(&q), "/data/demos");
    assert_eq!(paths::dest_default(&q), "/lib/_IA_downloads");
}
