use breadbin::pattern::{find_pattern, Pattern};
use breadbin::{similarity, titles, url};

#[test]
fn titles_are_normalised() {
    assert_eq!(titles::norm("The Last Ninja II"), "lastninja2");
    assert_eq!(titles::norm("The Last Ninja III"), "lastninja3");
    assert_eq!(titles::norm("Mario Bros."), "mariobrothers");
    assert_eq!(titles::norm("Donkey Kong Jr."), "donkeykongjunior");
    assert_eq!(titles::norm("Ghosts 'n Goblins"), "ghostsandgoblins");
    assert_eq!(titles::norm("Ghosts & Goblins"), "ghostsandgoblins");
    assert_eq!(titles::norm("Spy vs Spy"), "spyversusspy");
    assert_eq!(titles::norm("A View to a Kill"), "viewtokill");
    assert_eq!(titles::norm("Turrican X"), "turrican10");
    assert_eq!(titles::norm("Élan"), "lan");
    assert_eq!(titles::norm(""), "");
}

#[test]
fn normalising_ignores_case() {
    assert_eq!(titles::norm("WIZBALL iv"), titles::norm("wizball IV"));
    assert_eq!(titles::norm("THE LAST NINJA II"), titles::norm("The Last Ninja II"));
    assert_eq!(titles::norm("\u{c4}RGER"), titles::norm("\u{e4}rger"));
    assert_ne!(titles::norm("Game II"), titles::norm("Game III"));
    assert_eq!(titles::norm("The Game X"), "game10");
}

#[test]
fn keys_leave_subtitles_out() {
    assert_eq!(titles::title_key("Zak McKracken: the Alien Mindbenders"), "zakmckracken");
    assert_eq!(titles::title_key("Elite - Gold"), "elite");
    assert_eq!(titles::game_title("Wizball v1.2 (1987)(Ocean)[cr]"), "wizball");
    assert_eq!(titles::game_title("Ultima IV - Quest [a]"), "ultima4");
}

#[test]
fn texts_are_cut_at_patterns() {
    assert_eq!(titles::try_split_before("abc 12 def", r"\s*\d+"), Some("abc".to_string()));
    assert_eq!(titles::try_split_before("abc", r"\d"), Some("abc".to_string()));
    assert_eq!(titles::try_split_before("abc", r"("), None);
}

#[test]
fn entities_are_decoded() {
    assert_eq!(
        titles::html_unescape("Rock &amp; Roll &lt;1&gt; &quot;x&quot; it&#39;s"),
        "Rock & Roll <1> \"x\" it's"
    );
    assert_eq!(titles::html_unescape("&amp;lt;"), "<");
}

#[test]
fn addresses_are_quoted_and_back() {
    assert_eq!(url::quote("a b/c~é.d64"), "a%20b/c~%C3%A9.d64");
    assert_eq!(url::quote_plus("a b/c"), "a+b%2Fc");
    assert_eq!(url::unquote("a%20b%2fc%zz%4"), "a b/c%zz%4");
    assert_eq!(url::urlencode(&[("q", "x y"), ("n", "1&2")]), "q=x+y&n=1%262");
    for s in ["", "plain", "50% off + ümlaut/é", "%41"] {
        assert_eq!(url::unquote(&url::quote(s)), s);
    }
}

#[test]
fn likeness_is_a_share_of_matching_blocks() {
    let r = similarity::seq_ratio("abcd", "bcde").unwrap();
    assert_eq!((r.count, r.of), (6, 8));
    let r = similarity::seq_ratio("wizball", "wizball").unwrap();
    assert_eq!((r.count, r.of), (14, 14));
    let r = similarity::seq_ratio("", "").unwrap();
    assert_eq!((r.count, r.of), (1, 1));
    let r = similarity::seq_ratio("abc", "xyz").unwrap();
    assert_eq!((r.count, r.of), (0, 6));
    let r = similarity::seq_ratio("qabxcd", "abycdf").unwrap();
    assert_eq!((r.count, r.of), (8, 12));
    assert!(similarity::is_alike(similarity::Ratio { count: 45, of: 100 }));
    assert!(!similarity::is_alike(similarity::Ratio { count: 449, of: 1000 }));
}

#[test]
fn every_pattern_finds_what_it_is_for() {
    let examples: Vec<(Pattern, &str, (usize, usize), Option<&str>)> = vec![
        (Pattern::Abbreviation, "é kong jr.", (7, 10), Some("jr")),
        (Pattern::Roman, "ninja iii", (6, 9), Some("iii")),
        (Pattern::Article, "in the dark", (3, 6), Some("the")),
        (Pattern::Subtitle, "a - b", (1, 4), None),
        (Pattern::Details, "a  (1987)", (1, 4), None),
        (Pattern::Bracket, "a [x]", (2, 3), None),
        (Pattern::Paren, "a (x)", (1, 3), None),
        (Pattern::Version, "a v1.2.3 b", (2, 8), Some(".3")),
        (Pattern::LowerWord, "Abc", (1, 3), None),
        (Pattern::Word, "-Abc9-", (1, 5), None),
        (Pattern::DiskNumber, "x disk 12", (2, 9), Some("12")),
        (Pattern::SideNumber, "side b", (0, 6), Some("b")),
        (Pattern::DiskOf, "disk 1 of 2", (0, 11), Some("of 2")),
        (Pattern::AnySide, "side a", (0, 6), None),
        (Pattern::Role, "the boot disk", (4, 8), Some("boot")),
        (Pattern::Spaces, "a \t b", (1, 4), None),
        (Pattern::OfCount, "1 of 4", (2, 6), Some("4")),
        (Pattern::ZipLink, "href=\"//archive.org/download/a.zip\"", (0, 35), Some("//archive.org/download/a.zip")),
        (Pattern::Extension, "a.D64", (1, 5), None),
        (Pattern::Year, "Ball 1987 x", (3, 10), None),
        (Pattern::Descriptor, "Ball Side 1", (4, 11), None),
        (Pattern::TapeDigit, "Tape 2", (0, 6), Some("2")),
        (Pattern::TapeLetter, "tape b", (0, 6), Some("b")),
        (Pattern::DiskDigit, "Disk 2", (0, 6), Some("2")),
        (Pattern::DiskLetter, "disk B", (0, 6), Some("B")),
        (Pattern::PartDigit, "part 3", (0, 6), Some("3")),
        (Pattern::PartLetter, "Part c", (0, 6), Some("c")),
        (Pattern::SideDigit, "Side 1", (0, 6), Some("1")),
        (Pattern::SideLetter, "side A", (0, 6), Some("A")),
        (Pattern::Start, "a START", (2, 7), None),
        (Pattern::End, "the end", (4, 7), None),
        (Pattern::TapeFolder, "href=\"A%5B12%5d/\"", (0, 17), Some("A%5B12%5d")),
        (Pattern::TapeLink, "HREF=\"a.tap\"", (0, 12), Some("a.tap")),
        (Pattern::TapeYear, "A (19xx)", (1, 7), None),
    ];
    assert_eq!(examples.len(), 34);
    for (p, text, (start, end), group) in examples {
        let found = find_pattern(p, text);
        assert!(!found.is_empty(), "{}", text);
        assert_eq!((found[0].start, found[0].end), (start, end), "{}", text);
        assert_eq!(found[0].group.as_deref(), group, "{}", text);
    }
    assert!(find_pattern(Pattern::Roman, "mix").is_empty());
}
