//! Covers: which picture of the libretro set belongs to a game, and where a picture
//! is kept.

use crate::disk::text_or;
use crate::json::{
    field, json_array, json_field, json_of_text, json_parse, json_str, json_tree, text_in,
    trees, Json,
};
use crate::keyed::{entered, keys_differ, law_different_keys_are_kept, lookup};
use crate::paths::{inside, join_path};
use crate::pattern::Pattern;
use crate::search::read_entered;
use crate::table::{fields_view, table_text, write_records};
use crate::text::{
    append, begins, chars_of, contains, ends, ends_with, has_part, lines_of, lowered, same,
    starts_with, string_of, string_range, texts, to_lowercase,
};
use crate::titles::{before_pattern, cut_pattern, is_key_char, law_norm_is_plain, norm, norm_of};
use crate::tosec::{entries_of_lines, entry_records, fits_entry, law_entries_come_back};
use crate::url::{quote, quote_of};
use serde_json::Value;
use vstd::prelude::*;

verus! {

/// How well a picture's region suits: the world's first, then Europe's, then the
/// USA's, then any.
pub open spec fn region_of(name: Seq<char>) -> u8 {
    let n = lowered(name);
    if has_part(n, "(world"@) {
        0
    } else if has_part(n, "(europe"@) {
        1
    } else if has_part(n, "(usa"@) {
        2
    } else {
        3
    }
}

pub fn region_rank(name: &str) -> (r: u8)
    ensures
        r == region_of(name@),
{
    let n = to_lowercase(name);
    let s = n.as_str();
    if contains(s, "(world") {
        0
    } else if contains(s, "(europe") {
        1
    } else if contains(s, "(usa") {
        2
    } else {
        3
    }
}

/// A picture chosen for a game.
#[derive(Debug)]
pub struct Picture {
    pub canon: String,
    pub rank: u8,
    pub file: String,
}

/// A picture chosen for a game.
#[verifier::ext_equal]
pub struct Chosen {
    pub canon: Seq<char>,
    pub rank: u8,
    pub file: Seq<char>,
}

impl View for Picture {
    type V = Chosen;

    open spec fn view(&self) -> Chosen {
        Chosen { canon: self.canon@, rank: self.rank, file: self.file@ }
    }
}

pub open spec fn pictures(v: Seq<Picture>) -> Seq<Chosen> {
    v.map_values(|p: Picture| p@)
}

/// The place of a game among those with a picture.
pub open spec fn picture_at(cs: Seq<Chosen>, canon: Seq<char>, from: int) -> Option<int>
    decreases cs.len() - from,
{
    if from < 0 || from >= cs.len() {
        None
    } else if cs[from].canon == canon {
        Some(from)
    } else {
        picture_at(cs, canon, from + 1)
    }
}

/// The path of a box picture.
pub open spec fn is_boxart(path: Seq<char>) -> bool {
    begins(path, "Named_Boxarts/"@) && ends(path, ".png"@)
}

/// The file's name in such a path.
pub open spec fn boxart_file(path: Seq<char>) -> Seq<char> {
    path.skip("Named_Boxarts/"@.len() as int)
}

/// The key of the game that a picture is of.
pub open spec fn boxart_canon(file: Seq<char>) -> Seq<char> {
    norm_of(before_pattern(file.take(file.len() - ".png"@.len()), Pattern::Paren))
}

/// The pictures after one more path: a better region takes the place of a worse.
pub open spec fn with_path(cs: Seq<Chosen>, path: Seq<char>) -> Seq<Chosen> {
    let file = boxart_file(path);
    let canon = boxart_canon(file);
    let new = Chosen { canon, rank: region_of(file), file };
    if !is_boxart(path) || canon.len() == 0 {
        cs
    } else {
        match picture_at(cs, canon, 0) {
            Some(i) => if new.rank < cs[i].rank {
                cs.update(i, new)
            } else {
                cs
            },
            None => cs.push(new),
        }
    }
}

pub open spec fn with_paths(paths: Seq<Seq<char>>) -> Seq<Chosen>
    decreases paths.len(),
{
    if paths.len() == 0 {
        Seq::empty()
    } else {
        with_path(with_paths(paths.drop_last()), paths.last())
    }
}

fn find_picture(v: &Vec<Picture>, canon: &str) -> (r: Option<usize>)
    ensures
        match r {
            Some(i) => picture_at(pictures(v@), canon@, 0) == Some(i as int) && i < v@.len(),
            None => picture_at(pictures(v@), canon@, 0) is None,
        },
{
    let mut i: usize = 0;
    while i < v.len()
        invariant
            i <= v@.len(),
            picture_at(pictures(v@), canon@, 0) == picture_at(pictures(v@), canon@, i as int),
        decreases v@.len() - i,
    {
        assert(pictures(v@)[i as int] == v@[i as int]@);
        if same(v[i].canon.as_str(), canon) {
            return Some(i);
        }
        i += 1;
    }
    None
}

proof fn lemma_boxart_lengths(path: Seq<char>)
    requires
        is_boxart(path),
    ensures
        "Named_Boxarts/"@.len() == 14,
        ".png"@.len() == 4,
        path.len() >= 18,
{
    reveal_strlit("Named_Boxarts/");
    reveal_strlit(".png");
    if path.len() < 18 {
        // The name would have to end where the directory does.
        let k = path.len() - 4;
        assert(path.take(14)[13] == path[13]);
        assert("Named_Boxarts/"@[13] == '/');
        assert(path[13] == '/');
        assert(path.skip(k)[13 - k] == path[13]);
        assert(".png"@[13 - k] == '/');
        assert(".png"@[0] == '.' && ".png"@[1] == 'p' && ".png"@[2] == 'n' && ".png"@[3] == 'g');
        assert(0 <= 13 - k < 4);
    }
}

fn take_path(v: &mut Vec<Picture>, path: &str)
    ensures
        pictures(final(v)@) == with_path(pictures(old(v)@), path@),
{
    let ghost was = v@;
    if !starts_with(path, "Named_Boxarts/") || !ends_with(path, ".png") {
        return ;
    }
    proof {
        lemma_boxart_lengths(path@);
    }
    let chars = chars_of(path);
    let file = string_range(&chars, 14, chars.len());
    let stem = string_range(&chars, 14, chars.len() - 4);
    proof {
        assert(file@ =~= boxart_file(path@));
        assert(stem@ =~= file@.take(file@.len() - ".png"@.len()));
    }
    let canon = norm(cut_pattern(stem.as_str(), Pattern::Paren).as_str());
    if canon.as_str().is_empty() {
        return ;
    }
    let rank: u8 = region_rank(file.as_str());
    match find_picture(v, canon.as_str()) {
        Some(i) => {
            assert(pictures(was)[i as int] == was[i as int]@);
            if rank < v[i].rank {
                let p = Picture { canon, rank, file };
                v.set(i, p);
                assert(pictures(v@) =~= pictures(was).update(i as int, p@));
            }
        },
        None => {
            let p = Picture { canon, rank, file };
            v.push(p);
            assert(pictures(v@) =~= pictures(was).push(p@));
        },
    }
}

/// Chooses pictures among these paths.
pub fn choose_pictures(paths: &Vec<String>) -> (v: Vec<Picture>)
    ensures
        pictures(v@) == with_paths(texts(paths@)),
{
    let ghost all = texts(paths@);
    let mut v: Vec<Picture> = Vec::new();
    let mut i: usize = 0;
    assert(pictures(v@) =~= with_paths(all.take(0)));
    while i < paths.len()
        invariant
            all == texts(paths@),
            i <= paths@.len(),
            pictures(v@) == with_paths(all.take(i as int)),
        decreases paths@.len() - i,
    {
        proof {
            assert(all.take(i + 1).drop_last() =~= all.take(i as int));
            assert(all[i as int] == paths@[i as int]@);
        }
        take_path(&mut v, paths[i].as_str());
        i += 1;
    }
    assert(all.take(i as int) =~= all);
    v
}

/// The paths in the tree of the picture set.
pub open spec fn tree_paths(tree: Seq<Json>) -> Seq<Seq<char>> {
    tree.map_values(|p: Json| text_or(text_in(field(p, "path"@)), Seq::empty()))
}

fn paths_in(list: &Vec<Value>) -> (r: Vec<String>)
    ensures
        texts(r@) == tree_paths(trees(list@)),
{
    let ghost goal = tree_paths(trees(list@));
    let mut r: Vec<String> = Vec::new();
    let mut i: usize = 0;
    while i < list.len()
        invariant
            goal == tree_paths(trees(list@)),
            i <= list@.len(),
            r@.len() == i,
            forall|k: int| 0 <= k < i ==> (#[trigger] r@[k])@ == goal[k],
        decreases list@.len() - i,
    {
        assert(trees(list@)[i as int] == json_tree(list@[i as int]));
        let p = match json_str(json_field(&list[i], "path")) {
            Some(s) => s.to_owned(),
            None => String::new(),
        };
        r.push(p);
        i += 1;
    }
    assert(texts(r@) =~= goal);
    r
}

/// Why there is no index of covers.
#[derive(Debug)]
pub enum CoverError {
    NotJson,
    NoTree,
}

/// The text of the index of these pictures: key and file.
pub open spec fn cover_index_of(cs: Seq<Chosen>) -> Seq<char> {
    table_text(cs.map_values(|c: Chosen| seq![c.canon, c.file]))
}

/// The text of the index of these pictures.
pub fn cover_index_text(v: &Vec<Picture>) -> (r: String)
    ensures
        r@ == cover_index_of(pictures(v@)),
{
    let ghost goal = pictures(v@).map_values(|c: Chosen| seq![c.canon, c.file]);
    let mut rs: Vec<Vec<String>> = Vec::new();
    let mut i: usize = 0;
    while i < v.len()
        invariant
            goal == pictures(v@).map_values(|c: Chosen| seq![c.canon, c.file]),
            i <= v@.len(),
            rs@.len() == i,
            forall|k: int| 0 <= k < i ==> texts((#[trigger] rs@[k])@) == goal[k],
        decreases v@.len() - i,
    {
        let mut f: Vec<String> = Vec::new();
        f.push(v[i].canon.clone());
        f.push(v[i].file.clone());
        assert(texts(f@) =~= goal[i as int]);
        rs.push(f);
        i += 1;
    }
    assert(fields_view(rs@) =~= goal);
    write_records(&rs)
}

/// The index of covers, from the text of the tree of the picture set.
pub fn build_cover_index(body: &str) -> (r: Result<String, CoverError>)
    ensures
        match json_of_text(body@) {
            None => r == Err::<String, CoverError>(CoverError::NotJson),
            Some(j) => match field(j, "tree"@) {
                Json::List(tree) => r matches Ok(s) && s@ == cover_index_of(
                    with_paths(tree_paths(tree)),
                ),
                _ => r == Err::<String, CoverError>(CoverError::NoTree),
            },
        },
{
    match json_parse(body) {
        Ok(v) => match json_array(json_field(&v, "tree")) {
            Some(list) => Ok(cover_index_text(&choose_pictures(&paths_in(list)))),
            None => Err(CoverError::NoTree),
        },
        Err(_) => Err(CoverError::NotJson),
    }
}

/// Reads the index of covers: the file for each key.
pub fn load_index(text: &str) -> (v: Vec<(String, String)>)
    ensures
        crate::keyed::entries(v@) == crate::keyed::entered(
            crate::tosec::entries_of_lines(crate::text::lines_of(text@)),
        ),
{
    read_entered(text)
}

/// The address of a picture of the set.
pub fn cover_url(file: &str) -> (r: String)
    ensures
        r@
            == "https://raw.githubusercontent.com/libretro-thumbnails/Commodore_-_64/master/Named_Boxarts/"@
            + quote_of(file@),
{
    append(
        "https://raw.githubusercontent.com/libretro-thumbnails/Commodore_-_64/master/Named_Boxarts/",
        quote(file).as_str(),
    )
}

/// Where the cover of a game is kept.
pub fn cover_cache(dir: &str, canon: &str) -> (r: String)
    ensures
        r@ == inside(dir@, canon@ + ".png"@),
{
    join_path(dir, append(canon, ".png").as_str())
}

/// A character that is safe in a file's name; others become underscores.
pub open spec fn safe_char(c: char) -> char {
    if ('A' <= c <= 'Z') || ('a' <= c <= 'z') || ('0' <= c <= '9') || c == '_' || c == '.' || c == '-' {
        c
    } else {
        '_'
    }
}

pub open spec fn safe_name(s: Seq<char>) -> Seq<char> {
    s.map_values(|c: char| safe_char(c))
}

/// A text made safe for a file's name.
pub fn sanitize(s: &str) -> (r: String)
    ensures
        r@ == safe_name(s@),
{
    let v = chars_of(s);
    let mut out: Vec<char> = Vec::new();
    let mut i: usize = 0;
    while i < v.len()
        invariant
            v@ == s@,
            i <= v@.len(),
            out@.len() == i,
            forall|k: int| 0 <= k < i ==> #[trigger] out@[k] == safe_name(s@)[k],
        decreases v@.len() - i,
    {
        let c: char = v[i];
        let safe = ('A' <= c && c <= 'Z') || ('a' <= c && c <= 'z') || ('0' <= c && c <= '9') || c
            == '_' || c == '.' || c == '-';
        out.push(
            if safe {
                c
            } else {
                '_'
            },
        );
        i += 1;
    }
    assert(out@ =~= safe_name(s@));
    string_of(&out)
}

/// Where the archive's own picture of an item is kept; items without an identifier
/// have none.
pub fn ia_cover_cache(dir: &str, ident: &str) -> (r: Option<String>)
    ensures
        match r {
            Some(p) => ident@.len() > 0 && p@ == inside(
                dir@,
                "ia_"@ + safe_name(ident@) + ".jpg"@,
            ),
            None => ident@.len() == 0,
        },
{
    if ident.is_empty() {
        return None;
    }
    let name = append(append("ia_", sanitize(ident).as_str()).as_str(), ".jpg");
    Some(join_path(dir, name.as_str()))
}

/// The address of the archive's own picture of an item.
pub fn ia_cover_url(ident: &str) -> (r: String)
    ensures
        r@ == "https://archive.org/services/img/"@ + ident@,
{
    append("https://archive.org/services/img/", ident)
}

/// Whether data is a picture, and not the icon that stands in for none.
pub fn is_picture(data: &Vec<u8>) -> (r: bool)
    ensures
        r == (data@.len() >= 1000),
{
    data.len() >= 1000
}

// ---- laws -------------------------------------------------------------------------------------------

proof fn lemma_picture_at(cs: Seq<Chosen>, canon: Seq<char>, from: int)
    requires
        0 <= from,
    ensures
        match picture_at(cs, canon, from) {
            Some(i) => from <= i < cs.len() && cs[i].canon == canon,
            None => forall|k: int| from <= k < cs.len() ==> cs[k].canon != canon,
        },
    decreases cs.len() - from,
{
    if from < cs.len() && cs[from].canon != canon {
        lemma_picture_at(cs, canon, from + 1);
    }
}

/// Each game has at most one picture, and a picture is never replaced by one of a
/// worse region.
pub proof fn law_best_region_stays(cs: Seq<Chosen>, path: Seq<char>)
    requires
        forall|i: int, j: int| 0 <= i < j < cs.len() ==> (#[trigger] cs[i]).canon != (
        #[trigger] cs[j]).canon,
    ensures
        ({
            let n = with_path(cs, path);
            &&& forall|i: int, j: int| 0 <= i < j < n.len() ==> (#[trigger] n[i]).canon != (
            #[trigger] n[j]).canon
            &&& forall|i: int|
                0 <= i < cs.len() ==> (#[trigger] n[i]).canon == cs[i].canon && n[i].rank
                    <= cs[i].rank
        }),
{
    let file = boxart_file(path);
    lemma_picture_at(cs, boxart_canon(file), 0);
    let n = with_path(cs, path);
    assert forall|i: int, j: int| 0 <= i < j < n.len() implies (#[trigger] n[i]).canon != (
    #[trigger] n[j]).canon by {
        if j < cs.len() {
            assert(cs[i].canon != cs[j].canon);
        }
    }
}

/// A safe name holds only letters, figures, "_", "." and "-", and is as long.
pub proof fn law_names_are_safe(s: Seq<char>)
    ensures
        safe_name(s).len() == s.len(),
        forall|i: int| 0 <= i < s.len() ==> safe_char(#[trigger] safe_name(s)[i]) == safe_name(s)[i],
        safe_name(safe_name(s)) == safe_name(s),
{
    assert(safe_name(safe_name(s)) =~= safe_name(s));
}

/// A chosen picture is one of the set, under the key of its game.
pub open spec fn is_chosen(c: Chosen, paths: Seq<Seq<char>>, j: int) -> bool {
    0 <= j < paths.len() && is_boxart(paths[j]) && c.file == boxart_file(paths[j]) && c.canon
        == boxart_canon(c.file)
}

spec fn is_from(c: Chosen, paths: Seq<Seq<char>>) -> bool {
    exists|j: int| is_chosen(c, paths, j)
}

proof fn lemma_chosen(paths: Seq<Seq<char>>)
    ensures
        forall|i: int|
            0 <= i < with_paths(paths).len() ==> is_from(#[trigger] with_paths(paths)[i], paths),
        forall|i: int, j: int|
            0 <= i < j < with_paths(paths).len() ==> (#[trigger] with_paths(paths)[i]).canon != (
            #[trigger] with_paths(paths)[j]).canon,
    decreases paths.len(),
{
    if paths.len() > 0 {
        let init = paths.drop_last();
        let was = with_paths(init);
        let now = with_paths(paths);
        let file = boxart_file(paths.last());
        let canon = boxart_canon(file);
        lemma_chosen(init);
        lemma_picture_at(was, canon, 0);
        assert forall|i: int| 0 <= i < now.len() implies is_from(#[trigger] now[i], paths) by {
            if i < was.len() && now[i] == was[i] {
                assert(is_from(was[i], init));
                let j = choose|j: int| is_chosen(was[i], init, j);
                assert(is_chosen(now[i], paths, j));
            } else {
                assert(is_chosen(now[i], paths, paths.len() - 1));
            }
        }
        assert forall|i: int, j: int| 0 <= i < j < now.len() implies (#[trigger] now[i]).canon != (
        #[trigger] now[j]).canon by {
            if j < was.len() {
                assert(was[i].canon != was[j].canon);
            }
        }
    }
}

/// The covers of an index that is written are found again when it is read, each by the
/// key of its game.
pub proof fn law_covers_come_back(paths: Seq<Seq<char>>, i: int)
    requires
        0 <= i < with_paths(paths).len(),
        forall|j: int| 0 <= j < paths.len() ==> !(#[trigger] paths[j]).contains('\n'),
    ensures
        lookup(
            entered(entries_of_lines(lines_of(cover_index_of(with_paths(paths))))),
            with_paths(paths)[i].canon,
        ) == Some(with_paths(paths)[i].file),
{
    let cs = with_paths(paths);
    let es = cs.map_values(|c: Chosen| (c.canon, c.file));
    lemma_chosen(paths);
    reveal_strlit(".png");
    reveal_strlit("Named_Boxarts/");
    assert forall|k: int| 0 <= k < es.len() implies fits_entry(#[trigger] es[k]) by {
        let c = cs[k];
        assert(is_from(cs[k], paths));
        let j = choose|j: int| is_chosen(c, paths, j);
        let path = paths[j];
        let name = before_pattern(c.file.take(c.file.len() - ".png"@.len()), Pattern::Paren);
        law_norm_is_plain(name);
        assert forall|m: int| 0 <= m < c.canon.len() implies #[trigger] c.canon[m] != '\t'
            && c.canon[m] != '\n' by {
            assert(is_key_char(c.canon[m]));
        }
        assert forall|m: int| 0 <= m < c.file.len() implies #[trigger] c.file[m] != '\n' by {
            assert(c.file[m] == path[m + 14]);
            assert(path.contains(path[m + 14]));
        }
        if c.file.len() > 0 {
            assert(c.file.last() == path.last());
            assert(path.skip(path.len() - 4).last() == 'g');
        }
    }
    assert(entry_records(es) =~= cs.map_values(|c: Chosen| seq![c.canon, c.file]));
    law_entries_come_back(es);
    assert(keys_differ(es)) by {
        assert forall|a: int, b: int| 0 <= a < b < es.len() implies (#[trigger] es[a]).0 != (
        #[trigger] es[b]).0 by {
            assert(cs[a].canon != cs[b].canon);
        }
    }
    law_different_keys_are_kept(es, i);
}

/// How well a picture suits: one for the world before one for Europe, that before one for the
/// USA, and that before any other.
pub proof fn law_regions_are_ranked(a: Seq<char>, b: Seq<char>)
    ensures
        ({
            let x = lowered(a);
            let y = lowered(b);
            &&& has_part(x, "(world"@) && !has_part(y, "(world"@) ==> region_of(a) < region_of(b)
            &&& has_part(x, "(europe"@) && !has_part(y, "(world"@) && !has_part(y, "(europe"@)
                ==> region_of(a) < region_of(b)
            &&& has_part(x, "(usa"@) && !has_part(y, "(world"@) && !has_part(y, "(europe"@) && !has_part(
                y,
                "(usa"@,
            ) ==> region_of(a) < region_of(b)
        }),
{
}

/// Of two pictures of a game the one with the better region is chosen, and of equals the
/// first.
pub proof fn law_better_regions_win(cs: Seq<Chosen>, path: Seq<char>, i: int)
    requires
        forall|a: int, b: int| 0 <= a < b < cs.len() ==> (#[trigger] cs[a]).canon != (#[trigger] cs[b]).canon,
        0 <= i < cs.len(),
        is_boxart(path),
        boxart_canon(boxart_file(path)).len() > 0,
    ensures
        ({
            let n = with_path(cs, path);
            let file = boxart_file(path);
            let mine = cs[i].canon == boxart_canon(file);
            &&& !mine ==> n[i] == cs[i]
            &&& mine && region_of(file) < cs[i].rank ==> n[i].file == file && n[i].rank == region_of(file)
                && n[i].canon == cs[i].canon
            &&& mine && region_of(file) >= cs[i].rank ==> n[i] == cs[i]
            &&& mine ==> n.len() == cs.len()
        }),
{
    let canon = boxart_canon(boxart_file(path));
    lemma_picture_at(cs, canon, 0);
    if cs[i].canon == canon {
        let k = picture_at(cs, canon, 0)->0;
        if k < i {
            assert(cs[k].canon != cs[i].canon);
        }
        if i < k {
            assert(cs[i].canon != cs[k].canon);
        }
    }
}

/// A game without a picture gets one.
pub proof fn law_first_pictures_are_taken(cs: Seq<Chosen>, path: Seq<char>)
    requires
        is_boxart(path),
        boxart_canon(boxart_file(path)).len() > 0,
        forall|i: int| 0 <= i < cs.len() ==> (#[trigger] cs[i]).canon != boxart_canon(boxart_file(path)),
    ensures
        with_path(cs, path).len() == cs.len() + 1,
        with_path(cs, path).last().file == boxart_file(path),
        with_path(cs, path).last().canon == boxart_canon(boxart_file(path)),
        with_path(cs, path).last().rank == region_of(boxart_file(path)),
{
    lemma_picture_at(cs, boxart_canon(boxart_file(path)), 0);
}

/// The pictures of boxes are the PNG files in their directory, and the title of the game is
/// their name without the ending and the details in parentheses.
pub proof fn law_box_pictures(file: Seq<char>, other: Seq<char>)
    ensures
        is_boxart("Named_Boxarts/"@ + file + ".png"@),
        boxart_file("Named_Boxarts/"@ + file) == file,
        boxart_canon(file + ".png"@) == norm_of(before_pattern(file, Pattern::Paren)),
        !ends(other, ".png"@) ==> !is_boxart(other) && with_path(Seq::empty(), other).len() == 0,
{
    let dir = "Named_Boxarts/"@;
    let p = dir + file + ".png"@;
    assert(p.take(dir.len() as int) =~= dir);
    assert(p.skip(p.len() - ".png"@.len()) =~= ".png"@);
    assert((dir + file).skip(dir.len() as int) =~= file);
    let f = file + ".png"@;
    assert(f.take(f.len() - ".png"@.len()) =~= file);
}

/// A name that is safe for a file has letters and digits of ASCII, dots, dashes and
/// underscores as they were, and underscores for everything else.
pub proof fn law_unsafe_characters_are_replaced(s: Seq<char>, i: int)
    requires
        0 <= i < s.len(),
    ensures
        ({
            let c = s[i];
            let keep = ('0' <= c <= '9') || ('A' <= c <= 'Z') || ('a' <= c <= 'z') || c == '-' || c == '.'
                || c == '_';
            &&& keep ==> safe_name(s)[i] == c
            &&& !keep ==> safe_name(s)[i] == '_'
        }),
{
}

} // verus!
