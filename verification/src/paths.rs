//! Where the library's files are. The environment is read elsewhere and handed in.

use crate::text::{
    append, begins, chars_of, ends, ends_with, opt_text, same, starts_with, string_range,
};
use vstd::prelude::*;

verus! {

/// The settings of the environment that say where things are.
#[derive(Debug)]
pub struct Places {
    /// `BREADBIN_HOME`: an existing data set.
    pub breadbin_home: Option<String>,
    /// `BREADBIN_USER_DATA`: where user data goes.
    pub user_data: Option<String>,
    /// `HOME`.
    pub home: Option<String>,
    /// `C64_LIB`: the root of the collection.
    pub c64_lib: Option<String>,
}

/// A name inside a directory. A name that begins at the root stands for itself.
pub open spec fn inside(dir: Seq<char>, name: Seq<char>) -> Seq<char> {
    if begins(name, "/"@) || dir.len() == 0 {
        name
    } else if ends(dir, "/"@) {
        dir + name
    } else {
        dir + "/"@ + name
    }
}

pub fn join_path(dir: &str, name: &str) -> (r: String)
    ensures
        r@ == inside(dir@, name@),
{
    if starts_with(name, "/") || dir.is_empty() {
        name.to_owned()
    } else if ends_with(dir, "/") {
        append(dir, name)
    } else {
        append(append(dir, "/").as_str(), name)
    }
}

impl Places {
    /// Where user data goes: what the setting says, else `.breadbin` in the home
    /// directory, else the current directory.
    pub open spec fn user_dir(self) -> Seq<char> {
        match (self.user_data, self.home) {
            (Some(d), _) => d@,
            (None, Some(h)) => if h@.len() == 0 {
                "."@
            } else {
                h@ + "/.breadbin"@
            },
            (None, None) => "."@,
        }
    }

    /// Where the data files are: the data set that the setting names, else among
    /// the user data.
    pub open spec fn dir(self) -> Seq<char> {
        match self.breadbin_home {
            Some(d) => d@,
            None => self.user_dir(),
        }
    }

    /// The root of the collection.
    pub open spec fn lib(self) -> Seq<char> {
        match (self.c64_lib, self.home) {
            (Some(d), _) => d@,
            (None, Some(h)) => h@ + "/Games/Commodore/C64"@,
            (None, None) => "/Games/Commodore/C64"@,
        }
    }
}

/// The directory of user data.
pub fn user_data_dir(p: &Places) -> (r: String)
    ensures
        r@ == p.user_dir(),
{
    match &p.user_data {
        Some(d) => d.clone(),
        None => match &p.home {
            Some(h) => if h.as_str().is_empty() {
                ".".to_string()
            } else {
                append(h.as_str(), "/.breadbin")
            },
            None => ".".to_string(),
        },
    }
}

/// The directory of the data files.
pub fn data_dir(p: &Places) -> (r: String)
    ensures
        r@ == p.dir(),
{
    match &p.breadbin_home {
        Some(d) => d.clone(),
        None => user_data_dir(p),
    }
}

/// A path inside the data directory.
pub fn data_path(p: &Places, name: &str) -> (r: String)
    ensures
        r@ == inside(p.dir(), name@),
{
    join_path(data_dir(p).as_str(), name)
}

/// The root of the collection.
pub fn c64_lib(p: &Places) -> (r: String)
    ensures
        r@ == p.lib(),
{
    match &p.c64_lib {
        Some(d) => d.clone(),
        None => match &p.home {
            Some(h) => append(h.as_str(), "/Games/Commodore/C64"),
            None => "/Games/Commodore/C64".to_string(),
        },
    }
}

/// The ranked index of games.
pub fn index_path(p: &Places) -> (r: String)
    ensures
        r@ == inside(p.dir(), "c64_index.tsv"@),
{
    data_path(p, "c64_index.tsv")
}

/// The log of plays.
pub fn played_path(p: &Places) -> (r: String)
    ensures
        r@ == inside(p.dir(), "played.tsv"@),
{
    data_path(p, "played.tsv")
}

/// The index of covers.
pub fn cidx_path(p: &Places) -> (r: String)
    ensures
        r@ == inside(p.dir(), "covers_index.tsv"@),
{
    data_path(p, "covers_index.tsv")
}

/// The cached covers.
pub fn cdir(p: &Places) -> (r: String)
    ensures
        r@ == inside(p.dir(), "covers"@),
{
    data_path(p, "covers")
}

/// The cached tunes.
pub fn sids_dir(p: &Places) -> (r: String)
    ensures
        r@ == inside(p.dir(), "sids"@),
{
    data_path(p, "sids")
}

/// The cached screenshots of demos.
pub fn shots_dir(p: &Places) -> (r: String)
    ensures
        r@ == inside(p.dir(), "demo_covers"@),
{
    data_path(p, "demo_covers")
}

/// The downloaded demos.
pub fn downloads_dir(p: &Places) -> (r: String)
    ensures
        r@ == inside(p.dir(), "demos"@),
{
    data_path(p, "demos")
}

/// The index of demos.
pub fn demos_index_path(p: &Places) -> (r: String)
    ensures
        r@ == inside(p.dir(), "demos_index.tsv"@),
{
    data_path(p, "demos_index.tsv")
}

/// The index of tunes.
pub fn tunes_index_path(p: &Places) -> (r: String)
    ensures
        r@ == inside(p.dir(), "tunes_index.tsv"@),
{
    data_path(p, "tunes_index.tsv")
}

/// Where downloaded disks go.
pub fn dest_default(p: &Places) -> (r: String)
    ensures
        r@ == inside(p.lib(), "_IA_downloads"@),
{
    join_path(c64_lib(p).as_str(), "_IA_downloads")
}

// ---- the parts of a path ---------------------------------------------------------------

/// A path without what it may end in for nothing: slashes, and a dot behind a slash.
pub open spec fn without_tail(s: Seq<char>) -> Seq<char>
    decreases s.len(),
{
    if s.len() > 0 && s.last() == '/' {
        without_tail(s.drop_last())
    } else if s.len() > 1 && s.last() == '.' && s[s.len() - 2] == '/' {
        without_tail(s.drop_last())
    } else {
        s
    }
}

/// The last place of a character in a text, or one before its beginning.
pub open spec fn last_place(s: Seq<char>, c: char) -> int
    decreases s.len(),
{
    if s.len() == 0 {
        -1
    } else if s.last() == c {
        s.len() - 1
    } else {
        last_place(s.drop_last(), c)
    }
}

/// The name of the file that a path leads to; a path that ends in `.` or `..`
/// leads to none.
pub open spec fn name_in(path: Seq<char>) -> Option<Seq<char>> {
    let s = without_tail(path);
    let name = s.skip(last_place(s, '/') + 1);
    if name.len() == 0 || name == "."@ || name == ".."@ {
        None
    } else {
        Some(name)
    }
}

/// The name of a file without its extension. A dot at the beginning of the name
/// begins no extension.
pub open spec fn stem_of_name(name: Seq<char>) -> Seq<char> {
    if last_place(name, '.') > 0 {
        name.take(last_place(name, '.'))
    } else {
        name
    }
}

/// The extension of the name of a file, without its dot.
pub open spec fn extension_of_name(name: Seq<char>) -> Option<Seq<char>> {
    if last_place(name, '.') > 0 {
        Some(name.skip(last_place(name, '.') + 1))
    } else {
        None
    }
}

/// The extension of the file that a path leads to.
pub open spec fn extension_in(path: Seq<char>) -> Option<Seq<char>> {
    match name_in(path) {
        Some(name) => extension_of_name(name),
        None => None,
    }
}

/// The index behind the last place of a character.
fn behind_last(v: &Vec<char>, n: usize, c: char) -> (r: usize)
    requires
        n <= v@.len(),
    ensures
        r == last_place(v@.take(n as int), c) + 1,
        r <= n,
{
    let mut i: usize = n;
    while i > 0 && v[i - 1] != c
        invariant
            i <= n <= v@.len(),
            last_place(v@.take(n as int), c) == last_place(v@.take(i as int), c),
        decreases i,
    {
        assert(v@.take(i as int).drop_last() =~= v@.take(i - 1));
        i -= 1;
    }
    i
}

/// The name of the file that a path leads to.
pub fn file_name(path: &str) -> (r: Option<String>)
    ensures
        opt_text(r) == name_in(path@),
{
    let v = chars_of(path);
    let mut n: usize = v.len();
    assert(v@.take(n as int) =~= v@);
    while n > 0 && (v[n - 1] == '/' || (n > 1 && v[n - 1] == '.' && v[n - 2] == '/'))
        invariant
            n <= v@.len(),
            without_tail(v@) == without_tail(v@.take(n as int)),
        decreases n,
    {
        assert(v@.take(n as int).drop_last() =~= v@.take(n - 1));
        n -= 1;
    }
    let ghost s = v@.take(n as int);
    assert(without_tail(v@) == s);
    let from = behind_last(&v, n, '/');
    let name = string_range(&v, from, n);
    assert(name@ =~= s.skip(from as int));
    if name.as_str().is_empty() || same(name.as_str(), ".") || same(name.as_str(), "..") {
        None
    } else {
        Some(name)
    }
}

/// The name of a file, without and with its extension apart.
pub fn stem_and_extension(name: &str) -> (r: (String, Option<String>))
    ensures
        r.0@ == stem_of_name(name@),
        opt_text(r.1) == extension_of_name(name@),
{
    let v = chars_of(name);
    assert(v@.take(v@.len() as int) =~= v@);
    let at = behind_last(&v, v.len(), '.');
    if at > 1 {
        let stem = string_range(&v, 0, at - 1);
        let ext = string_range(&v, at, v.len());
        assert(stem@ =~= name@.take(at - 1));
        assert(ext@ =~= name@.skip(at as int));
        (stem, Some(ext))
    } else {
        (name.to_owned(), None)
    }
}

/// The extension of the file that a path leads to.
pub fn extension(path: &str) -> (r: Option<String>)
    ensures
        opt_text(r) == extension_in(path@),
{
    match file_name(path) {
        Some(name) => stem_and_extension(name.as_str()).1,
        None => None,
    }
}

// ---- laws ------------------------------------------------------------------------------------------------------------

/// What is inside a directory follows it behind one slash; a name from the root stands for
/// itself.
pub proof fn law_names_are_inside(dir: Seq<char>, name: Seq<char>)
    ensures
        name.len() > 0 && name[0] == '/' ==> inside(dir, name) == name,
        dir.len() == 0 ==> inside(dir, name) == name,
        (name.len() == 0 || name[0] != '/') && dir.len() > 0 && dir.last() != '/' ==> inside(dir, name)
            == dir + seq!['/'] + name,
        (name.len() == 0 || name[0] != '/') && dir.len() > 0 && dir.last() == '/' ==> inside(dir, name)
            == dir + name,
{
    reveal_strlit("/");
    assert("/"@ =~= seq!['/']);
    if name.len() > 0 {
        assert(name.take(1) =~= seq![name[0]]);
        assert(name.take(1)[0] == name[0]);
    }
    if dir.len() > 0 {
        assert(dir.skip(dir.len() - 1) =~= seq![dir.last()]);
        assert(dir.skip(dir.len() - 1)[0] == dir.last());
    }
}

/// The data is where `BREADBIN_HOME` says, else where `BREADBIN_USER_DATA` says, else in
/// `.breadbin` in the home directory, else here; and user data leaves the first aside.
pub proof fn law_data_is_where_it_is_set(p: Places)
    ensures
        p.breadbin_home matches Some(d) ==> p.dir() == d@,
        p.breadbin_home is None && p.user_data is Some ==> p.dir() == p.user_data->0@,
        p.breadbin_home is None && p.user_data is None && p.home is Some && p.home->0@.len() > 0
            ==> p.dir() == p.home->0@ + "/.breadbin"@,
        p.breadbin_home is None && p.user_data is None && (p.home is None || p.home->0@.len() == 0)
            ==> p.dir() == "."@,
        p.breadbin_home is None ==> p.dir() == p.user_dir(),
        p.user_data matches Some(d) ==> p.user_dir() == d@,
        p.c64_lib matches Some(d) ==> p.lib() == d@,
        p.c64_lib is None && p.home is Some ==> p.lib() == p.home->0@ + "/Games/Commodore/C64"@,
{
}

proof fn lemma_last_place(s: Seq<char>, c: char, k: int)
    requires
        -1 <= k < s.len(),
        k >= 0 ==> s[k] == c,
        forall|i: int| k < i < s.len() ==> #[trigger] s[i] != c,
    ensures
        last_place(s, c) == k,
    decreases s.len(),
{
    if s.len() > 0 && k < s.len() - 1 {
        assert(s[s.len() - 1] != c);
        lemma_last_place(s.drop_last(), c, k);
    }
}

/// The name of a file is what follows the last slash of its path.
pub proof fn law_names_follow_the_last_slash(dir: Seq<char>, name: Seq<char>)
    requires
        name.len() > 0,
        forall|i: int| 0 <= i < name.len() ==> #[trigger] name[i] != '/',
        name != "."@,
        name != ".."@,
    ensures
        name_in(dir + seq!['/'] + name) == Some(name),
        name_in(name) == Some(name),
{
    reveal_strlit(".");
    let p = dir + seq!['/'] + name;
    assert(p.last() == name.last());
    assert(name[name.len() - 1] != '/');
    if name.len() == 1 {
        assert(name[0] != '.') by {
            if name[0] == '.' {
                assert(name =~= "."@);
            }
        }
    } else {
        assert(p[p.len() - 2] == name[name.len() - 2]);
        assert(name[name.len() - 2] != '/');
    }
    assert(without_tail(p) == p);
    assert(without_tail(name) == name);
    assert forall|i: int| dir.len() < i < p.len() implies #[trigger] p[i] != '/' by {
        assert(p[i] == name[i - dir.len() - 1]);
    }
    lemma_last_place(p, '/', dir.len() as int);
    lemma_last_place(name, '/', -1);
    assert(p.skip(dir.len() as int + 1) =~= name);
    assert(name.skip(0) =~= name);
}

/// The extension follows the last dot of a name, unless the name begins with it; stem, dot
/// and extension make up the name.
pub proof fn law_extensions_follow_the_last_dot(stem: Seq<char>, ext: Seq<char>)
    requires
        forall|i: int| 0 <= i < ext.len() ==> #[trigger] ext[i] != '.',
    ensures
        stem.len() > 0 ==> extension_of_name(stem + seq!['.'] + ext) == Some(ext) && stem_of_name(
            stem + seq!['.'] + ext,
        ) == stem,
        extension_of_name(ext) is None && stem_of_name(ext) == ext,
        extension_of_name(seq!['.'] + ext) is None,
{
    let n = stem + seq!['.'] + ext;
    assert forall|i: int| stem.len() < i < n.len() implies #[trigger] n[i] != '.' by {
        assert(n[i] == ext[i - stem.len() - 1]);
    }
    lemma_last_place(n, '.', stem.len() as int);
    assert(n.take(stem.len() as int) =~= stem);
    assert(n.skip(stem.len() as int + 1) =~= ext);
    lemma_last_place(ext, '.', -1);
    let hidden = seq!['.'] + ext;
    assert forall|i: int| 0 < i < hidden.len() implies #[trigger] hidden[i] != '.' by {
        assert(hidden[i] == ext[i - 1]);
    }
    lemma_last_place(hidden, '.', 0);
}

/// A name that begins with its only dot is all stem.
pub proof fn law_hidden_names_are_stems(name: Seq<char>)
    requires
        forall|i: int| 0 <= i < name.len() ==> #[trigger] name[i] != '.',
    ensures
        stem_of_name(seq!['.'] + name) == seq!['.'] + name,
{
    let hidden = seq!['.'] + name;
    assert forall|i: int| 0 < i < hidden.len() implies #[trigger] hidden[i] != '.' by {
        assert(hidden[i] == name[i - 1]);
    }
    lemma_last_place(hidden, '.', 0);
}

} // verus!
