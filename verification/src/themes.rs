//! Themes and asset locations: where a theme lives under the install
//! prefix, which stylesheet and script a run uses, and the list of themes.
//! Paths are Unix paths, joined with `/`.
use vstd::prelude::*;
use crate::text::{chars_of, string_of, push_str, push_all};
use crate::path::EntryKind;
use crate::listing::{lex_lt, lex_lt_exec, lemma_lex_irrefl, lemma_lex_trans, lemma_lex_total};

verus! {

/// `base` joined with `part` as `PathBuf::join` does on Unix: an absolute
/// `part` replaces `base`; otherwise a `/` is put between them unless `base`
/// is empty or already ends with one.
pub open spec fn join_path(base: Seq<char>, part: Seq<char>) -> Seq<char> {
    if part.len() > 0 && part[0] == '/' {
        part
    } else if base.len() == 0 || base.last() == '/' {
        base + part
    } else {
        base + seq!['/'] + part
    }
}

/// Joins two paths (see `join_path`).
pub fn join(base: &str, part: &str) -> (r: String)
    ensures
        r@ == join_path(base@, part@),
{
    let b = chars_of(base);
    let p = chars_of(part);
    if p.len() > 0 && p[0] == '/' {
        return string_of(&p);
    }
    let mut out: Vec<char> = Vec::new();
    push_all(&mut out, &b);
    if !(b.len() == 0 || b[b.len() - 1] == '/') {
        out.push('/');
    }
    push_all(&mut out, &p);
    string_of(&out)
}

/// `<prefix>/share/greymd/themes/<name>`.
pub open spec fn theme_dir_path(prefix: Seq<char>, name: Seq<char>) -> Seq<char> {
    join_path(join_path(join_path(join_path(prefix, "share"@), "greymd"@), "themes"@), name)
}

/// Where the theme `name` is installed under `prefix`.
pub fn theme_dir_candidate(prefix: &str, name: &str) -> (r: String)
    ensures
        r@ == theme_dir_path(prefix@, name@),
{
    let a = join(prefix, "share");
    let b = join(a.as_str(), "greymd");
    let c = join(b.as_str(), "themes");
    join(c.as_str(), name)
}

/// The directory of the theme `name` under `prefix`, given whether that
/// directory (see `theme_dir_candidate`) exists.
pub fn resolve_theme_dir_in(prefix: &str, name: &str, dir_exists: bool) -> (r: Option<String>)
    ensures
        dir_exists ==> (r matches Some(d) && d@ == theme_dir_path(prefix@, name@)),
        !dir_exists ==> r is None,
{
    if dir_exists {
        Some(theme_dir_candidate(prefix, name))
    } else {
        None
    }
}

/// The path of the asset `name` (`css` or `js`): the theme's file when the
/// theme has one, else the file in the configuration directory, else the
/// empty path.
pub open spec fn asset_path(
    theme_dir: Option<Seq<char>>,
    in_theme: bool,
    config_dir: Option<Seq<char>>,
    name: Seq<char>,
) -> Seq<char> {
    match theme_dir {
        Some(t) if in_theme => join_path(t, name),
        _ => match config_dir {
            Some(c) => join_path(c, name),
            None => seq![],
        },
    }
}

pub open spec fn opt_str_view(o: Option<&str>) -> Option<Seq<char>> {
    match o {
        Some(s) => Some(s@),
        None => None,
    }
}

/// Picks the path of an asset; `in_theme` tells whether the theme directory
/// holds a file of that name.
pub fn pick_asset_path(theme_dir: Option<&str>, in_theme: bool, config_dir: Option<&str>, name: &str) -> (r: String)
    ensures
        r@ == asset_path(opt_str_view(theme_dir), in_theme, opt_str_view(config_dir), name@),
{
    if let Some(td) = theme_dir {
        if in_theme {
            return join(td, name);
        }
    }
    match config_dir {
        Some(cd) => join(cd, name),
        None => String::new(),
    }
}

/// A theme overrides the configuration directory for exactly the assets it
/// holds: an asset it holds comes from the theme, any other asset comes
/// from where it would come without a theme.
pub proof fn lemma_theme_overrides_only_its_assets(
    theme: Seq<char>,
    in_theme: bool,
    config_dir: Option<Seq<char>>,
    name: Seq<char>,
)
    ensures
        in_theme ==> asset_path(Some(theme), in_theme, config_dir, name) == join_path(theme, name),
        !in_theme ==> asset_path(Some(theme), in_theme, config_dir, name) == asset_path(
            None,
            false,
            config_dir,
            name,
        ),
{
}

pub open spec fn string_views(v: Seq<String>) -> Seq<Seq<char>> {
    v.map_values(|s: String| s@)
}

/// The names of the directories among the entries of the themes directory.
pub open spec fn dir_names(raw: Seq<(Seq<char>, EntryKind)>) -> Seq<Seq<char>>
    decreases raw.len(),
{
    if raw.len() == 0 {
        seq![]
    } else if raw.last().1 == EntryKind::Directory {
        dir_names(raw.drop_last()).push(raw.last().0)
    } else {
        dir_names(raw.drop_last())
    }
}

/// Whether the names are in ascending order.
pub open spec fn names_sorted(s: Seq<Seq<char>>) -> bool {
    forall|i: int, j: int| 0 <= i < j < s.len() ==> !lex_lt(#[trigger] s[j], #[trigger] s[i])
}

/// Inserts `x` into the sorted names `r`, after the names that are not greater.
fn insert_name(r: &mut Vec<String>, x: String)
    requires
        names_sorted(string_views(old(r)@)),
    ensures
        names_sorted(string_views(final(r)@)),
        string_views(final(r)@).to_multiset() == string_views(old(r)@).to_multiset().insert(x@),
{
    let ghost s = string_views(r@);
    let xc = chars_of(x.as_str());
    let mut p = r.len();
    while p > 0 && lex_lt_exec(&xc, &chars_of(r[p - 1].as_str()))
        invariant
            p <= r.len(),
            s == string_views(r@),
            xc@ == x@,
            forall|k: int| p <= k < s.len() ==> lex_lt(x@, #[trigger] s[k]),
        decreases p,
    {
        assert(s[p - 1] == r@[p - 1]@);
        p = p - 1;
    }
    let ghost t = s.insert(p as int, x@);
    proof {
        assert forall|i: int, j: int| 0 <= i < j < t.len() implies !lex_lt(#[trigger] t[j], #[trigger] t[i]) by {
            if j < p {
                assert(t[i] == s[i] && t[j] == s[j]);
            } else if i > p {
                assert(t[i] == s[i - 1] && t[j] == s[j - 1]);
            } else if j == p {
                // i < p: s[i] is not greater than s[p - 1], which is not greater than x.
                assert(t[i] == s[i] && t[j] == x@);
                assert(p > 0);
                assert(!lex_lt(x@, s[p - 1]));
                if lex_lt(x@, s[i]) {
                    if i < p - 1 {
                        assert(!lex_lt(s[p - 1], s[i]));
                        lemma_lex_total(s[i], s[p - 1]);
                        if lex_lt(s[i], s[p - 1]) {
                            lemma_lex_trans(x@, s[i], s[p - 1]);
                        }
                    }
                }
            } else if i < p {
                assert(t[i] == s[i] && t[j] == s[j - 1]);
            } else {
                // i == p < j: x is less than s[j - 1].
                assert(t[i] == x@ && t[j] == s[j - 1]);
                assert(lex_lt(x@, s[j - 1]));
                if lex_lt(s[j - 1], x@) {
                    lemma_lex_trans(x@, s[j - 1], x@);
                    lemma_lex_irrefl(x@);
                }
            }
        }
        broadcast use vstd::seq_lib::group_to_multiset_ensures;
        assert(t.remove(p as int) =~= s);
        assert(t[p as int] == x@);
        assert(t.to_multiset().count(x@) > 0) by {
            assert(t.contains(x@));
        }
        assert(t.to_multiset() =~= s.to_multiset().insert(x@));
    }
    r.insert(p, x);
    assert(string_views(r@) =~= t);
}

/// The names of the themes: the subdirectories of the themes directory, in
/// ascending order.
pub fn theme_names(raw: Vec<(String, EntryKind)>) -> (r: Vec<String>)
    ensures
        names_sorted(string_views(r@)),
        string_views(r@).to_multiset() == dir_names(crate::listing::raw_view(raw@)).to_multiset(),
{
    let ghost rv = crate::listing::raw_view(raw@);
    let mut r: Vec<String> = Vec::new();
    let mut k: usize = 0;
    assert(string_views(r@).to_multiset() =~= dir_names(rv.take(0)).to_multiset()) by {
        broadcast use vstd::seq_lib::group_to_multiset_ensures;
        assert(string_views(r@) =~= Seq::<Seq<char>>::empty());
        assert(dir_names(rv.take(0)) =~= Seq::<Seq<char>>::empty());
    }
    while k < raw.len()
        invariant
            k <= raw.len(),
            rv == crate::listing::raw_view(raw@),
            names_sorted(string_views(r@)),
            string_views(r@).to_multiset() == dir_names(rv.take(k as int)).to_multiset(),
        decreases raw.len() - k,
    {
        broadcast use vstd::seq_lib::group_to_multiset_ensures;

        assert(rv.take(k + 1).drop_last() =~= rv.take(k as int));
        assert(rv.take(k + 1).last() == (raw@[k as int].0@, raw@[k as int].1));
        if raw[k].1 == EntryKind::Directory {
            let name = raw[k].0.clone();
            assert(name@ == raw@[k as int].0@);
            insert_name(&mut r, name);
        }
        k = k + 1;
    }
    assert(rv.take(raw.len() as int) =~= rv);
    r
}

/// The text that `--list-themes` prints, and whether it goes to standard
/// output (else to standard error).
pub open spec fn themes_text(names: Seq<Seq<char>>, themes_dir: Seq<char>) -> (bool, Seq<char>) {
    if names.len() == 0 {
        (false, "No themes found at "@ + themes_dir + "\n"@)
    } else {
        (true, "Available themes:\n"@ + theme_lines(names) + "\nUsage: greymd --theme <name> [directory]\n"@)
    }
}

pub open spec fn theme_lines(names: Seq<Seq<char>>) -> Seq<char>
    decreases names.len(),
{
    if names.len() == 0 {
        seq![]
    } else {
        theme_lines(names.drop_last()) + "  "@ + names.last() + "\n"@
    }
}

/// The report of `--list-themes`.
pub fn themes_report(names: &Vec<String>, themes_dir: &str) -> (r: (bool, String))
    ensures
        r.0 == themes_text(string_views(names@), themes_dir@).0,
        r.1@ == themes_text(string_views(names@), themes_dir@).1,
{
    let mut out: Vec<char> = Vec::new();
    if names.len() == 0 {
        push_str(&mut out, "No themes found at ");
        push_all(&mut out, &chars_of(themes_dir));
        push_str(&mut out, "\n");
        return (false, string_of(&out));
    }
    let ghost sv = string_views(names@);
    push_str(&mut out, "Available themes:\n");
    let ghost head = out@;
    let mut k: usize = 0;
    while k < names.len()
        invariant
            k <= names.len(),
            sv == string_views(names@),
            out@ == head + theme_lines(sv.take(k as int)),
        decreases names.len() - k,
    {
        assert(sv.take(k + 1).drop_last() =~= sv.take(k as int));
        assert(sv.take(k + 1).last() == names@[k as int]@);
        push_str(&mut out, "  ");
        push_all(&mut out, &chars_of(names[k].as_str()));
        push_str(&mut out, "\n");
        assert(out@ =~= head + theme_lines(sv.take(k + 1)));
        k = k + 1;
    }
    assert(sv.take(names.len() as int) =~= sv);
    push_str(&mut out, "\nUsage: greymd --theme <name> [directory]\n");
    (true, string_of(&out))
}

} // verus!
