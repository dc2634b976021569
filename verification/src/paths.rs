//! Where files are kept. A path is the list of the parts that are joined one after the
//! other.

use vstd::prelude::*;
use crate::catalog;
use crate::catalog::{FontEntry, FontView};
use crate::shell;
use crate::text;

verus! {

/// The directory of the font cache. `custom` is the value of `SHELL_QUEST_FONT_CACHE`,
/// `xdg` that of `XDG_CACHE_HOME`, and `home` that of `HOME`; the first that is set counts.
pub open spec fn root_parts(
    custom: Option<Seq<char>>,
    xdg: Option<Seq<char>>,
    home: Option<Seq<char>>,
) -> Seq<Seq<char>> {
    match (custom, xdg, home) {
        (Some(dir), _, _) => seq![dir],
        (None, Some(dir), _) => seq![dir, "shell-quest"@, "ttf-rasterizer"@],
        (None, None, Some(dir)) => seq![dir, ".cache"@, "shell-quest"@, "ttf-rasterizer"@],
        (None, None, None) => seq![".cache"@, "shell-quest"@, "ttf-rasterizer"@],
    }
}

/// Adds a part to a path.
fn add_part(parts: &mut Vec<String>, part: &str)
    ensures
        text::texts(final(parts)@) == text::texts(old(parts)@).push(part@),
{
    let ghost before = text::texts(parts@);
    parts.push(part.to_owned());
    assert(text::texts(parts@) == before.push(part@));
}

/// The directory of the font cache.
pub fn cache_root(custom: Option<String>, xdg: Option<String>, home: Option<String>) -> (r: Vec<
    String,
>)
    ensures
        text::texts(r@) == root_parts(
            text::option_text(custom),
            text::option_text(xdg),
            text::option_text(home),
        ),
{
    let mut parts: Vec<String> = Vec::new();
    assert(text::texts(parts@) == Seq::<Seq<char>>::empty());
    if let Some(dir) = custom {
        add_part(&mut parts, dir.as_str());
        assert(text::texts(parts@) == seq![dir@]);
        return parts;
    }
    if let Some(dir) = xdg {
        add_part(&mut parts, dir.as_str());
    } else if let Some(dir) = home {
        add_part(&mut parts, dir.as_str());
        add_part(&mut parts, ".cache");
    } else {
        add_part(&mut parts, ".cache");
    }
    add_part(&mut parts, "shell-quest");
    add_part(&mut parts, "ttf-rasterizer");
    assert(text::texts(parts@) == root_parts(
        text::option_text(custom),
        text::option_text(xdg),
        text::option_text(home),
    ));
    parts
}

/// The name of the file in which a font is kept.
pub open spec fn cache_file_name(e: FontView) -> Seq<char> {
    shell::slug(e.family) + "-"@ + shell::slug(e.variant) + ".ttf"@
}

/// The file in which a font is kept below the directory `root`.
pub fn cache_file_path(entry: &FontEntry, root: Vec<String>) -> (r: Vec<String>)
    ensures
        text::texts(r@) == text::texts(root@) + seq!["fonts"@, cache_file_name(entry@)],
{
    let mut name = shell::slugify(entry.family.as_str());
    name.append("-");
    name.append(shell::slugify(entry.variant.as_str()).as_str());
    name.append(".ttf");
    let mut parts = root;
    add_part(&mut parts, "fonts");
    add_part(&mut parts, name.as_str());
    assert(text::texts(parts@) == text::texts(root@) + seq!["fonts"@, cache_file_name(entry@)]);
    parts
}

/// How the bytes of a font are had.
#[derive(Debug)]
pub enum FontFetch {
    /// From the file in which they are kept.
    Cached { file: Vec<String> },
    /// From the web; they are then kept in a file, whose directory may have to be made.
    Download { url: String, directory: Vec<String>, file: Vec<String> },
}

/// Decides how the bytes of a font are had: from its file below `root` where that is there,
/// and from the web where it is not.
pub fn plan_font_fetch(entry: &FontEntry, root: Vec<String>, cached: bool) -> (r: FontFetch)
    ensures
        match r {
            FontFetch::Cached { file } => cached && text::texts(file@) == text::texts(root@)
                + seq!["fonts"@, cache_file_name(entry@)],
            FontFetch::Download { url, directory, file } => {
                &&& !cached
                &&& url@ == entry@.ttf_url
                &&& text::texts(directory@) == text::texts(root@).push("fonts"@)
                &&& text::texts(file@) == text::texts(root@) + seq![
                    "fonts"@,
                    cache_file_name(entry@),
                ]
            },
        },
{
    let ghost before = text::texts(root@);
    let file = cache_file_path(entry, root);
    if cached {
        return FontFetch::Cached { file };
    }
    let ghost whole = text::texts(file@);
    assert(whole.len() == file.len());
    assert(whole == before + seq!["fonts"@, cache_file_name(entry@)]);
    let last: usize = file.len() - 1;
    let mut directory: Vec<String> = Vec::new();
    let mut i: usize = 0;
    assert(text::texts(directory@) == whole.subrange(0, 0));
    while i < last
        invariant
            i <= last < file.len(),
            whole == text::texts(file@),
            text::texts(directory@) == whole.subrange(0, i as int),
        decreases last - i,
    {
        assert(whole[i as int] == file[i as int]@);
        add_part(&mut directory, file[i].as_str());
        assert(text::texts(directory@) == whole.subrange(0, i + 1));
        i = i + 1;
    }
    assert(text::texts(directory@) == before.push("fonts"@));
    FontFetch::Download { url: entry.ttf_url.clone(), directory, file }
}

/// The paths of several files.
pub open spec fn path_texts(v: Seq<Vec<String>>) -> Seq<Seq<Seq<char>>> {
    Seq::new(v.len(), |i: int| text::texts(v[i]@))
}

/// The files that may hold the key of the online catalog. `config` is the value of
/// `XDG_CONFIG_HOME`, and `home` that of `HOME`.
pub open spec fn key_files(
    config: Option<Seq<char>>,
    home: Option<Seq<char>>,
) -> Seq<Seq<Seq<char>>> {
    let below_config = match config {
        Some(dir) => seq![seq![dir, "shell-quest"@, "env.sh"@]],
        None => Seq::empty(),
    };
    let below_home = match home {
        Some(dir) => seq![seq![dir, ".config"@, "shell-quest"@, "env.sh"@]],
        None => Seq::empty(),
    };
    below_config + below_home
}

/// The files that may hold the key of the online catalog, in the order in which they are
/// looked at.
pub fn google_fonts_env_file_candidates(config: Option<String>, home: Option<String>) -> (r: Vec<
    Vec<String>,
>)
    ensures
        path_texts(r@) == key_files(text::option_text(config), text::option_text(home)),
{
    let mut paths: Vec<Vec<String>> = Vec::new();
    if let Some(dir) = config {
        let mut parts: Vec<String> = Vec::new();
        assert(text::texts(parts@) == Seq::<Seq<char>>::empty());
        add_part(&mut parts, dir.as_str());
        add_part(&mut parts, "shell-quest");
        add_part(&mut parts, "env.sh");
        assert(text::texts(parts@) == seq![dir@, "shell-quest"@, "env.sh"@]);
        paths.push(parts);
    }
    let ghost first = path_texts(paths@);
    if let Some(dir) = home {
        let mut parts: Vec<String> = Vec::new();
        assert(text::texts(parts@) == Seq::<Seq<char>>::empty());
        add_part(&mut parts, dir.as_str());
        add_part(&mut parts, ".config");
        add_part(&mut parts, "shell-quest");
        add_part(&mut parts, "env.sh");
        assert(text::texts(parts@) == seq![dir@, ".config"@, "shell-quest"@, "env.sh"@]);
        paths.push(parts);
    }
    assert(path_texts(paths@) == key_files(text::option_text(config), text::option_text(home)));
    paths
}

/// The file of a font lies in the cache: its name is `.ttf` behind small ASCII letters,
/// digits and dashes, so it leads to no other directory.
pub proof fn law_cache_file_name_is_safe(e: FontView, i: int)
    requires
        0 <= i < cache_file_name(e).len() - 4,
    ensures
        shell::slug_char(cache_file_name(e)[i]),
        cache_file_name(e).subrange(
            cache_file_name(e).len() - 4,
            cache_file_name(e).len() as int,
        ) == ".ttf"@,
{
    reveal_strlit(".ttf");
    reveal_strlit("-");
    shell::law_slug_is_safe(e.family);
    shell::law_slug_is_safe(e.variant);
    let name = cache_file_name(e);
    let f = shell::slug(e.family);
    let v = shell::slug(e.variant);
    if i < f.len() {
        assert(name[i] == f[i]);
    } else if i == f.len() {
        assert(name[i] == '-');
    } else {
        assert(name[i] == v[i - f.len() - 1]);
    }
    assert(name.subrange(name.len() - 4, name.len() as int) == ".ttf"@);
}

/// Two entries for the same font share one file.
pub proof fn law_same_font_same_file(a: FontView, b: FontView)
    requires
        catalog::same(a, b),
    ensures
        cache_file_name(a) == cache_file_name(b),
{
    shell::law_slug_ignores_case(a.family);
    shell::law_slug_ignores_case(b.family);
    shell::law_slug_ignores_case(a.variant);
    shell::law_slug_ignores_case(b.variant);
}

/// The directory of the font cache is the one that was given for it, if any. Else it is the
/// directory of this tool below that for caches: the one that was given, the one in the home
/// directory, or the one in the working directory.
pub proof fn law_cache_root(
    custom: Seq<char>,
    xdg: Option<Seq<char>>,
    home: Option<Seq<char>>,
    dir: Seq<char>,
)
    ensures
        root_parts(Some(custom), xdg, home) == seq![custom],
        root_parts(None, Some(dir), home) == seq![dir] + root_parts(None, None, None).subrange(1, 3),
        root_parts(None, None, Some(dir)) == seq![dir] + root_parts(None, None, None),
        root_parts(None, None, None) == seq![".cache"@, "shell-quest"@, "ttf-rasterizer"@],
{
    let base = root_parts(None, None, None);
    assert(root_parts(None, Some(dir), home) =~= seq![dir] + base.subrange(1, 3));
    assert(root_parts(None, None, Some(dir)) =~= seq![dir] + base);
}

/// The name of a font's file is the slug of the family and the slug of the variant with a dash
/// between them, and `.ttf` behind them.
pub proof fn law_cache_file_name(e: FontView)
    ensures
        cache_file_name(e) == text::join(
            seq![shell::slug(e.family), shell::slug(e.variant)],
            "-"@,
        ) + ".ttf"@,
{
    let parts = seq![shell::slug(e.family), shell::slug(e.variant)];
    assert(text::join(parts.drop_last(), "-"@) == shell::slug(e.family));
    assert(text::join(parts, "-"@) == shell::slug(e.family) + "-"@ + shell::slug(e.variant));
}

/// The key is looked for in the file below the directory for settings first, and then in the
/// one below the home directory, as far as these are known; nowhere else.
pub proof fn law_key_files(config: Seq<char>, home: Seq<char>)
    ensures
        key_files(None, None).len() == 0,
        key_files(Some(config), None) == seq![seq![config, "shell-quest"@, "env.sh"@]],
        key_files(None, Some(home)) == seq![seq![home, ".config"@, "shell-quest"@, "env.sh"@]],
        key_files(Some(config), Some(home)) == key_files(Some(config), None) + key_files(
            None,
            Some(home),
        ),
{
    assert(key_files(Some(config), None) =~= seq![seq![config, "shell-quest"@, "env.sh"@]]);
    assert(key_files(None, Some(home)) =~= seq![
        seq![home, ".config"@, "shell-quest"@, "env.sh"@],
    ]);
}

/// The paths of files are seen part by part, each at its place.
pub proof fn law_path_texts(v: Seq<Vec<String>>, i: int, k: int)
    requires
        0 <= i < v.len(),
        0 <= k < v[i]@.len(),
    ensures
        path_texts(v).len() == v.len(),
        path_texts(v)[i].len() == v[i]@.len(),
        path_texts(v)[i][k] == v[i]@[k]@,
{
}

} // verus!
