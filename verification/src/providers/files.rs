//! The file provider: an in-memory index of the home directory, fuzzy matched, with a
//! `plocate` fallback while the index is still empty.
use vstd::prelude::*;
use nucleo_matcher::pattern::{CaseMatching, Normalization, Pattern};
use nucleo_matcher::{Config, Matcher, Utf32Str};
use crate::desktop_entry::opt_view;
use crate::text::{
    chars_eq_str, chars_of, extend_chars, lines, lines_exec, split_char, split_char_exec, to_lower,
    string_from_chars, to_lowercase, trim, trim_str, all_ascii, ascii_uppercase,
    to_lower_ascii_idempotent, to_lower_of_ascii_uppercase, split_char_last_piece,
};
use crate::ranking::{first_n, sort_by_score, sort_by_score_is_ordered, top_by_score};
use super::apps::{fits_matcher, matcher_takes, pattern_score, query_fits_matcher};
use super::{ordered_results, SearchAction, SearchResult};

verus! {

/// Scores each haystack against `query` with `Pattern::score` (nucleo-matcher), using one
/// pattern parsed by `Pattern::parse(query, CaseMatching::Smart, Normalization::Smart)` and
/// one matcher built from `Config::DEFAULT.match_paths()`. Its `requires` leaves out the
/// inputs on which the matcher panics or its sum of word scores overflows, as for
/// `default_scores`: haystacks over `u32::MAX` bytes of UTF-8, and queries with a word
/// too long or too many characters in all (see `matcher_takes`).
#[verifier::external_body]
pub(crate) fn path_scores(query: &str, haystacks: &Vec<&str>) -> (r: Vec<Option<u32>>)
    requires
        matcher_takes(query@),
        forall|i: int| 0 <= i < haystacks@.len() ==> fits_matcher((#[trigger] haystacks@[i])@),
    ensures
        r@.len() == haystacks@.len(),
        forall|i: int|
            0 <= i < haystacks@.len() ==> #[trigger] r@[i] == pattern_score(query@, haystacks@[i]@, true),
{
    let pattern = Pattern::parse(query, CaseMatching::Smart, Normalization::Smart);
    let mut matcher = Matcher::new(Config::DEFAULT.match_paths());
    let mut buf = Vec::new();
    haystacks.iter().map(|h| pattern.score(Utf32Str::new(h, &mut buf), &mut matcher)).collect()
}

/// What `Path::strip_prefix(base)` gives for `path`, as text (`None` when `base` is not a
/// prefix of `path` component by component).
pub uninterp spec fn path_suffix(path: Seq<char>, base: Seq<char>) -> Option<Seq<char>>;

/// Calls `Path::strip_prefix`; the remainder is returned as text. Its result is named,
/// not restated (it compares paths component by component).
#[verifier::external_body]
fn strip_path_prefix(path: &str, base: &str) -> (r: Option<String>)
    ensures
        opt_view(r) == path_suffix(path@, base@),
{
    std::path::Path::new(path).strip_prefix(base).ok().map(|p| p.to_string_lossy().into_owned())
}

/// What `Path::file_name` gives for `path`, as text.
pub uninterp spec fn path_file_name(path: Seq<char>) -> Option<Seq<char>>;

/// Calls `Path::file_name`; the final component is returned as text. Its result is named,
/// not restated.
#[verifier::external_body]
fn file_name_of(path: &str) -> (r: Option<String>)
    ensures
        opt_view(r) == path_file_name(path@),
{
    std::path::Path::new(path).file_name().map(|n| n.to_string_lossy().into_owned())
}

/// An indexed file or directory.
#[derive(Clone, Debug)]
pub struct FileEntry {
    pub path: String,
    pub file_name: String,
    pub is_dir: bool,
}

/// The most entries the index holds.
pub const MAX_INDEXED_FILES: usize = 75000;

/// The most results a query gives.
pub const MAX_FILE_RESULTS: usize = 15;

/// Each entry's name and path fit the matcher.
pub open spec fn entries_fit_matcher(entries: Seq<FileEntry>) -> bool {
    forall|i: int|
        0 <= i < entries.len() ==> fits_matcher((#[trigger] entries[i]).file_name@) && fits_matcher(
            entries[i].path@,
        )
}

/// Directory names the indexer does not descend into.
pub open spec fn is_pruned_dir(name: Seq<char>) -> bool {
    ||| name == "node_modules"@
    ||| name == "target"@
    ||| name == ".git"@
    ||| name == ".cache"@
    ||| name == ".cargo"@
    ||| name == ".rustup"@
    ||| name == ".npm"@
    ||| name == ".venv"@
    ||| name == "vendor"@
}

/// The indexer skips exactly the directories named `node_modules`, `target`, `.git`,
/// `.cache`, `.cargo`, `.rustup`, `.npm`, `.venv` and `vendor`.
pub proof fn pruned_dirs_are_listed(name: Seq<char>)
    ensures
        is_pruned_dir(name) <==> (name == "node_modules"@ || name == "target"@ || name == ".git"@ || name
            == ".cache"@ || name == ".cargo"@ || name == ".rustup"@ || name == ".npm"@ || name == ".venv"@
            || name == "vendor"@),
{
}

/// Whether the indexer skips a directory entry of this name.
pub fn is_pruned_dir_name(name: &str) -> (r: bool)
    ensures
        r == is_pruned_dir(name@),
{
    let n = chars_of(name);
    chars_eq_str(&n, "node_modules") || chars_eq_str(&n, "target") || chars_eq_str(&n, ".git")
        || chars_eq_str(&n, ".cache") || chars_eq_str(&n, ".cargo") || chars_eq_str(&n, ".rustup")
        || chars_eq_str(&n, ".npm") || chars_eq_str(&n, ".venv") || chars_eq_str(&n, "vendor")
}

/// The index entry for a path met by the indexer: none for the home directory itself, or
/// when the path or its name is not valid UTF-8 (`None`); otherwise the path with its
/// name. Paths are held as text, so one that is not UTF-8 is left out rather than kept in
/// a lossy form that would open another file.
pub fn found_entry(path: Option<String>, file_name: Option<String>, is_dir: bool, is_home: bool) -> (r:
    Option<FileEntry>)
    ensures
        r is None <==> (is_home || path is None || file_name is None),
        r matches Some(e) ==> path matches Some(p) && file_name matches Some(n) && e.path@ == p@
            && e.file_name@ == n@ && e.is_dir == is_dir,
{
    if is_home {
        return None;
    }
    match (path, file_name) {
        (Some(path), Some(name)) => Some(FileEntry { path, file_name: name, is_dir }),
        _ => None,
    }
}

/// Adds an entry found by the indexer; the answer tells whether indexing goes on
/// (it stops once the index is full).
pub fn index_entry(entries: &mut Vec<FileEntry>, entry: FileEntry) -> (go_on: bool)
    requires
        old(entries)@.len() < MAX_INDEXED_FILES,
    ensures
        final(entries)@ == old(entries)@.push(entry),
        go_on == (final(entries)@.len() < MAX_INDEXED_FILES),
{
    entries.push(entry);
    entries.len() < MAX_INDEXED_FILES
}

// ---------------------------------------------------------------- icons

/// The icon for a file extension.
pub open spec fn icon_for_ext(ext: Seq<char>) -> Seq<char> {
    if ext == "png"@ || ext == "jpg"@ || ext == "jpeg"@ || ext == "gif"@ || ext == "svg"@ || ext
        == "webp"@ {
        "image-x-generic"@
    } else if ext == "mp4"@ || ext == "mkv"@ || ext == "webm"@ || ext == "avi"@ || ext == "mov"@ {
        "video-x-generic"@
    } else if ext == "mp3"@ || ext == "flac"@ || ext == "wav"@ || ext == "ogg"@ || ext == "m4a"@ {
        "audio-x-generic"@
    } else if ext == "pdf"@ {
        "application-pdf"@
    } else if ext == "zip"@ || ext == "tar"@ || ext == "gz"@ || ext == "bz2"@ || ext == "xz"@ || ext
        == "7z"@ {
        "package-x-generic"@
    } else if ext == "rs"@ || ext == "py"@ || ext == "js"@ || ext == "ts"@ || ext == "c"@ || ext
        == "cpp"@ || ext == "h"@ || ext == "go"@ || ext == "html"@ || ext == "css"@ || ext
        == "json"@ || ext == "toml"@ || ext == "yaml"@ || ext == "yml"@ || ext == "sh"@ {
        "text-x-script"@
    } else {
        "text-x-generic"@
    }
}

/// The extension of a file name as `rsplit('.').next()` sees it: the lowercased text
/// after the last `.`, or the whole lowercased name when it has none.
pub open spec fn file_ext(name: Seq<char>) -> Seq<char> {
    split_char(to_lower(name), '.').last()
}

/// The icon shown for a file of this name.
pub open spec fn file_icon(name: Seq<char>) -> Seq<char> {
    icon_for_ext(file_ext(name))
}

fn icon_for_ext_exec(e: &Vec<char>) -> (r: String)
    ensures
        r@ == icon_for_ext(e@),
{
    let icon = if chars_eq_str(e, "png") || chars_eq_str(e, "jpg") || chars_eq_str(e, "jpeg")
        || chars_eq_str(e, "gif") || chars_eq_str(e, "svg") || chars_eq_str(e, "webp") {
        "image-x-generic"
    } else if chars_eq_str(e, "mp4") || chars_eq_str(e, "mkv") || chars_eq_str(e, "webm")
        || chars_eq_str(e, "avi") || chars_eq_str(e, "mov") {
        "video-x-generic"
    } else if chars_eq_str(e, "mp3") || chars_eq_str(e, "flac") || chars_eq_str(e, "wav")
        || chars_eq_str(e, "ogg") || chars_eq_str(e, "m4a") {
        "audio-x-generic"
    } else if chars_eq_str(e, "pdf") {
        "application-pdf"
    } else if chars_eq_str(e, "zip") || chars_eq_str(e, "tar") || chars_eq_str(e, "gz")
        || chars_eq_str(e, "bz2") || chars_eq_str(e, "xz") || chars_eq_str(e, "7z") {
        "package-x-generic"
    } else if chars_eq_str(e, "rs") || chars_eq_str(e, "py") || chars_eq_str(e, "js")
        || chars_eq_str(e, "ts") || chars_eq_str(e, "c") || chars_eq_str(e, "cpp")
        || chars_eq_str(e, "h") || chars_eq_str(e, "go") || chars_eq_str(e, "html")
        || chars_eq_str(e, "css") || chars_eq_str(e, "json") || chars_eq_str(e, "toml")
        || chars_eq_str(e, "yaml") || chars_eq_str(e, "yml") || chars_eq_str(e, "sh") {
        "text-x-script"
    } else {
        "text-x-generic"
    };
    icon.to_owned()
}

/// The icon name for a file, chosen by its (case-insensitive) extension.
pub fn icon_for_filename(name: &str) -> (r: Option<String>)
    ensures
        opt_view(r) == Some(file_icon(name@)),
{
    let lowered = to_lowercase(name);
    let cs = chars_of(lowered.as_str());
    let pieces = split_char_exec(&cs, '.');
    let last = &pieces[pieces.len() - 1];
    Some(icon_for_ext_exec(last))
}

/// The extension of a file name is the end of its lowercased form (as `str::to_lowercase`
/// gives it) after the last `.`, or all of it when it holds no `.`.
pub proof fn file_ext_after_last_dot(name: Seq<char>)
    ensures
        ({
            let l = to_lower(name);
            let e = file_ext(name);
            &&& e.len() <= l.len()
            &&& e == l.skip(l.len() - e.len())
            &&& forall|i: int| 0 <= i < e.len() ==> #[trigger] e[i] != '.'
            &&& (e.len() == l.len() || l[l.len() - e.len() - 1] == '.')
        }),
{
    split_char_last_piece(to_lower(name), '.');
}

/// The icon of a file is chosen by its extension: images, videos, sounds, PDF documents,
/// archives and source or configuration files each have theirs; any other file gets the
/// generic text icon.
pub proof fn file_icon_by_extension(name: Seq<char>)
    ensures
        ({
            let e = file_ext(name);
            let i = file_icon(name);
            &&& (e == "png"@ || e == "jpg"@ || e == "jpeg"@ || e == "gif"@ || e == "svg"@ || e == "webp"@)
                ==> i == "image-x-generic"@
            &&& (e == "mp4"@ || e == "mkv"@ || e == "webm"@ || e == "avi"@ || e == "mov"@) ==> i
                == "video-x-generic"@
            &&& (e == "mp3"@ || e == "flac"@ || e == "wav"@ || e == "ogg"@ || e == "m4a"@) ==> i
                == "audio-x-generic"@
            &&& e == "pdf"@ ==> i == "application-pdf"@
            &&& (e == "zip"@ || e == "tar"@ || e == "gz"@ || e == "bz2"@ || e == "xz"@ || e == "7z"@) ==> i
                == "package-x-generic"@
            &&& (e == "rs"@ || e == "py"@ || e == "js"@ || e == "ts"@ || e == "c"@ || e == "cpp"@ || e == "h"@
                || e == "go"@ || e == "html"@ || e == "css"@ || e == "json"@ || e == "toml"@ || e == "yaml"@
                || e == "yml"@ || e == "sh"@) ==> i == "text-x-script"@
            &&& !(e == "png"@ || e == "jpg"@ || e == "jpeg"@ || e == "gif"@ || e == "svg"@ || e == "webp"@
                || e == "mp4"@ || e == "mkv"@ || e == "webm"@ || e == "avi"@ || e == "mov"@ || e == "mp3"@
                || e == "flac"@ || e == "wav"@ || e == "ogg"@ || e == "m4a"@ || e == "pdf"@ || e == "zip"@
                || e == "tar"@ || e == "gz"@ || e == "bz2"@ || e == "xz"@ || e == "7z"@ || e == "rs"@
                || e == "py"@ || e == "js"@ || e == "ts"@ || e == "c"@ || e == "cpp"@ || e == "h"@
                || e == "go"@ || e == "html"@ || e == "css"@ || e == "json"@ || e == "toml"@ || e == "yaml"@
                || e == "yml"@ || e == "sh"@) ==> i == "text-x-generic"@
        }),
{
    let e = file_ext(name);
    if e == "png"@ {
        reveal_strlit("png");
        assert(e.len() == 3 && e[0] == 'p' && e[1] == 'n' && e[2] == 'g');
    }
    if e == "jpg"@ {
        reveal_strlit("jpg");
        assert(e.len() == 3 && e[0] == 'j' && e[1] == 'p' && e[2] == 'g');
    }
    if e == "jpeg"@ {
        reveal_strlit("jpeg");
        assert(e.len() == 4 && e[0] == 'j' && e[1] == 'p' && e[2] == 'e' && e[3] == 'g');
    }
    if e == "gif"@ {
        reveal_strlit("gif");
        assert(e.len() == 3 && e[0] == 'g' && e[1] == 'i' && e[2] == 'f');
    }
    if e == "svg"@ {
        reveal_strlit("svg");
        assert(e.len() == 3 && e[0] == 's' && e[1] == 'v' && e[2] == 'g');
    }
    if e == "webp"@ {
        reveal_strlit("webp");
        assert(e.len() == 4 && e[0] == 'w' && e[1] == 'e' && e[2] == 'b' && e[3] == 'p');
    }
    if e == "mp4"@ {
        reveal_strlit("mp4");
        assert(e.len() == 3 && e[0] == 'm' && e[1] == 'p' && e[2] == '4');
    }
    if e == "mkv"@ {
        reveal_strlit("mkv");
        assert(e.len() == 3 && e[0] == 'm' && e[1] == 'k' && e[2] == 'v');
    }
    if e == "webm"@ {
        reveal_strlit("webm");
        assert(e.len() == 4 && e[0] == 'w' && e[1] == 'e' && e[2] == 'b' && e[3] == 'm');
    }
    if e == "avi"@ {
        reveal_strlit("avi");
        assert(e.len() == 3 && e[0] == 'a' && e[1] == 'v' && e[2] == 'i');
    }
    if e == "mov"@ {
        reveal_strlit("mov");
        assert(e.len() == 3 && e[0] == 'm' && e[1] == 'o' && e[2] == 'v');
    }
    if e == "mp3"@ {
        reveal_strlit("mp3");
        assert(e.len() == 3 && e[0] == 'm' && e[1] == 'p' && e[2] == '3');
    }
    if e == "flac"@ {
        reveal_strlit("flac");
        assert(e.len() == 4 && e[0] == 'f' && e[1] == 'l' && e[2] == 'a' && e[3] == 'c');
    }
    if e == "wav"@ {
        reveal_strlit("wav");
        assert(e.len() == 3 && e[0] == 'w' && e[1] == 'a' && e[2] == 'v');
    }
    if e == "ogg"@ {
        reveal_strlit("ogg");
        assert(e.len() == 3 && e[0] == 'o' && e[1] == 'g' && e[2] == 'g');
    }
    if e == "m4a"@ {
        reveal_strlit("m4a");
        assert(e.len() == 3 && e[0] == 'm' && e[1] == '4' && e[2] == 'a');
    }
    if e == "pdf"@ {
        reveal_strlit("pdf");
        assert(e.len() == 3 && e[0] == 'p' && e[1] == 'd' && e[2] == 'f');
    }
    if e == "zip"@ {
        reveal_strlit("zip");
        assert(e.len() == 3 && e[0] == 'z' && e[1] == 'i' && e[2] == 'p');
    }
    if e == "tar"@ {
        reveal_strlit("tar");
        assert(e.len() == 3 && e[0] == 't' && e[1] == 'a' && e[2] == 'r');
    }
    if e == "gz"@ {
        reveal_strlit("gz");
        assert(e.len() == 2 && e[0] == 'g' && e[1] == 'z');
    }
    if e == "bz2"@ {
        reveal_strlit("bz2");
        assert(e.len() == 3 && e[0] == 'b' && e[1] == 'z' && e[2] == '2');
    }
    if e == "xz"@ {
        reveal_strlit("xz");
        assert(e.len() == 2 && e[0] == 'x' && e[1] == 'z');
    }
    if e == "7z"@ {
        reveal_strlit("7z");
        assert(e.len() == 2 && e[0] == '7' && e[1] == 'z');
    }
    if e == "rs"@ {
        reveal_strlit("rs");
        assert(e.len() == 2 && e[0] == 'r' && e[1] == 's');
    }
    if e == "py"@ {
        reveal_strlit("py");
        assert(e.len() == 2 && e[0] == 'p' && e[1] == 'y');
    }
    if e == "js"@ {
        reveal_strlit("js");
        assert(e.len() == 2 && e[0] == 'j' && e[1] == 's');
    }
    if e == "ts"@ {
        reveal_strlit("ts");
        assert(e.len() == 2 && e[0] == 't' && e[1] == 's');
    }
    if e == "c"@ {
        reveal_strlit("c");
        assert(e.len() == 1 && e[0] == 'c');
    }
    if e == "cpp"@ {
        reveal_strlit("cpp");
        assert(e.len() == 3 && e[0] == 'c' && e[1] == 'p' && e[2] == 'p');
    }
    if e == "h"@ {
        reveal_strlit("h");
        assert(e.len() == 1 && e[0] == 'h');
    }
    if e == "go"@ {
        reveal_strlit("go");
        assert(e.len() == 2 && e[0] == 'g' && e[1] == 'o');
    }
    if e == "html"@ {
        reveal_strlit("html");
        assert(e.len() == 4 && e[0] == 'h' && e[1] == 't' && e[2] == 'm' && e[3] == 'l');
    }
    if e == "css"@ {
        reveal_strlit("css");
        assert(e.len() == 3 && e[0] == 'c' && e[1] == 's' && e[2] == 's');
    }
    if e == "json"@ {
        reveal_strlit("json");
        assert(e.len() == 4 && e[0] == 'j' && e[1] == 's' && e[2] == 'o' && e[3] == 'n');
    }
    if e == "toml"@ {
        reveal_strlit("toml");
        assert(e.len() == 4 && e[0] == 't' && e[1] == 'o' && e[2] == 'm' && e[3] == 'l');
    }
    if e == "yaml"@ {
        reveal_strlit("yaml");
        assert(e.len() == 4 && e[0] == 'y' && e[1] == 'a' && e[2] == 'm' && e[3] == 'l');
    }
    if e == "yml"@ {
        reveal_strlit("yml");
        assert(e.len() == 3 && e[0] == 'y' && e[1] == 'm' && e[2] == 'l');
    }
    if e == "sh"@ {
        reveal_strlit("sh");
        assert(e.len() == 2 && e[0] == 's' && e[1] == 'h');
    }
}

/// For an ASCII name the icon ignores case: the name lowercased (as `str::to_lowercase`
/// does) or uppercased gets the same icon.
pub proof fn file_icon_ignores_ascii_case(name: Seq<char>)
    requires
        all_ascii(name),
    ensures
        file_icon(to_lower(name)) == file_icon(name),
        file_icon(ascii_uppercase(name)) == file_icon(name),
{
    to_lower_ascii_idempotent(name);
    to_lower_of_ascii_uppercase(name);
}

/// Every file name is given one of the seven icons.
pub proof fn file_icon_is_known(name: Seq<char>)
    ensures
        ({
            let i = file_icon(name);
            ||| i == "image-x-generic"@
            ||| i == "video-x-generic"@
            ||| i == "audio-x-generic"@
            ||| i == "application-pdf"@
            ||| i == "package-x-generic"@
            ||| i == "text-x-script"@
            ||| i == "text-x-generic"@
        }),
{
}


// ---------------------------------------------------------------- the provider

/// How `path` is shown: `~/` and the rest when it lies under the home directory, as it
/// is otherwise.
pub open spec fn pretty_path(home: Option<Seq<char>>, path: Seq<char>) -> Seq<char> {
    match home {
        Some(h) => match path_suffix(path, h) {
            Some(rest) => "~/"@ + rest,
            None => path,
        },
        None => path,
    }
}

/// `r` is the result for the file at `path` named `name`, with the given score: titled by
/// its name, opening the file, with a second action opening its folder.
pub open spec fn is_file_result(
    r: SearchResult,
    home: Option<Seq<char>>,
    path: Seq<char>,
    name: Seq<char>,
    is_dir: bool,
    score: i64,
) -> bool {
    &&& r.id@ == "file:"@ + path
    &&& r.title@ == name
    &&& opt_view(r.subtitle) == Some(pretty_path(home, path))
    &&& opt_view(r.icon) == Some(
        if is_dir {
            "folder"@
        } else {
            file_icon(name)
        },
    )
    &&& r.score == score
    &&& (match r.action {
        SearchAction::OpenFile { path: p } => p@ == path,
        _ => false,
    })
    &&& r.secondary_actions@.len() == 1
    &&& r.secondary_actions@[0].0@ == "Open folder"@
    &&& (match r.secondary_actions@[0].1 {
        SearchAction::OpenFolder { path: p } => p@ == path,
        _ => false,
    })
}

/// The score of an entry for a query: twice the match score of its name, or else the
/// match score of its whole path; `None` when neither matches.
pub open spec fn file_score(query: Seq<char>, e: FileEntry) -> Option<i64> {
    match pattern_score(query, e.file_name@, true) {
        Some(s) => Some((s as i64 * 2) as i64),
        None => match pattern_score(query, e.path@, true) {
            Some(p) => Some(p as i64),
            None => None,
        },
    }
}

/// The (score, position) of each matching entry, in index order.
pub open spec fn file_hits(query: Seq<char>, entries: Seq<FileEntry>) -> Seq<(i64, usize)>
    decreases entries.len(),
{
    if entries.len() == 0 {
        Seq::empty()
    } else {
        let h = file_hits(query, entries.drop_last());
        match file_score(query, entries.last()) {
            Some(s) => h.push((s, (entries.len() - 1) as usize)),
            None => h,
        }
    }
}

/// What a file search leads to.
pub enum FileSearch {
    /// The results, final.
    Results(Vec<SearchResult>),
    /// The index is still empty: ask `plocate` for this (trimmed) query and pass what
    /// it finds to [`FilesProvider::locate_results`].
    Locate(String),
}

/// A line of `plocate` output whose path exists.
pub struct LocateHit {
    /// The position of the line in the output.
    pub index: usize,
    /// The line as printed.
    pub line: String,
    pub is_dir: bool,
}

/// The lines of `plocate` output, in order.
pub fn locate_lines(output: &str) -> (r: Vec<String>)
    ensures
        r@.map_values(|l: String| l@) == lines(output@),
{
    let cs = chars_of(output);
    let ls = lines_exec(&cs);
    let mut out: Vec<String> = Vec::new();
    let mut i: usize = 0;
    while i < ls.len()
        invariant
            i <= ls@.len(),
            crate::text::char_views(ls@) == lines(output@),
            out@.map_values(|l: String| l@) == lines(output@).take(i as int),
        decreases ls@.len() - i,
    {
        let ghost before = out@.map_values(|l: String| l@);
        assert(crate::text::char_views(ls@)[i as int] == ls@[i as int]@);
        out.push(string_from_chars(ls[i].as_slice()));
        assert(out@.map_values(|l: String| l@) =~= before.push(ls@[i as int]@));
        assert(lines(output@).take(i + 1) =~= lines(output@).take(i as int).push(ls@[i as int]@));
        i = i + 1;
        assert(out@.map_values(|l: String| l@) =~= lines(output@).take(i as int));
    }
    assert(lines(output@).take(ls@.len() as int) =~= lines(output@));
    out
}


/// Text shorter than two bytes of UTF-8: empty, or a single ASCII character.
pub open spec fn under_two_bytes(q: Seq<char>) -> bool {
    q.len() == 0 || (q.len() == 1 && (q[0] as u32) < 0x80)
}

/// The outcome of a file search for `query`: nothing when the trimmed query is shorter
/// than two bytes of UTF-8; a `plocate` lookup of the trimmed query when the index is
/// empty; otherwise the best matches, by score, highest first (equal scores in index
/// order), at most [`MAX_FILE_RESULTS`] of them.
pub open spec fn file_search(
    entries: Seq<FileEntry>,
    home: Option<Seq<char>>,
    query: Seq<char>,
    r: FileSearch,
) -> bool {
    let q = trim(query);
    if under_two_bytes(q) {
        r matches FileSearch::Results(v) && v@.len() == 0
    } else if entries.len() == 0 {
        r matches FileSearch::Locate(s) && s@ == q
    } else {
        let top = first_n(sort_by_score(file_hits(q, entries)), MAX_FILE_RESULTS as int);
        match r {
            FileSearch::Results(v) => v@.len() == top.len() && forall|k: int|
                0 <= k < v@.len() ==> {
                    let e = entries[top[k].1 as int];
                    is_file_result(#[trigger] v@[k], home, e.path@, e.file_name@, e.is_dir, top[k].0)
                },
            FileSearch::Locate(_) => false,
        }
    }
}

/// `r` shows the file at `path` named `name` with the given score: titled by the name,
/// with `file:` and the path as id, the path as shown to the user as subtitle, the folder
/// icon for a directory and the icon of its name otherwise, opening the path, with one
/// more action, "Open folder", opening the path as a folder.
pub open spec fn shows_file(
    r: SearchResult,
    home: Option<Seq<char>>,
    path: Seq<char>,
    name: Seq<char>,
    is_dir: bool,
    score: i64,
) -> bool {
    &&& r.score == score
    &&& r.title@ == name
    &&& r.id@ == "file:"@ + path
    &&& opt_view(r.subtitle) == Some(pretty_path(home, path))
    &&& opt_view(r.icon) == Some(if is_dir { "folder"@ } else { file_icon(name) })
    &&& (r.action matches SearchAction::OpenFile { path: p } && p@ == path)
    &&& r.secondary_actions@.len() == 1
    &&& r.secondary_actions@[0].0@ == "Open folder"@
    &&& (r.secondary_actions@[0].1 matches SearchAction::OpenFolder { path: p } && p@ == path)
}

/// What the file search answers for `query`, trimmed to `q`: no results when `q` is empty
/// or a single ASCII character; a `plocate` lookup of `q` when the index is empty;
/// otherwise the first [`MAX_FILE_RESULTS`] hits of `q` sorted by score, each showing
/// its entry with the hit's score.
pub proof fn file_search_answers(entries: Seq<FileEntry>, home: Option<Seq<char>>, query: Seq<char>, r: FileSearch)
    requires
        file_search(entries, home, query, r),
    ensures
        ({
            let q = trim(query);
            let short = q.len() == 0 || (q.len() == 1 && (q[0] as u32) < 0x80);
            let top = sort_by_score(file_hits(q, entries));
            &&& short ==> (r matches FileSearch::Results(v) && v@.len() == 0)
            &&& !short && entries.len() == 0 ==> (r matches FileSearch::Locate(s) && s@ == q)
            &&& !short && entries.len() > 0 ==> (r matches FileSearch::Results(v) && v@.len() == (if top.len()
                < 15 {
                top.len() as int
            } else {
                15
            }) && forall|k: int|
                0 <= k < v@.len() ==> shows_file(
                    #[trigger] v@[k],
                    home,
                    entries[top[k].1 as int].path@,
                    entries[top[k].1 as int].file_name@,
                    entries[top[k].1 as int].is_dir,
                    top[k].0,
                ))
        }),
{
    let q = trim(query);
    if !under_two_bytes(q) && entries.len() > 0 {
        let top = sort_by_score(file_hits(q, entries));
        let t = first_n(top, MAX_FILE_RESULTS as int);
        match r {
            FileSearch::Results(v) => {
                assert forall|k: int| 0 <= k < v@.len() implies shows_file(
                    #[trigger] v@[k],
                    home,
                    entries[top[k].1 as int].path@,
                    entries[top[k].1 as int].file_name@,
                    entries[top[k].1 as int].is_dir,
                    top[k].0,
                ) by {
                    assert(t[k] == top[k]);
                    let e = entries[t[k].1 as int];
                    assert(is_file_result(v@[k], home, e.path@, e.file_name@, e.is_dir, t[k].0));
                }
            },
            _ => {},
        }
    }
}

/// The results for `plocate` hits are one per hit, in order: the hit's line trimmed is
/// the path; the file name of that path (`Path::file_name`), or else the whole line, is
/// the title; the score is 100 less the line's position.
pub proof fn located_results_one_per_hit(home: Option<Seq<char>>, hits: Seq<LocateHit>, r: Seq<SearchResult>)
    requires
        located_results(home, hits, r),
    ensures
        r.len() == hits.len(),
        forall|k: int|
            0 <= k < r.len() ==> shows_file(
                #[trigger] r[k],
                home,
                trim(hits[k].line@),
                match path_file_name(trim(hits[k].line@)) {
                    Some(n) => n,
                    None => hits[k].line@,
                },
                hits[k].is_dir,
                (100 - hits[k].index as i64) as i64,
            ),
{
    assert forall|k: int| 0 <= k < r.len() implies shows_file(
        #[trigger] r[k],
        home,
        trim(hits[k].line@),
        match path_file_name(trim(hits[k].line@)) {
            Some(n) => n,
            None => hits[k].line@,
        },
        hits[k].is_dir,
        (100 - hits[k].index as i64) as i64,
    ) by {
        assert(is_file_result(
            r[k],
            home,
            trim(hits[k].line@),
            located_name(hits[k].line@),
            hits[k].is_dir,
            (100 - hits[k].index as i64) as i64,
        ));
    }
}

/// How a path is shown: under the home directory, `~/` and the rest of it
/// (`Path::strip_prefix`); otherwise, or without a home directory, as it is.
pub proof fn pretty_path_under_home(home: Option<Seq<char>>, path: Seq<char>)
    ensures
        pretty_path(home, path) == (match home {
            Some(h) => match path_suffix(path, h) {
                Some(rest) => "~/"@ + rest,
                None => path,
            },
            None => path,
        }),
{
}

/// The name shown for a `plocate` hit: the final component of its path, or the whole
/// line when the path has none.
pub open spec fn located_name(line: Seq<char>) -> Seq<char> {
    match path_file_name(trim(line)) {
        Some(n) => n,
        None => line,
    }
}

/// The results for `plocate` hits, in order: the path is the trimmed line, the score is
/// 100 minus the line's position.
pub open spec fn located_results(home: Option<Seq<char>>, hits: Seq<LocateHit>, r: Seq<SearchResult>) -> bool {
    r.len() == hits.len() && forall|k: int|
        0 <= k < r.len() ==> is_file_result(
            #[trigger] r[k],
            home,
            trim(hits[k].line@),
            located_name(hits[k].line@),
            hits[k].is_dir,
            (100 - hits[k].index as i64) as i64,
        )
}

/// How an index entry is scored for a query: twice the match score of its file name
/// when the name matches; otherwise the match score of its whole path when the path
/// matches; otherwise it is not a hit.
pub proof fn file_score_name_then_path(query: Seq<char>, e: FileEntry)
    ensures
        file_score(query, e) == (match pattern_score(query, e.file_name@, true) {
            Some(s) => Some((2 * s) as i64),
            None => match pattern_score(query, e.path@, true) {
                Some(p) => Some(p as i64),
                None => None,
            },
        }),
{
}

/// The hits of a query are exactly the scored entries, each paired with its position:
/// in index order, `(s, k)` is a hit when entry `k` scores `s`, and only then.
pub proof fn file_hits_are_scored_entries(query: Seq<char>, entries: Seq<FileEntry>)
    requires
        entries.len() <= usize::MAX,
    ensures
        forall|s: i64, k: usize|
            #[trigger] file_hits(query, entries).contains((s, k)) <==> (k < entries.len() && file_score(
                query,
                entries[k as int],
            ) == Some(s)),
        forall|i: int, j: int|
            0 <= i < j < file_hits(query, entries).len() ==> (#[trigger] file_hits(query, entries)[i]).1 < (#[trigger] file_hits(
                query,
                entries,
            )[j]).1,
    decreases entries.len(),
{
    if entries.len() > 0 {
        let init = entries.drop_last();
        file_hits_are_scored_entries(query, init);
        let h = file_hits(query, init);
        let n = (entries.len() - 1) as usize;
        assert forall|i: int, j: int|
            0 <= i < j < file_hits(query, entries).len() implies (#[trigger] file_hits(query, entries)[i]).1 < (#[trigger] file_hits(
                query,
                entries,
            )[j]).1 by {
            if j < h.len() {
                assert(file_hits(query, entries)[i] == h[i] && file_hits(query, entries)[j] == h[j]);
            } else {
                assert(h.contains((h[i].0, h[i].1)));
                assert(file_hits(query, entries)[i] == h[i]);
                match file_score(query, entries.last()) {
                    Some(t) => {
                        assert(file_hits(query, entries) == h.push((t, n)));
                    },
                    None => {
                        assert(file_hits(query, entries) == h);
                    },
                }
            }
        }
        assert forall|s: i64, k: usize|
            #[trigger] file_hits(query, entries).contains((s, k)) <==> (k < entries.len() && file_score(
                query,
                entries[k as int],
            ) == Some(s)) by {
            assert(h.contains((s, k)) <==> (k < init.len() && file_score(query, init[k as int]) == Some(s)));
            if k < init.len() {
                assert(init[k as int] == entries[k as int]);
            }
            match file_score(query, entries.last()) {
                Some(t) => {
                    let hh = h.push((t, n));
                    assert(file_hits(query, entries) == hh);
                    if hh.contains((s, k)) {
                        let w = choose|w: int| 0 <= w < hh.len() && hh[w] == (s, k);
                        if w < h.len() {
                            assert(h[w] == (s, k));
                        }
                    }
                    if h.contains((s, k)) {
                        let w = choose|w: int| 0 <= w < h.len() && h[w] == (s, k);
                        assert(hh[w] == (s, k));
                    }
                    if k == n && t == s {
                        assert(hh[h.len() as int] == (s, k));
                    }
                },
                None => {
                    assert(file_hits(query, entries) == h);
                },
            }
        }
    }
}

proof fn lemma_file_hits_in_range_raw(query: Seq<char>, entries: Seq<FileEntry>)
    requires
        entries.len() <= usize::MAX,
    ensures
        forall|m: int|
            0 <= m < file_hits(query, entries).len() ==> (#[trigger] file_hits(query, entries)[m]).1 < entries.len(),
    decreases entries.len(),
{
    if entries.len() > 0 {
        lemma_file_hits_in_range_raw(query, entries.drop_last());
        let h = file_hits(query, entries.drop_last());
        assert forall|m: int|
            0 <= m < file_hits(query, entries).len() implies (#[trigger] file_hits(query, entries)[m]).1
            < entries.len() by {
            if m < h.len() {
                assert(file_hits(query, entries)[m] == h[m]);
            }
        }
    }
}

proof fn lemma_top_files_in_range(query: Seq<char>, entries: Seq<FileEntry>)
    requires
        entries.len() <= usize::MAX,
    ensures
        ({
            let top = first_n(sort_by_score(file_hits(query, entries)), MAX_FILE_RESULTS as int);
            forall|m: int| 0 <= m < top.len() ==> (#[trigger] top[m]).1 < entries.len()
        }),
{
    let hits = file_hits(query, entries);
    let sorted = sort_by_score(hits);
    let top = first_n(sorted, MAX_FILE_RESULTS as int);
    lemma_file_hits_in_range_raw(query, entries);
    assert forall|m: int| 0 <= m < top.len() implies (#[trigger] top[m]).1 < entries.len() by {
        assert(top[m] == sorted[m]);
        crate::ranking::lemma_sort_by_score_contains(hits, sorted[m]);
        assert(sorted.contains(sorted[m]));
        let w = choose|w: int| 0 <= w < hits.len() && hits[w] == sorted[m];
        assert(hits[w].1 < entries.len());
    }
}

/// The file finder's state: its index and whether indexing is under way.
pub struct FilesProvider {
    entries: Vec<FileEntry>,
    indexing: bool,
    home_dir: Option<String>,
}

impl FilesProvider {
    #[verifier::type_invariant]
    spec fn fits(self) -> bool {
        &&& entries_fit_matcher(self.entries@)
        &&& self.entries@.len() <= MAX_INDEXED_FILES
        &&& (self.indexing ==> self.home_dir is Some)
    }

    /// The entries of the index.
    pub closed spec fn entries(&self) -> Seq<FileEntry> {
        self.entries@
    }

    /// Whether indexing is under way.
    pub closed spec fn indexing(&self) -> bool {
        self.indexing
    }

    /// The home directory.
    pub closed spec fn home(&self) -> Option<Seq<char>> {
        opt_view(self.home_dir)
    }

    /// A provider for the given home directory, with an empty index and not indexing.
    pub fn new(home_dir: Option<String>) -> (r: Self)
        ensures
            r.entries().len() == 0,
            !r.indexing(),
            r.home() == opt_view(home_dir),
    {
        FilesProvider { entries: Vec::new(), indexing: false, home_dir }
    }

    /// Whether the background indexer is running; it never runs without a home
    /// directory.
    pub fn is_indexing(&self) -> (r: bool)
        ensures
            r == self.indexing(),
            r ==> self.home() is Some,
    {
        proof {
            use_type_invariant(self);
        }
        self.indexing
    }

    /// Whether the provider knows a home directory to index.
    pub fn has_home(&self) -> (r: bool)
        ensures
            r == self.home() is Some,
    {
        self.home_dir.is_some()
    }

    /// The number of indexed entries; the index never holds more than
    /// [`MAX_INDEXED_FILES`].
    pub fn entry_count(&self) -> (r: usize)
        ensures
            r == self.entries().len(),
            r <= MAX_INDEXED_FILES,
    {
        proof {
            use_type_invariant(self);
        }
        self.entries.len()
    }

    /// The indexer has started on the home directory.
    pub fn start_indexing(&mut self)
        requires
            old(self).home() is Some,
        ensures
            final(self).indexing(),
            final(self).entries() == old(self).entries(),
            final(self).home() == old(self).home(),
    {
        proof {
            use_type_invariant(&*self);
        }
        self.indexing = true;
    }

    /// The indexer has finished with these entries, which replace the index.
    pub fn finish_indexing(&mut self, entries: Vec<FileEntry>)
        requires
            entries_fit_matcher(entries@),
            entries@.len() <= MAX_INDEXED_FILES,
        ensures
            !final(self).indexing(),
            final(self).entries() == entries@,
            final(self).home() == old(self).home(),
    {
        proof {
            use_type_invariant(&*self);
        }
        self.entries = entries;
        self.indexing = false;
    }

    /// `path` as shown to the user: under the home directory it starts with `~/`.
    pub fn prettify_path(&self, path: &str) -> (r: String)
        ensures
            r@ == pretty_path(self.home(), path@),
    {
        match &self.home_dir {
            Some(home) => match strip_path_prefix(path, home.as_str()) {
                Some(rest) => {
                    let mut out = chars_of("~/");
                    let rc = chars_of(rest.as_str());
                    extend_chars(&mut out, &rc);
                    string_from_chars(out.as_slice())
                },
                None => path.to_owned(),
            },
            None => path.to_owned(),
        }
    }

    /// Whether [`FilesProvider::matches`] takes `query`: always when it does not run the
    /// matcher (a trimmed query under two bytes, or an empty index), otherwise when the
    /// matcher scores the trimmed query without overflow.
    pub fn can_match(&self, query: &str) -> (r: bool)
        ensures
            r == (!under_two_bytes(trim(query@)) && self.entries().len() > 0 ==> matcher_takes(
                trim(query@),
            )),
    {
        let q = trim_str(query);
        let qc = chars_of(q.as_str());
        if qc.len() == 0 || (qc.len() == 1 && (qc[0] as u32) < 0x80) || self.entries.len() == 0 {
            return true;
        }
        query_fits_matcher(q.as_str())
    }

    /// Searches the index for `query`, or asks for a `plocate` lookup while it is empty.
    pub fn matches(&self, query: &str) -> (r: FileSearch)
        requires
            !under_two_bytes(trim(query@)) && self.entries().len() > 0 ==> matcher_takes(trim(query@)),
        ensures
            file_search(self.entries(), self.home(), query@, r),
            r matches FileSearch::Results(v) ==> ordered_results(v@) && v@.len() <= MAX_FILE_RESULTS,
    {
        proof {
            use_type_invariant(self);
        }
        let q = trim_str(query);
        let qc = chars_of(q.as_str());
        if qc.len() == 0 || (qc.len() == 1 && (qc[0] as u32) < 0x80) {
            return FileSearch::Results(Vec::new());
        }
        let n = self.entries.len();
        if n == 0 {
            return FileSearch::Locate(q);
        }
        let mut names: Vec<&str> = Vec::new();
        let mut paths: Vec<&str> = Vec::new();
        let mut i: usize = 0;
        while i < n
            invariant
                n == self.entries@.len(),
                entries_fit_matcher(self.entries@),
                matcher_takes(q@),
                i <= n,
                names@.len() == i,
                paths@.len() == i,
                forall|k: int| 0 <= k < i ==> (#[trigger] names@[k])@ == self.entries@[k].file_name@,
                forall|k: int| 0 <= k < i ==> (#[trigger] paths@[k])@ == self.entries@[k].path@,
            decreases n - i,
        {
            names.push(self.entries[i].file_name.as_str());
            paths.push(self.entries[i].path.as_str());
            i = i + 1;
        }
        let name_scores = path_scores(q.as_str(), &names);
        let full_scores = path_scores(q.as_str(), &paths);
        let mut hits: Vec<(i64, usize)> = Vec::new();
        let mut i: usize = 0;
        assert(self.entries@.take(0) =~= Seq::<FileEntry>::empty());
        while i < n
            invariant
                n == self.entries@.len(),
                i <= n,
                name_scores@.len() == n,
                full_scores@.len() == n,
                forall|k: int|
                    0 <= k < n ==> #[trigger] name_scores@[k] == pattern_score(q@, self.entries@[k].file_name@, true),
                forall|k: int|
                    0 <= k < n ==> #[trigger] full_scores@[k] == pattern_score(q@, self.entries@[k].path@, true),
                hits@ == file_hits(q@, self.entries@.take(i as int)),
            decreases n - i,
        {
            assert(self.entries@.take(i + 1).drop_last() =~= self.entries@.take(i as int));
            assert(self.entries@.take(i + 1).last() == self.entries@[i as int]);
            match name_scores[i] {
                Some(s) => {
                    hits.push((s as i64 * 2, i));
                },
                None => match full_scores[i] {
                    Some(p) => {
                        hits.push((p as i64, i));
                    },
                    None => {},
                },
            }
            i = i + 1;
        }
        assert(self.entries@.take(n as int) =~= self.entries@);
        let top = top_by_score(hits, MAX_FILE_RESULTS);
        proof {
            lemma_top_files_in_range(q@, self.entries@);
        }
        let ghost tv = top@;
        let mut out: Vec<SearchResult> = Vec::new();
        let mut k: usize = 0;
        while k < top.len()
            invariant
                top@ == tv,
                tv == first_n(sort_by_score(file_hits(q@, self.entries@)), MAX_FILE_RESULTS as int),
                forall|m: int| 0 <= m < tv.len() ==> (#[trigger] tv[m]).1 < self.entries@.len(),
                k <= tv.len(),
                out@.len() == k,
                forall|m: int|
                    0 <= m < k ==> {
                        let e = self.entries@[tv[m].1 as int];
                        is_file_result(#[trigger] out@[m], self.home(), e.path@, e.file_name@, e.is_dir, tv[m].0)
                    },
            decreases tv.len() - k,
        {
            let (score, idx) = top[k];
            let e = &self.entries[idx];
            out.push(self.file_result(&e.path, e.file_name.clone(), e.is_dir, score));
            k = k + 1;
        }
        proof {
            let hv = file_hits(q@, self.entries@);
            sort_by_score_is_ordered(hv);
            assert forall|a: int, b: int| 0 <= a < b < out@.len() implies #[trigger] out@[b].score
                <= #[trigger] out@[a].score by {
                assert(tv[a] == sort_by_score(hv)[a] && tv[b] == sort_by_score(hv)[b]);
            }
        }
        FileSearch::Results(out)
    }

    /// The results for what `plocate` found (the hits whose paths exist, in output order).
    pub fn locate_results(&self, hits: Vec<LocateHit>) -> (r: Vec<SearchResult>)
        requires
            forall|i: int| 0 <= i < hits@.len() ==> (#[trigger] hits@[i]).index <= i64::MAX,
        ensures
            located_results(self.home(), hits@, r@),
    {
        let mut out: Vec<SearchResult> = Vec::new();
        let mut k: usize = 0;
        while k < hits.len()
            invariant
                k <= hits@.len(),
                forall|i: int| 0 <= i < hits@.len() ==> (#[trigger] hits@[i]).index <= i64::MAX,
                out@.len() == k,
                forall|m: int|
                    0 <= m < k ==> is_file_result(
                        #[trigger] out@[m],
                        self.home(),
                        trim(hits@[m].line@),
                        located_name(hits@[m].line@),
                        hits@[m].is_dir,
                        (100 - hits@[m].index as i64) as i64,
                    ),
            decreases hits@.len() - k,
        {
            let h = &hits[k];
            let path = trim_str(h.line.as_str());
            let name = match file_name_of(path.as_str()) {
                Some(n) => n,
                None => h.line.clone(),
            };
            let score = 100 - h.index as i64;
            out.push(self.file_result(&path, name, h.is_dir, score));
            k = k + 1;
        }
        out
    }

    /// The result for a file.
    fn file_result(&self, path: &String, name: String, is_dir: bool, score: i64) -> (r: SearchResult)
        ensures
            is_file_result(r, self.home(), path@, name@, is_dir, score),
    {
        let icon = if is_dir {
            Some("folder".to_owned())
        } else {
            icon_for_filename(name.as_str())
        };
        let subtitle = self.prettify_path(path.as_str());
        let mut id = chars_of("file:");
        let pc = chars_of(path.as_str());
        extend_chars(&mut id, &pc);
        let mut secondary: Vec<(String, SearchAction)> = Vec::new();
        secondary.push(("Open folder".to_owned(), SearchAction::OpenFolder { path: path.clone() }));
        SearchResult {
            id: string_from_chars(id.as_slice()),
            title: name,
            subtitle: Some(subtitle),
            icon,
            score,
            action: SearchAction::OpenFile { path: path.clone() },
            secondary_actions: secondary,
        }
    }
}

} // verus!
