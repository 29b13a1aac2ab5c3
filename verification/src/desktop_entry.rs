//! XDG desktop entries: parsing `.desktop` files, the directories they live in,
//! the command line they launch, and the list of applications shown to the user.
use vstd::prelude::*;
use crate::text::{
    char_views, chars_eq_str, chars_lt, chars_lt_exec, chars_lt_irreflexive, chars_lt_transitive,
    chars_of, contains, contains_exec, eq_ignore_ascii_case, eq_ignore_ascii_case_exec,
    extend_chars, is_word, join, join_exec, lines, lines_exec, occurs_at, split_char,
    split_char_exec, split_once, split_once_exec, split_whitespace, split_whitespace_exec,
    split_whitespace_gives_words, split_whitespace_of_joined_words, starts_with, starts_with_exec,
    string_from_chars, sub_chars, to_lower, to_lowercase, trim, trim_chars, all_ascii,
    ascii_lowercase, ascii_uppercase, to_lower_of_ascii_uppercase, ascii_lower_code, ascii_lower_char,
};

verus! {

/// An application found in a `.desktop` file.
#[derive(Debug, Clone)]
pub struct AppEntry {
    pub name: String,
    pub exec_line: String,
    pub icon: Option<String>,
}

/// The text held by an optional string.
pub open spec fn opt_view(o: Option<String>) -> Option<Seq<char>> {
    match o {
        Some(s) => Some(s@),
        None => None,
    }
}

/// The text held by an optional character vector.
pub open spec fn opt_chars_view(o: Option<Vec<char>>) -> Option<Seq<char>> {
    match o {
        Some(s) => Some(s@),
        None => None,
    }
}

fn opt_string(o: Option<Vec<char>>) -> (r: Option<String>)
    ensures
        opt_view(r) == opt_chars_view(o),
{
    match o {
        Some(cs) => Some(string_from_chars(cs.as_slice())),
        None => None,
    }
}

// ---------------------------------------------------------------- Exec lines

/// A word of an `Exec` line that is kept: field codes such as `%u` or `%F` are dropped.
pub open spec fn keeps_token(t: Seq<char>) -> bool {
    !(t.len() > 0 && t[0] == '%')
}

/// The command line of an `Exec` value: its whitespace-separated words without the
/// field codes (words beginning with `%`), joined by single spaces.
pub open spec fn cleaned_exec(exec_line: Seq<char>) -> Seq<char> {
    join(split_whitespace(exec_line).filter(|t: Seq<char>| keeps_token(t)), seq![' '])
}

/// Removes the field codes from an `Exec` value and normalises its spacing.
pub fn clean_exec(exec_line: &str) -> (r: String)
    ensures
        r@ == cleaned_exec(exec_line@),
{
    let cs = chars_of(exec_line);
    let toks = split_whitespace_exec(&cs);
    let ghost tv = char_views(toks@);
    let ghost pred = |t: Seq<char>| keeps_token(t);
    let mut kept: Vec<Vec<char>> = Vec::new();
    let mut i: usize = 0;
    assert(tv.take(0).filter(pred) =~= Seq::<Seq<char>>::empty()) by {
        reveal_with_fuel(Seq::<_>::filter, 1);
    }
    assert(char_views(kept@) =~= Seq::<Seq<char>>::empty());
    while i < toks.len()
        invariant
            i <= toks@.len(),
            tv == char_views(toks@),
            pred == (|t: Seq<char>| keeps_token(t)),
            char_views(kept@) == tv.take(i as int).filter(pred),
        decreases toks@.len() - i,
    {
        let ghost before = char_views(kept@);
        assert(tv.take(i + 1).drop_last() =~= tv.take(i as int));
        reveal_with_fuel(Seq::<_>::filter, 1);
        let t = &toks[i];
        if !(t.len() > 0 && t[0] == '%') {
            let copy = sub_chars(t, 0, t.len());
            assert(copy@ =~= t@);
            assert(tv[i as int] == t@);
            kept.push(copy);
            assert(char_views(kept@) =~= before.push(tv[i as int]));
        }
        i = i + 1;
    }
    assert(tv.take(toks@.len() as int) =~= tv);
    let sep = vec![' '];
    assert(sep@ =~= seq![' ']);
    let joined = join_exec(&kept, &sep);
    string_from_chars(joined.as_slice())
}

/// The shell command that launching an application with this `Exec` value runs, or
/// `None` when nothing is left of it once cleaned.
pub fn launch_command(exec_line: &str) -> (r: Option<String>)
    ensures
        match r {
            Some(c) => c@ == cleaned_exec(exec_line@) && c@.len() > 0,
            None => cleaned_exec(exec_line@).len() == 0,
        },
{
    let c = clean_exec(exec_line);
    if c.as_str().is_empty() {
        None
    } else {
        Some(c)
    }
}


// ---------------------------------------------------------------- laws of Exec lines

proof fn lemma_filter_all<A>(s: Seq<A>, p: spec_fn(A) -> bool)
    requires
        forall|i: int| 0 <= i < s.len() ==> p(#[trigger] s[i]),
    ensures
        s.filter(p) == s,
    decreases s.len(),
{
    reveal_with_fuel(Seq::<_>::filter, 1);
    if s.len() > 0 {
        let t = s.drop_last();
        assert forall|i: int| 0 <= i < t.len() implies p(#[trigger] t[i]) by {
            assert(t[i] == s[i]);
        }
        lemma_filter_all(t, p);
        assert(p(s[s.len() - 1]));
        assert(t.push(s.last()) =~= s);
    }
}

/// The words of a cleaned command are the words of the `Exec` value that are not field
/// codes, in order.
pub proof fn cleaned_exec_words(exec_line: Seq<char>)
    ensures
        split_whitespace(cleaned_exec(exec_line)) == split_whitespace(exec_line).filter(
            |t: Seq<char>| keeps_token(t),
        ),
{
    let words = split_whitespace(exec_line);
    let kept = words.filter(|t: Seq<char>| keeps_token(t));
    split_whitespace_gives_words(exec_line);
    assert forall|i: int| 0 <= i < kept.len() implies is_word(#[trigger] kept[i]) by {
        words.lemma_filter_contains_rev(|t: Seq<char>| keeps_token(t), kept[i]);
        assert(kept.contains(kept[i]));
        let j = choose|j: int| 0 <= j < words.len() && words[j] == kept[i];
        assert(is_word(words[j]));
    }
    split_whitespace_of_joined_words(kept);
}

/// A cleaned command is the words of the `Exec` value that do not begin with `%`, in
/// order, each followed by a single space but the last.
pub proof fn cleaned_exec_drops_field_codes(exec_line: Seq<char>)
    ensures
        cleaned_exec(exec_line) == join(
            split_whitespace(exec_line).filter(|t: Seq<char>| !(t.len() > 0 && t[0] == '%')),
            seq![' '],
        ),
        split_whitespace(cleaned_exec(exec_line)) == split_whitespace(exec_line).filter(
            |t: Seq<char>| !(t.len() > 0 && t[0] == '%'),
        ),
{
    cleaned_exec_words(exec_line);
    assert((|t: Seq<char>| keeps_token(t)) =~= (|t: Seq<char>| !(t.len() > 0 && t[0] == '%')));
}

/// Cleaning a cleaned command changes nothing.
pub proof fn clean_exec_idempotent(exec_line: Seq<char>)
    ensures
        cleaned_exec(cleaned_exec(exec_line)) == cleaned_exec(exec_line),
{
    let kept = split_whitespace(exec_line).filter(|t: Seq<char>| keeps_token(t));
    cleaned_exec_words(exec_line);
    assert forall|i: int| 0 <= i < kept.len() implies keeps_token(#[trigger] kept[i]) by {
        split_whitespace(exec_line).lemma_filter_pred(|t: Seq<char>| keeps_token(t), i);
    }
    lemma_filter_all(kept, |t: Seq<char>| keeps_token(t));
}

// ---------------------------------------------------------------- .desktop files

/// What has been read of a `.desktop` file so far.
pub struct EntryScan {
    pub name: Option<Seq<char>>,
    pub exec_line: Option<Seq<char>>,
    pub icon: Option<Seq<char>>,
    pub no_display: bool,
    pub hidden: bool,
    pub is_application: bool,
    pub in_main_section: bool,
}

/// Nothing read yet: outside any section, of type application until told otherwise.
pub open spec fn initial_scan() -> EntryScan {
    EntryScan {
        name: None,
        exec_line: None,
        icon: None,
        no_display: false,
        hidden: false,
        is_application: true,
        in_main_section: false,
    }
}

/// The effect of the entry `key=value` of the main section.
pub open spec fn apply_key(st: EntryScan, key: Seq<char>, value: Seq<char>) -> EntryScan {
    if key == "Name"@ {
        EntryScan { name: Some(value), ..st }
    } else if key == "Exec"@ {
        EntryScan { exec_line: Some(value), ..st }
    } else if key == "Icon"@ {
        EntryScan { icon: Some(value), ..st }
    } else if key == "NoDisplay"@ {
        EntryScan { no_display: eq_ignore_ascii_case(value, "true"@), ..st }
    } else if key == "Hidden"@ {
        EntryScan { hidden: eq_ignore_ascii_case(value, "true"@), ..st }
    } else if key == "Type"@ {
        EntryScan { is_application: value == "Application"@, ..st }
    } else {
        st
    }
}

/// The effect of one line. A line starting with `[` opens a section, and only the
/// `[Desktop Entry]` section counts; blank lines and `#` comments are skipped; a
/// line of the main section is `key=value`, both sides trimmed.
pub open spec fn scan_line(st: EntryScan, raw: Seq<char>) -> EntryScan {
    let line = trim(raw);
    if line.len() > 0 && line[0] == '[' {
        EntryScan { in_main_section: line == "[Desktop Entry]"@, ..st }
    } else if !st.in_main_section || line.len() == 0 || line[0] == '#' {
        st
    } else {
        match split_once(line, '=') {
            Some((k, v)) => apply_key(st, trim(k), trim(v)),
            None => st,
        }
    }
}

/// The state after reading the lines in order.
pub open spec fn scan_lines(ls: Seq<Seq<char>>) -> EntryScan
    decreases ls.len(),
{
    if ls.len() == 0 {
        initial_scan()
    } else {
        scan_line(scan_lines(ls.drop_last()), ls.last())
    }
}

/// The application a `.desktop` file describes, as (name, exec, icon): none when it
/// is hidden, not displayed, not of type `Application`, or lacks a name or a command.
pub open spec fn desktop_entry(content: Seq<char>) -> Option<(Seq<char>, Seq<char>, Option<Seq<char>>)> {
    let st = scan_lines(lines(content));
    if st.no_display || st.hidden || !st.is_application {
        None
    } else {
        match (st.name, st.exec_line) {
            (Some(n), Some(e)) => Some((n, e, st.icon)),
            _ => None,
        }
    }
}

/// The `(key, value)` of a line read in or out of the main section, both trimmed: none
/// for a line outside the main section, a section header, a blank line, a comment, or a
/// line without `=`.
pub open spec fn entry_of_line(in_main_section: bool, raw: Seq<char>) -> Option<(Seq<char>, Seq<char>)> {
    let line = trim(raw);
    if in_main_section && line.len() > 0 && line[0] != '[' && line[0] != '#' {
        match split_once(line, '=') {
            Some((k, v)) => Some((trim(k), trim(v))),
            None => None,
        }
    } else {
        None
    }
}

/// The value `true` in any ASCII case.
pub open spec fn is_true_value(v: Seq<char>) -> bool {
    ascii_lowercase(v) == "true"@
}

/// What one line does, by exact key: a line starting with `[` opens a section, the main
/// one only when it is exactly `[Desktop Entry]`; an entry of the main section keyed
/// exactly `Name`, `Exec` or `Icon` sets that field to its value, `NoDisplay` and `Hidden`
/// set their flag to whether the value is `true` in any case, `Type` marks the file an
/// application when the value is `Application`; any other line (a localized `Name[de]`
/// among them) changes nothing.
pub proof fn scan_line_sets_fields_by_exact_key(st: EntryScan, raw: Seq<char>)
    ensures
        ({
            let line = trim(raw);
            let e = entry_of_line(st.in_main_section, raw);
            let r = scan_line(st, raw);
            &&& r.in_main_section == (if line.len() > 0 && line[0] == '[' {
                line == "[Desktop Entry]"@
            } else {
                st.in_main_section
            })
            &&& r.name == (if e is Some && e.unwrap().0 == "Name"@ {
                Some(e.unwrap().1)
            } else {
                st.name
            })
            &&& r.exec_line == (if e is Some && e.unwrap().0 == "Exec"@ {
                Some(e.unwrap().1)
            } else {
                st.exec_line
            })
            &&& r.icon == (if e is Some && e.unwrap().0 == "Icon"@ {
                Some(e.unwrap().1)
            } else {
                st.icon
            })
            &&& r.no_display == (if e is Some && e.unwrap().0 == "NoDisplay"@ {
                is_true_value(e.unwrap().1)
            } else {
                st.no_display
            })
            &&& r.hidden == (if e is Some && e.unwrap().0 == "Hidden"@ {
                is_true_value(e.unwrap().1)
            } else {
                st.hidden
            })
            &&& r.is_application == (if e is Some && e.unwrap().0 == "Type"@ {
                e.unwrap().1 == "Application"@
            } else {
                st.is_application
            })
        }),
{
    reveal_strlit("Name");
    reveal_strlit("Exec");
    reveal_strlit("Icon");
    reveal_strlit("NoDisplay");
    reveal_strlit("Hidden");
    reveal_strlit("Type");
    reveal_strlit("true");
    let keys = seq!["Name"@, "Exec"@, "Icon"@, "NoDisplay"@, "Hidden"@, "Type"@];
    assert forall|i: int, j: int| 0 <= i < j < 6 implies #[trigger] keys[i] != #[trigger] keys[j] by {
        assert(keys[i][0] != keys[j][0] || keys[i].len() != keys[j].len());
    }
    assert("Name"@ != "Exec"@ && "Name"@ != "Icon"@ && "Name"@ != "NoDisplay"@ && "Name"@ != "Hidden"@ && "Name"@ != "Type"@
        && "Exec"@ != "Icon"@ && "Exec"@ != "NoDisplay"@ && "Exec"@ != "Hidden"@ && "Exec"@ != "Type"@
        && "Icon"@ != "NoDisplay"@ && "Icon"@ != "Hidden"@ && "Icon"@ != "Type"@ && "NoDisplay"@ != "Hidden"@
        && "NoDisplay"@ != "Type"@ && "Hidden"@ != "Type"@) by {
        assert(keys[0] != keys[1] && keys[0] != keys[2] && keys[0] != keys[3] && keys[0] != keys[4] && keys[0] != keys[5]);
        assert(keys[1] != keys[2] && keys[1] != keys[3] && keys[1] != keys[4] && keys[1] != keys[5]);
        assert(keys[2] != keys[3] && keys[2] != keys[4] && keys[2] != keys[5]);
        assert(keys[3] != keys[4] && keys[3] != keys[5] && keys[4] != keys[5]);
    }
    let line = trim(raw);
    if line.len() > 0 && line[0] == '[' {
    } else if !st.in_main_section || line.len() == 0 || line[0] == '#' {
    } else {
        match split_once(line, '=') {
            Some((k, v)) => {
                let key = trim(k);
                let value = trim(v);
                lemma_true_value(value);
                let a = apply_key(st, key, value);
                if key == "Name"@ {
                } else if key == "Exec"@ {
                } else if key == "Icon"@ {
                } else if key == "NoDisplay"@ {
                } else if key == "Hidden"@ {
                } else if key == "Type"@ {
                } else {
                    assert(a == st);
                }
            },
            None => {},
        }
    }
}

proof fn lemma_true_value(v: Seq<char>)
    ensures
        eq_ignore_ascii_case(v, "true"@) == is_true_value(v),
{
    reveal_strlit("true");
    let l = ascii_lowercase(v);
    if eq_ignore_ascii_case(v, "true"@) {
        assert forall|i: int| 0 <= i < 4 implies l[i] == "true"@[i] by {
            assert(ascii_lower_code(v[i]) == ascii_lower_code("true"@[i]));
            assert(('a' as u32) <= ("true"@[i] as u32) <= ('z' as u32));
        }
        assert(l =~= "true"@);
    }
    if is_true_value(v) {
        assert forall|i: int| 0 <= i < v.len() implies #[trigger] ascii_lower_code(v[i]) == ascii_lower_code(
            "true"@[i],
        ) by {
            assert(l[i] == "true"@[i]);
        }
    }
}

/// The lines of a file are read in order, from a state outside any section with nothing
/// read and the file taken for an application.
pub proof fn scan_lines_reads_in_order(ls: Seq<Seq<char>>, l: Seq<char>)
    ensures
        scan_lines(ls.push(l)) == scan_line(scan_lines(ls), l),
        scan_lines(Seq::empty()) == (EntryScan {
            name: None,
            exec_line: None,
            icon: None,
            no_display: false,
            hidden: false,
            is_application: true,
            in_main_section: false,
        }),
{
    assert(ls.push(l).drop_last() =~= ls);
}

/// A file describes an application exactly when, after its lines, it is neither hidden
/// nor kept from display, is of type `Application`, and has a name and a command; the
/// application then has the name, command and icon its lines left.
pub proof fn desktop_entry_fields(content: Seq<char>)
    ensures
        ({
            let st = scan_lines(lines(content));
            &&& desktop_entry(content) is Some <==> (!st.no_display && !st.hidden && st.is_application
                && st.name is Some && st.exec_line is Some)
            &&& desktop_entry(content) matches Some((n, x, i)) ==> st.name == Some(n) && st.exec_line == Some(
                x,
            ) && st.icon == i
        }),
{
}

struct ScanState {
    name: Option<Vec<char>>,
    exec_line: Option<Vec<char>>,
    icon: Option<Vec<char>>,
    no_display: bool,
    hidden: bool,
    is_application: bool,
    in_main_section: bool,
}

impl ScanState {
    spec fn view_scan(&self) -> EntryScan {
        EntryScan {
            name: opt_chars_view(self.name),
            exec_line: opt_chars_view(self.exec_line),
            icon: opt_chars_view(self.icon),
            no_display: self.no_display,
            hidden: self.hidden,
            is_application: self.is_application,
            in_main_section: self.in_main_section,
        }
    }

    fn apply_key(&mut self, key: &Vec<char>, value: Vec<char>)
        ensures
            final(self).view_scan() == apply_key(old(self).view_scan(), key@, value@),
    {
        if chars_eq_str(key, "Name") {
            self.name = Some(value);
        } else if chars_eq_str(key, "Exec") {
            self.exec_line = Some(value);
        } else if chars_eq_str(key, "Icon") {
            self.icon = Some(value);
        } else if chars_eq_str(key, "NoDisplay") {
            let t = chars_of("true");
            self.no_display = eq_ignore_ascii_case_exec(&value, &t);
        } else if chars_eq_str(key, "Hidden") {
            let t = chars_of("true");
            self.hidden = eq_ignore_ascii_case_exec(&value, &t);
        } else if chars_eq_str(key, "Type") {
            self.is_application = chars_eq_str(&value, "Application");
        }
    }

    fn scan_line(&mut self, raw: &Vec<char>)
        ensures
            final(self).view_scan() == scan_line(old(self).view_scan(), raw@),
    {
        let line = trim_chars(raw);
        if line.len() > 0 && line[0] == '[' {
            self.in_main_section = chars_eq_str(&line, "[Desktop Entry]");
        } else if !self.in_main_section || line.len() == 0 || line[0] == '#' {
        } else {
            match split_once_exec(&line, '=') {
                Some((k, v)) => {
                    let key = trim_chars(&k);
                    let value = trim_chars(&v);
                    self.apply_key(&key, value);
                },
                None => {},
            }
        }
    }
}

/// Reads the application described by the text of a `.desktop` file.
pub fn parse_desktop_file(content: &str) -> (r: Option<AppEntry>)
    ensures
        match (r, desktop_entry(content@)) {
            (Some(e), Some((n, x, i))) => e.name@ == n && e.exec_line@ == x && opt_view(e.icon) == i,
            (None, None) => true,
            _ => false,
        },
{
    let cs = chars_of(content);
    let ls = lines_exec(&cs);
    let ghost lv = char_views(ls@);
    let mut st = ScanState {
        name: None,
        exec_line: None,
        icon: None,
        no_display: false,
        hidden: false,
        is_application: true,
        in_main_section: false,
    };
    let mut i: usize = 0;
    assert(lv.take(0) =~= Seq::<Seq<char>>::empty());
    while i < ls.len()
        invariant
            i <= ls@.len(),
            lv == char_views(ls@),
            st.view_scan() == scan_lines(lv.take(i as int)),
        decreases ls@.len() - i,
    {
        assert(lv.take(i + 1).drop_last() =~= lv.take(i as int));
        st.scan_line(&ls[i]);
        i = i + 1;
    }
    assert(lv.take(ls@.len() as int) =~= lv);
    if st.no_display || st.hidden || !st.is_application {
        return None;
    }
    match (st.name, st.exec_line) {
        (Some(n), Some(e)) => Some(
            AppEntry {
                name: string_from_chars(n.as_slice()),
                exec_line: string_from_chars(e.as_slice()),
                icon: opt_string(st.icon),
            },
        ),
        _ => None,
    }
}


// ---------------------------------------------------------------- application directories

/// `PathBuf::join` of a relative path: a `/` goes between the two unless `base` is
/// empty or already ends with one.
pub open spec fn path_join(base: Seq<char>, rel: Seq<char>) -> Seq<char> {
    if base.len() == 0 || base.last() == '/' {
        base + rel
    } else {
        base + seq!['/'] + rel
    }
}

/// Joins the relative path `rel` to `base`.
pub fn path_join_exec(base: &Vec<char>, rel: &str) -> (r: String)
    ensures
        r@ == path_join(base@, rel@),
{
    let mut out: Vec<char> = Vec::new();
    extend_chars(&mut out, base);
    let n = base.len();
    if n > 0 && base[n - 1] != '/' {
        out.push('/');
    }
    let rc = chars_of(rel);
    extend_chars(&mut out, &rc);
    string_from_chars(out.as_slice())
}

/// The value `XDG_DATA_DIRS` stands for when it is unset.
pub open spec fn default_data_dirs() -> Seq<char> {
    "/usr/local/share:/usr/share"@
}

/// The directories searched for `.desktop` files, in order: the user's data directory,
/// each directory of `XDG_DATA_DIRS` (or its default), the system Flatpak exports and
/// the user's Flatpak exports.
pub open spec fn app_dirs(
    data_home: Option<Seq<char>>,
    xdg_data_dirs: Option<Seq<char>>,
    home: Option<Seq<char>>,
) -> Seq<Seq<char>> {
    let first = match data_home {
        Some(d) => seq![path_join(d, "applications"@)],
        None => Seq::empty(),
    };
    let dirs = match xdg_data_dirs {
        Some(x) => x,
        None => default_data_dirs(),
    };
    let middle = split_char(dirs, ':').map_values(|d: Seq<char>| path_join(d, "applications"@));
    let flatpak = seq!["/var/lib/flatpak/exports/share/applications"@];
    let last = match home {
        Some(h) => seq![path_join(h, ".local/share/flatpak/exports/share/applications"@)],
        None => Seq::empty(),
    };
    first + middle + flatpak + last
}

/// Joining puts exactly one `/` between a non-empty base and the relative path, adding
/// none when the base already ends with one or is empty.
pub proof fn path_join_one_slash(base: Seq<char>, rel: Seq<char>)
    ensures
        path_join(base, rel) == (if base.len() == 0 || base[base.len() - 1] == '/' {
            base + rel
        } else {
            base + seq!['/'] + rel
        }),
{
}

/// The directories scanned, in order: `applications` under the user's data directory when
/// known; `applications` under each `:`-separated entry of `XDG_DATA_DIRS`, or of
/// `/usr/local/share:/usr/share` when it is unset; the system Flatpak exports; and the
/// user's Flatpak exports under the home directory when known.
pub proof fn app_dirs_in_order(data_home: Option<Seq<char>>, xdg_data_dirs: Option<Seq<char>>, home: Option<Seq<char>>)
    ensures
        ({
            let r = app_dirs(data_home, xdg_data_dirs, home);
            let pieces = split_char(
                match xdg_data_dirs {
                    Some(x) => x,
                    None => "/usr/local/share:/usr/share"@,
                },
                ':',
            );
            let f = if data_home is Some { 1int } else { 0int };
            &&& r.len() == f + pieces.len() + 1 + (if home is Some { 1int } else { 0int })
            &&& data_home matches Some(d) ==> r[0] == path_join(d, "applications"@)
            &&& forall|i: int| 0 <= i < pieces.len() ==> #[trigger] r[f + i] == path_join(pieces[i], "applications"@)
            &&& r[f + pieces.len()] == "/var/lib/flatpak/exports/share/applications"@
            &&& home matches Some(h) ==> r[f + pieces.len() + 1] == path_join(
                h,
                ".local/share/flatpak/exports/share/applications"@,
            )
        }),
{
}

/// The directories to scan for applications, given the user's data directory, the
/// value of `XDG_DATA_DIRS` (`None` when unset) and the home directory.
pub fn xdg_app_dirs(data_home: Option<String>, xdg_data_dirs: Option<String>, home: Option<String>) -> (r: Vec<String>)
    ensures
        r@.map_values(|d: String| d@) == app_dirs(opt_view(data_home), opt_view(xdg_data_dirs), opt_view(home)),
{
    let mut out: Vec<String> = Vec::new();
    let ghost first: Seq<Seq<char>> = match opt_view(data_home) {
        Some(d) => seq![path_join(d, "applications"@)],
        None => Seq::empty(),
    };
    if let Some(d) = &data_home {
        let dc = chars_of(d.as_str());
        out.push(path_join_exec(&dc, "applications"));
    }
    assert(out@.map_values(|d: String| d@) =~= first);
    let dirs_text = match &xdg_data_dirs {
        Some(x) => chars_of(x.as_str()),
        None => chars_of("/usr/local/share:/usr/share"),
    };
    let pieces = split_char_exec(&dirs_text, ':');
    let ghost pv = char_views(pieces@);
    let ghost mapped = pv.map_values(|d: Seq<char>| path_join(d, "applications"@));
    let mut i: usize = 0;
    while i < pieces.len()
        invariant
            i <= pieces@.len(),
            pv == char_views(pieces@),
            mapped == pv.map_values(|d: Seq<char>| path_join(d, "applications"@)),
            out@.map_values(|d: String| d@) == first + mapped.take(i as int),
        decreases pieces@.len() - i,
    {
        let ghost before = out@.map_values(|d: String| d@);
        let joined = path_join_exec(&pieces[i], "applications");
        assert(joined@ == mapped[i as int]);
        out.push(joined);
        assert(out@.map_values(|d: String| d@) =~= before.push(mapped[i as int]));
        assert(mapped.take(i + 1) =~= mapped.take(i as int).push(mapped[i as int]));
        i = i + 1;
        assert(out@.map_values(|d: String| d@) =~= first + mapped.take(i as int));
    }
    assert(mapped.take(pieces@.len() as int) =~= mapped);
    let ghost so_far = out@.map_values(|d: String| d@);
    let flat = chars_of("/var/lib/flatpak/exports/share/applications");
    out.push(string_from_chars(flat.as_slice()));
    assert(out@.map_values(|d: String| d@) =~= so_far + seq![
        "/var/lib/flatpak/exports/share/applications"@,
    ]);
    let ghost so_far2 = out@.map_values(|d: String| d@);
    if let Some(h) = &home {
        let hc = chars_of(h.as_str());
        out.push(path_join_exec(&hc, ".local/share/flatpak/exports/share/applications"));
    }
    let ghost last: Seq<Seq<char>> = match opt_view(home) {
        Some(h) => seq![path_join(h, ".local/share/flatpak/exports/share/applications"@)],
        None => Seq::empty(),
    };
    assert(out@.map_values(|d: String| d@) =~= so_far2 + last);
    out
}


// ---------------------------------------------------------------- the application list

/// The names of the applications.
pub open spec fn names_of(s: Seq<AppEntry>) -> Seq<Seq<char>> {
    s.map_values(|a: AppEntry| a.name@)
}

/// The applications, each name kept at its first occurrence only.
pub open spec fn first_of_each_name(s: Seq<AppEntry>) -> Seq<AppEntry>
    decreases s.len(),
{
    if s.len() == 0 {
        s
    } else if names_of(s.drop_last()).contains(s.last().name@) {
        first_of_each_name(s.drop_last())
    } else {
        first_of_each_name(s.drop_last()).push(s.last())
    }
}

/// The key the list is sorted by: the lowercased name.
pub open spec fn name_key(a: AppEntry) -> Seq<char> {
    to_lower(a.name@)
}

/// `x` placed into `s` before the first application whose key is greater than its own.
pub open spec fn insert_by_name(s: Seq<AppEntry>, x: AppEntry) -> Seq<AppEntry>
    decreases s.len(),
{
    if s.len() == 0 {
        seq![x]
    } else if chars_lt(name_key(x), name_key(s[0])) {
        seq![x] + s
    } else {
        seq![s[0]] + insert_by_name(s.drop_first(), x)
    }
}

/// The applications stably sorted by lowercased name.
pub open spec fn sort_by_name(s: Seq<AppEntry>) -> Seq<AppEntry>
    decreases s.len(),
{
    if s.len() == 0 {
        s
    } else {
        insert_by_name(sort_by_name(s.drop_last()), s.last())
    }
}

/// The application list built from the entries found, in the order they were found.
pub open spec fn application_list(found: Seq<AppEntry>) -> Seq<AppEntry> {
    sort_by_name(first_of_each_name(found))
}

proof fn lemma_insert_by_name_at(s: Seq<AppEntry>, x: AppEntry, j: int)
    requires
        0 <= j <= s.len(),
        forall|k: int| 0 <= k < j ==> !chars_lt(name_key(x), #[trigger] name_key(s[k])),
        j < s.len() ==> chars_lt(name_key(x), name_key(s[j])),
    ensures
        insert_by_name(s, x) == s.insert(j, x),
    decreases j,
{
    if j == 0 {
        assert(insert_by_name(s, x) =~= s.insert(j, x));
    } else {
        let t = s.drop_first();
        assert forall|k: int| 0 <= k < j - 1 implies !chars_lt(name_key(x), #[trigger] name_key(t[k])) by {
            assert(t[k] == s[k + 1]);
        }
        lemma_insert_by_name_at(t, x, j - 1);
        assert(!chars_lt(name_key(x), name_key(s[0])));
        assert(insert_by_name(s, x) =~= s.insert(j, x));
    }
}

proof fn lemma_push_contains<A>(s: Seq<A>, x: A, n: A)
    ensures
        s.push(x).contains(n) <==> (s.contains(n) || x == n),
{
    if s.contains(n) {
        let k = choose|k: int| 0 <= k < s.len() && s[k] == n;
        assert(s.push(x)[k] == n);
    }
    if x == n {
        assert(s.push(x)[s.len() as int] == n);
    }
    if s.push(x).contains(n) {
        let k = choose|k: int| 0 <= k < s.push(x).len() && s.push(x)[k] == n;
        if k < s.len() {
            assert(s[k] == n);
        }
    }
}

/// Whether an application of this name is already in `apps`.
fn has_name(apps: &Vec<AppEntry>, name: &String) -> (r: bool)
    ensures
        r == names_of(apps@).contains(name@),
{
    let mut k: usize = 0;
    while k < apps.len()
        invariant
            k <= apps@.len(),
            forall|j: int| 0 <= j < k ==> apps@[j].name@ != name@,
        decreases apps@.len() - k,
    {
        if apps[k].name == *name {
            assert(names_of(apps@)[k as int] == name@);
            return true;
        }
        k = k + 1;
    }
    assert forall|j: int| 0 <= j < names_of(apps@).len() implies names_of(apps@)[j] != name@ by {
        assert(apps@[j].name@ != name@);
    }
    false
}

/// The application list shown to the user, from the entries found while scanning the
/// directories in order: an application whose name was already found is skipped, and
/// the rest are sorted by lowercased name, keeping the found order between equal keys.
pub fn collect_applications(found: Vec<AppEntry>) -> (r: Vec<AppEntry>)
    ensures
        r@ == application_list(found@),
        names_distinct(r@),
        ordered_by_name(r@),
        forall|i: int, j: int|
            0 <= i < j < r@.len() ==> !chars_lt(to_lower(#[trigger] r@[j].name@), to_lower(#[trigger] r@[i].name@)),
{
    let ghost all = found@;
    let mut uniq: Vec<AppEntry> = Vec::new();
    for app in it: found.into_iter()
        invariant
            it.seq() == all,
            uniq@ == first_of_each_name(all.take(it.index() as int)),
            forall|n: Seq<char>|
                names_of(all.take(it.index() as int)).contains(n) <==> #[trigger] names_of(
                    uniq@,
                ).contains(n),
    {
        let ghost i = it.index() as int;
        let ghost pre = all.take(i);
        assert(all.take(i + 1).drop_last() =~= pre);
        assert(all.take(i + 1).last() == app);
        let seen = has_name(&uniq, &app.name);
        let ghost old_uniq = uniq@;
        if !seen {
            uniq.push(app);
        }
        assert forall|n: Seq<char>|
            names_of(all.take(i + 1)).contains(n) <==> #[trigger] names_of(uniq@).contains(n) by {
            assert(names_of(all.take(i + 1)) =~= names_of(pre).push(all[i].name@));
            assert(names_of(pre).contains(n) <==> names_of(old_uniq).contains(n));
            lemma_push_contains(names_of(pre), all[i].name@, n);
            if !seen {
                assert(names_of(uniq@) =~= names_of(old_uniq).push(all[i].name@));
                lemma_push_contains(names_of(old_uniq), all[i].name@, n);
            }
        }
    }
    assert(all.take(all.len() as int) =~= all);
    let ghost deduped = uniq@;
    let mut out: Vec<AppEntry> = Vec::new();
    let mut keys: Vec<Vec<char>> = Vec::new();
    for app in it: uniq.into_iter()
        invariant
            it.seq() == deduped,
            out@ == sort_by_name(deduped.take(it.index() as int)),
            keys@.len() == out@.len(),
            forall|k: int| 0 <= k < out@.len() ==> #[trigger] keys@[k]@ == name_key(out@[k]),
    {
        let ghost i = it.index() as int;
        assert(deduped.take(i + 1).drop_last() =~= deduped.take(i));
        let lowered = to_lowercase(app.name.as_str());
        let key = chars_of(lowered.as_str());
        let mut j: usize = 0;
        while j < out.len() && !chars_lt_exec(&key, &keys[j])
            invariant
                j <= out@.len(),
                keys@.len() == out@.len(),
                key@ == name_key(app),
                forall|k: int| 0 <= k < out@.len() ==> #[trigger] keys@[k]@ == name_key(out@[k]),
                forall|k: int| 0 <= k < j ==> !chars_lt(name_key(app), #[trigger] name_key(out@[k])),
            decreases out@.len() - j,
        {
            j = j + 1;
        }
        proof {
            lemma_insert_by_name_at(out@, app, j as int);
        }
        let ghost old_keys = keys@;
        let ghost old_out = out@;
        out.insert(j, app);
        keys.insert(j, key);
        assert forall|k: int| 0 <= k < out@.len() implies #[trigger] keys@[k]@ == name_key(out@[k]) by {
            if k < j {
                assert(keys@[k] == old_keys[k]);
            } else if k > j {
                assert(keys@[k] == old_keys[k - 1]);
                assert(out@[k] == old_out[k - 1]);
            }
        }
    }
    assert(deduped.take(deduped.len() as int) =~= deduped);
    proof {
        application_list_names_distinct(all);
        application_list_is_ordered(all);
    }
    out
}


// ---------------------------------------------------------------- laws of the application list

/// No two applications share a name.
pub open spec fn names_distinct(s: Seq<AppEntry>) -> bool {
    forall|i: int, j: int| 0 <= i < j < s.len() ==> #[trigger] s[i].name@ != #[trigger] s[j].name@
}

/// Keys never decrease along the list.
pub open spec fn ordered_by_name(s: Seq<AppEntry>) -> bool {
    forall|i: int, j: int| 0 <= i < j < s.len() ==> !chars_lt(name_key(#[trigger] s[j]), name_key(#[trigger] s[i]))
}

/// Where `insert_by_name` puts `x`: after every application whose key is not greater.
pub open spec fn name_insert_pos(s: Seq<AppEntry>, x: AppEntry) -> int
    decreases s.len(),
{
    if s.len() == 0 || chars_lt(name_key(x), name_key(s[0])) {
        0
    } else {
        1 + name_insert_pos(s.drop_first(), x)
    }
}

proof fn lemma_insert_by_name_split(s: Seq<AppEntry>, x: AppEntry)
    ensures
        0 <= name_insert_pos(s, x) <= s.len(),
        insert_by_name(s, x) == s.take(name_insert_pos(s, x)) + seq![x] + s.skip(name_insert_pos(s, x)),
        forall|k: int| 0 <= k < name_insert_pos(s, x) ==> !chars_lt(name_key(x), #[trigger] name_key(s[k])),
        name_insert_pos(s, x) < s.len() ==> chars_lt(name_key(x), name_key(s[name_insert_pos(s, x)])),
    decreases s.len(),
{
    if s.len() == 0 || chars_lt(name_key(x), name_key(s[0])) {
        assert(insert_by_name(s, x) =~= s.take(0) + seq![x] + s.skip(0));
    } else {
        let t = s.drop_first();
        lemma_insert_by_name_split(t, x);
        let p = name_insert_pos(t, x);
        assert forall|k: int| 0 <= k < p + 1 implies !chars_lt(name_key(x), #[trigger] name_key(s[k])) by {
            if k > 0 {
                assert(s[k] == t[k - 1]);
            }
        }
        assert(insert_by_name(s, x) =~= s.take(p + 1) + seq![x] + s.skip(p + 1));
    }
}

proof fn lemma_insert_by_name_contains(s: Seq<AppEntry>, x: AppEntry, a: AppEntry)
    ensures
        insert_by_name(s, x).contains(a) <==> (s.contains(a) || a == x),
{
    lemma_insert_by_name_split(s, x);
    let p = name_insert_pos(s, x);
    let r = insert_by_name(s, x);
    if s.contains(a) {
        let k = choose|k: int| 0 <= k < s.len() && s[k] == a;
        if k < p {
            assert(r[k] == a);
        } else {
            assert(r[k + 1] == a);
        }
    }
    if a == x {
        assert(r[p] == a);
    }
    if r.contains(a) {
        let k = choose|k: int| 0 <= k < r.len() && r[k] == a;
        if k < p {
            assert(s[k] == a);
        } else if k > p {
            assert(s[k - 1] == a);
        }
    }
}

proof fn lemma_sort_by_name_contains(s: Seq<AppEntry>, a: AppEntry)
    ensures
        sort_by_name(s).contains(a) <==> s.contains(a),
    decreases s.len(),
{
    if s.len() > 0 {
        let t = s.drop_last();
        lemma_sort_by_name_contains(t, a);
        lemma_insert_by_name_contains(sort_by_name(t), s.last(), a);
        if s.contains(a) {
            let k = choose|k: int| 0 <= k < s.len() && s[k] == a;
            if k < s.len() - 1 {
                assert(t[k] == a);
            }
        }
        if t.contains(a) {
            let k = choose|k: int| 0 <= k < t.len() && t[k] == a;
            assert(s[k] == a);
        }
    }
}

proof fn lemma_names_contains(s: Seq<AppEntry>, n: Seq<char>)
    ensures
        names_of(s).contains(n) <==> exists|a: AppEntry| s.contains(a) && a.name@ == n,
{
    if names_of(s).contains(n) {
        let k = choose|k: int| 0 <= k < names_of(s).len() && names_of(s)[k] == n;
        assert(s.contains(s[k]));
    }
    if exists|a: AppEntry| s.contains(a) && a.name@ == n {
        let a = choose|a: AppEntry| s.contains(a) && a.name@ == n;
        let k = choose|k: int| 0 <= k < s.len() && s[k] == a;
        assert(names_of(s)[k] == n);
    }
}

proof fn lemma_sort_by_name_names(s: Seq<AppEntry>, n: Seq<char>)
    ensures
        names_of(sort_by_name(s)).contains(n) <==> names_of(s).contains(n),
{
    lemma_names_contains(s, n);
    lemma_names_contains(sort_by_name(s), n);
    if names_of(s).contains(n) {
        let a = choose|a: AppEntry| s.contains(a) && a.name@ == n;
        lemma_sort_by_name_contains(s, a);
    }
    if names_of(sort_by_name(s)).contains(n) {
        let a = choose|a: AppEntry| sort_by_name(s).contains(a) && a.name@ == n;
        lemma_sort_by_name_contains(s, a);
    }
}

proof fn lemma_first_of_each_name(s: Seq<AppEntry>)
    ensures
        names_distinct(first_of_each_name(s)),
        forall|n: Seq<char>| #[trigger] names_of(first_of_each_name(s)).contains(n) <==> names_of(s).contains(n),
        forall|a: AppEntry| #[trigger] first_of_each_name(s).contains(a) ==> s.contains(a),
    decreases s.len(),
{
    if s.len() > 0 {
        let t = s.drop_last();
        let x = s.last();
        let f = first_of_each_name(t);
        lemma_first_of_each_name(t);
        assert(names_of(s) =~= names_of(t).push(x.name@));
        assert forall|n: Seq<char>| #[trigger] names_of(first_of_each_name(s)).contains(n) <==> names_of(s).contains(n) by {
            lemma_push_contains(names_of(t), x.name@, n);
            if !names_of(t).contains(x.name@) {
                assert(names_of(first_of_each_name(s)) =~= names_of(f).push(x.name@));
                lemma_push_contains(names_of(f), x.name@, n);
            }
        }
        assert forall|a: AppEntry| #[trigger] first_of_each_name(s).contains(a) implies s.contains(a) by {
            lemma_push_contains(t, x, a);
            assert(s =~= t.push(x));
            if !names_of(t).contains(x.name@) {
                lemma_push_contains(f, x, a);
            }
        }
        if !names_of(t).contains(x.name@) {
            let g = first_of_each_name(s);
            assert forall|i: int, j: int| 0 <= i < j < g.len() implies #[trigger] g[i].name@ != #[trigger] g[j].name@ by {
                if j == g.len() - 1 {
                    assert(names_of(f)[i] == g[i].name@);
                    assert(names_of(f).contains(g[i].name@));
                } else {
                    assert(g[i] == f[i] && g[j] == f[j]);
                }
            }
        }
    }
}

proof fn lemma_insert_by_name_distinct(t: Seq<AppEntry>, x: AppEntry)
    requires
        names_distinct(t),
        !names_of(t).contains(x.name@),
    ensures
        names_distinct(insert_by_name(t, x)),
{
    lemma_insert_by_name_split(t, x);
    let p = name_insert_pos(t, x);
    let r = insert_by_name(t, x);
    assert forall|i: int, j: int| 0 <= i < j < r.len() implies #[trigger] r[i].name@ != #[trigger] r[j].name@ by {
        let ii = if i < p { i } else { i - 1 };
        let jj = if j < p { j } else { j - 1 };
        if i == p {
            assert(r[j] == t[jj]);
            assert(names_of(t)[jj] == r[j].name@);
        } else if j == p {
            assert(r[i] == t[ii]);
            assert(names_of(t)[ii] == r[i].name@);
        } else {
            assert(r[i] == t[ii] && r[j] == t[jj]);
        }
    }
}

proof fn lemma_sort_by_name_distinct(s: Seq<AppEntry>)
    requires
        names_distinct(s),
    ensures
        names_distinct(sort_by_name(s)),
    decreases s.len(),
{
    if s.len() > 0 {
        let t = s.drop_last();
        let x = s.last();
        assert(names_distinct(t)) by {
            assert forall|i: int, j: int| 0 <= i < j < t.len() implies #[trigger] t[i].name@ != #[trigger] t[j].name@ by {
                assert(t[i] == s[i] && t[j] == s[j]);
            }
        }
        lemma_sort_by_name_distinct(t);
        lemma_sort_by_name_names(t, x.name@);
        if names_of(t).contains(x.name@) {
            let k = choose|k: int| 0 <= k < names_of(t).len() && names_of(t)[k] == x.name@;
            assert(s[k].name@ == s[s.len() - 1].name@);
        }
        lemma_insert_by_name_distinct(sort_by_name(t), x);
    }
}

proof fn lemma_insert_by_name_ordered(t: Seq<AppEntry>, x: AppEntry)
    requires
        ordered_by_name(t),
    ensures
        ordered_by_name(insert_by_name(t, x)),
{
    lemma_insert_by_name_split(t, x);
    let p = name_insert_pos(t, x);
    let r = insert_by_name(t, x);
    assert forall|i: int, j: int| 0 <= i < j < r.len() implies !chars_lt(name_key(#[trigger] r[j]), name_key(#[trigger] r[i])) by {
        if j < p {
            assert(r[i] == t[i] && r[j] == t[j]);
        } else if j == p {
            assert(r[i] == t[i]);
        } else if i < p {
            assert(r[i] == t[i] && r[j] == t[j - 1]);
        } else if i == p {
            assert(r[j] == t[j - 1]);
            if chars_lt(name_key(t[j - 1]), name_key(x)) {
                chars_lt_transitive(name_key(t[j - 1]), name_key(x), name_key(t[p]));
                if j - 1 == p {
                    chars_lt_irreflexive(name_key(t[p]));
                }
            }
        } else {
            assert(r[i] == t[i - 1] && r[j] == t[j - 1]);
        }
    }
}

proof fn lemma_sort_by_name_ordered(s: Seq<AppEntry>)
    ensures
        ordered_by_name(sort_by_name(s)),
    decreases s.len(),
{
    if s.len() > 0 {
        lemma_sort_by_name_ordered(s.drop_last());
        lemma_insert_by_name_ordered(sort_by_name(s.drop_last()), s.last());
    }
}

/// The application list never holds two applications of the same name.
pub proof fn application_list_names_distinct(found: Seq<AppEntry>)
    ensures
        names_distinct(application_list(found)),
{
    lemma_first_of_each_name(found);
    lemma_sort_by_name_distinct(first_of_each_name(found));
}

/// The application list is sorted by lowercased name.
pub proof fn application_list_is_ordered(found: Seq<AppEntry>)
    ensures
        ordered_by_name(application_list(found)),
{
    lemma_sort_by_name_ordered(first_of_each_name(found));
}

/// `a` is the first application found under its name.
pub open spec fn found_first(found: Seq<AppEntry>, a: AppEntry) -> bool {
    exists|k: int|
        0 <= k < found.len() && #[trigger] found[k] == a && forall|m: int| 0 <= m < k ==> (#[trigger] found[m]).name@
            != a.name@
}

proof fn lemma_first_of_each_name_is_found_first(s: Seq<AppEntry>, a: AppEntry)
    ensures
        first_of_each_name(s).contains(a) <==> found_first(s, a),
    decreases s.len(),
{
    if s.len() > 0 {
        let t = s.drop_last();
        let x = s.last();
        lemma_first_of_each_name_is_found_first(t, a);
        lemma_names_contains(t, x.name@);
        let f = first_of_each_name(t);
        if !names_of(t).contains(x.name@) {
            lemma_push_contains(f, x, a);
        }
        if found_first(s, a) {
            let k = choose|k: int|
                0 <= k < s.len() && #[trigger] s[k] == a && forall|m: int| 0 <= m < k ==> (#[trigger] s[m]).name@
                    != a.name@;
            if k < t.len() {
                assert(t[k] == a);
                assert forall|m: int| 0 <= m < k implies (#[trigger] t[m]).name@ != a.name@ by {
                    assert(t[m] == s[m]);
                }
                assert(found_first(t, a));
            } else {
                assert(a == x);
                if names_of(t).contains(x.name@) {
                    let b = choose|b: AppEntry| t.contains(b) && b.name@ == x.name@;
                    let m = choose|m: int| 0 <= m < t.len() && t[m] == b;
                    assert(s[m] == b);
                }
            }
        }
        if found_first(t, a) {
            let k = choose|k: int|
                0 <= k < t.len() && #[trigger] t[k] == a && forall|m: int| 0 <= m < k ==> (#[trigger] t[m]).name@
                    != a.name@;
            assert(s[k] == a);
            assert forall|m: int| 0 <= m < k implies (#[trigger] s[m]).name@ != a.name@ by {
                assert(t[m] == s[m]);
            }
            assert(found_first(s, a));
        }
        if !names_of(t).contains(x.name@) && a == x {
            assert(s[t.len() as int] == a);
            assert forall|m: int| 0 <= m < t.len() implies (#[trigger] s[m]).name@ != a.name@ by {
                assert(s[m] == t[m]);
                assert(t.contains(t[m]));
            }
            assert(found_first(s, a));
        }
    }
}

/// The application list holds, for each name found, the application found first under
/// that name, and nothing else, and no name twice.
pub proof fn application_list_first_of_each_name(found: Seq<AppEntry>)
    ensures
        forall|a: AppEntry| #[trigger] application_list(found).contains(a) <==> found_first(found, a),
        forall|i: int, j: int|
            0 <= i < j < application_list(found).len() ==> (#[trigger] application_list(found)[i]).name@
                != (#[trigger] application_list(found)[j]).name@,
{
    application_list_names_distinct(found);
    assert forall|a: AppEntry| #[trigger] application_list(found).contains(a) <==> found_first(found, a) by {
        lemma_sort_by_name_contains(first_of_each_name(found), a);
        lemma_first_of_each_name_is_found_first(found, a);
    }
}

/// The application list is sorted by name lowercased as `str::to_lowercase` does: of two
/// listed applications, the later one's lowercased name never comes before the earlier
/// one's.
pub proof fn application_list_sorted_by_lowercased_name(found: Seq<AppEntry>)
    ensures
        forall|i: int, j: int|
            0 <= i < j < application_list(found).len() ==> !chars_lt(
                to_lower(#[trigger] application_list(found)[j].name@),
                to_lower(#[trigger] application_list(found)[i].name@),
            ),
{
    application_list_is_ordered(found);
}

/// Every name found is listed, and every listed application was found.
pub proof fn application_list_keeps_names(found: Seq<AppEntry>)
    ensures
        forall|n: Seq<char>| #[trigger] names_of(application_list(found)).contains(n) <==> names_of(found).contains(n),
        forall|a: AppEntry| #[trigger] application_list(found).contains(a) ==> found.contains(a),
{
    lemma_first_of_each_name(found);
    let f = first_of_each_name(found);
    assert forall|n: Seq<char>| #[trigger] names_of(application_list(found)).contains(n) <==> names_of(found).contains(n) by {
        lemma_sort_by_name_names(f, n);
    }
    assert forall|a: AppEntry| #[trigger] application_list(found).contains(a) implies found.contains(a) by {
        lemma_sort_by_name_contains(f, a);
    }
}

// ---------------------------------------------------------------- filtering

/// The lowercased name of `a` begins with `q`.
pub open spec fn name_starts_with(a: AppEntry, q: Seq<char>) -> bool {
    starts_with(to_lower(a.name@), q)
}

/// The lowercased name of `a` contains `q` without beginning with it.
pub open spec fn name_contains_later(a: AppEntry, q: Seq<char>) -> bool {
    !starts_with(to_lower(a.name@), q) && contains(to_lower(a.name@), q)
}

/// The applications matching `query`: all of them for an empty query; otherwise those
/// whose lowercased name begins with the lowercased query, then those whose lowercased
/// name contains it elsewhere, each group in list order.
pub open spec fn filtered_apps(apps: Seq<AppEntry>, query: Seq<char>) -> Seq<AppEntry> {
    if query.len() == 0 {
        apps
    } else {
        let q = to_lower(query);
        apps.filter(|a: AppEntry| name_starts_with(a, q)) + apps.filter(
            |a: AppEntry| name_contains_later(a, q),
        )
    }
}

/// The applications whose name matches `query`, prefix matches first.
pub fn filter_apps<'a>(apps: &'a [AppEntry], query: &str) -> (r: Vec<&'a AppEntry>)
    ensures
        r@.map_values(|a: &AppEntry| *a) == filtered_apps(apps@, query@),
{
    if query.is_empty() {
        let mut all: Vec<&'a AppEntry> = Vec::new();
        let mut i: usize = 0;
        while i < apps.len()
            invariant
                i <= apps@.len(),
                all@.map_values(|a: &AppEntry| *a) == apps@.take(i as int),
            decreases apps@.len() - i,
        {
            let ghost before = all@.map_values(|a: &AppEntry| *a);
            let app = &apps[i];
            all.push(app);
            assert(all@.map_values(|a: &AppEntry| *a) =~= before.push(apps@[i as int]));
            assert(apps@.take(i + 1) =~= apps@.take(i as int).push(apps@[i as int]));
            i = i + 1;
        }
        assert(apps@.take(apps@.len() as int) =~= apps@);
        return all;
    }
    let lowered = to_lowercase(query);
    let q = chars_of(lowered.as_str());
    let ghost pa = |a: AppEntry| name_starts_with(a, q@);
    let ghost pb = |a: AppEntry| name_contains_later(a, q@);
    let mut starts: Vec<&'a AppEntry> = Vec::new();
    let mut later: Vec<&'a AppEntry> = Vec::new();
    let mut i: usize = 0;
    assert(apps@.take(0).filter(pa) =~= Seq::<AppEntry>::empty()) by {
        reveal_with_fuel(Seq::<_>::filter, 1);
    }
    assert(apps@.take(0).filter(pb) =~= Seq::<AppEntry>::empty()) by {
        reveal_with_fuel(Seq::<_>::filter, 1);
    }
    assert(starts@.map_values(|a: &AppEntry| *a) =~= Seq::<AppEntry>::empty());
    assert(later@.map_values(|a: &AppEntry| *a) =~= Seq::<AppEntry>::empty());
    while i < apps.len()
        invariant
            i <= apps@.len(),
            q@ == to_lower(query@),
            pa == (|a: AppEntry| name_starts_with(a, q@)),
            pb == (|a: AppEntry| name_contains_later(a, q@)),
            starts@.map_values(|a: &AppEntry| *a) == apps@.take(i as int).filter(pa),
            later@.map_values(|a: &AppEntry| *a) == apps@.take(i as int).filter(pb),
        decreases apps@.len() - i,
    {
        let ghost s0 = starts@.map_values(|a: &AppEntry| *a);
        let ghost l0 = later@.map_values(|a: &AppEntry| *a);
        assert(apps@.take(i + 1).drop_last() =~= apps@.take(i as int));
        assert(apps@.take(i + 1).last() == apps@[i as int]);
        reveal_with_fuel(Seq::<_>::filter, 1);
        let app = &apps[i];
        let name_lowered = to_lowercase(app.name.as_str());
        let name = chars_of(name_lowered.as_str());
        if starts_with_exec(&name, &q) {
            starts.push(app);
            assert(starts@.map_values(|a: &AppEntry| *a) =~= s0.push(*app));
        } else if contains_exec(&name, &q) {
            later.push(app);
            assert(later@.map_values(|a: &AppEntry| *a) =~= l0.push(*app));
        }
        i = i + 1;
    }
    assert(apps@.take(apps@.len() as int) =~= apps@);
    let ghost s0 = starts@.map_values(|a: &AppEntry| *a);
    let ghost l0 = later@.map_values(|a: &AppEntry| *a);
    starts.append(&mut later);
    assert(starts@.map_values(|a: &AppEntry| *a) =~= s0 + l0);
    starts
}


/// `q` occurs in `n`.
pub open spec fn occurs_in(n: Seq<char>, q: Seq<char>) -> bool {
    exists|i: int| 0 <= i && i + q.len() <= n.len() && #[trigger] n.subrange(i, i + q.len()) == q
}

/// The lowercased name of `a` begins with `q`.
pub open spec fn lowered_name_begins_with(a: AppEntry, q: Seq<char>) -> bool {
    let n = to_lower(a.name@);
    q.len() <= n.len() && n.subrange(0, q.len() as int) == q
}

/// The filter keeps the list for an empty query; otherwise it gives, in list order, the
/// applications whose lowercased name begins with the lowercased query, then, in list
/// order, those whose lowercased name holds it elsewhere only.
pub proof fn filter_apps_prefix_matches_then_others(apps: Seq<AppEntry>, query: Seq<char>)
    ensures
        query.len() == 0 ==> filtered_apps(apps, query) == apps,
        query.len() > 0 ==> filtered_apps(apps, query) == apps.filter(
            |a: AppEntry| lowered_name_begins_with(a, to_lower(query)),
        ) + apps.filter(
            |a: AppEntry|
                !lowered_name_begins_with(a, to_lower(query)) && occurs_in(to_lower(a.name@), to_lower(query)),
        ),
{
    if query.len() > 0 {
        let q = to_lower(query);
        let pa = |a: AppEntry| name_starts_with(a, q);
        let pb = |a: AppEntry| name_contains_later(a, q);
        let qa = |a: AppEntry| lowered_name_begins_with(a, q);
        let qb = |a: AppEntry| !lowered_name_begins_with(a, q) && occurs_in(to_lower(a.name@), q);
        assert forall|a: AppEntry| #[trigger] pb(a) == qb(a) by {
            let n = to_lower(a.name@);
            if contains(n, q) {
                let k = choose|k: int| #[trigger] occurs_at(n, q, k);
                assert(n.subrange(k, k + q.len()) == q);
            }
            if occurs_in(n, q) {
                let k = choose|k: int| 0 <= k && k + q.len() <= n.len() && #[trigger] n.subrange(k, k + q.len()) == q;
                assert(occurs_at(n, q, k));
            }
        }
        assert(pa =~= qa);
        assert(pb =~= qb);
    }
}

/// For a non-empty query, every application of the list whose lowercased name contains
/// the lowercased query is returned, and every returned one is such an application;
/// those whose lowercased name begins with the lowercased query come first.
pub proof fn filter_apps_finds_every_match(apps: Seq<AppEntry>, query: Seq<char>)
    requires
        query.len() > 0,
    ensures
        forall|a: AppEntry|
            #[trigger] filtered_apps(apps, query).contains(a) <==> apps.contains(a) && occurs_in(
                to_lower(a.name@),
                to_lower(query),
            ),
        forall|i: int, j: int|
            0 <= i < j < filtered_apps(apps, query).len() && to_lower(query).len() <= to_lower(
                (#[trigger] filtered_apps(apps, query)[j]).name@,
            ).len() && to_lower(filtered_apps(apps, query)[j].name@).subrange(0, to_lower(query).len() as int)
                == to_lower(query) ==> ({
                let n = to_lower((#[trigger] filtered_apps(apps, query)[i]).name@);
                to_lower(query).len() <= n.len() && n.subrange(0, to_lower(query).len() as int) == to_lower(query)
            }),
{
    broadcast use vstd::seq_lib::group_filter_ensures;

    let q = to_lower(query);
    let pa = |a: AppEntry| name_starts_with(a, q);
    let pb = |a: AppEntry| name_contains_later(a, q);
    let fa = apps.filter(pa);
    let fb = apps.filter(pb);
    let r = filtered_apps(apps, query);
    assert(r == fa + fb);
    assert forall|a: AppEntry| #[trigger] r.contains(a) <==> apps.contains(a) && occurs_in(to_lower(a.name@), q) by {
        let n = to_lower(a.name@);
        if r.contains(a) {
            let w = choose|w: int| 0 <= w < r.len() && r[w] == a;
            if w < fa.len() {
                assert(fa.contains(fa[w]));
                apps.lemma_filter_contains_rev(pa, fa[w]);
                assert(pa(fa[w]));
                assert(n.subrange(0, 0 + q.len() as int) == q);
                assert(occurs_in(n, q));
            } else {
                assert(fb.contains(fb[w - fa.len()]));
                apps.lemma_filter_contains_rev(pb, fb[w - fa.len()]);
                assert(pb(fb[w - fa.len()]));
                let k = choose|k: int| #[trigger] occurs_at(n, q, k);
                assert(n.subrange(k, k + q.len()) == q);
                assert(occurs_in(n, q));
            }
            assert(apps.contains(a));
        }
        if apps.contains(a) && occurs_in(n, q) {
            let m = choose|m: int| 0 <= m < apps.len() && apps[m] == a;
            let k = choose|k: int| 0 <= k && k + q.len() <= n.len() && #[trigger] n.subrange(k, k + q.len()) == q;
            if starts_with(n, q) {
                apps.lemma_filter_contains(pa, m);
                let x = choose|x: int| 0 <= x < fa.len() && fa[x] == a;
                assert(r[x] == a);
                assert(r.contains(a));
            } else {
                assert(occurs_at(n, q, k));
                apps.lemma_filter_contains(pb, m);
                let x = choose|x: int| 0 <= x < fb.len() && fb[x] == a;
                assert(r[fa.len() + x] == a);
                assert(r.contains(a));
            }
        }
    }
    assert forall|i: int, j: int|
        0 <= i < j < r.len() && q.len() <= to_lower((#[trigger] r[j]).name@).len() && to_lower(r[j].name@).subrange(
            0,
            q.len() as int,
        ) == q implies ({
        let n = to_lower((#[trigger] r[i]).name@);
        q.len() <= n.len() && n.subrange(0, q.len() as int) == q
    }) by {
        if j >= fa.len() {
            assert(r[j] == fb[j - fa.len()]);
            assert(pb(fb[j - fa.len()]));
        }
        assert(i < fa.len());
        assert(r[i] == fa[i]);
        assert(pa(fa[i]));
    }
}

/// For an ASCII query the filter ignores case: the query in upper or lower case finds
/// the same applications.
pub proof fn filter_ignores_ascii_case(apps: Seq<AppEntry>, query: Seq<char>)
    requires
        all_ascii(query),
    ensures
        filtered_apps(apps, ascii_uppercase(query)) == filtered_apps(apps, query),
        filtered_apps(apps, ascii_lowercase(query)) == filtered_apps(apps, query),
{
    to_lower_of_ascii_uppercase(query);
}

/// For a non-empty query, every application returned comes from the list and its
/// lowercased name contains the lowercased query.
pub proof fn filtered_apps_match(apps: Seq<AppEntry>, query: Seq<char>)
    requires
        query.len() > 0,
    ensures
        forall|i: int|
            0 <= i < filtered_apps(apps, query).len() ==> apps.contains(#[trigger] filtered_apps(apps, query)[i])
                && contains(to_lower(filtered_apps(apps, query)[i].name@), to_lower(query)),
{
    broadcast use vstd::seq_lib::group_filter_ensures;

    let q = to_lower(query);
    let pa = |a: AppEntry| name_starts_with(a, q);
    let pb = |a: AppEntry| name_contains_later(a, q);
    let fa = apps.filter(pa);
    let fb = apps.filter(pb);
    let r = filtered_apps(apps, query);
    assert(r == fa + fb);
    assert forall|i: int| 0 <= i < r.len() implies apps.contains(#[trigger] r[i]) && contains(
        to_lower(r[i].name@),
        q,
    ) by {
        if i < fa.len() {
            assert(r[i] == fa[i]);
            assert(fa.contains(fa[i]));
            apps.lemma_filter_contains_rev(pa, fa[i]);
            assert(pa(fa[i]));
            let n = to_lower(fa[i].name@);
            assert(occurs_at(n, q, 0));
        } else {
            let k = i - fa.len();
            assert(r[i] == fb[k]);
            assert(fb.contains(fb[k]));
            apps.lemma_filter_contains_rev(pb, fb[k]);
            assert(pb(fb[k]));
        }
    }
}

} // verus!
