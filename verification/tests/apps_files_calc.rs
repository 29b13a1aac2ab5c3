use rusted_light::desktop_entry::AppEntry;
use rusted_light::providers::apps::{query_fits_matcher, AppsProvider, MAX_WORD_CHARS};
use rusted_light::providers::calc::{calc_result, calc_results, is_potential_math};
use rusted_light::providers::files::{
    found_entry, icon_for_filename, index_entry, is_pruned_dir_name, locate_lines, FileEntry, FileSearch,
    FilesProvider, LocateHit, MAX_INDEXED_FILES,
};
use rusted_light::providers::SearchAction;

fn app(name: &str, exec_line: &str) -> AppEntry {
    AppEntry { name: name.to_string(), exec_line: exec_line.to_string(), icon: Some("icon".to_string()) }
}

fn entry(path: &str, is_dir: bool) -> FileEntry {
    let name = path.rsplit('/').next().unwrap().to_string();
    FileEntry { path: path.to_string(), file_name: name, is_dir }
}

#[test]
fn apps_provider_identity() {
    let p = AppsProvider::new(Vec::new());
    assert_eq!(p.id(), "apps");
    assert_eq!(p.priority_boost(), 50);
}

#[test]
fn apps_empty_query_lists_everything() {
    let p = AppsProvider::new(vec![app("Firefox", "firefox %u"), app("Files", "nautilus")]);
    let r = p.matches("   ");
    assert_eq!(r.len(), 2);
    assert_eq!(r[0].id, "app:Firefox");
    assert_eq!(r[0].title, "Firefox");
    assert_eq!(r[0].subtitle.as_deref(), Some("firefox %u"));
    assert_eq!(r[0].icon.as_deref(), Some("icon"));
    assert_eq!(r[0].score, 0);
    assert!(matches!(&r[0].action, SearchAction::LaunchApp { exec_line } if exec_line == "firefox %u"));
    assert!(r[0].secondary_actions.is_empty());
    assert_eq!(r[1].title, "Files");
}

#[test]
fn apps_match_by_name_or_command() {
    let p = AppsProvider::new(vec![app("Web Browser", "firefox"), app("Firefox", "firefox"), app("Calculator", "gnome-calc")]);
    let r = p.matches("firefox");
    let titles: Vec<&str> = r.iter().map(|x| x.title.as_str()).collect();
    assert_eq!(titles.len(), 2);
    assert_eq!(titles[0], "Firefox");
    assert_eq!(titles[1], "Web Browser");
    assert!(r[0].score > r[1].score);
    assert!(p.matches("qqqqzz").is_empty());
}

#[test]
fn apps_reload_replaces_list() {
    let mut p = AppsProvider::new(vec![app("A", "a")]);
    p.reload(vec![app("B", "b"), app("C", "c")]);
    assert_eq!(p.matches("").len(), 2);
}

#[test]
fn icons_follow_extension() {
    assert_eq!(icon_for_filename("photo.PNG").as_deref(), Some("image-x-generic"));
    assert_eq!(icon_for_filename("movie.mkv").as_deref(), Some("video-x-generic"));
    assert_eq!(icon_for_filename("song.flac").as_deref(), Some("audio-x-generic"));
    assert_eq!(icon_for_filename("doc.pdf").as_deref(), Some("application-pdf"));
    assert_eq!(icon_for_filename("a.tar.gz").as_deref(), Some("package-x-generic"));
    assert_eq!(icon_for_filename("main.rs").as_deref(), Some("text-x-script"));
    assert_eq!(icon_for_filename("notes.md").as_deref(), Some("text-x-generic"));
    assert_eq!(icon_for_filename("Makefile").as_deref(), Some("text-x-generic"));
    assert_eq!(icon_for_filename("c").as_deref(), Some("text-x-script"));
}

#[test]
fn pruned_directories() {
    for n in ["node_modules", "target", ".git", ".cache", ".cargo", ".rustup", ".npm", ".venv", "vendor"] {
        assert!(is_pruned_dir_name(n));
    }
    assert!(!is_pruned_dir_name("src"));
    assert!(!is_pruned_dir_name(".gitignore"));
}

#[test]
fn index_stops_when_full() {
    let mut entries = Vec::new();
    for i in 0..MAX_INDEXED_FILES - 1 {
        assert!(index_entry(&mut entries, entry(&format!("/h/f{}", i), false)));
    }
    assert!(!index_entry(&mut entries, entry("/h/last", false)));
    assert_eq!(entries.len(), MAX_INDEXED_FILES);
}

#[test]
fn indexing_state() {
    let mut p = FilesProvider::new(Some("/home/u".to_string()));
    assert!(!p.is_indexing());
    assert_eq!(p.entry_count(), 0);
    p.start_indexing();
    assert!(p.is_indexing());
    p.finish_indexing(vec![entry("/home/u/a.txt", false)]);
    assert!(!p.is_indexing());
    assert_eq!(p.entry_count(), 1);
}

#[test]
fn prettify_under_home() {
    let p = FilesProvider::new(Some("/home/u".to_string()));
    assert_eq!(p.prettify_path("/home/u/docs/a.txt"), "~/docs/a.txt");
    assert_eq!(p.prettify_path("/home/user2/a.txt"), "/home/user2/a.txt");
    assert_eq!(p.prettify_path("/etc/hosts"), "/etc/hosts");
    let q = FilesProvider::new(None);
    assert_eq!(q.prettify_path("/home/u/a"), "/home/u/a");
}

#[test]
fn short_queries_find_nothing() {
    let mut p = FilesProvider::new(None);
    p.finish_indexing(vec![entry("/h/a", false)]);
    assert!(matches!(p.matches(" a "), FileSearch::Results(v) if v.is_empty()));
    assert!(matches!(p.matches(""), FileSearch::Results(v) if v.is_empty()));
}

#[test]
fn empty_index_asks_for_locate() {
    let p = FilesProvider::new(None);
    match p.matches("  invoice ") {
        FileSearch::Locate(q) => assert_eq!(q, "invoice"),
        _ => panic!("expected a locate request"),
    }
    match p.matches("é") {
        FileSearch::Locate(q) => assert_eq!(q, "é"),
        _ => panic!("a two-byte query is long enough"),
    }
}

#[test]
fn file_matches_ranked_and_capped() {
    let mut p = FilesProvider::new(Some("/home/u".to_string()));
    let mut entries = Vec::new();
    for i in 0..20 {
        entries.push(entry(&format!("/home/u/invoice{}.pdf", i), false));
    }
    entries.push(entry("/home/u/invoices", true));
    entries.push(entry("/home/u/other.txt", false));
    p.finish_indexing(entries);
    match p.matches("invoice") {
        FileSearch::Results(v) => {
            assert_eq!(v.len(), 15);
            for w in v.windows(2) {
                assert!(w[0].score >= w[1].score);
            }
            let first = &v[0];
            assert!(first.id.starts_with("file:/home/u/invoice"));
            assert!(first.subtitle.as_deref().unwrap().starts_with("~/invoice"));
            assert_eq!(first.secondary_actions.len(), 1);
            assert_eq!(first.secondary_actions[0].0, "Open folder");
        }
        _ => panic!("expected results"),
    }
}

#[test]
fn locate_results_follow_output_order() {
    let p = FilesProvider::new(Some("/home/u".to_string()));
    let lines = locate_lines("/home/u/a.png\n  /etc/x  \n/tmp\n");
    assert_eq!(lines, vec!["/home/u/a.png", "  /etc/x  ", "/tmp"]);
    let hits = vec![
        LocateHit { index: 0, line: lines[0].clone(), is_dir: false },
        LocateHit { index: 2, line: lines[2].clone(), is_dir: true },
    ];
    let r = p.locate_results(hits);
    assert_eq!(r.len(), 2);
    assert_eq!(r[0].title, "a.png");
    assert_eq!(r[0].score, 100);
    assert_eq!(r[0].subtitle.as_deref(), Some("~/a.png"));
    assert_eq!(r[0].icon.as_deref(), Some("image-x-generic"));
    assert_eq!(r[1].title, "tmp");
    assert_eq!(r[1].score, 98);
    assert_eq!(r[1].icon.as_deref(), Some("folder"));
    assert!(matches!(&r[1].action, SearchAction::OpenFile { path } if path == "/tmp"));
}

#[test]
fn potential_math_queries() {
    assert!(is_potential_math("23*4"));
    assert!(is_potential_math(" 100 / 4 + 5"));
    assert!(is_potential_math("2 ^ 8"));
    assert!(is_potential_math("sqrt(144)"));
    assert!(is_potential_math("abs(-42)"));
    assert!(is_potential_math("rusted-light"));
    assert!(!is_potential_math("firefox"));
    assert!(!is_potential_math("calc"));
    assert!(!is_potential_math("42"));
    assert!(!is_potential_math(""));
    assert!(!is_potential_math("   "));
    assert!(!is_potential_math("sqrt 4"));
}

#[test]
fn calc_result_fields() {
    let r = calc_result(" 23*4 ", "92".to_string());
    assert_eq!(r.id, "calc:23*4");
    assert_eq!(r.title, "92");
    assert_eq!(r.subtitle.as_deref(), Some("= 23*4 • Enter to copy"));
    assert_eq!(r.icon.as_deref(), Some("accessories-calculator"));
    assert_eq!(r.score, 1000);
    assert!(matches!(&r.action, SearchAction::CopyToClipboard { text } if text == "92"));
}

#[test]
fn query_word_limit() {
    assert!(query_fits_matcher(""));
    assert!(query_fits_matcher("  fire  fox  "));
    assert!(query_fits_matcher(&"é".repeat(MAX_WORD_CHARS)));
    assert!(!query_fits_matcher(&"a".repeat(MAX_WORD_CHARS + 1)));
    let two_long_words = format!("{} {}", "a".repeat(MAX_WORD_CHARS), "b".repeat(MAX_WORD_CHARS));
    assert!(query_fits_matcher(&two_long_words));
    let joined = format!("{}\\ {}", "a".repeat(1500), "b".repeat(1500));
    assert!(!query_fits_matcher(&joined));
    assert!(query_fits_matcher(&"ab ".repeat(5000)));
}

#[test]
fn long_queries_are_scored() {
    let p = AppsProvider::new(vec![app("Firefox", "firefox")]);
    let q = format!("fire{}", " ".repeat(MAX_WORD_CHARS * 2));
    assert!(p.can_match(&q));
    assert_eq!(p.matches(&q).len(), 1);
    let blank = " ".repeat(5000);
    assert!(p.can_match(&blank));
    assert_eq!(p.matches(&blank).len(), 1);
    assert!(!p.can_match(&"x".repeat(MAX_WORD_CHARS + 1)));
}

#[test]
fn long_words_go_to_locate_while_index_is_empty() {
    let p = FilesProvider::new(None);
    let long = "x".repeat(MAX_WORD_CHARS + 1);
    assert!(p.can_match(&long));
    assert!(matches!(p.matches(&long), FileSearch::Locate(q) if q == long));
    let mut full = FilesProvider::new(None);
    full.finish_indexing(vec![entry("/h/a.txt", false)]);
    assert!(!full.can_match(&long));
    assert!(full.can_match(" a "));
}

#[test]
fn entry_count_never_exceeds_the_cap() {
    let mut entries = Vec::new();
    let mut i = 0;
    while index_entry(&mut entries, entry(&format!("/h/f{}", i), false)) {
        i += 1;
    }
    let mut p = FilesProvider::new(None);
    p.finish_indexing(entries);
    assert_eq!(p.entry_count(), MAX_INDEXED_FILES);
}

#[test]
fn icon_ignores_case_of_extension() {
    for name in ["photo.PNG", "Song.Mp3", "ARCHIVE.ZIP", "Notes.TXT", "MAIN.RS"] {
        assert_eq!(icon_for_filename(name), icon_for_filename(&name.to_lowercase()));
    }
}

#[test]
fn found_entries_skip_home_and_unnamed() {
    assert!(found_entry(Some("/home/u".to_string()), Some("u".to_string()), true, true).is_none());
    assert!(found_entry(Some("/home/u/x".to_string()), None, false, false).is_none());
    assert!(found_entry(None, Some("x".to_string()), false, false).is_none());
    let e = found_entry(Some("/home/u/a.txt".to_string()), Some("a.txt".to_string()), false, false).unwrap();
    assert_eq!(e.path, "/home/u/a.txt");
    assert_eq!(e.file_name, "a.txt");
    assert!(!e.is_dir);
}

#[test]
fn calc_results_one_per_value() {
    let r = calc_results(" 2+2 ", Some("4".to_string()));
    assert_eq!(r.len(), 1);
    assert_eq!(r[0].title, "4");
    assert_eq!(r[0].id, "calc:2+2");
    assert!(calc_results("1/0", None).is_empty());
}

#[test]
fn home_is_needed_for_indexing() {
    let p = FilesProvider::new(None);
    assert!(!p.has_home());
    assert!(!p.is_indexing());
    let mut q = FilesProvider::new(Some("/home/u".to_string()));
    assert!(q.has_home());
    q.start_indexing();
    assert!(q.is_indexing());
}
