use rusted_light::desktop_entry::{
    clean_exec, collect_applications, filter_apps, launch_command, parse_desktop_file, xdg_app_dirs,
    AppEntry,
};

fn app(name: &str, exec_line: &str) -> AppEntry {
    AppEntry { name: name.to_string(), exec_line: exec_line.to_string(), icon: None }
}

#[test]
fn clean_exec_drops_field_codes() {
    assert_eq!(clean_exec("firefox %u"), "firefox");
    assert_eq!(clean_exec("  env  FOO=1\tapp %F --flag  "), "env FOO=1 app --flag");
    assert_eq!(clean_exec("%U"), "");
    assert_eq!(clean_exec(""), "");
    assert_eq!(clean_exec("gimp-2.10 %U 100%"), "gimp-2.10 100%");
}

#[test]
fn clean_exec_twice_is_clean_exec_once() {
    for s in ["a %u b", "  x\u{a0}y  %f", "", "%%"] {
        let once = clean_exec(s);
        assert_eq!(clean_exec(&once), once);
    }
}

#[test]
fn launch_command_of_empty_exec_is_none() {
    assert_eq!(launch_command("%u %F"), None);
    assert_eq!(launch_command("code --new-window %F"), Some("code --new-window".to_string()));
}

#[test]
fn parses_a_desktop_file() {
    let text = "[Desktop Entry]\nName=Firefox\nExec=firefox %u\nIcon=firefox\nType=Application\n";
    let e = parse_desktop_file(text).unwrap();
    assert_eq!(e.name, "Firefox");
    assert_eq!(e.exec_line, "firefox %u");
    assert_eq!(e.icon.as_deref(), Some("firefox"));
}

#[test]
fn parse_trims_and_skips_comments() {
    let text = "# comment\r\n[Desktop Entry]\r\n  Name = My App  \r\n#Exec=wrong\r\nExec= run=1 \r\n\r\n";
    let e = parse_desktop_file(text).unwrap();
    assert_eq!(e.name, "My App");
    assert_eq!(e.exec_line, "run=1");
    assert_eq!(e.icon, None);
}

#[test]
fn parse_ignores_other_sections() {
    let text = "[Desktop Entry]\nName=Main\nExec=main\n[Desktop Action new]\nName=Other\nExec=other\n";
    let e = parse_desktop_file(text).unwrap();
    assert_eq!(e.name, "Main");
    assert_eq!(e.exec_line, "main");
    let before = "Name=Outside\n[Desktop Entry]\nExec=x\n";
    assert!(parse_desktop_file(before).is_none());
}

#[test]
fn parse_rejects_hidden_and_non_applications() {
    assert!(parse_desktop_file("[Desktop Entry]\nName=A\nExec=a\nNoDisplay=TRUE\n").is_none());
    assert!(parse_desktop_file("[Desktop Entry]\nName=A\nExec=a\nHidden=true\n").is_none());
    assert!(parse_desktop_file("[Desktop Entry]\nName=A\nExec=a\nType=Link\n").is_none());
    assert!(parse_desktop_file("[Desktop Entry]\nName=A\n").is_none());
    assert!(parse_desktop_file("").is_none());
    assert!(parse_desktop_file("[Desktop Entry]\nName=A\nExec=a\nNoDisplay=false\n").is_some());
}

#[test]
fn later_keys_override_earlier_ones() {
    let e = parse_desktop_file("[Desktop Entry]\nName=A\nExec=a\nName=B\n").unwrap();
    assert_eq!(e.name, "B");
}

#[test]
fn xdg_dirs_in_order() {
    let dirs = xdg_app_dirs(
        Some("/home/u/.local/share".to_string()),
        Some("/opt/share:/usr/share/".to_string()),
        Some("/home/u".to_string()),
    );
    assert_eq!(
        dirs,
        vec![
            "/home/u/.local/share/applications",
            "/opt/share/applications",
            "/usr/share/applications",
            "/var/lib/flatpak/exports/share/applications",
            "/home/u/.local/share/flatpak/exports/share/applications",
        ]
    );
}

#[test]
fn xdg_dirs_default_data_dirs() {
    let dirs = xdg_app_dirs(None, None, None);
    assert_eq!(
        dirs,
        vec![
            "/usr/local/share/applications",
            "/usr/share/applications",
            "/var/lib/flatpak/exports/share/applications",
        ]
    );
    let empty = xdg_app_dirs(None, Some(String::new()), None);
    assert_eq!(empty, vec!["applications", "/var/lib/flatpak/exports/share/applications"]);
}

#[test]
fn collect_dedups_and_sorts_case_insensitively() {
    let found = vec![app("zeta", "z"), app("Alpha", "a1"), app("beta", "b"), app("Alpha", "a2"), app("alpha", "a3")];
    let list = collect_applications(found);
    let names: Vec<(&str, &str)> = list.iter().map(|a| (a.name.as_str(), a.exec_line.as_str())).collect();
    assert_eq!(names, vec![("Alpha", "a1"), ("alpha", "a3"), ("beta", "b"), ("zeta", "z")]);
}

#[test]
fn filter_puts_prefix_matches_first() {
    let apps = vec![app("Terminal", "t"), app("Firefox", "f"), app("GNOME Terminal", "g"), app("Files", "x")];
    let hits: Vec<&str> = filter_apps(&apps, "TER").iter().map(|a| a.name.as_str()).collect();
    assert_eq!(hits, vec!["Terminal", "GNOME Terminal"]);
    let hits: Vec<&str> = filter_apps(&apps, "fi").iter().map(|a| a.name.as_str()).collect();
    assert_eq!(hits, vec!["Firefox", "Files"]);
    assert_eq!(filter_apps(&apps, "").len(), 4);
    assert!(filter_apps(&apps, "zzz").is_empty());
}
