use gist_summary::github::{
    api_failure_message, apply_downloads, download_tasks, files_progress_start, gists_url,
    resolve_token, resolve_token_verbatim, user_url, Content, Downloaded, FileName, Gist,
    GistFile, GistPaging, GistsInformation, LoadProgress, Phase, Url,
};

fn file(name: &str, url: &str) -> GistFile {
    GistFile { filename: FileName(name.to_string()), raw_url: Url(url.to_string()), content: Content::default() }
}

fn entry(name: &str, url: &str) -> (FileName, GistFile) {
    (FileName(name.to_string()), file(name, url))
}

fn two_gists() -> Vec<GistsInformation> {
    vec![
        GistsInformation { html_url: "g1".to_string(), files: vec![entry("a.rs", "u/a"), entry("b.md", "u/b")] },
        GistsInformation { html_url: "g2".to_string(), files: vec![] },
        GistsInformation { html_url: "g3".to_string(), files: vec![entry("c.py", "u/c")] },
    ]
}

#[test]
fn token_resolution() {
    assert_eq!(resolve_token("  t ", Some("env".to_string())), Some("t".to_string()));
    assert_eq!(resolve_token("   ", Some("env".to_string())), Some("env".to_string()));
    assert_eq!(resolve_token("", None), None);
    assert_eq!(resolve_token_verbatim(" ".to_string(), Some("env".to_string())), Some(" ".to_string()));
    assert_eq!(resolve_token_verbatim(String::new(), Some("env".to_string())), Some("env".to_string()));
}

#[test]
fn github_addresses() {
    assert_eq!(user_url("octo"), "https://api.github.com/users/octo");
    assert_eq!(gists_url("octo"), "https://api.github.com/users/octo/gists");
    assert_eq!(
        api_failure_message("404 Not Found", "{}"),
        "GitHub API request failed with status 404 Not Found: {}"
    );
}

#[test]
fn paging_stops_at_first_short_page() {
    let (mut paging, p0) = GistPaging::start(250);
    assert_eq!(p0, LoadProgress { phase: Phase::Gists, done: 0, total: 250 });
    assert_eq!(paging.page_url("octo"), "https://api.github.com/users/octo/gists?per_page=100&page=1");
    assert_eq!(paging.record_page(100), LoadProgress { phase: Phase::Gists, done: 100, total: 250 });
    assert!(!paging.done);
    assert_eq!(paging.page_url("octo"), "https://api.github.com/users/octo/gists?per_page=100&page=2");
    paging.record_page(100);
    assert_eq!(paging.page, 3);
    assert_eq!(paging.record_page(50), LoadProgress { phase: Phase::Gists, done: 250, total: 250 });
    assert!(paging.done);
    assert_eq!(paging.page, 3);
    assert_eq!(paging.fetched, 250);
}

#[test]
fn paging_progress_totals() {
    let (mut paging, p0) = GistPaging::start(0);
    assert_eq!(p0.total, 1);
    assert_eq!(paging.record_page(0), LoadProgress { phase: Phase::Gists, done: 0, total: 0 });
    let (mut more, _) = GistPaging::start(100);
    assert_eq!(more.record_page(100).total, 100);
    assert_eq!(more.record_page(20), LoadProgress { phase: Phase::Gists, done: 120, total: 120 });
    assert_eq!(Phase::Gists.name(), "gists");
    assert_eq!(Phase::Files.name(), "files");
    assert_eq!(files_progress_start(3), LoadProgress { phase: Phase::Files, done: 0, total: 3 });
}

#[test]
fn tasks_name_every_file() {
    let gists = two_gists();
    let tasks = download_tasks(&gists);
    let seen: Vec<(usize, String, String)> =
        tasks.into_iter().map(|t| (t.gist_index, t.filename, t.url)).collect();
    assert_eq!(
        seen,
        vec![
            (0, "a.rs".to_string(), "u/a".to_string()),
            (0, "b.md".to_string(), "u/b".to_string()),
            (2, "c.py".to_string(), "u/c".to_string()),
        ]
    );
}

#[test]
fn downloads_fill_contents_in_any_order() {
    let mut gists = two_gists();
    let downloads = vec![
        Downloaded { gist_index: 2, filename: "c.py".to_string(), text: "print(1)".to_string() },
        Downloaded { gist_index: 0, filename: "b.md".to_string(), text: "# B".to_string() },
        Downloaded { gist_index: 0, filename: "a.rs".to_string(), text: "fn main() {}".to_string() },
        Downloaded { gist_index: 0, filename: "zz".to_string(), text: "lost".to_string() },
    ];
    apply_downloads(&mut gists, &downloads);
    assert_eq!(gists[0].files[0].1.content.0, "fn main() {}");
    assert_eq!(gists[0].files[1].1.content.0, "# B");
    assert_eq!(gists[2].files[0].1.content.0, "print(1)");
    assert_eq!(gists[0].files[0].1.filename.0, "a.rs");
    assert_eq!(gists[2].files[0].1.raw_url.0, "u/c");
    assert_eq!(gists[1].files.len(), 0);
}

#[test]
fn later_download_of_same_file_wins() {
    let mut gists = two_gists();
    let downloads = vec![
        Downloaded { gist_index: 0, filename: "a.rs".to_string(), text: "first".to_string() },
        Downloaded { gist_index: 0, filename: "a.rs".to_string(), text: "second".to_string() },
    ];
    apply_downloads(&mut gists, &downloads);
    assert_eq!(gists[0].files[0].1.content.0, "second");
    assert_eq!(gists[0].files[1].1.content.0, "");
}

#[test]
fn printed_lines() {
    let mut g = Gist { id: "42".to_string(), html_url: "h".to_string(), description: None, files: vec![file("a", "u")] };
    assert_eq!(g.heading(), "Gist 42: (no description)");
    g.description = Some("notes".to_string());
    assert_eq!(g.heading(), "Gist 42: notes");
    g.files[0].content = Content("body".to_string());
    assert_eq!(g.files[0].listing(), "a: body");
}

#[test]
fn download_order_does_not_matter() {
    let make = |order: &[usize]| {
        let all = [
            (0usize, "a.rs", "A"),
            (0, "b.md", "B"),
            (2, "c.py", "C"),
        ];
        let downloads: Vec<Downloaded> = order
            .iter()
            .map(|&i| Downloaded { gist_index: all[i].0, filename: all[i].1.to_string(), text: all[i].2.to_string() })
            .collect();
        let mut gists = two_gists();
        apply_downloads(&mut gists, &downloads);
        gists
            .iter()
            .map(|g| g.files.iter().map(|f| f.1.content.0.clone()).collect::<Vec<_>>())
            .collect::<Vec<_>>()
    };
    let first = make(&[0, 1, 2]);
    assert_eq!(first, make(&[2, 0, 1]));
    assert_eq!(first, make(&[1, 2, 0]));
    assert_eq!(first, vec![vec!["A".to_string(), "B".to_string()], vec![], vec!["C".to_string()]]);
}

#[test]
fn downloads_keep_file_names_distinct() {
    let mut gists = two_gists();
    let downloads = vec![
        Downloaded { gist_index: 0, filename: "b.md".to_string(), text: "# b".to_string() },
        Downloaded { gist_index: 2, filename: "c.py".to_string(), text: "print()".to_string() },
        Downloaded { gist_index: 0, filename: "a.rs".to_string(), text: "fn a() {}".to_string() },
    ];
    apply_downloads(&mut gists, &downloads);
    let names: Vec<&FileName> = gists[0].files.iter().map(|f| &f.1.filename).collect();
    assert_eq!(names, vec![&FileName("a.rs".to_string()), &FileName("b.md".to_string())]);
    assert_ne!(gists[0].files[0].1.filename, gists[0].files[1].1.filename);
    assert_eq!(gists[0].files[1].1.content.0, "# b");
    assert_eq!(gists[2].files[0].1.filename, FileName("c.py".to_string()));
}

#[test]
fn download_goes_to_the_file_under_its_key() {
    let renamed = GistFile { filename: FileName("shown.rs".to_string()), raw_url: Url("u/s".to_string()), content: Content::default() };
    let mut gists = vec![GistsInformation {
        html_url: "g".to_string(),
        files: vec![(FileName("key.rs".to_string()), renamed), entry("shown.rs", "u/t")],
    }];
    let tasks = download_tasks(&gists);
    assert_eq!(tasks[0].filename, "shown.rs");
    let downloads = vec![Downloaded { gist_index: 0, filename: "shown.rs".to_string(), text: "T".to_string() }];
    apply_downloads(&mut gists, &downloads);
    assert_eq!(gists[0].files[0].1.content.0, "");
    assert_eq!(gists[0].files[1].1.content.0, "T");
    assert_eq!(gists[0].files[0].0, FileName("key.rs".to_string()));
}
