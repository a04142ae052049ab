use gist_summary::cache::{clean_summary, content_key, quick_prompt, summary_prompt, ContentCache};
use gist_summary::github::{Content, FileName, GistFile, GistsInformation, Url};

fn file(name: &str, content: &str) -> (FileName, GistFile) {
    let f = GistFile { filename: FileName(name.to_string()), raw_url: Url("r".to_string()), content: Content(content.to_string()) };
    (FileName(name.to_string()), f)
}

#[test]
fn key_joins_with_nul() {
    assert_eq!(content_key("https://gist.github.com/1", "a.rs"), "https://gist.github.com/1\0a.rs");
}

#[test]
fn reload_then_summarise() {
    let gists = vec![
        GistsInformation { html_url: "g1".to_string(), files: vec![file("a.rs", "AAA"), file("b.md", "BBB")] },
        GistsInformation { html_url: "g2".to_string(), files: vec![file("a.rs", "CCC")] },
    ];
    let mut cache = ContentCache::new();
    cache.insert("stale".to_string(), "old".to_string());
    let rows = cache.reload(&gists);
    let rows: Vec<(String, String)> = rows.into_iter().map(|r| (r.filename, r.gist_url)).collect();
    assert_eq!(
        rows,
        vec![
            ("a.rs".to_string(), "g1".to_string()),
            ("b.md".to_string(), "g1".to_string()),
            ("a.rs".to_string(), "g2".to_string()),
        ]
    );
    assert_eq!(cache.get(&"stale".to_string()), None);
    assert_eq!(cache.get(&content_key("g2", "a.rs")), Some("CCC".to_string()));
    assert_eq!(cache.summary_prompt("g1", "b.md"), Ok(summary_prompt("b.md", "BBB")));
    assert_eq!(cache.summary_prompt("g2", "b.md"), Err("no cached content for b.md".to_string()));
}

#[test]
fn later_insert_replaces() {
    let mut cache = ContentCache::new();
    cache.insert("k".to_string(), "1".to_string());
    cache.insert("k".to_string(), "2".to_string());
    assert_eq!(cache.get(&"k".to_string()), Some("2".to_string()));
    cache.clear();
    assert_eq!(cache.get(&"k".to_string()), None);
}

#[test]
fn prompts() {
    assert_eq!(
        summary_prompt("main.rs", "fn main() {}"),
        "Below is the content of a file called 'main.rs'.\n\n<file>\nfn main() {}\n</file>\n\nWrite exactly ONE short sentence summarising what this file does. Do not repeat the code. Do not use more than 30 words."
    );
    assert_eq!(
        quick_prompt("a.py", "x = 1"),
        "Summarise the following file ('a.py') in one sentence:\n\nx = 1"
    );
    assert_eq!(clean_summary("\n  It prints.  \n"), "It prints.");
}

#[test]
fn rows_with_content() {
    let gists = vec![
        GistsInformation { html_url: "g1".to_string(), files: vec![file("a.rs", "AAA")] },
        GistsInformation { html_url: "g2".to_string(), files: vec![file("b.rs", "BBB"), file("c.rs", "CCC")] },
    ];
    let rows: Vec<(String, String, String)> = gist_summary::cache::content_rows(&gists)
        .into_iter()
        .map(|r| (r.filename, r.gist_url, r.content))
        .collect();
    assert_eq!(
        rows,
        vec![
            ("a.rs".to_string(), "g1".to_string(), "AAA".to_string()),
            ("b.rs".to_string(), "g2".to_string(), "BBB".to_string()),
            ("c.rs".to_string(), "g2".to_string(), "CCC".to_string()),
        ]
    );
}

#[test]
fn every_listed_row_can_be_summarised() {
    let gists = vec![
        GistsInformation { html_url: "g1".to_string(), files: vec![file("a.rs", "AAA"), file("b.md", "BBB")] },
        GistsInformation { html_url: "g2".to_string(), files: vec![file("a.rs", "CCC")] },
    ];
    let mut cache = ContentCache::new();
    let rows = cache.reload(&gists);
    for row in rows {
        assert!(cache.summary_prompt(&row.gist_url, &row.filename).is_ok());
    }
    assert_eq!(cache.summary_prompt("g1", "a.rs"), Ok(summary_prompt("a.rs", "AAA")));
}
