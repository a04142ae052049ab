use gist_summary::env_file::{token_from_env_file, updated_env_file};

#[test]
fn load_reads_first_token_line_trimmed() {
    assert_eq!(token_from_env_file("FOO=1\nGITHUB_TOKEN= abc \nGITHUB_TOKEN=x"), "abc");
    assert_eq!(token_from_env_file("FOO=1\nBAR=2\n"), "");
    assert_eq!(token_from_env_file(""), "");
    assert_eq!(token_from_env_file("GITHUB_TOKEN=tok\r\n"), "tok");
    assert_eq!(token_from_env_file(" GITHUB_TOKEN=tok"), "");
}

#[test]
fn save_without_file_writes_one_line() {
    assert_eq!(updated_env_file(None, " tok "), "GITHUB_TOKEN=tok\n");
}

#[test]
fn save_replaces_first_token_line_only() {
    assert_eq!(
        updated_env_file(Some("A=1\nGITHUB_TOKEN=old\nB=2\nGITHUB_TOKEN=older"), "new"),
        "A=1\nGITHUB_TOKEN=new\nB=2\nGITHUB_TOKEN=older\n"
    );
}

#[test]
fn save_appends_when_no_token_line() {
    assert_eq!(updated_env_file(Some("A=1"), "t"), "A=1\nGITHUB_TOKEN=t\n");
    assert_eq!(updated_env_file(Some(""), "t"), "GITHUB_TOKEN=t\n");
    assert_eq!(updated_env_file(Some("A=1\r\nB=2\r\n"), "t"), "A=1\nB=2\nGITHUB_TOKEN=t\n");
}

#[test]
fn load_after_save_gives_trimmed_token() {
    let files = [None, Some(""), Some("A=1\nGITHUB_TOKEN=old\r\n"), Some("x\r\r\ny"), Some("GITHUB_TOKEN")];
    for existing in files {
        for token in ["ghp_abc", "  spaced\t", "", "\u{3000}wide\u{3000}"] {
            let saved = updated_env_file(existing, token);
            assert_eq!(token_from_env_file(&saved), token.trim());
        }
    }
}

#[test]
fn saving_twice_changes_nothing() {
    for existing in [None, Some("A=1\nGITHUB_TOKEN=old\nB=2"), Some("X=y\n\n")] {
        let once = updated_env_file(existing, "  tok  ");
        let twice = updated_env_file(Some(once.as_str()), "  tok  ");
        assert_eq!(once, twice);
    }
    assert_eq!(updated_env_file(Some("A=1\nGITHUB_TOKEN=old\nB=2"), " tok "), "A=1\nGITHUB_TOKEN=tok\nB=2\n");
}
