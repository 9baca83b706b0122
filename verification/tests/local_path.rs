use herdr::local_path::{path_at_column, path_from_file_uri, path_match_at_column};
use unicode_width::UnicodeWidthStr;

fn at(line: &str, needle: &str) -> Option<String> {
    let index = line.find(needle).expect("test needle exists");
    path_at_column(line, line[..index].width() as u16)
}

#[test]
fn decodes_local_file_uri_paths_without_losing_filename_punctuation() {
    for (uri, expected) in [
        ("file:///home/me/my%20file.rs#L12", "/home/me/my file.rs"),
        ("file://localhost/tmp/%E6%96%87%E4%BB%B6", "/tmp/文件"),
        ("FILE://LOCALHOST/tmp/a%23b%3Fc%25d?ignored", "/tmp/a#b?c%d"),
        ("file:///tmp/a+b", "/tmp/a+b"),
        ("file:///", "/"),
        ("file:///C:/My%20Files/a.txt", "C:/My Files/a.txt"),
    ] {
        assert_eq!(path_from_file_uri(uri).as_deref(), Some(expected), "{uri}");
    }
}

#[test]
fn rejects_remote_and_malformed_file_uris() {
    for uri in [
        "https:///tmp/a",
        "file://server/tmp/a",
        "file://user@localhost/tmp/a",
        "file://localhost:22/tmp/a",
        "file:///tmp/%",
        "file:///tmp/%0",
        "file:///tmp/%GG",
        "file:///tmp/%ff",
        "file:///tmp/%00",
        "file:///tmp/a\0",
        "file:relative",
        "file:////server/share",
        "file:///%2Fserver/share",
        "file:///%5Cserver/share",
    ] {
        assert_eq!(path_from_file_uri(uri), None, "{uri:?}");
    }
}

#[test]
fn recognizes_local_forms_and_source_locations() {
    for (text, expected) in [
        ("./src/main.rs:12:3", "./src/main.rs"),
        ("../src/main.rs:12", "../src/main.rs"),
        ("/home/user/code/", "/home/user/code/"),
        ("~/project/file", "~/project/file"),
        ("src/main.rs,", "src/main.rs"),
        (r"C:\Users\me\file.rs:12:3", r"C:\Users\me\file.rs"),
        ("C:/Users/me/file.rs", "C:/Users/me/file.rs"),
    ] {
        assert_eq!(path_at_column(text, 2).as_deref(), Some(expected), "{text}");
    }
}

#[test]
fn path_spans_exclude_prose_quotes_and_trailing_punctuation() {
    for (line, needle, expected_span, expected_path) in [
        (
            "• 文件：/home/herdr-usage/README.md,",
            "README",
            "/home/herdr-usage/README.md",
            "/home/herdr-usage/README.md",
        ),
        (
            "源文件：./中文目录/说明.md:12:3.",
            "说明",
            "./中文目录/说明.md:12:3",
            "./中文目录/说明.md",
        ),
        (
            "查看 `./my project/文件.rs:42`",
            "project",
            "./my project/文件.rs:42",
            "./my project/文件.rs",
        ),
        (
            "[源文件](./src/main.rs:20)",
            "源文件",
            "[源文件](./src/main.rs:20)",
            "./src/main.rs",
        ),
        (
            "[源文件](./src/main.rs:20)",
            "main",
            "[源文件](./src/main.rs:20)",
            "./src/main.rs",
        ),
    ] {
        let column = line[..line.find(needle).expect("needle exists")].width() as u16;
        let matched = path_match_at_column(line, column).expect("path matched");
        assert_eq!(&line[matched.byte_range], expected_span, "{line}");
        assert_eq!(matched.path, expected_path, "{line}");
    }
    let line = "文件：./目录/文件.md,";
    for needle in ["文件：", "：", ","] {
        let column = line[..line.find(needle).expect("needle exists")].width() as u16;
        assert_eq!(path_match_at_column(line, column), None);
    }
}

#[test]
fn matches_the_clicked_token_only() {
    let line = "Read ./one.txt and ../two.txt.";
    assert_eq!(at(line, "one").as_deref(), Some("./one.txt"));
    assert_eq!(at(line, "two").as_deref(), Some("../two.txt"));
    assert_eq!(at(line, "and"), None);
    assert_eq!(path_at_column(line, 4), None);
    assert_eq!(path_at_column(line, 200), None);
}

#[test]
fn separates_chinese_prose_labels_from_clicked_paths() {
    for (line, label, path) in [
        (
            "• 文件：/home/herdr-usage/README.md",
            "文件",
            "/home/herdr-usage/README.md",
        ),
        ("  目录：/home/herdr-usage", "目录", "/home/herdr-usage"),
        ("文件：./中文目录/说明.md", "文件", "./中文目录/说明.md"),
        (
            r"文件：C:\Users\中文目录\说明.md:12:3",
            "文件",
            r"C:\Users\中文目录\说明.md",
        ),
    ] {
        assert_eq!(at(line, label), None, "{line}");
        assert_eq!(at(line, "："), None, "{line}");
        assert_eq!(at(line, path).as_deref(), Some(path), "{line}");
    }
    for punctuation in ['，', '；', '。', '！', '？', '、', '（', '【'] {
        let line = format!("请查看{punctuation}./中文目录/说明.md");
        assert_eq!(at(&line, "查看"), None);
        assert_eq!(at(&line, "说明").as_deref(), Some("./中文目录/说明.md"));
    }
}

#[test]
fn chinese_prose_delimiters_inside_quotes_remain_filename_characters() {
    let path = "./中文目录/文件：甲，乙；丙。md";
    for quote in ['`', '\'', '"'] {
        let line = format!("文件：{quote}{path}{quote}");
        assert_eq!(at(&line, "甲").as_deref(), Some(path));
    }
    assert_eq!(
        at(&format!("[文件]({path})"), "文件").as_deref(),
        Some(path)
    );
}

#[test]
fn uses_display_columns_for_chinese_and_combining_marks() {
    let line = "查看 e\u{301} ./目录/文件.rs";
    assert_eq!(at(line, "文件").as_deref(), Some("./目录/文件.rs"));
    let column = line[..line.find('文').expect("character exists")].width() as u16;
    assert_eq!(
        path_at_column(line, column + 1).as_deref(),
        Some("./目录/文件.rs")
    );
}

#[test]
fn quoted_paths_preserve_spaces() {
    for quote in ['`', '\'', '"'] {
        let line = format!("open {quote}./my project/文件.rs:42{quote} now");
        assert_eq!(
            at(&line, "project").as_deref(),
            Some("./my project/文件.rs")
        );
    }
    assert_eq!(
        at(r#"open "C:\My Files\a.txt""#, "Files").as_deref(),
        Some(r"C:\My Files\a.txt")
    );
}

#[test]
fn preserves_quoted_and_markdown_filename_punctuation() {
    assert_eq!(
        at("`./directory/file.`", "file").as_deref(),
        Some("./directory/file.")
    );
    assert_eq!(
        at("[file](./directory/file!)", "file").as_deref(),
        Some("./directory/file!")
    );
    assert_eq!(
        at("Here's ./directory/file.", "directory").as_deref(),
        Some("./directory/file")
    );
}

#[test]
fn markdown_links_match_label_and_destination() {
    let line = "See [源文件](./src/main.rs:20) please";
    assert_eq!(at(line, "源").as_deref(), Some("./src/main.rs"));
    assert_eq!(at(line, "main").as_deref(), Some("./src/main.rs"));
    assert_eq!(
        at("[open](<./my project/file>)", "open").as_deref(),
        Some("./my project/file")
    );
}

#[test]
fn rejects_urls_and_ordinary_words() {
    for line in [
        "https://example.org/file",
        "http://localhost/a",
        "file:///tmp/a",
        "//example.org/path",
        "word",
        "main.rs",
        "12:34",
    ] {
        assert_eq!(path_at_column(line, 2), None, "{line}");
    }
    assert_eq!(at("[web](https://example.org/a)", "web"), None);
}

#[test]
fn columns_past_the_line_match_nothing() {
    assert_eq!(path_at_column("/tmp/a", 5), Some("/tmp/a".to_string()));
    assert_eq!(path_at_column("/tmp/a", 6), None);
    assert_eq!(path_at_column("/tmp/中", 6), Some("/tmp/中".to_string()));
    assert_eq!(path_at_column("/tmp/中", 7), None);
}

#[test]
fn queries_and_fragments_leave_file_uri_paths_unchanged() {
    let base = "file:///tmp/a%23b";
    assert_eq!(path_from_file_uri(base), Some("/tmp/a#b".to_string()));
    assert_eq!(path_from_file_uri("file:///tmp/a%23b?x=1&y=%00"), Some("/tmp/a#b".to_string()));
    assert_eq!(path_from_file_uri("file:///tmp/a%23b#L3?q"), Some("/tmp/a#b".to_string()));
    assert_eq!(path_from_file_uri("FILE://LocalHost/tmp/a"), Some("/tmp/a".to_string()));
    assert_eq!(path_from_file_uri("file:/tmp/a"), None);
    assert_eq!(path_from_file_uri("file://host/tmp/a"), None);
}

#[test]
fn trailing_prose_punctuation_changes_no_match() {
    let line = "src/main.rs:12";
    for p in ['.', ',', ';', '!', '?', ':'] {
        let longer = format!("{line}{p}");
        for col in 0..line.len() as u16 {
            assert_eq!(path_match_at_column(&longer, col), path_match_at_column(line, col));
        }
    }
    assert_eq!(path_at_column("src/main.rs:12.", 3), Some("src/main.rs".to_string()));
}

#[test]
fn fully_percent_encoded_paths_round_trip() {
    let path = "/tmp/中 a#b?.txt";
    let encode = |upper: bool| -> String {
        path.as_bytes()[1..]
            .iter()
            .map(|b| if upper { format!("%{b:02X}") } else { format!("%{b:02x}") })
            .collect()
    };
    for upper in [true, false] {
        for authority in ["", "localhost", "LocalHost"] {
            let uri = format!("file://{authority}/{}", encode(upper));
            assert_eq!(path_from_file_uri(&uri), Some(path.to_string()));
        }
    }
}
