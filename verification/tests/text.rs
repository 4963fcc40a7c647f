use photo_map::text::{fill_template, join_lines, lines, split_fields, split_live_page};

#[test]
fn split_fields_like_str_split() {
    assert_eq!(split_fields("14/1 5/1 3021/100", ' '), vec!["14/1", "5/1", "3021/100"]);
    assert_eq!(split_fields("", ' '), vec![""]);
    assert_eq!(split_fields("a  b ", ' '), vec!["a", "", "b", ""]);
    assert_eq!(split_fields("héllo wörld", ' '), vec!["héllo", "wörld"]);
}

#[test]
fn lines_like_str_lines() {
    assert_eq!(lines("a.jpg\nb.jpg\n"), vec!["a.jpg", "b.jpg"]);
    assert_eq!(lines("a.jpg\r\nb.jpg"), vec!["a.jpg", "b.jpg"]);
    assert_eq!(lines(""), Vec::<String>::new());
    assert_eq!(lines("\n"), vec![""]);
    assert_eq!(lines("a\n\nb"), vec!["a", "", "b"]);
    assert_eq!(lines("a\r"), vec!["a\r"]);
    for t in ["x\ny", "x\r\ny\r\n", "\n\nz\r"] {
        assert_eq!(lines(t), t.lines().collect::<Vec<_>>());
    }
}

#[test]
fn final_newline_is_optional() {
    assert_eq!(lines("one\ntwo"), lines("one\ntwo\n"));
}

#[test]
fn fill_template_replaces_placeholders() {
    let entries = vec![("summary".to_string(), "[1,2]".to_string())];
    assert_eq!(
        fill_template("var s = {{summary}}; {{summary}} {{other}}".to_string(), &entries),
        "var s = [1,2]; [1,2] {{other}}"
    );
    assert_eq!(fill_template("plain".to_string(), &vec![]), "plain");
}

#[test]
fn fill_template_goes_entry_by_entry() {
    let entries = vec![
        ("a".to_string(), "{{b}}".to_string()),
        ("b".to_string(), "B".to_string()),
    ];
    assert_eq!(fill_template("{{a}}".to_string(), &entries), "B");
}

#[test]
fn join_lines_ends_each_piece_with_newline() {
    assert_eq!(join_lines(&vec!["a".to_string(), "b".to_string()]), "a\nb\n");
    assert_eq!(join_lines(&vec![]), "");
}

#[test]
fn joined_names_read_back() {
    let names = vec!["a.jpg".to_string(), "b c.jpg".to_string(), "".to_string()];
    assert_eq!(lines(&join_lines(&names)), names);
    assert_eq!(lines(&(names.join("\n") + "\n")), names);
}

#[test]
fn live_page_splits_at_placeholder() {
    assert_eq!(
        split_live_page("<p>{{points}}</p>"),
        Some(("<p>".to_string(), "</p>".to_string()))
    );
    assert_eq!(
        split_live_page("a{{points}}b{{points}}c"),
        Some(("a".to_string(), "b".to_string()))
    );
    assert_eq!(split_live_page("{{points}}"), Some((String::new(), String::new())));
    assert_eq!(split_live_page("{{point}}"), None);
    assert_eq!(split_live_page(""), None);
}
