use git_pincer_desktop::text::lines_of;

#[test]
fn lines_split_at_every_newline() {
    let lines = lines_of("a\nb\n\nc\n");
    let want: Vec<Vec<char>> = vec![vec!['a'], vec!['b'], vec![], vec!['c'], vec![]];
    assert_eq!(lines, want);
    assert_eq!(lines_of(""), vec![Vec::<char>::new()]);
}

#[test]
fn lines_join_back_into_the_text() {
    for s in ["", "\n", "x", "a\r\nb", "one\ntwo\n", "\n\n中文\n"] {
        let joined: Vec<String> = lines_of(s).into_iter().map(|l| l.into_iter().collect()).collect();
        assert_eq!(joined.join("\n"), s);
    }
}
