use po_catalog::{langs_to_string, parse_po, AutoComments, Error, Po};

fn entry(msgid: &str, msgstr: Vec<(usize, &str)>) -> Po {
    Po {
        translator_comments: String::new(),
        auto_comments: Vec::new(),
        reference: String::new(),
        msgctxt: String::new(),
        msgid: msgid.to_string(),
        msgstr: msgstr.into_iter().map(|(k, v)| (k, v.to_string())).collect(),
    }
}

#[test]
fn comments_reference_and_translation() {
    let text = "#. note\n#: file.c:10\nmsgid \"Hello\"\nmsgstr \"Bonjour\"\n";
    let es = parse_po(text).unwrap();
    assert_eq!(es.len(), 1);
    assert_eq!(es[0].auto_comments, vec![AutoComments::ExtractedComments("note".to_string())]);
    assert_eq!(es[0].reference, "file.c:10");
    assert_eq!(es[0].msgid, "Hello");
    assert_eq!(es[0].msgctxt, "");
    assert_eq!(es[0].translator_comments, "");
    assert_eq!(es[0].msgstr, vec![(0, "Bonjour".to_string())]);
}

#[test]
fn multi_line_msgid() {
    let es = parse_po("msgid \"Hello\"\n\"World\"\nmsgstr \"Bonjour\"\n").unwrap();
    assert_eq!(es.len(), 1);
    assert_eq!(es[0].msgid, "Hello\nWorld");
    assert_eq!(es[0].msgstr, vec![(0, "Bonjour".to_string())]);
}

#[test]
fn missing_bracket_is_an_error() {
    let r = parse_po("msgid \"a\"\nmsgstr[2 \"x\"\n");
    assert_eq!(r, Err(Error::MalformedEntry { line: "msgstr[2 \"x\"".to_string() }));
}

#[test]
fn non_numeric_index_is_an_error() {
    let r = parse_po("msgid \"a\"\nmsgstr[one] \"x\"\n");
    assert_eq!(r, Err(Error::MalformedEntry { line: "msgstr[one] \"x\"".to_string() }));
    let r = parse_po("msgid \"a\"\nmsgstr[] \"x\"\n");
    assert_eq!(r, Err(Error::MalformedEntry { line: "msgstr[] \"x\"".to_string() }));
}

#[test]
fn index_too_large_is_an_error() {
    let r = parse_po("msgid \"a\"\nmsgstr[99999999999999999999999] \"x\"\n");
    assert!(matches!(r, Err(Error::MalformedEntry { .. })));
}

#[test]
fn error_in_a_later_entry_fails_the_read() {
    let text = "#. one\nmsgid \"a\"\nmsgstr \"b\"\n\n#. two\nmsgid \"c\"\nmsgstr[x] \"d\"\n";
    assert_eq!(parse_po(text), Err(Error::MalformedEntry { line: "msgstr[x] \"d\"".to_string() }));
}

#[test]
fn two_entries_split_by_comment_block() {
    let text = "#. first\nmsgid \"a\"\nmsgstr \"b\"\n\n#. second\nmsgid \"c\"\nmsgstr \"d\"\n";
    let es = parse_po(text).unwrap();
    assert_eq!(es.len(), 2);
    assert_eq!(es[0].msgid, "a");
    assert_eq!(es[0].auto_comments, vec![AutoComments::ExtractedComments("first".to_string())]);
    assert_eq!(es[1].msgid, "c");
    assert_eq!(es[1].msgstr, vec![(0, "d".to_string())]);
}

#[test]
fn entries_without_comments_share_a_group() {
    let es = parse_po("msgid \"a\"\nmsgstr \"b\"\n\nmsgid \"c\"\nmsgstr \"d\"\n").unwrap();
    assert_eq!(es.len(), 1);
    assert_eq!(es[0].msgid, "c");
    assert_eq!(es[0].msgstr, vec![(0, "d".to_string())]);
}

#[test]
fn plural_indices_map_to_translations() {
    let es = parse_po("msgid \"m\"\nmsgstr[0] \"a\"\nmsgstr[1] \"b\"\n").unwrap();
    assert_eq!(es[0].msgstr, vec![(0, "a".to_string()), (1, "b".to_string())]);
    let es = parse_po("msgid \"m\"\nmsgstr \"x\"\n").unwrap();
    assert_eq!(es[0].msgstr, vec![(0, "x".to_string())]);
}

#[test]
fn plural_indices_are_kept_in_order_and_last_write_wins() {
    let es = parse_po("msgid \"m\"\nmsgstr[2] \"c\"\nmsgstr[0] \"a\"\nmsgstr[2] \"z\"\n\"y\"\n").unwrap();
    assert_eq!(es[0].msgstr, vec![(0, "a".to_string()), (2, "z\ny".to_string())]);
    let es = parse_po("msgid \"m\"\nmsgstr[+7] \"s\"\n").unwrap();
    assert_eq!(es[0].msgstr, vec![(7, "s".to_string())]);
}

#[test]
fn multi_line_translation_and_context() {
    let text = "msgctxt \"menu\"\nmsgid \"a\"\nmsgstr \"x\"\n\"y\"\n\"\"\n";
    let es = parse_po(text).unwrap();
    assert_eq!(es[0].msgctxt, "menu");
    assert_eq!(es[0].msgstr, vec![(0, "x\ny\n".to_string())]);
}

#[test]
fn all_comment_kinds() {
    let text = "# translator\n#. dev\n#, fuzzy\n#| msgid \"old\"\n#: a.c:1\n#: b.c:2\nmsgid \"a\"\n";
    let es = parse_po(text).unwrap();
    assert_eq!(
        es[0].auto_comments,
        vec![
            AutoComments::ExtractedComments("dev".to_string()),
            AutoComments::Flag("fuzzy".to_string()),
            AutoComments::Other("msgid \"old\"".to_string()),
        ]
    );
    assert_eq!(es[0].reference, "a.c:1 b.c:2");
    assert_eq!(es[0].translator_comments, "");
    assert!(es[0].msgstr.is_empty());
}

#[test]
fn empty_msgid_is_dropped() {
    let text = "msgid \"\"\nmsgstr \"Content-Type: text/plain\"\n\n#. x\nmsgid \"a\"\nmsgstr \"b\"\n";
    let es = parse_po(text).unwrap();
    assert_eq!(es.len(), 1);
    assert_eq!(es[0].msgid, "a");
}

#[test]
fn empty_text_has_no_entries() {
    assert_eq!(parse_po("").unwrap(), Vec::<Po>::new());
    assert_eq!(parse_po("\n\n# only a comment\n").unwrap(), Vec::<Po>::new());
}

#[test]
fn crlf_line_endings() {
    let es = parse_po("#. n\r\nmsgid \"a\"\r\n\r\nmsgstr \"b\"\r\n").unwrap();
    assert_eq!(es.len(), 1);
    assert_eq!(es[0].auto_comments, vec![AutoComments::ExtractedComments("n".to_string())]);
    assert_eq!(es[0].msgid, "a");
    assert_eq!(es[0].msgstr, vec![(0, "b".to_string())]);
}

#[test]
fn quotes_are_taken_out() {
    let es = parse_po("msgid \"say \"hi\"\"\nmsgstr plain\n").unwrap();
    assert_eq!(es[0].msgid, "say hi");
    assert_eq!(es[0].msgstr, vec![(0, "plain".to_string())]);
}

#[test]
fn write_single_entry() {
    let mut e = entry("Hello", vec![(0, "Bonjour")]);
    e.auto_comments.push(AutoComments::ExtractedComments("note".to_string()));
    e.reference = "file.c:10".to_string();
    assert_eq!(
        langs_to_string(&[e]),
        "#. note\n#: file.c:10\nmsgid \"Hello\"\nmsgstr \"Bonjour\"\n\n"
    );
}

#[test]
fn write_all_fields() {
    let mut e = entry("a\nb", vec![(1, "one"), (10, "x\ny")]);
    e.translator_comments = "t".to_string();
    e.auto_comments.push(AutoComments::Flag("fuzzy".to_string()));
    e.auto_comments.push(AutoComments::Other("old".to_string()));
    e.msgctxt = "c".to_string();
    assert_eq!(
        langs_to_string(&[e]),
        "# t\n#, fuzzy\n#| old\nmsgctxt \"c\"\nmsgid \"a\"\n\"b\"\nmsgstr[1] \"one\"\nmsgstr[10] \"x\"\n\"y\"\n\n"
    );
}

#[test]
fn write_single_plural_as_bare_msgstr() {
    let e = entry("a", vec![(3, "x")]);
    assert_eq!(langs_to_string(&[e]), "msgid \"a\"\nmsgstr \"x\"\n\n");
}

#[test]
fn write_nothing() {
    assert_eq!(langs_to_string(&[]), "");
    let e = entry("", vec![]);
    assert_eq!(langs_to_string(&[e]), "\n");
}

#[test]
fn write_then_read_gives_the_entries_back() {
    let text = "#. note\n#: f.c:1 g.c:2\nmsgctxt \"ctx\"\nmsgid \"Hello\"\n\"World\"\nmsgstr[0] \"a\"\nmsgstr[1] \"b\"\n\"c\"\n\n#, fuzzy\nmsgid \"x\"\nmsgstr \"y\"\n";
    let es = parse_po(text).unwrap();
    let out = langs_to_string(&es);
    assert_eq!(out, format!("{}\n", text));
    assert_eq!(parse_po(&out).unwrap(), es);
}

#[test]
fn grouping_is_the_same_on_every_read() {
    let text = "#. a\nmsgid \"x\"\n#. b\n#, fuzzy\nmsgid \"y\"\nmsgstr \"z\"\n#: r\nmsgid \"w\"\n";
    let first = parse_po(text).unwrap();
    let second = parse_po(text).unwrap();
    assert_eq!(first.len(), 3);
    assert_eq!(first, second);
    assert_eq!(first[1].auto_comments.len(), 2);
    assert_eq!(first[2].reference, "r");
}

#[test]
fn quote_free_values_are_kept_and_requoted() {
    let es = parse_po("msgid \"plain text\"\nmsgstr \"texte\"\n").unwrap();
    assert_eq!(es[0].msgid, "plain text");
    assert_eq!(langs_to_string(&es), "msgid \"plain text\"\nmsgstr \"texte\"\n\n");
}

#[test]
fn plurals_are_written_in_index_order() {
    let e = entry("n", vec![(1, "b"), (0, "a")]);
    assert_eq!(
        langs_to_string(&[e]),
        "msgid \"n\"\nmsgstr[0] \"a\"\nmsgstr[1] \"b\"\n\n"
    );
}

#[test]
fn same_plural_map_gives_same_text() {
    let a = entry("n", vec![(0, "a"), (2, "c"), (1, "b")]);
    let b = entry("n", vec![(2, "c"), (1, "b"), (0, "a")]);
    assert_eq!(langs_to_string(&[a]), langs_to_string(&[b]));
}

#[test]
fn repeated_plural_index_is_written_once() {
    let e = entry("n", vec![(0, "a"), (0, "b")]);
    assert_eq!(langs_to_string(&[e]), "msgid \"n\"\nmsgstr \"b\"\n\n");
    let e = entry("n", vec![(1, "x"), (0, "a"), (1, "y")]);
    assert_eq!(
        langs_to_string(&[e]),
        "msgid \"n\"\nmsgstr[0] \"a\"\nmsgstr[1] \"y\"\n\n"
    );
}
