use semcode::email::{
    collect_symbols, extract_symbols_from_email_body, parse_email_from_commit, DiffSymbols,
    EmailHeaders,
};

fn strings(items: &[&str]) -> Vec<String> {
    items.iter().map(|s| s.to_string()).collect()
}

fn found() -> DiffSymbols {
    DiffSymbols {
        modified_functions: strings(&["z.c:f()", "b"]),
        called_functions: strings(&["b", "a"]),
        modified_types: strings(&["struct t"]),
        modified_macros: strings(&["M"]),
    }
}

fn parse(_body: &String) -> Option<DiffSymbols> {
    Some(found())
}

fn parse_fails(_body: &String) -> Option<DiffSymbols> {
    None
}

const MAIL: &str = "From: A <a@x>\nTO: b@x\nSubject: [PATCH] long\n subject\n\tline\nno header here\n continued nothing\nDate: Mon, 1 Jan 2024 00:00:00 +0000\nCc: c@x,\n d@x\nMessage-ID: <1@x>\nsubject: second\n\nbody line\n\n--- a/f.c\nlast";

#[test]
fn mail_is_read() {
    let bytes = MAIL.as_bytes().to_vec();
    let mail = parse_email_from_commit("sha", Some(&bytes), &parse).ok().unwrap();
    assert_eq!(mail.git_commit_sha, "sha");
    assert_eq!(mail.from, "A <a@x>");
    assert_eq!(mail.subject, "second");
    assert_eq!(mail.date, "Mon, 1 Jan 2024 00:00:00 +0000");
    assert_eq!(mail.message_id, "<1@x>");
    assert_eq!(mail.in_reply_to, None);
    assert_eq!(mail.references, None);
    assert_eq!(mail.recipients, "b@x, c@x, d@x");
    assert!(mail.headers.starts_with("From: A <a@x>\nTO: b@x\n"));
    assert!(mail.headers.ends_with("\nsubject: second"));
    assert_eq!(mail.body, "body line\n\n--- a/f.c\nlast");
    assert_eq!(mail.symbols, strings(&["M", "a", "b", "struct t", "z.c:f()"]));
}

#[test]
fn header_lines_are_unfolded() {
    let bytes = b"Subject: one\n two\n\tthree \nReferences: <a>\n <b>\nIn-Reply-To: <c>\n".to_vec();
    let mail = parse_email_from_commit("s", Some(&bytes), &parse_fails).ok().unwrap();
    assert_eq!(mail.subject, "one two three");
    assert_eq!(mail.references.as_deref(), Some("<a> <b>"));
    assert_eq!(mail.in_reply_to.as_deref(), Some("<c>"));
    assert_eq!(mail.body, "");
}

#[test]
fn header_names_ignore_case() {
    let bytes = "FROM : x\nSUBJECT:y".as_bytes().to_vec();
    let mail = parse_email_from_commit("s", Some(&bytes), &parse_fails).ok().unwrap();
    assert_eq!((mail.from.as_str(), mail.subject.as_str()), ("x", "y"));
}

#[test]
fn header_text_beyond_ascii_is_kept() {
    let bytes = "From\u{a0}:\u{a0}\u{c9}TIENNE\u{3000}\n\u{c9}: no field\nSubject: \u{130}"
        .as_bytes()
        .to_vec();
    let mail = parse_email_from_commit("s", Some(&bytes), &parse_fails).ok().unwrap();
    assert_eq!(mail.from, "\u{c9}TIENNE");
    assert_eq!(mail.subject, "\u{130}");
    assert!(mail.headers.contains("\u{c9}: no field"));
}

#[test]
fn commit_without_mail_is_an_error() {
    match parse_email_from_commit("sha", None, &parse) {
        Err(e) => assert_eq!(e.commit_sha, "sha"),
        Ok(_) => panic!("no mail"),
    }
}

#[test]
fn malformed_mail_is_replaced() {
    let bytes = vec![b'F', b'r', b'o', b'm', b':', b' ', 0xff, b'\n', b'\n', 0xfe];
    let mail = parse_email_from_commit("s", Some(&bytes), &parse).ok().unwrap();
    assert_eq!(mail.from, "\u{fffd}");
    assert_eq!(mail.body, "\u{fffd}");
}

#[test]
fn quoted_diff_is_no_diff() {
    let quoted = "> diff --git a/f b/f\n> --- a/f\n".to_string();
    assert!(extract_symbols_from_email_body(&quoted, &parse).is_empty());
    for start in ["diff --git a/f b/f", "--- a/f", "+++ b/f"] {
        let body = format!("text\n{}\n", start);
        assert_eq!(
            extract_symbols_from_email_body(&body, &parse),
            strings(&["M", "a", "b", "struct t", "z.c:f()"])
        );
    }
}

#[test]
fn failing_diff_parser_gives_no_symbols() {
    let body = "--- a/f\n".to_string();
    assert!(extract_symbols_from_email_body(&body, &parse_fails).is_empty());
}

#[test]
fn symbols_are_sorted_once_each() {
    assert_eq!(collect_symbols(found()), strings(&["M", "a", "b", "struct t", "z.c:f()"]));
}

#[test]
fn headers_gather_recipients() {
    let mut h = EmailHeaders::new();
    h.process_header("from", "a");
    h.process_header("from", "b");
    h.process_header("to", "c");
    h.process_header("cc", "d");
    h.process_header("bcc", "e");
    h.process_header("date", "t");
    h.process_header("message-id", "m");
    h.process_header("in-reply-to", "r");
    h.process_header("references", "s");
    h.process_header("subject", "u");
    assert_eq!(h.from, "b");
    assert_eq!(h.recipients_list, strings(&["c", "d"]));
    assert_eq!(h.date, "t");
    assert_eq!(h.message_id, "m");
    assert_eq!(h.in_reply_to.as_deref(), Some("r"));
    assert_eq!(h.references.as_deref(), Some("s"));
    assert_eq!(h.subject, "u");
}

#[test]
fn mail_lines_are_headers_blank_and_body() {
    let bytes = b"A: 1\nB: 2\n\nx\n\ny".to_vec();
    let mail = parse_email_from_commit("s", Some(&bytes), &parse).ok().unwrap();
    assert_eq!(format!("{}\n\n{}", mail.headers, mail.body), "A: 1\nB: 2\n\nx\n\ny");
}
