use mailbox_sync::mail::open_browser_delegate::OpenBrowserDelegate;
use mailbox_sync::display::{
    is_white_space, parse_sender, sender_of, snippet_text, split_sender, trim, Sender,
};
use mailbox_sync::record::{Header, MessageRecord};

fn with_headers(headers: &[(&str, &str)], snippet: &str) -> MessageRecord {
    MessageRecord {
        id: "m".to_string(),
        internal_date: 0,
        snippet: snippet.to_string(),
        headers: headers
            .iter()
            .map(|(n, v)| Header { name: n.to_string(), value: v.to_string() })
            .collect(),
        raw_payload: String::new(),
    }
}

fn sender(name: &str, email: &str) -> Sender {
    Sender { name: name.to_string(), email: email.to_string() }
}

#[test]
fn sender_is_split_at_the_angle_bracket() {
    assert_eq!(parse_sender("Jane Doe <jane@example.com>"), sender("Jane Doe", "jane@example.com"));
}

#[test]
fn sender_name_is_trimmed_and_decoded() {
    assert_eq!(
        parse_sender("  Tom &amp; Jerry \t<tj@example.org>"),
        sender("Tom & Jerry", "tj@example.org")
    );
    assert_eq!(parse_sender("&quot;Ann&quot; <a@b.c>"), sender("\"Ann\"", "a@b.c"));
    assert_eq!(parse_sender("Caf&#233; <c@d.e>"), sender("Caf\u{e9}", "c@d.e"));
}

#[test]
fn sender_without_bracket_is_nobody() {
    assert_eq!(parse_sender("jane@example.com"), sender("", ""));
    assert_eq!(parse_sender(""), sender("", ""));
}

#[test]
fn sender_address_loses_every_closing_bracket_at_its_end() {
    assert_eq!(parse_sender("A <a@b.c>>>"), sender("A", "a@b.c"));
    assert_eq!(parse_sender("A <a@b.c"), sender("A", "a@b.c"));
    assert_eq!(parse_sender("A <>"), sender("A", ""));
    assert_eq!(parse_sender("<"), sender("", ""));
    assert_eq!(parse_sender("A <b> <c>"), sender("A", "b> <c"));
}

#[test]
fn sender_with_characters_beyond_ascii() {
    assert_eq!(
        parse_sender("\u{a0}J\u{fc}rgen M\u{fc}ller\u{2003}<j\u{fc}rgen@example.de>"),
        sender("J\u{fc}rgen M\u{fc}ller", "j\u{fc}rgen@example.de")
    );
}

#[test]
fn sender_comes_from_the_first_from_header() {
    let record = with_headers(
        &[
            ("To", "Me <me@example.com>"),
            ("from", "Lower <lower@example.com>"),
            ("From", "First <first@example.com>"),
            ("From", "Second <second@example.com>"),
        ],
        "",
    );
    assert_eq!(sender_of(&record), sender("First", "first@example.com"));
}

#[test]
fn message_without_from_header_has_no_sender() {
    assert_eq!(sender_of(&with_headers(&[("To", "Me <me@example.com>")], "")), sender("", ""));
    assert_eq!(sender_of(&with_headers(&[], "")), sender("", ""));
}

#[test]
fn snippet_is_decoded() {
    let record = with_headers(&[], "It&#39;s 5 &gt; 3 &amp; 2 &lt; 4");
    assert_eq!(snippet_text(&record), "It's 5 > 3 & 2 < 4");
    assert_eq!(snippet_text(&with_headers(&[], "plain")), "plain");
    assert_eq!(snippet_text(&with_headers(&[], "")), "");
}

#[test]
fn trim_drops_white_space_at_both_ends_only() {
    assert_eq!(trim("  a b  "), "a b");
    assert_eq!(trim("\n\t"), "");
    assert_eq!(trim(""), "");
    assert_eq!(trim("x"), "x");
    assert_eq!(trim("\u{3000}\u{e9}t\u{e9}\u{2028}"), "\u{e9}t\u{e9}");
}

#[test]
fn consent_page_is_opened_as_given() {
    let shown = OpenBrowserDelegate.present_user_url("https://accounts.example.com/o?x=1", true);
    assert_eq!(shown.url, "https://accounts.example.com/o?x=1");
    assert_eq!(shown.code, "");
    let shown = OpenBrowserDelegate.present_user_url("", false);
    assert_eq!(shown.url, "");
    assert_eq!(shown.code, "");
}

#[test]
fn white_space_is_what_the_standard_library_takes_for_it() {
    for n in 0..=0x10FFFFu32 {
        if let Some(c) = char::from_u32(n) {
            assert_eq!(is_white_space(c), c.is_whitespace(), "U+{:04X}", n);
        }
    }
}

#[test]
fn trim_agrees_with_the_standard_library() {
    for text in [
        "",
        " ",
        "a",
        " a",
        "a ",
        "  a  b  ",
        "\t\r\n x \u{b}\u{c}",
        "\u{85}\u{a0}\u{1680}\u{2000}\u{200a}word\u{2028}\u{2029}\u{202f}\u{205f}\u{3000}",
        "\u{200b}kept\u{200b}",
        "\u{180e}kept\u{feff}",
    ] {
        assert_eq!(trim(text), text.trim(), "{:?}", text);
    }
}

#[test]
fn split_gives_both_parts_or_none() {
    assert_eq!(split_sender("Jane Doe <jane@example.com>"), Some(("Jane Doe", "jane@example.com")));
    assert_eq!(split_sender(" A &amp; B <ab@example.com>>"), Some(("A &amp; B", "ab@example.com")));
    assert_eq!(split_sender("<only@example.com>"), Some(("", "only@example.com")));
    assert_eq!(split_sender("a < b < c >"), Some(("a", " b < c ")));
    assert_eq!(split_sender("<"), Some(("", "")));
    assert_eq!(split_sender("<>>>"), Some(("", "")));
    assert_eq!(split_sender("no bracket >"), None);
    assert_eq!(split_sender(""), None);
}

#[test]
fn split_agrees_with_the_standard_library() {
    for value in ["Jane <j@x.y>", "  J  <j@x.y>>", "<", "a<b<c>d>", "\u{e9}\u{3000}<\u{fc}>", "x"] {
        let expected =
            value.split_once('<').map(|(name, email)| (name.trim(), email.trim_end_matches('>')));
        assert_eq!(split_sender(value), expected, "{:?}", value);
    }
}
