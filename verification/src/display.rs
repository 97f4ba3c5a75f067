//! What a row of the message list shows of a message: who sent it, and the
//! snippet as plain text.

use vstd::prelude::*;
use vstd::string::StrSliceExecFns;
use crate::record::{header_views, HeaderView, MessageRecord};

verus! {

/// The text that `html_escape::decode_html_entities_to_string` appends to
/// its output for a given text: the text with its HTML character references
/// replaced by the characters they stand for.
pub uninterp spec fn decoded_entities(text: Seq<char>) -> Seq<char>;

/// `html_escape::decode_html_entities_to_string`, called on an empty
/// `String`. The function appends the decoded text to its output and depends
/// on nothing but the text; what it appends is not stated here but named.
#[verifier::external_body]
fn decode_entities(text: &str) -> (decoded: String)
    ensures
        decoded@ == decoded_entities(text@),
{
    let mut decoded = String::new();
    html_escape::decode_html_entities_to_string(text, &mut decoded);
    decoded
}

/// Whether a character is white space as Unicode has it (`White_Space`):
/// the controls from tab to carriage return, the space, the next-line
/// control, the no-break spaces, the spaces of fixed width, the line and
/// paragraph separators, and the ideographic space.
pub open spec fn white_space(c: char) -> bool {
    let n = c as u32;
    ||| 0x09 <= n <= 0x0D
    ||| n == 0x20
    ||| n == 0x85
    ||| n == 0xA0
    ||| n == 0x1680
    ||| 0x2000 <= n <= 0x200A
    ||| n == 0x2028
    ||| n == 0x2029
    ||| n == 0x202F
    ||| n == 0x205F
    ||| n == 0x3000
}

/// The test for white space.
pub open spec fn space() -> spec_fn(char) -> bool {
    |c: char| white_space(c)
}

/// The test for one character.
pub open spec fn just(wanted: char) -> spec_fn(char) -> bool {
    |c: char| c == wanted
}

/// `s` without the characters at its start that `drop` holds of.
pub open spec fn without_leading(s: Seq<char>, drop: spec_fn(char) -> bool) -> Seq<char>
    decreases s.len(),
{
    if s.len() > 0 && drop(s[0]) {
        without_leading(s.skip(1), drop)
    } else {
        s
    }
}

/// `s` without the characters at its end that `drop` holds of.
pub open spec fn without_trailing(s: Seq<char>, drop: spec_fn(char) -> bool) -> Seq<char>
    decreases s.len(),
{
    if s.len() > 0 && drop(s.last()) {
        without_trailing(s.drop_last(), drop)
    } else {
        s
    }
}

/// `s` without the white space at its start and at its end.
pub open spec fn trimmed(s: Seq<char>) -> Seq<char> {
    without_trailing(without_leading(s, space()), space())
}

/// The index of the first `c` in `s`, or the length of `s` where there is
/// none.
pub open spec fn position(s: Seq<char>, c: char) -> int
    decreases s.len(),
{
    if s.len() == 0 || s[0] == c {
        0
    } else {
        1 + position(s.skip(1), c)
    }
}

/// The value of the first header that is named `From`, letter for letter.
pub open spec fn from_header(headers: Seq<HeaderView>) -> Option<Seq<char>>
    decreases headers.len(),
{
    if headers.len() == 0 {
        None
    } else if headers[0].name == "From"@ {
        Some(headers[0].value)
    } else {
        from_header(headers.skip(1))
    }
}

/// Who sent a message.
#[derive(Debug, PartialEq, Eq)]
pub struct Sender {
    pub name: String,
    pub email: String,
}

/// What a [`Sender`] stands for in contracts.
pub struct SenderView {
    pub name: Seq<char>,
    pub email: Seq<char>,
}

impl View for Sender {
    type V = SenderView;

    open spec fn view(&self) -> SenderView {
        SenderView { name: self.name@, email: self.email@ }
    }
}

/// The two parts of the value of a `From` header. The value is split at its
/// first `<`: the name is what stands before it, trimmed; the address is
/// what stands behind it, without the `>` at its end. A value without `<`
/// has no parts.
pub open spec fn sender_parts(value: Seq<char>) -> Option<(Seq<char>, Seq<char>)> {
    let at = position(value, '<');
    if at < value.len() {
        Some((trimmed(value.take(at)), without_trailing(value.skip(at + 1), just('>'))))
    } else {
        None
    }
}

/// The sender that the value of a `From` header names: its two parts, the
/// name with its character references decoded. A value without parts names
/// nobody.
pub open spec fn sender_in(value: Seq<char>) -> SenderView {
    match sender_parts(value) {
        Some((name, email)) => SenderView { name: decoded_entities(name), email },
        None => SenderView { name: decoded_entities(Seq::empty()), email: Seq::empty() },
    }
}

/// The views of the two parts, where there are any.
pub open spec fn parts_view(parts: Option<(&str, &str)>) -> Option<(Seq<char>, Seq<char>)> {
    match parts {
        Some((name, email)) => Some((name@, email@)),
        None => None,
    }
}

/// The sender of a message with the given headers: the one its first `From`
/// header names, and nobody where it has no such header.
pub open spec fn sender_among(headers: Seq<HeaderView>) -> SenderView {
    match from_header(headers) {
        Some(value) => sender_in(value),
        None => SenderView { name: Seq::empty(), email: Seq::empty() },
    }
}

/// An index up to which `drop` holds, and at which it does not, is where
/// `without_leading` cuts.
pub proof fn lemma_leading(s: Seq<char>, drop: spec_fn(char) -> bool, start: int)
    requires
        0 <= start <= s.len(),
        forall|k: int| 0 <= k < start ==> drop(s[k]),
        start < s.len() ==> !drop(s[start]),
    ensures
        without_leading(s, drop) == s.skip(start),
    decreases start,
{
    if start > 0 {
        lemma_leading(s.skip(1), drop, start - 1);
    }
}

/// An index from which on `drop` holds, and before which it does not, is
/// where `without_trailing` cuts.
pub proof fn lemma_trailing(s: Seq<char>, drop: spec_fn(char) -> bool, end: int)
    requires
        0 <= end <= s.len(),
        forall|k: int| end <= k < s.len() ==> drop(s[k]),
        end > 0 ==> !drop(s[end - 1]),
    ensures
        without_trailing(s, drop) == s.take(end),
    decreases s.len() - end,
{
    if end < s.len() {
        lemma_trailing(s.drop_last(), drop, end);
    }
}

/// An index before which there is no `c`, and at which there is one, is the
/// position of `c`.
pub proof fn lemma_position(s: Seq<char>, c: char, at: int)
    requires
        0 <= at <= s.len(),
        forall|k: int| 0 <= k < at ==> s[k] != c,
        at < s.len() ==> s[at] == c,
    ensures
        position(s, c) == at,
    decreases at,
{
    if at > 0 {
        lemma_position(s.skip(1), c, at - 1);
    }
}

/// Whether the character is white space.
pub fn is_white_space(c: char) -> (space: bool)
    ensures
        space == white_space(c),
{
    let n = c as u32;
    (0x09 <= n && n <= 0x0D) || n == 0x20 || n == 0x85 || n == 0xA0 || n == 0x1680 || (0x2000 <= n
        && n <= 0x200A) || n == 0x2028 || n == 0x2029 || n == 0x202F || n == 0x205F || n == 0x3000
}

/// The text without the white space at its start and at its end.
pub fn trim(text: &str) -> (out: &str)
    ensures
        out@ == trimmed(text@),
{
    let len = text.unicode_len();
    let mut start: usize = 0;
    while start < len && is_white_space(text.get_char(start))
        invariant
            start <= len == text@.len(),
            forall|k: int| 0 <= k < start ==> white_space(text@[k]),
        decreases len - start,
    {
        start += 1;
    }
    let mut end: usize = len;
    while end > start && is_white_space(text.get_char(end - 1))
        invariant
            start <= end <= len == text@.len(),
            forall|k: int| end <= k < len ==> white_space(text@[k]),
        decreases end,
    {
        end -= 1;
    }
    proof {
        let cut = text@.skip(start as int);
        lemma_leading(text@, space(), start as int);
        lemma_trailing(cut, space(), end - start);
    }
    text.substring_char(start, end)
}

/// Splits the value of a `From` header into the name and the address, and
/// gives `None` exactly where the value holds no `<`.
pub fn split_sender<'a>(value: &'a str) -> (parts: Option<(&'a str, &'a str)>)
    ensures
        parts_view(parts) == sender_parts(value@),
        parts is None <==> !value@.contains('<'),
{
    let len = value.unicode_len();
    let mut at: usize = 0;
    while at < len && value.get_char(at) != '<'
        invariant
            at <= len == value@.len(),
            forall|k: int| 0 <= k < at ==> value@[k] != '<',
        decreases len - at,
    {
        at += 1;
    }
    proof {
        lemma_position(value@, '<', at as int);
    }
    if at < len {
        let mut end: usize = len;
        while end > at + 1 && value.get_char(end - 1) == '>'
            invariant
                at + 1 <= end <= len == value@.len(),
                forall|k: int| end <= k < len ==> value@[k] == '>',
            decreases end,
        {
            end -= 1;
        }
        proof {
            let rest = value@.skip(at + 1);
            lemma_trailing(rest, just('>'), end - at - 1);
        }
        let name = trim(value.substring_char(0, at));
        let email = value.substring_char(at + 1, end);
        Some((name, email))
    } else {
        None
    }
}

/// The sender that the value of a `From` header names.
pub fn parse_sender(value: &str) -> (sender: Sender)
    ensures
        sender@ == sender_in(value@),
{
    match split_sender(value) {
        Some((name, email)) => Sender { name: decode_entities(name), email: email.to_owned() },
        None => {
            let nothing = String::new();
            Sender { name: decode_entities(nothing.as_str()), email: nothing }
        },
    }
}

/// Whether a header name is `From`, letter for letter.
fn is_from(name: &str) -> (yes: bool)
    ensures
        yes == (name@ == "From"@),
{
    proof {
        reveal_strlit("From");
    }
    if name.unicode_len() != 4 {
        return false;
    }
    let yes = name.get_char(0) == 'F' && name.get_char(1) == 'r' && name.get_char(2) == 'o'
        && name.get_char(3) == 'm';
    proof {
        if yes {
            assert(name@ =~= "From"@);
        }
    }
    yes
}

/// Who sent the message: the sender that its first `From` header names.
pub fn sender_of(record: &MessageRecord) -> (sender: Sender)
    ensures
        sender@ == sender_among(record@.headers),
{
    let ghost all = header_views(record.headers@);
    let mut i: usize = 0;
    proof {
        assert(all.skip(0) =~= all);
    }
    while i < record.headers.len()
        invariant
            i <= record.headers.len(),
            all == header_views(record.headers@),
            from_header(all) == from_header(all.skip(i as int)),
        decreases record.headers.len() - i,
    {
        proof {
            assert(all.skip(i as int).skip(1) =~= all.skip(i + 1));
        }
        if is_from(record.headers[i].name.as_str()) {
            return parse_sender(record.headers[i].value.as_str());
        }
        i += 1;
    }
    Sender { name: String::new(), email: String::new() }
}

/// The snippet of the message as plain text: its character references
/// decoded.
pub fn snippet_text(record: &MessageRecord) -> (text: String)
    ensures
        text@ == decoded_entities(record@.snippet),
{
    decode_entities(record.snippet.as_str())
}

} // verus!
