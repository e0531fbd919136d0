//! Where a page of a query ended, as text that callers hand back.

use vstd::prelude::*;
use vstd::string::*;
use vstd::utf8::{decode_utf8, encode_utf8_decode_utf8, encode_utf8_valid_utf8, valid_utf8};

use crate::json::{
    all_shallow, is_flat, is_part, json_members, json_object, json_quoted, json_value, json_view, member_text, members,
    members_view, names_differ, object, quoted, same_members, value, Json, JsonView, Shape, ShapeView,
};
use crate::text::{from_utf8, lemma_ascii_text, lemma_utf8_injective, own, text_of_bytes, utf8};

verus! {

/// Longest cursor that is looked at.
pub const MAX_CURSOR_LEN: usize = 4096;

// ---------------------------------------------------------------------
// Bytes as text
// ---------------------------------------------------------------------

/// The letter for six bits.
pub open spec fn letter(d: int) -> u8 {
    if d < 26 {
        (0x41 + d) as u8
    } else if d < 52 {
        (0x61 + d - 26) as u8
    } else if d < 62 {
        (0x30 + d - 52) as u8
    } else if d == 62 {
        0x2du8
    } else {
        0x5fu8
    }
}

/// The six bits that a letter stands for.
pub open spec fn letter_value(c: u8) -> Option<int> {
    if 0x41 <= c <= 0x5a {
        Some(c - 0x41)
    } else if 0x61 <= c <= 0x7a {
        Some(c - 0x61 + 26)
    } else if 0x30 <= c <= 0x39 {
        Some(c - 0x30 + 52)
    } else if c == 0x2d {
        Some(62int)
    } else if c == 0x5f {
        Some(63int)
    } else {
        None
    }
}

/// Bytes as letters, six bits each, without padding.
pub open spec fn letters_of(s: Seq<u8>) -> Seq<u8>
    decreases s.len(),
{
    if s.len() == 0 {
        Seq::empty()
    } else if s.len() == 1 {
        seq![letter((s[0] / 4) as int), letter((s[0] % 4) * 16)]
    } else if s.len() == 2 {
        seq![letter((s[0] / 4) as int), letter((s[0] % 4) * 16 + s[1] / 16), letter((s[1] % 16) * 4)]
    } else {
        seq![
            letter((s[0] / 4) as int),
            letter((s[0] % 4) * 16 + s[1] / 16),
            letter((s[1] % 16) * 4 + s[2] / 64),
            letter((s[2] % 64) as int),
        ] + letters_of(s.skip(3))
    }
}

/// The bytes that letters stand for, if they are letters and their number
/// is one that bytes can have.
pub open spec fn bytes_in(t: Seq<u8>) -> Option<Seq<u8>>
    decreases t.len(),
{
    if t.len() == 0 {
        Some(Seq::empty())
    } else if t.len() == 1 {
        None
    } else {
        match (letter_value(t[0]), letter_value(t[1])) {
            (Some(a), Some(b)) => {
                let first = (a * 4 + b / 16) as u8;
                if t.len() == 2 {
                    Some(seq![first])
                } else {
                    match letter_value(t[2]) {
                        Some(c) => {
                            let second = ((b % 16) * 16 + c / 4) as u8;
                            if t.len() == 3 {
                                Some(seq![first, second])
                            } else {
                                match (letter_value(t[3]), bytes_in(t.skip(4))) {
                                    (Some(d), Some(rest)) => Some(
                                        seq![first, second, ((c % 4) * 64 + d) as u8] + rest,
                                    ),
                                    _ => None,
                                }
                            }
                        },
                        None => None,
                    }
                }
            },
            _ => None,
        }
    }
}

proof fn lemma_letter(d: int)
    requires
        0 <= d < 64,
    ensures
        letter_value(letter(d)) == Some(d),
        letter(d) < 0x80,
{
}

/// Bytes that are written as letters and read again are the same.
pub proof fn law_base64url_round_trip(s: Seq<u8>)
    ensures
        bytes_in(letters_of(s)) == Some(s),
        forall|i: int| 0 <= i < letters_of(s).len() ==> (#[trigger] letters_of(s)[i]) < 0x80,
    decreases s.len(),
{
    let t = letters_of(s);
    if s.len() == 0 {
        assert(bytes_in(t)->0 =~= s);
    } else if s.len() == 1 {
        lemma_letter((s[0] / 4) as int);
        lemma_letter((s[0] % 4) * 16);
        assert(bytes_in(t)->0 =~= s);
    } else if s.len() == 2 {
        lemma_letter((s[0] / 4) as int);
        lemma_letter((s[0] % 4) * 16 + s[1] / 16);
        lemma_letter((s[1] % 16) * 4);
        assert(bytes_in(t)->0 =~= s);
    } else {
        lemma_letter((s[0] / 4) as int);
        lemma_letter((s[0] % 4) * 16 + s[1] / 16);
        lemma_letter((s[1] % 16) * 4 + s[2] / 64);
        lemma_letter((s[2] % 64) as int);
        law_base64url_round_trip(s.skip(3));
        assert(t.skip(4) =~= letters_of(s.skip(3)));
        assert(t[0] == letter((s[0] / 4) as int));
        assert(t[1] == letter((s[0] % 4) * 16 + s[1] / 16));
        assert(t[2] == letter((s[1] % 16) * 4 + s[2] / 64));
        assert(t[3] == letter((s[2] % 64) as int));
        assert(bytes_in(t)->0 =~= s);
        assert forall|i: int| 0 <= i < t.len() implies (#[trigger] t[i]) < 0x80 by {
            if i >= 4 {
                assert(t[i] == letters_of(s.skip(3))[i - 4]);
            }
        }
    }
}

fn to_letter(d: u8) -> (r: u8)
    requires
        d < 64,
    ensures
        r == letter(d as int),
{
    if d < 26 {
        0x41 + d
    } else if d < 52 {
        0x61 + (d - 26)
    } else if d < 62 {
        0x30 + (d - 52)
    } else if d == 62 {
        0x2d
    } else {
        0x5f
    }
}

fn from_letter(c: u8) -> (r: Option<u8>)
    ensures
        match r {
            Some(d) => letter_value(c) == Some(d as int) && d < 64,
            None => letter_value(c) is None,
        },
{
    if 0x41 <= c && c <= 0x5a {
        Some(c - 0x41)
    } else if 0x61 <= c && c <= 0x7a {
        Some(c - 0x61 + 26)
    } else if 0x30 <= c && c <= 0x39 {
        Some(c - 0x30 + 52)
    } else if c == 0x2d {
        Some(62)
    } else if c == 0x5f {
        Some(63)
    } else {
        None
    }
}

/// Writes bytes as letters.
pub fn base64url_encode(input: &[u8]) -> (r: String)
    ensures
        utf8(r@) == letters_of(input@),
{
    assert(input@.len() == input.len());
    let mut out: Vec<u8> = Vec::new();
    let mut i: usize = 0;
    proof {
        assert(input@.skip(0) =~= input@);
        assert(out@ + letters_of(input@) =~= letters_of(input@));
    }
    while input.len() - i >= 3
        invariant
            i <= input@.len(),
            input@.len() == input.len(),
            out@ + letters_of(input@.skip(i as int)) == letters_of(input@),
        decreases input.len() - i,
    {
        let a: u8 = input[i];
        let b: u8 = input[i + 1];
        let c: u8 = input[i + 2];
        let ghost before = out@;
        out.push(to_letter(a / 4));
        out.push(to_letter((a % 4) * 16 + b / 16));
        out.push(to_letter((b % 16) * 4 + c / 64));
        out.push(to_letter(c % 64));
        proof {
            let s = input@.skip(i as int);
            assert(s.skip(3) =~= input@.skip(i + 3));
            assert(s[0] == a && s[1] == b && s[2] == c);
            assert(out@ + letters_of(input@.skip(i + 3)) =~= before + letters_of(s));
        }
        i = i + 3;
    }
    let ghost before = out@;
    let ghost s = input@.skip(i as int);
    if input.len() - i == 1 {
        let a: u8 = input[i];
        out.push(to_letter(a / 4));
        out.push(to_letter((a % 4) * 16));
    } else if input.len() - i == 2 {
        let a: u8 = input[i];
        let b: u8 = input[i + 1];
        out.push(to_letter(a / 4));
        out.push(to_letter((a % 4) * 16 + b / 16));
        out.push(to_letter((b % 16) * 4));
    }
    proof {
        assert(out@ =~= before + letters_of(s));
        law_base64url_round_trip(input@);
        lemma_ascii_text(out@);
    }
    text_of_bytes(&out)
}

/// Reads letters as bytes; fails on anything else, and on a single letter
/// left over.
pub fn base64url_decode(input: &str) -> (r: Result<Vec<u8>, ()>)
    ensures
        match r {
            Ok(bytes) => bytes_in(utf8(input@)) == Some(bytes@),
            Err(_) => bytes_in(utf8(input@)) is None,
        },
{
    let t = input.as_bytes();
    assert(t@.len() == t.len());
    let ghost view = utf8(input@);
    let mut out: Vec<u8> = Vec::new();
    let mut i: usize = 0;
    proof {
        assert(view.skip(0) =~= view);
        assert(joined(out@, bytes_in(view.skip(0))) == bytes_in(view)) by {
            if bytes_in(view) is Some {
                assert(out@ + bytes_in(view)->0 =~= bytes_in(view)->0);
            }
        }
    }
    while i < t.len()
        invariant
            t@ == view,
            t@.len() == t.len(),
            view == utf8(input@),
            i <= t@.len(),
            joined(out@, bytes_in(view.skip(i as int))) == bytes_in(view),
        decreases t.len() - i,
    {
        let ghost s = view.skip(i as int);
        let ghost before = out@;
        let left: usize = t.len() - i;
        if left < 2 {
            return Err(());
        }
        let (a, b): (u8, u8) = match (from_letter(t[i]), from_letter(t[i + 1])) {
            (Some(a), Some(b)) => (a, b),
            _ => {
                return Err(());
            },
        };
        out.push(a * 4 + b / 16);
        if left == 2 {
            proof {
                assert(before + seq![(a * 4 + b / 16) as u8] =~= out@);
            }
            return Ok(out);
        }
        let c: u8 = match from_letter(t[i + 2]) {
            Some(c) => c,
            None => {
                return Err(());
            },
        };
        out.push((b % 16) * 16 + c / 4);
        if left == 3 {
            proof {
                assert(before + seq![(a * 4 + b / 16) as u8, ((b % 16) * 16 + c / 4) as u8] =~= out@);
            }
            return Ok(out);
        }
        let d: u8 = match from_letter(t[i + 3]) {
            Some(d) => d,
            None => {
                return Err(());
            },
        };
        out.push((c % 4) * 64 + d);
        proof {
            assert(s.skip(4) =~= view.skip(i + 4));
            if bytes_in(s.skip(4)) is Some {
                let rest = bytes_in(s.skip(4))->0;
                let head = seq![
                    (a * 4 + b / 16) as u8,
                    ((b % 16) * 16 + c / 4) as u8,
                    ((c % 4) * 64 + d) as u8,
                ];
                assert(before + (head + rest) =~= out@ + rest);
            }
        }
        i = i + 4;
    }
    proof {
        assert(view.skip(i as int) =~= Seq::<u8>::empty());
        assert(out@ + Seq::<u8>::empty() =~= out@);
    }
    Ok(out)
}

spec fn joined(head: Seq<u8>, rest: Option<Seq<u8>>) -> Option<Seq<u8>> {
    match rest {
        Some(r) => Some(head + r),
        None => None,
    }
}

// ---------------------------------------------------------------------
// Cursors
// ---------------------------------------------------------------------

/// The last row of a page: its order value, where the query has an order
/// field and the row that field, and its address.
pub struct Cursor {
    pub o: Option<Json>,
    pub a: String,
}

pub struct CursorView {
    pub o: Option<JsonView>,
    pub a: Seq<char>,
}

impl View for Cursor {
    type V = CursorView;

    open spec fn view(&self) -> CursorView {
        CursorView { o: json_view(self.o), a: self.a@ }
    }
}

/// Why a text is no cursor.
#[derive(Clone, Copy, PartialEq, Eq, Debug, Structural)]
pub enum CursorError {
    TooLong { len: usize },
    /// The text is not base64url.
    Letters,
    /// The bytes are no cursor.
    Payload,
}

/// The cursor that the text of an object is read as. A value that is there
/// and null is not the same as none.
pub open spec fn cursor_in(text: Seq<char>) -> Option<CursorView> {
    match json_members(text) {
        None => None,
        Some(m) => match member_text(m, "a"@) {
            None => None,
            Some(ta) => match json_value(ta) {
                Some(JsonView { text: _, shape: ShapeView::Text(a) }) => match member_text(m, "o"@) {
                    None => Some(CursorView { o: None, a }),
                    Some(to) => match json_value(to) {
                        Some(o) => Some(CursorView { o: Some(o), a }),
                        None => None,
                    },
                },
                _ => None,
            },
        },
    }
}

/// The cursor that a text is read as.
pub open spec fn cursor_of(s: Seq<char>) -> Result<CursorView, CursorError> {
    if utf8(s).len() > MAX_CURSOR_LEN {
        Err(CursorError::TooLong { len: utf8(s).len() as usize })
    } else {
        match bytes_in(utf8(s)) {
            None => Err(CursorError::Letters),
            Some(bytes) => if valid_utf8(bytes) {
                match cursor_in(decode_utf8(bytes)) {
                    Some(c) => Ok(c),
                    None => Err(CursorError::Payload),
                }
            } else {
                Err(CursorError::Payload)
            },
        }
    }
}

/// The members of the object that a cursor is written as.
pub open spec fn cursor_members(c: CursorView) -> Seq<(Seq<char>, Seq<char>)> {
    match c.o {
        Some(o) => seq![("a"@, json_quoted(c.a)), ("o"@, o.text)],
        None => seq![("a"@, json_quoted(c.a))],
    }
}

/// A cursor as letters.
pub open spec fn cursor_text(c: CursorView) -> Seq<u8> {
    match json_object(cursor_members(c)) {
        Some(text) => letters_of(utf8(text)),
        None => Seq::empty(),
    }
}

/// The cursor's order value, if it has one, is that of a member in an object
/// that is read, or flat.
pub open spec fn is_sound(c: CursorView) -> bool {
    c.o matches Some(o) ==> json_value(o.text) == Some(o) && (is_flat(o.text) || is_part(o.text))
}

/// The text is that of the cursor, and is read as it if it is short enough to
/// be looked at.
pub open spec fn points_at(next: Seq<char>, c: CursorView) -> bool {
    &&& utf8(next) == cursor_text(c)
    &&& next.len() > 0
    &&& utf8(next).len() <= MAX_CURSOR_LEN ==> cursor_of(next) == Ok::<CursorView, CursorError>(c)
}

/// The letters of a text are a text, which is empty only if the first is.
proof fn lemma_some_letters(text: Seq<char>, r: Seq<char>)
    requires
        text.len() > 0,
        utf8(r) == letters_of(utf8(text)),
    ensures
        r.len() > 0,
{
    encode_utf8_decode_utf8(text);
    if r.len() == 0 {
        assert(r =~= Seq::<char>::empty());
        assert(utf8(r).len() == 0);
        if utf8(text).len() == 0 {
            assert(utf8(text) =~= utf8(r));
            lemma_utf8_injective(text, r);
        }
    }
}

impl Cursor {
    /// The cursor as text. If the text is short enough to be looked at, it is
    /// read as the same cursor.
    pub fn encode(&self) -> (r: String)
        ensures
            utf8(r@) == cursor_text(self@),
            is_sound(self@) ==> points_at(r@, self@),
    {
        let mut list: Vec<(String, String)> = Vec::new();
        let a = quoted(&self.a);
        list.push((own("a"), a.text));
        match &self.o {
            Some(o) => {
                list.push((own("o"), o.text.clone()));
            },
            None => {},
        }
        let ghost m = cursor_members(self@);
        proof {
            reveal_strlit("a");
            reveal_strlit("o");
            assert(members_view(list@) =~= m);
            assert("a"@ != "o"@) by {
                assert("a"@[0] != "o"@[0]);
            }
            assert(names_differ(m));
            assert(is_flat(json_quoted(self@.a)));
            assert(is_sound(self@) ==> all_shallow(m));
            reveal_with_fuel(crate::json::member_index, 3);
            assert(member_text(m, "a"@) == Some(json_quoted(self@.a)));
            if self@.o is Some {
                assert(m.drop_first()[0] == ("o"@, self@.o->0.text));
                assert(member_text(m, "o"@) == Some(self@.o->0.text));
            } else {
                assert(m.drop_first() =~= Seq::<(Seq<char>, Seq<char>)>::empty());
                assert(member_text(m, "o"@) is None);
            }
        }
        match object(&list) {
            Some(text) => {
                let r = base64url_encode(text.as_str().as_bytes());
                proof {
                    law_base64url_round_trip(utf8(text@));
                    lemma_some_letters(text@, r@);
                    encode_utf8_valid_utf8(text@);
                    encode_utf8_decode_utf8(text@);
                    if json_members(text@) is Some {
                        let n = json_members(text@)->0;
                        assert(same_members(n, m));
                        assert(member_text(n, "a"@) is Some);
                        assert(json_value(member_text(n, "a"@)->0) == json_value(json_quoted(self@.a)));
                        if self@.o is Some {
                            assert(json_value(member_text(n, "o"@)->0) == json_value(self@.o->0.text));
                        } else {
                            assert(member_text(n, "o"@) is None);
                        }
                    }
                }
                r
            },
            None => {
                let empty: Vec<u8> = Vec::new();
                base64url_encode(&empty)
            },
        }
    }

    /// The cursor that a text is read as.
    pub fn decode(s: &str) -> (r: Result<Cursor, CursorError>)
        ensures
            match r {
                Ok(c) => cursor_of(s@) == Ok::<CursorView, CursorError>(c@),
                Err(e) => cursor_of(s@) == Err::<CursorView, CursorError>(e),
            },
    {
        let len: usize = s.as_bytes().len();
        if len > MAX_CURSOR_LEN {
            return Err(CursorError::TooLong { len });
        }
        let bytes = match base64url_decode(s) {
            Ok(bytes) => bytes,
            Err(_) => { return Err(CursorError::Letters) },
        };
        let text = match from_utf8(&bytes) {
            Some(text) => text,
            None => { return Err(CursorError::Payload) },
        };
        let list = match members(text) {
            Some(list) => list,
            None => { return Err(CursorError::Payload) },
        };
        let a = match crate::json::member(&list, "a") {
            Some(raw) => match value(&raw) {
                Some(Json { text: _, shape: Shape::Text(a) }) => a,
                _ => { return Err(CursorError::Payload) },
            },
            None => { return Err(CursorError::Payload) },
        };
        match crate::json::member(&list, "o") {
            None => Ok(Cursor { o: None, a }),
            Some(raw) => match value(&raw) {
                Some(o) => Ok(Cursor { o: Some(o), a }),
                None => Err(CursorError::Payload),
            },
        }
    }
}

} // verus!
