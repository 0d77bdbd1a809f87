//! What the two filters share as plugins: the status codes that they answer
//! and the framing of their textual parameters.
//!
//! Parameters come as the bytes of a C string, or as no string at all. They
//! must be UTF-8; once trimmed of white space they are either empty, and the
//! filter takes its defaults, or a JSON object to be read into its
//! configuration.

use vstd::prelude::*;
use vstd::string::*;
use vstd::utf8::{decode_utf8, valid_utf8};

verus! {

/// The filter ran.
pub const STATUS_OK: i32 = 0;

/// There was no pixel buffer.
pub const STATUS_NULL_BUFFER: i32 = -1;

/// The parameters could not be read.
pub const STATUS_BAD_PARAMS: i32 = -2;

/// The filter could not run on this image.
pub const STATUS_FAILED: i32 = -999;

/// What the parameter text asks for.
#[derive(Clone, Debug, PartialEq, Eq)]
pub enum ParamsText {
    /// No parameters: every field takes its default.
    Defaults,
    /// A JSON text, trimmed of surrounding white space.
    Json(String),
}

/// Why parameters could not be read.
#[derive(Clone, Copy, Debug, PartialEq, Eq)]
pub enum ParamsError {
    /// The bytes are not UTF-8.
    InvalidUtf8,
}

/// Characters with the Unicode property `White_Space`.
pub open spec fn is_white_space(c: char) -> bool {
    let u = c as u32;
    ||| 0x09 <= u <= 0x0d
    ||| u == 0x20
    ||| u == 0x85
    ||| u == 0xa0
    ||| u == 0x1680
    ||| 0x2000 <= u <= 0x200a
    ||| u == 0x2028
    ||| u == 0x2029
    ||| u == 0x202f
    ||| u == 0x205f
    ||| u == 0x3000
}

/// `s` without its leading white space.
pub open spec fn trim_start(s: Seq<char>) -> Seq<char>
    decreases s.len(),
{
    if s.len() > 0 && is_white_space(s[0]) {
        trim_start(s.drop_first())
    } else {
        s
    }
}

/// `s` without its trailing white space.
pub open spec fn trim_end(s: Seq<char>) -> Seq<char>
    decreases s.len(),
{
    if s.len() > 0 && is_white_space(s.last()) {
        trim_end(s.drop_last())
    } else {
        s
    }
}

/// `s` without its leading and trailing white space.
pub open spec fn trimmed(s: Seq<char>) -> Seq<char> {
    trim_end(trim_start(s))
}

/// `std::str::from_utf8`: the text that `bytes` encode, where they are
/// UTF-8 (std: "Converts a slice of bytes to a string slice", failing when
/// the slice is not UTF-8), as its characters.
#[verifier::external_body]
fn utf8_text(bytes: &[u8]) -> (res: Option<&str>)
    ensures
        res is Some <==> valid_utf8(bytes@),
        res matches Some(s) ==> s@ == decode_utf8(bytes@),
{
    std::str::from_utf8(bytes).ok()
}

/// `str::trim`: `s` with leading and trailing white space removed, white
/// space being the characters of the Unicode property `White_Space`.
#[verifier::external_body]
fn trim_text(s: &str) -> (res: &str)
    ensures
        res@ == trimmed(s@),
{
    s.trim()
}

/// Frames the parameter bytes: no bytes, or bytes that are white space only,
/// ask for the defaults; other UTF-8 is handed on as JSON text without its
/// surrounding white space; bytes that are not UTF-8 are refused. ASCII
/// bytes are framed byte by byte, each byte one character of the text.
pub fn prepare_params(raw: Option<&[u8]>) -> (res: Result<ParamsText, ParamsError>)
    ensures
        (match raw {
            None => res == Ok::<ParamsText, ParamsError>(ParamsText::Defaults),
            Some(b) => if !valid_utf8(b@) {
                res == Err::<ParamsText, ParamsError>(ParamsError::InvalidUtf8)
            } else if trimmed(decode_utf8(b@)).len() == 0 {
                res == Ok::<ParamsText, ParamsError>(ParamsText::Defaults)
            } else {
                res matches Ok(ParamsText::Json(t)) && t@ == trimmed(decode_utf8(b@))
            },
        }),
        (match raw {
            None => true,
            Some(b) => all_ascii(b@) ==> match res {
                Ok(ParamsText::Defaults) => forall|k: int|
                    0 <= k < b@.len() ==> is_ascii_white_space(#[trigger] b@[k]),
                Ok(ParamsText::Json(t)) => exists|i: int, j: int|
                    #![trigger b@[i], b@[j - 1]]
                    0 <= i < j <= b@.len() && ascii_trimmed_span(b@, i, j) && t@ == ascii_chars(
                        b@,
                        i,
                        j,
                    ),
                Err(_) => false,
            },
        }),
{
    match raw {
        None => Ok(ParamsText::Defaults),
        Some(bytes) => {
            if bytes_are_ascii(bytes) {
                let res = prepare_ascii_params(bytes);
                let ghost framed = res;
                proof {
                    match framed {
                        Ok(ParamsText::Defaults) => {
                            lemma_ascii_blank_text(bytes@);
                        },
                        Ok(ParamsText::Json(t)) => {
                            let (i, j) = choose|i: int, j: int|
                                #![trigger bytes@[i], bytes@[j - 1]]
                                0 <= i < j <= bytes@.len() && ascii_trimmed_span(bytes@, i, j)
                                    && t@ == ascii_chars(bytes@, i, j);
                            lemma_ascii_trimmed_text(bytes@, i, j);
                        },
                        Err(_) => {},
                    }
                }
                return res;
            }
            match utf8_text(bytes) {
                None => Err(ParamsError::InvalidUtf8),
                Some(text) => {
                    let t = trim_text(text);
                    if t.is_empty() {
                        Ok(ParamsText::Defaults)
                    } else {
                        Ok(ParamsText::Json(t.to_owned()))
                    }
                },
            }
        },
    }
}


/// The one-character text of ASCII byte `b`.
fn ascii_char_text(b: u8) -> (s: &'static str)
    requires
        b < 128,
    ensures
        s@ == seq![b as char],
{
    let table = "\u{0}\u{1}\u{2}\u{3}\u{4}\u{5}\u{6}\u{7}\u{8}\u{9}\u{a}\u{b}\u{c}\u{d}\u{e}\u{f}\u{10}\u{11}\u{12}\u{13}\u{14}\u{15}\u{16}\u{17}\u{18}\u{19}\u{1a}\u{1b}\u{1c}\u{1d}\u{1e}\u{1f}\u{20}\u{21}\u{22}\u{23}\u{24}\u{25}\u{26}\u{27}\u{28}\u{29}\u{2a}\u{2b}\u{2c}\u{2d}\u{2e}\u{2f}\u{30}\u{31}\u{32}\u{33}\u{34}\u{35}\u{36}\u{37}\u{38}\u{39}\u{3a}\u{3b}\u{3c}\u{3d}\u{3e}\u{3f}\u{40}\u{41}\u{42}\u{43}\u{44}\u{45}\u{46}\u{47}\u{48}\u{49}\u{4a}\u{4b}\u{4c}\u{4d}\u{4e}\u{4f}\u{50}\u{51}\u{52}\u{53}\u{54}\u{55}\u{56}\u{57}\u{58}\u{59}\u{5a}\u{5b}\u{5c}\u{5d}\u{5e}\u{5f}\u{60}\u{61}\u{62}\u{63}\u{64}\u{65}\u{66}\u{67}\u{68}\u{69}\u{6a}\u{6b}\u{6c}\u{6d}\u{6e}\u{6f}\u{70}\u{71}\u{72}\u{73}\u{74}\u{75}\u{76}\u{77}\u{78}\u{79}\u{7a}\u{7b}\u{7c}\u{7d}\u{7e}\u{7f}";
    proof {
        reveal_strlit("\u{0}\u{1}\u{2}\u{3}\u{4}\u{5}\u{6}\u{7}\u{8}\u{9}\u{a}\u{b}\u{c}\u{d}\u{e}\u{f}\u{10}\u{11}\u{12}\u{13}\u{14}\u{15}\u{16}\u{17}\u{18}\u{19}\u{1a}\u{1b}\u{1c}\u{1d}\u{1e}\u{1f}\u{20}\u{21}\u{22}\u{23}\u{24}\u{25}\u{26}\u{27}\u{28}\u{29}\u{2a}\u{2b}\u{2c}\u{2d}\u{2e}\u{2f}\u{30}\u{31}\u{32}\u{33}\u{34}\u{35}\u{36}\u{37}\u{38}\u{39}\u{3a}\u{3b}\u{3c}\u{3d}\u{3e}\u{3f}\u{40}\u{41}\u{42}\u{43}\u{44}\u{45}\u{46}\u{47}\u{48}\u{49}\u{4a}\u{4b}\u{4c}\u{4d}\u{4e}\u{4f}\u{50}\u{51}\u{52}\u{53}\u{54}\u{55}\u{56}\u{57}\u{58}\u{59}\u{5a}\u{5b}\u{5c}\u{5d}\u{5e}\u{5f}\u{60}\u{61}\u{62}\u{63}\u{64}\u{65}\u{66}\u{67}\u{68}\u{69}\u{6a}\u{6b}\u{6c}\u{6d}\u{6e}\u{6f}\u{70}\u{71}\u{72}\u{73}\u{74}\u{75}\u{76}\u{77}\u{78}\u{79}\u{7a}\u{7b}\u{7c}\u{7d}\u{7e}\u{7f}");
        assert(table@.len() == 128);
        assert(forall|i: int| 0 <= i < 128 ==> #[trigger] table@[i] as u32 == i);
        assert(is_ascii(table));
    }
    table.substring_ascii(b as usize, b as usize + 1)
}


/// Every byte of `b` is ASCII.
pub open spec fn all_ascii(b: Seq<u8>) -> bool {
    forall|k: int| 0 <= k < b.len() ==> #[trigger] b[k] < 128
}

/// The ASCII bytes that are white space: tab, line feed, vertical tab, form
/// feed, carriage return and space.
pub open spec fn is_ascii_white_space(b: u8) -> bool {
    b == 0x20 || 0x09 <= b <= 0x0d
}

/// `i..j` is what is left of `b` once its leading and trailing white space is
/// removed: white space before `i` and from `j` on, none at `i` or at `j - 1`.
pub open spec fn ascii_trimmed_span(b: Seq<u8>, i: int, j: int) -> bool {
    &&& forall|k: int| 0 <= k < i ==> is_ascii_white_space(#[trigger] b[k])
    &&& forall|k: int| j <= k < b.len() ==> is_ascii_white_space(#[trigger] b[k])
    &&& !is_ascii_white_space(b[i])
    &&& !is_ascii_white_space(b[j - 1])
}

/// The characters of the ASCII bytes `b[i..j]`.
pub open spec fn ascii_chars(b: Seq<u8>, i: int, j: int) -> Seq<char> {
    Seq::new((j - i) as nat, |m: int| b[i + m] as char)
}

fn bytes_are_ascii(bytes: &[u8]) -> (res: bool)
    ensures
        res == all_ascii(bytes@),
{
    let mut k: usize = 0;
    while k < bytes.len()
        invariant
            0 <= k <= bytes.len(),
            forall|m: int| 0 <= m < k ==> #[trigger] bytes@[m] < 128,
        decreases bytes.len() - k,
    {
        if bytes[k] >= 128 {
            return false;
        }
        k = k + 1;
    }
    true
}

fn ascii_white_space(b: u8) -> (res: bool)
    ensures
        res == is_ascii_white_space(b),
{
    b == 0x20 || (0x09 <= b && b <= 0x0d)
}

/// ASCII bytes are UTF-8, each byte one character.
proof fn lemma_ascii_decode(b: Seq<u8>)
    requires
        all_ascii(b),
    ensures
        valid_utf8(b),
        decode_utf8(b) == ascii_chars(b, 0, b.len() as int),
    decreases b.len(),
{
    if b.len() > 0 {
        let b0 = b[0];
        assert(b0 < 128);
        assert(b0 & 0x7f == b0) by (bit_vector)
            requires b0 < 128;
        let rest = b.subrange(1, b.len() as int);
        assert(all_ascii(rest)) by {
            assert forall|k: int| 0 <= k < rest.len() implies #[trigger] rest[k] < 128 by {
                assert(rest[k] == b[k + 1]);
            }
        }
        lemma_ascii_decode(rest);
        assert(vstd::utf8::pop_first_scalar(b) == rest);
        assert(decode_utf8(b) =~= ascii_chars(b, 0, b.len() as int));
    } else {
        assert(decode_utf8(b) =~= ascii_chars(b, 0, 0));
    }
}

/// For an ASCII byte, being white space as a byte and as a character agree.
proof fn lemma_ascii_white_space(b: u8)
    requires
        b < 128,
    ensures
        is_white_space(b as char) == is_ascii_white_space(b),
{
}

/// Leading white space up to `i` is what `trim_start` removes.
proof fn lemma_trim_start_at(s: Seq<char>, i: int)
    requires
        0 <= i <= s.len(),
        forall|k: int| 0 <= k < i ==> is_white_space(#[trigger] s[k]),
        i == s.len() || !is_white_space(s[i]),
    ensures
        trim_start(s) == s.subrange(i, s.len() as int),
    decreases i,
{
    if i == 0 {
        assert(s.subrange(0, s.len() as int) =~= s);
    } else {
        assert(is_white_space(s[0]));
        let d = s.drop_first();
        assert forall|k: int| 0 <= k < i - 1 implies is_white_space(#[trigger] d[k]) by {
            assert(d[k] == s[k + 1]);
        }
        lemma_trim_start_at(d, i - 1);
        assert(d.subrange(i - 1, d.len() as int) =~= s.subrange(i, s.len() as int));
    }
}

/// Trailing white space from `j` on is what `trim_end` removes.
proof fn lemma_trim_end_at(s: Seq<char>, j: int)
    requires
        0 <= j <= s.len(),
        forall|k: int| j <= k < s.len() ==> is_white_space(#[trigger] s[k]),
        j == 0 || !is_white_space(s[j - 1]),
    ensures
        trim_end(s) == s.subrange(0, j),
    decreases s.len() - j,
{
    if j == s.len() {
        assert(s.subrange(0, j) =~= s);
    } else {
        assert(is_white_space(s.last()));
        let d = s.drop_last();
        assert forall|k: int| j <= k < d.len() implies is_white_space(#[trigger] d[k]) by {
            assert(d[k] == s[k]);
        }
        lemma_trim_end_at(d, j);
        assert(d.subrange(0, j) =~= s.subrange(0, j));
    }
}

/// Law: for ASCII parameter bytes, the trimmed text is the characters of the
/// bytes left once the leading and trailing white space bytes are removed.
pub proof fn lemma_ascii_trimmed_text(b: Seq<u8>, i: int, j: int)
    requires
        all_ascii(b),
        0 <= i < j <= b.len(),
        ascii_trimmed_span(b, i, j),
    ensures
        valid_utf8(b),
        trimmed(decode_utf8(b)) == ascii_chars(b, i, j),
{
    lemma_ascii_decode(b);
    let d = decode_utf8(b);
    assert forall|k: int| 0 <= k < b.len() implies is_white_space(#[trigger] d[k]) == is_ascii_white_space(b[k]) by {
        lemma_ascii_white_space(b[k]);
    }
    assert forall|k: int| 0 <= k < i implies is_white_space(#[trigger] d[k]) by {
        assert(is_ascii_white_space(b[k]));
    }
    assert(!is_white_space(d[i]));
    lemma_trim_start_at(d, i);
    let s = d.subrange(i, d.len() as int);
    assert forall|k: int| j - i <= k < s.len() implies is_white_space(#[trigger] s[k]) by {
        assert(s[k] == d[k + i]);
        assert(is_ascii_white_space(b[k + i]));
    }
    assert(s[j - i - 1] == d[j - 1]);
    assert(!is_white_space(d[j - 1]));
    lemma_trim_end_at(s, j - i);
    assert(s.subrange(0, j - i) =~= ascii_chars(b, i, j));
}

/// Law: ASCII parameter bytes that are all white space leave no text.
pub proof fn lemma_ascii_blank_text(b: Seq<u8>)
    requires
        all_ascii(b),
        forall|k: int| 0 <= k < b.len() ==> is_ascii_white_space(#[trigger] b[k]),
    ensures
        valid_utf8(b),
        trimmed(decode_utf8(b)).len() == 0,
{
    lemma_ascii_decode(b);
    let d = decode_utf8(b);
    assert forall|k: int| 0 <= k < d.len() implies is_white_space(#[trigger] d[k]) by {
        lemma_ascii_white_space(b[k]);
        assert(is_ascii_white_space(b[k]));
    }
    lemma_trim_start_at(d, d.len() as int);
    assert(trim_start(d).len() == 0);
}

/// Frames ASCII parameter bytes without going through a text decoder: the
/// leading and trailing white space bytes are dropped and the rest become
/// the characters of the text.
fn prepare_ascii_params(bytes: &[u8]) -> (res: Result<ParamsText, ParamsError>)
    requires
        all_ascii(bytes@),
    ensures
        match res {
            Ok(ParamsText::Defaults) => forall|k: int|
                0 <= k < bytes@.len() ==> is_ascii_white_space(#[trigger] bytes@[k]),
            Ok(ParamsText::Json(t)) => exists|i: int, j: int|
                #![trigger bytes@[i], bytes@[j - 1]]
                0 <= i < j <= bytes@.len() && ascii_trimmed_span(bytes@, i, j) && t@ == ascii_chars(
                    bytes@,
                    i,
                    j,
                ),
            Err(_) => false,
        },
{
    let n = bytes.len();
    let mut i: usize = 0;
    while i < n && ascii_white_space(bytes[i])
        invariant
            n == bytes.len(),
            0 <= i <= n,
            forall|k: int| 0 <= k < i ==> is_ascii_white_space(#[trigger] bytes@[k]),
        decreases n - i,
    {
        i = i + 1;
    }
    if i == n {
        return Ok(ParamsText::Defaults);
    }
    let mut j: usize = n;
    while j > i + 1 && ascii_white_space(bytes[j - 1])
        invariant
            n == bytes.len(),
            i < n,
            i + 1 <= j <= n,
            !is_ascii_white_space(bytes@[i as int]),
            forall|k: int| j <= k < n ==> is_ascii_white_space(#[trigger] bytes@[k]),
        decreases j,
    {
        j = j - 1;
    }
    let mut out = String::new();
    let mut k: usize = i;
    while k < j
        invariant
            all_ascii(bytes@),
            i <= k <= j <= bytes.len(),
            out@ == ascii_chars(bytes@, i as int, k as int),
        decreases j - k,
    {
        let piece = ascii_char_text(bytes[k]);
        out.append(piece);
        assert(out@ =~= ascii_chars(bytes@, i as int, k + 1));
        k = k + 1;
    }
    assert(ascii_trimmed_span(bytes@, i as int, j as int));
    Ok(ParamsText::Json(out))
}

} // verus!
