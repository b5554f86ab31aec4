//! Data URLs, base64, audio and speech details of the host's media commands.
use base64::Engine;
use vstd::prelude::*;

use crate::text::{
    chars_of, contains, find_char, first_of, has_char, has_infix_str, has_prefix_str, push_char,
    skip_from, slice_range, starts_with, string_of, trim, trimmed,
};

verus! {

// ---------------------------------------------------------------------------
// base64 (the `base64` crate's STANDARD engine: standard alphabet, `=` padding)

/// The base64 symbol of a 6-bit value.
pub open spec fn b64_char(n: int) -> char {
    if n < 26 {
        (65 + n) as char
    } else if n < 52 {
        (71 + n) as char
    } else if n < 62 {
        (n - 4) as char
    } else if n == 62 {
        '+'
    } else {
        '/'
    }
}

proof fn lemma_b64_char_code(n: int)
    requires
        0 <= n < 64,
    ensures
        b64_char(n) as int == if n < 26 {
            65 + n
        } else if n < 52 {
            71 + n
        } else if n < 62 {
            n - 4
        } else if n == 62 {
            43
        } else {
            47
        },
{
}

proof fn lemma_b64_char_inj(n: int, m: int)
    requires
        0 <= n < 64,
        0 <= m < 64,
    ensures
        b64_char(n) != '=',
        b64_char(n) == b64_char(m) ==> n == m,
{
    lemma_b64_char_code(n);
    lemma_b64_char_code(m);
}

proof fn lemma_group3_inj(a0: u8, a1: u8, a2: u8, b0: u8, b1: u8, b2: u8)
    by (bit_vector)
    requires
        (a0 * 65536 + a1 * 256 + a2) / 262144 == (b0 * 65536 + b1 * 256 + b2) / 262144,
        ((a0 * 65536 + a1 * 256 + a2) / 4096) % 64 == ((b0 * 65536 + b1 * 256 + b2) / 4096) % 64,
        ((a0 * 65536 + a1 * 256 + a2) / 64) % 64 == ((b0 * 65536 + b1 * 256 + b2) / 64) % 64,
        (a0 * 65536 + a1 * 256 + a2) % 64 == (b0 * 65536 + b1 * 256 + b2) % 64,
    ensures
        a0 == b0 && a1 == b1 && a2 == b2,
{
}

proof fn lemma_group2_inj(a0: u8, a1: u8, b0: u8, b1: u8)
    by (bit_vector)
    requires
        (a0 * 65536 + a1 * 256) / 262144 == (b0 * 65536 + b1 * 256) / 262144,
        ((a0 * 65536 + a1 * 256) / 4096) % 64 == ((b0 * 65536 + b1 * 256) / 4096) % 64,
        ((a0 * 65536 + a1 * 256) / 64) % 64 == ((b0 * 65536 + b1 * 256) / 64) % 64,
    ensures
        a0 == b0 && a1 == b1,
{
}

proof fn lemma_group1_inj(a0: u8, b0: u8)
    by (bit_vector)
    requires
        (a0 * 65536) / 262144 == (b0 * 65536) / 262144,
        ((a0 * 65536) / 4096) % 64 == ((b0 * 65536) / 4096) % 64,
    ensures
        a0 == b0,
{
}

/// Standard base64 with `=` padding (RFC 4648, section 4): each group of
/// three bytes becomes four symbols; a final group of one or two bytes is
/// padded to four symbols with `=`.
pub open spec fn base64_encoding(b: Seq<u8>) -> Seq<char>
    decreases b.len(),
{
    if b.len() >= 3 {
        let n = b[0] * 65536 + b[1] * 256 + b[2];
        seq![b64_char(n / 262144), b64_char((n / 4096) % 64), b64_char((n / 64) % 64), b64_char(n % 64)]
            + base64_encoding(b.skip(3))
    } else if b.len() == 2 {
        let n = b[0] * 65536 + b[1] * 256;
        seq![b64_char(n / 262144), b64_char((n / 4096) % 64), b64_char((n / 64) % 64), '=']
    } else if b.len() == 1 {
        let n = b[0] * 65536;
        seq![b64_char(n / 262144), b64_char((n / 4096) % 64), '=', '=']
    } else {
        seq![]
    }
}

/// Encoding is one to one: different bytes never share an encoding.
pub proof fn lemma_base64_injective(a: Seq<u8>, b: Seq<u8>)
    requires
        base64_encoding(a) == base64_encoding(b),
    ensures
        a == b,
    decreases a.len(),
{
    let ea = base64_encoding(a);
    let eb = base64_encoding(b);
    if a.len() >= 3 {
        let na = a[0] * 65536 + a[1] * 256 + a[2];
        assert(ea[3] == b64_char(na % 64));
        lemma_b64_char_inj(na % 64, 0);
        if b.len() >= 3 {
            let nb = b[0] * 65536 + b[1] * 256 + b[2];
            assert(ea[0] == b64_char(na / 262144) && eb[0] == b64_char(nb / 262144));
            assert(ea[1] == b64_char((na / 4096) % 64) && eb[1] == b64_char((nb / 4096) % 64));
            assert(ea[2] == b64_char((na / 64) % 64) && eb[2] == b64_char((nb / 64) % 64));
            assert(eb[3] == b64_char(nb % 64));
            lemma_b64_char_inj(na / 262144, nb / 262144);
            lemma_b64_char_inj((na / 4096) % 64, (nb / 4096) % 64);
            lemma_b64_char_inj((na / 64) % 64, (nb / 64) % 64);
            lemma_b64_char_inj(na % 64, nb % 64);
            lemma_group3_inj(a[0], a[1], a[2], b[0], b[1], b[2]);
            assert(ea.skip(4) == base64_encoding(a.skip(3)));
            assert(eb.skip(4) == base64_encoding(b.skip(3)));
            lemma_base64_injective(a.skip(3), b.skip(3));
            assert(a =~= a.take(3) + a.skip(3));
            assert(b =~= b.take(3) + b.skip(3));
            assert(a.take(3) =~= b.take(3));
        } else {
            assert(eb.len() <= 4);
            if b.len() > 0 {
                assert(eb[3] == '=');
            }
        }
    } else if a.len() == 2 {
        let na = a[0] * 65536 + a[1] * 256;
        assert(ea[2] == b64_char((na / 64) % 64));
        lemma_b64_char_inj((na / 64) % 64, 0);
        if b.len() >= 3 {
            let nb = b[0] * 65536 + b[1] * 256 + b[2];
            assert(eb[3] == b64_char(nb % 64));
            lemma_b64_char_inj(nb % 64, 0);
        } else if b.len() == 2 {
            let nb = b[0] * 65536 + b[1] * 256;
            assert(ea[0] == b64_char(na / 262144) && eb[0] == b64_char(nb / 262144));
            assert(ea[1] == b64_char((na / 4096) % 64) && eb[1] == b64_char((nb / 4096) % 64));
            assert(eb[2] == b64_char((nb / 64) % 64));
            lemma_b64_char_inj(na / 262144, nb / 262144);
            lemma_b64_char_inj((na / 4096) % 64, (nb / 4096) % 64);
            lemma_b64_char_inj((na / 64) % 64, (nb / 64) % 64);
            lemma_group2_inj(a[0], a[1], b[0], b[1]);
            assert(a =~= b);
        } else if b.len() == 1 {
            assert(eb[2] == '=');
        }
    } else if a.len() == 1 {
        let na = a[0] * 65536;
        if b.len() >= 3 {
            let nb = b[0] * 65536 + b[1] * 256 + b[2];
            assert(eb[3] == b64_char(nb % 64));
            lemma_b64_char_inj(nb % 64, 0);
            assert(ea[3] == '=');
        } else if b.len() == 2 {
            let nb = b[0] * 65536 + b[1] * 256;
            assert(eb[2] == b64_char((nb / 64) % 64));
            lemma_b64_char_inj((nb / 64) % 64, 0);
            assert(ea[2] == '=');
        } else if b.len() == 1 {
            let nb = b[0] * 65536;
            assert(ea[0] == b64_char(na / 262144) && eb[0] == b64_char(nb / 262144));
            assert(ea[1] == b64_char((na / 4096) % 64) && eb[1] == b64_char((nb / 4096) % 64));
            lemma_b64_char_inj(na / 262144, nb / 262144);
            lemma_b64_char_inj((na / 4096) % 64, (nb / 4096) % 64);
            lemma_group1_inj(a[0], b[0]);
            assert(a =~= b);
        }
    } else {
        if b.len() >= 3 {
            assert(eb.len() >= 4);
        } else if b.len() > 0 {
            assert(eb.len() == 4);
        }
        assert(a =~= b);
    }
}

/// What standard base64 decoding gives for a text: the bytes whose padded
/// standard encoding it is, `None` when it is the encoding of no bytes.
pub open spec fn base64_decoding(text: Seq<char>) -> Option<Seq<u8>> {
    if exists|b: Seq<u8>| #[trigger] base64_encoding(b) == text {
        Some(choose|b: Seq<u8>| #[trigger] base64_encoding(b) == text)
    } else {
        None
    }
}

/// Decoding the encoding of bytes gives them back.
pub proof fn lemma_base64_round_trip(b: Seq<u8>)
    ensures
        base64_decoding(base64_encoding(b)) == Some(b),
{
    let t = base64_encoding(b);
    assert(exists|c: Seq<u8>| #[trigger] base64_encoding(c) == t);
    let c = choose|c: Seq<u8>| #[trigger] base64_encoding(c) == t;
    lemma_base64_injective(c, b);
}

/// `base64::engine::general_purpose::STANDARD.decode`. Trusted: the
/// STANDARD engine requires canonical `=` padding and no trailing bits, so
/// it gives `Some(b)` exactly for the padded standard encoding of `b`, and
/// fails on any text that encodes no bytes.
#[verifier::external_body]
fn b64_decode(text: &str) -> (r: Option<Vec<u8>>)
    ensures
        match r {
            Some(b) => base64_encoding(b@) == text@,
            None => forall|b: Seq<u8>| #[trigger] base64_encoding(b) != text@,
        },
{
    base64::engine::general_purpose::STANDARD.decode(text).ok()
}

/// `base64::engine::general_purpose::STANDARD.encode`. Trusted: the result
/// is the padded standard encoding of the bytes. The crate panics when the
/// encoded length overflows `usize`, which `requires` rules out.
#[verifier::external_body]
fn b64_encode(bytes: &[u8]) -> (r: String)
    requires
        (bytes@.len() / 3) * 4 + 4 <= usize::MAX,
    ensures
        r@ == base64_encoding(bytes@),
{
    base64::engine::general_purpose::STANDARD.encode(bytes)
}

pub proof fn lemma_base64_no_comma(b: Seq<u8>)
    ensures
        !has_char(base64_encoding(b), ','),
    decreases b.len(),
{
    let e = base64_encoding(b);
    if b.len() >= 3 {
        lemma_base64_no_comma(b.skip(3));
        let n = b[0] * 65536 + b[1] * 256 + b[2];
        let head = seq![b64_char(n / 262144), b64_char((n / 4096) % 64), b64_char((n / 64) % 64), b64_char(n % 64)];
        assert(e == head + base64_encoding(b.skip(3)));
        if has_char(e, ',') {
            let j = choose|j: int| 0 <= j < e.len() && e[j] == ',';
            if j >= 4 {
                assert(base64_encoding(b.skip(3))[j - 4] == ',');
            }
        }
    }
}

// ---------------------------------------------------------------------------
// Data URLs

/// The second `','`-separated field of a text (`split(',').nth(1)`).
pub open spec fn second_field(s: Seq<char>) -> Option<Seq<char>> {
    let i = first_of(s, ',');
    if i < s.len() {
        let rest = s.skip(i as int + 1);
        Some(rest.take(first_of(rest, ',') as int))
    } else {
        None
    }
}

/// The base64 payload of a `data:` URL: what follows its first `','`, up to
/// any further `','`.
pub fn data_url_payload(data_url: &str) -> (r: Option<String>)
    ensures
        match r {
            Some(p) => second_field(data_url@) == Some(p@),
            None => second_field(data_url@) is None,
        },
{
    let v = chars_of(data_url);
    let i = find_char(&v, ',');
    if i < v.len() {
        let rest = skip_from(&v, i + 1);
        let j = find_char(&rest, ',');
        let p = slice_range(&rest, 0, j);
        assert(rest@.subrange(0, j as int) == rest@.take(j as int));
        Some(string_of(&p))
    } else {
        None
    }
}

/// The bytes of a `data:` URL: its payload decoded as standard base64.
pub open spec fn data_url_bytes(s: Seq<char>) -> Option<Seq<u8>> {
    match second_field(s) {
        Some(p) => base64_decoding(p),
        None => None,
    }
}

/// Decodes the base64 payload of a `data:` URL (`None` when there is no
/// payload or it is not base64).
pub fn decode_data_url(data_url: &str) -> (r: Option<Vec<u8>>)
    ensures
        match r {
            Some(b) => data_url_bytes(data_url@) == Some(b@),
            None => data_url_bytes(data_url@) is None,
        },
{
    match data_url_payload(data_url) {
        Some(p) => {
            let r = b64_decode(p.as_str());
            proof {
                if r is Some {
                    lemma_base64_round_trip(r->0@);
                }
            }
            r
        },
        None => None,
    }
}

/// The `data:` URL of a PNG image.
pub open spec fn png_data_url_of(bytes: Seq<u8>) -> Seq<char> {
    "data:image/png;base64,"@ + base64_encoding(bytes)
}

/// Wraps image bytes as a `data:image/png;base64,` URL. An image that the
/// host generated can be saved and opened again: the URL's payload decodes
/// back to the same bytes.
pub fn png_data_url(bytes: &[u8]) -> (s: String)
    requires
        (bytes@.len() / 3) * 4 + 4 <= usize::MAX,
    ensures
        s@ == png_data_url_of(bytes@),
        data_url_bytes(s@) == Some(bytes@),
{
    let mut s = String::from_str("data:image/png;base64,");
    let e = b64_encode(bytes);
    s.append(e.as_str());
    proof {
        lemma_png_payload(bytes@);
        lemma_base64_round_trip(bytes@);
    }
    s
}

/// The payload of a PNG data URL is the base64 encoding of its bytes.
pub proof fn lemma_png_payload(bytes: Seq<u8>)
    ensures
        second_field(png_data_url_of(bytes)) == Some(base64_encoding(bytes)),
{
    reveal_strlit("data:image/png;base64,");
    let pre = "data:image/png;base64,"@;
    let e = base64_encoding(bytes);
    let s = pre + e;
    assert forall|j: int| 0 <= j < 21 implies s[j] != ',' by {
        assert(s[j] == pre[j]);
    }
    assert(s[21] == ',');
    crate::text::lemma_first_of(s, ',', 21);
    assert(s.skip(22) == e);
    lemma_base64_no_comma(bytes);
    assert forall|j: int| 0 <= j < e.len() implies e[j] != ',' by {
        if e[j] == ',' {
            assert(has_char(e, ','));
        }
    }
    crate::text::lemma_first_of(e, ',', e.len() as int);
    assert(e.take(e.len() as int) == e);
}

// ---------------------------------------------------------------------------
// Recorded audio

/// The MIME type of a recorded-audio `data:` URL: the text between `data:`
/// and the first `';'`, or `audio/webm` when the URL does not start so.
pub open spec fn audio_mime_of(s: Seq<char>) -> Seq<char> {
    let first = s.take(first_of(s, ';') as int);
    if starts_with(first, "data:"@) {
        first.skip("data:"@.len() as int)
    } else {
        "audio/webm"@
    }
}

/// Reads the MIME type of a recorded-audio `data:` URL.
pub fn audio_mime(data_url: &str) -> (r: String)
    ensures
        r@ == audio_mime_of(data_url@),
{
    proof {
        reveal_strlit("data:");
    }
    let v = chars_of(data_url);
    let i = find_char(&v, ';');
    let first = slice_range(&v, 0, i);
    assert(v@.subrange(0, i as int) == v@.take(i as int));
    if has_prefix_str(&first, "data:") {
        string_of(&skip_from(&first, 5))
    } else {
        String::from_str("audio/webm")
    }
}

/// The file extension the transcription upload gets for a MIME type.
pub open spec fn audio_ext_of(mime: Seq<char>) -> Seq<char> {
    if contains(mime, "mp4"@) || contains(mime, "aac"@) {
        "m4a"@
    } else if contains(mime, "wav"@) {
        "wav"@
    } else {
        "webm"@
    }
}

/// Chooses the upload's file extension from its MIME type.
pub fn audio_extension(mime: &str) -> (r: &'static str)
    ensures
        r@ == audio_ext_of(mime@),
{
    let v = chars_of(mime);
    if has_infix_str(&v, "mp4") || has_infix_str(&v, "aac") {
        "m4a"
    } else if has_infix_str(&v, "wav") {
        "wav"
    } else {
        "webm"
    }
}

/// The upload's file name: `audio.<ext>`.
pub fn audio_file_name(mime: &str) -> (r: String)
    ensures
        r@ == "audio."@ + audio_ext_of(mime@),
{
    let mut r = String::from_str("audio.");
    r.append(audio_extension(mime));
    r
}

/// The transcript from the hub's reply: its `text` member, trimmed, or
/// empty when there is none.
pub fn transcript_text(text: Option<String>) -> (r: String)
    ensures
        r@ == match text {
            Some(t) => trim(t@),
            None => Seq::<char>::empty(),
        },
{
    match text {
        Some(t) => string_of(&trimmed(&chars_of(t.as_str()))),
        None => String::new(),
    }
}

// ---------------------------------------------------------------------------
// Speech

/// A character of the Cyrillic block (U+0400 to U+04FF).
pub open spec fn is_cyrillic(c: char) -> bool {
    0x400 <= (c as u32) && (c as u32) <= 0x4ff
}

/// The `say` voice for a text: Milena (Russian) when it holds a Cyrillic
/// character, else Samantha.
pub open spec fn voice_for(text: Seq<char>) -> Seq<char> {
    if exists|i: int| 0 <= i < text.len() && is_cyrillic(#[trigger] text[i]) {
        "Milena"@
    } else {
        "Samantha"@
    }
}

/// Chooses the speech voice for a text.
pub fn tts_voice(text: &str) -> (r: &'static str)
    ensures
        r@ == voice_for(text@),
{
    let v = chars_of(text);
    let mut i: usize = 0;
    while i < v.len()
        invariant
            i <= v@.len(),
            v@ == text@,
            forall|j: int| 0 <= j < i ==> !is_cyrillic(#[trigger] v@[j]),
        decreases v@.len() - i,
    {
        let n = v[i] as u32;
        if 0x400 <= n && n <= 0x4ff {
            assert(is_cyrillic(v@[i as int]));
            return "Milena";
        }
        i = i + 1;
    }
    "Samantha"
}

// ---------------------------------------------------------------------------
// The loopback key

/// The lowercase hex digit of a value below 16.
pub open spec fn hex_digit(n: int) -> char {
    if n < 10 {
        (48 + n) as char
    } else {
        (87 + n) as char
    }
}

/// Lowercase hex, two digits per byte (`{:02x}` of each byte).
pub open spec fn hex_of(b: Seq<u8>) -> Seq<char>
    decreases b.len(),
{
    if b.len() == 0 {
        seq![]
    } else {
        hex_of(b.drop_last()) + seq![hex_digit((b.last() / 16) as int), hex_digit((b.last() % 16) as int)]
    }
}

fn hex_digit_exec(n: u8) -> (c: char)
    requires
        n < 16,
    ensures
        c == hex_digit(n as int),
{
    if n < 10 {
        (48 + n) as char
    } else {
        (87 + n) as char
    }
}

/// The loopback `API_SERVER_KEY` made of random bytes: their lowercase hex.
pub fn hex_key(bytes: &[u8]) -> (r: String)
    ensures
        r@ == hex_of(bytes@),
        r@.len() == 2 * bytes@.len(),
{
    let mut r = String::new();
    let mut i: usize = 0;
    while i < bytes.len()
        invariant
            i <= bytes@.len(),
            r@ == hex_of(bytes@.take(i as int)),
            r@.len() == 2 * i,
        decreases bytes@.len() - i,
    {
        let b = bytes[i];
        push_char(&mut r, hex_digit_exec(b / 16));
        push_char(&mut r, hex_digit_exec(b % 16));
        proof {
            let t = bytes@.take(i + 1);
            assert(t.drop_last() == bytes@.take(i as int));
            assert(t.last() == b);
        }
        i = i + 1;
    }
    assert(bytes@.take(bytes@.len() as int) == bytes@);
    r
}

} // verus!
