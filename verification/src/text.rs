//! Byte classes and small string utilities shared by the parser.

use vstd::prelude::*;

verus! {

/// An ASCII decimal digit.
pub open spec fn spec_is_digit(ch: u8) -> bool {
    48 <= ch <= 57
}

/// An ASCII lower-case letter.
pub open spec fn spec_is_lower(ch: u8) -> bool {
    97 <= ch <= 122
}

/// Horizontal white space inside a music string: space, tab, carriage return.
pub open spec fn spec_is_whitespace_char(ch: u8) -> bool {
    ch == 32 || ch == 9 || ch == 13
}

/// A character that may continue a keyword: lower-case letter, digit or `-`.
pub open spec fn spec_is_word_char(ch: u8) -> bool {
    spec_is_lower(ch) || spec_is_digit(ch) || ch == 45
}

pub fn is_digit(ch: u8) -> (r: bool)
    ensures
        r == spec_is_digit(ch),
{
    48 <= ch && ch <= 57
}

pub fn is_lower(ch: u8) -> (r: bool)
    ensures
        r == spec_is_lower(ch),
{
    97 <= ch && ch <= 122
}

pub fn is_whitespace_char(ch: u8) -> (r: bool)
    ensures
        r == spec_is_whitespace_char(ch),
{
    ch == 32 || ch == 9 || ch == 13
}

pub fn is_word_char(ch: u8) -> (r: bool)
    ensures
        r == spec_is_word_char(ch),
{
    is_lower(ch) || is_digit(ch) || ch == 45
}

} // verus!

verus! {

/// The characters obtained by reading each byte as a code point of its own
/// (U+0000 to U+00FF), the way the music parser turns bytes into text.
pub open spec fn latin1(bytes: Seq<u8>) -> Seq<char> {
    Seq::new(bytes.len(), |i: int| bytes[i] as char)
}

/// `String::push`: appends one character at the end.
#[verifier::external_body]
pub(crate) fn push_char(s: &mut String, c: char)
    ensures
        final(s)@ == old(s)@.push(c),
{
    s.push(c);
}

/// The text of `bytes[start..end]`, one character per byte.
pub fn latin1_string(bytes: &[u8], start: usize, end: usize) -> (s: String)
    requires
        start <= end <= bytes@.len(),
    ensures
        s@ == latin1(bytes@.subrange(start as int, end as int)),
{
    let mut s = String::new();
    let mut i = start;
    while i < end
        invariant
            start <= i <= end <= bytes@.len(),
            s@ == latin1(bytes@.subrange(start as int, i as int)),
        decreases end - i,
    {
        push_char(&mut s, bytes[i] as char);
        i = i + 1;
        assert(s@ =~= latin1(bytes@.subrange(start as int, i as int)));
    }
    s
}

/// Whether `word` occurs in `bytes` starting at position `p`.
pub open spec fn spec_matches_at(bytes: Seq<u8>, p: int, word: Seq<u8>) -> bool {
    &&& 0 <= p
    &&& p + word.len() <= bytes.len()
    &&& bytes.subrange(p, p + word.len()) == word
}

pub fn matches_at(bytes: &[u8], p: usize, word: &[u8]) -> (r: bool)
    ensures
        r == spec_matches_at(bytes@, p as int, word@),
{
    if p > bytes.len() || word.len() > bytes.len() - p {
        return false;
    }
    let mut i: usize = 0;
    while i < word.len()
        invariant
            p + word@.len() <= bytes@.len(),
            bytes@.len() == bytes.len(),
            i <= word@.len(),
            forall|k: int| 0 <= k < i ==> bytes@[p + k] == word@[k],
        decreases word.len() - i,
    {
        if bytes[p + i] != word[i] {
            assert(bytes@.subrange(p as int, p + word@.len())[i as int] != word@[i as int]);
            return false;
        }
        i = i + 1;
    }
    assert(bytes@.subrange(p as int, p + word@.len()) =~= word@);
    true
}

/// Characters with the Unicode `White_Space` property.
pub open spec fn is_unicode_whitespace(c: char) -> bool {
    let u = c as u32;
    ||| 9 <= u <= 13
    ||| u == 32
    ||| u == 0x85
    ||| u == 0xA0
    ||| u == 0x1680
    ||| 0x2000 <= u <= 0x200A
    ||| u == 0x2028
    ||| u == 0x2029
    ||| u == 0x202F
    ||| u == 0x205F
    ||| u == 0x3000
}

pub open spec fn trim_start_ws(s: Seq<char>) -> Seq<char>
    decreases s.len(),
{
    if s.len() > 0 && is_unicode_whitespace(s[0]) {
        trim_start_ws(s.drop_first())
    } else {
        s
    }
}

pub open spec fn trim_end_ws(s: Seq<char>) -> Seq<char>
    decreases s.len(),
{
    if s.len() > 0 && is_unicode_whitespace(s.last()) {
        trim_end_ws(s.drop_last())
    } else {
        s
    }
}

/// `s` without leading and trailing Unicode white space.
pub open spec fn trim_ws(s: Seq<char>) -> Seq<char> {
    trim_end_ws(trim_start_ws(s))
}

/// `str::trim`: the slice without leading and trailing characters that have
/// the Unicode `White_Space` property.
#[verifier::external_body]
pub(crate) fn str_trim(s: &str) -> (r: &str)
    ensures
        r@ == trim_ws(s@),
{
    s.trim()
}

/// The lower-case mapping of one character, as Unicode defines it.
pub uninterp spec fn char_lowercase(c: char) -> Seq<char>;

/// `char::to_lowercase`, collected: the lower-case mapping of `c`. For an
/// ASCII upper-case letter it is the matching lower-case letter, and every
/// other ASCII character maps to itself; beyond ASCII the Unicode tables
/// decide, which is not stated here.
#[verifier::external_body]
pub(crate) fn char_to_lowercase(c: char) -> (r: String)
    ensures
        r@ == char_lowercase(c),
        'A' <= c <= 'Z' ==> r@ == seq![((c as u32) + 32) as char],
        (c as u32) < 128 && !('A' <= c <= 'Z') ==> r@ == seq![c],
{
    c.to_lowercase().collect::<String>()
}

/// The lower case of one character: an ASCII capital becomes its small
/// letter, any other ASCII character stays; beyond ASCII the Unicode
/// mapping applies (see `char_lowercase`).
pub open spec fn lower_char(c: char) -> Seq<char> {
    if 'A' <= c <= 'Z' {
        seq![((c as u32) + 32) as char]
    } else if (c as u32) < 128 {
        seq![c]
    } else {
        char_lowercase(c)
    }
}

/// The key under which a colour name is looked up: white space trimmed,
/// spaces, hyphens and underscores removed, and every character lower-cased.
pub open spec fn color_key(s: Seq<char>) -> Seq<char>
    decreases s.len(),
{
    if s.len() == 0 {
        Seq::empty()
    } else {
        let rest = color_key(s.drop_last());
        let c = s.last();
        if c == ' ' || c == '-' || c == '_' {
            rest
        } else {
            rest + lower_char(c)
        }
    }
}

/// The colour a preset name stands for, if the key names one.
pub open spec fn spec_color_preset(key: Seq<char>) -> Option<Seq<char>> {
    if key == "red"@ {
        Some("#ff0000"@)
    } else if key == "orange"@ {
        Some("#ffa500"@)
    } else if key == "yellow"@ {
        Some("#ffcf00"@)
    } else if key == "green"@ {
        Some("#00ff00"@)
    } else if key == "blue"@ {
        Some("#0000ff"@)
    } else if key == "skyblue"@ {
        Some("#4e9fe5"@)
    } else if key == "purple"@ {
        Some("#9d0055"@)
    } else if key == "gold"@ {
        Some("#d4af37"@)
    } else if key == "white"@ {
        Some("#ffffff"@)
    } else if key == "black"@ {
        Some("#000000"@)
    } else if key == "silver"@ {
        Some("#c0c0c0"@)
    } else if key == "platinum"@ {
        Some("#e5e4e2"@)
    } else if key == "bronze"@ {
        Some("#cd7f32"@)
    } else if key == "copper"@ {
        Some("#b87333"@)
    } else if key == "charcoal"@ {
        Some("#36454f"@)
    } else if key == "navy"@ {
        Some("#0a2a66"@)
    } else {
        None
    }
}

/// What a colour specification resolves to: the hex value of a preset name,
/// otherwise the specification itself with surrounding white space removed.
pub open spec fn spec_resolve_color(s: Seq<char>) -> Seq<char> {
    match spec_color_preset(color_key(trim_ws(s))) {
        Some(hex) => hex,
        None => trim_ws(s),
    }
}

/// Character-wise equality of two strings.
pub fn str_eq(a: &str, b: &str) -> (r: bool)
    ensures
        r == (a@ == b@),
{
    let n = a.unicode_len();
    if n != b.unicode_len() {
        return false;
    }
    let mut i: usize = 0;
    while i < n
        invariant
            n == a@.len() == b@.len(),
            i <= n,
            forall|k: int| 0 <= k < i ==> a@[k] == b@[k],
        decreases n - i,
    {
        if a.get_char(i) != b.get_char(i) {
            return false;
        }
        i = i + 1;
    }
    assert(a@ =~= b@);
    true
}

/// The hex colour a preset name stands for, looked up by its normalised key.
pub fn color_preset(key: &str) -> (r: Option<&'static str>)
    ensures
        match r {
            Some(h) => spec_color_preset(key@) == Some(h@),
            None => spec_color_preset(key@) is None,
        },
{
    if str_eq(key, "red") {
        Some("#ff0000")
    } else if str_eq(key, "orange") {
        Some("#ffa500")
    } else if str_eq(key, "yellow") {
        Some("#ffcf00")
    } else if str_eq(key, "green") {
        Some("#00ff00")
    } else if str_eq(key, "blue") {
        Some("#0000ff")
    } else if str_eq(key, "skyblue") {
        Some("#4e9fe5")
    } else if str_eq(key, "purple") {
        Some("#9d0055")
    } else if str_eq(key, "gold") {
        Some("#d4af37")
    } else if str_eq(key, "white") {
        Some("#ffffff")
    } else if str_eq(key, "black") {
        Some("#000000")
    } else if str_eq(key, "silver") {
        Some("#c0c0c0")
    } else if str_eq(key, "platinum") {
        Some("#e5e4e2")
    } else if str_eq(key, "bronze") {
        Some("#cd7f32")
    } else if str_eq(key, "copper") {
        Some("#b87333")
    } else if str_eq(key, "charcoal") {
        Some("#36454f")
    } else if str_eq(key, "navy") {
        Some("#0a2a66")
    } else {
        None
    }
}

/// The normalised lookup key of a colour specification (see `color_key`).
pub fn color_name_key(s: &str) -> (r: String)
    ensures
        r@ == color_key(s@),
{
    let mut key = String::new();
    let n = s.unicode_len();
    let mut i: usize = 0;
    while i < n
        invariant
            n == s@.len(),
            i <= n,
            key@ == color_key(s@.subrange(0, i as int)),
        decreases n - i,
    {
        let c = s.get_char(i);
        assert(s@.subrange(0, i + 1).drop_last() =~= s@.subrange(0, i as int));
        if !(c == ' ' || c == '-' || c == '_') {
            let lower = char_to_lowercase(c);
            key.append(lower.as_str());
        }
        i = i + 1;
    }
    assert(s@.subrange(0, n as int) =~= s@);
    key
}

/// Resolves a colour name to its hex value; anything that is not a preset
/// name is passed through with surrounding white space removed.
pub fn resolve_color_name(color: &str) -> (r: &str)
    ensures
        r@ == spec_resolve_color(color@),
{
    let trimmed = str_trim(color);
    let key = color_name_key(trimmed);
    match color_preset(key.as_str()) {
        Some(hex) => hex,
        None => trimmed,
    }
}

} // verus!

verus! {

/// The text of an optional string.
pub open spec fn opt_view(o: Option<String>) -> Option<Seq<char>> {
    match o {
        Some(s) => Some(s@),
        None => None,
    }
}

/// The text of an optional string slice.
pub open spec fn opt_str_view(o: Option<&str>) -> Option<Seq<char>> {
    match o {
        Some(s) => Some(s@),
        None => None,
    }
}

/// An owned copy of a string slice.
pub fn owned(s: &str) -> (r: String)
    ensures
        r@ == s@,
{
    broadcast use vstd::string::group_string_axioms;

    s.to_string()
}

} // verus!

verus! {

/// What `String::from_utf8_lossy` makes of bytes that are not all valid
/// UTF-8 (invalid sequences replaced by U+FFFD).
pub uninterp spec fn lossy_decode(bytes: Seq<u8>) -> Seq<char>;

/// `String::from_utf8_lossy`, owned: the text the bytes encode. For valid
/// UTF-8 that is the decoded text; for invalid input it is the named lossy
/// decoding, which replaces each invalid sequence by U+FFFD.
#[verifier::external_body]
pub(crate) fn utf8_lossy(bytes: &[u8]) -> (r: String)
    ensures
        r@ == lossy_decode(bytes@),
        vstd::utf8::valid_utf8(bytes@) ==> r@ == vstd::utf8::decode_utf8(bytes@),
{
    String::from_utf8_lossy(bytes).into_owned()
}

proof fn lemma_encode_len_drop_last(s: Seq<char>)
    requires
        s.len() > 0,
    ensures
        vstd::utf8::encode_utf8(s.drop_last()).len() <= vstd::utf8::encode_utf8(s).len(),
    decreases s.len(),
{
    if s.len() == 1 {
        assert(s.drop_last() =~= Seq::<char>::empty());
    } else {
        lemma_encode_len_drop_last(s.drop_first());
        assert(s.drop_last().drop_first() =~= s.drop_first().drop_last());
        assert(s.drop_last()[0] == s[0]);
    }
}

proof fn lemma_trim_start_len(s: Seq<char>)
    ensures
        vstd::utf8::encode_utf8(trim_start_ws(s)).len() <= vstd::utf8::encode_utf8(s).len(),
    decreases s.len(),
{
    if s.len() > 0 && is_unicode_whitespace(s[0]) {
        lemma_trim_start_len(s.drop_first());
    }
}

proof fn lemma_trim_end_len(s: Seq<char>)
    ensures
        vstd::utf8::encode_utf8(trim_end_ws(s)).len() <= vstd::utf8::encode_utf8(s).len(),
    decreases s.len(),
{
    if s.len() > 0 && is_unicode_whitespace(s.last()) {
        lemma_trim_end_len(s.drop_last());
        lemma_encode_len_drop_last(s);
    }
}

/// Trimming white space never lengthens the encoding.
pub proof fn lemma_trim_encoding_len(s: Seq<char>)
    ensures
        vstd::utf8::encode_utf8(trim_ws(s)).len() <= vstd::utf8::encode_utf8(s).len(),
{
    lemma_trim_start_len(s);
    lemma_trim_end_len(trim_start_ws(s));
}

/// The bytes strictly between two ASCII bytes of valid UTF-8 are valid
/// UTF-8 themselves.
pub proof fn lemma_ascii_delimited_valid(b: Seq<u8>, i: int, j: int)
    requires
        vstd::utf8::valid_utf8(b),
        0 <= i < j <= b.len(),
        b[i] < 0x80,
        j < b.len() ==> b[j] < 0x80,
    ensures
        vstd::utf8::valid_utf8(b.subrange(i + 1, j)),
{
    vstd::utf8::is_char_boundary_iff_not_is_continuation_byte(b, i);
    vstd::utf8::valid_utf8_split(b, i);
    let t = b.subrange(i, b.len() as int);
    assert(t[0] == b[i]);
    assert(vstd::utf8::pop_first_scalar(t) =~= b.subrange(i + 1, b.len() as int));
    let u = b.subrange(i + 1, b.len() as int);
    assert(vstd::utf8::valid_utf8(u));
    let k = j - (i + 1);
    if k == u.len() {
        assert(u.subrange(0, k) =~= u);
    } else {
        assert(u[k] == b[j]);
        vstd::utf8::is_char_boundary_iff_not_is_continuation_byte(u, k);
        vstd::utf8::valid_utf8_split(u, k);
    }
    assert(u.subrange(0, k) =~= b.subrange(i + 1, j));
}

} // verus!
