//! File entries as the search reports them: a stable identifier, the name,
//! the extension and a coarse kind derived from the extension.
use vstd::prelude::*;
use std::collections::hash_map::DefaultHasher;
use std::hash::Hasher;
use vstd::std_specs::hash::DefaultHasherAdditionalSpecFns;
use crate::paths::{extension_of_name, file_name, file_name_of, name_extension};
use crate::text::{
    ascii_lower, ascii_lower_char, chars_equal, chars_of, lossy_text, string_from_chars, text_of_bytes,
};

verus! {

/// Whether the lower-case extension `e` names an image format.
pub open spec fn is_image_extension(e: Seq<char>) -> bool {
    ||| e == "jpg"@
    ||| e == "jpeg"@
    ||| e == "png"@
    ||| e == "gif"@
    ||| e == "webp"@
    ||| e == "bmp"@
    ||| e == "tif"@
    ||| e == "tiff"@
    ||| e == "svg"@
}

/// Whether the lower-case extension `e` names an audio format.
pub open spec fn is_audio_extension(e: Seq<char>) -> bool {
    ||| e == "mp3"@
    ||| e == "wav"@
    ||| e == "flac"@
    ||| e == "ogg"@
    ||| e == "m4a"@
    ||| e == "aac"@
}

/// Whether the lower-case extension `e` names a document format.
pub open spec fn is_document_extension(e: Seq<char>) -> bool {
    ||| e == "pdf"@
    ||| e == "doc"@
    ||| e == "docx"@
    ||| e == "odt"@
    ||| e == "xls"@
    ||| e == "xlsx"@
    ||| e == "ods"@
    ||| e == "ppt"@
    ||| e == "pptx"@
}

/// The kind of a file with extension `ext`, ASCII case ignored: `image`,
/// `audio`, `document`, or `text` for everything else.
pub open spec fn kind_of_extension(ext: Seq<char>) -> Seq<char> {
    let e = ascii_lower(ext);
    if is_image_extension(e) {
        "image"@
    } else if is_audio_extension(e) {
        "audio"@
    } else if is_document_extension(e) {
        "document"@
    } else {
        "text"@
    }
}

/// `s` with its ASCII upper-case letters in lower case.
pub fn ascii_lowercase(s: &str) -> (r: Vec<char>)
    ensures
        r@ == ascii_lower(s@),
        same_up_to_ascii_case(s@, r@),
        forall|i: int| 0 <= i < r@.len() ==> !('A' <= #[trigger] r@[i] <= 'Z'),
{
    let v = chars_of(s);
    let n = v.len();
    let mut r: Vec<char> = Vec::new();
    let mut i: usize = 0;
    while i < n
        invariant
            n == v@.len(),
            v@ == s@,
            i <= n,
            r@ =~= ascii_lower(v@.take(i as int)),
        decreases n - i,
    {
        let c = v[i];
        let l = if 'A' <= c && c <= 'Z' {
            ((c as u8) + 32) as char
        } else {
            c
        };
        assert(l == ascii_lower_char(c));
        r.push(l);
        assert(v@.take(i + 1) =~= v@.take(i as int).push(c));
        i = i + 1;
    }
    assert(v@.take(n as int) =~= v@);
    proof {
        lemma_ascii_lower_lowers_every_ascii_letter(s@);
    }
    r
}

/// Whether `v` holds exactly the characters of `lit`.
fn equals_text(v: &Vec<char>, lit: &str) -> (r: bool)
    ensures
        r == (v@ == lit@),
{
    chars_equal(v, &chars_of(lit))
}

/// The kind of a file, from its extension.
pub fn classify(extension: &str) -> (kind: &'static str)
    ensures
        kind@ == kind_of_extension(extension@),
{
    let e = ascii_lowercase(extension);
    if equals_text(&e, "jpg") || equals_text(&e, "jpeg") || equals_text(&e, "png")
        || equals_text(&e, "gif") || equals_text(&e, "webp") || equals_text(&e, "bmp")
        || equals_text(&e, "tif") || equals_text(&e, "tiff") || equals_text(&e, "svg") {
        "image"
    } else if equals_text(&e, "mp3") || equals_text(&e, "wav") || equals_text(&e, "flac")
        || equals_text(&e, "ogg") || equals_text(&e, "m4a") || equals_text(&e, "aac") {
        "audio"
    } else if equals_text(&e, "pdf") || equals_text(&e, "doc") || equals_text(&e, "docx")
        || equals_text(&e, "odt") || equals_text(&e, "xls") || equals_text(&e, "xlsx")
        || equals_text(&e, "ods") || equals_text(&e, "ppt") || equals_text(&e, "pptx") {
        "document"
    } else {
        "text"
    }
}

/// The lower-case hexadecimal digit for `d`, when `d < 16`.
pub open spec fn hex_char(d: nat) -> char {
    if d < 10 {
        ((48 + d) as u8) as char
    } else {
        ((87 + d) as u8) as char
    }
}

/// The last `n` hexadecimal digits of `v`, most significant first, with
/// leading zeros.
pub open spec fn hex_digits(v: nat, n: nat) -> Seq<char>
    decreases n,
{
    if n == 0 {
        Seq::empty()
    } else {
        hex_digits(v / 16, (n - 1) as nat).push(hex_char(v % 16))
    }
}

fn hex_digits_exec(v: u64, n: usize) -> (r: Vec<char>)
    ensures
        r@ == hex_digits(v as nat, n as nat),
    decreases n,
{
    if n == 0 {
        Vec::new()
    } else {
        let mut r = hex_digits_exec(v / 16, n - 1);
        let d = v % 16;
        let c = if d < 10 {
            (48u8 + d as u8) as char
        } else {
            (87u8 + d as u8) as char
        };
        r.push(c);
        r
    }
}

/// The byte strings that hashing the text `s` writes into a hasher, as
/// `<str as Hash>::hash` writes them.
pub uninterp spec fn str_hash_writes(s: Seq<char>) -> Seq<Seq<u8>>;

/// Calls `<str as Hash>::hash` on a `DefaultHasher`. The contract claims that
/// the writes appended to the hasher depend on the text alone, and, as the
/// documentation of `Hash` on prefix collisions states of the standard
/// implementation for `str` (which ends its bytes with a `0xFF` byte), that
/// different texts write different sequences, so the writes determine the
/// whole text. Which bytes they are is left unstated.
#[verifier::external_body]
fn hash_text(s: &str, hasher: &mut DefaultHasher)
    ensures
        final(hasher)@ == old(hasher)@ + str_hash_writes(s@),
        forall|t: Seq<char>|
            old(hasher)@ + #[trigger] str_hash_writes(t) == final(hasher)@ ==> t == s@,
{
    std::hash::Hash::hash(s, hasher)
}

/// The identifier of the file at `path`: the `DefaultHasher` digest of the
/// path text, as sixteen lower-case hexadecimal digits.
pub open spec fn stable_id_of(path: Seq<char>) -> Seq<char> {
    hex_digits(DefaultHasher::spec_finish(str_hash_writes(path)) as nat, 16)
}

/// A stable identifier for the file at `path`. It is digested from writes
/// that determine the whole path: no other text is hashed with the same
/// writes.
pub fn stable_id(path: &str) -> (id: String)
    ensures
        id@ == stable_id_of(path@),
        forall|t: Seq<char>| #[trigger] str_hash_writes(t) == str_hash_writes(path@) ==> t == path@,
{
    let mut hasher = DefaultHasher::new();
    let ghost before = hasher@;
    hash_text(path, &mut hasher);
    assert(hasher@ =~= str_hash_writes(path@));
    assert forall|t: Seq<char>| #[trigger] str_hash_writes(t) == str_hash_writes(path@) implies t
        == path@ by {
        assert(before + str_hash_writes(t) =~= str_hash_writes(t));
    }
    let digest = hasher.finish();
    string_from_chars(&hex_digits_exec(digest, 16))
}

/// A file found by the search.
pub struct FileEntry {
    pub id: String,
    pub display_name: String,
    pub path: String,
    pub extension: String,
    pub size_bytes: u64,
    pub modified_at: Option<u128>,
    pub kind: String,
}

/// The extension reported for the file at `path`, as text: empty when
/// there is none.
pub open spec fn reported_extension(path: Seq<u8>) -> Seq<char> {
    match file_name_of(path) {
        Some(name) => match extension_of_name(name) {
            Some(e) => lossy_text(e),
            None => Seq::empty(),
        },
        None => Seq::empty(),
    }
}

/// The name reported for the file at `path`, as text: empty when there is
/// none.
pub open spec fn reported_name(path: Seq<u8>) -> Seq<char> {
    match file_name_of(path) {
        Some(name) => lossy_text(name),
        None => Seq::empty(),
    }
}

/// Whether `e` is the entry reported for the file at `path` with the given
/// size and modification time.
pub open spec fn is_entry_for(e: FileEntry, path: Seq<u8>, size_bytes: u64, modified_at: Option<
    u128,
>) -> bool {
    &&& e.id@ == stable_id_of(lossy_text(path))
    &&& e.display_name@ == reported_name(path)
    &&& e.path@ == lossy_text(path)
    &&& e.extension@ == reported_extension(path)
    &&& e.size_bytes == size_bytes
    &&& e.modified_at == modified_at
    &&& e.kind@ == kind_of_extension(reported_extension(path))
}

/// The name of the file at `path` as text, empty when it has none.
pub fn reported_file_name(path: &[u8]) -> (name: String)
    ensures
        name@ == reported_name(path@),
{
    match file_name(path) {
        Some(n) => text_of_bytes(n.as_slice()),
        None => String::new(),
    }
}

/// The entry for the file at `path`, given its size in bytes and its
/// modification time in milliseconds since the Unix epoch, where known.
/// Texts are the path's bytes decoded, with invalid sequences replaced.
pub fn file_entry(path: &[u8], size_bytes: u64, modified_at: Option<u128>) -> (e: FileEntry)
    ensures
        is_entry_for(e, path@, size_bytes, modified_at),
{
    let display_name = reported_file_name(path);
    let extension = match file_name(path) {
        Some(n) => match name_extension(n.as_slice()) {
            Some(e) => text_of_bytes(e.as_slice()),
            None => String::new(),
        },
        None => String::new(),
    };
    let kind = String::from_str(classify(extension.as_str()));
    let text = text_of_bytes(path);
    FileEntry {
        id: stable_id(text.as_str()),
        display_name,
        path: text,
        extension,
        size_bytes,
        modified_at,
        kind,
    }
}

/// Whether `x` and `y` are the same character, or the same ASCII letter
/// once in upper and once in lower case.
pub open spec fn ascii_case_pair(x: char, y: char) -> bool {
    ||| x == y
    ||| 'A' <= x <= 'Z' && y as u32 == x as u32 + 32
    ||| 'A' <= y <= 'Z' && x as u32 == y as u32 + 32
}

/// Whether `a` and `b` differ at most in the ASCII case of their letters.
pub open spec fn same_up_to_ascii_case(a: Seq<char>, b: Seq<char>) -> bool {
    &&& a.len() == b.len()
    &&& forall|i: int| 0 <= i < a.len() ==> ascii_case_pair(#[trigger] a[i], b[i])
}

proof fn lemma_lower_char_of_pair(x: char, y: char)
    requires
        ascii_case_pair(x, y),
    ensures
        ascii_lower_char(x) == ascii_lower_char(y),
{
    if 'A' <= x <= 'Z' && y as u32 == x as u32 + 32 {
        assert(((x as u32) + 32) as char == y);
    } else if 'A' <= y <= 'Z' && x as u32 == y as u32 + 32 {
        assert(((y as u32) + 32) as char == x);
    }
}

/// ASCII lowering keeps every character but ASCII upper-case letters, which
/// it puts in lower case: its result differs from its input in ASCII case
/// alone and holds no ASCII upper-case letter.
pub proof fn lemma_ascii_lower_lowers_every_ascii_letter(s: Seq<char>)
    ensures
        same_up_to_ascii_case(s, ascii_lower(s)),
        forall|i: int| 0 <= i < s.len() ==> !('A' <= #[trigger] ascii_lower(s)[i] <= 'Z'),
{
    assert forall|i: int| 0 <= i < s.len() implies ascii_case_pair(
        #[trigger] s[i],
        ascii_lower(s)[i],
    ) && !('A' <= ascii_lower(s)[i] <= 'Z') by {
        let c = s[i];
        if 'A' <= c <= 'Z' {
            assert(((c as u32) + 32) as char as u32 == c as u32 + 32);
        }
    }
}

/// The kind of a file does not depend on the ASCII case of its extension:
/// extensions that differ in ASCII case alone have the same kind, so
/// `TIFF`, `Tiff` and `tiff` are all images.
pub proof fn lemma_kind_ignores_ascii_case(a: Seq<char>, b: Seq<char>)
    requires
        same_up_to_ascii_case(a, b),
    ensures
        kind_of_extension(a) == kind_of_extension(b),
{
    assert forall|i: int| 0 <= i < a.len() implies #[trigger] ascii_lower(a)[i] == ascii_lower(
        b,
    )[i] by {
        lemma_lower_char_of_pair(a[i], b[i]);
    }
    assert(ascii_lower(a) =~= ascii_lower(b));
}

/// Classification ignores ASCII case: an extension is classified as its
/// lower-case form is.
pub proof fn lemma_classification_ignores_case(ext: Seq<char>)
    ensures
        kind_of_extension(ext) == kind_of_extension(ascii_lower(ext)),
        kind_of_extension(ext) == "image"@ || kind_of_extension(ext) == "audio"@
            || kind_of_extension(ext) == "document"@ || kind_of_extension(ext) == "text"@,
{
    assert(ascii_lower(ascii_lower(ext)) =~= ascii_lower(ext));
}

proof fn lemma_hex_digits_shape(v: nat, n: nat)
    ensures
        hex_digits(v, n).len() == n,
        forall|i: int|
            0 <= i < n ==> ('0' <= #[trigger] hex_digits(v, n)[i] <= '9' || 'a' <= hex_digits(
                v,
                n,
            )[i] <= 'f'),
    decreases n,
{
    if n > 0 {
        lemma_hex_digits_shape(v / 16, (n - 1) as nat);
        let d = v % 16;
        assert(d < 16);
        assert(('0' <= hex_char(d) <= '9' || 'a' <= hex_char(d) <= 'f'));
    }
}

/// Every identifier is sixteen lower-case hexadecimal digits.
pub proof fn lemma_stable_id_shape(path: Seq<char>)
    ensures
        stable_id_of(path).len() == 16,
        forall|i: int|
            0 <= i < 16 ==> ('0' <= #[trigger] stable_id_of(path)[i] <= '9' || 'a'
                <= stable_id_of(path)[i] <= 'f'),
{
    lemma_hex_digits_shape(DefaultHasher::spec_finish(str_hash_writes(path)) as nat, 16);
}

} // verus!
