//! Export of a result list as text: the size limits checked before anything
//! is written, and the text that is written.
use vstd::prelude::*;
use vstd::seq_lib::{to_multiset_build, to_multiset_contains, to_multiset_len, to_multiset_remove};
use vstd::utf8::{encode_utf8, is_ascii_chars, is_ascii_chars_encode_utf8};
use crate::text::{byte_len, string_views, utf8_len};

verus! {

/// The most lines one export may hold.
pub const MAX_EXPORT_LINES: usize = 250_000;

/// The most bytes one exported line may hold.
pub const MAX_EXPORT_LINE_BYTES: usize = 32_768;

/// The most bytes the exported lines may hold, one line break each included.
pub const MAX_EXPORT_TOTAL_BYTES: usize = 64 * 1024 * 1024;

/// The bytes that `lines` take in an export: each line and its line break.
pub open spec fn export_bytes(lines: Seq<Seq<char>>) -> nat
    decreases lines.len(),
{
    if lines.len() == 0 {
        0
    } else {
        export_bytes(lines.drop_last()) + byte_len(lines.last()) + 1
    }
}

/// Text of the error for too many lines.
pub open spec fn too_many_lines_message() -> Seq<char> {
    "Zu viele Zeilen für einen einzelnen Export."@
}

/// Text of the error for a line that is too large.
pub open spec fn line_too_large_message() -> Seq<char> {
    "Eine Exportzeile ist ungewöhnlich groß."@
}

/// Text of the error for a list that is too large as a whole.
pub open spec fn total_too_large_message() -> Seq<char> {
    "Die Trefferliste ist für einen einzelnen Export zu groß."@
}

/// The outcome of reading `lines` front to back, stopping at the first line
/// that is too large or that takes the running total over the limit.
pub open spec fn export_scan(lines: Seq<Seq<char>>) -> Result<nat, Seq<char>>
    decreases lines.len(),
{
    if lines.len() == 0 {
        Ok(0)
    } else {
        match export_scan(lines.drop_last()) {
            Err(e) => Err(e),
            Ok(total) => {
                let b = byte_len(lines.last());
                if b > MAX_EXPORT_LINE_BYTES {
                    Err(line_too_large_message())
                } else if total + b + 1 > MAX_EXPORT_TOTAL_BYTES {
                    Err(total_too_large_message())
                } else {
                    Ok(total + b + 1)
                }
            },
        }
    }
}

/// The outcome of checking a list for export: the bytes the lines take, or
/// the error that refuses the list.
pub open spec fn export_check(lines: Seq<Seq<char>>) -> Result<nat, Seq<char>> {
    if lines.len() > MAX_EXPORT_LINES {
        Err(too_many_lines_message())
    } else {
        export_scan(lines)
    }
}

/// A list whose first lines are refused is refused with the same error.
proof fn lemma_scan_error_persists(lines: Seq<Seq<char>>, k: int)
    requires
        0 <= k <= lines.len(),
        export_scan(lines.take(k)) is Err,
    ensures
        export_scan(lines) == export_scan(lines.take(k)),
    decreases lines.len() - k,
{
    if k == lines.len() {
        assert(lines.take(k) =~= lines);
    } else {
        let shorter = lines.drop_last();
        assert(shorter.take(k) =~= lines.take(k));
        lemma_scan_error_persists(shorter, k);
    }
}

/// The view of a checked size.
pub open spec fn size_result(r: Result<usize, String>) -> Result<nat, Seq<char>> {
    match r {
        Ok(n) => Ok(n as nat),
        Err(e) => Err(e@),
    }
}

/// Checks a list of lines against the export limits, before anything is
/// written, and returns the bytes that the lines and their line breaks take.
pub fn validate_export_lines(lines: &[String]) -> (r: Result<usize, String>)
    ensures
        size_result(r) == export_check(string_views(lines@)),
{
    let ghost views = string_views(lines@);
    if lines.len() > MAX_EXPORT_LINES {
        return Err(String::from_str("Zu viele Zeilen für einen einzelnen Export."));
    }
    let n = lines.len();
    let mut total_bytes: usize = 0;
    let mut i: usize = 0;
    while i < n
        invariant
            n == lines@.len(),
            n <= MAX_EXPORT_LINES,
            i <= n,
            views == string_views(lines@),
            total_bytes <= MAX_EXPORT_TOTAL_BYTES,
            export_scan(views.take(i as int)) == Ok::<nat, Seq<char>>(total_bytes as nat),
        decreases n - i,
    {
        let line = lines[i].as_str();
        let line_bytes = utf8_len(line);
        assert(line_bytes == byte_len(views[i as int]));
        let ghost prior = total_bytes;
        assert(views.take(i + 1).drop_last() =~= views.take(i as int));
        assert(views.take(i + 1).last() == lines@[i as int]@);
        if line_bytes > MAX_EXPORT_LINE_BYTES {
            proof {
                lemma_scan_error_persists(views, i + 1);
            }
            return Err(String::from_str("Eine Exportzeile ist ungewöhnlich groß."));
        }
        total_bytes = match total_bytes.checked_add(line_bytes.saturating_add(1)) {
            Some(t) => t,
            None => {
                return Err(String::from_str("Die Exportgröße ist zu groß."));
            },
        };
        assert(total_bytes == prior + line_bytes + 1);
        if total_bytes > MAX_EXPORT_TOTAL_BYTES {
            proof {
                lemma_scan_error_persists(views, i + 1);
            }
            return Err(String::from_str(
                "Die Trefferliste ist für einen einzelnen Export zu groß.",
            ));
        }
        i = i + 1;
    }
    assert(views.take(n as int) =~= views);
    Ok(total_bytes)
}

/// The first lines of every export.
pub open spec fn export_header() -> Seq<char> {
    "DateiFinder Trefferliste\n======================\n"@
}

/// The lines, each followed by a line break.
pub open spec fn joined_lines(lines: Seq<Seq<char>>) -> Seq<char>
    decreases lines.len(),
{
    if lines.len() == 0 {
        Seq::empty()
    } else {
        joined_lines(lines.drop_last()) + lines.last() + seq!['\n']
    }
}

/// The text of an export of `lines`.
pub open spec fn export_text_of(lines: Seq<Seq<char>>) -> Seq<char> {
    export_header() + joined_lines(lines)
}

/// The text written for an export of `lines`: the header, then each line
/// followed by a line break.
pub fn export_text(lines: &[String]) -> (text: String)
    ensures
        text@ == export_text_of(string_views(lines@)),
{
    let ghost views = string_views(lines@);
    let mut text = String::from_str("DateiFinder Trefferliste\n======================\n");
    let n = lines.len();
    let mut i: usize = 0;
    while i < n
        invariant
            n == lines@.len(),
            i <= n,
            views == string_views(lines@),
            text@ == export_header() + joined_lines(views.take(i as int)),
        decreases n - i,
    {
        let ghost before = text@;
        text.append(lines[i].as_str());
        text.append("\n");
        proof {
            reveal_strlit("\n");
            assert(views.take(i + 1).drop_last() =~= views.take(i as int));
            assert(views.take(i + 1).last() == lines@[i as int]@);
            assert(text@ =~= export_header() + joined_lines(views.take(i + 1)));
        }
        i = i + 1;
    }
    assert(views.take(n as int) =~= views);
    text
}

proof fn lemma_scan_characterized(lines: Seq<Seq<char>>)
    ensures
        export_scan(lines) is Ok <==> (forall|i: int|
            0 <= i < lines.len() ==> byte_len(#[trigger] lines[i]) <= MAX_EXPORT_LINE_BYTES)
            && export_bytes(lines) <= MAX_EXPORT_TOTAL_BYTES,
        export_scan(lines) is Ok ==> export_scan(lines)->Ok_0 == export_bytes(lines),
    decreases lines.len(),
{
    if lines.len() > 0 {
        let prefix = lines.drop_last();
        lemma_scan_characterized(prefix);
        assert forall|i: int| 0 <= i < prefix.len() implies prefix[i] == lines[i] by {}
        if (forall|i: int|
            0 <= i < lines.len() ==> byte_len(#[trigger] lines[i]) <= MAX_EXPORT_LINE_BYTES) {
            assert forall|i: int| 0 <= i < prefix.len() implies byte_len(#[trigger] prefix[i])
                <= MAX_EXPORT_LINE_BYTES by {
                assert(prefix[i] == lines[i]);
            }
            assert(byte_len(lines[lines.len() - 1]) <= MAX_EXPORT_LINE_BYTES);
        }
        if export_scan(lines) is Ok {
            assert forall|i: int| 0 <= i < lines.len() implies byte_len(#[trigger] lines[i])
                <= MAX_EXPORT_LINE_BYTES by {
                if i < prefix.len() {
                    assert(prefix[i] == lines[i]);
                }
            }
        }
    }
}

/// A list is accepted for export exactly when it has at most
/// `MAX_EXPORT_LINES` lines, no line over `MAX_EXPORT_LINE_BYTES` bytes, and
/// at most `MAX_EXPORT_TOTAL_BYTES` bytes with its line breaks; the size
/// returned is then those bytes.
pub proof fn lemma_export_limits(lines: Seq<Seq<char>>)
    ensures
        export_check(lines) is Ok <==> lines.len() <= MAX_EXPORT_LINES && (forall|i: int|
            0 <= i < lines.len() ==> byte_len(#[trigger] lines[i]) <= MAX_EXPORT_LINE_BYTES)
            && export_bytes(lines) <= MAX_EXPORT_TOTAL_BYTES,
        export_check(lines) is Ok ==> export_check(lines)->Ok_0 == export_bytes(lines),
{
    lemma_scan_characterized(lines);
}

proof fn lemma_encode_concat(a: Seq<char>, b: Seq<char>)
    ensures
        encode_utf8(a + b) == encode_utf8(a) + encode_utf8(b),
    decreases a.len(),
{
    if a.len() > 0 {
        assert((a + b).drop_first() =~= a.drop_first() + b);
        assert((a + b)[0] == a[0]);
        lemma_encode_concat(a.drop_first(), b);
        assert(encode_utf8(a + b) =~= encode_utf8(a) + encode_utf8(b));
    } else {
        assert(a + b =~= b);
        assert(encode_utf8(a) =~= Seq::<u8>::empty());
        assert(encode_utf8(a) + encode_utf8(b) =~= encode_utf8(b));
    }
}

proof fn lemma_joined_bytes(lines: Seq<Seq<char>>)
    ensures
        byte_len(joined_lines(lines)) == export_bytes(lines),
    decreases lines.len(),
{
    if lines.len() > 0 {
        lemma_joined_bytes(lines.drop_last());
        let front = joined_lines(lines.drop_last());
        lemma_encode_concat(front, lines.last());
        lemma_encode_concat(front + lines.last(), seq!['\n']);
        assert(is_ascii_chars(seq!['\n']));
        is_ascii_chars_encode_utf8(seq!['\n']);
    } else {
        assert(joined_lines(lines) =~= Seq::<char>::empty());
    }
}

/// The text written for an accepted list takes exactly the header's bytes
/// plus the size that the check returned, so that size is what the writer
/// has to reserve.
pub proof fn lemma_export_text_size(lines: Seq<Seq<char>>)
    requires
        export_check(lines) is Ok,
    ensures
        byte_len(export_text_of(lines)) == byte_len(export_header()) + export_check(lines)->Ok_0,
{
    lemma_export_limits(lines);
    lemma_joined_bytes(lines);
    lemma_encode_concat(export_header(), joined_lines(lines));
}

/// The bytes that two lists take one after the other are the bytes of the
/// first list plus those of the second.
pub proof fn lemma_export_bytes_additive(a: Seq<Seq<char>>, b: Seq<Seq<char>>)
    ensures
        export_bytes(a + b) == export_bytes(a) + export_bytes(b),
    decreases b.len(),
{
    if b.len() == 0 {
        assert(a + b =~= a);
    } else {
        lemma_export_bytes_additive(a, b.drop_last());
        assert((a + b).drop_last() =~= a + b.drop_last());
        assert((a + b).last() == b.last());
    }
}

/// The bytes of a single line and its line break.
proof fn lemma_export_bytes_single(x: Seq<char>)
    ensures
        export_bytes(seq![x]) == byte_len(x) + 1,
{
    let one = seq![x];
    assert(one.drop_last() =~= Seq::<Seq<char>>::empty());
    assert(export_bytes(one.drop_last()) == 0);
    assert(one.last() == x);
    assert(export_bytes(one) == export_bytes(one.drop_last()) + byte_len(one.last()) + 1);
}

/// The same lines in another order take the same bytes.
pub proof fn lemma_export_bytes_reorder(a: Seq<Seq<char>>, b: Seq<Seq<char>>)
    requires
        a.to_multiset() == b.to_multiset(),
    ensures
        export_bytes(a) == export_bytes(b),
    decreases a.len(),
{
    broadcast use vstd::multiset::group_multiset_axioms;

    to_multiset_len(a);
    to_multiset_len(b);
    if a.len() == 0 {
        assert(b.len() == 0);
        assert(a =~= b);
    } else {
        let x = a.last();
        let a0 = a.drop_last();
        assert(a =~= a0.push(x));
        to_multiset_build(a0, x);
        assert(a.contains(x)) by {
            assert(a[a.len() - 1] == x);
        }
        to_multiset_contains(a, x);
        to_multiset_contains(b, x);
        let j = choose|j: int| 0 <= j < b.len() && b[j] == x;
        to_multiset_remove(b, j);
        assert(a0.to_multiset() =~= a0.to_multiset().insert(x).remove(x));
        lemma_export_bytes_reorder(a0, b.remove(j));
        let front = b.take(j);
        let back = b.skip(j + 1);
        assert(b =~= front + seq![x] + back);
        assert(b.remove(j) =~= front + back);
        lemma_export_bytes_additive(front + seq![x], back);
        lemma_export_bytes_additive(front, seq![x]);
        lemma_export_bytes_additive(front, back);
        lemma_export_bytes_single(x);
    }
}

/// The line limit holds of every line of `lines`.
pub open spec fn lines_within_limit(lines: Seq<Seq<char>>) -> bool {
    forall|i: int| 0 <= i < lines.len() ==> byte_len(#[trigger] lines[i]) <= MAX_EXPORT_LINE_BYTES
}

/// The export check does not depend on the order of the lines: a list in
/// another order is accepted exactly when the list is, with the same size.
pub proof fn lemma_export_check_reorder(a: Seq<Seq<char>>, b: Seq<Seq<char>>)
    requires
        a.to_multiset() == b.to_multiset(),
    ensures
        export_check(a) is Ok <==> export_check(b) is Ok,
        export_check(a) is Ok ==> export_check(b) == export_check(a),
{
    lemma_export_limits(a);
    lemma_export_limits(b);
    lemma_export_bytes_reorder(a, b);
    to_multiset_len(a);
    to_multiset_len(b);
    if lines_within_limit(a) {
        lemma_limit_carries_over(a, b);
    }
    if lines_within_limit(b) {
        lemma_limit_carries_over(b, a);
    }
}

/// Every line of `b` is a line of `a` when both hold the same lines.
proof fn lemma_limit_carries_over(a: Seq<Seq<char>>, b: Seq<Seq<char>>)
    requires
        a.to_multiset() == b.to_multiset(),
        lines_within_limit(a),
    ensures
        lines_within_limit(b),
{
    assert forall|i: int| 0 <= i < b.len() implies byte_len(#[trigger] b[i])
        <= MAX_EXPORT_LINE_BYTES by {
        assert(b.contains(b[i]));
        to_multiset_contains(b, b[i]);
        to_multiset_contains(a, b[i]);
        let k = choose|k: int| 0 <= k < a.len() && a[k] == b[i];
        assert(byte_len(a[k]) <= MAX_EXPORT_LINE_BYTES);
    }
}

/// An accepted list cut in two gives two accepted lists whose sizes add up
/// to the size of the whole.
pub proof fn lemma_export_check_split(lines: Seq<Seq<char>>, k: int)
    requires
        export_check(lines) is Ok,
        0 <= k <= lines.len(),
    ensures
        export_check(lines.take(k)) == Ok::<nat, Seq<char>>(export_bytes(lines.take(k))),
        export_check(lines.skip(k)) == Ok::<nat, Seq<char>>(export_bytes(lines.skip(k))),
        export_bytes(lines.take(k)) + export_bytes(lines.skip(k)) == export_check(lines)->Ok_0,
{
    let front = lines.take(k);
    let back = lines.skip(k);
    lemma_export_limits(lines);
    lemma_export_limits(front);
    lemma_export_limits(back);
    assert(lines =~= front + back);
    lemma_export_bytes_additive(front, back);
    assert forall|i: int| 0 <= i < front.len() implies byte_len(#[trigger] front[i])
        <= MAX_EXPORT_LINE_BYTES by {
        assert(front[i] == lines[i]);
    }
    assert forall|i: int| 0 <= i < back.len() implies byte_len(#[trigger] back[i])
        <= MAX_EXPORT_LINE_BYTES by {
        assert(back[i] == lines[i + k]);
    }
}

} // verus!
