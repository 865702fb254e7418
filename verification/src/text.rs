//! Character-level text operations used by the matcher, the path model and
//! the request checks: Unicode whitespace, word splitting, trimming, ASCII
//! case folding and substring search.
use vstd::prelude::*;
use vstd::utf8::{decode_utf8, encode_utf8, valid_utf8};

verus! {

/// The Unicode `White_Space` property, which is what `char::is_whitespace`
/// tests: U+0009..U+000D, U+0020, U+0085, U+00A0, U+1680, U+2000..U+200A,
/// U+2028, U+2029, U+202F, U+205F and U+3000.
pub open spec fn is_white(c: char) -> bool {
    ||| '\u{9}' <= c <= '\u{d}'
    ||| c == ' '
    ||| c == '\u{85}'
    ||| c == '\u{a0}'
    ||| c == '\u{1680}'
    ||| '\u{2000}' <= c <= '\u{200a}'
    ||| c == '\u{2028}'
    ||| c == '\u{2029}'
    ||| c == '\u{202f}'
    ||| c == '\u{205f}'
    ||| c == '\u{3000}'
}

/// Whether `c` is Unicode whitespace.
pub fn is_white_char(c: char) -> (r: bool)
    ensures
        r == is_white(c),
{
    ('\u{9}' <= c && c <= '\u{d}') || c == ' ' || c == '\u{85}' || c == '\u{a0}' || c
        == '\u{1680}' || ('\u{2000}' <= c && c <= '\u{200a}') || c == '\u{2028}' || c
        == '\u{2029}' || c == '\u{202f}' || c == '\u{205f}' || c == '\u{3000}'
}

/// The maximal runs of non-whitespace characters of `s`, in order.
pub open spec fn words(s: Seq<char>) -> Seq<Seq<char>>
    decreases s.len(),
{
    if s.len() == 0 {
        Seq::empty()
    } else {
        let prev = words(s.drop_last());
        let c = s.last();
        if is_white(c) {
            prev
        } else if s.len() >= 2 && !is_white(s[s.len() - 2]) {
            prev.update(prev.len() - 1, prev.last().push(c))
        } else {
            prev.push(seq![c])
        }
    }
}

/// `s` without its leading and trailing whitespace.
pub open spec fn trimmed(s: Seq<char>) -> Seq<char>
    decreases s.len(),
{
    if s.len() == 0 {
        s
    } else if is_white(s[0]) {
        trimmed(s.drop_first())
    } else if is_white(s.last()) {
        trimmed(s.drop_last())
    } else {
        s
    }
}

/// Whether every character of `s` is whitespace.
pub open spec fn all_white(s: Seq<char>) -> bool {
    forall|i: int| 0 <= i < s.len() ==> is_white(#[trigger] s[i])
}

/// ASCII upper-case letters mapped to lower case, every other character kept.
pub open spec fn ascii_lower_char(c: char) -> char {
    if 'A' <= c <= 'Z' {
        ((c as u32) + 32) as char
    } else {
        c
    }
}

/// `s` with each ASCII upper-case letter mapped to lower case.
pub open spec fn ascii_lower(s: Seq<char>) -> Seq<char> {
    s.map_values(|c: char| ascii_lower_char(c))
}

/// Whether `needle` occurs in `hay` as a contiguous run of characters.
pub open spec fn occurs_in(needle: Seq<char>, hay: Seq<char>) -> bool {
    exists|k: int|
        0 <= k && k + needle.len() <= hay.len() && #[trigger] hay.subrange(k, k + needle.len())
            =~= needle
}

/// The lower-case form of `s` that `str::to_lowercase` computes under the
/// Unicode case tables of the standard library.
pub uninterp spec fn unicode_lowercase(s: Seq<char>) -> Seq<char>;

/// Calls `str::to_lowercase`. The contract names its result
/// `unicode_lowercase` and claims only that it is a function of the text.
#[verifier::external_body]
pub(crate) fn to_lowercase(s: &str) -> (r: String)
    ensures
        r@ == unicode_lowercase(s@),
{
    s.to_lowercase()
}

/// Calls `String::from_iter` on the characters of `chars`; the result holds
/// exactly those characters, in order.
#[verifier::external_body]
pub(crate) fn string_from_chars(chars: &Vec<char>) -> (r: String)
    ensures
        r@ == chars@,
{
    String::from_iter(chars.iter())
}

/// The characters of `s`, in order.
pub fn chars_of(s: &str) -> (v: Vec<char>)
    ensures
        v@ == s@,
{
    let mut v: Vec<char> = Vec::new();
    for c in it: s.chars()
        invariant
            v@ == it.seq().take(it.index() as int),
    {
        v.push(c);
    }
    v
}

/// The views of a sequence of character vectors.
pub open spec fn char_vec_views(v: Seq<Vec<char>>) -> Seq<Seq<char>> {
    v.map_values(|w: Vec<char>| w@)
}

/// The views of a sequence of strings.
pub open spec fn string_views(v: Seq<String>) -> Seq<Seq<char>> {
    v.map_values(|s: String| s@)
}

/// Splits `s` into its whitespace-separated words, as `str::split_whitespace`
/// does.
pub fn split_words(s: &Vec<char>) -> (out: Vec<Vec<char>>)
    ensures
        char_vec_views(out@) == words(s@),
{
    let mut done: Vec<Vec<char>> = Vec::new();
    let mut cur: Vec<char> = Vec::new();
    let n = s.len();
    let mut i: usize = 0;
    while i < n
        invariant
            n == s@.len(),
            i <= n,
            cur@.len() > 0 <==> (i > 0 && !is_white(s@[i - 1])),
            words(s@.take(i as int)) == if cur@.len() > 0 {
                char_vec_views(done@).push(cur@)
            } else {
                char_vec_views(done@)
            },
        decreases n - i,
    {
        let c = s[i];
        assert(s@.take(i + 1).drop_last() =~= s@.take(i as int));
        assert(s@.take(i + 1).last() == c);
        if is_white_char(c) {
            if cur.len() > 0 {
                let w = cur;
                cur = Vec::new();
                done.push(w);
                assert(char_vec_views(done@) =~= words(s@.take(i as int)));
            }
        } else {
            let ghost before = char_vec_views(done@);
            cur.push(c);
            proof {
                if i > 0 && !is_white(s@[i - 1]) {
                    assert(s@.take(i + 1)[i - 1] == s@[i - 1]);
                    assert(before.push(cur@) =~= words(s@.take(i as int)).update(
                        words(s@.take(i as int)).len() - 1,
                        words(s@.take(i as int)).last().push(c),
                    ));
                } else {
                    assert(cur@ =~= seq![c]);
                }
            }
        }
        i = i + 1;
    }
    assert(s@.take(n as int) =~= s@);
    if cur.len() > 0 {
        done.push(cur);
        assert(char_vec_views(done@) =~= words(s@));
    }
    done
}

/// A text whose last character is not whitespace has at least one word.
proof fn lemma_words_nonempty_when_last_is_word_char(s: Seq<char>)
    requires
        s.len() > 0,
        !is_white(s.last()),
    ensures
        words(s).len() > 0,
    decreases s.len(),
{
    if s.len() >= 2 && !is_white(s[s.len() - 2]) {
        assert(s.drop_last().last() == s[s.len() - 2]);
        lemma_words_nonempty_when_last_is_word_char(s.drop_last());
    }
}

/// A nonempty text without whitespace is a single word, all of it: no
/// character of it, punctuation included, separates words.
pub proof fn lemma_words_of_unbroken_text(s: Seq<char>)
    requires
        s.len() > 0,
        forall|i: int| 0 <= i < s.len() ==> !is_white(#[trigger] s[i]),
    ensures
        words(s) == seq![s],
    decreases s.len(),
{
    if s.len() == 1 {
        assert(s.drop_last() =~= Seq::<char>::empty());
        assert(words(s.drop_last()) =~= Seq::<Seq<char>>::empty());
        assert(!is_white(s[0]));
        assert(seq![s.last()] =~= s);
        assert(words(s) == words(s.drop_last()).push(seq![s.last()]));
    } else {
        let p = s.drop_last();
        assert forall|i: int| 0 <= i < p.len() implies !is_white(#[trigger] p[i]) by {
            assert(p[i] == s[i]);
        }
        lemma_words_of_unbroken_text(p);
        assert(!is_white(s[s.len() - 2]));
        assert(p.push(s.last()) =~= s);
        assert(!is_white(s.last()));
        assert(words(s) == words(p).update(words(p).len() - 1, words(p).last().push(s.last())));
        assert(seq![p].update(0, p.push(s.last())) =~= seq![s]);
    }
}

/// A whitespace character splits the words: the words of `a`, a whitespace
/// character and `b` are the words of `a` followed by those of `b`.
pub proof fn lemma_words_split_at_white(a: Seq<char>, w: char, b: Seq<char>)
    requires
        is_white(w),
    ensures
        words(a + seq![w] + b) == words(a) + words(b),
    decreases b.len(),
{
    let front = a + seq![w];
    if b.len() == 0 {
        assert(a + seq![w] + b =~= front);
        assert(front.drop_last() =~= a);
        assert(words(b) =~= Seq::<Seq<char>>::empty());
        assert(words(a) + words(b) =~= words(a));
    } else {
        let b0 = b.drop_last();
        let c = b.last();
        let whole = front + b;
        lemma_words_split_at_white(a, w, b0);
        assert(whole.drop_last() =~= front + b0);
        assert(whole.last() == c);
        assert(a + seq![w] + b0 =~= front + b0);
        assert(a + seq![w] + b =~= whole);
        if is_white(c) {
        } else {
            let prev = words(front + b0);
            let wb = words(b0);
            if b0.len() > 0 && !is_white(b0.last()) {
                assert(whole[whole.len() - 2] == b0.last());
                assert(b[b.len() - 2] == b0.last());
                lemma_words_nonempty_when_last_is_word_char(b0);
                assert(words(b) == wb.update(wb.len() - 1, wb.last().push(c)));
                assert(prev.update(prev.len() - 1, prev.last().push(c)) =~= words(a) + wb.update(
                    wb.len() - 1,
                    wb.last().push(c),
                ));
            } else {
                if b0.len() > 0 {
                    assert(whole[whole.len() - 2] == b0.last());
                    assert(b[b.len() - 2] == b0.last());
                } else {
                    assert(whole[whole.len() - 2] == w);
                    assert(b0 =~= Seq::<char>::empty());
                }
                assert(words(b) == wb.push(seq![c]));
                assert(prev.push(seq![c]) =~= words(a) + wb.push(seq![c]));
            }
        }
    }
}

/// The empty text has no words.
pub proof fn lemma_words_of_empty()
    ensures
        words(Seq::<char>::empty()) == Seq::<Seq<char>>::empty(),
{
}

/// Whether `needle` occurs in `hay` starting at position `k`.
fn occurs_at(needle: &Vec<char>, hay: &Vec<char>, k: usize) -> (r: bool)
    requires
        k + needle@.len() <= hay@.len(),
    ensures
        r == (hay@.subrange(k as int, k + needle@.len()) =~= needle@),
{
    let m = needle.len();
    let n = hay.len();
    let mut j: usize = 0;
    while j < m
        invariant
            m == needle@.len(),
            n == hay@.len(),
            j <= m,
            k + m <= hay@.len(),
            forall|t: int| 0 <= t < j ==> hay@[k + t] == needle@[t],
        decreases m - j,
    {
        if hay[k + j] != needle[j] {
            assert(hay@.subrange(k as int, k + m)[j as int] != needle@[j as int]);
            return false;
        }
        j = j + 1;
    }
    true
}

/// Whether `needle` occurs in `hay`, as `str::contains` decides it.
pub fn contains_chars(needle: &Vec<char>, hay: &Vec<char>) -> (r: bool)
    ensures
        r == occurs_in(needle@, hay@),
{
    let m = needle.len();
    let n = hay.len();
    if m > n {
        return false;
    }
    let last = n - m;
    let mut k: usize = 0;
    while k <= last
        invariant
            m == needle@.len(),
            n == hay@.len(),
            last == n - m,
            forall|t: int|
                0 <= t < k ==> !(#[trigger] hay@.subrange(t, t + needle@.len()) =~= needle@),
        decreases last + 1 - k,
    {
        if occurs_at(needle, hay, k) {
            return true;
        }
        k = k + 1;
    }
    false
}

/// The UTF-8 length of a text, as `str::len` reports it.
pub open spec fn byte_len(s: Seq<char>) -> nat {
    encode_utf8(s).len()
}

/// Calls `str::len`, the length of `s` in bytes: the length of its UTF-8
/// encoding, which is held in memory and so fits a `usize`.
#[verifier::external_body]
pub(crate) fn utf8_len(s: &str) -> (n: usize)
    ensures
        n == byte_len(s@),
{
    s.len()
}

/// Whether every character of `s` is whitespace.
pub fn is_all_white(s: &str) -> (r: bool)
    ensures
        r == all_white(s@),
{
    let v = chars_of(s);
    let n = v.len();
    let mut i: usize = 0;
    while i < n
        invariant
            n == v@.len(),
            v@ == s@,
            i <= n,
            forall|j: int| 0 <= j < i ==> is_white(v@[j]),
        decreases n - i,
    {
        if !is_white_char(v[i]) {
            return false;
        }
        i = i + 1;
    }
    true
}

/// `s` without its leading and trailing whitespace, as `str::trim` gives it.
pub fn trim_text(s: &str) -> (r: String)
    ensures
        r@ == trimmed(s@),
{
    let v = chars_of(s);
    let n = v.len();
    let mut a: usize = 0;
    assert(s@.subrange(0, n as int) =~= s@);
    while a < n && is_white_char(v[a])
        invariant
            n == v@.len(),
            v@ == s@,
            a <= n,
            trimmed(s@) == trimmed(s@.subrange(a as int, n as int)),
        decreases n - a,
    {
        assert(s@.subrange(a as int, n as int).drop_first() =~= s@.subrange(a + 1, n as int));
        a = a + 1;
    }
    let mut b: usize = n;
    while b > a && is_white_char(v[b - 1])
        invariant
            n == v@.len(),
            v@ == s@,
            a <= b <= n,
            a < n ==> !is_white(s@[a as int]),
            trimmed(s@) == trimmed(s@.subrange(a as int, b as int)),
        decreases b - a,
    {
        let ghost x = s@.subrange(a as int, b as int);
        assert(x.drop_last() =~= s@.subrange(a as int, b - 1));
        proof {
            if b - 1 > a {
                assert(!is_white(x[0]));
            } else {
                assert(x.len() == 1);
            }
        }
        b = b - 1;
    }
    let ghost y = s@.subrange(a as int, b as int);
    proof {
        if y.len() > 0 {
            assert(!is_white(y[0]));
            assert(!is_white(y.last()));
        }
    }
    let mut out: Vec<char> = Vec::new();
    let mut i: usize = a;
    while i < b
        invariant
            n == v@.len(),
            v@ == s@,
            a <= i <= b <= n,
            out@ =~= s@.subrange(a as int, i as int),
        decreases b - i,
    {
        out.push(v[i]);
        i = i + 1;
    }
    string_from_chars(&out)
}

/// Whether two character vectors hold the same characters.
pub fn chars_equal(a: &Vec<char>, b: &Vec<char>) -> (r: bool)
    ensures
        r == (a@ == b@),
{
    if a.len() != b.len() {
        return false;
    }
    let n = a.len();
    let mut i: usize = 0;
    while i < n
        invariant
            n == a@.len(),
            n == b@.len(),
            i <= n,
            forall|j: int| 0 <= j < i ==> a@[j] == b@[j],
        decreases n - i,
    {
        if a[i] != b[i] {
            return false;
        }
        i = i + 1;
    }
    assert(a@ =~= b@);
    true
}

/// The text that `String::from_utf8_lossy` makes of `bytes`.
pub uninterp spec fn lossy_text(bytes: Seq<u8>) -> Seq<char>;

/// Calls `String::from_utf8_lossy`. The contract names its result
/// `lossy_text` and states what the documentation gives: bytes that are
/// valid UTF-8 are decoded as they stand. How invalid sequences are
/// replaced is left to the name.
#[verifier::external_body]
pub(crate) fn text_of_bytes(bytes: &[u8]) -> (r: String)
    ensures
        r@ == lossy_text(bytes@),
        valid_utf8(bytes@) ==> r@ == decode_utf8(bytes@),
{
    String::from_utf8_lossy(bytes).into_owned()
}

} // verus!
