//! Character-level text operations: UTF-8 byte caps and short hashes.

use vstd::prelude::*;
use vstd::utf8::*;
use vstd::string::StringSliceAdditionalSpecFns;

verus! {

broadcast use {
    vstd::utf8::encode_utf8_valid_utf8,
    vstd::utf8::encode_utf8_decode_utf8,
};

/// Appends one character to `s` (std's `String::push`).
#[verifier::external_body]
pub(crate) fn push_char(s: &mut String, c: char)
    ensures
        final(s)@ == old(s)@.push(c),
{
    s.push(c);
}

/// Number of bytes in the UTF-8 encoding of `chars`.
pub open spec fn utf8_len(chars: Seq<char>) -> nat {
    encode_utf8(chars).len()
}

/// `prefix` is the longest prefix of `chars` whose UTF-8 encoding fits in
/// `max` bytes.
pub open spec fn is_longest_fitting_prefix(chars: Seq<char>, max: nat, prefix: Seq<char>) -> bool {
    &&& prefix.len() <= chars.len()
    &&& prefix == chars.take(prefix.len() as int)
    &&& utf8_len(prefix) <= max
    &&& prefix.len() < chars.len() ==> utf8_len(chars.take(prefix.len() + 1int)) > max
}

/// The UTF-8 encoding of a concatenation is the concatenation of encodings.
pub proof fn lemma_encode_utf8_concat(a: Seq<char>, b: Seq<char>)
    ensures
        encode_utf8(a + b) == encode_utf8(a) + encode_utf8(b),
    decreases a.len(),
{
    if a.len() == 0 {
        assert(a + b =~= b);
        assert(encode_utf8(a) + encode_utf8(b) =~= encode_utf8(b));
    } else {
        assert((a + b).drop_first() =~= a.drop_first() + b);
        lemma_encode_utf8_concat(a.drop_first(), b);
        assert((a + b)[0] == a[0]);
        assert(encode_utf8(a + b) =~= encode_utf8(a) + encode_utf8(b));
    }
}

/// Every character encodes to at least one byte.
pub proof fn lemma_encode_utf8_single(c: char)
    ensures
        encode_utf8(seq![c]) == encode_scalar(c as u32),
        encode_utf8(seq![c]).len() >= 1,
{
    assert(seq![c].drop_first() =~= Seq::<char>::empty());
    assert(encode_utf8(Seq::<char>::empty()) =~= Seq::<u8>::empty());
    assert(encode_utf8(seq![c]) == encode_scalar(c as u32) + encode_utf8(seq![c].drop_first()));
    assert(encode_scalar(c as u32) + Seq::<u8>::empty() =~= encode_scalar(c as u32));
}

/// The end of the encoding of any character prefix is a character boundary
/// of the whole encoding.
pub proof fn lemma_encode_prefix_is_boundary(chars: Seq<char>, j: int)
    requires
        0 <= j <= chars.len(),
    ensures
        encode_utf8(chars.take(j)).len() <= encode_utf8(chars).len(),
        is_char_boundary(encode_utf8(chars), encode_utf8(chars.take(j)).len() as int),
    decreases chars.len(),
{
    let bytes = encode_utf8(chars);
    lemma_encode_utf8_concat(chars.take(j), chars.skip(j));
    assert(chars.take(j) + chars.skip(j) =~= chars);
    if j == 0 {
        assert(chars.take(0) =~= Seq::<char>::empty());
    } else {
        let rest = chars.drop_first();
        encode_utf8_first_scalar(chars);
        assert(pop_first_scalar(bytes) =~= encode_utf8(rest));
        assert(chars.take(j).drop_first() =~= rest.take(j - 1));
        assert(chars.take(j)[0] == chars[0]);
        lemma_encode_prefix_is_boundary(rest, j - 1);
        lemma_encode_utf8_single(chars[0]);
    }
}

/// Largest valid-UTF-8 prefix of `s` that fits in `max` bytes.
pub fn truncate_utf8(s: &str, max: usize) -> (res: String)
    ensures
        is_longest_fitting_prefix(s@, max as nat, res@),
{
    let ghost bytes = s.spec_bytes();
    let byte_len = s.as_bytes().len();
    if byte_len <= max {
        let res = String::from_str(s);
        assert(s@.take(s@.len() as int) =~= s@);
        assert(res@ == s@);
        assert(utf8_len(res@) == bytes.len());
        return res;
    }
    let mut end = max;
    while end > 0 && !s.is_char_boundary(end)
        invariant
            end <= max,
            max < bytes.len(),
            bytes == s.spec_bytes(),
            bytes == encode_utf8(s@),
            forall|i: int| end < i <= max ==> !is_char_boundary(bytes, i),
        decreases end,
    {
        end -= 1;
    }
    assert(is_char_boundary(bytes, end as int)) by {
        if end == 0 {
            is_char_boundary_start_end_of_seq(bytes);
        }
    }
    let (head, _) = s.split_at(end);
    let res = String::from_str(head);
    proof {
        let k = res@.len() as int;
        decode_utf8_split(bytes, end as int);
        assert(decode_utf8(bytes.subrange(0, end as int)) == res@);
        assert(s@ =~= res@ + decode_utf8(bytes.subrange(end as int, bytes.len() as int)));
        assert(res@ =~= s@.take(k));
        if k < s@.len() {
            lemma_encode_prefix_is_boundary(s@, k + 1);
            assert(s@.take(k + 1) =~= s@.take(k) + seq![s@[k]]);
            lemma_encode_utf8_concat(s@.take(k), seq![s@[k]]);
            lemma_encode_utf8_single(s@[k]);
        }
    }
    res
}

/// The abbreviated form of a commit hash: its first seven characters.
pub open spec fn short_hash_of(hash: Seq<char>) -> Seq<char> {
    if hash.len() <= 7 {
        hash
    } else {
        hash.take(7)
    }
}

/// First seven characters of `hash` (all of it when shorter).
pub fn short_hash(hash: &str) -> (res: String)
    ensures
        res@ == short_hash_of(hash@),
{
    let n = hash.unicode_len();
    let k = if n < 7 { n } else { 7 };
    let res = String::from_str(hash.substring_char(0, k));
    assert(hash@.subrange(0, n as int) =~= hash@);
    res
}


/// Unicode `White_Space` property, as `char::is_whitespace` reports it.
pub open spec fn is_whitespace_char(c: char) -> bool {
    ||| ('\u{9}' <= c && c <= '\u{d}')
    ||| c == ' '
    ||| c == '\u{85}'
    ||| c == '\u{a0}'
    ||| c == '\u{1680}'
    ||| ('\u{2000}' <= c && c <= '\u{200a}')
    ||| c == '\u{2028}'
    ||| c == '\u{2029}'
    ||| c == '\u{202f}'
    ||| c == '\u{205f}'
    ||| c == '\u{3000}'
}

/// Whether `c` is Unicode white space.
pub fn is_whitespace(c: char) -> (res: bool)
    ensures
        res == is_whitespace_char(c),
{
    ('\u{9}' <= c && c <= '\u{d}') || c == ' ' || c == '\u{85}' || c == '\u{a0}' || c == '\u{1680}'
        || ('\u{2000}' <= c && c <= '\u{200a}') || c == '\u{2028}' || c == '\u{2029}'
        || c == '\u{202f}' || c == '\u{205f}' || c == '\u{3000}'
}

/// `s` holds nothing but white space (what `s.trim().is_empty()` tests).
pub open spec fn is_blank_text(s: Seq<char>) -> bool {
    forall|i: int| 0 <= i < s.len() ==> is_whitespace_char(#[trigger] s[i])
}

/// Whether `s` is empty once surrounding white space is trimmed.
pub fn is_blank(s: &str) -> (res: bool)
    ensures
        res == is_blank_text(s@),
{
    broadcast use vstd::string::group_string_axioms;
    for c in it: s.chars()
        invariant
            it.seq() == s@,
            forall|i: int| 0 <= i < it.index() ==> is_whitespace_char(#[trigger] s@[i]),
    {
        if !is_whitespace(c) {
            return false;
        }
    }
    true
}


/// `s` with every leading copy of `prefix` removed (`trim_start_matches`).
pub open spec fn strip_prefix_repeatedly(s: Seq<char>, prefix: Seq<char>) -> Seq<char>
    decreases s.len(),
{
    if prefix.len() > 0 && prefix.len() <= s.len() && s.take(prefix.len() as int) == prefix {
        strip_prefix_repeatedly(s.skip(prefix.len() as int), prefix)
    } else {
        s
    }
}

/// `s` with every trailing `c` removed (`trim_end_matches`).
pub open spec fn strip_suffix_repeatedly(s: Seq<char>, c: char) -> Seq<char>
    decreases s.len(),
{
    if s.len() > 0 && s.last() == c {
        strip_suffix_repeatedly(s.drop_last(), c)
    } else {
        s
    }
}

/// Whether the characters of `s` starting at `start` spell `prefix`.
fn matches_at(s: &str, n: usize, start: usize, prefix: &str, m: usize) -> (res: bool)
    requires
        n == s@.len(),
        m == prefix@.len(),
        start <= n,
    ensures
        res == (start + m <= n && s@.subrange(start as int, start + m) == prefix@),
{
    if m > n - start {
        return false;
    }
    let mut k: usize = 0;
    while k < m
        invariant
            k <= m,
            start + m <= n,
            n == s@.len(),
            m == prefix@.len(),
            forall|t: int| 0 <= t < k ==> s@[start + t] == prefix@[t],
        decreases m - k,
    {
        if s.get_char(start + k) != prefix.get_char(k) {
            assert(s@.subrange(start as int, start + m)[k as int] != prefix@[k as int]);
            return false;
        }
        k += 1;
    }
    assert(s@.subrange(start as int, start + m) =~= prefix@);
    true
}

/// `s` with every leading copy of `prefix` removed.
pub fn trim_start_matches(s: &str, prefix: &str) -> (res: String)
    ensures
        res@ == strip_prefix_repeatedly(s@, prefix@),
{
    let n = s.unicode_len();
    let m = prefix.unicode_len();
    let mut start: usize = 0;
    assert(s@.skip(0) =~= s@);
    if m > 0 {
        while matches_at(s, n, start, prefix, m)
            invariant
                start <= n,
                n == s@.len(),
                m == prefix@.len(),
                m > 0,
                strip_prefix_repeatedly(s@.skip(start as int), prefix@) == strip_prefix_repeatedly(s@, prefix@),
            decreases n - start,
        {
            proof {
                let rest = s@.skip(start as int);
                assert(rest.take(m as int) =~= s@.subrange(start as int, start + m));
                assert(rest.skip(m as int) =~= s@.skip(start + m));
            }
            start = start + m;
        }
    }
    proof {
        let rest = s@.skip(start as int);
        if m > 0 && m <= rest.len() {
            assert(rest.take(m as int) =~= s@.subrange(start as int, start + m));
        }
        assert(s@.skip(0) =~= s@);
    }
    let res = String::from_str(s.substring_char(start, n));
    assert(res@ =~= s@.skip(start as int));
    res
}

/// `s` with every trailing `c` removed.
pub fn trim_end_matches(s: &str, c: char) -> (res: String)
    ensures
        res@ == strip_suffix_repeatedly(s@, c),
{
    let n = s.unicode_len();
    let mut end = n;
    assert(s@.take(n as int) =~= s@);
    while end > 0 && s.get_char(end - 1) == c
        invariant
            end <= n,
            n == s@.len(),
            strip_suffix_repeatedly(s@.take(end as int), c) == strip_suffix_repeatedly(s@, c),
        decreases end,
    {
        assert(s@.take(end as int).drop_last() =~= s@.take(end - 1));
        end -= 1;
    }
    assert(s@.take(n as int) =~= s@);
    let res = String::from_str(s.substring_char(0, end));
    assert(res@ =~= s@.take(end as int));
    res
}


/// Lexicographic order on byte sequences: `a` is a prefix of `b`, or at the
/// first position where they differ `a` holds the smaller byte.
pub open spec fn bytes_le(a: Seq<u8>, b: Seq<u8>) -> bool {
    ||| (a.len() <= b.len() && a == b.take(a.len() as int))
    ||| exists|i: int| 0 <= i < a.len() && i < b.len() && a.take(i) == b.take(i) && a[i] < b[i]
}

/// The order of `str` values: lexicographic on their UTF-8 bytes.
pub open spec fn text_le(a: Seq<char>, b: Seq<char>) -> bool {
    bytes_le(encode_utf8(a), encode_utf8(b))
}

/// Whether `a <= b` in the byte-wise order of strings.
pub fn str_le(a: &str, b: &str) -> (res: bool)
    ensures
        res == text_le(a@, b@),
{
    let x = a.as_bytes();
    let y = b.as_bytes();
    let mut i: usize = 0;
    while i < x.len() && i < y.len()
        invariant
            x@ == encode_utf8(a@),
            y@ == encode_utf8(b@),
            i <= x@.len(),
            i <= y@.len(),
            forall|k: int| 0 <= k < i ==> x@[k] == y@[k],
        decreases x@.len() - i,
    {
        if x[i] != y[i] {
            let r = x[i] < y[i];
            proof {
                let (p, q) = (x@, y@);
                assert(p.take(i as int) =~= q.take(i as int));
                if r {
                    assert(0 <= i < p.len() && i < q.len() && p.take(i as int) == q.take(i as int)
                        && p[i as int] < q[i as int]);
                    assert(bytes_le(p, q));
                } else {
                    assert(!(p.len() <= q.len() && p == q.take(p.len() as int))) by {
                        if p.len() <= q.len() && p == q.take(p.len() as int) {
                            assert(p[i as int] == q.take(p.len() as int)[i as int]);
                        }
                    }
                    assert forall|j: int| !(0 <= j < p.len() && j < q.len() && p.take(j) == q.take(j) && p[j] < q[j]) by {
                        if 0 <= j < p.len() && j < q.len() && p.take(j) == q.take(j) && p[j] < q[j] {
                            if j > i {
                                assert(p.take(j)[i as int] == q.take(j)[i as int]);
                            }
                        }
                    }
                    assert(!bytes_le(p, q));
                }
            }
            return r;
        }
        i += 1;
    }
    proof {
        let (p, q) = (x@, y@);
        if p.len() <= q.len() {
            assert(p =~= q.take(p.len() as int));
        } else {
            assert forall|j: int| !(0 <= j < p.len() && j < q.len() && p.take(j) == q.take(j) && p[j] < q[j]) by {}
        }
    }
    x.len() <= y.len()
}

/// Line terminator handling of `str::lines`: a `'\r'` right before the
/// `'\n'` belongs to the terminator.
pub open spec fn strip_carriage_return(line: Seq<char>) -> Seq<char> {
    if line.len() > 0 && line.last() == '\r' {
        line.drop_last()
    } else {
        line
    }
}

/// Lines of `cur + s`, where `cur` is the part of the current line read so
/// far: each `'\n'` ends a line, and text after the last `'\n'` is a final
/// line unless it is empty.
pub open spec fn lines_from(s: Seq<char>, cur: Seq<char>) -> Seq<Seq<char>>
    decreases s.len(),
{
    if s.len() == 0 {
        if cur.len() == 0 {
            seq![]
        } else {
            seq![cur]
        }
    } else if s[0] == '\n' {
        seq![strip_carriage_return(cur)] + lines_from(s.drop_first(), seq![])
    } else {
        lines_from(s.drop_first(), cur.push(s[0]))
    }
}

/// The lines of `s`, as `str::lines` yields them.
pub open spec fn lines_of(s: Seq<char>) -> Seq<Seq<char>> {
    lines_from(s, seq![])
}

/// Four spaces of indentation.
pub open spec fn indent() -> Seq<char> {
    seq![' ', ' ', ' ', ' ']
}

/// Each line indented by four spaces and ended by `'\n'`, all joined.
pub open spec fn indent_lines(lines: Seq<Seq<char>>) -> Seq<char>
    decreases lines.len(),
{
    if lines.len() == 0 {
        seq![]
    } else {
        indent() + lines[0] + seq!['\n'] + indent_lines(lines.drop_first())
    }
}

/// Appends `    <line>\n` to `out`.
fn push_indented(out: &mut String, line: &str)
    ensures
        final(out)@ == old(out)@ + indent() + line@ + seq!['\n'],
{
    push_char(out, ' ');
    push_char(out, ' ');
    push_char(out, ' ');
    push_char(out, ' ');
    out.append(line);
    push_char(out, '\n');
    assert(final(out)@ =~= old(out)@ + indent() + line@ + seq!['\n']);
}

/// `line` without a trailing `'\r'`.
fn without_carriage_return(line: &str) -> (res: String)
    ensures
        res@ == strip_carriage_return(line@),
{
    let n = line.unicode_len();
    if n > 0 && line.get_char(n - 1) == '\r' {
        let res = String::from_str(line.substring_char(0, n - 1));
        assert(res@ =~= line@.drop_last());
        res
    } else {
        String::from_str(line)
    }
}

/// Appends every line of `text` to `out`, each indented by four spaces and
/// ended by a newline.
pub fn append_indented_lines(out: &mut String, text: &str)
    ensures
        final(out)@ == old(out)@ + indent_lines(lines_of(text@)),
{
    broadcast use vstd::string::group_string_axioms;
    let mut cur = String::new();
    let ghost start = out@;
    assert(text@.skip(0) =~= text@);
    assert(cur@ =~= seq![]);
    for c in it: text.chars()
        invariant
            it.seq() == text@,
            out@ + indent_lines(lines_from(text@.skip(it.index() as int), cur@))
                == start + indent_lines(lines_of(text@)),
    {
        let ghost rest = text@.skip(it.index() as int);
        assert(rest[0] == c);
        assert(rest.drop_first() =~= text@.skip(it.index() + 1));
        if c == '\n' {
            let line = without_carriage_return(cur.as_str());
            proof {
                let ls = lines_from(rest, cur@);
                let tail = lines_from(rest.drop_first(), seq![]);
                assert(ls == seq![line@] + tail);
                assert((seq![line@] + tail).drop_first() =~= tail);
                assert(indent_lines(ls) == indent() + line@ + seq!['\n'] + indent_lines(tail));
            }
            push_indented(out, line.as_str());
            cur = String::new();
            proof {
                assert(out@ + indent_lines(lines_from(rest.drop_first(), cur@)) =~= start + indent_lines(lines_of(text@)));
            }
        } else {
            push_char(&mut cur, c);
        }
    }
    proof {
        assert(text@.skip(text@.len() as int) =~= Seq::<char>::empty());
    }
    if cur.as_str().unicode_len() > 0 {
        proof {
            let ls = seq![cur@];
            assert(ls.drop_first() =~= Seq::<Seq<char>>::empty());
            assert(indent_lines(ls) == indent() + cur@ + seq!['\n'] + indent_lines(ls.drop_first()));
        }
        push_indented(out, cur.as_str());
        assert(out@ =~= start + indent_lines(lines_of(text@)));
    }
}


/// Any two byte sequences are ordered one way or the other.
pub proof fn lemma_bytes_le_total(a: Seq<u8>, b: Seq<u8>)
    ensures
        bytes_le(a, b) || bytes_le(b, a),
    decreases a.len(),
{
    if a.len() == 0 {
        assert(a =~= b.take(0));
    } else if b.len() == 0 {
        assert(b =~= a.take(0));
    } else if a[0] != b[0] {
        assert(a.take(0) =~= b.take(0));
        if a[0] < b[0] {
            assert(0 <= 0 < a.len() && 0 < b.len() && a.take(0) == b.take(0) && a[0] < b[0]);
        } else {
            assert(0 <= 0 < b.len() && 0 < a.len() && b.take(0) == a.take(0) && b[0] < a[0]);
        }
    } else {
        let (a1, b1) = (a.drop_first(), b.drop_first());
        lemma_bytes_le_total(a1, b1);
        lemma_bytes_le_cons(a, b);
        lemma_bytes_le_cons(b, a);
    }
}

/// Two sequences with the same first byte compare as their tails do.
proof fn lemma_bytes_le_cons(a: Seq<u8>, b: Seq<u8>)
    requires
        a.len() > 0,
        b.len() > 0,
        a[0] == b[0],
    ensures
        bytes_le(a.drop_first(), b.drop_first()) ==> bytes_le(a, b),
{
    let (a1, b1) = (a.drop_first(), b.drop_first());
    if bytes_le(a1, b1) {
        if a1.len() <= b1.len() && a1 == b1.take(a1.len() as int) {
            assert forall|k: int| 0 <= k < a.len() implies #[trigger] a[k] == b.take(a.len() as int)[k] by {
                if k > 0 {
                    assert(a[k] == a1[k - 1]);
                    assert(a1[k - 1] == b1.take(a1.len() as int)[k - 1]);
                }
            }
            assert(a =~= b.take(a.len() as int));
        } else {
            let i = choose|i: int| 0 <= i < a1.len() && i < b1.len() && a1.take(i) == b1.take(i) && a1[i] < b1[i];
            assert(a.take(i + 1) =~= b.take(i + 1)) by {
                assert forall|k: int| 0 <= k < i + 1 implies #[trigger] a.take(i + 1)[k] == b.take(i + 1)[k] by {
                    if k > 0 {
                        assert(a1.take(i)[k - 1] == b1.take(i)[k - 1]);
                    }
                }
            }
            assert(0 <= i + 1 < a.len() && i + 1 < b.len() && a.take(i + 1) == b.take(i + 1) && a[i + 1] < b[i + 1]);
        }
    }
}

/// Any two strings are ordered one way or the other.
pub proof fn lemma_text_le_total(a: Seq<char>, b: Seq<char>)
    ensures
        text_le(a, b) || text_le(b, a),
{
    lemma_bytes_le_total(encode_utf8(a), encode_utf8(b));
}


/// Every string is ordered before or equal to itself.
pub proof fn lemma_text_le_reflexive(a: Seq<char>)
    ensures
        text_le(a, a),
{
    let e = encode_utf8(a);
    assert(e =~= e.take(e.len() as int));
}

/// A capped text is the encoding-level prefix of the original: its bytes are
/// the original's first bytes, ending on a character boundary.
pub proof fn lemma_capped_bytes_are_prefix(text: Seq<char>, max: nat, capped: Seq<char>)
    requires
        is_longest_fitting_prefix(text, max, capped),
    ensures
        encode_utf8(capped) == encode_utf8(text).take(utf8_len(capped) as int),
        is_char_boundary(encode_utf8(text), utf8_len(capped) as int),
{
    let k = capped.len() as int;
    lemma_encode_prefix_is_boundary(text, k);
    lemma_encode_utf8_concat(text.take(k), text.skip(k));
    assert(text.take(k) + text.skip(k) =~= text);
    assert(encode_utf8(capped) =~= encode_utf8(text).take(utf8_len(capped) as int));
}


/// The order of byte sequences, one byte at a time.
proof fn lemma_bytes_le_unfold(a: Seq<u8>, b: Seq<u8>)
    ensures
        bytes_le(a, b) == (a.len() == 0 || (b.len() > 0 && (a[0] < b[0] || (a[0] == b[0]
            && bytes_le(a.drop_first(), b.drop_first()))))),
{
    if a.len() == 0 {
        assert(a =~= b.take(0));
    } else if b.len() > 0 {
        let (a1, b1) = (a.drop_first(), b.drop_first());
        if a[0] < b[0] {
            assert(a.take(0) =~= b.take(0));
            assert(0 <= 0 < a.len() && 0 < b.len() && a.take(0) == b.take(0) && a[0] < b[0]);
        } else if a[0] == b[0] {
            lemma_bytes_le_cons(a, b);
            if bytes_le(a, b) {
                if a.len() <= b.len() && a == b.take(a.len() as int) {
                    assert(a1 =~= b1.take(a1.len() as int));
                } else {
                    let i = choose|i: int| 0 <= i < a.len() && i < b.len() && a.take(i) == b.take(i) && a[i] < b[i];
                    assert(i != 0);
                    assert(a1.take(i - 1) =~= b1.take(i - 1)) by {
                        assert forall|k: int| 0 <= k < i - 1 implies #[trigger] a1.take(i - 1)[k] == b1.take(i - 1)[k] by {
                            assert(a.take(i)[k + 1] == b.take(i)[k + 1]);
                        }
                    }
                    assert(0 <= i - 1 < a1.len() && i - 1 < b1.len() && a1.take(i - 1) == b1.take(i - 1) && a1[i - 1] < b1[i - 1]);
                }
            }
        } else {
            if bytes_le(a, b) {
                if a.len() <= b.len() && a == b.take(a.len() as int) {
                    assert(a[0] == b.take(a.len() as int)[0]);
                } else {
                    let i = choose|i: int| 0 <= i < a.len() && i < b.len() && a.take(i) == b.take(i) && a[i] < b[i];
                    if i > 0 {
                        assert(a.take(i)[0] == b.take(i)[0]);
                    }
                }
            }
        }
    } else {
        if bytes_le(a, b) {
            if !(a.len() <= b.len() && a == b.take(a.len() as int)) {
                let i = choose|i: int| 0 <= i < a.len() && i < b.len() && a.take(i) == b.take(i) && a[i] < b[i];
            }
        }
    }
}

/// The byte order is transitive.
pub proof fn lemma_bytes_le_transitive(a: Seq<u8>, b: Seq<u8>, c: Seq<u8>)
    requires
        bytes_le(a, b),
        bytes_le(b, c),
    ensures
        bytes_le(a, c),
    decreases a.len(),
{
    lemma_bytes_le_unfold(a, b);
    lemma_bytes_le_unfold(b, c);
    lemma_bytes_le_unfold(a, c);
    if a.len() > 0 && a[0] == b[0] && b[0] == c[0] {
        lemma_bytes_le_transitive(a.drop_first(), b.drop_first(), c.drop_first());
    }
}

/// Byte sequences ordered both ways are equal.
pub proof fn lemma_bytes_le_antisymmetric(a: Seq<u8>, b: Seq<u8>)
    requires
        bytes_le(a, b),
        bytes_le(b, a),
    ensures
        a == b,
    decreases a.len(),
{
    lemma_bytes_le_unfold(a, b);
    lemma_bytes_le_unfold(b, a);
    if a.len() > 0 {
        lemma_bytes_le_antisymmetric(a.drop_first(), b.drop_first());
        assert(a =~= seq![a[0]] + a.drop_first());
        assert(b =~= seq![b[0]] + b.drop_first());
    } else {
        assert(a =~= b);
    }
}

/// The order of strings is transitive.
pub proof fn lemma_text_le_transitive(a: Seq<char>, b: Seq<char>, c: Seq<char>)
    requires
        text_le(a, b),
        text_le(b, c),
    ensures
        text_le(a, c),
{
    lemma_bytes_le_transitive(encode_utf8(a), encode_utf8(b), encode_utf8(c));
}

/// Strings ordered both ways are equal.
pub proof fn lemma_text_le_antisymmetric(a: Seq<char>, b: Seq<char>)
    requires
        text_le(a, b),
        text_le(b, a),
    ensures
        a == b,
{
    lemma_bytes_le_antisymmetric(encode_utf8(a), encode_utf8(b));
    assert(decode_utf8(encode_utf8(a)) == a);
    assert(decode_utf8(encode_utf8(b)) == b);
}


proof fn lemma_lines_from_plain(l: Seq<char>, t: Seq<char>, cur: Seq<char>)
    requires
        !l.contains('\n'),
    ensures
        lines_from(l + t, cur) == lines_from(t, cur + l),
    decreases l.len(),
{
    if l.len() == 0 {
        assert(l + t =~= t);
        assert(cur + l =~= cur);
    } else {
        assert(l[0] != '\n');
        assert((l + t)[0] == l[0]);
        assert((l + t).drop_first() =~= l.drop_first() + t);
        assert(!l.drop_first().contains('\n')) by {
            if l.drop_first().contains('\n') {
                let k = choose|k: int| 0 <= k < l.drop_first().len() && l.drop_first()[k] == '\n';
                assert(l[k + 1] == '\n');
            }
        }
        lemma_lines_from_plain(l.drop_first(), t, cur.push(l[0]));
        assert(cur.push(l[0]) + l.drop_first() =~= cur + l);
    }
}

/// The lines of a message, as `str::lines` yields them: an empty message has
/// none; text without a newline is one line, kept whole; and text up to the
/// first newline is the first line, with one carriage return right before
/// that newline removed and nothing else, followed by the lines of the rest.
pub proof fn lemma_lines_of_splits_at_newlines(l: Seq<char>, rest: Seq<char>)
    requires
        !l.contains('\n'),
    ensures
        lines_of(Seq::<char>::empty()) == Seq::<Seq<char>>::empty(),
        l.len() > 0 ==> lines_of(l) == seq![l],
        lines_of(l + seq!['\n'] + rest) == seq![
            if l.len() > 0 && l[l.len() - 1] == '\r' {
                l.subrange(0, l.len() - 1)
            } else {
                l
            },
        ] + lines_of(rest),
{
    let e = Seq::<char>::empty();
    lemma_lines_from_plain(l, e, seq![]);
    assert(l + e =~= l);
    assert(seq![] + l =~= l);
    lemma_lines_from_plain(l, seq!['\n'] + rest, seq![]);
    assert(l + seq!['\n'] + rest =~= l + (seq!['\n'] + rest));
    assert((seq!['\n'] + rest).drop_first() =~= rest);
    if l.len() > 0 && l[l.len() - 1] == '\r' {
        assert(l.drop_last() =~= l.subrange(0, l.len() - 1));
    }
}

/// Indenting lines works line by line, in order: no lines give nothing,
/// one line gives four spaces, the line and a newline, and the lines of two
/// lists give the indented first list followed by the indented second.
pub proof fn lemma_indent_lines_line_by_line(a: Seq<Seq<char>>, b: Seq<Seq<char>>, l: Seq<char>)
    ensures
        indent_lines(Seq::<Seq<char>>::empty()) == Seq::<char>::empty(),
        indent_lines(seq![l]) == seq![' ', ' ', ' ', ' '] + l + seq!['\n'],
        indent_lines(a + b) == indent_lines(a) + indent_lines(b),
    decreases a.len(),
{
    assert(seq![l].drop_first() =~= Seq::<Seq<char>>::empty());
    assert(indent_lines(Seq::<Seq<char>>::empty()) =~= Seq::<char>::empty());
    assert(indent_lines(seq![l]) == indent() + seq![l][0] + seq!['\n'] + indent_lines(seq![l].drop_first()));
    assert(indent_lines(seq![l]) =~= seq![' ', ' ', ' ', ' '] + l + seq!['\n']);
    if a.len() == 0 {
        assert(a + b =~= b);
        assert(indent_lines(a) + indent_lines(b) =~= indent_lines(b));
    } else {
        lemma_indent_lines_line_by_line(a.drop_first(), b, l);
        assert((a + b).drop_first() =~= a.drop_first() + b);
        assert((a + b)[0] == a[0]);
        assert(indent_lines(a + b) =~= indent_lines(a) + indent_lines(b));
    }
}


/// A short hash is the first seven characters of the hash, or the whole
/// hash when it is shorter.
pub proof fn lemma_short_hash_is_leading_seven(hash: Seq<char>)
    ensures
        short_hash_of(hash).len() == if hash.len() < 7 { hash.len() } else { 7 },
        forall|i: int| 0 <= i < short_hash_of(hash).len() ==> #[trigger] short_hash_of(hash)[i] == hash[i],
{
}

/// Trimming a trailing character keeps a prefix of the text that does not
/// end with that character, and removes only copies of it.
pub proof fn lemma_trim_end_removes_only_that_char(s: Seq<char>, c: char)
    ensures
        strip_suffix_repeatedly(s, c).len() <= s.len(),
        strip_suffix_repeatedly(s, c) == s.take(strip_suffix_repeatedly(s, c).len() as int),
        strip_suffix_repeatedly(s, c).len() > 0 ==> strip_suffix_repeatedly(s, c).last() != c,
        forall|i: int| strip_suffix_repeatedly(s, c).len() <= i < s.len() ==> #[trigger] s[i] == c,
    decreases s.len(),
{
    if s.len() > 0 && s.last() == c {
        lemma_trim_end_removes_only_that_char(s.drop_last(), c);
        let r = strip_suffix_repeatedly(s, c);
        assert(s.drop_last().take(r.len() as int) =~= s.take(r.len() as int));
        assert forall|i: int| r.len() <= i < s.len() implies #[trigger] s[i] == c by {
            if i < s.len() - 1 {
                assert(s.drop_last()[i] == s[i]);
            }
        }
    } else {
        assert(s.take(s.len() as int) =~= s);
    }
}

/// Trimming a leading text keeps a suffix of the text that no longer starts
/// with it.
pub proof fn lemma_trim_start_keeps_suffix(s: Seq<char>, prefix: Seq<char>)
    ensures
        strip_prefix_repeatedly(s, prefix).len() <= s.len(),
        strip_prefix_repeatedly(s, prefix) == s.skip(s.len() - strip_prefix_repeatedly(s, prefix).len()),
        prefix.len() > 0 && prefix.len() <= strip_prefix_repeatedly(s, prefix).len() ==> strip_prefix_repeatedly(
            s,
            prefix,
        ).take(prefix.len() as int) != prefix,
    decreases s.len(),
{
    if prefix.len() > 0 && prefix.len() <= s.len() && s.take(prefix.len() as int) == prefix {
        let t = s.skip(prefix.len() as int);
        lemma_trim_start_keeps_suffix(t, prefix);
        let r = strip_prefix_repeatedly(s, prefix);
        assert(t.skip(t.len() - r.len()) =~= s.skip(s.len() - r.len()));
    } else {
        assert(s.skip(0) =~= s);
    }
}

} // verus!
