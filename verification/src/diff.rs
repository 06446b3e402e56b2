//! Diff text: formatting patch lines, capping diff output and reading one
//! file's content at a revision.

use vstd::prelude::*;
use vstd::utf8::*;

use crate::text::{is_longest_fitting_prefix, push_char, truncate_utf8, utf8_len};

verus! {

broadcast use {
    vstd::utf8::encode_utf8_valid_utf8,
    vstd::utf8::encode_utf8_decode_utf8,
    vstd::utf8::decode_utf8_encode_utf8,
};

/// Byte cap on diff and show output.
pub const MAX_DIFF_BYTES: usize = 512 * 1024;

/// Byte cap on a file's content at a revision.
pub const MAX_FILE_AT_BYTES: usize = 2 * 1024 * 1024;

/// What `String::from_utf8_lossy` makes of a byte sequence.
pub uninterp spec fn lossy_utf8(bytes: Seq<u8>) -> Seq<char>;

/// `String::from_utf8_lossy`: the text of `bytes` with every invalid
/// sequence replaced by U+FFFD. Claimed here: the result is a function of
/// the bytes alone, and valid UTF-8 decodes unchanged. What an invalid
/// sequence becomes is left unsaid.
#[verifier::external_body]
fn utf8_lossy(bytes: &[u8]) -> (res: String)
    ensures
        res@ == lossy_utf8(bytes@),
        valid_utf8(bytes@) ==> res@ == decode_utf8(bytes@),
{
    String::from_utf8_lossy(bytes).into_owned()
}

/// `std::str::from_utf8`: `Some` exactly when `bytes` is valid UTF-8, and
/// then the text those bytes encode.
#[verifier::external_body]
fn utf8_text(bytes: &[u8]) -> (res: Option<&str>)
    ensures
        res is Some <==> valid_utf8(bytes@),
        res matches Some(s) ==> s@ == decode_utf8(bytes@),
{
    std::str::from_utf8(bytes).ok()
}

/// One line of a patch as the diff printer hands it out.
pub struct DiffLine {
    /// The line's origin marker (`'+'`, `'-'`, `' '`, or a header marker).
    pub origin: char,
    /// The line's raw content, terminator included.
    pub content: Vec<u8>,
    /// Whether the line's file delta is binary.
    pub binary: bool,
}

/// Text a patch line contributes given its decoded content: its origin when
/// that is `+`, `-` or a space, then the content.
pub open spec fn marked_text(origin: char, text: Seq<char>) -> Seq<char> {
    if origin == '+' || origin == '-' || origin == ' ' {
        seq![origin] + text
    } else {
        text
    }
}

/// Text one raw patch line contributes: its marked content decoded leniently.
pub open spec fn line_text(origin: char, content: Seq<u8>) -> Seq<char> {
    marked_text(origin, lossy_utf8(content))
}

/// Text of a whole patch.
pub open spec fn patch_text(lines: Seq<DiffLine>) -> Seq<char>
    decreases lines.len(),
{
    if lines.len() == 0 {
        seq![]
    } else {
        patch_text(lines.drop_last()) + line_text(lines.last().origin, lines.last().content@)
    }
}

/// Whether any line of the patch belongs to a binary delta.
pub open spec fn patch_binary(lines: Seq<DiffLine>) -> bool {
    exists|i: int| 0 <= i < lines.len() && #[trigger] lines[i].binary
}

/// One patch line with its content already decoded.
pub struct PatchLine {
    /// The line's origin marker.
    pub origin: char,
    /// The line's decoded content.
    pub text: String,
    /// Whether the line's file delta is binary.
    pub binary: bool,
}

/// Text of a patch made of decoded lines.
pub open spec fn assembled_text(lines: Seq<PatchLine>) -> Seq<char>
    decreases lines.len(),
{
    if lines.len() == 0 {
        seq![]
    } else {
        assembled_text(lines.drop_last()) + marked_text(lines.last().origin, lines.last().text@)
    }
}

/// Whether any decoded line belongs to a binary delta.
pub open spec fn assembled_binary(lines: Seq<PatchLine>) -> bool {
    exists|i: int| 0 <= i < lines.len() && #[trigger] lines[i].binary
}

/// The text of a patch made of decoded lines, and whether any of its
/// deltas is binary.
pub fn assemble_patch(lines: &Vec<PatchLine>) -> (res: (String, bool))
    ensures
        res.0@ == assembled_text(lines@),
        res.1 == assembled_binary(lines@),
{
    let mut buf = String::new();
    let mut binary = false;
    let n = lines.len();
    let mut i: usize = 0;
    assert(lines@.take(0) =~= Seq::<PatchLine>::empty());
    while i < n
        invariant
            i <= n,
            n == lines@.len(),
            buf@ == assembled_text(lines@.take(i as int)),
            binary == assembled_binary(lines@.take(i as int)),
        decreases n - i,
    {
        let line = &lines[i];
        let ghost before = buf@;
        if line.origin == '+' || line.origin == '-' || line.origin == ' ' {
            push_char(&mut buf, line.origin);
        }
        buf.append(line.text.as_str());
        proof {
            let t = lines@.take(i + 1);
            assert(t.drop_last() =~= lines@.take(i as int));
            assert(t.last() == lines@[i as int]);
            assert(buf@ =~= before + marked_text(line.origin, line.text@));
        }
        if line.binary {
            binary = true;
        }
        proof {
            let t = lines@.take(i + 1);
            if binary {
                if line.binary {
                    assert(t[i as int].binary);
                } else {
                    let k = choose|k: int| 0 <= k < i && #[trigger] lines@.take(i as int)[k].binary;
                    assert(t[k].binary);
                }
            } else {
                assert forall|k: int| 0 <= k < t.len() implies !#[trigger] t[k].binary by {
                    if k < i {
                        assert(t[k] == lines@.take(i as int)[k]);
                    }
                }
            }
        }
        i += 1;
    }
    assert(lines@.take(n as int) =~= lines@);
    (buf, binary)
}

/// Assembling a patch loses no content: no lines give an empty text, and
/// one more line adds exactly its decoded content, preceded by its origin
/// when that is `+`, `-` or a space; the binary flag grows by that line's.
pub proof fn lemma_assembled_text_appends(lines: Seq<PatchLine>, l: PatchLine)
    ensures
        assembled_text(Seq::<PatchLine>::empty()) == Seq::<char>::empty(),
        !assembled_binary(Seq::<PatchLine>::empty()),
        assembled_text(lines.push(l)) == assembled_text(lines) + (if l.origin == '+' || l.origin == '-'
            || l.origin == ' ' {
            seq![l.origin]
        } else {
            Seq::<char>::empty()
        }) + l.text@,
        assembled_binary(lines.push(l)) == (assembled_binary(lines) || l.binary),
        assembled_text(lines.push(l)).len() == assembled_text(lines).len() + l.text@.len() + (if l.origin
            == '+' || l.origin == '-' || l.origin == ' ' {
            1int
        } else {
            0int
        }),
{
    let t = lines.push(l);
    assert(t.drop_last() =~= lines);
    assert(Seq::<char>::empty() + l.text@ =~= l.text@);
    if assembled_binary(t) {
        let k = choose|k: int| 0 <= k < t.len() && #[trigger] t[k].binary;
        if k < lines.len() {
            assert(lines[k].binary);
        }
    }
    if assembled_binary(lines) {
        let k = choose|k: int| 0 <= k < lines.len() && #[trigger] lines[k].binary;
        assert(t[k].binary);
    }
    if l.binary {
        assert(t[lines.len() as int].binary);
    }
}

/// Formatting a patch loses no content: one more raw line adds exactly its
/// leniently decoded content, preceded by its origin when that is `+`, `-`
/// or a space.
pub proof fn lemma_patch_text_appends(lines: Seq<DiffLine>, l: DiffLine)
    ensures
        patch_text(Seq::<DiffLine>::empty()) == Seq::<char>::empty(),
        patch_text(lines.push(l)) == patch_text(lines) + (if l.origin == '+' || l.origin == '-' || l.origin
            == ' ' {
            seq![l.origin]
        } else {
            Seq::<char>::empty()
        }) + lossy_utf8(l.content@),
{
    let t = lines.push(l);
    assert(t.drop_last() =~= lines);
    assert(Seq::<char>::empty() + lossy_utf8(l.content@) =~= lossy_utf8(l.content@));
}

/// `decoded` is `raw` with every line's content decoded leniently.
pub open spec fn decodes(raw: Seq<DiffLine>, decoded: Seq<PatchLine>) -> bool {
    &&& decoded.len() == raw.len()
    &&& forall|k: int| 0 <= k < raw.len() ==> {
        &&& (#[trigger] decoded[k]).origin == raw[k].origin
        &&& decoded[k].text@ == lossy_utf8(raw[k].content@)
        &&& decoded[k].binary == raw[k].binary
    }
}

proof fn lemma_decoded_patch(raw: Seq<DiffLine>, decoded: Seq<PatchLine>)
    requires
        decodes(raw, decoded),
    ensures
        assembled_text(decoded) == patch_text(raw),
        assembled_binary(decoded) == patch_binary(raw),
    decreases raw.len(),
{
    if raw.len() > 0 {
        let (r, d) = (raw.drop_last(), decoded.drop_last());
        assert(decodes(r, d)) by {
            assert forall|k: int| 0 <= k < r.len() implies {
                &&& (#[trigger] d[k]).origin == r[k].origin
                &&& d[k].text@ == lossy_utf8(r[k].content@)
                &&& d[k].binary == r[k].binary
            } by {
                assert(d[k] == decoded[k] && r[k] == raw[k]);
            }
        }
        lemma_decoded_patch(r, d);
        assert(decoded.last() == decoded[decoded.len() - 1]);
    }
    if assembled_binary(decoded) {
        let k = choose|k: int| 0 <= k < decoded.len() && #[trigger] decoded[k].binary;
        assert(raw[k].binary);
    }
    if patch_binary(raw) {
        let k = choose|k: int| 0 <= k < raw.len() && #[trigger] raw[k].binary;
        assert(decoded[k].binary);
    }
}

/// The text of a patch and whether any of its deltas is binary: each line's
/// content is decoded leniently, then the decoded lines are assembled.
pub fn format_diff(lines: &Vec<DiffLine>) -> (res: (String, bool))
    ensures
        res.0@ == patch_text(lines@),
        res.1 == patch_binary(lines@),
{
    let mut decoded: Vec<PatchLine> = Vec::new();
    let n = lines.len();
    let mut i: usize = 0;
    while i < n
        invariant
            i <= n,
            n == lines@.len(),
            decoded@.len() == i,
            forall|k: int| 0 <= k < i ==> {
                &&& (#[trigger] decoded@[k]).origin == lines@[k].origin
                &&& decoded@[k].text@ == lossy_utf8(lines@[k].content@)
                &&& decoded@[k].binary == lines@[k].binary
            },
        decreases n - i,
    {
        let line = &lines[i];
        let text = utf8_lossy(line.content.as_slice());
        decoded.push(PatchLine { origin: line.origin, text, binary: line.binary });
        i += 1;
    }
    proof {
        lemma_decoded_patch(lines@, decoded@);
    }
    assemble_patch(&decoded)
}

/// A text capped at `max` bytes: the longest prefix that fits, and whether
/// anything was cut.
pub fn cap_text(text: &str, max: usize) -> (res: (String, bool))
    ensures
        is_longest_fitting_prefix(text@, max as nat, res.0@),
        res.1 == (utf8_len(text@) > max),
{
    let truncated = text.as_bytes().len() > max;
    (truncate_utf8(text, max), truncated)
}

/// A capped text keeps everything that fits: when the whole text is within
/// the cap, the capped text is the whole text.
pub proof fn lemma_fitting_text_kept(text: Seq<char>, max: nat, capped: Seq<char>)
    requires
        is_longest_fitting_prefix(text, max, capped),
        utf8_len(text) <= max,
    ensures
        capped == text,
{
    if capped.len() < text.len() {
        crate::text::lemma_encode_prefix_is_boundary(text, capped.len() + 1int);
    }
    assert(capped =~= text);
}

/// Result of a single-file diff.
pub struct DiffResult {
    /// The patch text, capped at [`MAX_DIFF_BYTES`].
    pub diff: String,
    /// Whether any delta is binary.
    pub binary: bool,
    /// Whether the patch text was longer than the cap.
    pub truncated: bool,
}

/// The diff result for a patch: its text capped at [`MAX_DIFF_BYTES`].
pub fn diff_result(lines: &Vec<DiffLine>) -> (res: DiffResult)
    ensures
        is_longest_fitting_prefix(patch_text(lines@), MAX_DIFF_BYTES as nat, res.diff@),
        res.truncated == (utf8_len(patch_text(lines@)) > MAX_DIFF_BYTES),
        res.binary == patch_binary(lines@),
{
    let (text, binary) = format_diff(lines);
    let (diff, truncated) = cap_text(text.as_str(), MAX_DIFF_BYTES);
    DiffResult { diff, binary, truncated }
}

/// Content of one file at a revision.
pub struct FileAtResult {
    pub content: String,
    pub binary: bool,
    pub truncated: bool,
    pub missing: bool,
}

/// A blob as read from the repository.
pub struct BlobData {
    /// Whether the repository deems the blob binary.
    pub is_binary: bool,
    /// The blob's bytes.
    pub content: Vec<u8>,
}

/// The file-at result for a blob: missing when there is none; binary with
/// empty content when the blob is binary or not valid UTF-8; otherwise its
/// text capped at [`MAX_FILE_AT_BYTES`].
pub fn file_at_result(blob: Option<BlobData>) -> (res: FileAtResult)
    ensures
        match blob {
            None => res.missing && !res.binary && !res.truncated && res.content@.len() == 0,
            Some(b) => if b.is_binary || !valid_utf8(b.content@) {
                !res.missing && res.binary && !res.truncated && res.content@.len() == 0
            } else {
                &&& !res.missing
                &&& !res.binary
                &&& is_longest_fitting_prefix(decode_utf8(b.content@), MAX_FILE_AT_BYTES as nat, res.content@)
                &&& res.truncated == (b.content@.len() > MAX_FILE_AT_BYTES)
            },
        },
{
    let b = match blob {
        None => return FileAtResult { content: String::new(), binary: false, truncated: false, missing: true },
        Some(b) => b,
    };
    if b.is_binary {
        return FileAtResult { content: String::new(), binary: true, truncated: false, missing: false };
    }
    match utf8_text(b.content.as_slice()) {
        Some(text) => {
            let (content, truncated) = cap_text(text, MAX_FILE_AT_BYTES);
            assert(encode_utf8(text@) == b.content@);
            FileAtResult { content, binary: false, truncated, missing: false }
        },
        None => FileAtResult { content: String::new(), binary: true, truncated: false, missing: false },
    }
}

/// Whether `rev` names the index (`":0"`).
pub fn is_index_revision(rev: &str) -> (res: bool)
    ensures
        res == (rev@ == seq![':', '0']),
{
    let n = rev.unicode_len();
    if n != 2 {
        return false;
    }
    let res = rev.get_char(0) == ':' && rev.get_char(1) == '0';
    if res {
        assert(rev@ =~= seq![':', '0']);
    }
    res
}

/// The revision expression `<rev>:<file>` naming a file at a revision.
pub fn revision_path(rev: &str, file: &str) -> (res: String)
    ensures
        res@ == rev@ + seq![':'] + file@,
{
    let mut res = String::from_str(rev);
    push_char(&mut res, ':');
    res.append(file);
    res
}

} // verus!
