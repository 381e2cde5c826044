//! Shortening labels for the text charts: a label longer than its column, in
//! bytes, keeps its start or its end and is marked with an ellipsis.
use vstd::prelude::*;

use vstd::string::StringSliceAdditionalSpecFns;
use vstd::utf8::{decode_utf8, encode_utf8, is_char_boundary};

verus! {

broadcast use vstd::utf8::encode_utf8_decode_utf8;

/// The byte offset from which a label keeps its last `max - 1` bytes.
pub open spec fn tail_cut(len: nat, max: nat) -> int {
    len - (max - 1)
}

/// The byte offset up to which a label keeps its first `max - 1` bytes
/// (none where `max` is 0).
pub open spec fn head_cut(max: nat) -> int {
    if max == 0 {
        0
    } else {
        max - 1
    }
}

/// `s` unchanged where it fits in `max` bytes; else an ellipsis followed by
/// the text of its last `max - 1` bytes.
pub open spec fn tail_label(s: Seq<u8>, max: nat) -> Seq<char> {
    if s.len() <= max {
        decode_utf8(s)
    } else {
        seq!['…'] + decode_utf8(s.subrange(tail_cut(s.len(), max), s.len() as int))
    }
}

/// `s` unchanged where it fits in `max` bytes; else the text of its first
/// `max - 1` bytes followed by an ellipsis.
pub open spec fn head_label(s: Seq<u8>, max: nat) -> Seq<char> {
    if s.len() <= max {
        decode_utf8(s)
    } else {
        decode_utf8(s.subrange(0, head_cut(max))) + seq!['…']
    }
}

/// The shortened labels: a text that fits in `max` bytes is kept whole;
/// a longer one keeps exactly `max - 1` of its bytes, its last ones after
/// an ellipsis or its first ones before it.
pub proof fn lemma_label_keeps(s: Seq<u8>, max: nat)
    ensures
        s.len() <= max ==> tail_label(s, max) == decode_utf8(s) && head_label(s, max) == decode_utf8(
            s,
        ),
        s.len() > max >= 1 ==> tail_label(s, max) == seq!['…'] + decode_utf8(
            s.subrange(s.len() - (max - 1), s.len() as int),
        ) && head_label(s, max) == decode_utf8(s.subrange(0, max - 1)) + seq!['…'],
        s.len() > max >= 1 ==> s.subrange(s.len() - (max - 1), s.len() as int).len() == max - 1
            && s.subrange(0, max - 1).len() == max - 1,
{
}

/// A path shortened to `max` bytes from the left: `…` and its last
/// `max - 1` bytes. The cut must fall on a character boundary.
pub fn truncate_path(s: &str, max: usize) -> (r: String)
    requires
        s.spec_bytes().len() <= usize::MAX,
        s.spec_bytes().len() > max ==> max > 0 && is_char_boundary(
            s.spec_bytes(),
            tail_cut(s.spec_bytes().len(), max as nat),
        ),
    ensures
        r@ == tail_label(s.spec_bytes(), max as nat),
{
    let len = s.len();
    proof {
        assert(decode_utf8(encode_utf8(s@)) == s@);
    }
    if len <= max {
        return String::from_str(s);
    }
    let (_, tail) = s.split_at(len - (max - 1));
    let mut out = String::from_str("…");
    out.append(tail);
    proof {
        reveal_strlit("…");
        assert(decode_utf8(encode_utf8(tail@)) == tail@);
        assert(tail.spec_bytes() == encode_utf8(tail@));
    }
    out
}

/// A file path shortened as `truncate_path` does.
pub fn truncate_file_path(s: &str, max: usize) -> (r: String)
    requires
        s.spec_bytes().len() <= usize::MAX,
        s.spec_bytes().len() > max ==> max > 0 && is_char_boundary(
            s.spec_bytes(),
            tail_cut(s.spec_bytes().len(), max as nat),
        ),
    ensures
        r@ == tail_label(s.spec_bytes(), max as nat),
{
    truncate_path(s, max)
}

/// A branch name shortened to `max` bytes from the right: its first
/// `max - 1` bytes and `…`. The cut must fall on a character boundary.
pub fn truncate_branch_name(s: &str, max: usize) -> (r: String)
    requires
        s.spec_bytes().len() <= usize::MAX,
        s.spec_bytes().len() > max ==> is_char_boundary(s.spec_bytes(), head_cut(max as nat)),
    ensures
        r@ == head_label(s.spec_bytes(), max as nat),
{
    let len = s.len();
    proof {
        assert(decode_utf8(encode_utf8(s@)) == s@);
    }
    if len <= max {
        return String::from_str(s);
    }
    let cut = if max == 0 {
        0
    } else {
        max - 1
    };
    let (head, _) = s.split_at(cut);
    let mut out = String::from_str(head);
    out.append("…");
    proof {
        reveal_strlit("…");
        assert(decode_utf8(encode_utf8(head@)) == head@);
        assert(head.spec_bytes() == encode_utf8(head@));
    }
    out
}

/// An author's name shortened as `truncate_branch_name` does.
pub fn truncate_author(s: &str, max: usize) -> (r: String)
    requires
        s.spec_bytes().len() <= usize::MAX,
        s.spec_bytes().len() > max ==> is_char_boundary(s.spec_bytes(), head_cut(max as nat)),
    ensures
        r@ == head_label(s.spec_bytes(), max as nat),
{
    truncate_branch_name(s, max)
}

/// A release name shortened as `truncate_branch_name` does.
pub fn truncate_release_name(s: &str, max: usize) -> (r: String)
    requires
        s.spec_bytes().len() <= usize::MAX,
        s.spec_bytes().len() > max ==> is_char_boundary(s.spec_bytes(), head_cut(max as nat)),
    ensures
        r@ == head_label(s.spec_bytes(), max as nat),
{
    truncate_branch_name(s, max)
}

} // verus!
