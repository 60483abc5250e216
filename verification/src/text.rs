use vstd::prelude::*;
use vstd::string::*;
use vstd::utf8::encode_utf8;

verus! {

/// `text` ends in `suffix`.
pub open spec fn is_suffix(text: Seq<u8>, suffix: Seq<u8>) -> bool {
    suffix.len() <= text.len() && text.subrange(text.len() - suffix.len(), text.len() as int) == suffix
}

/// `pattern` stands in `text` from position `at` on.
pub open spec fn occurs_at(text: Seq<u8>, pattern: Seq<u8>, at: int) -> bool {
    0 <= at && at + pattern.len() <= text.len() && text.subrange(at, at + pattern.len()) == pattern
}

/// `pattern` stands somewhere in `text`.
pub open spec fn occurs_in(text: Seq<u8>, pattern: Seq<u8>) -> bool {
    exists|at: int| occurs_at(text, pattern, at)
}

/// Whether `pattern` stands in `text` from position `at` on.
pub fn matches_at(text: &[u8], pattern: &[u8], at: usize) -> (found: bool)
    requires
        at + pattern@.len() <= text@.len(),
    ensures
        found == occurs_at(text@, pattern@, at as int),
{
    let mut k: usize = 0;
    let length = text.len();
    while k < pattern.len()
        invariant
            at + pattern@.len() <= text@.len(),
            length == text@.len(),
            k <= pattern@.len(),
            forall|q: int| 0 <= q < k ==> text@[at + q] == pattern@[q],
        decreases pattern.len() - k,
    {
        if text[at + k] != pattern[k] {
            proof {
                let piece = text@.subrange(at as int, at + pattern@.len());
                assert(piece[k as int] == text@[at + k]);
            }
            return false;
        }
        k += 1;
    }
    assert(text@.subrange(at as int, at + pattern@.len()) =~= pattern@);
    true
}

/// Whether `text` ends in `suffix`, byte for byte.
pub fn ends_with(text: &str, suffix: &str) -> (found: bool)
    ensures
        found == is_suffix(encode_utf8(text@), encode_utf8(suffix@)),
{
    let bytes = text.as_bytes();
    let wanted = suffix.as_bytes();
    if wanted.len() > bytes.len() {
        return false;
    }
    matches_at(bytes, wanted, bytes.len() - wanted.len())
}

/// Whether `pattern` stands somewhere in `text`, byte for byte.
pub fn contains(text: &str, pattern: &str) -> (found: bool)
    ensures
        found == occurs_in(encode_utf8(text@), encode_utf8(pattern@)),
{
    let bytes = text.as_bytes();
    let wanted = pattern.as_bytes();
    if wanted.len() > bytes.len() {
        assert forall|at: int| !occurs_at(bytes@, wanted@, at) by {}
        return false;
    }
    let last: usize = bytes.len() - wanted.len();
    let mut at: usize = 0;
    while at < last
        invariant
            bytes@ == encode_utf8(text@),
            wanted@ == encode_utf8(pattern@),
            last + wanted@.len() == bytes@.len(),
            at <= last,
            forall|q: int| 0 <= q < at ==> !occurs_at(bytes@, wanted@, q),
        decreases last - at,
    {
        if matches_at(bytes, wanted, at) {
            assert(occurs_at(encode_utf8(text@), encode_utf8(pattern@), at as int));
            return true;
        }
        at += 1;
    }
    let found = matches_at(bytes, wanted, last);
    proof {
        if found {
            assert(occurs_at(bytes@, wanted@, last as int));
        } else {
            assert forall|q: int| !occurs_at(bytes@, wanted@, q) by {}
        }
    }
    found
}

/// Whether the two texts are the same.
pub fn same_text(a: &str, b: &str) -> (same: bool)
    ensures
        same == (a@ == b@),
{
    let left = a.to_owned();
    let right = b.to_owned();
    left == right
}

} // verus!
