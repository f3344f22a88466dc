//! Verified text utilities: character-level equality, substring
//! containment (the fixed-string pre-filter), and line counting
//! (the oversized-file cutoff).

use vstd::prelude::*;
use vstd::string::StrSliceExecFns;
use vstd::string::StringSliceAdditionalSpecFns;

verus! {

/// Number of newline bytes in `s`.
pub open spec fn newline_count(s: Seq<u8>) -> nat
    decreases s.len(),
{
    if s.len() == 0 {
        0
    } else {
        newline_count(s.drop_last()) + if s.last() == 10u8 {
            1nat
        } else {
            0nat
        }
    }
}

/// The number of lines in a text, as a line-based reader sees it:
/// every newline byte ends a line, and a non-empty trailing fragment
/// without a final newline still counts as one more line.
pub open spec fn spec_line_count(s: Seq<u8>) -> nat {
    newline_count(s) + if s.len() > 0 && s.last() != 10u8 {
        1nat
    } else {
        0nat
    }
}

proof fn lemma_newline_count_le_len(s: Seq<u8>)
    ensures
        newline_count(s) <= s.len(),
    decreases s.len(),
{
    if s.len() > 0 {
        lemma_newline_count_le_len(s.drop_last());
    }
}

/// Counts the lines of `s`, line by line over its bytes.
pub fn line_count(s: &str) -> (n: usize)
    ensures
        n == spec_line_count(s.spec_bytes()),
{
    let bytes = s.as_bytes_vec();
    let mut i: usize = 0;
    let mut newlines: usize = 0;
    proof {
        lemma_newline_count_le_len(bytes@);
    }
    while i < bytes.len()
        invariant
            i <= bytes.len(),
            newlines == newline_count(bytes@.take(i as int)),
            newlines <= i,
            bytes@ == s.spec_bytes(),
        decreases bytes.len() - i,
    {
        proof {
            assert(bytes@.take(i + 1).drop_last() =~= bytes@.take(i as int));
            assert(bytes@.take(i + 1).last() == bytes@[i as int]);
        }
        if bytes[i] == 10u8 {
            newlines = newlines + 1;
        }
        i = i + 1;
    }
    proof {
        assert(bytes@.take(bytes@.len() as int) =~= bytes@);
    }
    if bytes.len() > 0 && bytes[bytes.len() - 1] != 10u8 {
        proof {
            lemma_newline_count_le_len(bytes@);
            assert(newline_count(bytes@) < bytes@.len()) by {
                assert(newline_count(bytes@) == newline_count(bytes@.drop_last()) + if bytes@.last()
                    == 10u8 {
                    1nat
                } else {
                    0nat
                });
                lemma_newline_count_le_len(bytes@.drop_last());
            }
        }
        newlines + 1
    } else {
        newlines
    }
}

/// Character-for-character equality of two string slices.
pub fn str_eq(a: &str, b: &str) -> (r: bool)
    ensures
        r == (a@ == b@),
{
    let an = a.unicode_len();
    let bn = b.unicode_len();
    if an != bn {
        return false;
    }
    let mut i: usize = 0;
    while i < an
        invariant
            i <= an,
            an == a@.len(),
            an == b@.len(),
            forall|k: int| 0 <= k < i ==> a@[k] == b@[k],
        decreases an - i,
    {
        if a.get_char(i) != b.get_char(i) {
            return false;
        }
        i = i + 1;
    }
    proof {
        assert(a@ =~= b@);
    }
    true
}

/// `needle` occurs as a contiguous run of characters inside `hay`.
pub open spec fn spec_contains(hay: Seq<char>, needle: Seq<char>) -> bool {
    exists|i: int|
        0 <= i && i + needle.len() <= hay.len() && #[trigger] hay.subrange(i, i + needle.len())
            == needle
}

/// Substring containment check, the basis of the fixed-string pre-filter.
pub fn str_contains(hay: &str, needle: &str) -> (r: bool)
    ensures
        r == spec_contains(hay@, needle@),
{
    let n = hay.unicode_len();
    let m = needle.unicode_len();
    if m > n {
        return false;
    }
    if m == 0 {
        proof {
            assert(hay@.subrange(0, 0 + needle@.len() as int) =~= needle@);
        }
        return true;
    }
    let mut i: usize = 0;
    while i <= n - m
        invariant
            1 <= m <= n,
            n == hay@.len(),
            m == needle@.len(),
            i <= n - m + 1,
            forall|k: int|
                0 <= k < i ==> #[trigger] hay@.subrange(k, k + needle@.len()) != needle@,
        decreases n - i,
    {
        let mut j: usize = 0;
        let mut all_eq = true;
        while j < m
            invariant
                i + m <= n,
                n == hay@.len(),
                m == needle@.len(),
                j <= m,
                all_eq ==> forall|k: int| 0 <= k < j ==> hay@[i + k] == needle@[k],
                !all_eq ==> hay@.subrange(i as int, i + needle@.len()) != needle@,
            decreases m - j,
        {
            if hay.get_char(i + j) != needle.get_char(j) {
                proof {
                    assert(hay@.subrange(i as int, i + needle@.len())[j as int] == hay@[i + j]);
                }
                all_eq = false;
                j = m;
            } else {
                j = j + 1;
            }
        }
        if all_eq {
            proof {
                assert(hay@.subrange(i as int, i + needle@.len()) =~= needle@);
            }
            return true;
        }
        proof {
            assert(hay@.subrange(i as int, i + needle@.len()) != needle@);
        }
        i = i + 1;
    }
    false
}

/// Containment composes: what occurs in a part occurs in the whole.
pub proof fn lemma_contains_trans(a: Seq<char>, b: Seq<char>, c: Seq<char>)
    requires
        spec_contains(a, b),
        spec_contains(b, c),
    ensures
        spec_contains(a, c),
{
    let i = choose|i: int|
        0 <= i && i + b.len() <= a.len() && #[trigger] a.subrange(i, i + b.len()) == b;
    let j = choose|j: int|
        0 <= j && j + c.len() <= b.len() && #[trigger] b.subrange(j, j + c.len()) == c;
    assert(a.subrange(i + j, i + j + c.len()) =~= c) by {
        assert forall|k: int| 0 <= k < c.len() implies a.subrange(i + j, i + j + c.len())[k]
            == c[k] by {
            assert(a.subrange(i + j, i + j + c.len())[k] == a[i + j + k]);
            assert(a.subrange(i, i + b.len())[j + k] == a[i + j + k]);
            assert(b.subrange(j, j + c.len())[k] == b[j + k]);
        }
    }
}

/// Whether `c` is one of the characters of `s`.
pub fn str_has_char(s: &str, c: char) -> (r: bool)
    ensures
        r == s@.contains(c),
{
    let n = s.unicode_len();
    let mut i: usize = 0;
    while i < n
        invariant
            i <= n,
            n == s@.len(),
            forall|k: int| 0 <= k < i ==> s@[k] != c,
        decreases n - i,
    {
        if s.get_char(i) == c {
            return true;
        }
        i = i + 1;
    }
    proof {
        if s@.contains(c) {
            let k = choose|k: int| 0 <= k < s@.len() && s@[k] == c;
            assert(false);
        }
    }
    false
}

} // verus!
