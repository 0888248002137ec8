//! Ingest decisions: the pure rules the parallel ingest driver follows.
//!
//! The driver walks the file tree, skips what these rules exclude, parses
//! each remaining document with the parser its extension selects, and hands
//! the tokens to the index.  Walking, clock and file-system reads happen
//! outside; the decisions — staleness, extension dispatch, hidden-name and
//! skip-list rules, segment directory names — are verified here.

use vstd::prelude::*;
use crate::order::str_eq;
use crate::stamp::Timestamp;
use crate::store::DocumentStore;

verus! {

/// The document formats the ingest pipeline knows how to parse.
#[derive(Clone, Copy, PartialEq, Eq, Structural, Debug)]
pub enum DocFormat {
    Csv,
    Html,
    Xml,
    Pdf,
    Text,
}

/// The format a file extension selects, or `None` for an extension the
/// pipeline skips silently.
pub fn format_for_extension(ext: &str) -> (r: Option<DocFormat>)
    ensures
        r == (if ext@ == "csv"@ {
            Some(DocFormat::Csv)
        } else if ext@ == "html"@ {
            Some(DocFormat::Html)
        } else if ext@ == "xml"@ || ext@ == "xhtml"@ {
            Some(DocFormat::Xml)
        } else if ext@ == "pdf"@ {
            Some(DocFormat::Pdf)
        } else if ext@ == "txt"@ || ext@ == "md"@ {
            Some(DocFormat::Text)
        } else {
            None::<DocFormat>
        }),
{
    if str_eq(ext, "csv") {
        Some(DocFormat::Csv)
    } else if str_eq(ext, "html") {
        Some(DocFormat::Html)
    } else if str_eq(ext, "xml") || str_eq(ext, "xhtml") {
        Some(DocFormat::Xml)
    } else if str_eq(ext, "pdf") {
        Some(DocFormat::Pdf)
    } else if str_eq(ext, "txt") || str_eq(ext, "md") {
        Some(DocFormat::Text)
    } else {
        None
    }
}

/// Whether a document's index entry is stale: true for an id the store does
/// not know, else true exactly when the file was modified after it was last
/// indexed.  (`now − indexed_at > now − modified_at` reduces to
/// `indexed_at < modified_at`, so no clock reading is needed.)
pub fn doc_index_is_expired(doc_id: u64, doc_store: &DocumentStore, modified_at: Timestamp) -> (r:
    bool)
    requires
        doc_store.wf(),
        modified_at.wf(),
    ensures
        doc_id >= doc_store@.len() ==> r,
        doc_id < doc_store@.len() ==> r == (doc_store@[doc_id as int].indexed_at.as_nanos()
            < modified_at.as_nanos()),
{
    if doc_id < doc_store.docs.len() as u64 {
        let info = &doc_store.docs[doc_id as usize];
        proof {
            assert(info.indexed_at == doc_store@[doc_id as int].indexed_at);
            assert(doc_store@[doc_id as int].indexed_at.wf());
        }
        info.indexed_at.lt(&modified_at)
    } else {
        true
    }
}

/// A hidden name: one that starts with a dot.
pub fn is_hidden_name(name: &str) -> (r: bool)
    ensures
        r == (name@.len() > 0 && name@[0] == '.'),
{
    let n = name.unicode_len();
    if n == 0 {
        return false;
    }
    let c = name.get_char(0);
    c == '.'
}

/// Whether the walker skips a directory entry: a hidden name (unless hidden
/// entries were asked for), or a path or basename on the skip list.
pub fn should_skip_entry(
    path: &str,
    basename: &str,
    scan_hidden: bool,
    skip_paths: &Vec<String>,
) -> (r: bool)
    ensures
        r == ((basename@.len() > 0 && basename@[0] == '.' && !scan_hidden) || (exists|k: int|
            0 <= k < skip_paths@.len() && (#[trigger] skip_paths@[k])@ == path@) || (exists|k: int|
            0 <= k < skip_paths@.len() && (#[trigger] skip_paths@[k])@ == basename@)),
{
    if is_hidden_name(basename) && !scan_hidden {
        return true;
    }
    crate::order::words_contain(skip_paths, path) || crate::order::words_contain(
        skip_paths,
        basename,
    )
}

/// Whether any executable permission bit is set in a Unix file mode; such
/// files are not indexed.
pub fn executable_bits_set(mode: u32) -> (r: bool)
    ensures
        r == (mode & 0o111 != 0),
{
    mode & 0o111 != 0
}

/// A decimal digit.
pub open spec fn is_digit(c: char) -> bool {
    ('0' as u32) <= (c as u32) <= ('9' as u32)
}

/// The numeric value of a digit string.
pub open spec fn dec_value(s: Seq<char>) -> int
    decreases s.len(),
{
    if s.len() == 0 {
        0
    } else {
        dec_value(s.drop_last()) * 10 + ((s.last() as u32) - ('0' as u32))
    }
}

/// Every character of `s` is a decimal digit.
pub open spec fn all_digits(s: Seq<char>) -> bool {
    forall|i: int| 0 <= i < s.len() ==> is_digit(#[trigger] s[i])
}

/// Which directory names count as segment directories: `segment_` followed
/// by at least one decimal digit whose value fits `u64`.
pub open spec fn spec_segment_name(name: Seq<char>) -> Option<u64> {
    let prefix = "segment_"@;
    if name.len() > prefix.len() && name.subrange(0, prefix.len() as int) == prefix {
        let digits = name.subrange(prefix.len() as int, name.len() as int);
        if all_digits(digits) && dec_value(digits) <= 0xFFFF_FFFF_FFFF_FFFFu64 {
            Some(dec_value(digits) as u64)
        } else {
            None
        }
    } else {
        None
    }
}

/// A digit string's value grows (weakly) with its length.
proof fn lemma_dec_value_monotone(s: Seq<char>, i: int, j: int)
    requires
        0 <= i <= j <= s.len(),
        all_digits(s),
    ensures
        0 <= dec_value(s.take(i)) <= dec_value(s.take(j)),
    decreases j - i,
{
    if i == j {
        lemma_dec_value_nonneg(s.take(i));
    } else {
        lemma_dec_value_monotone(s, i, j - 1);
        assert(s.take(j).drop_last() =~= s.take(j - 1));
        assert(s.take(j).last() == s[j - 1]);
        assert(is_digit(s[j - 1]));
        assert(dec_value(s.take(j)) == dec_value(s.take(j - 1)) * 10 + ((s[j - 1] as u32) - (
        '0' as u32)));
        assert(dec_value(s.take(j - 1)) * 10 >= dec_value(s.take(j - 1))) by (nonlinear_arith)
            requires
                dec_value(s.take(j - 1)) >= 0,
        ;
    }
}

/// A digit string's value is non-negative (digits only).
proof fn lemma_dec_value_nonneg(s: Seq<char>)
    ensures
        all_digits(s) ==> dec_value(s) >= 0,
    decreases s.len(),
{
    if s.len() > 0 {
        assert(s.drop_last() =~= s.take(s.len() - 1));
        assert(forall|i: int| 0 <= i < s.len() - 1 ==> (#[trigger] s.drop_last()[i]) == s[i]);
        lemma_dec_value_nonneg(s.drop_last());
        if all_digits(s) {
            assert(all_digits(s.drop_last()));
            assert(is_digit(s[s.len() - 1]));
            assert(dec_value(s.drop_last()) * 10 >= 0) by (nonlinear_arith)
                requires
                    dec_value(s.drop_last()) >= 0,
            ;
        }
    }
}

/// Parses a directory name as a segment name: `Some(n)` exactly for
/// `segment_{n}` with `n` a decimal that fits `u64`.  Anything else —
/// including a too-large decimal — is ignored by the caller.
pub fn parse_segment_dir_name(name: &str) -> (r: Option<u64>)
    ensures
        r == spec_segment_name(name@),
{
    proof {
        reveal_strlit("segment_");
    }
    let n = name.unicode_len();
    if n <= 8 {
        return None;
    }
    let mut i: usize = 0;
    while i < 8
        invariant
            i <= 8,
            n == name@.len(),
            n > 8,
            forall|k: int| 0 <= k < i ==> name@[k] == "segment_"@[k],
        decreases 8 - i,
    {
        proof {
            reveal_strlit("segment_");
        }
        let c = name.get_char(i);
        let expect = "segment_".get_char(i);
        if c != expect {
            proof {
                assert(name@.subrange(0, 8) != "segment_"@) by {
                    if name@.subrange(0, 8) == "segment_"@ {
                        assert(name@.subrange(0, 8)[i as int] == name@[i as int]);
                    }
                }
            }
            return None;
        }
        i = i + 1;
    }
    proof {
        assert(name@.subrange(0, 8) =~= "segment_"@);
    }
    let ghost digits = name@.subrange(8, n as int);
    let mut value: u64 = 0;
    let mut k: usize = 8;
    proof {
        assert(digits.take(0) =~= Seq::<char>::empty());
        lemma_dec_value_nonneg(digits);
    }
    while k < n
        invariant
            8 <= k <= n,
            n == name@.len(),
            n > 8,
            digits == name@.subrange(8, n as int),
            name@.subrange(0, 8) == "segment_"@,
            all_digits(digits.take(k - 8)),
            value == dec_value(digits.take(k - 8)),
        decreases n - k,
    {
        let c = name.get_char(k);
        let x = c as u32;
        proof {
            assert(digits[k - 8] == name@[k as int]);
            assert(digits.take(k - 8 + 1) =~= digits.take(k - 8).push(digits[k - 8]));
            assert(digits.take(k - 8 + 1).drop_last() =~= digits.take(k - 8));
        }
        if x < 48 || x > 57 {
            proof {
                assert(!is_digit(name@[k as int]));
                assert(!all_digits(digits)) by {
                    assert(digits[k - 8] == name@[k as int]);
                }
            }
            return None;
        }
        let d = (x - 48) as u64;
        let scaled = match value.checked_mul(10) {
            Some(v) => v,
            None => {
                proof {
                    lemma_overflow_means_too_big(digits, k - 8, value as int * 10);
                }
                return None;
            },
        };
        let next = match scaled.checked_add(d) {
            Some(v) => v,
            None => {
                proof {
                    lemma_overflow_means_too_big(digits, k - 8, scaled + d);
                }
                return None;
            },
        };
        value = next;
        k = k + 1;
    }
    proof {
        assert(digits.take(n - 8) =~= digits);
    }
    Some(value)
}

/// If one more digit already pushes the running value past `u64`, the whole
/// digit string's value is past `u64`.
proof fn lemma_overflow_means_too_big(digits: Seq<char>, i: int, grown: int)
    requires
        0 <= i < digits.len(),
        all_digits(digits.take(i)),
        is_digit(digits[i]),
        dec_value(digits.take(i + 1)) == grown || dec_value(digits.take(i)) * 10 == grown,
        grown > 0xFFFF_FFFF_FFFF_FFFFu64,
        dec_value(digits.take(i)) >= 0,
    ensures
        !(all_digits(digits) && dec_value(digits) <= 0xFFFF_FFFF_FFFF_FFFFu64),
{
    if all_digits(digits) {
        assert(digits.take(i + 1).drop_last() =~= digits.take(i));
        assert(digits.take(i + 1).last() == digits[i]);
        assert(dec_value(digits.take(i + 1)) == dec_value(digits.take(i)) * 10 + ((
        digits[i] as u32) - ('0' as u32)));
        assert(dec_value(digits.take(i + 1)) >= grown);
        lemma_dec_value_monotone(digits, i + 1, digits.len() as int);
        assert(digits.take(digits.len() as int) =~= digits);
        assert(dec_value(digits) >= dec_value(digits.take(i + 1)));
    }
}

} // verus!
