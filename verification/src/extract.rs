//! Column extraction: deriving a key from a line by separator-based
//! splitting.
//!
//! Five modes are offered. Two scan for the first occurrence of the
//! separator: the default suffix mode keeps everything after it, and the
//! prefix mode keeps everything before it; with no occurrence, both keep
//! the whole line. The three column modes split the whole line and keep one column, a
//! prefix of columns, or a suffix of columns. Where a requested column
//! index lies beyond the available columns, the column modes uniformly
//! report the index as out of range by returning `None`.

use vstd::prelude::*;

use crate::text::{
    find_first,
    join_with,
    lemma_find_first_match,
    lemma_lines_deep_view,
    spec_find,
    spec_join,
    spec_split,
    split_on,
    subvec,
};

verus! {

/// The suffix of `s` that starts right after the end of the first
/// occurrence of `sep`; the whole of `s` when `sep` does not occur.
pub open spec fn spec_suffix_key(s: Seq<u8>, sep: Seq<u8>) -> Seq<u8> {
    match spec_find(s, sep) {
        Some(i) => s.skip(i + sep.len() as int),
        None => s,
    }
}

/// The prefix of `s` up to the first occurrence of `sep`; the whole of
/// `s` when `sep` does not occur.
pub open spec fn spec_prefix_key(s: Seq<u8>, sep: Seq<u8>) -> Seq<u8> {
    match spec_find(s, sep) {
        Some(i) => s.take(i),
        None => s,
    }
}

/// Default extraction mode: the part of the line after the first
/// occurrence of the separator; the whole line when the separator does
/// not occur.
pub fn suffix_after_first(line: &Vec<u8>, sep: &Vec<u8>) -> (r: Vec<u8>)
    ensures
        r@ == spec_suffix_key(line@, sep@),
{
    proof {
        lemma_find_first_match(line@, sep@);
    }
    let n = line.len();
    let anchor: usize = match find_first(line, sep) {
        Some(i) => i + sep.len(),
        None => 0,
    };
    let r = subvec(line, anchor, n);
    proof {
        assert(line@.subrange(anchor as int, line@.len() as int) =~= spec_suffix_key(line@, sep@));
    }
    r
}

/// Prefix extraction mode: the part of the line before the first
/// occurrence of the separator.
pub fn prefix_before_first(line: &Vec<u8>, sep: &Vec<u8>) -> (r: Vec<u8>)
    ensures
        r@ == spec_prefix_key(line@, sep@),
{
    proof {
        lemma_find_first_match(line@, sep@);
    }
    let anchor: usize = match find_first(line, sep) {
        Some(i) => i,
        None => line.len(),
    };
    let r = subvec(line, 0, anchor);
    proof {
        assert(line@.subrange(0, anchor as int) =~= spec_prefix_key(line@, sep@));
    }
    r
}

/// Single-column mode: the column at index `col`, or `None` where the
/// line has no such column.
pub fn column_at(line: &Vec<u8>, sep: &Vec<u8>, col: usize) -> (r: Option<Vec<u8>>)
    requires
        sep@.len() > 0,
    ensures
        ({
            let parts = spec_split(line@, sep@);
            match r {
                Some(v) => col < parts.len() && v@ == parts[col as int],
                None => col >= parts.len(),
            }
        }),
{
    let parts = split_on(line, sep);
    proof {
        lemma_lines_deep_view(parts);
    }
    if col < parts.len() {
        let v = subvec(&parts[col], 0, parts[col].len());
        proof {
            assert(parts@[col as int]@.subrange(0, parts@[col as int]@.len() as int)
                =~= parts@[col as int]@);
        }
        Some(v)
    } else {
        None
    }
}

/// Prefix-of-columns mode: columns 0 through `col`, joined with the
/// separator, or `None` where the line has no column `col`.
pub fn prefix_through_column(line: &Vec<u8>, sep: &Vec<u8>, col: usize) -> (r: Option<Vec<u8>>)
    requires
        sep@.len() > 0,
    ensures
        ({
            let parts = spec_split(line@, sep@);
            match r {
                Some(v) => col < parts.len() && v@ == spec_join(parts.take(col + 1), sep@),
                None => col >= parts.len(),
            }
        }),
{
    let parts = split_on(line, sep);
    proof {
        lemma_lines_deep_view(parts);
    }
    if col < parts.len() {
        let mut pre: Vec<Vec<u8>> = Vec::new();
        let mut k: usize = 0;
        while k <= col
            invariant
                col < parts@.len() <= usize::MAX,
                k <= col + 1,
                parts.deep_view().len() == parts@.len(),
                forall|j: int| 0 <= j < parts@.len() ==> parts.deep_view()[j] == parts@[j]@,
                pre.deep_view() == parts.deep_view().take(k as int),
            decreases col + 1 - k,
        {
            proof {
                lemma_lines_deep_view(pre);
            }
            let ghost prevv = pre@;
            pre.push(subvec(&parts[k], 0, parts[k].len()));
            proof {
                lemma_lines_deep_view(pre);
                assert(parts@[k as int]@.subrange(0, parts@[k as int]@.len() as int)
                    =~= parts@[k as int]@);
                assert forall|j: int| 0 <= j < k implies pre.deep_view()[j]
                    == parts.deep_view()[j] by {
                    assert(pre@[j] == prevv[j]);
                    assert(prevv[j]@ == parts.deep_view().take(k as int)[j]);
                }
                assert(pre.deep_view() =~= parts.deep_view().take(k + 1int));
            }
            k = k + 1;
        }
        let v = join_with(&pre, sep);
        Some(v)
    } else {
        None
    }
}

/// Suffix-of-columns mode: the columns from index `col` on, joined with
/// the separator, or `None` where the line has no column `col`.
pub fn suffix_from_column(line: &Vec<u8>, sep: &Vec<u8>, col: usize) -> (r: Option<Vec<u8>>)
    requires
        sep@.len() > 0,
    ensures
        ({
            let parts = spec_split(line@, sep@);
            match r {
                Some(v) => col < parts.len() && v@ == spec_join(parts.skip(col as int), sep@),
                None => col >= parts.len(),
            }
        }),
{
    let parts = split_on(line, sep);
    proof {
        lemma_lines_deep_view(parts);
    }
    if col < parts.len() {
        let mut post: Vec<Vec<u8>> = Vec::new();
        let mut k: usize = col;
        while k < parts.len()
            invariant
                col <= k <= parts@.len(),
                parts.deep_view().len() == parts@.len(),
                forall|j: int| 0 <= j < parts@.len() ==> parts.deep_view()[j] == parts@[j]@,
                post.deep_view() == parts.deep_view().subrange(col as int, k as int),
            decreases parts@.len() - k,
        {
            proof {
                lemma_lines_deep_view(post);
            }
            let ghost prevv = post@;
            post.push(subvec(&parts[k], 0, parts[k].len()));
            proof {
                lemma_lines_deep_view(post);
                assert(parts@[k as int]@.subrange(0, parts@[k as int]@.len() as int)
                    =~= parts@[k as int]@);
                assert forall|j: int| 0 <= j < k - col implies post.deep_view()[j]
                    == parts.deep_view()[col + j] by {
                    assert(post@[j] == prevv[j]);
                    assert(prevv[j]@ == parts.deep_view().subrange(col as int, k as int)[j]);
                }
                assert(post.deep_view() =~= parts.deep_view().subrange(col as int, k + 1int));
            }
            k = k + 1;
        }
        let v = join_with(&post, sep);
        proof {
            assert(parts.deep_view().subrange(col as int, parts.deep_view().len() as int)
                =~= parts.deep_view().skip(col as int));
        }
        Some(v)
    } else {
        None
    }
}

} // verus!
