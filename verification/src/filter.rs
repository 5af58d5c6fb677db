//! The line filter: deriving keys from the query lines and removing the
//! target lines that equal one of them.

use vstd::prelude::*;

use crate::extract::{spec_suffix_key, suffix_after_first};
use crate::text::{
    bytes_eq,
    join_with,
    lemma_find_first_match,
    lemma_lines_deep_view,
    lemma_split_join_roundtrip,
    lemma_split_parts_no_byte,
    lemma_trim_no_byte,
    lemma_trim_trimmed,
    match_at,
    no_byte,
    spec_find,
    spec_join,
    spec_split,
    spec_trim,
    split_on,
    subvec,
    trim_space,
};

verus! {

/// The target line at index `i` is kept: either it lies in the
/// unconditional leading prefix, or it equals no query key.
pub open spec fn spec_keep(line: Seq<u8>, keys: Seq<Seq<u8>>, i: int, skip_n: int) -> bool {
    i < skip_n || !keys.contains(line)
}

/// The kept lines of `target`, in their original order: the first
/// `skip_n` lines pass through unconditionally, and a later line is
/// dropped exactly when it equals some element of `keys`.
pub open spec fn spec_filter_lines(
    target: Seq<Seq<u8>>,
    keys: Seq<Seq<u8>>,
    skip_n: int,
) -> Seq<Seq<u8>>
    decreases target.len(),
{
    if target.len() == 0 {
        Seq::empty()
    } else {
        let front = spec_filter_lines(target.drop_last(), keys, skip_n);
        if spec_keep(target.last(), keys, target.len() - 1, skip_n) {
            front.push(target.last())
        } else {
            front
        }
    }
}

/// Some element of `keys` equals `line`.
pub fn contains_line(keys: &Vec<Vec<u8>>, line: &Vec<u8>) -> (r: bool)
    ensures
        r == keys.deep_view().contains(line@),
{
    proof {
        lemma_lines_deep_view(*keys);
    }
    let mut k: usize = 0;
    while k < keys.len()
        invariant
            k <= keys@.len(),
            keys.deep_view().len() == keys@.len(),
            forall|j: int| 0 <= j < keys@.len() ==> keys.deep_view()[j] == keys@[j]@,
            forall|j: int| 0 <= j < k ==> keys.deep_view()[j] != line@,
        decreases keys@.len() - k,
    {
        if bytes_eq(&keys[k], line) {
            proof {
                assert(keys.deep_view()[k as int] == line@);
            }
            return true;
        }
        k = k + 1;
    }
    proof {
        assert(!keys.deep_view().contains(line@)) by {
            if keys.deep_view().contains(line@) {
                let j = choose|j: int|
                    0 <= j < keys.deep_view().len() && keys.deep_view()[j] == line@;
                assert(keys.deep_view()[j] != line@);
            }
        }
    }
    false
}

/// Filters the target lines against the query keys, keeping the first
/// `skip_n` lines unconditionally and every later line that equals no
/// key, in their original order.
pub fn filter_lines(target: &Vec<Vec<u8>>, keys: &Vec<Vec<u8>>, skip_n: usize) -> (r: Vec<
    Vec<u8>,
>)
    ensures
        r.deep_view() == spec_filter_lines(target.deep_view(), keys.deep_view(), skip_n as int),
{
    let ghost tv = target.deep_view();
    let ghost kv = keys.deep_view();
    proof {
        lemma_lines_deep_view(*target);
    }
    let mut out: Vec<Vec<u8>> = Vec::new();
    let mut i: usize = 0;
    while i < target.len()
        invariant
            i <= target@.len(),
            tv == target.deep_view(),
            kv == keys.deep_view(),
            tv.len() == target@.len(),
            forall|j: int| 0 <= j < target@.len() ==> tv[j] == target@[j]@,
            out.deep_view() == spec_filter_lines(tv.take(i as int), kv, skip_n as int),
        decreases target@.len() - i,
    {
        let keep = if i < skip_n {
            true
        } else {
            !contains_line(keys, &target[i])
        };
        proof {
            assert(tv.take(i + 1int).drop_last() =~= tv.take(i as int));
            assert(tv.take(i + 1int).last() == tv[i as int]);
        }
        if keep {
            proof {
                lemma_lines_deep_view(out);
            }
            let ghost prevv = out@;
            let ghost prevdv = out.deep_view();
            out.push(subvec(&target[i], 0, target[i].len()));
            proof {
                lemma_lines_deep_view(out);
                assert(target@[i as int]@.subrange(0, target@[i as int]@.len() as int)
                    =~= target@[i as int]@);
                assert forall|j: int| 0 <= j < prevv.len() implies out.deep_view()[j]
                    == prevdv[j] by {
                    assert(out@[j] == prevv[j]);
                }
                assert(out.deep_view() =~= prevdv.push(tv[i as int]));
            }
        }
        i = i + 1;
    }
    proof {
        assert(tv.take(tv.len() as int) =~= tv);
    }
    out
}

/// The key that one query line contributes: the default-mode suffix of
/// the line, trimmed of surrounding whitespace.
pub open spec fn spec_query_key(line: Seq<u8>, sep: Seq<u8>) -> Seq<u8> {
    spec_trim(spec_suffix_key(line, sep))
}

/// The keys contributed by a sequence of query lines, in order; empty
/// lines contribute none.
pub open spec fn spec_query_keys(lines: Seq<Seq<u8>>, sep: Seq<u8>) -> Seq<Seq<u8>>
    decreases lines.len(),
{
    if lines.len() == 0 {
        Seq::empty()
    } else {
        let front = spec_query_keys(lines.drop_last(), sep);
        if lines.last().len() > 0 {
            front.push(spec_query_key(lines.last(), sep))
        } else {
            front
        }
    }
}

/// The query lines after the optional header: with `header` set, the
/// first line is dropped.
pub open spec fn spec_after_header(lines: Seq<Seq<u8>>, header: bool) -> Seq<Seq<u8>> {
    if header && lines.len() >= 1 {
        lines.skip(1)
    } else {
        lines
    }
}

/// Derives the query keys from raw query lines: drops the header line
/// where `header` is set, drops empty lines, and extracts from each
/// remaining line its trimmed default-mode suffix.
pub fn extract_query_keys(lines: &Vec<Vec<u8>>, sep: &Vec<u8>, header: bool) -> (r: Vec<Vec<u8>>)
    ensures
        r.deep_view() == spec_query_keys(spec_after_header(lines.deep_view(), header), sep@),
{
    let ghost lv = spec_after_header(lines.deep_view(), header);
    proof {
        lemma_lines_deep_view(*lines);
    }
    let start: usize = if header && lines.len() >= 1 {
        1
    } else {
        0
    };
    proof {
        assert forall|j: int| 0 <= j < lv.len() implies lv[j] == lines@[start + j]@ by {}
    }
    let mut out: Vec<Vec<u8>> = Vec::new();
    let mut i: usize = start;
    while i < lines.len()
        invariant
            start <= i <= lines@.len(),
            lv == spec_after_header(lines.deep_view(), header),
            lv.len() == lines@.len() - start,
            forall|j: int| 0 <= j < lv.len() ==> lv[j] == lines@[start + j]@,
            out.deep_view() == spec_query_keys(lv.take(i - start), sep@),
        decreases lines@.len() - i,
    {
        proof {
            assert(lv.take(i - start + 1).drop_last() =~= lv.take(i - start));
            assert(lv.take(i - start + 1).last() == lv[i - start]);
        }
        let line = &lines[i];
        if line.len() > 0 {
            let suffix = suffix_after_first(line, sep);
            let key = trim_space(&suffix);
            proof {
                lemma_lines_deep_view(out);
            }
            let ghost prevv = out@;
            let ghost prevdv = out.deep_view();
            out.push(key);
            proof {
                lemma_lines_deep_view(out);
                assert forall|j: int| 0 <= j < prevv.len() implies out.deep_view()[j]
                    == prevdv[j] by {
                    assert(out@[j] == prevv[j]);
                }
                assert(out.deep_view() =~= prevdv.push(spec_query_key(lv[i - start], sep@)));
            }
        }
        i = i + 1;
    }
    proof {
        assert(lv.take(lv.len() as int) =~= lv);
    }
    out
}

/// The predicate satisfied by the lines that equal no element of `keys`.
pub open spec fn not_key(keys: Seq<Seq<u8>>) -> spec_fn(Seq<u8>) -> bool {
    |l: Seq<u8>| !keys.contains(l)
}

/// Order and membership law of the filter: the output is the target's
/// unconditional leading prefix followed, in their original order, by
/// exactly those later target lines that equal no query key.
pub proof fn lemma_filter_lines_form(target: Seq<Seq<u8>>, keys: Seq<Seq<u8>>, skip_n: int)
    requires
        0 <= skip_n,
    ensures
        ({
            let m = if skip_n <= target.len() {
                skip_n
            } else {
                target.len() as int
            };
            spec_filter_lines(target, keys, skip_n) == target.take(m) + target.skip(m).filter(
                not_key(keys),
            )
        }),
    decreases target.len(),
{
    reveal(Seq::filter);
    let p = not_key(keys);
    let m = if skip_n <= target.len() {
        skip_n
    } else {
        target.len() as int
    };
    if target.len() == 0 {
        assert(spec_filter_lines(target, keys, skip_n) =~= target.take(m) + target.skip(m).filter(
            p,
        ));
    } else {
        let prev = target.drop_last();
        let last = target.last();
        lemma_filter_lines_form(prev, keys, skip_n);
        if target.len() <= skip_n {
            assert(prev.take(prev.len() as int) =~= prev);
            assert(prev.skip(prev.len() as int) =~= Seq::<Seq<u8>>::empty());
            assert(Seq::<Seq<u8>>::empty().filter(p) == Seq::<Seq<u8>>::empty());
            assert(prev + Seq::<Seq<u8>>::empty() =~= prev);
            assert(spec_filter_lines(target, keys, skip_n) == prev.push(last));
            assert(prev.push(last) =~= target);
            assert(target.skip(m) =~= Seq::<Seq<u8>>::empty());
            assert(target.take(m) + Seq::<Seq<u8>>::empty() =~= target);
        } else {
            let ts = target.skip(skip_n);
            assert(ts.len() >= 1);
            assert(ts.drop_last() =~= prev.skip(skip_n));
            assert(ts.last() == last);
            assert(prev.take(skip_n) =~= target.take(skip_n));
            if p(last) {
                assert(spec_filter_lines(target, keys, skip_n) == (target.take(skip_n)
                    + prev.skip(skip_n).filter(p)).push(last));
                assert((target.take(skip_n) + prev.skip(skip_n).filter(p)).push(last)
                    =~= target.take(skip_n) + prev.skip(skip_n).filter(p).push(last));
                assert(ts.filter(p) == ts.drop_last().filter(p).push(last));
            } else {
                assert(!spec_keep(last, keys, target.len() - 1, skip_n));
                assert(ts.filter(p) == ts.drop_last().filter(p));
            }
        }
    }
}

/// Every line of the output past the unconditional prefix equals no
/// query key.
pub proof fn lemma_filter_lines_excludes(target: Seq<Seq<u8>>, keys: Seq<Seq<u8>>, skip_n: int)
    requires
        0 <= skip_n,
    ensures
        forall|j: int|
            skip_n <= j < spec_filter_lines(target, keys, skip_n).len() ==> !keys.contains(
                #[trigger] spec_filter_lines(target, keys, skip_n)[j],
            ),
{
    reveal(Seq::filter);
    let p = not_key(keys);
    let r = spec_filter_lines(target, keys, skip_n);
    lemma_filter_lines_form(target, keys, skip_n);
    let m = if skip_n <= target.len() {
        skip_n
    } else {
        target.len() as int
    };
    assert forall|j: int| skip_n <= j < r.len() implies !keys.contains(r[j]) by {
        if skip_n > target.len() {
            assert(target.skip(m) =~= Seq::<Seq<u8>>::empty());
            assert(Seq::<Seq<u8>>::empty().filter(p) == Seq::<Seq<u8>>::empty());
            assert(r.len() <= target.len());
        } else {
            assert(r[j] == target.skip(m).filter(p)[j - m]);
            target.skip(m).lemma_filter_pred(p, j - m);
            assert(p(r[j]));
        }
    }
}

/// The first `skip_n` target lines pass through unconditionally, at the
/// head of the output.
pub proof fn lemma_filter_lines_prefix(target: Seq<Seq<u8>>, keys: Seq<Seq<u8>>, skip_n: int)
    requires
        0 <= skip_n <= target.len(),
    ensures
        spec_filter_lines(target, keys, skip_n).len() >= skip_n,
        spec_filter_lines(target, keys, skip_n).take(skip_n) == target.take(skip_n),
{
    lemma_filter_lines_form(target, keys, skip_n);
    let r = spec_filter_lines(target, keys, skip_n);
    assert(r.take(skip_n) =~= target.take(skip_n));
}

/// A filter that every element passes changes nothing.
proof fn lemma_filter_all_kept(s: Seq<Seq<u8>>, p: spec_fn(Seq<u8>) -> bool)
    requires
        forall|i: int| 0 <= i < s.len() ==> p(#[trigger] s[i]),
    ensures
        s.filter(p) == s,
    decreases s.len(),
{
    reveal(Seq::filter);
    if s.len() > 0 {
        lemma_filter_all_kept(s.drop_last(), p);
        assert(s.drop_last().filter(p).push(s.last()) =~= s);
    }
}

/// The filter is idempotent: filtering an already-filtered sequence of
/// lines against the same keys and skip count removes nothing more.
pub proof fn lemma_filter_lines_idempotent(target: Seq<Seq<u8>>, keys: Seq<Seq<u8>>, skip_n: int)
    requires
        0 <= skip_n,
    ensures
        spec_filter_lines(spec_filter_lines(target, keys, skip_n), keys, skip_n)
            == spec_filter_lines(target, keys, skip_n),
{
    reveal(Seq::filter);
    let p = not_key(keys);
    let r = spec_filter_lines(target, keys, skip_n);
    lemma_filter_lines_form(target, keys, skip_n);
    lemma_filter_lines_form(r, keys, skip_n);
    if skip_n <= target.len() {
        let m = skip_n;
        let f = target.skip(m).filter(p);
        assert(r.len() == m + f.len());
        assert(r.take(m) =~= target.take(m));
        assert(r.skip(m) =~= f);
        assert forall|i: int| 0 <= i < f.len() implies p(#[trigger] f[i]) by {
            target.skip(m).lemma_filter_pred(p, i);
        }
        lemma_filter_all_kept(f, p);
        assert(spec_filter_lines(r, keys, skip_n) == r.take(m) + r.skip(m).filter(p));
        assert(r.take(m) + r.skip(m).filter(p) =~= r);
    } else {
        assert(target.skip(target.len() as int) =~= Seq::<Seq<u8>>::empty());
        assert(Seq::<Seq<u8>>::empty().filter(p) == Seq::<Seq<u8>>::empty());
        assert(target.take(target.len() as int) =~= target);
        assert(target + Seq::<Seq<u8>>::empty() =~= target);
        assert(r == target);
    }
}

/// Every line of the output is a line of the target.
pub proof fn lemma_filter_lines_members(target: Seq<Seq<u8>>, keys: Seq<Seq<u8>>, skip_n: int)
    ensures
        forall|j: int|
            0 <= j < spec_filter_lines(target, keys, skip_n).len() ==> target.contains(
                #[trigger] spec_filter_lines(target, keys, skip_n)[j],
            ),
    decreases target.len(),
{
    if target.len() > 0 {
        lemma_filter_lines_members(target.drop_last(), keys, skip_n);
        let fr = spec_filter_lines(target.drop_last(), keys, skip_n);
        let out = spec_filter_lines(target, keys, skip_n);
        assert forall|j: int| 0 <= j < out.len() implies target.contains(out[j]) by {
            if j < fr.len() {
                assert(target.drop_last().contains(fr[j]));
                let w = choose|w: int|
                    0 <= w < target.drop_last().len() && target.drop_last()[w] == fr[j];
                assert(target[w] == fr[j]);
            } else {
                assert(out[j] == target.last());
                assert(target[target.len() - 1] == target.last());
            }
        }
    }
}

/// One newline byte, the line separator of target and query files.
pub open spec fn spec_newline() -> Seq<u8> {
    seq![10u8]
}

/// Each line trimmed of surrounding whitespace.
pub open spec fn spec_trim_all(lines: Seq<Seq<u8>>) -> Seq<Seq<u8>> {
    Seq::new(lines.len(), |i: int| spec_trim(lines[i]))
}

/// The lines of a target text: the text cut at each newline byte, each
/// line trimmed.
pub open spec fn spec_target_lines(text: Seq<u8>) -> Seq<Seq<u8>> {
    spec_trim_all(spec_split(text, spec_newline()))
}

/// The whole pipeline over raw file contents: split both texts into
/// lines, trim the target lines, derive the query keys (dropping the
/// header line unless `no_header` is set), filter, and join the kept
/// lines with newlines.
pub open spec fn spec_run(
    target_text: Seq<u8>,
    query_text: Seq<u8>,
    sep: Seq<u8>,
    skip_n: int,
    no_header: bool,
) -> Seq<u8> {
    let target_lines = spec_target_lines(target_text);
    let keys = spec_query_keys(
        spec_after_header(spec_split(query_text, spec_newline()), !no_header),
        sep,
    );
    spec_join(spec_filter_lines(target_lines, keys, skip_n), spec_newline())
}

/// The whole pipeline is idempotent over raw file contents: filtering
/// an already-filtered file against the same query and options once
/// more yields the same output, with no further lines removed.
pub proof fn lemma_run_idempotent(
    target_text: Seq<u8>,
    query_text: Seq<u8>,
    sep: Seq<u8>,
    skip_n: int,
    no_header: bool,
)
    requires
        0 <= skip_n,
    ensures
        spec_run(
            spec_run(target_text, query_text, sep, skip_n, no_header),
            query_text,
            sep,
            skip_n,
            no_header,
        ) == spec_run(target_text, query_text, sep, skip_n, no_header),
{
    let c: u8 = 10;
    let nl = spec_newline();
    assert(nl =~= seq![c]);
    let keys = spec_query_keys(spec_after_header(spec_split(query_text, nl), !no_header), sep);
    let raw1 = spec_split(target_text, nl);
    let tl1 = spec_trim_all(raw1);
    let kept = spec_filter_lines(tl1, keys, skip_n);
    let out1 = spec_join(kept, nl);
    if kept.len() == 0 {
        assert(out1 =~= Seq::<u8>::empty());
        lemma_find_first_match(out1, nl);
        match spec_find(out1, nl) {
            Some(i) => {
                assert(match_at(out1, nl, i));
                assert(false);
            },
            None => {},
        }
        assert(spec_split(out1, nl) == seq![out1]);
        let tl2 = spec_trim_all(spec_split(out1, nl));
        assert(tl2 =~= seq![out1]);
        let kept2 = spec_filter_lines(tl2, keys, skip_n);
        assert(tl2.drop_last() =~= Seq::<Seq<u8>>::empty());
        assert(spec_filter_lines(Seq::<Seq<u8>>::empty(), keys, skip_n)
            == Seq::<Seq<u8>>::empty());
        assert(tl2.len() == 1);
        assert(tl2.last() == out1);
        if spec_keep(tl2.last(), keys, 0, skip_n) {
            assert(kept2 =~= seq![out1]);
            assert(spec_join(kept2, nl) == out1);
        } else {
            assert(kept2 =~= Seq::<Seq<u8>>::empty());
            assert(spec_join(kept2, nl) =~= out1);
        }
    } else {
        lemma_split_parts_no_byte(target_text, c);
        lemma_filter_lines_members(tl1, keys, skip_n);
        assert forall|j: int| 0 <= j < kept.len() implies no_byte(#[trigger] kept[j], c)
            && spec_trim(kept[j]) == kept[j] by {
            assert(tl1.contains(kept[j]));
            let w = choose|w: int| 0 <= w < tl1.len() && tl1[w] == kept[j];
            assert(tl1[w] == spec_trim(raw1[w]));
            assert(no_byte(raw1[w], c));
            lemma_trim_no_byte(raw1[w], c);
            lemma_trim_trimmed(raw1[w]);
        }
        lemma_split_join_roundtrip(kept, c);
        assert(spec_split(out1, nl) == kept);
        let tl2 = spec_trim_all(spec_split(out1, nl));
        assert(tl2 =~= kept);
        lemma_filter_lines_idempotent(tl1, keys, skip_n);
        assert(spec_filter_lines(kept, keys, skip_n) == kept);
    }
}

/// Runs the whole filter over raw file contents and returns the bytes
/// of the output file.
pub fn run_filter(
    target_text: &Vec<u8>,
    query_text: &Vec<u8>,
    sep: &Vec<u8>,
    skip_n: usize,
    no_header: bool,
) -> (r: Vec<u8>)
    ensures
        r@ == spec_run(target_text@, query_text@, sep@, skip_n as int, no_header),
{
    let mut nl: Vec<u8> = Vec::new();
    nl.push(10u8);
    proof {
        assert(nl@ =~= spec_newline());
    }
    let raw_target = split_on(target_text, &nl);
    proof {
        lemma_lines_deep_view(raw_target);
    }
    let ghost rtv = raw_target.deep_view();
    let mut target_lines: Vec<Vec<u8>> = Vec::new();
    let mut i: usize = 0;
    while i < raw_target.len()
        invariant
            i <= raw_target@.len(),
            rtv == raw_target.deep_view(),
            rtv.len() == raw_target@.len(),
            forall|j: int| 0 <= j < raw_target@.len() ==> rtv[j] == raw_target@[j]@,
            target_lines.deep_view() == spec_trim_all(rtv.take(i as int)),
        decreases raw_target@.len() - i,
    {
        let line = trim_space(&raw_target[i]);
        proof {
            lemma_lines_deep_view(target_lines);
        }
        let ghost prevv = target_lines@;
        let ghost prevdv = target_lines.deep_view();
        target_lines.push(line);
        proof {
            lemma_lines_deep_view(target_lines);
            assert forall|j: int| 0 <= j < i + 1 implies target_lines.deep_view()[j]
                == spec_trim_all(rtv.take(i + 1int))[j] by {
                assert(spec_trim_all(rtv.take(i + 1int))[j] == spec_trim(rtv.take(i + 1int)[j]));
                if j < i {
                    assert(target_lines@[j] == prevv[j]);
                    assert(target_lines.deep_view()[j] == prevdv[j]);
                    assert(prevdv[j] == spec_trim_all(rtv.take(i as int))[j]);
                    assert(spec_trim_all(rtv.take(i as int))[j] == spec_trim(rtv.take(i as int)[j]));
                } else {
                    assert(target_lines.deep_view()[j] == line@);
                }
            }
            assert(target_lines.deep_view() =~= spec_trim_all(rtv.take(i + 1int)));
        }
        i = i + 1;
    }
    proof {
        assert(rtv.take(rtv.len() as int) =~= rtv);
        assert(spec_trim_all(rtv) == spec_target_lines(target_text@));
    }
    let raw_query = split_on(query_text, &nl);
    let keys = extract_query_keys(&raw_query, sep, !no_header);
    let kept = filter_lines(&target_lines, &keys, skip_n);
    join_with(&kept, &nl)
}

} // verus!
