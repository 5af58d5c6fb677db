//! Byte-level text primitives: substring search, slicing, trimming,
//! splitting and joining.

use vstd::prelude::*;

verus! {

/// The separator occurs in `s` starting at position `i`.
pub open spec fn match_at(s: Seq<u8>, sep: Seq<u8>, i: int) -> bool {
    0 <= i && i + sep.len() <= s.len() && s.subrange(i, i + sep.len() as int) == sep
}

/// Position of the first occurrence of `sep` in `s`, if any.
pub open spec fn spec_find(s: Seq<u8>, sep: Seq<u8>) -> Option<int>
    decreases s.len(),
{
    if sep.len() <= s.len() && s.take(sep.len() as int) == sep {
        Some(0int)
    } else if s.len() == 0 {
        None
    } else {
        match spec_find(s.skip(1), sep) {
            Some(i) => Some(i + 1),
            None => None,
        }
    }
}

/// `spec_find` returns the first match position: a match where it returns
/// `Some`, with none earlier, and no match at all where it returns `None`.
pub proof fn lemma_find_first_match(s: Seq<u8>, sep: Seq<u8>)
    ensures
        match spec_find(s, sep) {
            Some(i) => match_at(s, sep, i) && (forall|j: int| 0 <= j < i ==> !match_at(s, sep, j)),
            None => forall|j: int| !match_at(s, sep, j),
        },
    decreases s.len(),
{
    if sep.len() <= s.len() && s.take(sep.len() as int) == sep {
        assert(s.take(sep.len() as int) == s.subrange(0, sep.len() as int));
    } else if s.len() == 0 {
        assert(forall|j: int| !match_at(s, sep, j)) by {
            assert forall|j: int| !match_at(s, sep, j) by {
                if match_at(s, sep, j) {
                    assert(s.subrange(j, j + sep.len() as int) == sep);
                    assert(sep.len() == 0);
                    assert(s.take(sep.len() as int) =~= sep);
                }
            }
        }
    } else {
        lemma_find_first_match(s.skip(1), sep);
        assert forall|j: int| 1 <= j && j + sep.len() <= s.len() implies
            match_at(s, sep, j) == match_at(s.skip(1), sep, j - 1) by {
            assert(s.skip(1).subrange(j - 1, j - 1 + sep.len() as int)
                =~= s.subrange(j, j + sep.len() as int));
        }
        match spec_find(s.skip(1), sep) {
            Some(i) => {
                assert(match_at(s, sep, i + 1));
                assert forall|j: int| 0 <= j < i + 1 implies !match_at(s, sep, j) by {
                    if j == 0 {
                        if match_at(s, sep, 0) {
                            assert(s.subrange(0, sep.len() as int) =~= s.take(sep.len() as int));
                        }
                    }
                }
            },
            None => {
                assert forall|j: int| !match_at(s, sep, j) by {
                    if match_at(s, sep, j) {
                        if j == 0 {
                            assert(s.subrange(0, sep.len() as int) =~= s.take(sep.len() as int));
                        } else {
                            assert(match_at(s.skip(1), sep, j - 1));
                        }
                    }
                }
            },
        }
    }
}

/// The separator matches `s` at position `i`.
fn is_match(s: &Vec<u8>, sep: &Vec<u8>, i: usize) -> (r: bool)
    requires
        i + sep@.len() <= s@.len(),
    ensures
        r == match_at(s@, sep@, i as int),
{
    let n = s.len();
    let mut k: usize = 0;
    while k < sep.len()
        invariant
            n == s@.len(),
            i + sep@.len() <= s@.len(),
            k <= sep@.len(),
            forall|m: int| 0 <= m < k ==> s@[i + m] == sep@[m],
        decreases sep@.len() - k,
    {
        if s[i + k] != sep[k] {
            assert(!match_at(s@, sep@, i as int)) by {
                if s@.subrange(i as int, i + sep@.len() as int) == sep@ {
                    assert(s@.subrange(i as int, i + sep@.len() as int)[k as int] == s@[i + k]);
                }
            }
            return false;
        }
        k = k + 1;
    }
    assert(s@.subrange(i as int, i + sep@.len() as int) =~= sep@);
    true
}

/// Position of the first occurrence of `sep` in `s`, if any.
pub fn find_first(s: &Vec<u8>, sep: &Vec<u8>) -> (r: Option<usize>)
    ensures
        match r {
            Some(i) => spec_find(s@, sep@) == Some(i as int),
            None => spec_find(s@, sep@) is None,
        },
{
    if sep.len() == 0 {
        proof {
            assert(s@.take(0) =~= sep@);
        }
        return Some(0);
    }
    if sep.len() > s.len() {
        proof {
            lemma_find_first_match(s@, sep@);
        }
        return None;
    }
    let end = s.len() - sep.len();
    let mut i: usize = 0;
    while i <= end
        invariant
            1 <= sep@.len() <= s@.len(),
            end == s@.len() - sep@.len(),
            end < usize::MAX,
            i <= end + 1,
            forall|j: int| 0 <= j < i ==> !match_at(s@, sep@, j),
        decreases end + 1 - i,
    {
        if is_match(s, sep, i) {
            proof {
                lemma_find_first_match(s@, sep@);
            }
            return Some(i);
        }
        i = i + 1;
    }
    proof {
        lemma_find_first_match(s@, sep@);
        assert forall|j: int| !match_at(s@, sep@, j) by {
            if match_at(s@, sep@, j) {
                assert(0 <= j < i);
            }
        }
    }
    None
}

/// The byte is ASCII whitespace: space, tab, line feed, vertical tab,
/// form feed or carriage return.
pub open spec fn is_space(b: u8) -> bool {
    b == 32 || (9 <= b && b <= 13)
}

/// The two bytes are the UTF-8 encoding of a two-byte whitespace
/// character: next line (U+0085) or no-break space (U+00A0).
pub open spec fn is_space2(b0: u8, b1: u8) -> bool {
    b0 == 0xc2 && (b1 == 0x85 || b1 == 0xa0)
}

/// The three bytes are the UTF-8 encoding of a three-byte whitespace
/// character: the ogham space mark (U+1680), the typographic spaces
/// (U+2000 through U+200A), the line and paragraph separators (U+2028,
/// U+2029), the narrow no-break space (U+202F), the medium mathematical
/// space (U+205F), or the ideographic space (U+3000).
pub open spec fn is_space3(b0: u8, b1: u8, b2: u8) -> bool {
    (b0 == 0xe1 && b1 == 0x9a && b2 == 0x80) || (b0 == 0xe2 && b1 == 0x80 && (0x80 <= b2 && b2
        <= 0x8a)) || (b0 == 0xe2 && b1 == 0x80 && (b2 == 0xa8 || b2 == 0xa9)) || (b0 == 0xe2 && b1
        == 0x80 && b2 == 0xaf) || (b0 == 0xe2 && b1 == 0x81 && b2 == 0x9f) || (b0 == 0xe3 && b1
        == 0x80 && b2 == 0x80)
}

/// Length of the whitespace character encoding at the front of `s`:
/// 1, 2 or 3 bytes, or 0 where `s` does not start with whitespace.
pub open spec fn space_prefix_len(s: Seq<u8>) -> int {
    if s.len() >= 1 && is_space(s[0]) {
        1
    } else if s.len() >= 2 && is_space2(s[0], s[1]) {
        2
    } else if s.len() >= 3 && is_space3(s[0], s[1], s[2]) {
        3
    } else {
        0
    }
}

/// Length of the whitespace character encoding at the back of `s`:
/// 1, 2 or 3 bytes, or 0 where `s` does not end with whitespace.
pub open spec fn space_suffix_len(s: Seq<u8>) -> int {
    let n = s.len() as int;
    if s.len() >= 1 && is_space(s[n - 1]) {
        1
    } else if s.len() >= 2 && is_space2(s[n - 2], s[n - 1]) {
        2
    } else if s.len() >= 3 && is_space3(s[n - 3], s[n - 2], s[n - 1]) {
        3
    } else {
        0
    }
}

/// `s` with all leading and trailing whitespace characters removed,
/// recognised by their UTF-8 encodings.
pub open spec fn spec_trim(s: Seq<u8>) -> Seq<u8>
    decreases s.len(),
{
    let p = space_prefix_len(s);
    let q = space_suffix_len(s);
    if p > 0 {
        spec_trim(s.skip(p))
    } else if q > 0 {
        spec_trim(s.take(s.len() - q))
    } else {
        s
    }
}

/// The elements of `parts` concatenated, with `sep` between neighbours.
pub open spec fn spec_join(parts: Seq<Seq<u8>>, sep: Seq<u8>) -> Seq<u8>
    decreases parts.len(),
{
    if parts.len() == 0 {
        Seq::empty()
    } else if parts.len() == 1 {
        parts[0]
    } else {
        spec_join(parts.drop_last(), sep) + sep + parts.last()
    }
}

/// `s` cut at each occurrence of `sep`, scanning left to right; the
/// separators themselves are dropped. Specified only for a non-empty
/// separator.
pub open spec fn spec_split(s: Seq<u8>, sep: Seq<u8>) -> Seq<Seq<u8>>
    decreases s.len(),
        when sep.len() > 0
        via spec_split_decreases
{
    match spec_find(s, sep) {
        None => seq![s],
        Some(i) => seq![s.take(i)] + spec_split(s.skip(i + sep.len() as int), sep),
    }
}

#[via_fn]
proof fn spec_split_decreases(s: Seq<u8>, sep: Seq<u8>) {
    lemma_find_first_match(s, sep);
}

/// A fresh vector holding the bytes of `s` from `from` (inclusive)
/// to `to` (exclusive).
pub fn subvec(s: &Vec<u8>, from: usize, to: usize) -> (r: Vec<u8>)
    requires
        from <= to <= s@.len(),
    ensures
        r@ == s@.subrange(from as int, to as int),
{
    let mut r: Vec<u8> = Vec::new();
    let mut k: usize = from;
    while k < to
        invariant
            from <= k <= to <= s@.len(),
            r@ == s@.subrange(from as int, k as int),
        decreases to - k,
    {
        r.push(s[k]);
        proof {
            assert(r@ =~= s@.subrange(from as int, k + 1int));
        }
        k = k + 1;
    }
    r
}

/// The two byte vectors hold the same bytes.
pub fn bytes_eq(a: &Vec<u8>, b: &Vec<u8>) -> (r: bool)
    ensures
        r == (a@ == b@),
{
    if a.len() != b.len() {
        return false;
    }
    let mut k: usize = 0;
    while k < a.len()
        invariant
            a@.len() == b@.len(),
            k <= a@.len(),
            forall|m: int| 0 <= m < k ==> a@[m] == b@[m],
        decreases a@.len() - k,
    {
        if a[k] != b[k] {
            return false;
        }
        k = k + 1;
    }
    proof {
        assert(a@ =~= b@);
    }
    true
}

/// The byte `c` does not occur in `s`.
pub open spec fn no_byte(s: Seq<u8>, c: u8) -> bool {
    forall|k: int| 0 <= k < s.len() ==> s[k] != c
}

/// A trimmed sequence neither starts nor ends with a whitespace
/// character, and trimming it again changes nothing.
pub proof fn lemma_trim_trimmed(s: Seq<u8>)
    ensures
        space_prefix_len(spec_trim(s)) == 0,
        space_suffix_len(spec_trim(s)) == 0,
        spec_trim(spec_trim(s)) == spec_trim(s),
    decreases s.len(),
{
    let p = space_prefix_len(s);
    let q = space_suffix_len(s);
    if p > 0 {
        lemma_trim_trimmed(s.skip(p));
    } else if q > 0 {
        lemma_trim_trimmed(s.take(s.len() - q));
    }
}

/// Trimming removes no occurrence constraint: a byte absent from `s`
/// is absent from its trimmed form.
pub proof fn lemma_trim_no_byte(s: Seq<u8>, c: u8)
    requires
        no_byte(s, c),
    ensures
        no_byte(spec_trim(s), c),
    decreases s.len(),
{
    let p = space_prefix_len(s);
    let q = space_suffix_len(s);
    if p > 0 {
        assert forall|k: int| 0 <= k < s.skip(p).len() implies s.skip(p)[k] != c by {
            assert(s.skip(p)[k] == s[k + p]);
        }
        lemma_trim_no_byte(s.skip(p), c);
    } else if q > 0 {
        let t = s.take(s.len() - q);
        assert forall|k: int| 0 <= k < t.len() implies #[trigger] t[k] != c by {
            assert(t[k] == s[k]);
        }
        lemma_trim_no_byte(t, c);
    }
}

/// No element of a split on a one-byte separator holds that byte.
pub proof fn lemma_split_parts_no_byte(s: Seq<u8>, c: u8)
    ensures
        forall|j: int|
            0 <= j < spec_split(s, seq![c]).len() ==> no_byte(
                #[trigger] spec_split(s, seq![c])[j],
                c,
            ),
    decreases s.len(),
{
    let sep = seq![c];
    lemma_find_first_match(s, sep);
    match spec_find(s, sep) {
        None => {
            assert forall|k: int| 0 <= k < s.len() implies s[k] != c by {
                if s[k] == c {
                    assert(s.subrange(k, k + 1) =~= sep);
                    assert(match_at(s, sep, k));
                }
            }
            assert(spec_split(s, sep) == seq![s]);
        },
        Some(i) => {
            lemma_split_parts_no_byte(s.skip(i + 1), c);
            let head = s.take(i);
            assert forall|k: int| 0 <= k < head.len() implies head[k] != c by {
                if head[k] == c {
                    assert(s.subrange(k, k + 1) =~= sep);
                    assert(match_at(s, sep, k));
                }
            }
            assert(spec_split(s, sep) == seq![head] + spec_split(s.skip(i + 1), sep));
        },
    }
}

/// Unfolding a join at the front instead of the back.
pub proof fn lemma_join_front(parts: Seq<Seq<u8>>, sep: Seq<u8>)
    requires
        parts.len() >= 2,
    ensures
        spec_join(parts, sep) == parts[0] + sep + spec_join(parts.skip(1), sep),
    decreases parts.len(),
{
    if parts.len() == 2 {
        assert(parts.drop_last() =~= seq![parts[0]]);
        assert(parts.skip(1) =~= seq![parts[1]]);
        assert(spec_join(seq![parts[0]], sep) == parts[0]);
        assert(spec_join(seq![parts[1]], sep) == parts[1]);
    } else {
        lemma_join_front(parts.drop_last(), sep);
        assert(parts.skip(1).drop_last() =~= parts.drop_last().skip(1));
        assert(parts.skip(1).last() == parts.last());
        assert(parts.skip(1).len() >= 2);
        assert((parts[0] + sep + spec_join(parts.drop_last().skip(1), sep)) + sep + parts.last()
            =~= parts[0] + sep + (spec_join(parts.skip(1).drop_last(), sep) + sep + parts.skip(
            1,
        ).last()));
    }
}

/// The first occurrence of a one-byte separator in `a + [c] + b` falls
/// right after `a`, provided `a` does not hold the byte itself.
proof fn lemma_find_after_prefix(a: Seq<u8>, b: Seq<u8>, c: u8)
    requires
        no_byte(a, c),
    ensures
        spec_find(a + seq![c] + b, seq![c]) == Some(a.len() as int),
{
    let sep = seq![c];
    let s = a + sep + b;
    lemma_find_first_match(s, sep);
    assert(s[a.len() as int] == c);
    assert(s.subrange(a.len() as int, a.len() as int + 1) =~= sep);
    assert(match_at(s, sep, a.len() as int));
    assert forall|j: int| 0 <= j < a.len() implies !match_at(s, sep, j) by {
        if match_at(s, sep, j) {
            assert(s.subrange(j, j + 1)[0] == s[j]);
            assert(s[j] == a[j]);
        }
    }
    match spec_find(s, sep) {
        None => {
            assert(false);
        },
        Some(i) => {
            if i < a.len() {
                assert(false);
            }
            if i > a.len() {
                assert(!match_at(s, sep, a.len() as int));
                assert(false);
            }
        },
    }
}

/// Splitting a join on a one-byte separator gives the parts back,
/// provided none of them holds the byte itself.
pub proof fn lemma_split_join_roundtrip(parts: Seq<Seq<u8>>, c: u8)
    requires
        parts.len() >= 1,
        forall|j: int| 0 <= j < parts.len() ==> no_byte(#[trigger] parts[j], c),
    ensures
        spec_split(spec_join(parts, seq![c]), seq![c]) == parts,
    decreases parts.len(),
{
    let sep = seq![c];
    if parts.len() == 1 {
        let p = parts[0];
        assert(spec_join(parts, sep) == p);
        lemma_find_first_match(p, sep);
        match spec_find(p, sep) {
            Some(i) => {
                assert(p.subrange(i, i + 1)[0] == p[i]);
                assert(false);
            },
            None => {},
        }
        assert(spec_split(p, sep) == seq![p]);
        assert(seq![p] =~= parts);
    } else {
        lemma_join_front(parts, sep);
        let a = parts[0];
        let rest = spec_join(parts.skip(1), sep);
        let s = a + sep + rest;
        lemma_find_after_prefix(a, rest, c);
        assert(s.take(a.len() as int) =~= a);
        assert(s.skip(a.len() as int + 1) =~= rest);
        assert(spec_split(s, sep) == seq![a] + spec_split(rest, sep));
        assert forall|j: int| 0 <= j < parts.skip(1).len() implies no_byte(
            #[trigger] parts.skip(1)[j],
            c,
        ) by {
            assert(parts.skip(1)[j] == parts[j + 1]);
        }
        lemma_split_join_roundtrip(parts.skip(1), c);
        assert(seq![a] + parts.skip(1) =~= parts);
    }
}

/// The deep view of a vector of byte vectors, element by element.
pub proof fn lemma_lines_deep_view(v: Vec<Vec<u8>>)
    ensures
        v.deep_view().len() == v@.len(),
        forall|i: int| 0 <= i < v@.len() ==> v.deep_view()[i] == v@[i]@,
{
    assert forall|i: int| 0 <= i < v@.len() implies v.deep_view()[i] == v@[i]@ by {
        assert(v@[i].deep_view() =~= v@[i]@);
    }
}

/// The byte is ASCII whitespace.
fn is_space_byte(b: u8) -> (r: bool)
    ensures
        r == is_space(b),
{
    b == 32 || (9 <= b && b <= 13)
}

/// The two bytes encode a two-byte whitespace character.
fn is_space2_bytes(b0: u8, b1: u8) -> (r: bool)
    ensures
        r == is_space2(b0, b1),
{
    b0 == 0xc2 && (b1 == 0x85 || b1 == 0xa0)
}

/// The three bytes encode a three-byte whitespace character.
fn is_space3_bytes(b0: u8, b1: u8, b2: u8) -> (r: bool)
    ensures
        r == is_space3(b0, b1, b2),
{
    (b0 == 0xe1 && b1 == 0x9a && b2 == 0x80) || (b0 == 0xe2 && b1 == 0x80 && (0x80 <= b2 && b2
        <= 0x8a)) || (b0 == 0xe2 && b1 == 0x80 && (b2 == 0xa8 || b2 == 0xa9)) || (b0 == 0xe2 && b1
        == 0x80 && b2 == 0xaf) || (b0 == 0xe2 && b1 == 0x81 && b2 == 0x9f) || (b0 == 0xe3 && b1
        == 0x80 && b2 == 0x80)
}

/// Length of the whitespace character encoding at the front of the
/// byte range `from..to` of `s`.
fn space_prefix_at(s: &Vec<u8>, from: usize, to: usize) -> (p: usize)
    requires
        from <= to <= s@.len(),
    ensures
        p == space_prefix_len(s@.subrange(from as int, to as int)),
{
    let n = to - from;
    if n >= 1 && is_space_byte(s[from]) {
        1
    } else if n >= 2 && is_space2_bytes(s[from], s[from + 1]) {
        2
    } else if n >= 3 && is_space3_bytes(s[from], s[from + 1], s[from + 2]) {
        3
    } else {
        0
    }
}

/// Length of the whitespace character encoding at the back of the
/// byte range `from..to` of `s`.
fn space_suffix_at(s: &Vec<u8>, from: usize, to: usize) -> (q: usize)
    requires
        from <= to <= s@.len(),
    ensures
        q == space_suffix_len(s@.subrange(from as int, to as int)),
{
    let n = to - from;
    if n >= 1 && is_space_byte(s[to - 1]) {
        1
    } else if n >= 2 && is_space2_bytes(s[to - 2], s[to - 1]) {
        2
    } else if n >= 3 && is_space3_bytes(s[to - 3], s[to - 2], s[to - 1]) {
        3
    } else {
        0
    }
}

/// `s` with leading and trailing whitespace characters removed,
/// recognised by their UTF-8 encodings.
pub fn trim_space(s: &Vec<u8>) -> (r: Vec<u8>)
    ensures
        r@ == spec_trim(s@),
{
    let mut a: usize = 0;
    let mut b: usize = s.len();
    proof {
        assert(s@.subrange(0, s@.len() as int) =~= s@);
    }
    let mut scanning = true;
    while scanning
        invariant
            a <= b <= s@.len(),
            spec_trim(s@) == spec_trim(s@.subrange(a as int, b as int)),
            !scanning ==> space_prefix_len(s@.subrange(a as int, b as int)) == 0,
        decreases b - a + (if scanning {
            1int
        } else {
            0int
        }),
    {
        let p = space_prefix_at(s, a, b);
        if p == 0 {
            scanning = false;
        } else {
            proof {
                assert(s@.subrange(a as int, b as int).skip(p as int) =~= s@.subrange(
                    a + p as int,
                    b as int,
                ));
            }
            a = a + p;
        }
    }
    scanning = true;
    while scanning
        invariant
            a <= b <= s@.len(),
            spec_trim(s@) == spec_trim(s@.subrange(a as int, b as int)),
            space_prefix_len(s@.subrange(a as int, b as int)) == 0,
            !scanning ==> space_suffix_len(s@.subrange(a as int, b as int)) == 0,
        decreases b - a + (if scanning {
            1int
        } else {
            0int
        }),
    {
        let q = space_suffix_at(s, a, b);
        if q == 0 {
            scanning = false;
        } else {
            proof {
                let sub = s@.subrange(a as int, b as int);
                let shrunk = s@.subrange(a as int, b - q as int);
                assert(sub.take(sub.len() - q as int) =~= shrunk);
                assert forall|k: int| 0 <= k < shrunk.len() implies shrunk[k] == sub[k] by {}
            }
            b = b - q;
        }
    }
    subvec(s, a, b)
}

/// Appends every byte of `src` to `dst`, in order.
fn push_all(dst: &mut Vec<u8>, src: &Vec<u8>)
    ensures
        final(dst)@ == old(dst)@ + src@,
{
    let mut k: usize = 0;
    while k < src.len()
        invariant
            k <= src@.len(),
            dst@ == old(dst)@ + src@.take(k as int),
        decreases src@.len() - k,
    {
        dst.push(src[k]);
        proof {
            assert(old(dst)@ + src@.take(k + 1int) =~= (old(dst)@ + src@.take(k as int)).push(
                src@[k as int],
            ));
        }
        k = k + 1;
    }
    proof {
        assert(src@.take(src@.len() as int) =~= src@);
    }
}

/// The elements of `parts` concatenated, with `sep` between neighbours.
pub fn join_with(parts: &Vec<Vec<u8>>, sep: &Vec<u8>) -> (r: Vec<u8>)
    ensures
        r@ == spec_join(parts.deep_view(), sep@),
{
    let ghost pv = parts.deep_view();
    proof {
        lemma_lines_deep_view(*parts);
    }
    let mut r: Vec<u8> = Vec::new();
    let mut i: usize = 0;
    while i < parts.len()
        invariant
            i <= parts@.len(),
            pv == parts.deep_view(),
            pv.len() == parts@.len(),
            forall|j: int| 0 <= j < parts@.len() ==> pv[j] == parts@[j]@,
            r@ == spec_join(pv.take(i as int), sep@),
        decreases parts@.len() - i,
    {
        if i > 0 {
            push_all(&mut r, sep);
        }
        push_all(&mut r, &parts[i]);
        proof {
            assert(pv.take(i + 1int).drop_last() =~= pv.take(i as int));
            assert(pv.take(i + 1int).last() == pv[i as int]);
            if i == 0 {
                assert(r@ =~= pv[0]);
                assert(spec_join(pv.take(1), sep@) == pv.take(1)[0]);
            }
        }
        i = i + 1;
    }
    proof {
        assert(pv.take(pv.len() as int) =~= pv);
    }
    r
}

/// `s` cut at each occurrence of `sep`, scanning left to right.
pub fn split_on(s: &Vec<u8>, sep: &Vec<u8>) -> (r: Vec<Vec<u8>>)
    requires
        sep@.len() > 0,
    ensures
        r.deep_view() == spec_split(s@, sep@),
{
    let mut out: Vec<Vec<u8>> = Vec::new();
    let mut rest: Vec<u8> = subvec(s, 0, s.len());
    let mut more = true;
    proof {
        assert(s@.subrange(0, s@.len() as int) =~= s@);
    }
    while more
        invariant
            sep@.len() > 0,
            more ==> out.deep_view() + spec_split(rest@, sep@) == spec_split(s@, sep@),
            !more ==> out.deep_view() == spec_split(s@, sep@),
        decreases rest@.len() + (if more {
            1int
        } else {
            0int
        }),
    {
        let ghost prev = out.deep_view();
        let ghost restv = rest@;
        match find_first(&rest, sep) {
            None => {
                out.push(rest);
                rest = Vec::new();
                more = false;
                proof {
                    lemma_lines_deep_view(out);
                    assert(out.deep_view() =~= prev.push(restv));
                    assert(spec_split(restv, sep@) == seq![restv]);
                    assert(prev.push(restv) =~= prev + seq![restv]);
                }
            },
            Some(i) => {
                proof {
                    lemma_find_first_match(restv, sep@);
                }
                let rl = rest.len();
                proof {
                    assert(i + sep@.len() <= rest@.len());
                }
                let head = subvec(&rest, 0, i);
                let tail = subvec(&rest, i + sep.len(), rl);
                out.push(head);
                rest = tail;
                proof {
                    lemma_lines_deep_view(out);
                    assert(restv.subrange(0, i as int) =~= restv.take(i as int));
                    assert(restv.subrange(i + sep@.len() as int, restv.len() as int) =~= restv.skip(
                        i + sep@.len() as int,
                    ));
                    assert(spec_split(restv, sep@) == seq![restv.take(i as int)] + spec_split(
                        restv.skip(i + sep@.len() as int),
                        sep@,
                    ));
                    assert(out.deep_view() =~= prev.push(restv.take(i as int)));
                    assert(prev.push(restv.take(i as int)) + spec_split(rest@, sep@) =~= prev + (
                    seq![restv.take(i as int)] + spec_split(rest@, sep@)));
                }
            },
        }
    }
    out
}

} // verus!
