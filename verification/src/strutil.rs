use vstd::prelude::*;

use crate::chars::{chars_range_string, chars_string, str_chars};


verus! {

/// The position of the first separator at or after `i`, or the end.
pub open spec fn sep_end(s: Seq<char>, i: int, sep: char) -> int
    decreases s.len() - i
        when 0 <= i <= s.len()
{
    if i < s.len() && s[i] != sep {
        sep_end(s, i + 1, sep)
    } else {
        i
    }
}

pub proof fn lemma_sep_end_bounds(s: Seq<char>, i: int, sep: char)
    requires
        0 <= i <= s.len(),
    ensures
        i <= sep_end(s, i, sep) <= s.len(),
    decreases s.len() - i,
{
    if i < s.len() && s[i] != sep {
        lemma_sep_end_bounds(s, i + 1, sep);
    }
}

pub proof fn lemma_sep_end_is(s: Seq<char>, i: int, r: int, sep: char)
    requires
        0 <= i <= r <= s.len(),
        forall|j: int| i <= j < r ==> #[trigger] s[j] != sep,
        r < s.len() ==> s[r] == sep,
    ensures
        sep_end(s, i, sep) == r,
    decreases r - i,
{
    if i < r {
        lemma_sep_end_is(s, i + 1, r, sep);
    }
}

/// The segments a character sequence splits into at a separator, starting at
/// position `i`.  Splitting always yields at least one (possibly empty)
/// segment, as `str::split` does.
pub open spec fn split_from(s: Seq<char>, i: int, sep: char) -> Seq<Seq<char>>
    decreases s.len() - i
        when 0 <= i <= s.len()
        via split_from_decreases
{
    let e = sep_end(s, i, sep);
    if e >= s.len() {
        seq![s.subrange(i, s.len() as int)]
    } else {
        seq![s.subrange(i, e)] + split_from(s, e + 1, sep)
    }
}

#[via_fn]
proof fn split_from_decreases(s: Seq<char>, i: int, sep: char) {
    lemma_sep_end_bounds(s, i, sep);
}

/// The segments of a whole character sequence.
pub open spec fn spec_split(s: Seq<char>, sep: char) -> Seq<Seq<char>> {
    split_from(s, 0, sep)
}

/// Split a string at a separator character.
pub fn split_string(s: &str, sep: char) -> (r: Vec<String>)
    ensures
        r.deep_view() == spec_split(s@, sep),
        r@.len() >= 1,
{
    let v = str_chars(s);
    let n = v.len();
    let mut out: Vec<String> = Vec::new();
    let mut i: usize = 0;
    loop
        invariant_except_break
            i <= n == v@.len(),
            out.deep_view() + split_from(v@, i as int, sep) =~= split_from(v@, 0, sep),
        ensures
            out.deep_view() == split_from(v@, 0, sep),
        decreases n - i,
    {
        let mut e: usize = i;
        while e < n && v[e] != sep
            invariant
                i <= e <= n == v@.len(),
                forall|k: int| i <= k < e ==> #[trigger] v@[k] != sep,
            decreases n - e,
        {
            e += 1;
        }
        proof {
            lemma_sep_end_is(v@, i as int, e as int, sep);
        }
        let mut seg: Vec<char> = Vec::new();
        let mut k: usize = i;
        while k < e
            invariant
                i <= k <= e <= v@.len(),
                seg@ == v@.subrange(i as int, k as int),
            decreases e - k,
        {
            seg.push(v[k]);
            k += 1;
            proof {
                assert(seg@ =~= v@.subrange(i as int, k as int));
            }
        }
        let ghost pre = out.deep_view();
        let piece = chars_string(&seg);
        out.push(piece);
        proof {
            assert(out.deep_view() =~= pre.push(v@.subrange(i as int, e as int)));
        }
        if e == n {
            proof {
                assert(split_from(v@, i as int, sep) =~= seq![
                    v@.subrange(i as int, n as int),
                ]);
                assert(out.deep_view() =~= pre + split_from(v@, i as int, sep));
                assert(out.deep_view() =~= split_from(v@, 0, sep));
            }
            break;
        }
        proof {
            assert(split_from(v@, i as int, sep) =~= seq![v@.subrange(i as int, e as int)]
                + split_from(v@, e + 1, sep));
            assert(out.deep_view() + split_from(v@, e + 1, sep) =~= pre + split_from(
                v@,
                i as int,
                sep,
            ));
        }
        i = e + 1;
    }
    proof {
        assert(split_from(v@, 0, sep).len() >= 1);
    }
    out
}

/// Joining segments with a separator.
pub open spec fn join_with(segs: Seq<Seq<char>>, sep: char) -> Seq<char>
    decreases segs.len(),
{
    if segs.len() == 0 {
        Seq::<char>::empty()
    } else if segs.len() == 1 {
        segs[0]
    } else {
        join_with(segs.drop_last(), sep) + seq![sep] + segs.last()
    }
}

/// Join strings with a separator character.
pub fn join_strings(v: &Vec<String>, sep: char) -> (r: String)
    ensures
        r@ == join_with(v.deep_view(), sep),
{
    let mut r = String::new();
    let mut sepbuf: Vec<char> = Vec::new();
    sepbuf.push(sep);
    let seps = chars_string(&sepbuf);
    let mut i: usize = 0;
    while i < v.len()
        invariant
            i <= v@.len(),
            seps@ =~= seq![sep],
            r@ == join_with(v.deep_view().subrange(0, i as int), sep),
        decreases v@.len() - i,
    {
        if i > 0 {
            r.append(seps.as_str());
        }
        r.append(v[i].as_str());
        i += 1;
        proof {
            let pre = v.deep_view().subrange(0, i as int);
            assert(pre.drop_last() =~= v.deep_view().subrange(0, i - 1));
            assert(pre.last() == v.deep_view()[i - 1]);
            if i > 1 {
                assert(r@ =~= join_with(pre, sep));
            } else {
                assert(r@ =~= join_with(pre, sep));
            }
        }
    }
    proof {
        assert(v.deep_view().subrange(0, v.deep_view().len() as int) =~= v.deep_view());
    }
    r
}

/// Whether a vector of strings holds a given string's characters.
pub fn contains_string(v: &Vec<String>, x: &String) -> (r: bool)
    ensures
        r == v.deep_view().contains(x@),
{
    let mut i: usize = 0;
    while i < v.len()
        invariant
            i <= v@.len(),
            forall|j: int| 0 <= j < i ==> v.deep_view()[j] != x@,
        decreases v@.len() - i,
    {
        if v[i] == *x {
            proof {
                assert(v.deep_view()[i as int] == x@);
            }
            return true;
        }
        proof {
            assert(v.deep_view()[i as int] == v@[i as int]@);
        }
        i += 1;
    }
    proof {
        assert(forall|j: int| 0 <= j < v.deep_view().len() ==> v.deep_view()[j] != x@);
    }
    false
}

/// A sequence starts with a prefix.
pub open spec fn starts_with(s: Seq<char>, p: Seq<char>) -> bool {
    s.len() >= p.len() && s.subrange(0, p.len() as int) == p
}

/// Whether the characters of `s` start with the characters of `p`.
pub fn chars_start_with(s: &Vec<char>, from: usize, to: usize, p: &Vec<char>) -> (r: bool)
    requires
        from <= to <= s@.len(),
    ensures
        r == starts_with(s@.subrange(from as int, to as int), p@),
{
    let ghost seg = s@.subrange(from as int, to as int);
    if to - from < p.len() {
        return false;
    }
    let mut i: usize = 0;
    while i < p.len()
        invariant
            i <= p@.len() <= to - from,
            from <= to <= s@.len(),
            seg == s@.subrange(from as int, to as int),
            forall|j: int| 0 <= j < i ==> #[trigger] seg[j] == p@[j],
        decreases p@.len() - i,
    {
        if s[from + i] != p[i] {
            proof {
                assert(seg[i as int] == s@[from + i]);
                if seg.subrange(0, p@.len() as int) == p@ {
                    assert(seg.subrange(0, p@.len() as int)[i as int] == seg[i as int]);
                }
            }
            return false;
        }
        i += 1;
        proof {
            assert(seg[i - 1] == s@[from + i - 1]);
        }
    }
    proof {
        assert(seg.subrange(0, p@.len() as int) =~= p@);
    }
    true
}

/// Whether one string starts with another.
pub fn string_starts_with(s: &str, p: &str) -> (r: bool)
    ensures
        r == starts_with(s@, p@),
{
    let sv = str_chars(s);
    let pv = str_chars(p);
    let n = sv.len();
    proof {
        assert(sv@.subrange(0, n as int) =~= sv@);
    }
    chars_start_with(&sv, 0, n, &pv)
}

/// A sequence contains a given substring.
pub open spec fn contains_seq(s: Seq<char>, p: Seq<char>) -> bool {
    exists|i: int| 0 <= i && i + p.len() <= s.len() && #[trigger] s.subrange(i, i + p.len() as int) == p
}

/// Whether the characters of `s` contain the characters of `p` as a
/// contiguous substring.
#[verifier::loop_isolation(false)]
pub fn chars_contain(s: &Vec<char>, from: usize, to: usize, p: &Vec<char>) -> (r: bool)
    requires
        from <= to <= s@.len(),
    ensures
        r == contains_seq(s@.subrange(from as int, to as int), p@),
{
    let ghost seg = s@.subrange(from as int, to as int);
    let m = p.len();
    if to - from < m {
        proof {
            assert(!contains_seq(seg, p@));
        }
        return false;
    }
    if m == 0 {
        proof {
            assert(contains_seq(seg, p@)) by {
                assert(seg.subrange(0, 0 + p@.len() as int) =~= p@);
            }
        }
        return true;
    }
    let mut i: usize = from;
    while i <= to - m
        invariant
            from <= i,
            i <= to - m + 1,
            to <= s@.len(),
            m == p@.len() <= to - from,
            seg == s@.subrange(from as int, to as int),
            forall|k: int|
                0 <= k < i - from ==> #[trigger] seg.subrange(k, k + p@.len() as int) != p@,
        decreases to - i,
    {
        if chars_start_with(s, i, to, p) {
            proof {
                let sub = s@.subrange(i as int, to as int);
                assert(sub.subrange(0, p@.len() as int) =~= seg.subrange(
                    i - from as int,
                    i - from + p@.len() as int,
                ));
            }
            return true;
        }
        proof {
            let sub = s@.subrange(i as int, to as int);
            assert(sub.subrange(0, p@.len() as int) =~= seg.subrange(
                i - from as int,
                i - from + p@.len() as int,
            ));
        }
        i += 1;
    }
    proof {
        assert forall|k: int| 0 <= k && k + p@.len() <= seg.len() implies #[trigger] seg.subrange(
            k,
            k + p@.len() as int,
        ) != p@ by {
            assert(k < i - from);
        }
    }
    false
}

/// Whether two string slices hold the same characters.
pub fn str_eq(a: &str, b: &str) -> (r: bool)
    ensures
        r == (a@ == b@),
{
    let sa = String::from_str(a);
    let sb = String::from_str(b);
    sa == sb
}

/// The first occurrence of `p` in `s` at or after `from`.
pub open spec fn find_sub(s: Seq<char>, p: Seq<char>, from: int) -> Option<int>
    decreases s.len() - from
        when 0 <= from <= s.len()
{
    if from >= s.len() || from + p.len() > s.len() {
        None
    } else if s.subrange(from, from + p.len() as int) == p {
        Some(from)
    } else {
        find_sub(s, p, from + 1)
    }
}

/// Find the first occurrence of `p` in `s` at or after `from`.
#[verifier::loop_isolation(false)]
pub fn find_sub_chars(s: &Vec<char>, p: &Vec<char>, from: usize) -> (r: Option<usize>)
    requires
        from <= s@.len(),
        p@.len() >= 1,
    ensures
        r matches Some(i) ==> Some(i as int) == find_sub(s@, p@, from as int) && from <= i && i
            + p@.len() <= s@.len(),
        r is None ==> find_sub(s@, p@, from as int) is None,
{
    let n = s.len();
    let m = p.len();
    if m > n || from > n - m {
        proof {
            assert(find_sub(s@, p@, from as int) is None);
        }
        return None;
    }
    let mut i: usize = from;
    while i <= n - m
        invariant
            from <= i,
            i <= n - m + 1,
            find_sub(s@, p@, from as int) == find_sub(s@, p@, i as int),
        decreases n - i,
    {
        if chars_start_with(s, i, n, p) {
            proof {
                assert(s@.subrange(i as int, n as int).subrange(0, p@.len() as int)
                    =~= s@.subrange(i as int, i + p@.len() as int));
            }
            return Some(i);
        }
        proof {
            assert(s@.subrange(i as int, n as int).subrange(0, p@.len() as int) =~= s@.subrange(
                i as int,
                i + p@.len() as int,
            ));
        }
        i += 1;
    }
    None
}


pub proof fn lemma_find_sub_bounds(s: Seq<char>, p: Seq<char>, from: int)
    requires
        0 <= from <= s.len(),
    ensures
        find_sub(s, p, from) matches Some(j) ==> from <= j && j + p.len() <= s.len(),
    decreases s.len() - from,
{
    if from < s.len() && from + p.len() <= s.len() {
        if s.subrange(from, from + p.len() as int) == p {
        } else {
            lemma_find_sub_bounds(s, p, from + 1);
        }
    }
}

/// The segments a character sequence splits into at a separator substring,
/// starting at position `i`.
pub open spec fn split_sub_from(s: Seq<char>, i: int, sep: Seq<char>) -> Seq<Seq<char>>
    decreases s.len() - i
        when 0 <= i <= s.len() && sep.len() >= 1
        via split_sub_from_decreases
{
    match find_sub(s, sep, i) {
        Some(j) => seq![s.subrange(i, j)] + split_sub_from(s, j + sep.len() as int, sep),
        None => seq![s.subrange(i, s.len() as int)],
    }
}

#[via_fn]
proof fn split_sub_from_decreases(s: Seq<char>, i: int, sep: Seq<char>) {
    lemma_find_sub_bounds(s, sep, i);
}

/// Split a string at a separator substring.
pub fn split_sub(s: &str, sep: &str) -> (r: Vec<String>)
    requires
        sep@.len() >= 1,
    ensures
        r.deep_view() == split_sub_from(s@, 0, sep@),
{
    let v = str_chars(s);
    let pv = str_chars(sep);
    let n = v.len();
    let mut out: Vec<String> = Vec::new();
    let mut i: usize = 0;
    loop
        invariant_except_break
            i <= n == v@.len(),
            pv@ == sep@,
            sep@.len() >= 1,
            out.deep_view() + split_sub_from(v@, i as int, sep@) =~= split_sub_from(v@, 0, sep@),
        ensures
            out.deep_view() == split_sub_from(v@, 0, sep@),
        decreases n - i,
    {
        let ghost pre = out.deep_view();
        match find_sub_chars(&v, &pv, i) {
            Some(j) => {
                proof {
                    lemma_find_sub_bounds(v@, sep@, i as int);
                }
                out.push(chars_range_string(&v, i, j));
                proof {
                    assert(out.deep_view() =~= pre.push(v@.subrange(i as int, j as int)));
                    assert(out.deep_view() + split_sub_from(v@, j + sep@.len() as int, sep@)
                        =~= split_sub_from(v@, 0, sep@));
                }
                i = j + pv.len();
            },
            None => {
                out.push(chars_range_string(&v, i, n));
                proof {
                    assert(out.deep_view() =~= pre.push(v@.subrange(i as int, n as int)));
                    assert(out.deep_view() =~= split_sub_from(v@, 0, sep@));
                }
                break;
            },
        }
    }
    out
}

/// Lexicographic order on character sequences, by code point: the order
/// strings sort in.
pub open spec fn lex_le(a: Seq<char>, b: Seq<char>) -> bool
    decreases a.len(),
{
    if a.len() == 0 {
        true
    } else if b.len() == 0 {
        false
    } else if a[0] == b[0] {
        lex_le(a.drop_first(), b.drop_first())
    } else {
        (a[0] as u32) < (b[0] as u32)
    }
}

pub proof fn lemma_lex_total(a: Seq<char>, b: Seq<char>)
    ensures
        lex_le(a, b) || lex_le(b, a),
        lex_le(a, b) && lex_le(b, a) ==> a == b,
    decreases a.len(),
{
    if a.len() == 0 {
        if lex_le(a, b) && lex_le(b, a) {
            assert(b.len() == 0);
            assert(a =~= b);
        }
    } else if b.len() == 0 {
    } else if a[0] == b[0] {
        lemma_lex_total(a.drop_first(), b.drop_first());
        if lex_le(a, b) && lex_le(b, a) {
            assert(a.drop_first() == b.drop_first());
            assert forall|i: int| 0 <= i < a.len() implies a[i] == b[i] by {
                if i > 0 {
                    assert(a[i] == a.drop_first()[i - 1]);
                    assert(b[i] == b.drop_first()[i - 1]);
                }
            }
            assert(a.len() == b.len());
            assert(a =~= b);
        }
    } else {
        assert((a[0] as u32) != (b[0] as u32)) by {
            vstd::utf8::char_u32_cast(a[0], a[0] as u32);
            vstd::utf8::char_u32_cast(b[0], b[0] as u32);
        }
    }
}

pub proof fn lemma_lex_trans(a: Seq<char>, b: Seq<char>, c: Seq<char>)
    requires
        lex_le(a, b),
        lex_le(b, c),
    ensures
        lex_le(a, c),
    decreases a.len(),
{
    if a.len() > 0 && b.len() > 0 && c.len() > 0 {
        if a[0] == b[0] && b[0] == c[0] {
            lemma_lex_trans(a.drop_first(), b.drop_first(), c.drop_first());
        }
    }
}

/// Whether the first character sequence sorts at or before the second.
pub fn lex_le_strings(a: &String, b: &String) -> (r: bool)
    ensures
        r == lex_le(a@, b@),
{
    let av = str_chars(a.as_str());
    let bv = str_chars(b.as_str());
    proof {
        assert(av@.skip(0) =~= av@);
        assert(bv@.skip(0) =~= bv@);
    }
    let mut i: usize = 0;
    loop
        invariant
            i <= av@.len(),
            i <= bv@.len(),
            av@ == a@,
            bv@ == b@,
            lex_le(a@, b@) == lex_le(av@.skip(i as int), bv@.skip(i as int)),
        decreases av@.len() - i,
    {
        if i >= av.len() {
            proof {
                assert(av@.skip(i as int).len() == 0);
            }
            return true;
        }
        if i >= bv.len() {
            proof {
                assert(bv@.skip(i as int).len() == 0);
                assert(av@.skip(i as int).len() > 0);
            }
            return false;
        }
        let ca = av[i];
        let cb = bv[i];
        proof {
            assert(av@.skip(i as int)[0] == av@[i as int]);
            assert(bv@.skip(i as int)[0] == bv@[i as int]);
            assert(av@.skip(i as int).drop_first() =~= av@.skip(i + 1));
            assert(bv@.skip(i as int).drop_first() =~= bv@.skip(i + 1));
        }
        if ca != cb {
            return (ca as u32) < (cb as u32);
        }
        i += 1;
    }
}

} // verus!
