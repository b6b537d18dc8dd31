//! Verified character-level string utilities: searching, splitting on a
//! separator, and substring replacement, together with the spec functions
//! that the rest of the crate states its contracts over.

use vstd::prelude::*;

verus! {

use vstd::string::*;

/// `pat` occurs in `s` starting at position `i`.
pub open spec fn contains_at(s: Seq<char>, i: int, pat: Seq<char>) -> bool {
    &&& 0 <= i
    &&& i + pat.len() <= s.len()
    &&& s.subrange(i, i + pat.len() as int) == pat
}

/// `pat` occurs somewhere in `s`.
pub open spec fn contains_seq(s: Seq<char>, pat: Seq<char>) -> bool {
    exists|i: int| contains_at(s, i, pat)
}

/// `p` is a prefix of `s`.
pub open spec fn is_prefix(p: Seq<char>, s: Seq<char>) -> bool {
    p.len() <= s.len() && s.subrange(0, p.len() as int) == p
}

/// `s` holds the character `c`.
pub open spec fn has_char(s: Seq<char>, c: char) -> bool {
    exists|i: int| 0 <= i < s.len() && s[i] == c
}

/// A whitespace character, as `str::trim` understands it: Unicode's
/// White_Space set.
pub open spec fn is_space(c: char) -> bool {
    let u = c as u32;
    ||| u == 0x20
    ||| (0x09 <= u && u <= 0x0D)
    ||| u == 0x85
    ||| u == 0xA0
    ||| u == 0x1680
    ||| (0x2000 <= u && u <= 0x200A)
    ||| u == 0x2028
    ||| u == 0x2029
    ||| u == 0x202F
    ||| u == 0x205F
    ||| u == 0x3000
}

/// Whether `c` is whitespace.
pub fn char_is_space(c: char) -> (b: bool)
    ensures
        b == is_space(c),
{
    let u = c as u32;
    u == 0x20 || (0x09 <= u && u <= 0x0D) || u == 0x85 || u == 0xA0 || u == 0x1680 || (0x2000 <= u
        && u <= 0x200A) || u == 0x2028 || u == 0x2029 || u == 0x202F || u == 0x205F || u == 0x3000
}

/// `s` without its leading and trailing whitespace.
pub open spec fn trim_seq(s: Seq<char>) -> Seq<char>
    decreases s.len(),
{
    if s.len() == 0 {
        s
    } else if is_space(s.first()) {
        trim_seq(s.drop_first())
    } else if is_space(s.last()) {
        trim_seq(s.drop_last())
    } else {
        s
    }
}

/// Strips leading and trailing whitespace.
pub fn trim_str(s: &str) -> (r: &str)
    ensures
        r@ == trim_seq(s@),
{
    let n: usize = s.unicode_len();
    let mut lo: usize = 0;
    let mut hi: usize = n;
    proof {
        assert(s@.subrange(0, n as int) =~= s@);
    }
    while lo < hi && char_is_space(s.get_char(lo))
        invariant
            lo <= hi <= n,
            n == s@.len(),
            trim_seq(s@) == trim_seq(s@.subrange(lo as int, hi as int)),
        decreases hi - lo,
    {
        proof {
            let t = s@.subrange(lo as int, hi as int);
            assert(t.first() == s@[lo as int]);
            assert(t.drop_first() =~= s@.subrange(lo + 1, hi as int));
        }
        lo = lo + 1;
    }
    while lo < hi && char_is_space(s.get_char(hi - 1))
        invariant
            lo <= hi <= n,
            n == s@.len(),
            trim_seq(s@) == trim_seq(s@.subrange(lo as int, hi as int)),
            lo < hi ==> !is_space(s@[lo as int]),
        decreases hi,
    {
        proof {
            let t = s@.subrange(lo as int, hi as int);
            assert(t.first() == s@[lo as int]);
            assert(t.last() == s@[hi - 1]);
            assert(t.drop_last() =~= s@.subrange(lo as int, hi - 1));
        }
        hi = hi - 1;
    }
    proof {
        let t = s@.subrange(lo as int, hi as int);
        if lo == hi {
            assert(t =~= Seq::<char>::empty());
        } else {
            assert(t.first() == s@[lo as int]);
            assert(t.last() == s@[hi - 1]);
            assert(trim_seq(t) == t);
        }
    }
    s.substring_char(lo, hi)
}

/// The position of the first occurrence of `c` in `s`, or `s.len()` if there
/// is none.
pub open spec fn first_index_of(s: Seq<char>, c: char) -> int
    decreases s.len(),
{
    if s.len() == 0 {
        0
    } else if s[0] == c {
        0
    } else {
        1 + first_index_of(s.skip(1), c)
    }
}

pub proof fn lemma_first_index_of(s: Seq<char>, c: char)
    ensures
        0 <= first_index_of(s, c) <= s.len(),
        has_char(s, c) <==> first_index_of(s, c) < s.len(),
        first_index_of(s, c) < s.len() ==> s[first_index_of(s, c)] == c,
        forall|k: int| 0 <= k < first_index_of(s, c) ==> s[k] != c,
    decreases s.len(),
{
    if s.len() == 0 {
    } else if s[0] == c {
    } else {
        lemma_first_index_of(s.skip(1), c);
        let f = first_index_of(s, c);
        assert(forall|k: int| 1 <= k < f ==> s[k] == s.skip(1)[k - 1]);
        if f < s.len() {
            assert(s[f] == s.skip(1)[f - 1]);
        }
        if has_char(s, c) {
            let i = choose|i: int| 0 <= i < s.len() && s[i] == c;
            assert(i >= 1);
            assert(s.skip(1)[i - 1] == c);
            assert(has_char(s.skip(1), c));
        }
        if has_char(s.skip(1), c) {
            let i = choose|i: int| 0 <= i < s.skip(1).len() && s.skip(1)[i] == c;
            assert(s[i + 1] == c);
            assert(has_char(s, c));
        }
    }
}

/// Whether `pat` occurs in `s` at position `i`, by character comparison.
pub fn is_pat_at(s: &str, i: usize, pat: &str) -> (b: bool)
    ensures
        b == contains_at(s@, i as int, pat@),
{
    let n: usize = s.unicode_len();
    let m: usize = pat.unicode_len();
    if m > n || i > n - m {
        return false;
    }
    let mut j: usize = 0;
    while j < m
        invariant
            m <= n,
            i <= n - m,
            j <= m,
            n == s@.len(),
            m == pat@.len(),
            forall|k: int| 0 <= k < j ==> s@[i + k] == pat@[k],
        decreases m - j,
    {
        if s.get_char(i + j) != pat.get_char(j) {
            assert(s@.subrange(i as int, i + m as int)[j as int] != pat@[j as int]);
            return false;
        }
        j = j + 1;
    }
    assert(s@.subrange(i as int, i + m as int) =~= pat@);
    true
}

/// The position of the first occurrence of `c` in `s`, if any.
pub fn find_char(s: &str, c: char) -> (r: Option<usize>)
    ensures
        match r {
            Some(i) => i == first_index_of(s@, c) && i < s@.len() && s@[i as int] == c,
            None => !has_char(s@, c) && first_index_of(s@, c) == s@.len(),
        },
{
    let n: usize = s.unicode_len();
    let mut i: usize = 0;
    while i < n
        invariant
            i <= n,
            n == s@.len(),
            forall|k: int| 0 <= k < i ==> s@[k] != c,
        decreases n - i,
    {
        if s.get_char(i) == c {
            proof {
                lemma_first_index_of(s@, c);
                let f = first_index_of(s@, c);
                if f < i {
                    assert(s@[f] != c);
                }
            }
            return Some(i);
        }
        i = i + 1;
    }
    proof {
        lemma_first_index_of(s@, c);
    }
    None
}

/// The result of replacing every occurrence of `pat` in `s` by `rep`,
/// scanning left to right and never rescanning replaced text, as
/// `str::replace` does.
pub open spec fn replace_seq(s: Seq<char>, pat: Seq<char>, rep: Seq<char>) -> Seq<char>
    decreases s.len(),
{
    if s.len() == 0 {
        Seq::empty()
    } else if pat.len() > 0 && contains_at(s, 0, pat) {
        rep + replace_seq(s.skip(pat.len() as int), pat, rep)
    } else {
        seq![s[0]] + replace_seq(s.skip(1), pat, rep)
    }
}

/// No character of `rep` occurs in `pat`.
pub open spec fn chars_disjoint(rep: Seq<char>, pat: Seq<char>) -> bool {
    forall|i: int, j: int| 0 <= i < rep.len() && 0 <= j < pat.len() ==> rep[i] != pat[j]
}

/// Replaces every occurrence of `pat` in `s` by `rep`.
pub fn replace_str(s: &str, pat: &str, rep: &str) -> (r: String)
    requires
        pat@.len() > 0,
    ensures
        r@ == replace_seq(s@, pat@, rep@),
{
    let n: usize = s.unicode_len();
    let m: usize = pat.unicode_len();
    let mut r: String = String::new();
    let mut i: usize = 0;
    proof {
        assert(s@.skip(0) =~= s@);
        assert(r@ + replace_seq(s@, pat@, rep@) =~= replace_seq(s@, pat@, rep@));
    }
    while i < n
        invariant
            i <= n,
            n == s@.len(),
            m == pat@.len(),
            m > 0,
            replace_seq(s@, pat@, rep@) == r@ + replace_seq(s@.skip(i as int), pat@, rep@),
        decreases n - i,
    {
        let ghost tail = s@.skip(i as int);
        if is_pat_at(s, i, pat) {
            proof {
                assert(tail.subrange(0, m as int) =~= s@.subrange(i as int, i + m as int));
                assert(contains_at(tail, 0, pat@));
                assert(tail.skip(m as int) =~= s@.skip(i + m as int));
                assert(r@ + (rep@ + replace_seq(s@.skip(i + m as int), pat@, rep@)) =~= (r@
                    + rep@) + replace_seq(s@.skip(i + m as int), pat@, rep@));
            }
            r.append(rep);
            i = i + m;
        } else {
            proof {
                if contains_at(tail, 0, pat@) {
                    assert(s@.subrange(i as int, i + m as int) =~= tail.subrange(0, m as int));
                }
                assert(tail.skip(1) =~= s@.skip(i + 1));
                assert(seq![tail[0]] =~= s@.subrange(i as int, i + 1));
                assert(r@ + (seq![tail[0]] + replace_seq(s@.skip(i + 1), pat@, rep@)) =~= (r@
                    + s@.subrange(i as int, i + 1)) + replace_seq(s@.skip(i + 1), pat@, rep@));
            }
            let piece = s.substring_char(i, i + 1);
            r.append(piece);
            i = i + 1;
        }
    }
    proof {
        assert(s@.skip(n as int) =~= Seq::empty());
        assert(r@ + Seq::empty() =~= r@);
    }
    r
}

/// If a proper suffix of `pat` is a prefix of the replaced text, it was
/// already a prefix of the text scanned: replacement never manufactures the
/// front of a new occurrence, provided `rep` is nonempty and shares no
/// character with `pat`.
proof fn lemma_replace_prefix_preserved(t: Seq<char>, pat: Seq<char>, rep: Seq<char>, j: int)
    requires
        0 < pat.len(),
        0 < rep.len(),
        chars_disjoint(rep, pat),
        1 <= j < pat.len(),
        is_prefix(pat.skip(j), replace_seq(t, pat, rep)),
    ensures
        is_prefix(pat.skip(j), t),
    decreases t.len(),
{
    let out = replace_seq(t, pat, rep);
    let p = pat.skip(j);
    if t.len() == 0 {
        assert(false);
    } else if contains_at(t, 0, pat) {
        assert(out[0] == rep[0]);
        assert(out.subrange(0, p.len() as int)[0] == p[0]);
        assert(p[0] == pat[j]);
        assert(false);
    } else {
        let rest = replace_seq(t.skip(1), pat, rep);
        assert(out == seq![t[0]] + rest);
        assert(out.subrange(0, p.len() as int)[0] == p[0]);
        assert(t[0] == pat[j]);
        if j + 1 < pat.len() {
            let q = pat.skip(j + 1);
            assert(q.len() == p.len() - 1);
            assert(rest.len() >= q.len());
            assert(rest.subrange(0, q.len() as int) =~= q) by {
                assert forall|k: int| 0 <= k < q.len() implies rest[k] == q[k] by {
                    assert(out[k + 1] == rest[k]);
                    assert(out.subrange(0, p.len() as int)[k + 1] == p[k + 1]);
                    assert(p[k + 1] == pat[j + 1 + k]);
                    assert(q[k] == pat[j + 1 + k]);
                }
            }
            lemma_replace_prefix_preserved(t.skip(1), pat, rep, j + 1);
            assert(is_prefix(q, t.skip(1)));
            assert(t.subrange(0, p.len() as int) =~= p) by {
                assert(t.subrange(0, p.len() as int)[0] == pat[j]);
                assert forall|k: int| 1 <= k < p.len() implies t[k] == p[k] by {
                    assert(t.skip(1)[k - 1] == t.skip(1).subrange(0, q.len() as int)[k - 1]);
                    assert(t.skip(1).subrange(0, q.len() as int)[k - 1] == q[k - 1]);
                    assert(q[k - 1] == pat[j + k]);
                }
            }
            assert(p.len() <= t.len());
            assert(is_prefix(p, t));
        } else {
            assert(p.len() == 1);
            assert(p =~= seq![pat[j]]);
            assert(t.subrange(0, 1) =~= seq![pat[j]]);
            assert(is_prefix(p, t));
        }
    }
}

/// After replacement, the pattern does not occur in the result, provided the
/// replacement is nonempty and shares no character with the pattern.
pub proof fn lemma_replace_removes_pattern(s: Seq<char>, pat: Seq<char>, rep: Seq<char>)
    requires
        0 < pat.len(),
        0 < rep.len(),
        chars_disjoint(rep, pat),
    ensures
        !contains_seq(replace_seq(s, pat, rep), pat),
    decreases s.len(),
{
    let out = replace_seq(s, pat, rep);
    if s.len() == 0 {
        assert(forall|i: int| !contains_at(out, i, pat));
    } else if contains_at(s, 0, pat) {
        let rest = replace_seq(s.skip(pat.len() as int), pat, rep);
        lemma_replace_removes_pattern(s.skip(pat.len() as int), pat, rep);
        assert forall|i: int| !contains_at(out, i, pat) by {
            if contains_at(out, i, pat) {
                if i < rep.len() {
                    assert(out[i] == rep[i]);
                    assert(out.subrange(i, i + pat.len() as int)[0] == pat[0]);
                    assert(false);
                } else {
                    assert(contains_at(rest, i - rep.len(), pat)) by {
                        assert(rest.subrange(
                            i - rep.len(),
                            i - rep.len() + pat.len(),
                        ) =~= out.subrange(i, i + pat.len() as int));
                    }
                    assert(false);
                }
            }
        }
    } else {
        let rest = replace_seq(s.skip(1), pat, rep);
        lemma_replace_removes_pattern(s.skip(1), pat, rep);
        assert forall|i: int| !contains_at(out, i, pat) by {
            if contains_at(out, i, pat) {
                if i > 0 {
                    assert(contains_at(rest, i - 1, pat)) by {
                        assert(rest.subrange(i - 1, i - 1 + pat.len()) =~= out.subrange(
                            i,
                            i + pat.len() as int,
                        ));
                    }
                    assert(false);
                } else {
                    assert(out.subrange(0, pat.len() as int)[0] == pat[0]);
                    assert(s[0] == pat[0]);
                    if pat.len() > 1 {
                        assert(is_prefix(pat.skip(1), rest)) by {
                            assert(rest.subrange(0, pat.len() - 1) =~= pat.skip(1)) by {
                                assert forall|k: int| 0 <= k < pat.len() - 1 implies rest[k]
                                    == pat.skip(1)[k] by {
                                    assert(out[k + 1] == rest[k]);
                                    assert(out.subrange(0, pat.len() as int)[k + 1] == pat[k + 1]);
                                }
                            }
                        }
                        lemma_replace_prefix_preserved(s.skip(1), pat, rep, 1);
                        assert(s.subrange(0, pat.len() as int) =~= pat) by {
                            assert forall|k: int| 1 <= k < pat.len() implies s[k] == pat[k] by {
                                assert(s.skip(1)[k - 1] == s.skip(1).subrange(
                                    0,
                                    pat.len() - 1,
                                )[k - 1]);
                                assert(s.skip(1).subrange(0, pat.len() - 1)[k - 1] == pat.skip(
                                    1,
                                )[k - 1]);
                            }
                        }
                        assert(contains_at(s, 0, pat));
                        assert(false);
                    } else {
                        assert(s.subrange(0, 1) =~= pat);
                        assert(contains_at(s, 0, pat));
                        assert(false);
                    }
                }
            }
        }
    }
}

/// The decimal digit `d` as a character.
pub open spec fn digit_char(d: int) -> char {
    if d == 0 {
        '0'
    } else if d == 1 {
        '1'
    } else if d == 2 {
        '2'
    } else if d == 3 {
        '3'
    } else if d == 4 {
        '4'
    } else if d == 5 {
        '5'
    } else if d == 6 {
        '6'
    } else if d == 7 {
        '7'
    } else if d == 8 {
        '8'
    } else {
        '9'
    }
}

/// The decimal rendering of a nonnegative integer, most significant digit
/// first.
pub open spec fn dec_rep(n: int) -> Seq<char>
    decreases n,
{
    if n < 10 {
        seq![digit_char(n)]
    } else {
        dec_rep(n / 10).push(digit_char(n % 10))
    }
}

fn digit_str(d: u16) -> (r: &'static str)
    requires
        d < 10,
    ensures
        r@ == seq![digit_char(d as int)],
{
    let r: &'static str = match d {
        0 => "0",
        1 => "1",
        2 => "2",
        3 => "3",
        4 => "4",
        5 => "5",
        6 => "6",
        7 => "7",
        8 => "8",
        _ => "9",
    };
    proof {
        reveal_strlit("0");
        reveal_strlit("1");
        reveal_strlit("2");
        reveal_strlit("3");
        reveal_strlit("4");
        reveal_strlit("5");
        reveal_strlit("6");
        reveal_strlit("7");
        reveal_strlit("8");
        reveal_strlit("9");
        assert(r@ =~= seq![digit_char(d as int)]);
    }
    r
}

/// Renders `n` in decimal.
pub fn u16_to_dec(n: u16) -> (r: String)
    ensures
        r@ == dec_rep(n as int),
    decreases n,
{
    if n < 10 {
        String::from_str(digit_str(n))
    } else {
        let mut r = u16_to_dec(n / 10);
        r.append(digit_str(n % 10));
        proof {
            assert(dec_rep(n as int / 10) + seq![digit_char(n as int % 10)] =~= dec_rep(
                n as int / 10,
            ).push(digit_char(n as int % 10)));
        }
        r
    }
}

/// Copies a vector of strings, preserving its contents.
pub fn clone_strings(v: &Vec<String>) -> (r: Vec<String>)
    ensures
        r@ == v@,
{
    let mut r: Vec<String> = Vec::new();
    let mut i: usize = 0;
    while i < v.len()
        invariant
            i <= v.len(),
            r@ =~= v@.subrange(0, i as int),
        decreases v.len() - i,
    {
        r.push(v[i].clone());
        i = i + 1;
    }
    proof {
        assert(r@ =~= v@);
    }
    r
}

/// Character-wise equality of two string slices.
pub fn str_eq(a: &str, b: &str) -> (r: bool)
    ensures
        r == (a@ == b@),
{
    let n: usize = a.unicode_len();
    let m: usize = b.unicode_len();
    if n != m {
        return false;
    }
    let mut i: usize = 0;
    while i < n
        invariant
            i <= n,
            n == a@.len(),
            n == b@.len(),
            forall|k: int| 0 <= k < i ==> a@[k] == b@[k],
        decreases n - i,
    {
        if a.get_char(i) != b.get_char(i) {
            return false;
        }
        i = i + 1;
    }
    assert(a@ =~= b@);
    true
}

} // verus!
