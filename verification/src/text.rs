//! Character-level utilities on strings: trimming, prefix tests, searching,
//! splitting and substring replacement, each with an exact specification over
//! the string's view (a sequence of characters).

use vstd::prelude::*;

verus! {

/// The whitespace characters removed when a line is trimmed.
pub open spec fn is_space_char(c: char) -> bool {
    c == ' ' || c == '\t' || c == '\n' || c == '\r' || c == '\u{0b}' || c == '\u{0c}'
}

pub fn is_space(c: char) -> (r: bool)
    ensures
        r == is_space_char(c),
{
    c == ' ' || c == '\t' || c == '\n' || c == '\r' || c == '\u{0b}' || c == '\u{0c}'
}

/// Index of the first non-whitespace character at or after `i`, or `s.len()`.
pub open spec fn trim_start_idx(s: Seq<char>, i: int) -> int
    decreases s.len() - i,
    when 0 <= i <= s.len()
{
    if i >= s.len() {
        i
    } else if is_space_char(s[i]) {
        trim_start_idx(s, i + 1)
    } else {
        i
    }
}

/// One past the last non-whitespace character strictly before `j`, or `0`.
pub open spec fn trim_end_idx(s: Seq<char>, j: int) -> int
    decreases j,
    when 0 <= j <= s.len()
{
    if j <= 0 {
        0
    } else if is_space_char(s[j - 1]) {
        trim_end_idx(s, j - 1)
    } else {
        j
    }
}

pub proof fn lemma_trim_start_idx(s: Seq<char>, i: int)
    requires
        0 <= i <= s.len(),
    ensures
        i <= trim_start_idx(s, i) <= s.len(),
        forall|k: int| i <= k < trim_start_idx(s, i) ==> is_space_char(s[k]),
        trim_start_idx(s, i) < s.len() ==> !is_space_char(s[trim_start_idx(s, i)]),
    decreases s.len() - i,
{
    if i < s.len() && is_space_char(s[i]) {
        lemma_trim_start_idx(s, i + 1);
    }
}

pub proof fn lemma_trim_end_idx(s: Seq<char>, j: int)
    requires
        0 <= j <= s.len(),
    ensures
        0 <= trim_end_idx(s, j) <= j,
        forall|k: int| trim_end_idx(s, j) <= k < j ==> is_space_char(s[k]),
        trim_end_idx(s, j) > 0 ==> !is_space_char(s[trim_end_idx(s, j) - 1]),
    decreases j,
{
    if j > 0 && is_space_char(s[j - 1]) {
        lemma_trim_end_idx(s, j - 1);
    }
}

/// The line with leading and trailing whitespace removed.
pub open spec fn trim_spec(s: Seq<char>) -> Seq<char> {
    let lo = trim_start_idx(s, 0);
    if lo == s.len() {
        Seq::empty()
    } else {
        s.subrange(lo, trim_end_idx(s, s.len() as int))
    }
}

/// When some character is not whitespace, the trimmed range is nonempty.
pub proof fn lemma_trim_bounds(s: Seq<char>)
    ensures
        0 <= trim_start_idx(s, 0) <= s.len(),
        trim_start_idx(s, 0) < s.len() ==> trim_start_idx(s, 0) < trim_end_idx(
            s,
            s.len() as int,
        ) <= s.len(),
{
    lemma_trim_start_idx(s, 0);
    lemma_trim_end_idx(s, s.len() as int);
    let lo = trim_start_idx(s, 0);
    if lo < s.len() {
        if trim_end_idx(s, s.len() as int) <= lo {
            assert(is_space_char(s[lo]));
        }
    }
}

pub fn trim_str(s: &str) -> (r: &str)
    ensures
        r@ == trim_spec(s@),
{
    let n = s.unicode_len();
    proof {
        lemma_trim_bounds(s@);
    }
    let mut lo: usize = 0;
    while lo < n && is_space(s.get_char(lo))
        invariant
            n == s@.len(),
            0 <= lo <= n,
            trim_start_idx(s@, 0) == trim_start_idx(s@, lo as int),
        decreases n - lo,
    {
        lo = lo + 1;
    }
    assert(trim_start_idx(s@, 0) == lo as int);
    if lo == n {
        let r = s.substring_char(n, n);
        assert(r@ =~= trim_spec(s@));
        return r;
    }
    let mut hi: usize = n;
    while hi > lo && is_space(s.get_char(hi - 1))
        invariant
            n == s@.len(),
            lo < n,
            !is_space_char(s@[lo as int]),
            lo < hi <= n,
            trim_end_idx(s@, n as int) == trim_end_idx(s@, hi as int),
        decreases hi,
    {
        hi = hi - 1;
    }
    assert(trim_end_idx(s@, n as int) == hi as int);
    s.substring_char(lo, hi)
}

/// `p` is a prefix of `s`.
pub open spec fn has_prefix(s: Seq<char>, p: Seq<char>) -> bool {
    p.len() <= s.len() && s.subrange(0, p.len() as int) == p
}

pub fn has_prefix_str(s: &str, p: &str) -> (r: bool)
    ensures
        r == has_prefix(s@, p@),
{
    let sn = s.unicode_len();
    let pn = p.unicode_len();
    if pn > sn {
        return false;
    }
    let mut i: usize = 0;
    while i < pn
        invariant
            sn == s@.len(),
            pn == p@.len(),
            pn <= sn,
            0 <= i <= pn,
            forall|k: int| 0 <= k < i ==> s@[k] == p@[k],
        decreases pn - i,
    {
        if s.get_char(i) != p.get_char(i) {
            assert(s@.subrange(0, pn as int)[i as int] != p@[i as int]);
            return false;
        }
        i = i + 1;
    }
    assert(s@.subrange(0, pn as int) =~= p@);
    true
}

/// Index of the first occurrence of `c` at or after `i`, if any.
pub open spec fn find_from(s: Seq<char>, c: char, i: int) -> Option<int>
    decreases s.len() - i,
    when 0 <= i <= s.len()
{
    if i >= s.len() {
        None
    } else if s[i] == c {
        Some(i)
    } else {
        find_from(s, c, i + 1)
    }
}

pub proof fn lemma_find_from(s: Seq<char>, c: char, i: int)
    requires
        0 <= i <= s.len(),
    ensures
        find_from(s, c, i) matches Some(j) ==> i <= j < s.len() && s[j] == c && (forall|k: int|
            i <= k < j ==> s[k] != c),
        find_from(s, c, i) is None ==> forall|k: int| i <= k < s.len() ==> s[k] != c,
    decreases s.len() - i,
{
    if i < s.len() && s[i] != c {
        lemma_find_from(s, c, i + 1);
    }
}

pub fn find_char_from(s: &str, c: char, from: usize) -> (r: Option<usize>)
    requires
        from <= s@.len(),
    ensures
        r matches Some(j) ==> find_from(s@, c, from as int) == Some(j as int),
        r is None ==> find_from(s@, c, from as int) is None,
{
    let n = s.unicode_len();
    let mut i: usize = from;
    while i < n
        invariant
            n == s@.len(),
            from <= i <= n,
            find_from(s@, c, from as int) == find_from(s@, c, i as int),
        decreases n - i,
    {
        if s.get_char(i) == c {
            return Some(i);
        }
        i = i + 1;
    }
    None
}

/// The pieces of `s[start..]` delimited by `c`; empty pieces are kept and a
/// final delimiter yields a final empty piece.
pub open spec fn split_from(s: Seq<char>, c: char, start: int) -> Seq<Seq<char>>
    decreases s.len() - start,
    when 0 <= start <= s.len()
    via split_from_decreases
{
    match find_from(s, c, start) {
        Some(j) => seq![s.subrange(start, j)] + split_from(s, c, j + 1),
        None => seq![s.subrange(start, s.len() as int)],
    }
}

#[via_fn]
proof fn split_from_decreases(s: Seq<char>, c: char, start: int) {
    lemma_find_from(s, c, start);
}

/// The pieces of `s` delimited by `c`.
pub open spec fn split_char_spec(s: Seq<char>, c: char) -> Seq<Seq<char>> {
    split_from(s, c, 0)
}

/// The views of a sequence of strings.
pub open spec fn strs_view(v: Seq<String>) -> Seq<Seq<char>> {
    v.map_values(|x: String| x@)
}

pub proof fn lemma_strs_view_push(v: Seq<String>, x: String)
    ensures
        strs_view(v.push(x)) == strs_view(v).push(x@),
{
    assert(strs_view(v.push(x)) =~= strs_view(v).push(x@));
}

pub fn split_str(s: &str, c: char) -> (r: Vec<String>)
    ensures
        strs_view(r@) == split_char_spec(s@, c),
{
    let n = s.unicode_len();
    let mut out: Vec<String> = Vec::new();
    let mut start: usize = 0;
    loop
        invariant_except_break
            split_from(s@, c, 0) == strs_view(out@) + split_from(s@, c, start as int),
        invariant
            n == s@.len(),
            0 <= start <= n,
        ensures
            strs_view(out@) == split_from(s@, c, 0),
        decreases n - start,
    {
        proof {
            lemma_find_from(s@, c, start as int);
        }
        match find_char_from(s, c, start) {
            Some(j) => {
                let piece = s.substring_char(start, j).to_owned();
                proof {
                    lemma_strs_view_push(out@, piece);
                }
                out.push(piece);
                assert(split_from(s@, c, 0) =~= strs_view(out@) + split_from(
                    s@,
                    c,
                    j + 1 as int,
                ));
                start = j + 1;
            },
            None => {
                let piece = s.substring_char(start, n).to_owned();
                proof {
                    lemma_strs_view_push(out@, piece);
                }
                out.push(piece);
                assert(strs_view(out@) =~= split_from(s@, c, 0));
                break ;
            },
        }
    }
    out
}

/// `s` with every occurrence of `pat` replaced by `rep`, scanning left to
/// right over non-overlapping occurrences; an empty `pat` changes nothing.
pub open spec fn replace_all_spec(s: Seq<char>, pat: Seq<char>, rep: Seq<char>) -> Seq<char>
    decreases s.len(),
{
    if pat.len() == 0 || s.len() < pat.len() {
        s
    } else if has_prefix(s, pat) {
        rep + replace_all_spec(s.skip(pat.len() as int), pat, rep)
    } else {
        seq![s[0]] + replace_all_spec(s.skip(1), pat, rep)
    }
}

fn matches_at(s: &str, pat: &str, i: usize) -> (r: bool)
    requires
        i + pat@.len() <= s@.len(),
    ensures
        r == (s@.subrange(i as int, i + pat@.len()) == pat@),
{
    let sn = s.unicode_len();
    let pn = pat.unicode_len();
    let mut k: usize = 0;
    while k < pn
        invariant
            sn == s@.len(),
            pn == pat@.len(),
            i + pn <= sn,
            0 <= k <= pn,
            forall|m: int| 0 <= m < k ==> s@[i + m] == pat@[m],
        decreases pn - k,
    {
        if s.get_char(i + k) != pat.get_char(k) {
            assert(s@.subrange(i as int, i + pat@.len())[k as int] != pat@[k as int]);
            return false;
        }
        k = k + 1;
    }
    assert(s@.subrange(i as int, i + pat@.len()) =~= pat@);
    true
}

pub fn replace_all(s: &str, pat: &str, rep: &str) -> (r: String)
    ensures
        r@ == replace_all_spec(s@, pat@, rep@),
{
    let n = s.unicode_len();
    let pn = pat.unicode_len();
    if pn == 0 {
        return s.to_owned();
    }
    let mut out = String::new();
    let mut i: usize = 0;
    proof {
        assert(s@.skip(0) =~= s@);
        assert(out@ + replace_all_spec(s@, pat@, rep@) =~= replace_all_spec(s@, pat@, rep@));
    }
    while i < n
        invariant
            n == s@.len(),
            pn == pat@.len(),
            pn >= 1,
            0 <= i <= n,
            replace_all_spec(s@, pat@, rep@) == out@ + replace_all_spec(
                s@.skip(i as int),
                pat@,
                rep@,
            ),
        decreases n - i,
    {
        let ghost suffix = s@.skip(i as int);
        if pn <= n - i && matches_at(s, pat, i) {
            proof {
                assert(suffix.subrange(0, pn as int) =~= s@.subrange(i as int, i + pn));
                assert(has_prefix(suffix, pat@));
                assert(suffix.skip(pn as int) =~= s@.skip(i + pn));
            }
            out.append(rep);
            i = i + pn;
        } else {
            proof {
                if pn <= n - i {
                    assert(s@.subrange(i as int, i + pn) =~= suffix.subrange(0, pn as int));
                }
                assert(suffix.skip(1) =~= s@.skip(i + 1));
                if suffix.len() < pat@.len() {
                    assert(replace_all_spec(suffix, pat@, rep@) =~= seq![suffix[0]]
                        + replace_all_spec(suffix.skip(1), pat@, rep@));
                }
            }
            out.append(s.substring_char(i, i + 1));
            proof {
                assert(s@.subrange(i as int, i + 1 as int) =~= seq![s@[i as int]]);
            }
            i = i + 1;
        }
    }
    proof {
        assert(s@.skip(n as int) =~= Seq::<char>::empty());
        assert(out@ + s@.skip(n as int) =~= out@);
    }
    out
}

/// The two strings hold the same characters.
pub fn str_eq(a: &str, b: &str) -> (r: bool)
    ensures
        r == (a@ == b@),
{
    let an = a.unicode_len();
    let bn = b.unicode_len();
    if an != bn {
        return false;
    }
    let mut i: usize = 0;
    while i < an
        invariant
            an == a@.len(),
            an == b@.len(),
            0 <= i <= an,
            forall|k: int| 0 <= k < i ==> a@[k] == b@[k],
        decreases an - i,
    {
        if a.get_char(i) != b.get_char(i) {
            return false;
        }
        i = i + 1;
    }
    assert(a@ =~= b@);
    true
}

} // verus!
