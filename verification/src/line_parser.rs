//! Classification of one filelist line. Every line, after trimming, falls
//! into exactly one category: empty, comment, reference to another filelist,
//! preprocessor defines, include directories, an unknown flag, or a source
//! file path.

use vstd::prelude::*;

use crate::text::find_from;
use crate::text::find_char_from;
use crate::text::has_prefix;
use crate::text::has_prefix_str;
use crate::text::lemma_find_from;
use crate::text::split_char_spec;
use crate::text::split_str;
use crate::text::str_eq;
use crate::text::strs_view;
use crate::text::trim_spec;
use crate::text::trim_str;

verus! {

/// The classification of one line, with the data extracted from it.
#[derive(Debug, PartialEq)]
pub enum LineType {
    /// A source file path: the trimmed line itself.
    File(String),
    /// Include directories, in the order written.
    IncDir(Vec<String>),
    /// Preprocessor defines: identifiers with optional values, keys unique.
    Define(Vec<(String, Option<String>)>),
    /// A reference to another filelist to expand in place.
    Filelist(String),
    Comment,
    Unknown,
    Empty,
}

/// The mathematical value of a classified line.
pub enum LineVal {
    File(Seq<char>),
    IncDir(Seq<Seq<char>>),
    Define(Map<Seq<char>, Option<Seq<char>>>),
    Filelist(Seq<char>),
    Comment,
    Unknown,
    Empty,
}

pub open spec fn opt_str_view(v: Option<String>) -> Option<Seq<char>> {
    match v {
        Some(s) => Some(s@),
        None => None,
    }
}

/// The mapping held by a list of key-value pairs, a later pair overriding an
/// earlier one with the same key.
pub open spec fn pairs_map(ps: Seq<(String, Option<String>)>) -> Map<Seq<char>, Option<Seq<char>>>
    decreases ps.len(),
{
    if ps.len() == 0 {
        Map::empty()
    } else {
        pairs_map(ps.drop_last()).insert(ps.last().0@, opt_str_view(ps.last().1))
    }
}

/// The keys of the pair list are distinct.
pub open spec fn defines_wf(ps: Seq<(String, Option<String>)>) -> bool {
    forall|i: int, j: int| 0 <= i < j < ps.len() ==> ps[i].0@ != ps[j].0@
}

pub proof fn lemma_pairs_map_key_absent(ps: Seq<(String, Option<String>)>, k: Seq<char>)
    requires
        forall|i: int| 0 <= i < ps.len() ==> ps[i].0@ != k,
    ensures
        !pairs_map(ps).dom().contains(k),
    decreases ps.len(),
{
    if ps.len() > 0 {
        lemma_pairs_map_key_absent(ps.drop_last(), k);
    }
}

pub proof fn lemma_pairs_map_remove(ps: Seq<(String, Option<String>)>, i: int)
    requires
        0 <= i < ps.len(),
        defines_wf(ps),
    ensures
        pairs_map(ps.remove(i)) == pairs_map(ps).remove(ps[i].0@),
    decreases ps.len(),
{
    let k = ps[i].0@;
    if i == ps.len() - 1 {
        assert(ps.remove(i) =~= ps.drop_last());
        assert(forall|j: int| 0 <= j < ps.drop_last().len() ==> ps.drop_last()[j].0@ != k);
        lemma_pairs_map_key_absent(ps.drop_last(), k);
        assert(pairs_map(ps.drop_last()) =~= pairs_map(ps).remove(k));
    } else {
        assert(ps.remove(i).drop_last() =~= ps.drop_last().remove(i));
        assert(defines_wf(ps.drop_last()));
        lemma_pairs_map_remove(ps.drop_last(), i);
        assert(ps.remove(i).last() == ps.last());
        assert(pairs_map(ps.remove(i)) == pairs_map(ps.drop_last()).remove(k).insert(
            ps.last().0@,
            opt_str_view(ps.last().1),
        ));
        assert(ps.last().0@ != k);
        assert(pairs_map(ps.drop_last()).remove(k).insert(ps.last().0@, opt_str_view(ps.last().1))
            =~= pairs_map(ps).remove(k));
    }
}

/// Record a define: a pair with the same key is overridden, any other pair is
/// kept, and the keys stay distinct.
pub fn insert_define(ps: &mut Vec<(String, Option<String>)>, key: String, val: Option<String>)
    requires
        defines_wf(old(ps)@),
    ensures
        defines_wf(final(ps)@),
        pairs_map(final(ps)@) == pairs_map(old(ps)@).insert(key@, opt_str_view(val)),
{
    let ghost orig = ps@;
    let n = ps.len();
    let mut i: usize = 0;
    while i < n
        invariant
            n == ps@.len(),
            ps@ == orig,
            orig == old(ps)@,
            defines_wf(orig),
            0 <= i <= n,
            forall|j: int| 0 <= j < i ==> ps@[j].0@ != key@,
        decreases n - i,
    {
        if str_eq(ps[i].0.as_str(), key.as_str()) {
            proof {
                lemma_pairs_map_remove(orig, i as int);
            }
            let _ = ps.remove(i);
            assert(orig[i as int].0@ == key@);
            assert forall|j: int| 0 <= j < ps@.len() implies ps@[j].0@ != key@ by {
                if j < i {
                    assert(ps@[j] == orig[j]);
                } else {
                    assert(ps@[j] == orig[j + 1]);
                    assert(orig[i as int].0@ != orig[j + 1].0@);
                }
            }
            proof {
                lemma_pairs_map_key_absent(ps@, key@);
            }
            let ghost removed = ps@;
            ps.push((key, val));
            proof {
                assert(ps@.drop_last() =~= removed);
                assert(ps@.last() == (key, val));
                assert(pairs_map(ps@) == pairs_map(removed).insert(key@, opt_str_view(val)));
                assert(pairs_map(removed) == pairs_map(orig).remove(key@));
                assert(pairs_map(orig).remove(key@).insert(key@, opt_str_view(val))
                    =~= pairs_map(orig).insert(key@, opt_str_view(val)));
            }
            return ;
        }
        i = i + 1;
    }
    let ghost before = ps@;
    ps.push((key, val));
    proof {
        assert(ps@.drop_last() =~= before);
    }
}

/// The trailing `+` removed, if the text ends in one.
pub open spec fn strip_last_plus(s: Seq<char>) -> Seq<char> {
    if s.len() > 0 && s.last() == '+' {
        s.drop_last()
    } else {
        s
    }
}

/// One define token split at its first `=`: identifier and optional value
/// (the value keeps any later `=` characters); a token without `=` is an
/// identifier with no value.
pub open spec fn define_pair(tok: Seq<char>) -> (Seq<char>, Option<Seq<char>>) {
    match find_from(tok, '=', 0) {
        Some(j) => (tok.subrange(0, j), Some(tok.subrange(j + 1, tok.len() as int))),
        None => (tok, None),
    }
}

/// The mapping named by a line's define tokens, a later token overriding an
/// earlier one with the same identifier.
pub open spec fn defines_map(toks: Seq<Seq<char>>) -> Map<Seq<char>, Option<Seq<char>>>
    decreases toks.len(),
{
    if toks.len() == 0 {
        Map::empty()
    } else {
        defines_map(toks.drop_last()).insert(
            define_pair(toks.last()).0,
            define_pair(toks.last()).1,
        )
    }
}

/// The category and payload of one line, decided on the trimmed line in this
/// precedence order: empty, comment (`//` or `#`), filelist reference
/// (`-f `), defines (`+define+`), include directories (`+incdir+`), unknown
/// flag (any other `-` or `+` start), and otherwise a source file path.
pub open spec fn classify(line: Seq<char>) -> LineVal {
    let t = trim_spec(line);
    if t.len() == 0 {
        LineVal::Empty
    } else if has_prefix(t, "//"@) || has_prefix(t, "#"@) {
        LineVal::Comment
    } else if has_prefix(t, "-f "@) {
        LineVal::Filelist(trim_spec(t.skip(3)))
    } else if has_prefix(t, "+define+"@) {
        LineVal::Define(defines_map(split_char_spec(strip_last_plus(t.skip(8)), '+')))
    } else if has_prefix(t, "+incdir+"@) {
        LineVal::IncDir(split_char_spec(strip_last_plus(t.skip(8)), '+'))
    } else if t[0] == '-' || t[0] == '+' {
        LineVal::Unknown
    } else {
        LineVal::File(t)
    }
}

impl View for LineType {
    type V = LineVal;

    open spec fn view(&self) -> LineVal {
        match self {
            LineType::File(s) => LineVal::File(s@),
            LineType::IncDir(v) => LineVal::IncDir(strs_view(v@)),
            LineType::Define(ps) => LineVal::Define(pairs_map(ps@)),
            LineType::Filelist(s) => LineVal::Filelist(s@),
            LineType::Comment => LineVal::Comment,
            LineType::Unknown => LineVal::Unknown,
            LineType::Empty => LineVal::Empty,
        }
    }
}

fn strip_plus_str(s: &str) -> (r: &str)
    ensures
        r@ == strip_last_plus(s@),
{
    let n = s.unicode_len();
    if n > 0 && s.get_char(n - 1) == '+' {
        let r = s.substring_char(0, n - 1);
        proof {
            assert(r@ =~= s@.drop_last());
        }
        r
    } else {
        s
    }
}

/// Classify one line. Total: every string falls into exactly one category,
/// and a define payload carries distinct keys.
pub fn parse_line(line: &str) -> (r: LineType)
    ensures
        r@ == classify(line@),
        r matches LineType::Define(ps) ==> defines_wf(ps@),
{
    let t = trim_str(line);
    let n = t.unicode_len();
    if n == 0 {
        return LineType::Empty;
    }
    if has_prefix_str(t, "//") || has_prefix_str(t, "#") {
        return LineType::Comment;
    }
    if has_prefix_str(t, "-f ") {
        proof {
            reveal_strlit("-f ");
        }
        let rest = t.substring_char(3, n);
        proof {
            assert(rest@ =~= t@.skip(3));
        }
        let payload = trim_str(rest);
        return LineType::Filelist(payload.to_owned());
    }
    if has_prefix_str(t, "+define+") {
        proof {
            reveal_strlit("+define+");
        }
        let rest = t.substring_char(8, n);
        proof {
            assert(rest@ =~= t@.skip(8));
        }
        let body = strip_plus_str(rest);
        let toks = split_str(body, '+');
        let ghost toks_v = split_char_spec(strip_last_plus(t@.skip(8)), '+');
        let m = toks.len();
        let mut ps: Vec<(String, Option<String>)> = Vec::new();
        let mut k: usize = 0;
        proof {
            assert(toks_v.take(0) =~= Seq::<Seq<char>>::empty());
        }
        while k < m
            invariant
                m == toks@.len(),
                strs_view(toks@) == toks_v,
                0 <= k <= m,
                defines_wf(ps@),
                pairs_map(ps@) == defines_map(toks_v.take(k as int)),
            decreases m - k,
        {
            let tok: &String = &toks[k];
            proof {
                assert(tok@ == toks_v[k as int]);
            }
            let tn = tok.as_str().unicode_len();
            let key: String;
            let val: Option<String>;
            proof {
                lemma_find_from(tok@, '=', 0);
            }
            match find_char_from(tok.as_str(), '=', 0) {
                Some(j) => {
                    key = tok.as_str().substring_char(0, j).to_owned();
                    val = Some(tok.as_str().substring_char(j + 1, tn).to_owned());
                },
                None => {
                    key = tok.clone();
                    val = None;
                },
            }
            proof {
                assert((key@, opt_str_view(val)) == define_pair(toks_v[k as int]));
            }
            insert_define(&mut ps, key, val);
            proof {
                assert(toks_v.take(k + 1).drop_last() =~= toks_v.take(k as int));
                assert(toks_v.take(k + 1).last() == toks_v[k as int]);
            }
            k = k + 1;
        }
        proof {
            assert(toks_v.take(m as int) =~= toks_v);
        }
        return LineType::Define(ps);
    }
    if has_prefix_str(t, "+incdir+") {
        proof {
            reveal_strlit("+incdir+");
        }
        let rest = t.substring_char(8, n);
        proof {
            assert(rest@ =~= t@.skip(8));
        }
        let body = strip_plus_str(rest);
        let dirs = split_str(body, '+');
        return LineType::IncDir(dirs);
    }
    if t.get_char(0) == '-' || t.get_char(0) == '+' {
        return LineType::Unknown;
    }
    LineType::File(t.to_owned())
}

/// Every line classified as a source file carries as payload the trimmed
/// input line itself.
pub proof fn lemma_source_file_payload(line: Seq<char>)
    ensures
        classify(line) matches LineVal::File(p) ==> p == trim_spec(line),
{
}

} // verus!
