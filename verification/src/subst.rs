//! Environment-variable substitution applied to a raw line before it is
//! classified. Three reference forms are recognized, scanning the original
//! line: `${NAME}`, `$(NAME)` and bare `$NAME` (identifier rule). For each
//! reference whose name is bound in the given environment, every occurrence
//! of the reference text is replaced by the bound value; an unbound name is
//! left as written. Substituted values are not scanned again.

use vstd::prelude::*;

use crate::text::find_from;
use crate::text::lemma_find_from;
use crate::text::replace_all;
use crate::text::replace_all_spec;
use crate::text::str_eq;
use crate::text::strs_view;

verus! {

pub open spec fn is_ident_start(c: char) -> bool {
    ('a' as u32) <= (c as u32) && (c as u32) <= ('z' as u32) || ('A' as u32) <= (c as u32) && (c
        as u32) <= ('Z' as u32) || c == '_'
}

pub open spec fn is_ident_char(c: char) -> bool {
    is_ident_start(c) || ('0' as u32) <= (c as u32) && (c as u32) <= ('9' as u32)
}

/// Index of the first character at or after `i` that cannot continue an
/// identifier, or `s.len()`.
pub open spec fn ident_end(s: Seq<char>, i: int) -> int
    decreases s.len() - i,
    when 0 <= i <= s.len()
{
    if i >= s.len() {
        i
    } else if is_ident_char(s[i]) {
        ident_end(s, i + 1)
    } else {
        i
    }
}

pub proof fn lemma_ident_end(s: Seq<char>, i: int)
    requires
        0 <= i <= s.len(),
    ensures
        i <= ident_end(s, i) <= s.len(),
    decreases s.len() - i,
{
    if i < s.len() && is_ident_char(s[i]) {
        lemma_ident_end(s, i + 1);
    }
}

/// The names captured, left to right and without overlap, by references of
/// the form `$` + `open` + name + `close`, where the name is a nonempty run
/// of characters other than `close`, scanning from `i`.
pub open spec fn delim_refs_from(s: Seq<char>, open: char, close: char, i: int) -> Seq<Seq<char>>
    decreases s.len() - i,
    when 0 <= i <= s.len()
    via delim_refs_from_decreases
{
    if i + 1 >= s.len() {
        Seq::empty()
    } else if s[i] == '$' && s[i + 1] == open {
        match find_from(s, close, i + 2) {
            Some(j) => if j > i + 2 {
                seq![s.subrange(i + 2, j)] + delim_refs_from(s, open, close, j + 1)
            } else {
                delim_refs_from(s, open, close, i + 1)
            },
            None => delim_refs_from(s, open, close, i + 1),
        }
    } else {
        delim_refs_from(s, open, close, i + 1)
    }
}

#[via_fn]
proof fn delim_refs_from_decreases(s: Seq<char>, open: char, close: char, i: int) {
    if i + 1 < s.len() {
        lemma_find_from(s, close, i + 2);
    }
}

/// The names captured by `${NAME}` references in `s`.
pub open spec fn brace_refs(s: Seq<char>) -> Seq<Seq<char>> {
    delim_refs_from(s, '{', '}', 0)
}

/// The names captured by `$(NAME)` references in `s`.
pub open spec fn paren_refs(s: Seq<char>) -> Seq<Seq<char>> {
    delim_refs_from(s, '(', ')', 0)
}

/// The names captured, left to right and without overlap, by bare `$NAME`
/// references, where the name is a maximal identifier run, scanning from `i`.
pub open spec fn bare_refs_from(s: Seq<char>, i: int) -> Seq<Seq<char>>
    decreases s.len() - i,
    when 0 <= i <= s.len()
    via bare_refs_from_decreases
{
    if i + 1 >= s.len() {
        Seq::empty()
    } else if s[i] == '$' && is_ident_start(s[i + 1]) {
        let j = ident_end(s, i + 2);
        seq![s.subrange(i + 1, j)] + bare_refs_from(s, j)
    } else {
        bare_refs_from(s, i + 1)
    }
}

#[via_fn]
proof fn bare_refs_from_decreases(s: Seq<char>, i: int) {
    if i + 1 < s.len() {
        lemma_ident_end(s, i + 2);
    }
}

/// The names captured by bare `$NAME` references in `s`.
pub open spec fn bare_refs(s: Seq<char>) -> Seq<Seq<char>> {
    bare_refs_from(s, 0)
}

/// Relies on regex: `captures_iter` with the pattern `\$\{(?P<env>[^}]+)\}`
/// yields the successive non-overlapping leftmost matches, each capturing the
/// nonempty brace-delimited run after a `$`.
#[verifier::external_body]
fn brace_refs_str(line: &str) -> (r: Vec<String>)
    ensures
        strs_view(r@) == brace_refs(line@),
{
    let re = regex::Regex::new(r"\$\{(?P<env>[^}]+)\}").unwrap();
    re.captures_iter(line).map(|c| c["env"].to_string()).collect()
}

/// Relies on regex: `captures_iter` with the pattern `\$\((?P<env>[^)]+)\)`
/// yields the successive non-overlapping leftmost matches, each capturing the
/// nonempty parenthesis-delimited run after a `$`.
#[verifier::external_body]
fn paren_refs_str(line: &str) -> (r: Vec<String>)
    ensures
        strs_view(r@) == paren_refs(line@),
{
    let re = regex::Regex::new(r"\$\((?P<env>[^)]+)\)").unwrap();
    re.captures_iter(line).map(|c| c["env"].to_string()).collect()
}

/// Relies on regex: `captures_iter` with the pattern
/// `\$(?P<env>[a-zA-Z_][a-zA-Z0-9_]*)` yields the successive non-overlapping
/// leftmost matches, each capturing the maximal identifier run after a `$`.
#[verifier::external_body]
fn bare_refs_str(line: &str) -> (r: Vec<String>)
    ensures
        strs_view(r@) == bare_refs(line@),
{
    let re = regex::Regex::new(r"\$(?P<env>[a-zA-Z_][a-zA-Z0-9_]*)").unwrap();
    re.captures_iter(line).map(|c| c["env"].to_string()).collect()
}

/// The views of a sequence of string pairs.
pub open spec fn pairs_view(v: Seq<(String, String)>) -> Seq<(Seq<char>, Seq<char>)> {
    v.map_values(|p: (String, String)| (p.0@, p.1@))
}

/// The value bound to `name`, taking the first matching pair.
pub open spec fn env_lookup(env: Seq<(Seq<char>, Seq<char>)>, name: Seq<char>) -> Option<Seq<char>>
    decreases env.len(),
{
    if env.len() == 0 {
        None
    } else if env[0].0 == name {
        Some(env[0].1)
    } else {
        env_lookup(env.drop_first(), name)
    }
}

fn env_get(env: &Vec<(String, String)>, name: &str) -> (r: Option<String>)
    ensures
        r matches Some(v) ==> env_lookup(pairs_view(env@), name@) == Some(v@),
        r is None ==> env_lookup(pairs_view(env@), name@) is None,
{
    let n = env.len();
    let mut i: usize = 0;
    proof {
        assert(pairs_view(env@).skip(0) =~= pairs_view(env@));
    }
    while i < n
        invariant
            n == env@.len(),
            0 <= i <= n,
            env_lookup(pairs_view(env@), name@) == env_lookup(
                pairs_view(env@).skip(i as int),
                name@,
            ),
        decreases n - i,
    {
        let ghost rest = pairs_view(env@).skip(i as int);
        proof {
            assert(rest[0] == pairs_view(env@)[i as int]);
            assert(rest.drop_first() =~= pairs_view(env@).skip(i + 1));
        }
        if str_eq(env[i].0.as_str(), name) {
            let v = env[i].1.clone();
            return Some(v);
        }
        i = i + 1;
    }
    None
}

/// Which of the three reference forms a name was found in.
#[derive(Clone, Copy)]
pub enum RefStyle {
    Brace,
    Paren,
    Bare,
}

/// The literal reference text for a name in the given form.
pub open spec fn wrap_name(style: RefStyle, name: Seq<char>) -> Seq<char> {
    match style {
        RefStyle::Brace => "${"@ + name + "}"@,
        RefStyle::Paren => "$("@ + name + ")"@,
        RefStyle::Bare => "$"@ + name,
    }
}

fn build_pattern(style: RefStyle, name: &str) -> (r: String)
    ensures
        r@ == wrap_name(style, name@),
{
    let mut p = String::new();
    match style {
        RefStyle::Brace => {
            p.append("${");
            p.append(name);
            p.append("}");
            assert(p@ =~= "${"@ + name@ + "}"@);
        },
        RefStyle::Paren => {
            p.append("$(");
            p.append(name);
            p.append(")");
            assert(p@ =~= "$("@ + name@ + ")"@);
        },
        RefStyle::Bare => {
            p.append("$");
            p.append(name);
            assert(p@ =~= "$"@ + name@);
        },
    }
    p
}

/// The line after one pass over the given references: each bound name has
/// every occurrence of its reference text replaced by its value, in order of
/// capture; unbound names change nothing.
pub open spec fn apply_refs(
    cur: Seq<char>,
    refs: Seq<Seq<char>>,
    env: Seq<(Seq<char>, Seq<char>)>,
    style: RefStyle,
) -> Seq<char>
    decreases refs.len(),
{
    if refs.len() == 0 {
        cur
    } else {
        let next = match env_lookup(env, refs[0]) {
            Some(v) => replace_all_spec(cur, wrap_name(style, refs[0]), v),
            None => cur,
        };
        apply_refs(next, refs.drop_first(), env, style)
    }
}

fn apply_refs_str(cur: String, refs: &Vec<String>, env: &Vec<(String, String)>, style: RefStyle) -> (r:
    String)
    ensures
        r@ == apply_refs(cur@, strs_view(refs@), pairs_view(env@), style),
{
    let ghost orig = cur@;
    let ghost refs_v = strs_view(refs@);
    let ghost env_v = pairs_view(env@);
    let mut out = cur;
    let n = refs.len();
    let mut i: usize = 0;
    proof {
        assert(refs_v.skip(0) =~= refs_v);
    }
    while i < n
        invariant
            n == refs@.len(),
            refs_v == strs_view(refs@),
            env_v == pairs_view(env@),
            0 <= i <= n,
            apply_refs(orig, refs_v, env_v, style) == apply_refs(
                out@,
                refs_v.skip(i as int),
                env_v,
                style,
            ),
        decreases n - i,
    {
        let ghost rest = refs_v.skip(i as int);
        proof {
            assert(rest[0] == refs_v[i as int]);
            assert(refs_v[i as int] == refs@[i as int]@);
            assert(rest.drop_first() =~= refs_v.skip(i + 1));
        }
        let name: &String = &refs[i];
        match env_get(env, name.as_str()) {
            Some(v) => {
                let pat = build_pattern(style, name.as_str());
                out = replace_all(out.as_str(), pat.as_str(), v.as_str());
            },
            None => {},
        }
        i = i + 1;
    }
    proof {
        assert(refs_v.skip(n as int) =~= Seq::<Seq<char>>::empty());
    }
    out
}

/// The line with environment references expanded: the `${NAME}` references
/// found in the original line are applied first, then the `$(NAME)`
/// references, then the bare `$NAME` references, each pass replacing in the
/// result of the previous one.
pub open spec fn subst_spec(line: Seq<char>, env: Seq<(Seq<char>, Seq<char>)>) -> Seq<char> {
    let a = apply_refs(line, brace_refs(line), env, RefStyle::Brace);
    let b = apply_refs(a, paren_refs(line), env, RefStyle::Paren);
    apply_refs(b, bare_refs(line), env, RefStyle::Bare)
}

/// Expand environment references in one raw line against the given read-only
/// environment, a list of name-value pairs (the first pair for a name wins).
pub fn substitute(line: &str, env: &Vec<(String, String)>) -> (r: String)
    ensures
        r@ == subst_spec(line@, pairs_view(env@)),
{
    let braces = brace_refs_str(line);
    let parens = paren_refs_str(line);
    let bares = bare_refs_str(line);
    let cur = line.to_owned();
    let cur = apply_refs_str(cur, &braces, env, RefStyle::Brace);
    let cur = apply_refs_str(cur, &parens, env, RefStyle::Paren);
    let cur = apply_refs_str(cur, &bares, env, RefStyle::Bare);
    cur
}

/// A pass over references none of whose names are bound leaves the line
/// unchanged.
pub proof fn lemma_apply_refs_unbound(
    cur: Seq<char>,
    refs: Seq<Seq<char>>,
    env: Seq<(Seq<char>, Seq<char>)>,
    style: RefStyle,
)
    requires
        forall|k: int| 0 <= k < refs.len() ==> env_lookup(env, refs[k]) is None,
    ensures
        apply_refs(cur, refs, env, style) == cur,
    decreases refs.len(),
{
    if refs.len() > 0 {
        assert(forall|k: int|
            0 <= k < refs.drop_first().len() ==> refs.drop_first()[k] == refs[k + 1]);
        lemma_apply_refs_unbound(cur, refs.drop_first(), env, style);
    }
}

/// A line none of whose referenced names are bound in the environment is left
/// verbatim by substitution.
pub proof fn lemma_substitute_unset_verbatim(line: Seq<char>, env: Seq<(Seq<char>, Seq<char>)>)
    requires
        forall|k: int| 0 <= k < brace_refs(line).len() ==> env_lookup(env, brace_refs(line)[k]) is None,
        forall|k: int| 0 <= k < paren_refs(line).len() ==> env_lookup(env, paren_refs(line)[k]) is None,
        forall|k: int| 0 <= k < bare_refs(line).len() ==> env_lookup(env, bare_refs(line)[k]) is None,
    ensures
        subst_spec(line, env) == line,
{
    lemma_apply_refs_unbound(line, brace_refs(line), env, RefStyle::Brace);
    lemma_apply_refs_unbound(line, paren_refs(line), env, RefStyle::Paren);
    lemma_apply_refs_unbound(line, bare_refs(line), env, RefStyle::Bare);
}

} // verus!
