//! Aggregation of a filelist: each line is expanded against the environment,
//! classified, and folded into one result; a `-f` line splices the referenced
//! filelist's lines in place. Reading file contents is the caller's business:
//! the `Aggregator` machine asks for one file at a time and is fed its
//! contents, and `parse_file` runs that machine against an in-memory table of
//! files.

use vstd::prelude::*;

use crate::line_parser::LineType;
use crate::line_parser::LineVal;
use crate::line_parser::classify;
use crate::line_parser::defines_wf;
use crate::line_parser::insert_define;
use crate::line_parser::pairs_map;
use crate::line_parser::parse_line;
use crate::subst::env_lookup;
use crate::subst::pairs_view;
use crate::subst::subst_spec;
use crate::subst::substitute;
use crate::text::split_char_spec;
use crate::text::split_str;
use crate::text::str_eq;
use crate::text::strs_view;
use crate::text::trim_spec;
use crate::text::lemma_strs_view_push;

verus! {

/// The aggregated contents of a filelist and of every filelist it references.
#[derive(Debug, PartialEq)]
pub struct Filelist {
    /// All source files, in order of appearance, duplicates preserved.
    pub files: Vec<String>,
    /// All include directories, in order of appearance, duplicates preserved.
    pub incdirs: Vec<String>,
    /// All defines; keys distinct, a later definition overriding an earlier.
    pub defines: Vec<(String, Option<String>)>,
    /// True if any line anywhere was a comment.
    pub comments_present: bool,
    /// True if any line anywhere was an unknown flag.
    pub unknowns_present: bool,
}

/// The mathematical value of an aggregate.
#[verifier::ext_equal]
pub struct FilelistVal {
    pub files: Seq<Seq<char>>,
    pub incdirs: Seq<Seq<char>>,
    pub defines: Map<Seq<char>, Option<Seq<char>>>,
    pub comments_present: bool,
    pub unknowns_present: bool,
}

impl View for Filelist {
    type V = FilelistVal;

    open spec fn view(&self) -> FilelistVal {
        FilelistVal {
            files: strs_view(self.files@),
            incdirs: strs_view(self.incdirs@),
            defines: pairs_map(self.defines@),
            comments_present: self.comments_present,
            unknowns_present: self.unknowns_present,
        }
    }
}

/// The value of an empty aggregate.
pub open spec fn empty_fl() -> FilelistVal {
    FilelistVal {
        files: Seq::empty(),
        incdirs: Seq::empty(),
        defines: Map::empty(),
        comments_present: false,
        unknowns_present: false,
    }
}

/// The merge of a sub-filelist's aggregate into a parent's: files and include
/// directories appended, the sub-result's defines overriding the parent's,
/// the flags combined.
pub open spec fn fl_extend(a: FilelistVal, b: FilelistVal) -> FilelistVal {
    FilelistVal {
        files: a.files + b.files,
        incdirs: a.incdirs + b.incdirs,
        defines: a.defines.union_prefer_right(b.defines),
        comments_present: a.comments_present || b.comments_present,
        unknowns_present: a.unknowns_present || b.unknowns_present,
    }
}

/// One classified line folded into an aggregate: a file or include-directory
/// line appends, a define line overrides, a comment or unknown line sets its
/// flag, an empty line changes nothing. A filelist reference also changes
/// nothing here: expanding it is the aggregation loop's business.
pub open spec fn apply_line(fl: FilelistVal, lv: LineVal) -> FilelistVal {
    match lv {
        LineVal::File(p) => FilelistVal { files: fl.files.push(p), ..fl },
        LineVal::IncDir(ds) => FilelistVal { incdirs: fl.incdirs + ds, ..fl },
        LineVal::Define(m) => FilelistVal { defines: fl.defines.union_prefer_right(m), ..fl },
        LineVal::Filelist(_) => fl,
        LineVal::Comment => FilelistVal { comments_present: true, ..fl },
        LineVal::Unknown => FilelistVal { unknowns_present: true, ..fl },
        LineVal::Empty => fl,
    }
}

/// With a pair list as the right operand, prepending a pair to it is the same
/// as inserting that pair on the left of the merge.
proof fn lemma_union_pairs_cons(
    x: Map<Seq<char>, Option<Seq<char>>>,
    ps: Seq<(String, Option<String>)>,
)
    requires
        ps.len() > 0,
    ensures
        x.union_prefer_right(pairs_map(ps)) == x.insert(
            ps[0].0@,
            crate::line_parser::opt_str_view(ps[0].1),
        ).union_prefer_right(pairs_map(ps.drop_first())),
    decreases ps.len(),
{
    let k = ps[0].0@;
    let v = crate::line_parser::opt_str_view(ps[0].1);
    if ps.len() == 1 {
        assert(ps.drop_last() =~= Seq::<(String, Option<String>)>::empty());
        assert(ps.drop_first() =~= Seq::<(String, Option<String>)>::empty());
        assert(ps.last() == ps[0]);
        assert(x.union_prefer_right(pairs_map(ps)) =~= x.insert(k, v).union_prefer_right(
            pairs_map(ps.drop_first()),
        ));
    } else {
        let q = ps.last();
        let qk = q.0@;
        let qv = crate::line_parser::opt_str_view(q.1);
        let front = ps.drop_last();
        lemma_union_pairs_cons(x, front);
        assert(front[0] == ps[0]);
        assert(pairs_map(ps) == pairs_map(front).insert(qk, qv));
        assert(x.union_prefer_right(pairs_map(front).insert(qk, qv)) =~= x.union_prefer_right(
            pairs_map(front),
        ).insert(qk, qv));
        assert(x.insert(k, v).union_prefer_right(pairs_map(front.drop_first()).insert(qk, qv))
            =~= x.insert(k, v).union_prefer_right(pairs_map(front.drop_first())).insert(qk, qv));
        assert(ps.drop_first().drop_last() =~= front.drop_first());
        assert(ps.drop_first().last() == q);
        assert(pairs_map(ps.drop_first()) == pairs_map(front.drop_first()).insert(qk, qv));
    }
}

/// Record every pair of `src` into `dst`, in order, overriding same keys.
fn merge_defines(dst: &mut Vec<(String, Option<String>)>, src: Vec<(String, Option<String>)>)
    requires
        defines_wf(old(dst)@),
    ensures
        defines_wf(final(dst)@),
        pairs_map(final(dst)@) == pairs_map(old(dst)@).union_prefer_right(pairs_map(src@)),
{
    let ghost target = pairs_map(old(dst)@).union_prefer_right(pairs_map(src@));
    let mut src = src;
    while src.len() > 0
        invariant
            defines_wf(dst@),
            pairs_map(dst@).union_prefer_right(pairs_map(src@)) == target,
        decreases src.len(),
    {
        let ghost before = src@;
        let (k, v) = src.remove(0);
        proof {
            assert(before[0] == (k, v));
            assert(src@ =~= before.drop_first());
            lemma_union_pairs_cons(pairs_map(dst@), before);
        }
        insert_define(dst, k, v);
    }
    proof {
        assert(src@ =~= Seq::<(String, Option<String>)>::empty());
        assert(pairs_map(dst@).union_prefer_right(pairs_map(src@)) =~= pairs_map(dst@));
    }
}

impl Filelist {
    /// The define keys are distinct.
    pub open spec fn wf(&self) -> bool {
        defines_wf(self.defines@)
    }

    /// An empty filelist: no files, no include directories, no defines, no
    /// comment or unknown lines seen.
    pub fn new() -> (r: Filelist)
        ensures
            r@ == empty_fl(),
            r.wf(),
    {
        let r = Filelist {
            files: Vec::new(),
            incdirs: Vec::new(),
            defines: Vec::new(),
            comments_present: false,
            unknowns_present: false,
        };
        proof {
            assert(r@ =~= empty_fl());
        }
        r
    }

    /// Add the elements of the other filelist to this one: files and include
    /// directories are appended in order, the other's defines override this
    /// one's on equal keys, and the flags are combined.
    pub fn extend(&mut self, other: Filelist)
        requires
            old(self).wf(),
            other.wf(),
        ensures
            final(self).wf(),
            final(self)@ == fl_extend(old(self)@, other@),
    {
        let ghost target = fl_extend(old(self)@, other@);
        let mut other = other;
        self.files.append(&mut other.files);
        self.incdirs.append(&mut other.incdirs);
        merge_defines(&mut self.defines, other.defines);
        self.comments_present = self.comments_present || other.comments_present;
        self.unknowns_present = self.unknowns_present || other.unknowns_present;
        proof {
            assert(strs_view(self.files@) =~= target.files);
            assert(strs_view(self.incdirs@) =~= target.incdirs);
            assert(self@ =~= target);
        }
    }

    /// Fold one classified line into the aggregate.
    fn add_line(&mut self, lt: LineType)
        requires
            old(self).wf(),
            lt matches LineType::Define(ps) ==> defines_wf(ps@),
        ensures
            final(self).wf(),
            final(self)@ == apply_line(old(self)@, lt@),
    {
        let ghost target = apply_line(old(self)@, lt@);
        match lt {
            LineType::File(p) => {
                proof {
                    lemma_strs_view_push(self.files@, p);
                }
                self.files.push(p);
            },
            LineType::IncDir(ds) => {
                let mut ds = ds;
                self.incdirs.append(&mut ds);
                proof {
                    assert(strs_view(self.incdirs@) =~= target.incdirs);
                }
            },
            LineType::Define(ps) => {
                merge_defines(&mut self.defines, ps);
            },
            LineType::Filelist(_) => {},
            LineType::Comment => {
                self.comments_present = true;
            },
            LineType::Unknown => {
                self.unknowns_present = true;
            },
            LineType::Empty => {},
        }
        proof {
            assert(self@ =~= target);
        }
    }
}

/// The views of a stack of frames, each frame the remaining lines of one
/// file.
pub open spec fn frames_view(fs: Seq<Vec<String>>) -> Seq<Seq<Seq<char>>> {
    fs.map_values(|f: Vec<String>| strs_view(f@))
}

/// The state of an aggregation: the result so far, the stack of unprocessed
/// lines (innermost file last), and the path awaited, if any.
#[verifier::ext_equal]
pub struct AggVal {
    pub acc: FilelistVal,
    pub frames: Seq<Seq<Seq<char>>>,
    pub awaiting: Option<Seq<char>>,
}

/// How many lines remain across all frames.
pub open spec fn lines_total(frames: Seq<Seq<Seq<char>>>) -> nat
    decreases frames.len(),
{
    if frames.len() == 0 {
        0
    } else {
        lines_total(frames.drop_last()) + frames.last().len()
    }
}

/// Process lines from the top frame down: each line is expanded against the
/// environment, classified and folded into the result, until a filelist
/// reference asks for that file's contents, or every frame is exhausted.
pub open spec fn advance(
    acc: FilelistVal,
    frames: Seq<Seq<Seq<char>>>,
    env: Seq<(Seq<char>, Seq<char>)>,
) -> AggVal
    decreases lines_total(frames), frames.len(),
    via advance_decreases
{
    if frames.len() == 0 {
        AggVal { acc, frames, awaiting: None }
    } else if frames.last().len() == 0 {
        advance(acc, frames.drop_last(), env)
    } else {
        let line = frames.last()[0];
        let rest = frames.update(frames.len() - 1, frames.last().drop_first());
        let lv = classify(subst_spec(line, env));
        match lv {
            LineVal::Filelist(p) => AggVal { acc, frames: rest, awaiting: Some(p) },
            _ => advance(apply_line(acc, lv), rest, env),
        }
    }
}

proof fn lemma_lines_total_consume(frames: Seq<Seq<Seq<char>>>)
    requires
        frames.len() > 0,
        frames.last().len() > 0,
    ensures
        lines_total(frames.update(frames.len() - 1, frames.last().drop_first())) == lines_total(
            frames,
        ) - 1,
{
    let rest = frames.update(frames.len() - 1, frames.last().drop_first());
    assert(rest.drop_last() =~= frames.drop_last());
    assert(rest.last() == frames.last().drop_first());
}

#[via_fn]
proof fn advance_decreases(
    acc: FilelistVal,
    frames: Seq<Seq<Seq<char>>>,
    env: Seq<(Seq<char>, Seq<char>)>,
) {
    if frames.len() > 0 && frames.last().len() > 0 {
        lemma_lines_total_consume(frames);
    }
}

/// The machine state after one file's contents are supplied: its lines are
/// pushed as a new frame and processing resumes.
pub open spec fn feed_spec(m: AggVal, contents: Seq<char>, env: Seq<(Seq<char>, Seq<char>)>) -> AggVal {
    advance(m.acc, m.frames.push(split_char_spec(contents, '\n')), env)
}

/// The machine state at the start of an aggregation: empty result, no lines,
/// awaiting the top filelist.
pub open spec fn init_agg(top: Seq<char>) -> AggVal {
    AggVal { acc: empty_fl(), frames: Seq::empty(), awaiting: Some(top) }
}

/// An aggregation in progress. The machine does no reading itself: it names
/// the file it needs through `awaiting`, is fed that file's contents, and
/// processes lines until it needs the next file or is done.
pub struct Aggregator {
    acc: Filelist,
    frames: Vec<Vec<String>>,
    awaiting: Option<String>,
}

impl View for Aggregator {
    type V = AggVal;

    closed spec fn view(&self) -> AggVal {
        AggVal {
            acc: self.acc@,
            frames: frames_view(self.frames@),
            awaiting: match self.awaiting {
                Some(p) => Some(p@),
                None => None,
            },
        }
    }
}

impl Aggregator {
    /// The machine's aggregate keeps its define keys distinct.
    pub closed spec fn wf(&self) -> bool {
        self.acc.wf()
    }

    /// Start an aggregation: the machine first asks for the top filelist.
    pub fn new(top: &str) -> (r: Aggregator)
        ensures
            r@ == init_agg(top@),
            r.wf(),
    {
        let r = Aggregator { acc: Filelist::new(), frames: Vec::new(), awaiting: Some(
            top.to_owned(),
        ) };
        proof {
            assert(frames_view(r.frames@) =~= Seq::<Seq<Seq<char>>>::empty());
            assert(r@ =~= init_agg(top@));
        }
        r
    }

    /// The path whose contents the machine waits for; nothing when done.
    pub fn awaiting(&self) -> (r: Option<String>)
        ensures
            r matches Some(p) ==> self@.awaiting == Some(p@),
            r is None ==> self@.awaiting is None,
    {
        match &self.awaiting {
            Some(p) => Some(p.clone()),
            None => None,
        }
    }

    /// True once every line is processed and no file is awaited.
    pub fn is_done(&self) -> (r: bool)
        ensures
            r == (self@.awaiting is None),
    {
        self.awaiting.is_none()
    }

    /// Supply the contents of the awaited file. Its lines are spliced in
    /// place of the reference and processed in order, each first expanded
    /// against `env`, until the next filelist reference or the end of all
    /// input.
    pub fn feed(&mut self, contents: &str, env: &Vec<(String, String)>)
        requires
            old(self).wf(),
            old(self)@.awaiting is Some,
        ensures
            final(self).wf(),
            final(self)@ == feed_spec(old(self)@, contents@, pairs_view(env@)),
    {
        let ghost env_v = pairs_view(env@);
        let frame = split_str(contents, '\n');
        proof {
            lemma_strs_view_push2(self.frames@, frame);
        }
        self.frames.push(frame);
        self.awaiting = None;
        let ghost target = advance(self.acc@, frames_view(self.frames@), env_v);
        loop
            invariant_except_break
                self.awaiting is None,
                advance(self.acc@, frames_view(self.frames@), env_v) == target,
            invariant
                env_v == pairs_view(env@),
                self.acc.wf(),
            ensures
                self@ =~= target,
            decreases lines_total(frames_view(self.frames@)), frames_view(self.frames@).len(),
        {
            let ghost cur_frames = frames_view(self.frames@);
            if self.frames.len() == 0 {
                assert(self@ =~= target);
                break ;
            }
            let mut top = self.frames.pop().unwrap();
            proof {
                assert(cur_frames.last() == strs_view(top@));
                assert(frames_view(self.frames@) =~= cur_frames.drop_last());
            }
            if top.len() == 0 {
                proof {
                    assert(strs_view(top@) =~= Seq::<Seq<char>>::empty());
                    assert(lines_total(cur_frames) == lines_total(cur_frames.drop_last()));
                }
                continue ;
            }
            let ghost top_v = strs_view(top@);
            let line = top.remove(0);
            proof {
                assert(line@ == top_v[0]);
                assert(strs_view(top@) =~= top_v.drop_first());
                lemma_strs_view_push2(self.frames@, top);
            }
            self.frames.push(top);
            proof {
                assert(frames_view(self.frames@) =~= cur_frames.update(
                    cur_frames.len() - 1,
                    cur_frames.last().drop_first(),
                ));
                lemma_lines_total_consume(cur_frames);
            }
            let eff = substitute(line.as_str(), env);
            let lt = parse_line(eff.as_str());
            match lt {
                LineType::Filelist(p) => {
                    self.awaiting = Some(p);
                    assert(self@ =~= target);
                    break ;
                },
                _ => {
                    self.acc.add_line(lt);
                },
            }
        }
    }

    /// The aggregate, once the machine awaits nothing.
    pub fn into_result(self) -> (r: Filelist)
        requires
            self.wf(),
            self@.awaiting is None,
        ensures
            r@ == self@.acc,
            r.wf(),
    {
        self.acc
    }
}

proof fn lemma_strs_view_push2(v: Seq<Vec<String>>, f: Vec<String>)
    ensures
        frames_view(v.push(f)) == frames_view(v).push(strs_view(f@)),
{
    assert(frames_view(v.push(f)) =~= frames_view(v).push(strs_view(f@)));
}

/// Aggregation failure: the named filelist could not be supplied.
#[derive(Debug, PartialEq)]
pub enum ReadError {
    /// The path is not among the readable files.
    Unreadable(String),
    /// The path was already expanded once in this aggregation; expanding it
    /// again could never end, so it is refused.
    Repeated(String),
}

/// The mathematical value of an aggregation failure.
pub enum ReadErrorVal {
    Unreadable(Seq<char>),
    Repeated(Seq<char>),
}

impl View for ReadError {
    type V = ReadErrorVal;

    open spec fn view(&self) -> ReadErrorVal {
        match self {
            ReadError::Unreadable(p) => ReadErrorVal::Unreadable(p@),
            ReadError::Repeated(p) => ReadErrorVal::Repeated(p@),
        }
    }
}

/// The visited paths are distinct and each names a file of the table.
pub open spec fn drive_wf(fs: Seq<(Seq<char>, Seq<char>)>, visited: Seq<Seq<char>>) -> bool {
    visited.no_duplicates() && forall|i: int|
        0 <= i < visited.len() ==> env_lookup(fs, #[trigger] visited[i]) is Some
}

proof fn lemma_lookup_exists(pairs: Seq<(Seq<char>, Seq<char>)>, name: Seq<char>)
    ensures
        env_lookup(pairs, name) is Some <==> exists|i: int|
            0 <= i < pairs.len() && (#[trigger] pairs[i]).0 == name,
    decreases pairs.len(),
{
    if pairs.len() > 0 && pairs[0].0 != name {
        lemma_lookup_exists(pairs.drop_first(), name);
        if env_lookup(pairs, name) is Some {
            let i = choose|i: int|
                0 <= i < pairs.drop_first().len() && (#[trigger] pairs.drop_first()[i]).0 == name;
            assert(pairs[i + 1].0 == name);
        }
        if exists|i: int| 0 <= i < pairs.len() && (#[trigger] pairs[i]).0 == name {
            let i = choose|i: int| 0 <= i < pairs.len() && (#[trigger] pairs[i]).0 == name;
            assert(pairs.drop_first()[i - 1].0 == name);
        }
    }
}

/// Distinct names that all occur among the table's keys are no more numerous
/// than the table's entries.
proof fn lemma_distinct_keys_bound(fs: Seq<(Seq<char>, Seq<char>)>, visited: Seq<Seq<char>>)
    requires
        drive_wf(fs, visited),
    ensures
        visited.len() <= fs.len(),
    decreases visited.len(),
{
    if visited.len() > 0 {
        let v = visited.last();
        lemma_lookup_exists(fs, v);
        let j = choose|j: int| 0 <= j < fs.len() && (#[trigger] fs[j]).0 == v;
        let fs2 = fs.remove(j);
        let rest = visited.drop_last();
        assert forall|i: int| 0 <= i < rest.len() implies env_lookup(
            fs2,
            #[trigger] rest[i],
        ) is Some by {
            let w = rest[i];
            assert(visited[i] == w);
            lemma_lookup_exists(fs, w);
            let wi = choose|wi: int| 0 <= wi < fs.len() && (#[trigger] fs[wi]).0 == w;
            assert(w != v);
            if wi < j {
                assert(fs2[wi] == fs[wi]);
            } else {
                assert(fs2[wi - 1] == fs[wi]);
            }
            lemma_lookup_exists(fs2, w);
        }
        lemma_distinct_keys_bound(fs2, rest);
    }
}

/// The outcome of repeatedly feeding the machine from an in-memory table of
/// files, refusing to expand any path a second time: the final aggregate, or
/// the failure on the first path that cannot be supplied.
pub open spec fn drive(
    fs: Seq<(Seq<char>, Seq<char>)>,
    env: Seq<(Seq<char>, Seq<char>)>,
    m: AggVal,
    visited: Seq<Seq<char>>,
) -> Result<FilelistVal, ReadErrorVal>
    decreases fs.len() - visited.len(),
    when drive_wf(fs, visited)
    via drive_decreases
{
    match m.awaiting {
        None => Ok(m.acc),
        Some(p) => if visited.contains(p) {
            Err(ReadErrorVal::Repeated(p))
        } else {
            match env_lookup(fs, p) {
                None => Err(ReadErrorVal::Unreadable(p)),
                Some(c) => drive(fs, env, feed_spec(m, c, env), visited.push(p)),
            }
        },
    }
}

#[via_fn]
proof fn drive_decreases(
    fs: Seq<(Seq<char>, Seq<char>)>,
    env: Seq<(Seq<char>, Seq<char>)>,
    m: AggVal,
    visited: Seq<Seq<char>>,
) {
    match m.awaiting {
        Some(p) => {
            if !visited.contains(p) && env_lookup(fs, p) is Some {
                let v2 = visited.push(p);
                assert forall|i: int| 0 <= i < v2.len() implies env_lookup(
                    fs,
                    #[trigger] v2[i],
                ) is Some by {
                    if i < visited.len() {
                        assert(v2[i] == visited[i]);
                    }
                }
                lemma_distinct_keys_bound(fs, v2);
            }
        },
        None => {},
    }
}

fn contains_str(v: &Vec<String>, name: &str) -> (r: bool)
    ensures
        r == strs_view(v@).contains(name@),
{
    let n = v.len();
    let mut i: usize = 0;
    while i < n
        invariant
            n == v@.len(),
            0 <= i <= n,
            forall|j: int| 0 <= j < i ==> strs_view(v@)[j] != name@,
        decreases n - i,
    {
        if str_eq(v[i].as_str(), name) {
            assert(strs_view(v@)[i as int] == name@);
            return true;
        }
        i = i + 1;
    }
    false
}

fn assoc_get(pairs: &Vec<(String, String)>, name: &str) -> (r: Option<String>)
    ensures
        r matches Some(v) ==> env_lookup(pairs_view(pairs@), name@) == Some(v@),
        r is None ==> env_lookup(pairs_view(pairs@), name@) is None,
{
    let n = pairs.len();
    let mut i: usize = 0;
    proof {
        assert(pairs_view(pairs@).skip(0) =~= pairs_view(pairs@));
    }
    while i < n
        invariant
            n == pairs@.len(),
            0 <= i <= n,
            env_lookup(pairs_view(pairs@), name@) == env_lookup(
                pairs_view(pairs@).skip(i as int),
                name@,
            ),
        decreases n - i,
    {
        let ghost rest = pairs_view(pairs@).skip(i as int);
        proof {
            assert(rest[0] == pairs_view(pairs@)[i as int]);
            assert(rest.drop_first() =~= pairs_view(pairs@).skip(i + 1));
        }
        if str_eq(pairs[i].0.as_str(), name) {
            return Some(pairs[i].1.clone());
        }
        i = i + 1;
    }
    None
}

/// Aggregate the filelist named `top` against an in-memory table of files
/// (path-contents pairs; for a repeated path the first pair wins) and a
/// read-only environment. Fails with `Unreadable` on the first referenced
/// path missing from the table, and with `Repeated` on a path referenced for
/// the second time, which guards the expansion against filelists that
/// reference themselves; no partial result is returned.
pub fn parse_file(fs: &Vec<(String, String)>, top: &str, env: &Vec<(String, String)>) -> (r: Result<
    Filelist,
    ReadError,
>)
    ensures
        r matches Ok(fl) ==> drive(pairs_view(fs@), pairs_view(env@), init_agg(top@), Seq::empty())
            == Result::<FilelistVal, ReadErrorVal>::Ok(fl@) && fl.wf(),
        r matches Err(e) ==> drive(pairs_view(fs@), pairs_view(env@), init_agg(top@), Seq::empty())
            == Result::<FilelistVal, ReadErrorVal>::Err(e@),
{
    let ghost fs_v = pairs_view(fs@);
    let ghost env_v = pairs_view(env@);
    let ghost target = drive(fs_v, env_v, init_agg(top@), Seq::empty());
    let mut agg = Aggregator::new(top);
    let mut visited: Vec<String> = Vec::new();
    proof {
        assert(strs_view(visited@) =~= Seq::<Seq<char>>::empty());
    }
    loop
        invariant
            fs_v == pairs_view(fs@),
            env_v == pairs_view(env@),
            target == drive(fs_v, env_v, init_agg(top@), Seq::empty()),
            agg.wf(),
            drive_wf(fs_v, strs_view(visited@)),
            drive(fs_v, env_v, agg@, strs_view(visited@)) == target,
        decreases fs_v.len() - strs_view(visited@).len(),
    {
        proof {
            lemma_distinct_keys_bound(fs_v, strs_view(visited@));
        }
        match agg.awaiting() {
            None => {
                return Ok(agg.into_result());
            },
            Some(p) => {
                if contains_str(&visited, p.as_str()) {
                    return Err(ReadError::Repeated(p));
                }
                match assoc_get(fs, p.as_str()) {
                    None => {
                        return Err(ReadError::Unreadable(p));
                    },
                    Some(c) => {
                        proof {
                            lemma_strs_view_push(visited@, p);
                        }
                        let ghost old_visited = strs_view(visited@);
                        visited.push(p);
                        agg.feed(c.as_str(), env);
                        proof {
                            assert forall|i: int|
                                0 <= i < strs_view(visited@).len() implies env_lookup(
                                fs_v,
                                #[trigger] strs_view(visited@)[i],
                            ) is Some by {
                                if i < old_visited.len() {
                                    assert(strs_view(visited@)[i] == old_visited[i]);
                                }
                            }
                            lemma_distinct_keys_bound(fs_v, strs_view(visited@));
                        }
                    },
                }
            },
        }
    }
}

/// The payloads of a list of lines that all classify as source files: each
/// line substituted against the environment and trimmed, in input order.
pub open spec fn file_payloads(lines: Seq<Seq<char>>, env: Seq<(Seq<char>, Seq<char>)>) -> Seq<
    Seq<char>,
> {
    Seq::new(lines.len(), |i: int| trim_spec(subst_spec(lines[i], env)))
}

proof fn lemma_advance_all_files(
    acc: FilelistVal,
    lines: Seq<Seq<char>>,
    env: Seq<(Seq<char>, Seq<char>)>,
)
    requires
        forall|i: int| 0 <= i < lines.len() ==> classify(
            subst_spec(#[trigger] lines[i], env),
        ) is File,
    ensures
        (advance(acc, seq![lines], env) == AggVal {
            acc: FilelistVal { files: acc.files + file_payloads(lines, env), ..acc },
            frames: Seq::<Seq<Seq<char>>>::empty(),
            awaiting: None,
        }),
    decreases lines.len(),
{
    let frames = seq![lines];
    if lines.len() == 0 {
        assert(frames.drop_last() =~= Seq::<Seq<Seq<char>>>::empty());
        assert(advance(acc, frames, env) == advance(acc, Seq::<Seq<Seq<char>>>::empty(), env));
        assert(acc.files + file_payloads(lines, env) =~= acc.files);
        assert((FilelistVal { files: acc.files + file_payloads(lines, env), ..acc }) =~= acc);
    } else {
        let line = lines[0];
        let lv = classify(subst_spec(line, env));
        let p = trim_spec(subst_spec(line, env));
        assert(lv is File);
        assert(lv == LineVal::File(p));
        let rest_lines = lines.drop_first();
        assert(frames.update(frames.len() - 1, frames.last().drop_first()) =~= seq![rest_lines]);
        let acc2 = apply_line(acc, lv);
        assert(forall|i: int| 0 <= i < rest_lines.len() ==> rest_lines[i] == lines[i + 1]);
        assert(forall|i: int| 0 <= i < rest_lines.len() ==> classify(
            subst_spec(#[trigger] rest_lines[i], env),
        ) is File);
        lemma_advance_all_files(acc2, rest_lines, env);
        assert(advance(acc, frames, env) == advance(acc2, seq![rest_lines], env));
        assert(acc2.files + file_payloads(rest_lines, env) =~= acc.files + file_payloads(
            lines,
            env,
        ));
        assert((FilelistVal { files: acc2.files + file_payloads(rest_lines, env), ..acc2 }) =~= (
        FilelistVal { files: acc.files + file_payloads(lines, env), ..acc }));
    }
}

/// Aggregating a filelist whose lines all classify as source files yields
/// exactly those lines, substituted and trimmed, as `files`, in input order
/// with duplicates preserved, and nothing else: no include directories, no
/// defines, no comment or unknown flags.
pub proof fn lemma_source_files_round_trip(
    fs: Seq<(Seq<char>, Seq<char>)>,
    env: Seq<(Seq<char>, Seq<char>)>,
    top: Seq<char>,
    contents: Seq<char>,
)
    requires
        env_lookup(fs, top) == Some(contents),
        forall|i: int| 0 <= i < split_char_spec(contents, '\n').len() ==> classify(
            subst_spec(#[trigger] split_char_spec(contents, '\n')[i], env),
        ) is File,
    ensures
        (drive(fs, env, init_agg(top), Seq::empty()) == Result::<FilelistVal, ReadErrorVal>::Ok(
            FilelistVal {
                files: file_payloads(split_char_spec(contents, '\n'), env),
                incdirs: Seq::empty(),
                defines: Map::empty(),
                comments_present: false,
                unknowns_present: false,
            },
        )),
{
    let lines = split_char_spec(contents, '\n');
    let visited0 = Seq::<Seq<char>>::empty();
    assert(drive_wf(fs, visited0));
    assert(!visited0.contains(top));
    let m1 = feed_spec(init_agg(top), contents, env);
    assert(init_agg(top).frames.push(lines) =~= seq![lines]);
    lemma_advance_all_files(empty_fl(), lines, env);
    let visited1 = visited0.push(top);
    assert(drive_wf(fs, visited1)) by {
        assert(forall|i: int| 0 <= i < visited1.len() ==> visited1[i] == top);
    }
    assert(drive(fs, env, m1, visited1) == Result::<FilelistVal, ReadErrorVal>::Ok(m1.acc));
    assert(empty_fl().files + file_payloads(lines, env) =~= file_payloads(lines, env));
    assert(m1.acc =~= (FilelistVal {
        files: file_payloads(lines, env),
        incdirs: Seq::empty(),
        defines: Map::empty(),
        comments_present: false,
        unknowns_present: false,
    }));
}

/// A define line sets each identifier it defines to that line's value in the
/// aggregate, whatever the aggregate held for that identifier before.
pub proof fn lemma_define_overwrites(
    fl: FilelistVal,
    m: Map<Seq<char>, Option<Seq<char>>>,
    k: Seq<char>,
)
    requires
        m.dom().contains(k),
    ensures
        apply_line(fl, LineVal::Define(m)).defines.dom().contains(k),
        apply_line(fl, LineVal::Define(m)).defines[k] == m[k],
{
}

/// No line across the frames, once substituted and classified, defines `k`.
pub open spec fn no_define_of(
    frames: Seq<Seq<Seq<char>>>,
    env: Seq<(Seq<char>, Seq<char>)>,
    k: Seq<char>,
) -> bool {
    forall|fi: int, li: int|
        0 <= fi < frames.len() && 0 <= li < frames[fi].len() ==> match classify(
            subst_spec(#[trigger] frames[fi][li], env),
        ) {
            LineVal::Define(m) => !m.dom().contains(k),
            _ => true,
        }
}

/// Processing any number of lines none of which redefine `k` leaves `k`
/// defined as it stands: together with `lemma_define_overwrites`, when a
/// sub-filelist's define is the last to touch a key, its value is the one in
/// the final aggregate.
pub proof fn lemma_advance_preserves_define(
    acc: FilelistVal,
    frames: Seq<Seq<Seq<char>>>,
    env: Seq<(Seq<char>, Seq<char>)>,
    k: Seq<char>,
)
    requires
        acc.defines.dom().contains(k),
        no_define_of(frames, env, k),
    ensures
        advance(acc, frames, env).acc.defines.dom().contains(k),
        advance(acc, frames, env).acc.defines[k] == acc.defines[k],
        no_define_of(advance(acc, frames, env).frames, env, k),
    decreases lines_total(frames), frames.len(),
{
    if frames.len() == 0 {
    } else if frames.last().len() == 0 {
        let front = frames.drop_last();
        assert(no_define_of(front, env, k)) by {
            assert(forall|fi: int, li: int|
                0 <= fi < front.len() && 0 <= li < front[fi].len() ==> front[fi][li] == frames[fi][li]);
        }
        lemma_advance_preserves_define(acc, front, env, k);
    } else {
        let line = frames.last()[0];
        let rest = frames.update(frames.len() - 1, frames.last().drop_first());
        let lv = classify(subst_spec(line, env));
        assert(frames[frames.len() - 1][0] == line);
        assert(no_define_of(rest, env, k)) by {
            assert forall|fi: int, li: int|
                0 <= fi < rest.len() && 0 <= li < rest[fi].len() implies match classify(
                subst_spec(#[trigger] rest[fi][li], env),
            ) {
                LineVal::Define(m) => !m.dom().contains(k),
                _ => true,
            } by {
                if fi == rest.len() - 1 {
                    assert(rest[fi][li] == frames[fi][li + 1]);
                } else {
                    assert(rest[fi][li] == frames[fi][li]);
                }
            }
        }
        match lv {
            LineVal::Filelist(_) => {
            },
            _ => {
                let acc2 = apply_line(acc, lv);
                assert(acc2.defines.dom().contains(k) && acc2.defines[k] == acc.defines[k]);
                lemma_lines_total_consume(frames);
                lemma_advance_preserves_define(acc2, rest, env, k);
            },
        }
    }
}

/// The line, once substituted and classified, defines `k`.
pub open spec fn line_defines(
    line: Seq<char>,
    env: Seq<(Seq<char>, Seq<char>)>,
    k: Seq<char>,
) -> bool {
    match classify(subst_spec(line, env)) {
        LineVal::Define(m) => m.dom().contains(k),
        _ => false,
    }
}

/// The value the line's define gives `k`.
pub open spec fn line_define_value(
    line: Seq<char>,
    env: Seq<(Seq<char>, Seq<char>)>,
    k: Seq<char>,
) -> Option<Seq<char>> {
    match classify(subst_spec(line, env)) {
        LineVal::Define(m) => m[k],
        _ => None,
    }
}

/// When the current file's line `i` defines `k`, no later line of that file
/// or of the files still queued behind it defines `k` again, and no line
/// before `i` interrupts with a filelist reference, then processing leaves
/// `k` defined with line `i`'s value — whatever the aggregate held before.
pub proof fn lemma_advance_define_wins(
    acc: FilelistVal,
    frames: Seq<Seq<Seq<char>>>,
    env: Seq<(Seq<char>, Seq<char>)>,
    k: Seq<char>,
    i: int,
)
    requires
        frames.len() > 0,
        0 <= i < frames.last().len(),
        line_defines(frames.last()[i], env, k),
        forall|j: int| i < j < frames.last().len() ==> !line_defines(
            #[trigger] frames.last()[j],
            env,
            k,
        ),
        forall|fi: int, li: int|
            0 <= fi < frames.len() - 1 && 0 <= li < frames[fi].len() ==> !line_defines(
                #[trigger] frames[fi][li],
                env,
                k,
            ),
        forall|j: int| 0 <= j < i ==> !(classify(
            subst_spec(#[trigger] frames.last()[j], env),
        ) is Filelist),
    ensures
        advance(acc, frames, env).acc.defines.dom().contains(k),
        advance(acc, frames, env).acc.defines[k] == line_define_value(frames.last()[i], env, k),
    decreases i,
{
    let line = frames.last()[0];
    let rest = frames.update(frames.len() - 1, frames.last().drop_first());
    let lv = classify(subst_spec(line, env));
    if i == 0 {
        assert(lv matches LineVal::Define(dm) && dm.dom().contains(k));
        let acc2 = apply_line(acc, lv);
        assert(acc2.defines.dom().contains(k) && acc2.defines[k] == line_define_value(
            line,
            env,
            k,
        ));
        assert(no_define_of(rest, env, k)) by {
            assert forall|fi: int, li: int|
                0 <= fi < rest.len() && 0 <= li < rest[fi].len() implies match classify(
                subst_spec(#[trigger] rest[fi][li], env),
            ) {
                LineVal::Define(m) => !m.dom().contains(k),
                _ => true,
            } by {
                if fi == rest.len() - 1 {
                    assert(rest[fi][li] == frames.last()[li + 1]);
                    assert(!line_defines(frames.last()[li + 1], env, k));
                } else {
                    assert(rest[fi][li] == frames[fi][li]);
                    assert(!line_defines(frames[fi][li], env, k));
                }
            }
        }
        lemma_advance_preserves_define(acc2, rest, env, k);
        assert(advance(acc, frames, env) == advance(acc2, rest, env));
    } else {
        assert(!(lv is Filelist));
        let acc2 = apply_line(acc, lv);
        assert(rest.last() == frames.last().drop_first());
        assert(rest.last()[i - 1] == frames.last()[i]);
        assert forall|j: int| i - 1 < j < rest.last().len() implies !line_defines(
            #[trigger] rest.last()[j],
            env,
            k,
        ) by {
            assert(rest.last()[j] == frames.last()[j + 1]);
        }
        assert forall|fi: int, li: int|
            0 <= fi < rest.len() - 1 && 0 <= li < rest[fi].len() implies !line_defines(
            #[trigger] rest[fi][li],
            env,
            k,
        ) by {
            assert(rest[fi][li] == frames[fi][li]);
        }
        assert forall|j: int| 0 <= j < i - 1 implies !(classify(
            subst_spec(#[trigger] rest.last()[j], env),
        ) is Filelist) by {
            assert(rest.last()[j] == frames.last()[j + 1]);
        }
        lemma_advance_define_wins(acc2, rest, env, k, i - 1);
        assert(advance(acc, frames, env) == advance(acc2, rest, env));
    }
}

/// Feeding the machine a filelist whose last define of `k` stands at line
/// `i`, when no line of the files still queued behind it defines `k` again
/// and no earlier line of the fed file is a filelist reference, leaves `k`
/// defined with that line's value. In particular, when an included
/// sub-filelist redefines a key that the including filelist set before the
/// reference, the sub-filelist's value is the one in the aggregate.
pub proof fn lemma_sub_filelist_define_wins(
    m: AggVal,
    contents: Seq<char>,
    env: Seq<(Seq<char>, Seq<char>)>,
    k: Seq<char>,
    i: int,
)
    requires
        0 <= i < split_char_spec(contents, '\n').len(),
        line_defines(split_char_spec(contents, '\n')[i], env, k),
        forall|j: int| i < j < split_char_spec(contents, '\n').len() ==> !line_defines(
            #[trigger] split_char_spec(contents, '\n')[j],
            env,
            k,
        ),
        forall|fi: int, li: int|
            0 <= fi < m.frames.len() && 0 <= li < m.frames[fi].len() ==> !line_defines(
                #[trigger] m.frames[fi][li],
                env,
                k,
            ),
        forall|j: int| 0 <= j < i ==> !(classify(
            subst_spec(#[trigger] split_char_spec(contents, '\n')[j], env),
        ) is Filelist),
    ensures
        feed_spec(m, contents, env).acc.defines.dom().contains(k),
        feed_spec(m, contents, env).acc.defines[k] == line_define_value(
            split_char_spec(contents, '\n')[i],
            env,
            k,
        ),
{
    let lines = split_char_spec(contents, '\n');
    let frames2 = m.frames.push(lines);
    assert(frames2.last() == lines);
    assert forall|fi: int, li: int|
        0 <= fi < frames2.len() - 1 && 0 <= li < frames2[fi].len() implies !line_defines(
        #[trigger] frames2[fi][li],
        env,
        k,
    ) by {
        assert(frames2[fi][li] == m.frames[fi][li]);
    }
    lemma_advance_define_wins(m.acc, frames2, env, k, i);
}

} // verus!
