//! Data-parallel parsing of one project's container files, with per-file
//! failure aggregation.
//!
//! Each file runs the extractor and then the tree parser; the parallel map
//! yields one result per file, in input order, so the aggregate does not
//! depend on scheduling.  A project where every file succeeds yields the
//! full model list; otherwise the project fails with a message joining
//! every failing file's identity and fault, and no partial success is
//! surfaced past this point.

use vstd::prelude::*;

use rayon::iter::{IntoParallelRefIterator, ParallelIterator};

use crate::extract::{extract, gunzip_of, ExtractError};
use crate::parse::als::{sp_parse_als, AlsData, AlsView};
use crate::parse::{sp_err_msg, ParseError};
use crate::text::{join, sp_join};

verus! {

/// What one discovered container file hands the pipeline: the file's base
/// name, and its bytes — or the reading fault the surrounding program hit.
#[derive(Debug, Clone, PartialEq)]
pub struct AlsFile {
    pub name: String,
    pub content: FileContent,
}

/// A file's bytes, or the fault met while reading them.
#[derive(Debug, Clone, PartialEq)]
pub enum FileContent {
    Bytes(Vec<u8>),
    Unreadable(String),
}

/// Mathematical image of a [`FileContent`].
pub enum ContentView {
    Bytes(Seq<u8>),
    Unreadable(Seq<char>),
}

/// Mathematical image of an [`AlsFile`].
pub struct FileView {
    pub name: Seq<char>,
    pub content: ContentView,
}

impl View for FileContent {
    type V = ContentView;

    open spec fn view(&self) -> ContentView {
        match self {
            FileContent::Bytes(b) => ContentView::Bytes(b@),
            FileContent::Unreadable(m) => ContentView::Unreadable(m@),
        }
    }
}

impl View for AlsFile {
    type V = FileView;

    open spec fn view(&self) -> FileView {
        FileView { name: self.name@, content: self.content@ }
    }
}

/// A failing file's line in the project error: its name, then the fault.
pub open spec fn sp_file_msg(name: Seq<char>, m: Seq<char>) -> Seq<char> {
    name + ": "@ + m
}

/// How one file parses: an unreadable file fails with its reading fault, a
/// byte stream that does not inflate fails as a bad container, and the
/// decompressed text parses as a document under the file's name.
pub open spec fn sp_parse_file(f: FileView) -> Result<AlsView, Seq<char>> {
    match f.content {
        ContentView::Unreadable(m) => Err(sp_file_msg(f.name, m)),
        ContentView::Bytes(b) => match gunzip_of(b) {
            None => Err(sp_file_msg(f.name, "not a gzip text container"@)),
            Some(text) => match sp_parse_als(f.name, text) {
                Ok(a) => Ok(a),
                Err(e) => Err(sp_file_msg(f.name, sp_err_msg(e))),
            },
        },
    }
}

/// Runs the extractor and the tree parser on one file; mirrors
/// [`sp_parse_file`].
pub fn parse_file(f: &AlsFile) -> (r: Result<AlsData, String>)
    ensures
        ({
            let sp = sp_parse_file(f@);
            match r {
                Ok(a) => sp == Ok::<_, Seq<char>>(a@),
                Err(m) => sp == Err::<AlsView, Seq<char>>(m@),
            }
        }),
{
    match &f.content {
        FileContent::Unreadable(m) => {
            let mut out = f.name.clone();
            out.append(": ");
            out.append(m.as_str());
            Err(out)
        },
        FileContent::Bytes(b) => {
            let text = match extract(b) {
                Ok(t) => t,
                Err(ExtractError::Decode) => {
                    let mut out = f.name.clone();
                    out.append(": ");
                    out.append("not a gzip text container");
                    return Err(out);
                },
            };
            match AlsData::parse(f.name.clone(), text) {
                Ok(a) => Ok(a),
                Err(e) => {
                    let mut out = f.name.clone();
                    out.append(": ");
                    out.append(e.message().as_str());
                    Err(out)
                },
            }
        },
    }
}

/// The view of one per-file outcome.
pub open spec fn file_res_view(r: Result<AlsData, String>) -> Result<AlsView, Seq<char>> {
    match r {
        Ok(a) => Ok(a@),
        Err(m) => Err(m@),
    }
}

/// Relies on rayon's parallel iterator: `par_iter().map(..).collect()`
/// yields exactly one output per input, in input order, each produced by
/// one call of the verified [`parse_file`] on the matching input.  No task
/// observes another's state, so the map's outcome is that of the
/// sequential map.
#[verifier::external_body]
fn par_parse_files(files: &Vec<AlsFile>) -> (r: Vec<Result<AlsData, String>>)
    ensures
        r@.len() == files@.len(),
        forall|i: int|
            0 <= i < r@.len() ==> file_res_view(#[trigger] r@[i]) == sp_parse_file(files@[i]@),
{
    files.par_iter().map(|f| parse_file(f)).collect()
}

/// The models of the files among the first `n` that parse, in input order.
pub open spec fn sp_oks_upto(files: Seq<FileView>, n: int) -> Seq<AlsView>
    decreases n,
{
    if n <= 0 {
        seq![]
    } else {
        let p = sp_oks_upto(files, n - 1);
        match sp_parse_file(files[n - 1]) {
            Ok(a) => p.push(a),
            Err(_) => p,
        }
    }
}

/// The messages of the files among the first `n` that fail, in input
/// order.
pub open spec fn sp_failures_upto(files: Seq<FileView>, n: int) -> Seq<Seq<char>>
    decreases n,
{
    if n <= 0 {
        seq![]
    } else {
        let p = sp_failures_upto(files, n - 1);
        match sp_parse_file(files[n - 1]) {
            Ok(_) => p,
            Err(m) => p.push(m),
        }
    }
}

/// The models of all files that parse, in input order.
pub open spec fn sp_oks(files: Seq<FileView>) -> Seq<AlsView> {
    sp_oks_upto(files, files.len() as int)
}

/// The messages of all files that fail, in input order.
pub open spec fn sp_failures(files: Seq<FileView>) -> Seq<Seq<char>> {
    sp_failures_upto(files, files.len() as int)
}

/// Every file among the first `n` lands in exactly one of the two lists.
proof fn lemma_one_outcome_upto(files: Seq<FileView>, n: int)
    requires
        0 <= n <= files.len(),
    ensures
        sp_oks_upto(files, n).len() + sp_failures_upto(files, n).len() == n,
    decreases n,
{
    if n > 0 {
        lemma_one_outcome_upto(files, n - 1);
    }
}

/// Law: every file contributes exactly one outcome, so a project with `k`
/// failing files aggregates exactly `k` failure messages and the rest as
/// models.
pub proof fn lemma_one_outcome_per_file(files: Seq<FileView>)
    ensures
        sp_oks(files).len() + sp_failures(files).len() == files.len(),
{
    lemma_one_outcome_upto(files, files.len() as int);
}

/// How one project's file list parses: every file's model in input order
/// where all succeed; otherwise a failure naming the project and joining
/// exactly the failing files' messages, in input order.
pub open spec fn sp_parallel_parse_dir(project: Seq<char>, files: Seq<FileView>) -> Result<
    Seq<AlsView>,
    Seq<char>,
> {
    if sp_failures(files).len() == 0 {
        Ok(sp_oks(files))
    } else {
        Err(project + ": "@ + sp_join(sp_failures(files), ", "@))
    }
}

/// Parses one project's files on the worker pool and aggregates the
/// outcomes; mirrors [`sp_parallel_parse_dir`].  The parallel map keeps
/// input order, so the model list and the error text do not depend on
/// scheduling.
pub fn parallel_parse_dir(project_name: &str, files: &Vec<AlsFile>) -> (r: Result<
    Vec<AlsData>,
    String,
>)
    ensures
        ({
            let sp = sp_parallel_parse_dir(project_name@, files@.map_values(|f: AlsFile| f@));
            match r {
                Ok(v) => sp == Ok::<_, Seq<char>>(v@.map_values(|a: AlsData| a@)),
                Err(m) => sp == Err::<Seq<AlsView>, Seq<char>>(m@),
            }
        }),
{
    let ghost fv = files@.map_values(|f: AlsFile| f@);
    let mut results = par_parse_files(files);
    let ghost rv = results@;
    let n = results.len();
    let mut oks: Vec<AlsData> = Vec::new();
    let mut fails: Vec<String> = Vec::new();
    let mut k: usize = 0;
    proof {
        assert(oks@.map_values(|a: AlsData| a@) =~= sp_oks_upto(fv, 0));
        assert(fails@.map_values(|s: String| s@) =~= sp_failures_upto(fv, 0));
        assert(results@ =~= rv.skip(0));
    }
    while k < n
        invariant
            k <= n,
            n == rv.len(),
            n == files@.len(),
            fv == files@.map_values(|f: AlsFile| f@),
            results@ == rv.skip(k as int),
            forall|i: int|
                0 <= i < n ==> file_res_view(#[trigger] rv[i]) == sp_parse_file(fv[i]),
            oks@.map_values(|a: AlsData| a@) == sp_oks_upto(fv, k as int),
            fails@.map_values(|s: String| s@) == sp_failures_upto(fv, k as int),
        decreases n - k,
    {
        proof {
            assert(rv.skip(k as int)[0] == rv[k as int]);
            assert(file_res_view(rv[k as int]) == sp_parse_file(fv[k as int]));
        }
        let item = results.remove(0);
        proof {
            assert(results@ =~= rv.skip(k + 1));
        }
        match item {
            Ok(a) => {
                let ghost old_oks = oks@.map_values(|a: AlsData| a@);
                oks.push(a);
                proof {
                    assert(oks@.map_values(|a: AlsData| a@) =~= old_oks.push(
                        sp_parse_file(fv[k as int])->Ok_0,
                    ));
                    assert(fails@.map_values(|s: String| s@) =~= sp_failures_upto(fv, k + 1));
                }
            },
            Err(m) => {
                let ghost old_fails = fails@.map_values(|s: String| s@);
                let ghost mv = m@;
                fails.push(m);
                proof {
                    assert(fails@.map_values(|s: String| s@) =~= old_fails.push(mv));
                    assert(oks@.map_values(|a: AlsData| a@) =~= sp_oks_upto(fv, k + 1));
                }
            },
        }
        k = k + 1;
    }
    if fails.len() == 0 {
        proof {
            assert(sp_failures(fv).len() == 0);
        }
        Ok(oks)
    } else {
        let mut out = String::from_str(project_name);
        out.append(": ");
        out.append(join(&fails, ", ").as_str());
        Err(out)
    }
}

} // verus!
