//! The orchestrator: plan which files need parsing, parse them project by
//! project, aggregate failures, and drive the cache.
//!
//! The run is all-or-nothing: file failures are collected per project and
//! project failures are collected across the run, but any failure leaves
//! the caller with only the joined error text, never a partial model.  On
//! full success every produced record is stored, the store is read back,
//! and the reloaded form is stored again, so the value returned is exactly
//! what is durably kept.

use vstd::prelude::*;

use crate::cache::{
    cache, retrieve, sp_cache, sp_cache_err_msg, sp_contains, sp_get_all, CacheStore, EntryView,
};
use crate::parallel::{parallel_parse_dir, sp_parallel_parse_dir, AlsFile, FileView};
use crate::parse::als::AlsView;
use crate::parse::als::{Project, ProjectView};
use crate::text::{join, sp_join};

verus! {

/// The name carries the container extension: at least `.als` after a base
/// name.
pub open spec fn is_als_name(s: Seq<char>) -> bool {
    s.len() >= 4 && s[s.len() - 4] == '.' && s[s.len() - 3] == 'a' && s[s.len() - 2] == 'l'
        && s[s.len() - 1] == 's'
}

/// The file's base name: everything before the container extension.
pub open spec fn stem_of(s: Seq<char>) -> Seq<char> {
    s.subrange(0, s.len() - 4)
}

/// Whether a file name carries the container extension; mirrors
/// [`is_als_name`].
pub fn has_als_ext(s: &str) -> (r: bool)
    ensures
        r == is_als_name(s@),
{
    let len = s.unicode_len();
    if len < 4 {
        return false;
    }
    s.get_char(len - 4) == '.' && s.get_char(len - 3) == 'a' && s.get_char(len - 2) == 'l'
        && s.get_char(len - 1) == 's'
}

/// Strips the container extension off a file name; mirrors [`stem_of`].
pub fn file_stem(s: &str) -> (r: String)
    requires
        is_als_name(s@),
    ensures
        r@ == stem_of(s@),
{
    let len = s.unicode_len();
    s.substring_char(0, len - 4).to_owned()
}

/// The files of one listing that need parsing: those carrying the
/// container extension whose record is not yet stored.  The check is
/// presence only — never content.
pub open spec fn sp_plan_upto(
    store: Seq<EntryView>,
    project: Seq<char>,
    names: Seq<Seq<char>>,
    n: int,
) -> Seq<Seq<char>>
    decreases n,
{
    if n <= 0 {
        seq![]
    } else {
        let p = sp_plan_upto(store, project, names, n - 1);
        if is_als_name(names[n - 1]) && !sp_contains(store, project, stem_of(names[n - 1])) {
            p.push(names[n - 1])
        } else {
            p
        }
    }
}

/// The files of one listing that need parsing, in listing order.
pub open spec fn sp_plan(store: Seq<EntryView>, project: Seq<char>, names: Seq<Seq<char>>) -> Seq<
    Seq<char>,
> {
    sp_plan_upto(store, project, names, names.len() as int)
}

/// Filters one project's file listing down to the files that must be read
/// and parsed; mirrors [`sp_plan`].  Everything already cached is skipped.
pub fn plan_project(project: &str, file_names: &Vec<String>, store: &CacheStore) -> (r: Vec<
    String,
>)
    ensures
        r@.map_values(|s: String| s@) == sp_plan(
            store@,
            project@,
            file_names@.map_values(|s: String| s@),
        ),
{
    let ghost nv = file_names@.map_values(|s: String| s@);
    let n = file_names.len();
    let mut r: Vec<String> = Vec::new();
    let mut k: usize = 0;
    proof {
        assert(r@.map_values(|s: String| s@) =~= sp_plan_upto(store@, project@, nv, 0));
    }
    while k < n
        invariant
            k <= n,
            n == file_names@.len(),
            nv == file_names@.map_values(|s: String| s@),
            r@.map_values(|s: String| s@) == sp_plan_upto(store@, project@, nv, k as int),
        decreases n - k,
    {
        proof {
            assert(nv[k as int] == file_names@[k as int]@);
        }
        let name = &file_names[k];
        if has_als_ext(name.as_str()) {
            let stem = file_stem(name.as_str());
            if !store.contains(project, stem.as_str()) {
                let ghost old_rv = r@.map_values(|s: String| s@);
                r.push(name.clone());
                proof {
                    assert(r@.map_values(|s: String| s@) =~= old_rv.push(nv[k as int]));
                }
            }
        }
        proof {
            assert(r@.map_values(|s: String| s@) =~= sp_plan_upto(store@, project@, nv, k + 1));
        }
        k = k + 1;
    }
    proof {
        assert(sp_plan_upto(store@, project@, nv, n as int) =~= sp_plan(store@, project@, nv));
    }
    r
}

/// One project's worth of pipeline input: the project's name and the files
/// that were planned and read for it.
#[derive(Debug, Clone, PartialEq)]
pub struct ProjectInput {
    pub name: String,
    pub files: Vec<AlsFile>,
}

/// Mathematical image of a [`ProjectInput`].
pub struct ProjectInputView {
    pub name: Seq<char>,
    pub files: Seq<FileView>,
}

impl View for ProjectInput {
    type V = ProjectInputView;

    open spec fn view(&self) -> ProjectInputView {
        ProjectInputView {
            name: self.name@,
            files: self.files@.map_values(|f: AlsFile| f@),
        }
    }
}

/// How one project's input parses.
pub open spec fn sp_proj_result(p: ProjectInputView) -> Result<Seq<AlsView>, Seq<char>> {
    sp_parallel_parse_dir(p.name, p.files)
}

/// The error texts of the projects among the first `n` that fail, in
/// input order.
pub open spec fn sp_run_errors_upto(ps: Seq<ProjectInputView>, n: int) -> Seq<Seq<char>>
    decreases n,
{
    if n <= 0 {
        seq![]
    } else {
        let p = sp_run_errors_upto(ps, n - 1);
        match sp_proj_result(ps[n - 1]) {
            Ok(_) => p,
            Err(m) => p.push(m),
        }
    }
}

/// The error texts of all failing projects, in input order.
pub open spec fn sp_run_errors(ps: Seq<ProjectInputView>) -> Seq<Seq<char>> {
    sp_run_errors_upto(ps, ps.len() as int)
}

/// The parsed projects among the first `n` that succeed, in input order.
pub open spec fn sp_run_oks_upto(ps: Seq<ProjectInputView>, n: int) -> Seq<ProjectView>
    decreases n,
{
    if n <= 0 {
        seq![]
    } else {
        let p = sp_run_oks_upto(ps, n - 1);
        match sp_proj_result(ps[n - 1]) {
            Ok(l) => p.push(ProjectView { name: ps[n - 1].name, als_data: Some(l) }),
            Err(_) => p,
        }
    }
}

/// The parsed projects of all succeeding inputs, in input order.
pub open spec fn sp_run_oks(ps: Seq<ProjectInputView>) -> Seq<ProjectView> {
    sp_run_oks_upto(ps, ps.len() as int)
}

/// Runs the whole pipeline over the planned and read inputs: parse every
/// project's files in parallel, aggregate failures per project and across
/// the run, and on full success store every record, reload the canonical
/// persisted form, store that form again, and return it.
///
/// Any failure returns only the joined error texts: the run is
/// all-or-nothing, and a failed run leaves the store untouched.
pub fn run_palsa(inputs: &Vec<ProjectInput>, store: &mut CacheStore) -> (r: Result<
    Vec<Project>,
    String,
>)
    ensures
        ({
            let iv = inputs@.map_values(|p: ProjectInput| p@);
            let errs = sp_run_errors(iv);
            if errs.len() > 0 {
                &&& final(store)@ == old(store)@
                &&& r matches Err(m) && m@ == sp_join(errs, ", "@)
            } else {
                let s1 = sp_cache(old(store)@, sp_run_oks(iv));
                match sp_get_all(s1) {
                    Err(ce) => {
                        &&& final(store)@ == s1
                        &&& r matches Err(m) && m@ == "failed to retrieve cache: "@
                            + sp_cache_err_msg(ce)
                    },
                    Ok(retr) => {
                        &&& final(store)@ == sp_cache(s1, retr)
                        &&& r matches Ok(v) && v@.map_values(|p: Project| p@) == retr
                    },
                }
            }
        }),
{
    let ghost iv = inputs@.map_values(|p: ProjectInput| p@);
    let n = inputs.len();
    let mut projects: Vec<Project> = Vec::new();
    let mut errors: Vec<String> = Vec::new();
    let mut k: usize = 0;
    proof {
        assert(projects@.map_values(|p: Project| p@) =~= sp_run_oks_upto(iv, 0));
        assert(errors@.map_values(|s: String| s@) =~= sp_run_errors_upto(iv, 0));
    }
    while k < n
        invariant
            k <= n,
            n == inputs@.len(),
            iv == inputs@.map_values(|p: ProjectInput| p@),
            projects@.map_values(|p: Project| p@) == sp_run_oks_upto(iv, k as int),
            errors@.map_values(|s: String| s@) == sp_run_errors_upto(iv, k as int),
        decreases n - k,
    {
        proof {
            assert(iv[k as int] == inputs@[k as int]@);
        }
        let input = &inputs[k];
        match parallel_parse_dir(input.name.as_str(), &input.files) {
            Ok(l) => {
                let ghost old_pv = projects@.map_values(|p: Project| p@);
                let project = Project { name: input.name.clone(), als_data: Some(l) };
                let ghost pv = project@;
                projects.push(project);
                proof {
                    assert(projects@.map_values(|p: Project| p@) =~= old_pv.push(pv));
                    assert(errors@.map_values(|s: String| s@) =~= sp_run_errors_upto(iv, k + 1));
                }
            },
            Err(m) => {
                let ghost old_ev = errors@.map_values(|s: String| s@);
                let ghost mv = m@;
                errors.push(m);
                proof {
                    assert(errors@.map_values(|s: String| s@) =~= old_ev.push(mv));
                    assert(projects@.map_values(|p: Project| p@) =~= sp_run_oks_upto(iv, k + 1));
                }
            },
        }
        k = k + 1;
    }
    if errors.len() > 0 {
        return Err(join(&errors, ", "));
    }
    cache(store, &projects);
    let retrieved = match retrieve(store) {
        Ok(v) => v,
        Err(ce) => {
            let mut m = String::from_str("failed to retrieve cache: ");
            m.append(ce.message().as_str());
            return Err(m);
        },
    };
    cache(store, &retrieved);
    Ok(retrieved)
}

} // verus!
