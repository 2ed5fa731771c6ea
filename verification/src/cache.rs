//! The cache store: one serialized record per parsed file, grouped per
//! project.
//!
//! `cache` follows a skip-if-present policy: a record whose project/file
//! identity is already stored is never overwritten, so a second `cache` of
//! the same data is a no-op.  `retrieve` decodes every stored record,
//! grouped by project in first-appearance order; one malformed record
//! aborts the whole retrieval.  The surrounding program keeps this store in
//! step with the on-disk `cache/<project>/<file>` layout.

use vstd::prelude::*;

use crate::codec::{decode_record, enc_record, encode_record, lemma_record_roundtrip, sp_record, wf_als};
use crate::parse::als::{AlsData, AlsView, Project, ProjectView};
use crate::text::str_eq;

verus! {

/// One stored record: its project, its file base name, and its text.
#[derive(Debug, Clone, PartialEq)]
pub struct CacheEntry {
    pub project: String,
    pub file: String,
    pub text: String,
}

/// Mathematical image of a [`CacheEntry`].
pub struct EntryView {
    pub project: Seq<char>,
    pub file: Seq<char>,
    pub text: Seq<char>,
}

impl View for CacheEntry {
    type V = EntryView;

    open spec fn view(&self) -> EntryView {
        EntryView { project: self.project@, file: self.file@, text: self.text@ }
    }
}

/// The whole store, in insertion order.
#[derive(Debug, Clone, PartialEq)]
pub struct CacheStore {
    pub entries: Vec<CacheEntry>,
}

impl View for CacheStore {
    type V = Seq<EntryView>;

    open spec fn view(&self) -> Seq<EntryView> {
        self.entries@.map_values(|e: CacheEntry| e@)
    }
}

/// A record with this project/file identity is stored.
pub open spec fn sp_contains(s: Seq<EntryView>, project: Seq<char>, file: Seq<char>) -> bool {
    exists|i: int|
        0 <= i < s.len() && (#[trigger] s[i]).project == project && s[i].file == file
}

/// What one `put` leaves behind: the store unchanged where the identity is
/// present, else the store with the encoded record appended.
pub open spec fn sp_put(s: Seq<EntryView>, project: Seq<char>, a: AlsView) -> Seq<EntryView> {
    if sp_contains(s, project, a.name) {
        s
    } else {
        s.push(EntryView { project, file: a.name, text: enc_record(a) })
    }
}

/// What storing one project's record list leaves behind.
pub open spec fn sp_put_list(s: Seq<EntryView>, project: Seq<char>, l: Seq<AlsView>) -> Seq<
    EntryView,
>
    decreases l.len(),
{
    if l.len() == 0 {
        s
    } else {
        sp_put_list(sp_put(s, project, l[0]), project, l.drop_first())
    }
}

/// What [`cache`] leaves behind: every project's records stored in order,
/// skipping projects that hold no record list.
pub open spec fn sp_cache(s: Seq<EntryView>, ps: Seq<ProjectView>) -> Seq<EntryView>
    decreases ps.len(),
{
    if ps.len() == 0 {
        s
    } else {
        let s2 = match ps[0].als_data {
            Some(l) => sp_put_list(s, ps[0].name, l),
            None => s,
        };
        sp_cache(s2, ps.drop_first())
    }
}

impl CacheStore {
    /// An empty store.
    pub fn new() -> (r: CacheStore)
        ensures
            r@ == Seq::<EntryView>::empty(),
    {
        let r = CacheStore { entries: Vec::new() };
        proof {
            assert(r@ =~= Seq::<EntryView>::empty());
        }
        r
    }

    /// Whether a record with this identity is stored; mirrors
    /// [`sp_contains`].
    pub fn contains(&self, project: &str, file: &str) -> (r: bool)
        ensures
            r == sp_contains(self@, project@, file@),
    {
        let n = self.entries.len();
        let mut i: usize = 0;
        while i < n
            invariant
                i <= n,
                n == self.entries@.len(),
                forall|k: int|
                    0 <= k < i ==> !((#[trigger] self@[k]).project == project@ && self@[k].file
                        == file@),
            ensures
                i <= n,
                i < n ==> (self@[i as int].project == project@ && self@[i as int].file == file@),
                i == n ==> forall|k: int|
                    0 <= k < n ==> !((#[trigger] self@[k]).project == project@ && self@[k].file
                        == file@),
            decreases n - i,
        {
            proof {
                assert(self@[i as int] == self.entries@[i as int]@);
            }
            let e = &self.entries[i];
            if str_eq(e.project.as_str(), project) && str_eq(e.file.as_str(), file) {
                break;
            }
            i = i + 1;
        }
        i < n
    }

    /// Stores one record unless its identity is already present; mirrors
    /// [`sp_put`].
    pub fn put(&mut self, project: &str, a: &AlsData)
        ensures
            final(self)@ == sp_put(old(self)@, project@, a@),
    {
        if self.contains(project, a.name.as_str()) {
            return;
        }
        let text = encode_record(a);
        self.entries.push(
            CacheEntry { project: String::from_str(project), file: a.name.clone(), text },
        );
        proof {
            assert(self@ =~= old(self)@.push(
                EntryView { project: project@, file: a@.name, text: enc_record(a@) },
            ));
        }
    }
}

/// Why a retrieval failed: one stored record does not decode.
#[derive(Debug, Clone, PartialEq)]
pub enum CacheError {
    Malformed { project: String, file: String },
}

impl View for CacheError {
    type V = (Seq<char>, Seq<char>);

    open spec fn view(&self) -> (Seq<char>, Seq<char>) {
        match self {
            CacheError::Malformed { project, file } => (project@, file@),
        }
    }
}

/// The message text of a retrieval failure.
pub open spec fn sp_cache_err_msg(e: (Seq<char>, Seq<char>)) -> Seq<char> {
    "malformed cache record "@ + e.0 + "/"@ + e.1
}

impl CacheError {
    /// The failure as a line of text naming the record; mirrors
    /// [`sp_cache_err_msg`].
    pub fn message(&self) -> (r: String)
        ensures
            r@ == sp_cache_err_msg(self@),
    {
        match self {
            CacheError::Malformed { project, file } => {
                let mut m = String::from_str("malformed cache record ");
                m.append(project.as_str());
                m.append("/");
                m.append(file.as_str());
                m
            },
        }
    }
}

/// The distinct project names of the first `n` entries, in first-appearance
/// order.
pub open spec fn sp_names_upto(s: Seq<EntryView>, n: int) -> Seq<Seq<char>>
    decreases n,
{
    if n <= 0 {
        seq![]
    } else {
        let p = sp_names_upto(s, n - 1);
        if p.contains(s[n - 1].project) {
            p
        } else {
            p.push(s[n - 1].project)
        }
    }
}

/// The distinct project names of the store, in first-appearance order.
pub open spec fn sp_project_names(s: Seq<EntryView>) -> Seq<Seq<char>> {
    sp_names_upto(s, s.len() as int)
}

/// The entries of one project among the first `n`, in insertion order.
pub open spec fn sp_files_upto(s: Seq<EntryView>, project: Seq<char>, n: int) -> Seq<EntryView>
    decreases n,
{
    if n <= 0 {
        seq![]
    } else {
        let p = sp_files_upto(s, project, n - 1);
        if s[n - 1].project == project {
            p.push(s[n - 1])
        } else {
            p
        }
    }
}

/// The entries of one project, in insertion order.
pub open spec fn sp_project_files(s: Seq<EntryView>, project: Seq<char>) -> Seq<EntryView> {
    sp_files_upto(s, project, s.len() as int)
}

/// Decodes a list of entries; the first malformed record aborts with its
/// identity.
pub open spec fn sp_decode_entries(es: Seq<EntryView>) -> Result<Seq<AlsView>, (Seq<char>, Seq<char>)>
    decreases es.len(),
{
    if es.len() == 0 {
        Ok(seq![])
    } else {
        match sp_record(es[0].text) {
            None => Err((es[0].project, es[0].file)),
            Some(v) => match sp_decode_entries(es.drop_first()) {
                Err(e) => Err(e),
                Ok(vs) => Ok(seq![v] + vs),
            },
        }
    }
}

/// Decodes the store project by project, in name order.
pub open spec fn sp_projects_of(s: Seq<EntryView>, names: Seq<Seq<char>>) -> Result<
    Seq<ProjectView>,
    (Seq<char>, Seq<char>),
>
    decreases names.len(),
{
    if names.len() == 0 {
        Ok(seq![])
    } else {
        match sp_decode_entries(sp_project_files(s, names[0])) {
            Err(e) => Err(e),
            Ok(l) => match sp_projects_of(s, names.drop_first()) {
                Err(e) => Err(e),
                Ok(ps) => Ok(seq![ProjectView { name: names[0], als_data: Some(l) }] + ps),
            },
        }
    }
}

/// What [`retrieve`] yields: every stored record decoded, grouped by
/// project in first-appearance order, or the identity of the first record
/// that does not decode.
pub open spec fn sp_get_all(s: Seq<EntryView>) -> Result<Seq<ProjectView>, (Seq<char>, Seq<char>)> {
    sp_projects_of(s, sp_project_names(s))
}

/// Decoding a list with one more entry at its end.
proof fn lemma_decode_snoc(es: Seq<EntryView>, e: EntryView)
    ensures
        sp_decode_entries(es.push(e)) == match sp_decode_entries(es) {
            Err(x) => Err::<Seq<AlsView>, (Seq<char>, Seq<char>)>(x),
            Ok(vs) => match sp_record(e.text) {
                None => Err((e.project, e.file)),
                Some(v) => Ok(vs.push(v)),
            },
        },
    decreases es.len(),
{
    if es.len() == 0 {
        let p = es.push(e);
        assert(p[0] == e);
        assert(es =~= Seq::<EntryView>::empty());
        assert(p.drop_first() =~= Seq::<EntryView>::empty());
        assert(sp_decode_entries(Seq::<EntryView>::empty()) == Ok::<
            Seq<AlsView>,
            (Seq<char>, Seq<char>),
        >(seq![]));
        match sp_record(e.text) {
            None => {
                assert(sp_decode_entries(p) == Err::<Seq<AlsView>, (Seq<char>, Seq<char>)>(
                    (e.project, e.file),
                ));
            },
            Some(v) => {
                assert(sp_decode_entries(p) == Ok::<Seq<AlsView>, (Seq<char>, Seq<char>)>(
                    seq![v] + Seq::<AlsView>::empty(),
                ));
                assert(seq![v] + Seq::<AlsView>::empty() =~= Seq::<AlsView>::empty().push(v));
            },
        }
    } else {
        let p = es.push(e);
        assert(p[0] == es[0]);
        assert(p.drop_first() =~= es.drop_first().push(e));
        lemma_decode_snoc(es.drop_first(), e);
        if let Ok(vs0) = sp_decode_entries(es.drop_first()) {
            if let Some(v0) = sp_record(es[0].text) {
                if let Some(v) = sp_record(e.text) {
                    assert(seq![v0] + vs0.push(v) =~= (seq![v0] + vs0).push(v));
                }
            }
        }
    }
}

/// Once one record of a project fails to decode, every longer prefix of
/// the store still fails with the same identity.
proof fn lemma_decode_err_stable(
    s: Seq<EntryView>,
    project: Seq<char>,
    i: int,
    e: (Seq<char>, Seq<char>),
)
    requires
        0 <= i <= s.len(),
        sp_decode_entries(sp_files_upto(s, project, i)) == Err::<
            Seq<AlsView>,
            (Seq<char>, Seq<char>),
        >(e),
    ensures
        sp_decode_entries(sp_project_files(s, project)) == Err::<
            Seq<AlsView>,
            (Seq<char>, Seq<char>),
        >(e),
    decreases s.len() - i,
{
    if i < s.len() {
        if s[i].project == project {
            lemma_decode_snoc(sp_files_upto(s, project, i), s[i]);
        }
        lemma_decode_err_stable(s, project, i + 1, e);
    }
}

/// Whether a list of strings holds `s`.
fn vec_contains_str(v: &Vec<String>, s: &str) -> (r: bool)
    ensures
        r == crate::parse::strs_view(v@).contains(s@),
{
    let n = v.len();
    let mut i: usize = 0;
    while i < n
        invariant
            i <= n,
            n == v@.len(),
            forall|k: int| 0 <= k < i ==> (#[trigger] v@[k])@ != s@,
        ensures
            i <= n,
            i < n ==> v@[i as int]@ == s@,
            i == n ==> forall|k: int| 0 <= k < n ==> (#[trigger] v@[k])@ != s@,
        decreases n - i,
    {
        if str_eq(v[i].as_str(), s) {
            break;
        }
        i = i + 1;
    }
    proof {
        let sv = crate::parse::strs_view(v@);
        if i < n {
            assert(sv[i as int] == s@);
        } else {
            assert(forall|k: int| 0 <= k < sv.len() ==> #[trigger] sv[k] != s@);
        }
    }
    i < n
}

/// Decodes the records of one project, in insertion order.
fn retrieve_project(store: &CacheStore, name: &str) -> (r: Result<Vec<AlsData>, CacheError>)
    ensures
        ({
            let sp = sp_decode_entries(sp_project_files(store@, name@));
            match r {
                Ok(v) => sp == Ok::<_, (Seq<char>, Seq<char>)>(
                    v@.map_values(|a: AlsData| a@),
                ),
                Err(e) => sp == Err::<Seq<AlsView>, (Seq<char>, Seq<char>)>(e@),
            }
        }),
{
    let n = store.entries.len();
    let mut acc: Vec<AlsData> = Vec::new();
    let mut i: usize = 0;
    proof {
        assert(sp_files_upto(store@, name@, 0) =~= Seq::<EntryView>::empty());
        assert(acc@.map_values(|a: AlsData| a@) =~= Seq::<AlsView>::empty());
    }
    while i < n
        invariant
            i <= n,
            n == store.entries@.len(),
            n == store@.len(),
            sp_decode_entries(sp_files_upto(store@, name@, i as int)) == Ok::<
                _,
                (Seq<char>, Seq<char>),
            >(acc@.map_values(|a: AlsData| a@)),
        decreases n - i,
    {
        proof {
            assert(store@[i as int] == store.entries@[i as int]@);
        }
        let e = &store.entries[i];
        if str_eq(e.project.as_str(), name) {
            proof {
                lemma_decode_snoc(sp_files_upto(store@, name@, i as int), store@[i as int]);
                assert(sp_files_upto(store@, name@, i + 1) =~= sp_files_upto(
                    store@,
                    name@,
                    i as int,
                ).push(store@[i as int]));
            }
            match decode_record(e.text.as_str()) {
                Some(a) => {
                    let ghost old_accv = acc@.map_values(|a: AlsData| a@);
                    acc.push(a);
                    proof {
                        assert(acc@.map_values(|a: AlsData| a@) =~= old_accv.push(a@));
                    }
                },
                None => {
                    let err = CacheError::Malformed {
                        project: String::from_str(name),
                        file: e.file.clone(),
                    };
                    proof {
                        lemma_decode_err_stable(
                            store@,
                            name@,
                            i + 1,
                            (store@[i as int].project, store@[i as int].file),
                        );
                    }
                    return Err(err);
                },
            }
        } else {
            proof {
                assert(sp_files_upto(store@, name@, i + 1) =~= sp_files_upto(
                    store@,
                    name@,
                    i as int,
                ));
            }
        }
        i = i + 1;
    }
    Ok(acc)
}

/// Reads the whole store back: every record decoded, grouped by project in
/// first-appearance order; one malformed record aborts the retrieval.
/// Mirrors [`sp_get_all`].
pub fn retrieve(store: &CacheStore) -> (r: Result<Vec<Project>, CacheError>)
    ensures
        ({
            let sp = sp_get_all(store@);
            match r {
                Ok(v) => sp == Ok::<_, (Seq<char>, Seq<char>)>(
                    v@.map_values(|p: Project| p@),
                ),
                Err(e) => sp == Err::<Seq<ProjectView>, (Seq<char>, Seq<char>)>(e@),
            }
        }),
{
    let n = store.entries.len();
    let mut names: Vec<String> = Vec::new();
    let mut i: usize = 0;
    proof {
        assert(crate::parse::strs_view(names@) =~= sp_names_upto(store@, 0));
    }
    while i < n
        invariant
            i <= n,
            n == store.entries@.len(),
            n == store@.len(),
            crate::parse::strs_view(names@) == sp_names_upto(store@, i as int),
        decreases n - i,
    {
        proof {
            assert(store@[i as int] == store.entries@[i as int]@);
        }
        let e = &store.entries[i];
        if !vec_contains_str(&names, e.project.as_str()) {
            names.push(e.project.clone());
            proof {
                assert(crate::parse::strs_view(names@) =~= sp_names_upto(store@, i + 1));
            }
        } else {
            proof {
                assert(crate::parse::strs_view(names@) =~= sp_names_upto(store@, i + 1));
            }
        }
        i = i + 1;
    }
    let ghost namesv = crate::parse::strs_view(names@);
    let m = names.len();
    let mut acc: Vec<Project> = Vec::new();
    let mut k: usize = 0;
    proof {
        assert(namesv.skip(0) =~= namesv);
        if let Ok(ps) = sp_projects_of(store@, namesv) {
            assert(acc@.map_values(|p: Project| p@) + ps =~= ps);
        }
    }
    while k < m
        invariant
            k <= m,
            m == names@.len(),
            namesv == crate::parse::strs_view(names@),
            namesv == sp_project_names(store@),
            n == store.entries@.len(),
            n == store@.len(),
            sp_projects_of(store@, namesv) == match sp_projects_of(
                store@,
                namesv.skip(k as int),
            ) {
                Ok(ps) => Ok::<_, (Seq<char>, Seq<char>)>(
                    acc@.map_values(|p: Project| p@) + ps,
                ),
                Err(e) => Err::<Seq<ProjectView>, (Seq<char>, Seq<char>)>(e),
            },
        decreases m - k,
    {
        proof {
            assert(namesv.skip(k as int)[0] == namesv[k as int]);
            assert(namesv[k as int] == names@[k as int]@);
            assert(namesv.skip(k as int).drop_first() =~= namesv.skip(k + 1));
        }
        match retrieve_project(store, names[k].as_str()) {
            Ok(l) => {
                let project = Project { name: names[k].clone(), als_data: Some(l) };
                let ghost old_accv = acc@.map_values(|p: Project| p@);
                let ghost pv = project@;
                acc.push(project);
                proof {
                    let accv = acc@.map_values(|p: Project| p@);
                    assert(accv =~= old_accv + seq![pv]);
                    if let Ok(ps) = sp_projects_of(store@, namesv.skip(k + 1)) {
                        assert(old_accv + (seq![pv] + ps) =~= accv + ps);
                    }
                }
                k = k + 1;
            },
            Err(e) => {
                proof {
                    assert(sp_projects_of(store@, namesv.skip(k as int)) == Err::<
                        Seq<ProjectView>,
                        (Seq<char>, Seq<char>),
                    >(e@));
                }
                return Err(e);
            },
        }
    }
    proof {
        assert(namesv.skip(m as int) =~= Seq::<Seq<char>>::empty());
        assert(acc@.map_values(|p: Project| p@) + Seq::<ProjectView>::empty() =~= acc@.map_values(
            |p: Project| p@,
        ));
    }
    Ok(acc)
}

/// Law: storing a record under an identity that is already present is a
/// no-op, so a second store of the same record changes nothing: exactly one
/// record is ever written per identity.
pub proof fn lemma_put_idempotent(s: Seq<EntryView>, project: Seq<char>, a: AlsView)
    ensures
        sp_put(sp_put(s, project, a), project, a) == sp_put(s, project, a),
{
    if !sp_contains(s, project, a.name) {
        let s2 = s.push(EntryView { project, file: a.name, text: enc_record(a) });
        assert(s2[s.len() as int].project == project && s2[s.len() as int].file == a.name);
        assert(sp_contains(s2, project, a.name));
    }
}

/// A store in which every entry decodes and is filed under the name the
/// decoded record carries.  Every store built by `put` alone is of this
/// kind.
pub open spec fn well_kept(s: Seq<EntryView>) -> bool {
    forall|i: int|
        0 <= i < s.len() ==> {
            let r = sp_record((#[trigger] s[i]).text);
            r is Some && r->Some_0.name == s[i].file
        }
}

/// Law: storing a well-formed record keeps the store well kept.
pub proof fn lemma_put_preserves_well_kept(s: Seq<EntryView>, project: Seq<char>, a: AlsView)
    requires
        well_kept(s),
        wf_als(a),
    ensures
        well_kept(sp_put(s, project, a)),
{
    if !sp_contains(s, project, a.name) {
        lemma_record_roundtrip(a);
        let s2 = sp_put(s, project, a);
        assert forall|i: int| 0 <= i < s2.len() implies {
            let r = sp_record((#[trigger] s2[i]).text);
            r is Some && r->Some_0.name == s2[i].file
        } by {
            if i < s.len() {
                assert(s2[i] == s[i]);
            }
        }
    }
}

/// A decoded entry list yields one record per entry, in order.
proof fn lemma_decode_elems(es: Seq<EntryView>)
    requires
        sp_decode_entries(es) is Ok,
    ensures
        ({
            let vs = sp_decode_entries(es)->Ok_0;
            &&& vs.len() == es.len()
            &&& forall|k: int|
                0 <= k < es.len() ==> sp_record((#[trigger] es[k]).text) == Some(vs[k])
        }),
    decreases es.len(),
{
    if es.len() > 0 {
        lemma_decode_elems(es.drop_first());
        let vs = sp_decode_entries(es)->Ok_0;
        let rest = sp_decode_entries(es.drop_first())->Ok_0;
        assert forall|k: int| 0 <= k < es.len() implies sp_record((#[trigger] es[k]).text)
            == Some(vs[k]) by {
            if k == 0 {
                assert(vs[0] == (seq![sp_record(es[0].text)->Some_0] + rest)[0]);
            } else {
                assert(es.drop_first()[k - 1] == es[k]);
                assert(vs[k] == (seq![sp_record(es[0].text)->Some_0] + rest)[k]);
                assert(vs[k] == rest[k - 1]);
            }
        }
    }
}

/// Every collected file entry of a project is an entry of the store,
/// filed under that project.
proof fn lemma_files_upto_mem(s: Seq<EntryView>, project: Seq<char>, n: int)
    requires
        0 <= n <= s.len(),
    ensures
        forall|k: int|
            0 <= k < sp_files_upto(s, project, n).len() ==> exists|j: int|
                0 <= j < s.len() && s[j] == #[trigger] sp_files_upto(s, project, n)[k] && s[j].project
                    == project,
    decreases n,
{
    if n > 0 {
        lemma_files_upto_mem(s, project, n - 1);
        let prev = sp_files_upto(s, project, n - 1);
        let curr = sp_files_upto(s, project, n);
        assert forall|k: int| 0 <= k < curr.len() implies exists|j: int|
            0 <= j < s.len() && s[j] == #[trigger] curr[k] && s[j].project == project by {
            if s[n - 1].project == project && k == prev.len() {
                assert(curr[k] == s[n - 1]);
                assert(0 <= n - 1 < s.len() && s[n - 1] == curr[k] && s[n - 1].project == project);
            } else {
                assert(curr[k] == prev[k]);
            }
        }
    }
}

/// Storing a record whose identity is already present changes nothing, so
/// storing a whole list of such records changes nothing.
proof fn lemma_put_list_noop(s: Seq<EntryView>, project: Seq<char>, l: Seq<AlsView>)
    requires
        forall|k: int| 0 <= k < l.len() ==> sp_contains(s, project, (#[trigger] l[k]).name),
    ensures
        sp_put_list(s, project, l) == s,
    decreases l.len(),
{
    if l.len() > 0 {
        assert(sp_contains(s, project, l[0].name));
        assert(sp_put(s, project, l[0]) == s);
        assert forall|k: int|
            0 <= k < l.drop_first().len() implies sp_contains(
            s,
            project,
            (#[trigger] l.drop_first()[k]).name,
        ) by {
            assert(l.drop_first()[k] == l[k + 1]);
        }
        lemma_put_list_noop(s, project, l.drop_first());
    }
}

/// Each retrieved project carries one of the store's names and the decoded
/// records of that name's entries.
proof fn lemma_projects_of_elems(s: Seq<EntryView>, names: Seq<Seq<char>>)
    requires
        sp_projects_of(s, names) is Ok,
    ensures
        ({
            let ps = sp_projects_of(s, names)->Ok_0;
            &&& ps.len() == names.len()
            &&& forall|j: int|
                0 <= j < names.len() ==> (#[trigger] ps[j]) == ProjectView {
                    name: names[j],
                    als_data: Some(
                        sp_decode_entries(sp_project_files(s, names[j]))->Ok_0,
                    ),
                } && sp_decode_entries(sp_project_files(s, names[j])) is Ok
        }),
    decreases names.len(),
{
    if names.len() > 0 {
        lemma_projects_of_elems(s, names.drop_first());
        let ps = sp_projects_of(s, names)->Ok_0;
        let rest = sp_projects_of(s, names.drop_first())->Ok_0;
        let head = ProjectView {
            name: names[0],
            als_data: Some(sp_decode_entries(sp_project_files(s, names[0]))->Ok_0),
        };
        assert forall|j: int| 0 <= j < names.len() implies (#[trigger] ps[j]) == ProjectView {
            name: names[j],
            als_data: Some(sp_decode_entries(sp_project_files(s, names[j]))->Ok_0),
        } && sp_decode_entries(sp_project_files(s, names[j])) is Ok by {
            if j == 0 {
                assert(ps[0] == (seq![head] + rest)[0]);
            } else {
                assert(names.drop_first()[j - 1] == names[j]);
                assert(ps[j] == (seq![head] + rest)[j]);
                assert(ps[j] == rest[j - 1]);
            }
        }
    }
}

/// A list of entries that all decode decodes as a whole.
proof fn lemma_decode_all_ok(es: Seq<EntryView>)
    requires
        forall|k: int| 0 <= k < es.len() ==> sp_record((#[trigger] es[k]).text) is Some,
    ensures
        sp_decode_entries(es) is Ok,
    decreases es.len(),
{
    if es.len() > 0 {
        assert forall|k: int|
            0 <= k < es.drop_first().len() implies sp_record(
            (#[trigger] es.drop_first()[k]).text,
        ) is Some by {
            assert(es.drop_first()[k] == es[k + 1]);
        }
        lemma_decode_all_ok(es.drop_first());
    }
}

/// Every project of a well-kept store decodes, so the whole store does.
proof fn lemma_projects_of_all_ok(s: Seq<EntryView>, names: Seq<Seq<char>>)
    requires
        well_kept(s),
    ensures
        sp_projects_of(s, names) is Ok,
    decreases names.len(),
{
    if names.len() > 0 {
        let files = sp_project_files(s, names[0]);
        lemma_files_upto_mem(s, names[0], s.len() as int);
        assert forall|k: int| 0 <= k < files.len() implies sp_record(
            (#[trigger] files[k]).text,
        ) is Some by {
            let w = choose|w: int|
                0 <= w < s.len() && s[w] == files[k] && s[w].project == names[0];
            assert(sp_record(s[w].text) is Some);
        }
        lemma_decode_all_ok(files);
        lemma_projects_of_all_ok(s, names.drop_first());
    }
}

/// Law: reading back a well-kept store never fails — `retrieve` can only
/// reject a record that this library never wrote.
pub proof fn lemma_well_kept_retrieves(s: Seq<EntryView>)
    requires
        well_kept(s),
    ensures
        sp_get_all(s) is Ok,
{
    lemma_projects_of_all_ok(s, sp_project_names(s));
}

/// Law: writing what `retrieve` just read back into a well-kept store is a
/// no-op, so after a run the value returned to the caller is exactly what
/// stays durably stored.
pub proof fn lemma_reload_write_back_noop(s: Seq<EntryView>)
    requires
        well_kept(s),
        sp_get_all(s) is Ok,
    ensures
        sp_cache(s, sp_get_all(s)->Ok_0) == s,
{
    let names = sp_project_names(s);
    let ps = sp_get_all(s)->Ok_0;
    lemma_projects_of_elems(s, names);
    assert forall|j: int, k: int|
        0 <= j < ps.len() && ps[j].als_data is Some && 0 <= k < ps[j].als_data->Some_0.len()
        implies sp_contains(s, ps[j].name, ps[j].als_data->Some_0[k].name) by {
        let files = sp_project_files(s, names[j]);
        lemma_decode_elems(files);
        lemma_files_upto_mem(s, names[j], s.len() as int);
        let l = ps[j].als_data->Some_0;
        assert(sp_record(files[k].text) == Some(l[k]));
        let w = choose|w: int|
            0 <= w < s.len() && s[w] == files[k] && s[w].project == names[j];
        assert(s[w].file == l[k].name);
        assert(s[w].project == ps[j].name && s[w].file == l[k].name);
    }
    lemma_cache_noop(s, ps);
}

/// Folding `sp_cache` over projects whose every record is already present
/// leaves the store unchanged.
proof fn lemma_cache_noop(s: Seq<EntryView>, ps: Seq<ProjectView>)
    requires
        forall|j: int, k: int|
            0 <= j < ps.len() && (#[trigger] ps[j]).als_data is Some && 0 <= k
                < ps[j].als_data->Some_0.len() ==> sp_contains(
                s,
                ps[j].name,
                (#[trigger] ps[j].als_data->Some_0[k]).name,
            ),
    ensures
        sp_cache(s, ps) == s,
    decreases ps.len(),
{
    if ps.len() > 0 {
        match ps[0].als_data {
            Some(l) => {
                assert forall|k: int| 0 <= k < l.len() implies sp_contains(
                    s,
                    ps[0].name,
                    (#[trigger] l[k]).name,
                ) by {
                    assert(ps[0].als_data->Some_0 == l);
                    assert(sp_contains(s, ps[0].name, ps[0].als_data->Some_0[k].name));
                }
                lemma_put_list_noop(s, ps[0].name, l);
            },
            None => {},
        }
        assert forall|j: int, k: int|
            0 <= j < ps.drop_first().len() && (#[trigger] ps.drop_first()[j]).als_data is Some
                && 0 <= k < ps.drop_first()[j].als_data->Some_0.len() implies sp_contains(
            s,
            ps.drop_first()[j].name,
            (#[trigger] ps.drop_first()[j].als_data->Some_0[k]).name,
        ) by {
            assert(ps.drop_first()[j] == ps[j + 1]);
            assert(sp_contains(s, ps[j + 1].name, ps[j + 1].als_data->Some_0[k].name));
        }
        lemma_cache_noop(s, ps.drop_first());
    }
}

/// A stored identity stays stored through any later `put`.
proof fn lemma_put_keeps(
    s: Seq<EntryView>,
    project: Seq<char>,
    a: AlsView,
    p2: Seq<char>,
    f2: Seq<char>,
)
    requires
        sp_contains(s, p2, f2),
    ensures
        sp_contains(sp_put(s, project, a), p2, f2),
{
    let i = choose|i: int|
        0 <= i < s.len() && (#[trigger] s[i]).project == p2 && s[i].file == f2;
    assert(sp_put(s, project, a)[i] == s[i]);
}

/// A stored identity stays stored through storing any record list.
proof fn lemma_put_list_keeps(
    s: Seq<EntryView>,
    project: Seq<char>,
    l: Seq<AlsView>,
    p2: Seq<char>,
    f2: Seq<char>,
)
    requires
        sp_contains(s, p2, f2),
    ensures
        sp_contains(sp_put_list(s, project, l), p2, f2),
    decreases l.len(),
{
    if l.len() > 0 {
        lemma_put_keeps(s, project, l[0], p2, f2);
        lemma_put_list_keeps(sp_put(s, project, l[0]), project, l.drop_first(), p2, f2);
    }
}

/// A stored identity stays stored through a whole `cache` pass.
proof fn lemma_cache_keeps(
    s: Seq<EntryView>,
    ps: Seq<ProjectView>,
    p2: Seq<char>,
    f2: Seq<char>,
)
    requires
        sp_contains(s, p2, f2),
    ensures
        sp_contains(sp_cache(s, ps), p2, f2),
    decreases ps.len(),
{
    if ps.len() > 0 {
        let s2 = match ps[0].als_data {
            Some(l) => sp_put_list(s, ps[0].name, l),
            None => s,
        };
        match ps[0].als_data {
            Some(l) => {
                lemma_put_list_keeps(s, ps[0].name, l, p2, f2);
            },
            None => {},
        }
        lemma_cache_keeps(s2, ps.drop_first(), p2, f2);
    }
}

/// After one `put` the record's identity is stored.
proof fn lemma_put_gains(s: Seq<EntryView>, project: Seq<char>, a: AlsView)
    ensures
        sp_contains(sp_put(s, project, a), project, a.name),
{
    if !sp_contains(s, project, a.name) {
        let s2 = sp_put(s, project, a);
        assert(s2[s.len() as int].project == project && s2[s.len() as int].file == a.name);
    }
}

/// After storing a record list every list member's identity is stored.
proof fn lemma_put_list_gains(s: Seq<EntryView>, project: Seq<char>, l: Seq<AlsView>)
    ensures
        forall|k: int|
            0 <= k < l.len() ==> sp_contains(
                sp_put_list(s, project, l),
                project,
                (#[trigger] l[k]).name,
            ),
    decreases l.len(),
{
    if l.len() > 0 {
        lemma_put_gains(s, project, l[0]);
        let s2 = sp_put(s, project, l[0]);
        lemma_put_list_keeps(s2, project, l.drop_first(), project, l[0].name);
        lemma_put_list_gains(s2, project, l.drop_first());
        assert forall|k: int| 0 <= k < l.len() implies sp_contains(
            sp_put_list(s, project, l),
            project,
            (#[trigger] l[k]).name,
        ) by {
            if k > 0 {
                assert(l.drop_first()[k - 1] == l[k]);
            }
        }
    }
}

/// After one `cache` pass every record's identity is stored.
proof fn lemma_cache_gains(s: Seq<EntryView>, ps: Seq<ProjectView>)
    ensures
        forall|j: int, k: int|
            0 <= j < ps.len() && (#[trigger] ps[j]).als_data is Some && 0 <= k
                < ps[j].als_data->Some_0.len() ==> sp_contains(
                sp_cache(s, ps),
                ps[j].name,
                (#[trigger] ps[j].als_data->Some_0[k]).name,
            ),
    decreases ps.len(),
{
    if ps.len() > 0 {
        let s2 = match ps[0].als_data {
            Some(l) => sp_put_list(s, ps[0].name, l),
            None => s,
        };
        lemma_cache_gains(s2, ps.drop_first());
        assert forall|j: int, k: int|
            0 <= j < ps.len() && (#[trigger] ps[j]).als_data is Some && 0 <= k
                < ps[j].als_data->Some_0.len() implies sp_contains(
            sp_cache(s, ps),
            ps[j].name,
            (#[trigger] ps[j].als_data->Some_0[k]).name,
        ) by {
            if j == 0 {
                let l = ps[0].als_data->Some_0;
                lemma_put_list_gains(s, ps[0].name, l);
                lemma_cache_keeps(s2, ps.drop_first(), ps[0].name, l[k].name);
            } else {
                assert(ps.drop_first()[j - 1] == ps[j]);
                assert(sp_contains(
                    sp_cache(s2, ps.drop_first()),
                    ps[j].name,
                    ps[j].als_data->Some_0[k].name,
                ));
            }
        }
    }
}

/// Law: a second `cache` of the same projects writes nothing — every
/// identity is already present, so each record is written exactly once.
pub proof fn lemma_cache_idempotent(s: Seq<EntryView>, ps: Seq<ProjectView>)
    ensures
        sp_cache(sp_cache(s, ps), ps) == sp_cache(s, ps),
{
    lemma_cache_gains(s, ps);
    lemma_cache_noop(sp_cache(s, ps), ps);
}

/// Appending an entry leaves every project's earlier file list as it was.
proof fn lemma_files_upto_push(s: Seq<EntryView>, e: EntryView, project: Seq<char>, n: int)
    requires
        0 <= n <= s.len(),
    ensures
        sp_files_upto(s.push(e), project, n) == sp_files_upto(s, project, n),
    decreases n,
{
    if n > 0 {
        lemma_files_upto_push(s, e, project, n - 1);
        assert(s.push(e)[n - 1] == s[n - 1]);
    }
}

/// Law: storing any well-formed record in any store where its identity is
/// absent, then reading that project's records back, yields the earlier
/// records followed by exactly the stored value, unchanged.
pub proof fn lemma_put_get_roundtrip(s: Seq<EntryView>, project: Seq<char>, a: AlsView)
    requires
        wf_als(a),
        !sp_contains(s, project, a.name),
        sp_decode_entries(sp_project_files(s, project)) is Ok,
    ensures
        sp_decode_entries(sp_project_files(sp_put(s, project, a), project)) == Ok::<
            _,
            (Seq<char>, Seq<char>),
        >(sp_decode_entries(sp_project_files(s, project))->Ok_0.push(a)),
{
    let e = EntryView { project, file: a.name, text: enc_record(a) };
    let s2 = sp_put(s, project, a);
    assert(s2 == s.push(e));
    let n = s.len() as int;
    lemma_files_upto_push(s, e, project, n);
    assert(s2[n] == e);
    assert(sp_files_upto(s2, project, n + 1) == sp_files_upto(s2, project, n).push(e));
    assert(sp_project_files(s2, project) == sp_project_files(s, project).push(e));
    lemma_decode_snoc(sp_project_files(s, project), e);
    lemma_record_roundtrip(a);
}

/// Law: storing one well-formed record in an empty store and reading the
/// store back yields exactly that record, under its project, unchanged.
pub proof fn lemma_store_roundtrip(project: Seq<char>, a: AlsView)
    requires
        wf_als(a),
    ensures
        sp_get_all(sp_put(Seq::<EntryView>::empty(), project, a)) == Ok::<
            _,
            (Seq<char>, Seq<char>),
        >(seq![ProjectView { name: project, als_data: Some(seq![a]) }]),
{
    let entry = EntryView { project, file: a.name, text: enc_record(a) };
    let s = sp_put(Seq::<EntryView>::empty(), project, a);
    assert(!sp_contains(Seq::<EntryView>::empty(), project, a.name));
    assert(s =~= seq![entry]);
    assert(sp_names_upto(s, 1) =~= seq![project]) by {
        assert(!sp_names_upto(s, 0).contains(s[0].project));
    }
    assert(sp_project_names(s) =~= seq![project]);
    assert(sp_files_upto(s, project, 1) =~= seq![entry]) by {
        assert(sp_files_upto(s, project, 0) =~= Seq::<EntryView>::empty());
    }
    lemma_record_roundtrip(a);
    let files = sp_project_files(s, project);
    assert(files =~= seq![entry]);
    assert(files[0] == entry);
    assert(files.drop_first() =~= Seq::<EntryView>::empty());
    assert(sp_decode_entries(files.drop_first()) == Ok::<Seq<AlsView>, (Seq<char>, Seq<char>)>(
        seq![],
    ));
    assert(sp_record(files[0].text) == Some(a));
    assert(sp_decode_entries(files) == Ok::<_, (Seq<char>, Seq<char>)>(seq![a] + Seq::<
        AlsView,
    >::empty()));
    assert(seq![a] + Seq::<AlsView>::empty() =~= seq![a]);
    let names = sp_project_names(s);
    assert(names[0] == project);
    assert(names.drop_first() =~= Seq::<Seq<char>>::empty());
    assert(sp_projects_of(s, names.drop_first()) == Ok::<Seq<ProjectView>, (Seq<char>, Seq<char>)>(
        seq![],
    ));
    let pv = ProjectView { name: project, als_data: Some(seq![a]) };
    assert(sp_decode_entries(sp_project_files(s, names[0])) == Ok::<
        Seq<AlsView>,
        (Seq<char>, Seq<char>),
    >(seq![a]));
    assert(sp_projects_of(s, names) == Ok::<_, (Seq<char>, Seq<char>)>(seq![pv] + Seq::<
        ProjectView,
    >::empty()));
    assert(seq![pv] + Seq::<ProjectView>::empty() =~= seq![pv]);
}

/// Stores every record of every project, in order; mirrors [`sp_cache`].
/// A record whose identity is already stored is skipped silently.
pub fn cache(store: &mut CacheStore, projects: &Vec<Project>)
    ensures
        final(store)@ == sp_cache(old(store)@, projects@.map_values(|p: Project| p@)),
{
    let ghost psv = projects@.map_values(|p: Project| p@);
    let n = projects.len();
    let mut k: usize = 0;
    proof {
        assert(psv.skip(0) =~= psv);
    }
    while k < n
        invariant
            k <= n,
            n == projects@.len(),
            psv == projects@.map_values(|p: Project| p@),
            sp_cache(old(store)@, psv) == sp_cache(store@, psv.skip(k as int)),
        decreases n - k,
    {
        proof {
            assert(psv.skip(k as int)[0] == psv[k as int]);
            assert(psv[k as int] == projects@[k as int]@);
            assert(psv.skip(k as int).drop_first() =~= psv.skip(k + 1));
        }
        let project = &projects[k];
        match &project.als_data {
            Some(l) => {
                let ghost lv = l@.map_values(|a: AlsData| a@);
                let ghost store0 = store@;
                let m = l.len();
                let mut j: usize = 0;
                proof {
                    assert(lv.skip(0) =~= lv);
                }
                while j < m
                    invariant
                        j <= m,
                        m == l@.len(),
                        lv == l@.map_values(|a: AlsData| a@),
                        sp_put_list(store0, project@.name, lv) == sp_put_list(
                            store@,
                            project@.name,
                            lv.skip(j as int),
                        ),
                    decreases m - j,
                {
                    proof {
                        assert(lv.skip(j as int)[0] == lv[j as int]);
                        assert(lv[j as int] == l@[j as int]@);
                        assert(lv.skip(j as int).drop_first() =~= lv.skip(j + 1));
                    }
                    store.put(project.name.as_str(), &l[j]);
                    j = j + 1;
                }
                proof {
                    assert(lv.skip(m as int) =~= Seq::<AlsView>::empty());
                }
            },
            None => {},
        }
        k = k + 1;
    }
    proof {
        assert(psv.skip(n as int) =~= Seq::<ProjectView>::empty());
    }
}

} // verus!
