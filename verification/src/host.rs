//! The host capability interface — read-only access to workspace content —
//! and the recursive lister built on top of it.
//!
//! A host models its store as a map from canonical workspace-relative paths
//! to file contents plus a set of directories, together with a resolution
//! function from caller-supplied paths to canonical ones. Every operation's
//! contract is stated against that model.

use vstd::prelude::*;

use crate::errors::HostError;
use crate::paths::{all_plain, child_join_view, plain_name, rel_join_view, lemma_child_join_injective,
    lemma_rel_join_injective};

verus! {

/// Whether a directory child is itself a file or a directory.
#[derive(Debug, Clone, Copy, PartialEq, Eq, Structural)]
pub enum EntryKind {
    File,
    Directory,
}

/// One child of a listed directory.
#[derive(Debug, Clone)]
pub struct Entry {
    /// The workspace-relative path of the child, in the caller's own
    /// coordinates: the listed path joined with the child's name.
    pub path: String,
    /// Whether this child is a file or a directory.
    pub kind: EntryKind,
}

impl PartialEq for Entry {
    fn eq(&self, other: &Self) -> bool {
        self.path.eq(&other.path) && self.kind == other.kind
    }
}

impl vstd::std_specs::cmp::PartialEqSpecImpl for Entry {
    open spec fn obeys_eq_spec() -> bool {
        true
    }

    open spec fn eq_spec(&self, other: &Self) -> bool {
        self.path@ == other.path@ && self.kind == other.kind
    }
}

/// `f` is a file strictly below the directory `c`.
pub open spec fn file_under(
    files: Map<Seq<Seq<char>>, Seq<char>>,
    c: Seq<Seq<char>>,
    f: Seq<Seq<char>>,
) -> bool {
    files.dom().contains(f) && c.is_prefix_of(f) && f.len() > c.len()
}

/// `n` names a child (file or directory) of the directory `c`.
pub open spec fn is_child_name(
    files: Map<Seq<Seq<char>>, Seq<char>>,
    dirs: Set<Seq<Seq<char>>>,
    c: Seq<Seq<char>>,
    n: Seq<char>,
) -> bool {
    plain_name(n) && (files.dom().contains(c.push(n)) || dirs.contains(c.push(n)))
}

/// `e` reports one real child of `c`, with its path in the caller's
/// coordinates (`qpath` joined with the child's name) and the right kind.
pub open spec fn entry_matches(
    files: Map<Seq<Seq<char>>, Seq<char>>,
    dirs: Set<Seq<Seq<char>>>,
    qpath: Seq<char>,
    c: Seq<Seq<char>>,
    e: Entry,
) -> bool {
    exists|n: Seq<char>|
        #![auto]
        {
            &&& plain_name(n)
            &&& e.path@ == child_join_view(qpath, n)
            &&& match e.kind {
                EntryKind::File => files.dom().contains(c.push(n)),
                EntryKind::Directory => dirs.contains(c.push(n)),
            }
        }
}

/// `s` is the caller-coordinate path of some file strictly below `c`.
pub open spec fn is_file_path_under(
    files: Map<Seq<Seq<char>>, Seq<char>>,
    qpath: Seq<char>,
    c: Seq<Seq<char>>,
    s: String,
) -> bool {
    exists|f: Seq<Seq<char>>|
        #![auto]
        file_under(files, c, f) && s@ == rel_join_view(qpath, f.skip(c.len() as int))
}

/// `out` contains the caller-coordinate path of `f`.
pub open spec fn out_contains_file(
    qpath: Seq<char>,
    c: Seq<Seq<char>>,
    out: Seq<String>,
    f: Seq<Seq<char>>,
) -> bool {
    exists|i: int|
        #![auto]
        0 <= i < out.len() && out[i]@ == rel_join_view(qpath, f.skip(c.len() as int))
}

/// Every file strictly below `c` appears in `out`, in the caller's
/// coordinates.
pub open spec fn covers_files_under(
    files: Map<Seq<Seq<char>>, Seq<char>>,
    qpath: Seq<char>,
    c: Seq<Seq<char>>,
    out: Seq<String>,
) -> bool {
    forall|f: Seq<Seq<char>>|
        #![trigger file_under(files, c, f)]
        file_under(files, c, f) ==> out_contains_file(qpath, c, out, f)
}

/// Every path of `out` is a file strictly below `c`, written in the
/// caller's coordinates.
pub open spec fn yields_files_under(
    files: Map<Seq<Seq<char>>, Seq<char>>,
    qpath: Seq<char>,
    c: Seq<Seq<char>>,
    out: Seq<String>,
) -> bool {
    forall|i: int|
        #![trigger out[i]]
        0 <= i < out.len() ==> is_file_path_under(files, qpath, c, out[i])
}

/// The host environment of the build system: how the tool reads workspace
/// content. Both operations resolve their path against the implementation's
/// workspace root and never mutate anything.
pub trait Host: Sized {
    /// The canonical workspace-relative segments a caller path resolves to,
    /// or `None` when the resolution escapes the sandbox.
    spec fn resolve_model(&self, path: Seq<char>) -> Option<Seq<Seq<char>>>;

    /// The contents of every file, keyed by canonical segments.
    spec fn files(&self) -> Map<Seq<Seq<char>>, Seq<char>>;

    /// Every directory, as canonical segments; the workspace root is the
    /// empty sequence.
    spec fn dirs(&self) -> Set<Seq<Seq<char>>>;

    /// Model coherence; what it gives is stated by [`Host::lemma_wf`].
    spec fn wf(&self) -> bool;

    /// Whether this host's store never fails spuriously: reading an
    /// existing file and listing an existing directory always succeed. An
    /// in-memory host is infallible; a host over a real store is not.
    spec fn infallible(&self) -> bool;

    /// Coherence of the model: the root is a directory, there are finitely
    /// many directories, files and directories are disjoint, every path is
    /// made of plain names, and every ancestor of a file is a directory.
    proof fn lemma_wf(&self)
        requires
            self.wf(),
        ensures
            self.dirs().contains(Seq::<Seq<char>>::empty()),
            self.dirs().finite(),
            forall|f: Seq<Seq<char>>| #[trigger]
                self.files().dom().contains(f) ==> !self.dirs().contains(f) && all_plain(f)
                    && f.len() >= 1,
            forall|d: Seq<Seq<char>>| #[trigger] self.dirs().contains(d) ==> all_plain(d),
            forall|f: Seq<Seq<char>>, k: int|
                self.files().dom().contains(f) && 0 < k < f.len() ==> self.dirs().contains(
                    #[trigger] f.take(k),
                ),
    ;

    /// Resolution of a listed child: joining one plain name onto a path that
    /// resolves extends the resolved segments by exactly that name.
    proof fn lemma_resolve_extend(&self, path: Seq<char>, name: Seq<char>)
        requires
            self.wf(),
            plain_name(name),
            self.resolve_model(path) is Some,
        ensures
            self.resolve_model(child_join_view(path, name)) == Some(
                self.resolve_model(path)->Some_0.push(name),
            ),
    ;

    /// Reads the file at `path`, resolved against the workspace root, as
    /// text. Fails with `OutsideWorkspace` — before any access — exactly
    /// when the resolution escapes the root; with `NotFound` when nothing
    /// exists there; with `IoFailure` when the path is a directory or the
    /// store cannot deliver the content.
    fn read_to_string(&self, path: &str) -> (r: Result<String, HostError>)
        requires
            self.wf(),
        ensures
            ({
                let rm = self.resolve_model(path@);
                &&& (rm is None <==> (r is Err && r->Err_0 is OutsideWorkspace))
                &&& (rm is Some && !self.files().dom().contains(rm->Some_0)
                    && !self.dirs().contains(rm->Some_0) ==> (r is Err && r->Err_0 is NotFound))
                &&& (rm is Some && self.dirs().contains(rm->Some_0) ==> (r is Err
                    && r->Err_0 is IoFailure))
                &&& (self.infallible() && rm is Some && self.files().dom().contains(rm->Some_0)
                    ==> r is Ok)
                &&& match r {
                    Ok(text) => rm is Some && self.files().dom().contains(rm->Some_0) && text@
                        == self.files()[rm->Some_0],
                    Err(e) => match e {
                        HostError::OutsideWorkspace { path: p } => p@ == path@,
                        HostError::NotFound { path: p } => p@ == path@ && rm is Some
                            && !self.files().dom().contains(rm->Some_0) && !self.dirs().contains(
                            rm->Some_0,
                        ),
                        HostError::IoFailure { path: p, .. } => p@ == path@ && rm is Some,
                        HostError::InvalidPath { .. } => false,
                    },
                }
            }),
    ;

    /// Lists the directory at `path`, resolved against the workspace root.
    /// On success the entries are exactly the directory's children, each
    /// with the caller-coordinate path and the right kind, without
    /// duplicate paths; no order is promised. Fails with `OutsideWorkspace`
    /// — before any access — exactly when the resolution escapes the root;
    /// with `NotFound` when nothing exists there; with `IoFailure` when the
    /// path is a file or an entry cannot be delivered (no partial results).
    fn list(&self, path: &str) -> (r: Result<Vec<Entry>, HostError>)
        requires
            self.wf(),
        ensures
            ({
                let rm = self.resolve_model(path@);
                &&& (rm is None <==> (r is Err && r->Err_0 is OutsideWorkspace))
                &&& (rm is Some && !self.files().dom().contains(rm->Some_0)
                    && !self.dirs().contains(rm->Some_0) ==> (r is Err && r->Err_0 is NotFound))
                &&& (self.infallible() && rm is Some && self.dirs().contains(rm->Some_0)
                    ==> r is Ok)
                &&& match r {
                    Ok(es) => {
                        let c = rm->Some_0;
                        &&& rm is Some
                        &&& self.dirs().contains(c)
                        &&& forall|i: int|
                            0 <= i < es@.len() ==> entry_matches(self.files(), self.dirs(), path@, c, #[trigger] es@[i])
                        &&& forall|n: Seq<char>|
                            is_child_name(self.files(), self.dirs(), c, n) ==> exists|i: int|
                                #![auto]
                                0 <= i < es@.len() && es@[i].path@ == child_join_view(path@, n)
                        &&& forall|i: int, j: int|
                            0 <= i < j < es@.len() ==> es@[i].path@ != es@[j].path@
                    },
                    Err(e) => match e {
                        HostError::OutsideWorkspace { path: p } => p@ == path@,
                        HostError::NotFound { path: p } => p@ == path@ && rm is Some
                            && !self.files().dom().contains(rm->Some_0) && !self.dirs().contains(
                            rm->Some_0,
                        ),
                        HostError::IoFailure { path: p, .. } => p@ == path@ && rm is Some,
                        HostError::InvalidPath { .. } => false,
                    },
                }
            }),
    ;
}


/// Every pending directory is a known, resolvable directory strictly below
/// `c`, in caller coordinates, and no pending directory sits inside another.
pub open spec fn pend_ok<H: Host>(
    h: &H,
    qpath: Seq<char>,
    c: Seq<Seq<char>>,
    pending: Seq<String>,
    gpend: Seq<Seq<Seq<char>>>,
) -> bool {
    &&& pending.len() == gpend.len()
    &&& forall|j: int|
        #![trigger gpend[j]]
        0 <= j < gpend.len() ==> {
            &&& h.resolve_model(pending[j]@) == Some(gpend[j])
            &&& h.dirs().contains(gpend[j])
            &&& c.is_prefix_of(gpend[j])
            &&& gpend[j].len() > c.len()
            &&& pending[j]@ == rel_join_view(qpath, gpend[j].skip(c.len() as int))
            &&& all_plain(gpend[j])
        }
    &&& forall|j1: int, j2: int|
        #![trigger gpend[j1], gpend[j2]]
        0 <= j1 < gpend.len() && 0 <= j2 < gpend.len() && j1 != j2 ==> !gpend[j1].is_prefix_of(
            gpend[j2],
        )
}

/// Every collected path is a file strictly below `c`, written in caller
/// coordinates.
pub open spec fn out_ok<H: Host>(
    h: &H,
    qpath: Seq<char>,
    c: Seq<Seq<char>>,
    out: Seq<String>,
    gout: Seq<Seq<Seq<char>>>,
) -> bool {
    &&& out.len() == gout.len()
    &&& forall|i: int|
        #![trigger gout[i]]
        0 <= i < gout.len() ==> file_under(h.files(), c, gout[i]) && out[i]@ == rel_join_view(
            qpath,
            gout[i].skip(c.len() as int),
        )
    &&& forall|i1: int, i2: int|
        #![trigger gout[i1], gout[i2]]
        0 <= i1 < i2 < gout.len() ==> gout[i1] != gout[i2]
}

/// No collected file lies below (or at) a still-pending directory.
pub open spec fn sep_ok(gout: Seq<Seq<Seq<char>>>, gpend: Seq<Seq<Seq<char>>>) -> bool {
    forall|i: int, j: int|
        #![trigger gout[i], gpend[j]]
        0 <= i < gout.len() && 0 <= j < gpend.len() ==> !gpend[j].is_prefix_of(gout[i])
}

/// Every file strictly below `c` is either already collected or still below
/// a pending directory.
pub open spec fn cov_ok<H: Host>(
    h: &H,
    c: Seq<Seq<char>>,
    gout: Seq<Seq<Seq<char>>>,
    gpend: Seq<Seq<Seq<char>>>,
) -> bool {
    forall|f: Seq<Seq<char>>|
        #![trigger file_under(h.files(), c, f)]
        file_under(h.files(), c, f) ==> gout.contains(f) || exists|j: int|
            #![auto]
            0 <= j < gpend.len() && gpend[j].is_prefix_of(f)
}

/// A file strictly below a directory `cd` continues with a plain child name
/// of `cd`: either the file is that child itself, or the child is a
/// directory on the way down.
proof fn lemma_child_of_dir<H: Host>(
    host: &H,
    c: Seq<Seq<char>>,
    cd: Seq<Seq<char>>,
    f: Seq<Seq<char>>,
)
    requires
        host.wf(),
        file_under(host.files(), c, f),
        cd.is_prefix_of(f),
        host.dirs().contains(cd),
    ensures
        f.len() > cd.len(),
        plain_name(f[cd.len() as int]),
        (cd.push(f[cd.len() as int])).is_prefix_of(f),
        is_child_name(host.files(), host.dirs(), cd, f[cd.len() as int]),
        host.files().dom().contains(cd.push(f[cd.len() as int])) ==> f == cd.push(
            f[cd.len() as int],
        ),
        host.files().dom().contains(cd.push(f[cd.len() as int])) || host.dirs().contains(
            cd.push(f[cd.len() as int]),
        ),
{
    host.lemma_wf();
    assert(f.len() >= cd.len());
    if f.len() == cd.len() {
        assert(f =~= cd);
        assert(false);
    }
    let n = f[cd.len() as int];
    assert(all_plain(f));
    assert(plain_name(n));
    assert(cd =~= f.subrange(0, cd.len() as int));
    assert(f.subrange(0, cd.len() as int + 1) =~= cd.push(n));
    assert((cd.push(n)).is_prefix_of(f)) by {
        assert(cd.push(n) =~= f.subrange(0, cd.len() as int + 1));
    }
    if f.len() == cd.len() + 1 {
        assert(f =~= cd.push(n));
        assert(host.files().dom().contains(cd.push(n)));
    } else {
        assert(f.take(cd.len() as int + 1) =~= cd.push(n));
        assert(host.dirs().contains(f.take(cd.len() as int + 1)));
        assert(host.dirs().contains(cd.push(n)));
        if host.files().dom().contains(cd.push(n)) {
            assert(false);
        }
    }
}

/// Inside a listed directory, every file below it continues with a child
/// that the listing reports.
proof fn lemma_dir_cover<H: Host>(
    host: &H,
    dq: Seq<char>,
    c: Seq<Seq<char>>,
    cd: Seq<Seq<char>>,
    es: Seq<Entry>,
    f: Seq<Seq<char>>,
)
    requires
        host.wf(),
        host.dirs().contains(cd),
        file_under(host.files(), c, f),
        cd.is_prefix_of(f),
        forall|n: Seq<char>|
            is_child_name(host.files(), host.dirs(), cd, n) ==> exists|i: int|
                #![auto]
                0 <= i < es.len() && es[i].path@ == child_join_view(dq, n),
    ensures
        exists|t: int|
            #![auto]
            0 <= t < es.len() && es[t].path@ == child_join_view(dq, f[cd.len() as int]),
{
    lemma_child_of_dir(host, c, cd, f);
    assert(is_child_name(host.files(), host.dirs(), cd, f[cd.len() as int]));
}

/// No pending directory is an ancestor (or equal) of an already expanded one.
pub open spec fn vis_ok(visited: Set<Seq<Seq<char>>>, gpend: Seq<Seq<Seq<char>>>) -> bool {
    forall|v: Seq<Seq<char>>, j: int|
        #![trigger visited.contains(v), gpend[j]]
        visited.contains(v) && 0 <= j < gpend.len() ==> !gpend[j].is_prefix_of(v)
}

/// Processes one listed entry of the directory at `dq` (canonical `cd`):
/// a file child is collected, a directory child becomes pending. The walk's
/// invariants are carried from entry `k` to entry `k + 1`.
#[verifier::rlimit(100)]
fn expand_one_level<H: Host>(
    host: &H,
    Ghost(qpath): Ghost<Seq<char>>,
    Ghost(c): Ghost<Seq<Seq<char>>>,
    Ghost(cd): Ghost<Seq<Seq<char>>>,
    Ghost(dq): Ghost<Seq<char>>,
    es_vec: &Vec<Entry>,
    k: usize,
    out: &mut Vec<String>,
    Ghost(gout_in): Ghost<Seq<Seq<Seq<char>>>>,
    Ghost(gpend_in): Ghost<Seq<Seq<Seq<char>>>>,
    Ghost(visited): Ghost<Set<Seq<Seq<char>>>>,
    pending: &mut Vec<String>,
) -> (gs: (Ghost<Seq<Seq<Seq<char>>>>, Ghost<Seq<Seq<Seq<char>>>>))
    requires
        host.wf(),
        host.resolve_model(dq) == Some(cd),
        host.dirs().contains(cd),
        c.is_prefix_of(cd),
        dq == rel_join_view(qpath, cd.skip(c.len() as int)),
        all_plain(cd),
        k < es_vec@.len(),
        forall|i: int|
            0 <= i < es_vec@.len() ==> entry_matches(
                host.files(),
                host.dirs(),
                dq,
                cd,
                #[trigger] es_vec@[i],
            ),
        forall|i: int, j: int|
            #![trigger es_vec@[i], es_vec@[j]]
            0 <= i < j < es_vec@.len() ==> es_vec@[i].path@ != es_vec@[j].path@,
        out_ok(host, qpath, c, old(out)@, gout_in),
        pend_ok(host, qpath, c, old(pending)@, gpend_in),
        sep_ok(gout_in, gpend_in),
        vis_ok(visited, gpend_in),
        forall|v: Seq<Seq<char>>| #[trigger] visited.contains(v) ==> v == cd || !cd.is_prefix_of(v),
        forall|j: int| #![trigger gpend_in[j]] 0 <= j < gpend_in.len() ==> !gpend_in[j].is_prefix_of(cd),
        forall|j: int|
            #![trigger gpend_in[j]]
            0 <= j < gpend_in.len() && cd.is_prefix_of(gpend_in[j]) ==> gpend_in[j].len()
                == cd.len() + 1 && exists|t: int|
                #![auto]
                0 <= t < k && es_vec@[t].path@ == child_join_view(dq, gpend_in[j].last()),
        forall|i: int|
            #![trigger gout_in[i]]
            0 <= i < gout_in.len() && cd.is_prefix_of(gout_in[i]) ==> gout_in[i].len() == cd.len()
                + 1 && exists|t: int|
                #![auto]
                0 <= t < k && es_vec@[t].path@ == child_join_view(dq, gout_in[i].last()),
    ensures
        out_ok(host, qpath, c, final(out)@, gs.0@),
        pend_ok(host, qpath, c, final(pending)@, gs.1@),
        sep_ok(gs.0@, gs.1@),
        vis_ok(visited, gs.1@),
        forall|j: int| #![trigger gs.1@[j]] 0 <= j < gs.1@.len() ==> !gs.1@[j].is_prefix_of(cd),
        forall|i: int|
            #![trigger gs.0@[i]]
            0 <= i < gs.0@.len() && cd.is_prefix_of(gs.0@[i]) ==> gs.0@[i].len() == cd.len() + 1
                && exists|t: int|
                #![auto]
                0 <= t < k + 1 && es_vec@[t].path@ == child_join_view(dq, gs.0@[i].last()),
        forall|j: int|
            #![trigger gs.1@[j]]
            0 <= j < gs.1@.len() && cd.is_prefix_of(gs.1@[j]) ==> gs.1@[j].len() == cd.len() + 1
                && exists|t: int|
                #![auto]
                0 <= t < k + 1 && es_vec@[t].path@ == child_join_view(dq, gs.1@[j].last()),
        forall|f: Seq<Seq<char>>|
            #![trigger file_under(host.files(), c, f)]
            file_under(host.files(), c, f) && (gout_in.contains(f) || (exists|j: int|
                #![auto]
                0 <= j < gpend_in.len() && gpend_in[j].is_prefix_of(f)) || (cd.is_prefix_of(f)
                && exists|t: int|
                #![auto]
                k <= t < es_vec@.len() && es_vec@[t].path@ == child_join_view(
                    dq,
                    f[cd.len() as int],
                ))) ==> (gs.0@.contains(f) || (exists|j: int|
                #![auto]
                0 <= j < gs.1@.len() && gs.1@[j].is_prefix_of(f)) || (cd.is_prefix_of(f) && exists|
                t: int,
            |
                #![auto]
                k + 1 <= t < es_vec@.len() && es_vec@[t].path@ == child_join_view(
                    dq,
                    f[cd.len() as int],
                ))),
{
    let ghost mut gout = gout_in;
    let ghost mut gpend = gpend_in;
    proof {
        assert(entry_matches(host.files(), host.dirs(), dq, cd, es_vec@[k as int]));
    }
    let ghost n = choose|n: Seq<char>|
        #![auto]
        {
            &&& plain_name(n)
            &&& es_vec@[k as int].path@ == child_join_view(dq, n)
            &&& match es_vec@[k as int].kind {
                EntryKind::File => host.files().dom().contains(cd.push(n)),
                EntryKind::Directory => host.dirs().contains(cd.push(n)),
            }
        };
    let e = &es_vec[k];
    let child = e.path.clone();
    proof {
        assert(plain_name(n) && es_vec@[k as int].path@ == child_join_view(dq, n));
        assert((cd.push(n)).skip(c.len() as int) =~= cd.skip(c.len() as int).push(n));
        assert(cd.skip(c.len() as int).push(n).drop_last() =~= cd.skip(c.len() as int));
        assert(rel_join_view(qpath, cd.skip(c.len() as int).push(n)) == child_join_view(dq, n));
        assert(c.is_prefix_of(cd.push(n))) by {
            assert(cd.push(n).subrange(0, c.len() as int) =~= cd.subrange(0, c.len() as int));
            assert(cd.subrange(0, c.len() as int) =~= c);
        }
        assert(cd.push(n).last() == n);
        assert(cd.is_prefix_of(cd.push(n))) by {
            assert(cd.push(n).subrange(0, cd.len() as int) =~= cd);
        }
    }
    match e.kind {
        EntryKind::File => {
            out.push(child);
            proof {
                gout = gout.push(cd.push(n));
                assert(gout[gout.len() - 1] == cd.push(n));
                assert(forall|i: int| 0 <= i < gout_in.len() ==> gout[i] == gout_in[i]);
                // the new canonical path is distinct from every old one
                assert forall|i: int| 0 <= i < gout_in.len() implies gout_in[i] != cd.push(n) by {
                    if gout_in[i] == cd.push(n) {
                        assert(cd.is_prefix_of(gout_in[i])) by {
                            assert(gout_in[i].subrange(0, cd.len() as int) =~= cd);
                        }
                        let t = choose|t: int|
                            #![auto]
                            0 <= t < k && es_vec@[t].path@ == child_join_view(
                                dq,
                                gout_in[i].last(),
                            );
                        assert(es_vec@[t].path@ == es_vec@[k as int].path@);
                    }
                }
                // it is not below any pending directory either
                assert forall|j: int| 0 <= j < gpend.len() implies !gpend[j].is_prefix_of(
                    cd.push(n),
                ) by {
                    if gpend[j].is_prefix_of(cd.push(n)) {
                        if gpend[j].len() <= cd.len() {
                            assert(gpend[j].is_prefix_of(cd)) by {
                                assert(gpend[j] =~= cd.push(n).subrange(0, gpend[j].len() as int));
                                assert(cd.push(n).subrange(0, gpend[j].len() as int)
                                    =~= cd.subrange(0, gpend[j].len() as int));
                            }
                            assert(false);
                        } else {
                            assert(gpend[j].len() == cd.len() + 1);
                            assert(gpend[j] =~= cd.push(n));
                            assert(cd.is_prefix_of(gpend[j]));
                            let t = choose|t: int|
                                #![auto]
                                0 <= t < k && es_vec@[t].path@ == child_join_view(
                                    dq,
                                    gpend[j].last(),
                                );
                            assert(es_vec@[t].path@ == es_vec@[k as int].path@);
                            assert(false);
                        }
                    }
                }
            }
        },
        EntryKind::Directory => {
            pending.push(child);
            proof {
                host.lemma_resolve_extend(dq, n);
                gpend = gpend.push(cd.push(n));
                assert(gpend[gpend.len() - 1] == cd.push(n));
                assert(forall|i: int| 0 <= i < gpend_in.len() ==> gpend[i] == gpend_in[i]);
                assert(all_plain(cd.push(n))) by {
                    assert(forall|t: int| 0 <= t < cd.len() ==> cd.push(n)[t] == cd[t]);
                    assert(cd.push(n)[cd.len() as int] == n);
                }
                assert forall|j: int| 0 <= j < gpend_in.len() implies !gpend_in[j].is_prefix_of(
                    cd.push(n),
                ) && !(cd.push(n)).is_prefix_of(gpend_in[j]) by {
                    if gpend_in[j].is_prefix_of(cd.push(n)) {
                        if gpend_in[j].len() <= cd.len() {
                            assert(gpend_in[j].is_prefix_of(cd)) by {
                                assert(gpend_in[j] =~= cd.push(n).subrange(
                                    0,
                                    gpend_in[j].len() as int,
                                ));
                                assert(cd.push(n).subrange(0, gpend_in[j].len() as int)
                                    =~= cd.subrange(0, gpend_in[j].len() as int));
                            }
                            assert(false);
                        } else {
                            assert(gpend_in[j].len() == cd.len() + 1);
                            assert(gpend_in[j] =~= cd.push(n));
                            assert(cd.is_prefix_of(gpend_in[j]));
                            let t = choose|t: int|
                                #![auto]
                                0 <= t < k && es_vec@[t].path@ == child_join_view(
                                    dq,
                                    gpend_in[j].last(),
                                );
                            assert(es_vec@[t].path@ == es_vec@[k as int].path@);
                            assert(false);
                        }
                    }
                    if (cd.push(n)).is_prefix_of(gpend_in[j]) {
                        assert(cd.is_prefix_of(gpend_in[j])) by {
                            assert(gpend_in[j].subrange(0, cd.len() as int) =~= cd.push(
                                n,
                            ).subrange(0, cd.len() as int));
                            assert(cd.push(n).subrange(0, cd.len() as int) =~= cd);
                        }
                        assert(gpend_in[j].len() >= cd.len() + 1);
                        assert(gpend_in[j].len() == cd.len() + 1);
                        assert(gpend_in[j] =~= cd.push(n));
                        let t = choose|t: int|
                            #![auto]
                            0 <= t < k && es_vec@[t].path@ == child_join_view(
                                dq,
                                gpend_in[j].last(),
                            );
                        assert(es_vec@[t].path@ == es_vec@[k as int].path@);
                        assert(false);
                    }
                }
                assert forall|v: Seq<Seq<char>>| #[trigger]
                    visited.contains(v) implies !(cd.push(n)).is_prefix_of(v) by {
                    if (cd.push(n)).is_prefix_of(v) {
                        assert(cd.is_prefix_of(v)) by {
                            assert(v.subrange(0, cd.len() as int) =~= cd.push(n).subrange(
                                0,
                                cd.len() as int,
                            ));
                            assert(cd.push(n).subrange(0, cd.len() as int) =~= cd);
                        }
                        assert(v.len() >= cd.len() + 1);
                        assert(v != cd);
                        assert(false);
                    }
                }
                // no collected file lies below the new pending directory
                assert forall|i: int| 0 <= i < gout.len() implies !(cd.push(n)).is_prefix_of(
                    gout[i],
                ) by {
                    if (cd.push(n)).is_prefix_of(gout[i]) {
                        assert(cd.is_prefix_of(gout[i])) by {
                            assert(gout[i].subrange(0, cd.len() as int) =~= cd.push(n).subrange(
                                0,
                                cd.len() as int,
                            ));
                            assert(cd.push(n).subrange(0, cd.len() as int) =~= cd);
                        }
                        assert(gout[i].len() == cd.len() + 1);
                        assert(gout[i] =~= cd.push(n));
                        assert(host.files().dom().contains(gout[i]));
                        assert(host.dirs().contains(cd.push(n)));
                        host.lemma_wf();
                        assert(false);
                    }
                }
            }
        },
    }
    proof {
        // coverage is carried one entry forward
        assert forall|f: Seq<Seq<char>>|
            file_under(host.files(), c, f) && (gout_in.contains(f) || (exists|j: int|
                #![auto]
                0 <= j < gpend_in.len() && gpend_in[j].is_prefix_of(f)) || (cd.is_prefix_of(f)
                && exists|t: int|
                #![auto]
                k <= t < es_vec@.len() && es_vec@[t].path@ == child_join_view(
                    dq,
                    f[cd.len() as int],
                ))) implies (gout.contains(f) || (exists|j: int|
            #![auto]
            0 <= j < gpend.len() && gpend[j].is_prefix_of(f)) || (cd.is_prefix_of(f) && exists|
            t: int,
        |
            #![auto]
            k + 1 <= t < es_vec@.len() && es_vec@[t].path@ == child_join_view(
                dq,
                f[cd.len() as int],
            ))) by {
            if gout_in.contains(f) {
                let i = choose|i: int| 0 <= i < gout_in.len() && gout_in[i] == f;
                assert(gout[i] == f);
                assert(gout.contains(f));
            } else if exists|j: int|
                #![auto]
                0 <= j < gpend_in.len() && gpend_in[j].is_prefix_of(f) {
                let j = choose|j: int|
                    #![auto]
                    0 <= j < gpend_in.len() && gpend_in[j].is_prefix_of(f);
                assert(gpend[j] == gpend_in[j]);
            } else if cd.is_prefix_of(f) && exists|t: int|
                #![auto]
                k <= t < es_vec@.len() && es_vec@[t].path@ == child_join_view(
                    dq,
                    f[cd.len() as int],
                ) {
                let t = choose|t: int|
                    #![auto]
                    k <= t < es_vec@.len() && es_vec@[t].path@ == child_join_view(
                        dq,
                        f[cd.len() as int],
                    );
                if t >= k + 1 {
                } else {
                    // the processed entry is exactly this file's next step
                    lemma_child_of_dir(host, c, cd, f);
                    let nf = f[cd.len() as int];
                    lemma_child_join_injective(dq, n, nf);
                    assert(n == nf);
                    match es_vec@[k as int].kind {
                        EntryKind::File => {
                            assert(host.files().dom().contains(cd.push(n)));
                            assert(f == cd.push(n));
                            assert(gout[gout.len() - 1] == f);
                            assert(gout.contains(f));
                        },
                        EntryKind::Directory => {
                            assert(gpend[gpend.len() - 1] == cd.push(n));
                            assert((cd.push(n)).is_prefix_of(f));
                        },
                    }
                }
            }
        }
    }
    (Ghost(gout), Ghost(gpend))
}

/// Expands one pending directory `d` (canonical `cd`): lists it, collects
/// its file children and queues its directory children. Fails only with the
/// listing's own `IoFailure`.
#[verifier::loop_isolation(false)]
#[verifier::rlimit(100)]
fn expand_dir<H: Host>(
    host: &H,
    Ghost(qpath): Ghost<Seq<char>>,
    Ghost(c): Ghost<Seq<Seq<char>>>,
    d: &String,
    Ghost(cd): Ghost<Seq<Seq<char>>>,
    out: &mut Vec<String>,
    pending: &mut Vec<String>,
    Ghost(gout_in): Ghost<Seq<Seq<Seq<char>>>>,
    Ghost(gpend_in): Ghost<Seq<Seq<Seq<char>>>>,
    Ghost(visited_in): Ghost<Set<Seq<Seq<char>>>>,
) -> (res: Result<
    (Ghost<Seq<Seq<Seq<char>>>>, Ghost<Seq<Seq<Seq<char>>>>, Ghost<Set<Seq<Seq<char>>>>),
    HostError,
>)
    requires
        host.wf(),
        host.resolve_model(d@) == Some(cd),
        host.dirs().contains(cd),
        c.is_prefix_of(cd),
        cd.len() > c.len(),
        all_plain(cd),
        d@ == rel_join_view(qpath, cd.skip(c.len() as int)),
        out_ok(host, qpath, c, old(out)@, gout_in),
        pend_ok(host, qpath, c, old(pending)@, gpend_in),
        sep_ok(gout_in, gpend_in),
        forall|i: int| #![trigger gout_in[i]] 0 <= i < gout_in.len() ==> !cd.is_prefix_of(gout_in[i]),
        vis_ok(visited_in, gpend_in),
        !visited_in.contains(cd),
        visited_in.finite(),
        visited_in.subset_of(host.dirs()),
        forall|v: Seq<Seq<char>>| #[trigger] visited_in.contains(v) ==> !cd.is_prefix_of(v),
        forall|j: int|
            #![trigger gpend_in[j]]
            0 <= j < gpend_in.len() ==> !gpend_in[j].is_prefix_of(cd) && !cd.is_prefix_of(
                gpend_in[j],
            ),
        forall|f: Seq<Seq<char>>|
            #![trigger file_under(host.files(), c, f)]
            file_under(host.files(), c, f) ==> gout_in.contains(f) || (exists|j: int|
                #![auto]
                0 <= j < gpend_in.len() && gpend_in[j].is_prefix_of(f)) || cd.is_prefix_of(f),
    ensures
        match res {
            Ok(g) => {
                &&& out_ok(host, qpath, c, final(out)@, g.0@)
                &&& pend_ok(host, qpath, c, final(pending)@, g.1@)
                &&& sep_ok(g.0@, g.1@)
                &&& cov_ok(host, c, g.0@, g.1@)
                &&& vis_ok(g.2@, g.1@)
                &&& g.2@ == visited_in.insert(cd)
                &&& g.2@.finite()
                &&& g.2@.subset_of(host.dirs())
            },
            Err(e) => e is IoFailure && !host.infallible(),
        },
{
    let listing = host.list(d.as_str());
    let es1 = match listing {
        Err(e) => {
            return Err(e);
        },
        Ok(es) => es,
    };
    let ghost mut gout = gout_in;
    let ghost mut gpend = gpend_in;
    let ghost visited = visited_in.insert(cd);
    let ghost dq = d@;
    let ghost es = es1@;
    proof {
        assert(visited.finite());
        assert(visited.subset_of(host.dirs()));
        assert forall|v: Seq<Seq<char>>, j: int|
            #![trigger visited.contains(v), gpend[j]]
            visited.contains(v) && 0 <= j < gpend.len() implies !gpend[j].is_prefix_of(v) by {
            if v == cd {
                assert(!gpend_in[j].is_prefix_of(cd));
            } else {
                assert(visited_in.contains(v));
            }
        }
        // every file still uncovered continues with a listed child of cd
        assert forall|f: Seq<Seq<char>>|
            file_under(host.files(), c, f) implies gout.contains(f) || (exists|j: int|
            #![auto]
            0 <= j < gpend.len() && gpend[j].is_prefix_of(f)) || (cd.is_prefix_of(f) && exists|
            t: int,
        |
            #![auto]
            0 <= t < es.len() && es[t].path@ == child_join_view(dq, f[cd.len() as int])) by {
            if !gout.contains(f) && !(exists|j: int|
                #![auto]
                0 <= j < gpend.len() && gpend[j].is_prefix_of(f)) {
                assert(cd.is_prefix_of(f));
                lemma_dir_cover(host, dq, c, cd, es, f);
            }
        }
    }
    let mut k: usize = 0;
    while k < es1.len()
        invariant
            es == es1@,
            k <= es.len(),
            out_ok(host, qpath, c, out@, gout),
            pend_ok(host, qpath, c, pending@, gpend),
            sep_ok(gout, gpend),
            vis_ok(visited, gpend),
            forall|i: int|
                #![trigger gout[i]]
                0 <= i < gout.len() && cd.is_prefix_of(gout[i]) ==> gout[i].len() == cd.len() + 1
                    && exists|t: int|
                    #![auto]
                    0 <= t < k && es[t].path@ == child_join_view(dq, gout[i].last()),
            forall|v: Seq<Seq<char>>| #[trigger]
                visited.contains(v) ==> v == cd || !cd.is_prefix_of(v),
            forall|j: int| #![trigger gpend[j]] 0 <= j < gpend.len() ==> !gpend[j].is_prefix_of(cd),
            forall|j: int|
                #![trigger gpend[j]]
                0 <= j < gpend.len() && cd.is_prefix_of(gpend[j]) ==> gpend[j].len() == cd.len()
                    + 1 && exists|t: int|
                    #![auto]
                    0 <= t < k && es[t].path@ == child_join_view(dq, gpend[j].last()),
            forall|f: Seq<Seq<char>>|
                #![trigger file_under(host.files(), c, f)]
                file_under(host.files(), c, f) ==> gout.contains(f) || (exists|j: int|
                    #![auto]
                    0 <= j < gpend.len() && gpend[j].is_prefix_of(f)) || (cd.is_prefix_of(f)
                    && exists|t: int|
                    #![auto]
                    k <= t < es.len() && es[t].path@ == child_join_view(dq, f[cd.len() as int])),
        decreases es.len() - k,
    {
        let gs = expand_one_level(host, Ghost(qpath), Ghost(c), Ghost(cd), Ghost(dq), &es1, k,
            out, Ghost(gout), Ghost(gpend), Ghost(visited), pending);
        proof {
            gout = gs.0@;
            gpend = gs.1@;
        }
        k = k + 1;
    }
    proof {
        assert(cov_ok(host, c, gout, gpend));
    }
    Ok((Ghost(gout), Ghost(gpend), Ghost(visited)))
}

/// Distinct collected canonical paths have distinct caller-coordinate
/// texts.
#[verifier::rlimit(100)]
proof fn lemma_out_distinct<H: Host>(
    host: &H,
    qpath: Seq<char>,
    c: Seq<Seq<char>>,
    out: Seq<String>,
    gout: Seq<Seq<Seq<char>>>,
)
    requires
        host.wf(),
        out_ok(host, qpath, c, out, gout),
    ensures
        forall|i: int, j: int|
            #![trigger out[i], out[j]]
            0 <= i < j < out.len() ==> out[i]@ != out[j]@,
{
    host.lemma_wf();
    assert forall|i: int, j: int|
        #![trigger out[i], out[j]]
        0 <= i < j < out.len() implies out[i]@ != out[j]@ by {
        if out[i]@ == out[j]@ {
            assert(file_under(host.files(), c, gout[i]));
            assert(file_under(host.files(), c, gout[j]));
            assert(all_plain(gout[i]) && all_plain(gout[j]));
            assert(all_plain(gout[i].skip(c.len() as int))) by {
                assert(forall|t: int| 0 <= t < gout[i].skip(c.len() as int).len() ==> gout[i].skip(
                    c.len() as int,
                )[t] == gout[i][t + c.len()]);
            }
            assert(all_plain(gout[j].skip(c.len() as int))) by {
                assert(forall|t: int| 0 <= t < gout[j].skip(c.len() as int).len() ==> gout[j].skip(
                    c.len() as int,
                )[t] == gout[j][t + c.len()]);
            }
            lemma_rel_join_injective(
                qpath,
                gout[i].skip(c.len() as int),
                gout[j].skip(c.len() as int),
            );
            assert(gout[i] =~= c + gout[i].skip(c.len() as int)) by {
                assert(c =~= gout[i].subrange(0, c.len() as int));
            }
            assert(gout[j] =~= c + gout[j].skip(c.len() as int)) by {
                assert(c =~= gout[j].subrange(0, c.len() as int));
            }
            assert(gout[i] == gout[j]);
            assert(false);
        }
    }
}

/// Lists every file recursively below the directory at `path`: each
/// returned path is a workspace file strictly under the directory `path`
/// resolves to, in caller coordinates. Directories themselves are not
/// returned, and no order is promised. Fails atomically: the first failing
/// listing aborts the whole walk with that error, and no partial result is
/// returned.
#[verifier::loop_isolation(false)]
#[verifier::rlimit(100)]
pub fn list_all_files<H: Host>(host: &H, path: &str) -> (r: Result<Vec<String>, HostError>)
    requires
        host.wf(),
    ensures
        match r {
            Ok(out) => {
                let rm = host.resolve_model(path@);
                &&& rm is Some
                &&& host.dirs().contains(rm->Some_0)
                &&& yields_files_under(host.files(), path@, rm->Some_0, out@)
                &&& covers_files_under(host.files(), path@, rm->Some_0, out@)
                &&& forall|i: int, j: int|
                    #![trigger out@[i], out@[j]]
                    0 <= i < j < out@.len() ==> out@[i]@ != out@[j]@
            },
            Err(e) => match e {
                HostError::OutsideWorkspace { path: p } => p@ == path@ && host.resolve_model(
                    path@,
                ) is None,
                HostError::NotFound { path: p } => p@ == path@ && host.resolve_model(path@) is Some
                    && !host.files().dom().contains(host.resolve_model(path@)->Some_0)
                    && !host.dirs().contains(host.resolve_model(path@)->Some_0),
                HostError::IoFailure { .. } => host.resolve_model(path@) is Some,
                HostError::InvalidPath { .. } => false,
            },
        },
        host.resolve_model(path@) is None ==> r is Err,
        (host.resolve_model(path@) is Some && !host.dirs().contains(
            host.resolve_model(path@)->Some_0,
        ) && !host.files().dom().contains(host.resolve_model(path@)->Some_0)) ==> (r is Err
            && r->Err_0 is NotFound),
        (host.infallible() && host.resolve_model(path@) is Some && host.dirs().contains(
            host.resolve_model(path@)->Some_0,
        )) ==> r is Ok,
{
    proof {
        host.lemma_wf();
    }
    let first = host.list(path);
    let es0 = match first {
        Err(e) => {
            return Err(e);
        },
        Ok(es) => es,
    };
    let ghost rm = host.resolve_model(path@);
    let ghost c = rm->Some_0;
    let mut out: Vec<String> = Vec::new();
    let mut pending: Vec<String> = Vec::new();
    let ghost mut gout: Seq<Seq<Seq<char>>> = Seq::empty();
    let ghost mut gpend: Seq<Seq<Seq<char>>> = Seq::empty();
    let ghost mut visited: Set<Seq<Seq<char>>> = Set::empty().insert(c);
    proof {
        assert(c.skip(c.len() as int) =~= Seq::<Seq<char>>::empty());
        assert(rel_join_view(path@, c.skip(c.len() as int)) == path@);
        assert(c.is_prefix_of(c)) by {
            assert(c.subrange(0, c.len() as int) =~= c);
        }
        assert(visited.finite());
        assert(visited.subset_of(host.dirs()));
    }
    // Expand the starting directory itself.
    let ghost dq = path@;
    let ghost cd = c;
    let ghost es = es0@;
    proof {
        assert forall|f: Seq<Seq<char>>|
            file_under(host.files(), c, f) implies cd.is_prefix_of(f) && exists|t: int|
            #![auto]
            0 <= t < es.len() && es[t].path@ == child_join_view(dq, f[cd.len() as int]) by {
            lemma_dir_cover(host, dq, c, cd, es, f);
        }
    }
    let mut k: usize = 0;
    while k < es0.len()
        invariant
            es == es0@,
            k <= es.len(),
            out_ok(host, path@, c, out@, gout),
            pend_ok(host, path@, c, pending@, gpend),
            sep_ok(gout, gpend),
            vis_ok(visited, gpend),
            forall|i: int|
                #![trigger gout[i]]
                0 <= i < gout.len() && cd.is_prefix_of(gout[i]) ==> gout[i].len() == cd.len() + 1
                    && exists|t: int|
                    #![auto]
                    0 <= t < k && es[t].path@ == child_join_view(dq, gout[i].last()),
            forall|v: Seq<Seq<char>>| #[trigger]
                visited.contains(v) ==> v == cd || !cd.is_prefix_of(v),
            forall|j: int| #![trigger gpend[j]] 0 <= j < gpend.len() ==> !gpend[j].is_prefix_of(cd),
            forall|j: int|
                #![trigger gpend[j]]
                0 <= j < gpend.len() && cd.is_prefix_of(gpend[j]) ==> gpend[j].len() == cd.len()
                    + 1 && exists|t: int|
                    #![auto]
                    0 <= t < k && es[t].path@ == child_join_view(dq, gpend[j].last()),
            forall|f: Seq<Seq<char>>|
                #![trigger file_under(host.files(), c, f)]
                file_under(host.files(), c, f) ==> gout.contains(f) || (exists|j: int|
                    #![auto]
                    0 <= j < gpend.len() && gpend[j].is_prefix_of(f)) || (cd.is_prefix_of(f)
                    && exists|t: int|
                    #![auto]
                    k <= t < es.len() && es[t].path@ == child_join_view(dq, f[cd.len() as int])),
        decreases es.len() - k,
    {
        let gs = expand_one_level(host, Ghost(path@), Ghost(c), Ghost(cd), Ghost(dq), &es0, k,
            &mut out, Ghost(gout), Ghost(gpend), Ghost(visited), &mut pending);
        proof {
            gout = gs.0@;
            gpend = gs.1@;
        }
        k = k + 1;
    }
    proof {
        assert(cov_ok(host, c, gout, gpend));
    }
    // Expand pending directories until none are left.
    while pending.len() > 0
        invariant
            out_ok(host, path@, c, out@, gout),
            pend_ok(host, path@, c, pending@, gpend),
            sep_ok(gout, gpend),
            cov_ok(host, c, gout, gpend),
            vis_ok(visited, gpend),
            visited.finite(),
            visited.subset_of(host.dirs()),
        decreases host.dirs().difference(visited).len(),
    {
        let d = pending.pop().unwrap();
        let ghost cd = gpend.last();
        let ghost gpend_popped = gpend;
        let ghost vold = visited;
        proof {
            gpend = gpend.drop_last();
            assert(gpend_popped =~= gpend.push(cd));
            assert(gpend_popped[gpend.len() as int] == cd);
            assert(cd.is_prefix_of(cd)) by {
                assert(cd.subrange(0, cd.len() as int) =~= cd);
            }
            assert(!visited.contains(cd));
            assert(forall|j: int| #![trigger gpend[j]] 0 <= j < gpend.len() ==> gpend[j]
                == gpend_popped[j]);
            assert forall|i: int| #![trigger gout[i]] 0 <= i < gout.len() implies !cd
                .is_prefix_of(gout[i]) by {
                assert(gpend_popped[gpend.len() as int] == cd);
            }
            assert forall|f: Seq<Seq<char>>|
                file_under(host.files(), c, f) implies gout.contains(f) || (exists|j: int|
                #![auto]
                0 <= j < gpend.len() && gpend[j].is_prefix_of(f)) || cd.is_prefix_of(f) by {
                if !gout.contains(f) {
                    let jw = choose|j: int|
                        #![auto]
                        0 <= j < gpend_popped.len() && gpend_popped[j].is_prefix_of(f);
                    if 0 <= jw < gpend.len() {
                        assert(gpend[jw].is_prefix_of(f));
                    } else {
                        assert(gpend_popped[jw] == cd);
                    }
                }
            }
        }
        let stepped = expand_dir(host, Ghost(path@), Ghost(c), &d, Ghost(cd), &mut out,
            &mut pending, Ghost(gout), Ghost(gpend), Ghost(visited));
        match stepped {
            Err(e) => {
                return Err(e);
            },
            Ok(g) => {
                proof {
                    gout = g.0@;
                    gpend = g.1@;
                    visited = g.2@;
                    assert(host.dirs().difference(visited) =~= host.dirs().difference(
                        vold,
                    ).remove(cd));
                    vstd::set::axiom_set_difference_finite(host.dirs(), vold);
                    vstd::set::axiom_set_remove_len(host.dirs().difference(vold), cd);
                    assert(host.dirs().difference(vold).contains(cd));
                    assert(host.dirs().difference(visited).len() < host.dirs().difference(
                        vold,
                    ).len());
                }
            },
        }
    }
    proof {
        assert forall|i: int| #![trigger out@[i]] 0 <= i < out@.len() implies is_file_path_under(
            host.files(),
            path@,
            c,
            out@[i],
        ) by {
            assert(file_under(host.files(), c, gout[i]));
            assert(out@[i]@ == rel_join_view(path@, gout[i].skip(c.len() as int)));
        }
        assert(yields_files_under(host.files(), path@, c, out@));
        assert(gpend.len() == 0);
        assert forall|f: Seq<Seq<char>>|
            file_under(host.files(), c, f) implies out_contains_file(path@, c, out@, f) by {
            assert(gout.contains(f));
            let i = choose|i: int| 0 <= i < gout.len() && gout[i] == f;
            assert(out@[i]@ == rel_join_view(path@, f.skip(c.len() as int)));
        }
        assert(covers_files_under(host.files(), path@, c, out@));
        lemma_out_distinct(host, path@, c, out@, gout);
    }
    Ok(out)
}

} // verus!
