//! The workspace-root sandbox: joining caller-supplied relative paths onto a
//! fixed root, lexically normalizing them, and rejecting every resolution
//! that would land outside the root.
//!
//! `FsHost` holds the resolution logic only; performing the actual reads on a
//! backing store is left to implementations of [`crate::host::Host`].

use vstd::prelude::*;
use vstd::string::StrSliceExecFns;

use crate::errors::HostError;
use crate::paths::{
    abs_path_view, all_no_slash, all_plain, child_join_view, is_absolute, join_abs, normalize_view,
    plain_name, reduce_onto, reduce_segments, seg_views, split_path, split_segments,
    lemma_reduce_all_plain, lemma_resplit_abs, lemma_split_concat, lemma_split_no_slash,
    lemma_split_single, lemma_seg_views_push,
};

verus! {

/// Reducing on top of a prefix only depends on the prefix through its own
/// reduction.
pub proof fn lemma_reduce_concat(a: Seq<Seq<char>>, b: Seq<Seq<char>>)
    requires
        all_no_slash(a),
    ensures
        reduce_segments(a + b) == reduce_segments(reduce_segments(a) + b),
    decreases b.len(),
{
    crate::paths::lemma_reduce_all_plain(a);
    crate::paths::lemma_reduce_of_plain(reduce_segments(a));
    if b.len() == 0 {
        assert(a + b =~= a);
        assert(reduce_segments(a) + b =~= reduce_segments(a));
    } else {
        lemma_reduce_concat(a, b.drop_last());
        assert((a + b).drop_last() =~= a + b.drop_last());
        assert((a + b).last() == b.last());
        assert((reduce_segments(a) + b).drop_last() =~= reduce_segments(a) + b.drop_last());
        assert((reduce_segments(a) + b).last() == b.last());
    }
}

fn str_eq(a: &String, b: &String) -> (r: bool)
    ensures
        r == (a@ == b@),
{
    a.eq(b)
}

/// Appends clones of all of `src` onto `dst`.
fn push_all(dst: &mut Vec<String>, src: &Vec<String>)
    ensures
        seg_views(final(dst)@) == seg_views(old(dst)@) + seg_views(src@),
{
    let ghost base = seg_views(dst@);
    let ghost sv = seg_views(src@);
    proof {
        assert(base + sv.subrange(0, 0) =~= base);
    }
    let mut i: usize = 0;
    while i < src.len()
        invariant
            sv == seg_views(src@),
            sv.len() == src@.len(),
            i <= src.len(),
            seg_views(dst@) == base + sv.subrange(0, i as int),
        decreases src.len() - i,
    {
        let item = src[i].clone();
        proof {
            lemma_seg_views_push(dst@, item);
            assert((base + sv.subrange(0, i as int)).push(sv[i as int]) =~= base + sv.subrange(
                0,
                i + 1,
            ));
        }
        dst.push(item);
        i = i + 1;
    }
    proof {
        assert(sv.subrange(0, sv.len() as int) =~= sv);
    }
}

/// A host bound to one fixed workspace root; resolves caller-supplied paths
/// against it and enforces the sandbox boundary.
#[derive(Debug)]
pub struct FsHost {
    root: Vec<String>,
}

impl FsHost {
    /// The canonical segments of the workspace root.
    pub closed spec fn root_segs(&self) -> Seq<Seq<char>> {
        seg_views(self.root@)
    }

    /// The root holds only plain names; established by construction.
    pub open spec fn wf(&self) -> bool {
        all_plain(self.root_segs())
    }

    /// The joined path a caller-supplied path lands on: platform-absolute
    /// paths replace the root entirely (and are then caught by the boundary
    /// check), relative ones are appended under it.
    pub open spec fn join_under_view(root: Seq<Seq<char>>, path: Seq<char>) -> Seq<char> {
        if is_absolute(path) {
            path
        } else {
            abs_path_view(root) + seq!['/'] + path
        }
    }

    /// Lexical resolution of a caller path against a root: the canonical
    /// workspace-relative segments, or `None` when the normalized join does
    /// not stay under the root.
    pub open spec fn resolve_view(root: Seq<Seq<char>>, path: Seq<char>) -> Option<Seq<Seq<char>>> {
        let full = reduce_segments(split_path(Self::join_under_view(root, path)));
        if root.is_prefix_of(full) {
            Some(full.skip(root.len() as int))
        } else {
            None
        }
    }

    /// Binds a workspace root. The root must already be an absolute path; it
    /// is lexically normalized and kept for the host's lifetime.
    pub fn from(wksp_root: &str) -> (r: Result<FsHost, HostError>)
        ensures
            match r {
                Ok(h) => is_absolute(wksp_root@) && h.wf() && h.root_segs() == reduce_segments(
                    split_path(wksp_root@),
                ),
                Err(e) => !is_absolute(wksp_root@) && match e {
                    HostError::InvalidPath { path: p } => p@ == wksp_root@,
                    _ => false,
                },
            },
    {
        let n = wksp_root.unicode_len();
        if n == 0 || wksp_root.get_char(0) != '/' {
            return Err(HostError::InvalidPath { path: wksp_root.to_owned() });
        }
        let parts = split_segments(wksp_root);
        let mut stack: Vec<String> = Vec::new();
        proof {
            assert(seg_views(stack@) =~= Seq::<Seq<char>>::empty());
            lemma_split_no_slash(wksp_root@);
        }
        reduce_onto(&mut stack, &parts);
        proof {
            assert(Seq::<Seq<char>>::empty() + seg_views(parts@) =~= seg_views(parts@));
        }
        Ok(FsHost { root: stack })
    }

    /// Resolves a caller path to canonical workspace-relative segments, or
    /// fails with `OutsideWorkspace` exactly when the normalized join escapes
    /// the root. Performs no host access whatsoever.
    #[verifier::loop_isolation(false)]
    pub fn resolve(&self, path: &str) -> (r: Result<Vec<String>, HostError>)
        requires
            self.wf(),
        ensures
            match r {
                Ok(rel) => Self::resolve_view(self.root_segs(), path@) == Some(seg_views(rel@))
                    && all_plain(seg_views(rel@)),
                Err(e) => Self::resolve_view(self.root_segs(), path@) is None && match e {
                    HostError::OutsideWorkspace { path: p } => p@ == path@,
                    _ => false,
                },
            },
    {
        let ghost root = self.root_segs();
        let ghost joined = Self::join_under_view(root, path@);
        let n = path.unicode_len();
        let absolute = n > 0 && path.get_char(0) == '/';
        let parts = split_segments(path);
        let mut stack: Vec<String> = Vec::new();
        if !absolute {
            push_all(&mut stack, &self.root);
            proof {
                assert(Seq::<Seq<char>>::empty() + root =~= root);
            }
        }
        proof {
            lemma_split_no_slash(path@);
        }
        reduce_onto(&mut stack, &parts);
        proof {
            if absolute {
                assert(joined == path@);
                assert(Seq::<Seq<char>>::empty() + seg_views(parts@) =~= seg_views(parts@));
                assert(seg_views(stack@) == reduce_segments(split_path(joined)));
            } else {
                assert(joined == abs_path_view(root) + seq!['/'] + path@);
                lemma_split_concat(abs_path_view(root), path@);
                assert(split_path(joined) == split_path(abs_path_view(root)) + split_path(path@));
                lemma_split_no_slash(abs_path_view(root));
                lemma_reduce_concat(split_path(abs_path_view(root)), split_path(path@));
                lemma_resplit_abs(root);
                assert(seg_views(stack@) == reduce_segments(root + seg_views(parts@)));
                assert(seg_views(stack@) == reduce_segments(split_path(joined)));
            }
        }
        let ghost full = reduce_segments(split_path(joined));
        // Boundary check: the reduced result must still start with the root.
        if stack.len() < self.root.len() {
            proof {
                assert(!root.is_prefix_of(full));
            }
            return Err(HostError::OutsideWorkspace { path: path.to_owned() });
        }
        let mut k: usize = 0;
        while k < self.root.len()
            invariant
                self.wf(),
                full == seg_views(stack@),
                root == self.root_segs(),
                root.len() == self.root@.len(),
                full.len() == stack@.len(),
                stack@.len() >= self.root@.len(),
                k <= self.root.len(),
                forall|j: int| 0 <= j < k ==> full[j] == root[j],
            decreases self.root.len() - k,
        {
            if !str_eq(&stack[k], &self.root[k]) {
                proof {
                    assert(full[k as int] != root[k as int]);
                    assert(!root.is_prefix_of(full)) by {
                        if root.is_prefix_of(full) {
                            assert(full.subrange(0, root.len() as int) == root);
                            assert(full.subrange(0, root.len() as int)[k as int] == full[k as int]);
                        }
                    }
                }
                return Err(HostError::OutsideWorkspace { path: path.to_owned() });
            }
            k = k + 1;
        }
        proof {
            assert(root.is_prefix_of(full)) by {
                assert(full.subrange(0, root.len() as int) =~= root);
            }
        }
        // Strip the root prefix: what remains is workspace-relative.
        let mut rel: Vec<String> = Vec::new();
        let mut j: usize = self.root.len();
        proof {
            assert(seg_views(rel@) =~= full.subrange(root.len() as int, root.len() as int));
        }
        while j < stack.len()
            invariant
                full == seg_views(stack@),
                root == self.root_segs(),
                root.len() == self.root@.len(),
                full.len() == stack@.len(),
                self.root@.len() <= j <= stack@.len(),
                seg_views(rel@) == full.subrange(root.len() as int, j as int),
            decreases stack.len() - j,
        {
            let item = stack[j].clone();
            proof {
                lemma_seg_views_push(rel@, item);
                assert(full.subrange(root.len() as int, j as int).push(full[j as int])
                    =~= full.subrange(root.len() as int, j + 1));
            }
            rel.push(item);
            j = j + 1;
        }
        proof {
            assert(full.subrange(root.len() as int, full.len() as int) =~= full.skip(
                root.len() as int,
            ));
            assert(all_plain(full)) by {
                lemma_split_no_slash(joined);
                lemma_reduce_all_plain(split_path(joined));
            }
            assert(all_plain(seg_views(rel@))) by {
                assert(forall|t: int| 0 <= t < seg_views(rel@).len() ==> seg_views(rel@)[t]
                    == full[t + root.len()]);
            }
        }
        Ok(rel)
    }

    /// The absolute path text of a resolved workspace-relative location,
    /// for handing to a backing store.
    pub fn abs_path(&self, rel: &Vec<String>) -> (r: String)
        ensures
            r@ == abs_path_view(self.root_segs() + seg_views(rel@)),
    {
        let mut all: Vec<String> = Vec::new();
        push_all(&mut all, &self.root);
        push_all(&mut all, &rel);
        proof {
            assert(Seq::<Seq<char>>::empty() + self.root_segs() =~= self.root_segs());
        }
        join_abs(&all)
    }
}

/// A resolution that succeeds is exactly the normalized join with the root
/// prefix stripped: the sandbox boundary restated over the normalizer.
pub proof fn lemma_resolved_is_normalized(root: Seq<Seq<char>>, path: Seq<char>)
    requires
        FsHost::resolve_view(root, path) is Some,
    ensures
        normalize_view(FsHost::join_under_view(root, path)) == abs_path_view(
            root + FsHost::resolve_view(root, path)->Some_0,
        ),
{
    let full = reduce_segments(split_path(FsHost::join_under_view(root, path)));
    assert(root.is_prefix_of(full));
    assert(root + full.skip(root.len() as int) =~= full);
}

/// Resolving a listed child: appending one plain name to a path that
/// resolves extends the resolved segments by exactly that name.
pub proof fn lemma_resolve_child(root: Seq<Seq<char>>, path: Seq<char>, name: Seq<char>)
    requires
        all_plain(root),
        plain_name(name),
        FsHost::resolve_view(root, path) is Some,
    ensures
        FsHost::resolve_view(root, child_join_view(path, name)) == Some(
            FsHost::resolve_view(root, path)->Some_0.push(name),
        ),
{
    let joined_p = FsHost::join_under_view(root, path);
    let full_p = reduce_segments(split_path(joined_p));
    let child = child_join_view(path, name);
    assert(!is_absolute(name)) by {
        assert(name[0] != '/');
    }
    if path.len() == 0 {
        // child is just the name, resolved under the root
        assert(child == name);
        let joined_c = FsHost::join_under_view(root, child);
        assert(joined_c == abs_path_view(root) + seq!['/'] + name);
        lemma_split_concat(abs_path_view(root), name);
        lemma_split_single(name);
        lemma_split_no_slash(abs_path_view(root));
        lemma_reduce_concat(split_path(abs_path_view(root)), seq![name]);
        lemma_resplit_abs(root);
        let whole = root + seq![name];
        assert(split_path(joined_c) == split_path(abs_path_view(root)) + seq![name]);
        assert(reduce_segments(split_path(joined_c)) == reduce_segments(whole));
        assert(whole.drop_last() =~= root);
        assert(whole.last() == name);
        crate::paths::lemma_reduce_of_plain(root);
        assert(reduce_segments(whole) == root.push(name));
        // the starting path resolves to the workspace root itself
        assert(joined_p == abs_path_view(root) + seq!['/'] + path);
        assert(joined_p =~= abs_path_view(root) + seq!['/'] + Seq::<char>::empty());
        lemma_split_concat(abs_path_view(root), Seq::<char>::empty());
        assert(split_path(Seq::<char>::empty()) == seq![Seq::<char>::empty()]);
        lemma_reduce_concat(split_path(abs_path_view(root)), seq![Seq::<char>::empty()]);
        let rootish = root + seq![Seq::<char>::empty()];
        assert(reduce_segments(split_path(joined_p)) == reduce_segments(rootish));
        assert(rootish.drop_last() =~= root);
        assert(rootish.last() == Seq::<char>::empty());
        assert(reduce_segments(rootish) == root);
        assert(full_p == root);
        assert(root.is_prefix_of(root)) by {
            assert(root.subrange(0, root.len() as int) =~= root);
        }
        assert(FsHost::resolve_view(root, path)->Some_0 =~= Seq::<Seq<char>>::empty());
        assert(root.is_prefix_of(root.push(name))) by {
            assert(root.push(name).subrange(0, root.len() as int) =~= root);
        }
        assert(root.push(name).skip(root.len() as int) =~= Seq::<Seq<char>>::empty().push(name));
    } else {
        assert(child == path + seq!['/'] + name);
        assert(child.len() > 0);
        assert(child[0] == path[0]);
        assert(is_absolute(child) == is_absolute(path));
        let joined_c = FsHost::join_under_view(root, child);
        assert(joined_c =~= joined_p + seq!['/'] + name);
        lemma_split_concat(joined_p, name);
        lemma_split_single(name);
        assert(split_path(joined_c) == split_path(joined_p) + seq![name]);
        let whole = split_path(joined_p) + seq![name];
        assert(whole.drop_last() =~= split_path(joined_p));
        assert(whole.last() == name);
        assert(reduce_segments(whole) == full_p.push(name));
        assert(root.is_prefix_of(full_p));
        assert(root.is_prefix_of(full_p.push(name))) by {
            assert(full_p.push(name).subrange(0, root.len() as int) =~= full_p.subrange(
                0,
                root.len() as int,
            ));
        }
        assert(full_p.push(name).skip(root.len() as int) =~= full_p.skip(root.len() as int).push(
            name,
        ));
    }
}

} // verus!
