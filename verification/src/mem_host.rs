//! An in-memory fixture host: workspace content held as plain values, behind
//! the same interface and the same sandbox resolution as a real store.
//!
//! The fixture is built from a list of `(path, contents)` pairs, the way a
//! scratch directory would be populated, and then serves reads and listings
//! without any I/O.

use vstd::prelude::*;
use vstd::string::StringExecFns;

use crate::errors::HostError;
use crate::fs_host::FsHost;
use crate::host::{Entry, EntryKind, Host};
use crate::paths::{
    all_no_slash, all_plain, child_join, child_join_view, plain_name, reduce_onto,
    reduce_segments, seg_views, split_path, split_segments, lemma_split_no_slash,
};

verus! {

/// What one fixture entry creates: a file with the given contents, or an
/// empty directory.
#[derive(Debug, Clone)]
pub enum TestContents {
    File(String),
    Directory,
}

/// The error of fixture construction: two entries collide, most often the
/// same file provided twice.
#[derive(Debug, Clone, PartialEq, Eq)]
pub struct DuplicateFileError {
    /// The human-readable description of the collision.
    pub message: String,
}

/// The canonical segments a fixture path creates, relative to the fixture
/// root (`.`/`..`/empty segments resolved lexically, `..` clamped at the
/// root).
pub open spec fn item_canon(items: Seq<(String, TestContents)>, j: int) -> Seq<Seq<char>> {
    reduce_segments(split_path(items[j].0@))
}

/// Whether the `j`-th fixture entry is a file.
pub open spec fn item_is_file(items: Seq<(String, TestContents)>, j: int) -> bool {
    items[j].1 is File
}

/// The contents of the `j`-th fixture entry (empty for a directory).
pub open spec fn item_contents(items: Seq<(String, TestContents)>, j: int) -> Seq<char> {
    match items[j].1 {
        TestContents::File(c) => c@,
        TestContents::Directory => Seq::<char>::empty(),
    }
}

/// The entries collide: some file entry sits at the fixture root, or on the
/// path of (or exactly at) another entry. In particular, a file provided
/// twice collides with itself.
pub open spec fn items_collide(items: Seq<(String, TestContents)>) -> bool {
    ||| exists|j: int| #![auto] 0 <= j < items.len() && item_is_file(items, j) && item_canon(items, j).len() == 0
    ||| exists|j1: int, j2: int|
        #![auto]
        0 <= j1 < items.len() && 0 <= j2 < items.len() && j1 != j2 && item_is_file(items, j1)
            && item_canon(items, j1).is_prefix_of(item_canon(items, j2))
}

/// The canonical directories the entries create: every proper prefix of an
/// entry's canonical path, and a directory entry's canonical path itself.
pub open spec fn wanted_dir(items: Seq<(String, TestContents)>, s: Seq<Seq<char>>) -> bool {
    exists|j: int, k: int|
        #![auto]
        0 <= j < items.len() && 1 <= k <= item_canon(items, j).len() && s == item_canon(
            items,
            j,
        ).take(k) && (k < item_canon(items, j).len() || !item_is_file(items, j))
}

/// `s` is the canonical path of some file entry.
pub open spec fn some_file_item(items: Seq<(String, TestContents)>, s: Seq<Seq<char>>) -> bool {
    exists|t: int|
        #![auto]
        0 <= t < items.len() && item_is_file(items, t) && item_canon(items, t) == s
}

/// The message of a collision error: it names one of the given entries'
/// paths and says how it collided.
pub open spec fn collision_message(items: Seq<(String, TestContents)>, msg: Seq<char>) -> bool {
    exists|j: int|
        #![auto]
        0 <= j < items.len() && {
            ||| msg == "File `"@ + items[j].0@ + "` was provided twice."@
            ||| msg == "File `"@ + items[j].0@ + "` collides with another fixture entry."@
            ||| msg == "File `"@ + items[j].0@ + "` would overwrite the fixture root."@
        }
}

#[derive(Debug)]
struct MemNode {
    segs: Vec<String>,
    is_file: bool,
    contents: String,
}

/// Some node of `nodes` is a file at exactly `s`.
spec fn has_file_node_at(nodes: Seq<MemNode>, s: Seq<Seq<char>>) -> bool {
    exists|i: int|
        #![auto]
        0 <= i < nodes.len() && seg_views(nodes[i].segs@) == s && nodes[i].is_file
}

/// Some node of `nodes` is a directory at exactly `s`.
spec fn has_dir_node_at(nodes: Seq<MemNode>, s: Seq<Seq<char>>) -> bool {
    exists|i: int|
        #![auto]
        0 <= i < nodes.len() && seg_views(nodes[i].segs@) == s && !nodes[i].is_file
}

/// A `Host` over in-memory content, bound to a sandbox exactly like a real
/// store.
#[derive(Debug)]
pub struct MemHost {
    sandbox: FsHost,
    nodes: Vec<MemNode>,
}

impl MemHost {
    /// The canonical segments of the fixture's workspace root.
    pub closed spec fn root(&self) -> Seq<Seq<char>> {
        self.sandbox.root_segs()
    }

    spec fn nv(&self, i: int) -> Seq<Seq<char>> {
        seg_views(self.nodes@[i].segs@)
    }

    spec fn has_file_node(&self, s: Seq<Seq<char>>) -> bool {
        exists|i: int|
            #![auto]
            0 <= i < self.nodes@.len() && self.nv(i) == s && self.nodes@[i].is_file
    }

    spec fn has_dir_node(&self, s: Seq<Seq<char>>) -> bool {
        exists|i: int|
            #![auto]
            0 <= i < self.nodes@.len() && self.nv(i) == s && !self.nodes@[i].is_file
    }

    spec fn file_idx(&self, s: Seq<Seq<char>>) -> int {
        choose|i: int|
            #![auto]
            0 <= i < self.nodes@.len() && self.nv(i) == s && self.nodes@[i].is_file
    }

    spec fn nodes_wf(&self) -> bool {
        &&& forall|i: int|
            #![trigger self.nv(i)]
            0 <= i < self.nodes@.len() ==> all_plain(self.nv(i)) && self.nv(i).len() >= 1
        &&& forall|i1: int, i2: int|
            #![trigger self.nv(i1), self.nv(i2)]
            0 <= i1 < i2 < self.nodes@.len() ==> self.nv(i1) != self.nv(i2)
        &&& forall|i: int, m: int|
            #![trigger self.nv(i).take(m)]
            0 <= i < self.nodes@.len() && 1 <= m < self.nv(i).len() ==> self.has_dir_node(
                self.nv(i).take(m),
            )
    }
}

impl Host for MemHost {
    open spec fn resolve_model(&self, path: Seq<char>) -> Option<Seq<Seq<char>>> {
        FsHost::resolve_view(self.root(), path)
    }

    closed spec fn files(&self) -> Map<Seq<Seq<char>>, Seq<char>> {
        Map::new(
            |s: Seq<Seq<char>>| self.has_file_node(s),
            |s: Seq<Seq<char>>| self.nodes@[self.file_idx(s)].contents@,
        )
    }

    closed spec fn dirs(&self) -> Set<Seq<Seq<char>>> {
        Set::new(|s: Seq<Seq<char>>| s == Seq::<Seq<char>>::empty() || self.has_dir_node(s))
    }

    closed spec fn wf(&self) -> bool {
        self.sandbox.wf() && self.nodes_wf()
    }

    open spec fn infallible(&self) -> bool {
        true
    }

    proof fn lemma_wf(&self)
    {
        assert(self.dirs().contains(Seq::<Seq<char>>::empty()));
        // finitely many directories: all come from the node list
        let sup = self.nodes@.map_values(|n: MemNode| seg_views(n.segs@)).to_set().insert(
            Seq::<Seq<char>>::empty(),
        );
        vstd::seq_lib::seq_to_set_is_finite(
            self.nodes@.map_values(|n: MemNode| seg_views(n.segs@)),
        );
        assert(self.dirs().subset_of(sup)) by {
            assert forall|s: Seq<Seq<char>>| self.dirs().contains(s) implies sup.contains(s) by {
                if s != Seq::<Seq<char>>::empty() {
                    let i = choose|i: int|
                        #![auto]
                        0 <= i < self.nodes@.len() && self.nv(i) == s && !self.nodes@[i].is_file;
                    assert(self.nodes@.map_values(|n: MemNode| seg_views(n.segs@))[i] == s);
                    assert(self.nodes@.map_values(|n: MemNode| seg_views(n.segs@)).to_set()
                        .contains(s));
                }
            }
        }
        vstd::set_lib::lemma_set_subset_finite(sup, self.dirs());
        assert forall|f: Seq<Seq<char>>| #[trigger]
            self.files().dom().contains(f) implies !self.dirs().contains(f) && all_plain(f)
            && f.len() >= 1 by {
            let i = choose|i: int|
                #![auto]
                0 <= i < self.nodes@.len() && self.nv(i) == f && self.nodes@[i].is_file;
            assert(all_plain(self.nv(i)));
            if self.has_dir_node(f) {
                let i2 = choose|i2: int|
                    #![auto]
                    0 <= i2 < self.nodes@.len() && self.nv(i2) == f && !self.nodes@[i2].is_file;
                assert(i != i2);
                assert(self.nv(i) == self.nv(i2));
                assert(false);
            }
        }
        assert forall|d: Seq<Seq<char>>| #[trigger] self.dirs().contains(d) implies all_plain(
            d,
        ) by {
            if d != Seq::<Seq<char>>::empty() {
                let i = choose|i: int|
                    #![auto]
                    0 <= i < self.nodes@.len() && self.nv(i) == d && !self.nodes@[i].is_file;
                assert(all_plain(self.nv(i)));
            }
        }
        assert forall|f: Seq<Seq<char>>, k: int|
            self.files().dom().contains(f) && 0 < k < f.len() implies self.dirs().contains(
            #[trigger] f.take(k),
        ) by {
            let i = choose|i: int|
                #![auto]
                0 <= i < self.nodes@.len() && self.nv(i) == f && self.nodes@[i].is_file;
            assert(self.has_dir_node(self.nv(i).take(k)));
        }
    }

    proof fn lemma_resolve_extend(&self, path: Seq<char>, name: Seq<char>)
    {
        crate::fs_host::lemma_resolve_child(self.root(), path, name);
    }

    fn read_to_string(&self, path: &str) -> (r: Result<String, HostError>)
    {
        let rel = match self.sandbox.resolve(path) {
            Err(e) => {
                return Err(e);
            },
            Ok(rel) => rel,
        };
        let ghost c = seg_views(rel@);
        match find_node(&self.nodes, &rel) {
            Some(i) => {
                let node = &self.nodes[i];
                if node.is_file {
                    proof {
                        assert(self.nv(i as int) == c && self.nodes@[i as int].is_file);
                        assert(self.has_file_node(c));
                        let i2 = self.file_idx(c);
                        assert(0 <= i2 < self.nodes@.len() && self.nv(i2) == c
                            && self.nodes@[i2].is_file);
                        assert(i2 == i) by {
                            if i2 < i {
                                assert(self.nv(i2) != self.nv(i as int));
                            }
                            if i < i2 {
                                assert(self.nv(i as int) != self.nv(i2));
                            }
                        }
                        assert(self.files().dom().contains(c));
                        assert(self.files()[c] == self.nodes@[i as int].contents@);
                    }
                    Ok(node.contents.clone())
                } else {
                    proof {
                        assert(self.nv(i as int) == c && !self.nodes@[i as int].is_file);
                        assert(self.has_dir_node(c));
                        assert(self.dirs().contains(c));
                        if self.has_file_node(c) {
                            let i2 = choose|i2: int|
                                #![auto]
                                0 <= i2 < self.nodes@.len() && self.nv(i2) == c
                                    && self.nodes@[i2].is_file;
                            assert(i2 != i && self.nv(i2) == self.nv(i as int));
                            assert(false);
                        }
                    }
                    Err(
                        HostError::IoFailure {
                            path: path.to_owned(),
                            detail: "is a directory".to_owned(),
                        },
                    )
                }
            },
            None => {
                if rel.len() == 0 {
                    proof {
                        assert(c =~= Seq::<Seq<char>>::empty());
                        assert(self.dirs().contains(c));
                        assert(!self.has_file_node(c)) by {
                            if self.has_file_node(c) {
                                let i = choose|i: int|
                                    #![auto]
                                    0 <= i < self.nodes@.len() && self.nv(i) == c
                                        && self.nodes@[i].is_file;
                                assert(self.nv(i).len() >= 1);
                            }
                        }
                    }
                    Err(
                        HostError::IoFailure {
                            path: path.to_owned(),
                            detail: "is a directory".to_owned(),
                        },
                    )
                } else {
                    proof {
                        assert(!self.has_file_node(c));
                        assert(!self.has_dir_node(c));
                        assert(c.len() == rel@.len());
                        assert(c != Seq::<Seq<char>>::empty());
                        assert(!self.dirs().contains(c));
                    }
                    Err(HostError::NotFound { path: path.to_owned() })
                }
            },
        }
    }

    #[verifier::loop_isolation(false)]
    #[verifier::rlimit(100)]
    fn list(&self, path: &str) -> (r: Result<Vec<Entry>, HostError>)
    {
        let rel = match self.sandbox.resolve(path) {
            Err(e) => {
                return Err(e);
            },
            Ok(rel) => rel,
        };
        let ghost c = seg_views(rel@);
        let is_root = rel.len() == 0;
        if !is_root {
            match find_node(&self.nodes, &rel) {
                Some(i) => {
                    if self.nodes[i].is_file {
                        proof {
                            assert(self.nv(i as int) == c && self.nodes@[i as int].is_file);
                            assert(self.has_file_node(c));
                            assert(self.files().dom().contains(c));
                            if self.dirs().contains(c) {
                                let i2 = choose|i2: int|
                                    #![auto]
                                    0 <= i2 < self.nodes@.len() && self.nv(i2) == c
                                        && !self.nodes@[i2].is_file;
                                assert(i2 != i && self.nv(i2) == self.nv(i as int));
                                assert(false);
                            }
                        }
                        return Err(
                            HostError::IoFailure {
                                path: path.to_owned(),
                                detail: "not a directory".to_owned(),
                            },
                        );
                    }
                    proof {
                        assert(self.nv(i as int) == c && !self.nodes@[i as int].is_file);
                        assert(self.has_dir_node(c));
                        assert(self.dirs().contains(c));
                    }
                },
                None => {
                    proof {
                        assert(!self.has_file_node(c));
                        assert(!self.has_dir_node(c));
                        assert(c.len() == rel@.len());
                        assert(!self.dirs().contains(c));
                        assert(!self.files().dom().contains(c));
                    }
                    return Err(HostError::NotFound { path: path.to_owned() });
                },
            }
        } else {
            proof {
                assert(c =~= Seq::<Seq<char>>::empty());
                assert(self.dirs().contains(c));
            }
        }
        let mut es: Vec<Entry> = Vec::new();
        let ghost mut gnames: Seq<Seq<char>> = Seq::empty();
        let mut i: usize = 0;
        while i < self.nodes.len()
            invariant
                c == seg_views(rel@),
                i <= self.nodes@.len(),
                es@.len() == gnames.len(),
                forall|t: int|
                    #![trigger gnames[t]]
                    0 <= t < gnames.len() ==> plain_name(gnames[t]) && es@[t].path@
                        == child_join_view(path@, gnames[t]) && (match es@[t].kind {
                        EntryKind::File => self.files().dom().contains(c.push(gnames[t])),
                        EntryKind::Directory => self.dirs().contains(c.push(gnames[t])),
                    }),
                forall|t1: int, t2: int|
                    #![trigger gnames[t1], gnames[t2]]
                    0 <= t1 < t2 < gnames.len() ==> gnames[t1] != gnames[t2],
                forall|t: int, i2: int|
                    #![trigger gnames[t], self.nv(i2)]
                    0 <= t < gnames.len() ==> !(0 <= i2 < self.nodes@.len() && i <= i2
                        && self.nv(i2) == c.push(gnames[t])),
                forall|i2: int|
                    #![trigger self.nv(i2)]
                    0 <= i2 < i && self.nv(i2).len() == c.len() + 1 && c.is_prefix_of(self.nv(i2))
                        ==> exists|t: int| #![auto] 0 <= t < gnames.len() && c.push(gnames[t])
                        == self.nv(i2),
            decreases self.nodes@.len() - i,
        {
            let node = &self.nodes[i];
            if node.segs.len() > 0 && node.segs.len() - 1 == rel.len() && is_prefix_exec(
                &rel,
                &node.segs,
            ) {
                let name = &node.segs[rel.len()];
                proof {
                    assert(self.nv(i as int) =~= c.push(name@)) by {
                        assert(c =~= self.nv(i as int).subrange(0, c.len() as int));
                    }
                    assert(plain_name(name@)) by {
                        assert(all_plain(self.nv(i as int)));
                        assert(self.nv(i as int)[c.len() as int] == name@);
                    }
                    // a node for this name has not been seen yet
                    assert forall|t: int| 0 <= t < gnames.len() implies gnames[t] != name@ by {
                        if gnames[t] == name@ {
                            assert(self.nv(i as int) == c.push(gnames[t]));
                        }
                    }
                    if self.nodes@[i as int].is_file {
                        assert(self.has_file_node(c.push(name@)));
                        assert(self.files().dom().contains(c.push(name@)));
                    } else {
                        assert(self.has_dir_node(c.push(name@)));
                        assert(self.dirs().contains(c.push(name@)));
                    }
                }
                let epath = child_join(path, name.as_str());
                let kind = if node.is_file {
                    EntryKind::File
                } else {
                    EntryKind::Directory
                };
                es.push(Entry { path: epath, kind });
                let ghost old_gnames = gnames;
                proof {
                    gnames = gnames.push(name@);
                    assert(gnames[gnames.len() - 1] == name@);
                    assert(forall|t: int| 0 <= t < old_gnames.len() ==> gnames[t]
                        == old_gnames[t]);
                    assert forall|i2: int|
                        0 <= i2 < i + 1 && self.nv(i2).len() == c.len() + 1 && c.is_prefix_of(
                            self.nv(i2),
                        ) implies exists|t: int|
                        #![auto]
                        0 <= t < gnames.len() && c.push(gnames[t]) == self.nv(i2) by {
                        if i2 == i {
                            assert(c.push(gnames[gnames.len() - 1]) == self.nv(i2));
                        } else {
                            let t = choose|t: int|
                                #![auto]
                                0 <= t < old_gnames.len() && c.push(old_gnames[t]) == self.nv(
                                    i2,
                                );
                            assert(c.push(gnames[t]) == self.nv(i2));
                        }
                    }
                    assert forall|t: int, i2: int|
                        #![trigger gnames[t], self.nv(i2)]
                        0 <= t < gnames.len() implies !(0 <= i2 < self.nodes@.len() && i + 1 <= i2
                        && self.nv(i2) == c.push(gnames[t])) by {
                        if 0 <= i2 < self.nodes@.len() && i + 1 <= i2 && self.nv(i2) == c.push(
                            gnames[t],
                        ) {
                            if t < gnames.len() - 1 {
                            } else {
                                assert(gnames[t] == name@);
                                assert(self.nv(i2) == self.nv(i as int));
                                assert(false);
                            }
                        }
                    }
                }
            } else {
                proof {
                    assert(!(self.nv(i as int).len() == c.len() + 1 && c.is_prefix_of(
                        self.nv(i as int),
                    ))) by {
                        if self.nv(i as int).len() == c.len() + 1 && c.is_prefix_of(
                            self.nv(i as int),
                        ) {
                            assert(seg_views(rel@).is_prefix_of(seg_views(node.segs@)));
                        }
                    }
                }
            }
            i = i + 1;
        }
        proof {
            // the collected entries are exactly the children of c
            assert forall|n: Seq<char>|
                crate::host::is_child_name(self.files(), self.dirs(), c, n) implies exists|t: int|
                #![auto]
                0 <= t < es@.len() && es@[t].path@ == child_join_view(path@, n) by {
                if self.files().dom().contains(c.push(n)) {
                    let i2 = choose|i2: int|
                        #![auto]
                        0 <= i2 < self.nodes@.len() && self.nv(i2) == c.push(n)
                            && self.nodes@[i2].is_file;
                    assert(self.nv(i2).len() == c.len() + 1);
                    assert(c.is_prefix_of(self.nv(i2))) by {
                        assert(self.nv(i2).subrange(0, c.len() as int) =~= c);
                    }
                    let t = choose|t: int|
                        #![auto]
                        0 <= t < gnames.len() && c.push(gnames[t]) == self.nv(i2);
                    assert((c.push(gnames[t])).last() == gnames[t]);
                    assert((c.push(n)).last() == n);
                    assert(gnames[t] == n);
                    assert(es@[t].path@ == child_join_view(path@, n));
                } else {
                    let i2 = choose|i2: int|
                        #![auto]
                        0 <= i2 < self.nodes@.len() && self.nv(i2) == c.push(n)
                            && !self.nodes@[i2].is_file;
                    assert(self.nv(i2).len() == c.len() + 1);
                    assert(c.is_prefix_of(self.nv(i2))) by {
                        assert(self.nv(i2).subrange(0, c.len() as int) =~= c);
                    }
                    let t = choose|t: int|
                        #![auto]
                        0 <= t < gnames.len() && c.push(gnames[t]) == self.nv(i2);
                    assert((c.push(gnames[t])).last() == gnames[t]);
                    assert((c.push(n)).last() == n);
                    assert(gnames[t] == n);
                    assert(es@[t].path@ == child_join_view(path@, n));
                }
            }
            assert forall|t: int|
                0 <= t < es@.len() implies crate::host::entry_matches(
                self.files(),
                self.dirs(),
                path@,
                c,
                #[trigger] es@[t],
            ) by {
                assert(plain_name(gnames[t]) && es@[t].path@ == child_join_view(
                    path@,
                    gnames[t],
                ));
            }
            assert forall|t1: int, t2: int|
                0 <= t1 < t2 < es@.len() implies es@[t1].path@ != es@[t2].path@ by {
                if es@[t1].path@ == es@[t2].path@ {
                    crate::paths::lemma_child_join_injective(path@, gnames[t1], gnames[t2]);
                }
            }
        }
        Ok(es)
    }
}

fn str_eq(a: &String, b: &String) -> (r: bool)
    ensures
        r == (a@ == b@),
{
    a.eq(b)
}

/// Whether `a`'s segments are a prefix of `b`'s.
fn is_prefix_exec(a: &Vec<String>, b: &Vec<String>) -> (r: bool)
    ensures
        r == seg_views(a@).is_prefix_of(seg_views(b@)),
{
    let ghost av = seg_views(a@);
    let ghost bv = seg_views(b@);
    if a.len() > b.len() {
        return false;
    }
    let mut k: usize = 0;
    while k < a.len()
        invariant
            av == seg_views(a@),
            bv == seg_views(b@),
            av.len() == a@.len(),
            bv.len() == b@.len(),
            a@.len() <= b@.len(),
            k <= a@.len(),
            forall|m: int| 0 <= m < k ==> av[m] == bv[m],
        decreases a@.len() - k,
    {
        if !str_eq(&a[k], &b[k]) {
            proof {
                assert(av[k as int] != bv[k as int]);
                if av.is_prefix_of(bv) {
                    assert(av =~= bv.subrange(0, av.len() as int));
                    assert(av[k as int] == bv[k as int]);
                }
            }
            return false;
        }
        k = k + 1;
    }
    proof {
        assert(av =~= bv.subrange(0, av.len() as int));
    }
    true
}

/// Looks a canonical path up among the nodes.
fn find_node(nodes: &Vec<MemNode>, segs: &Vec<String>) -> (r: Option<usize>)
    ensures
        match r {
            Some(i) => i < nodes@.len() && seg_views(nodes@[i as int].segs@) == seg_views(segs@),
            None => forall|i: int|
                #![trigger nodes@[i]]
                0 <= i < nodes@.len() ==> seg_views(nodes@[i].segs@) != seg_views(segs@),
        },
{
    let ghost sv = seg_views(segs@);
    let mut i: usize = 0;
    while i < nodes.len()
        invariant
            sv == seg_views(segs@),
            i <= nodes@.len(),
            forall|m: int|
                #![trigger nodes@[m]]
                0 <= m < i ==> seg_views(nodes@[m].segs@) != sv,
        decreases nodes@.len() - i,
    {
        let node = &nodes[i];
        if node.segs.len() == segs.len() && is_prefix_exec(&node.segs, &segs) {
            proof {
                assert(seg_views(node.segs@) =~= sv) by {
                    assert(seg_views(node.segs@).is_prefix_of(sv));
                    assert(seg_views(node.segs@) =~= sv.subrange(
                        0,
                        seg_views(node.segs@).len() as int,
                    ));
                    assert(sv.subrange(0, sv.len() as int) =~= sv);
                }
            }
            return Some(i);
        }
        proof {
            if seg_views(node.segs@) == sv {
                assert(seg_views(node.segs@).is_prefix_of(sv)) by {
                    assert(seg_views(node.segs@) =~= sv.subrange(0, sv.len() as int));
                }
                assert(false);
            }
        }
        i = i + 1;
    }
    None
}


/// One node is explained by one fixture entry: it sits on (or at the end
/// of) the entry's canonical path; a file node sits exactly at a file entry
/// already processed (one with index below `jb`), a directory node never
/// sits at a processed file entry's end.
spec fn node_from(items: Seq<(String, TestContents)>, node: MemNode, jb: int) -> bool {
    exists|j: int, k: int|
        #![auto]
        {
            &&& 0 <= j < items.len()
            &&& 1 <= k <= item_canon(items, j).len()
            &&& seg_views(node.segs@) == item_canon(items, j).take(k)
            &&& if node.is_file {
                k == item_canon(items, j).len() && item_is_file(items, j) && j < jb
                    && node.contents@ == item_contents(items, j)
            } else {
                k < item_canon(items, j).len() || !item_is_file(items, j)
            }
        }
}

/// Every node is explained by some fixture entry.
spec fn nodes_from(items: Seq<(String, TestContents)>, nodes: Seq<MemNode>, jb: int) -> bool {
    forall|i: int| #![trigger nodes[i]] 0 <= i < nodes.len() ==> node_from(items, nodes[i], jb)
}

proof fn lemma_nodes_from_grow(
    items: Seq<(String, TestContents)>,
    pre: Seq<MemNode>,
    nodes: Seq<MemNode>,
    jb1: int,
    jb2: int,
)
    requires
        nodes_from(items, pre, jb1),
        jb1 <= jb2,
        forall|i: int| #![trigger nodes[i]] 0 <= i < pre.len() ==> nodes[i] == pre[i],
        pre.len() <= nodes.len(),
        forall|i: int|
            #![trigger nodes[i]]
            pre.len() <= i < nodes.len() ==> node_from(items, nodes[i], jb2),
    ensures
        nodes_from(items, nodes, jb2),
{
    assert forall|i: int| #![trigger nodes[i]] 0 <= i < nodes.len() implies node_from(
        items,
        nodes[i],
        jb2,
    ) by {
        if i < pre.len() {
            assert(node_from(items, pre[i], jb1));
            let (j, k) = choose|j: int, k: int|
                #![auto]
                {
                    &&& 0 <= j < items.len()
                    &&& 1 <= k <= item_canon(items, j).len()
                    &&& seg_views(pre[i].segs@) == item_canon(items, j).take(k)
                    &&& if pre[i].is_file {
                        k == item_canon(items, j).len() && item_is_file(items, j) && j < jb1
                            && pre[i].contents@ == item_contents(items, j)
                    } else {
                        k < item_canon(items, j).len() || !item_is_file(items, j)
                    }
                };
            assert(node_from(items, nodes[i], jb2));
        }
    }
}

/// Carries the construction's completeness facts one entry forward: after
/// entry `j` is placed (its proper prefixes as directories, its own node of
/// the right kind), every entry up to and including `j` is represented.
proof fn lemma_carry_completeness(
    items: Seq<(String, TestContents)>,
    nodes_head: Seq<MemNode>,
    nodes_mid: Seq<MemNode>,
    nodes: Seq<MemNode>,
    j: int,
    cj: Seq<Seq<char>>,
    is_file: bool,
)
    requires
        0 <= j < items.len(),
        cj == item_canon(items, j),
        is_file == item_is_file(items, j),
        nodes_head.len() <= nodes.len(),
        nodes_mid.len() <= nodes.len(),
        forall|i: int| #![trigger nodes[i]] 0 <= i < nodes_head.len() ==> nodes[i] == nodes_head[i],
        forall|i: int| #![trigger nodes[i]] 0 <= i < nodes_mid.len() ==> nodes[i] == nodes_mid[i],
        forall|t: int|
            #![trigger item_is_file(items, t)]
            0 <= t < j && item_is_file(items, t) ==> has_file_node_at(
                nodes_head,
                item_canon(items, t),
            ),
        forall|t: int, m: int|
            #![trigger item_canon(items, t).take(m)]
            0 <= t < j && 1 <= m <= item_canon(items, t).len() && (m < item_canon(items, t).len()
                || !item_is_file(items, t)) ==> has_dir_node_at(
                nodes_head,
                item_canon(items, t).take(m),
            ),
        forall|m: int| #![trigger cj.take(m)] 1 <= m < cj.len() ==> has_dir_node_at(
            nodes_mid,
            cj.take(m),
        ),
        is_file ==> has_file_node_at(nodes, cj),
        !is_file && cj.len() > 0 ==> has_dir_node_at(nodes, cj),
        is_file ==> cj.len() > 0,
    ensures
        forall|t: int|
            #![trigger item_is_file(items, t)]
            0 <= t < j + 1 && item_is_file(items, t) ==> has_file_node_at(
                nodes,
                item_canon(items, t),
            ),
        forall|t: int, m: int|
            #![trigger item_canon(items, t).take(m)]
            0 <= t < j + 1 && 1 <= m <= item_canon(items, t).len() && (m < item_canon(
                items,
                t,
            ).len() || !item_is_file(items, t)) ==> has_dir_node_at(
                nodes,
                item_canon(items, t).take(m),
            ),
{
    assert forall|t: int|
        #![trigger item_is_file(items, t)]
        0 <= t < j + 1 && item_is_file(items, t) implies has_file_node_at(
        nodes,
        item_canon(items, t),
    ) by {
        if t < j {
            let i = choose|i: int|
                #![auto]
                0 <= i < nodes_head.len() && seg_views(nodes_head[i].segs@) == item_canon(
                    items,
                    t,
                ) && nodes_head[i].is_file;
            assert(nodes[i] == nodes_head[i]);
            assert(0 <= i < nodes.len() && seg_views(nodes[i].segs@) == item_canon(items, t)
                && nodes[i].is_file);
        } else {
            assert(has_file_node_at(nodes, cj));
        }
    }
    assert forall|t: int, m: int|
        #![trigger item_canon(items, t).take(m)]
        0 <= t < j + 1 && 1 <= m <= item_canon(items, t).len() && (m < item_canon(
            items,
            t,
        ).len() || !item_is_file(items, t)) implies has_dir_node_at(
        nodes,
        item_canon(items, t).take(m),
    ) by {
        if t < j {
            let i = choose|i: int|
                #![auto]
                0 <= i < nodes_head.len() && seg_views(nodes_head[i].segs@) == item_canon(
                    items,
                    t,
                ).take(m) && !nodes_head[i].is_file;
            assert(nodes[i] == nodes_head[i]);
            assert(0 <= i < nodes.len() && seg_views(nodes[i].segs@) == item_canon(
                items,
                t,
            ).take(m) && !nodes[i].is_file);
        } else {
            if m < cj.len() {
                assert(has_dir_node_at(nodes_mid, cj.take(m)));
                let i = choose|i: int|
                    #![auto]
                    0 <= i < nodes_mid.len() && seg_views(nodes_mid[i].segs@) == cj.take(m)
                        && !nodes_mid[i].is_file;
                assert(nodes[i] == nodes_mid[i]);
                assert(0 <= i < nodes.len() && seg_views(nodes[i].segs@) == item_canon(
                    items,
                    t,
                ).take(m) && !nodes[i].is_file);
            } else {
                assert(m == cj.len() && !item_is_file(items, t));
                assert(cj.take(m) =~= cj);
                assert(has_dir_node_at(nodes, cj));
                assert(has_dir_node_at(nodes, item_canon(items, t).take(m)));
            }
        }
    }
}

/// A host whose nodes are exactly the given entries' contributions holds
/// each file entry's contents at its canonical path.
#[verifier::rlimit(100)]
proof fn lemma_model_files(items: Seq<(String, TestContents)>, h: MemHost)
    requires
        h.wf(),
        !items_collide(items),
        nodes_from(items, h.nodes@, items.len() as int),
        forall|t: int|
            #![trigger item_is_file(items, t)]
            0 <= t < items.len() && item_is_file(items, t) ==> has_file_node_at(
                h.nodes@,
                item_canon(items, t),
            ),
    ensures
        forall|t: int|
            #![trigger item_canon(items, t)]
            0 <= t < items.len() && item_is_file(items, t) ==> h.files().dom().contains(
                item_canon(items, t),
            ) && h.files()[item_canon(items, t)] == item_contents(items, t),
{
    let nodes = h.nodes@;
    assert forall|t: int|
        #![trigger item_canon(items, t)]
        0 <= t < items.len() && item_is_file(items, t) implies h.files().dom().contains(
        item_canon(items, t),
    ) && h.files()[item_canon(items, t)] == item_contents(items, t) by {
        let ct = item_canon(items, t);
        assert(has_file_node_at(nodes, ct));
        let i = choose|i: int|
            #![auto]
            0 <= i < nodes.len() && seg_views(nodes[i].segs@) == ct && nodes[i].is_file;
        assert(h.nv(i) == ct && h.nodes@[i].is_file);
        assert(h.has_file_node(ct));
        assert(h.files().dom().contains(ct));
        let i2 = h.file_idx(ct);
        assert(0 <= i2 < h.nodes@.len() && h.nv(i2) == ct && h.nodes@[i2].is_file);
        assert(node_from(items, nodes[i2], items.len() as int));
        let (j2, k2) = choose|j2: int, k2: int|
            #![auto]
            {
                &&& 0 <= j2 < items.len()
                &&& 1 <= k2 <= item_canon(items, j2).len()
                &&& seg_views(nodes[i2].segs@) == item_canon(items, j2).take(k2)
                &&& if nodes[i2].is_file {
                    k2 == item_canon(items, j2).len() && item_is_file(items, j2) && j2
                        < items.len() && nodes[i2].contents@ == item_contents(items, j2)
                } else {
                    k2 < item_canon(items, j2).len() || !item_is_file(items, j2)
                }
            };
        assert(item_canon(items, j2) == ct) by {
            assert(item_canon(items, j2).take(k2) =~= item_canon(items, j2));
        }
        assert(j2 == t) by {
            if j2 != t {
                assert(item_canon(items, j2).is_prefix_of(item_canon(items, t))) by {
                    assert(ct =~= ct.subrange(0, ct.len() as int));
                }
                assert(items_collide(items));
            }
        }
        assert(h.files()[ct] == nodes[i2].contents@);
    }
}

/// A host whose nodes are exactly the given entries' contributions holds
/// no file other than the file entries'.
#[verifier::rlimit(100)]
proof fn lemma_model_files_only(items: Seq<(String, TestContents)>, h: MemHost)
    requires
        h.wf(),
        nodes_from(items, h.nodes@, items.len() as int),
    ensures
        forall|s: Seq<Seq<char>>| #[trigger]
            h.files().dom().contains(s) ==> some_file_item(items, s),
{
    let nodes = h.nodes@;
    assert forall|s: Seq<Seq<char>>| #[trigger]
        h.files().dom().contains(s) implies some_file_item(items, s) by {
        assert(h.has_file_node(s));
        let i = choose|i: int|
            #![auto]
            0 <= i < h.nodes@.len() && h.nv(i) == s && h.nodes@[i].is_file;
        assert(node_from(items, nodes[i], items.len() as int));
        let (j2, k2) = choose|j2: int, k2: int|
            #![auto]
            {
                &&& 0 <= j2 < items.len()
                &&& 1 <= k2 <= item_canon(items, j2).len()
                &&& seg_views(nodes[i].segs@) == item_canon(items, j2).take(k2)
                &&& if nodes[i].is_file {
                    k2 == item_canon(items, j2).len() && item_is_file(items, j2) && j2
                        < items.len() && nodes[i].contents@ == item_contents(items, j2)
                } else {
                    k2 < item_canon(items, j2).len() || !item_is_file(items, j2)
                }
            };
        assert(item_canon(items, j2) == s) by {
            assert(item_canon(items, j2).take(k2) =~= item_canon(items, j2));
        }
        assert(some_file_item(items, s));
    }
}

/// A host whose nodes are exactly the given entries' contributions has as
/// directories exactly the root, every proper prefix of an entry, and each
/// directory entry's own path.
#[verifier::rlimit(100)]
proof fn lemma_model_dirs(items: Seq<(String, TestContents)>, h: MemHost)
    requires
        h.wf(),
        nodes_from(items, h.nodes@, items.len() as int),
        forall|t: int, m: int|
            #![trigger item_canon(items, t).take(m)]
            0 <= t < items.len() && 1 <= m <= item_canon(items, t).len() && (m < item_canon(
                items,
                t,
            ).len() || !item_is_file(items, t)) ==> has_dir_node_at(
                h.nodes@,
                item_canon(items, t).take(m),
            ),
    ensures
        forall|s: Seq<Seq<char>>| #[trigger]
            h.dirs().contains(s) <==> (s == Seq::<Seq<char>>::empty() || wanted_dir(items, s)),
{
    let nodes = h.nodes@;
    assert forall|s: Seq<Seq<char>>|
        h.dirs().contains(s) && s != Seq::<Seq<char>>::empty() implies wanted_dir(items, s) by {
        assert(h.has_dir_node(s));
        let i = choose|i: int|
            #![auto]
            0 <= i < h.nodes@.len() && h.nv(i) == s && !h.nodes@[i].is_file;
        assert(node_from(items, nodes[i], items.len() as int));
        let (j2, k2) = choose|j2: int, k2: int|
            #![auto]
            {
                &&& 0 <= j2 < items.len()
                &&& 1 <= k2 <= item_canon(items, j2).len()
                &&& seg_views(nodes[i].segs@) == item_canon(items, j2).take(k2)
                &&& if nodes[i].is_file {
                    k2 == item_canon(items, j2).len() && item_is_file(items, j2) && j2
                        < items.len() && nodes[i].contents@ == item_contents(items, j2)
                } else {
                    k2 < item_canon(items, j2).len() || !item_is_file(items, j2)
                }
            };
        assert(s == item_canon(items, j2).take(k2));
        assert(k2 < item_canon(items, j2).len() || !item_is_file(items, j2));
        assert(wanted_dir(items, s));
    }
    assert forall|s: Seq<Seq<char>>|
        s == Seq::<Seq<char>>::empty() || wanted_dir(items, s) implies #[trigger] h.dirs()
        .contains(s) by {
        if s != Seq::<Seq<char>>::empty() {
            let (j2, k2) = choose|j2: int, k2: int|
                #![auto]
                0 <= j2 < items.len() && 1 <= k2 <= item_canon(items, j2).len() && s
                    == item_canon(items, j2).take(k2) && (k2 < item_canon(items, j2).len()
                    || !item_is_file(items, j2));
            assert(has_dir_node_at(h.nodes@, item_canon(items, j2).take(k2)));
            let i = choose|i: int|
                #![auto]
                0 <= i < h.nodes@.len() && seg_views(h.nodes@[i].segs@) == item_canon(
                    items,
                    j2,
                ).take(k2) && !h.nodes@[i].is_file;
            assert(h.nv(i) == s && !h.nodes@[i].is_file);
            assert(h.has_dir_node(s));
        }
        assert(h.dirs().contains(s));
    }
}

/// Clones the first `k` segments.
fn take_prefix(v: &Vec<String>, k: usize) -> (r: Vec<String>)
    requires
        k <= v@.len(),
    ensures
        seg_views(r@) == seg_views(v@).subrange(0, k as int),
{
    let ghost sv = seg_views(v@);
    let mut r: Vec<String> = Vec::new();
    proof {
        assert(seg_views(r@) =~= sv.subrange(0, 0));
    }
    let mut m: usize = 0;
    while m < k
        invariant
            sv == seg_views(v@),
            sv.len() == v@.len(),
            k <= v@.len(),
            m <= k,
            seg_views(r@) == sv.subrange(0, m as int),
        decreases k - m,
    {
        let item = v[m].clone();
        proof {
            crate::paths::lemma_seg_views_push(r@, item);
            assert(sv.subrange(0, m as int).push(sv[m as int]) =~= sv.subrange(0, m + 1));
        }
        r.push(item);
        m = m + 1;
    }
    r
}

impl MemHost {
    /// Builds a fixture over the given sandbox from `(path, contents)`
    /// entries, creating every intermediate directory, exactly as populating
    /// a scratch directory would. Fails — with a message naming the
    /// offending path — exactly when the entries collide: a file provided
    /// twice, a file at the fixture root, or a file on the path of another
    /// entry.
    #[verifier::loop_isolation(false)]
    #[verifier::rlimit(100)]
    pub fn from(sandbox: FsHost, files: Vec<(String, TestContents)>) -> (r: Result<
        MemHost,
        DuplicateFileError,
    >)
        requires
            sandbox.wf(),
        ensures
            match r {
                Ok(h) => {
                    &&& !items_collide(files@)
                    &&& h.wf()
                    &&& h.root() == sandbox.root_segs()
                    &&& forall|t: int|
                        #![trigger item_canon(files@, t)]
                        0 <= t < files@.len() && item_is_file(files@, t) ==> h.files().dom()
                            .contains(item_canon(files@, t)) && h.files()[item_canon(files@, t)]
                            == item_contents(files@, t)
                    &&& forall|s: Seq<Seq<char>>| #[trigger]
                        h.files().dom().contains(s) ==> some_file_item(files@, s)
                    &&& forall|s: Seq<Seq<char>>| #[trigger]
                        h.dirs().contains(s) <==> (s == Seq::<Seq<char>>::empty() || wanted_dir(
                            files@,
                            s,
                        ))
                },
                Err(e) => items_collide(files@) && collision_message(files@, e.message@),
            },
    {
        let ghost items = files@;
        let n = files.len();
        // canonicalize every entry
        let mut staged: Vec<(Vec<String>, bool, String)> = Vec::new();
        let mut j: usize = 0;
        while j < n
            invariant
                items == files@,
                n == files@.len(),
                j <= n,
                staged@.len() == j,
                forall|t: int|
                    #![trigger staged@[t]]
                    0 <= t < j ==> seg_views(staged@[t].0@) == item_canon(items, t)
                        && staged@[t].1 == item_is_file(items, t) && staged@[t].2@
                        == item_contents(items, t) && all_plain(seg_views(staged@[t].0@)),
            decreases n - j,
        {
            let entry = &files[j];
            let parts = split_segments(entry.0.as_str());
            let mut stack: Vec<String> = Vec::new();
            proof {
                assert(seg_views(stack@) =~= Seq::<Seq<char>>::empty());
                lemma_split_no_slash(entry.0@);
            }
            reduce_onto(&mut stack, &parts);
            proof {
                assert(Seq::<Seq<char>>::empty() + seg_views(parts@) =~= seg_views(parts@));
            }
            let staged_entry = match &entry.1 {
                TestContents::File(contents) => (stack, true, contents.clone()),
                TestContents::Directory => (stack, false, String::new()),
            };
            staged.push(staged_entry);
            j = j + 1;
        }
        // detect collisions
        let mut j1: usize = 0;
        while j1 < n
            invariant
                items == files@,
                n == files@.len(),
                staged@.len() == n,
                forall|t: int|
                    #![trigger staged@[t]]
                    0 <= t < n ==> seg_views(staged@[t].0@) == item_canon(items, t)
                        && staged@[t].1 == item_is_file(items, t) && staged@[t].2@
                        == item_contents(items, t) && all_plain(seg_views(staged@[t].0@)),
                j1 <= n,
                forall|t: int|
                    #![auto]
                    0 <= t < j1 && item_is_file(items, t) ==> item_canon(items, t).len() > 0,
                forall|t1: int, t2: int|
                    #![auto]
                    0 <= t1 < j1 && 0 <= t2 < n && t1 != t2 && item_is_file(items, t1)
                        ==> !item_canon(items, t1).is_prefix_of(item_canon(items, t2)),
            decreases n - j1,
        {
            if staged[j1].1 {
                if staged[j1].0.len() == 0 {
                    proof {
                        assert(item_canon(items, j1 as int).len() == 0);
                    }
                    let mut msg = "File `".to_owned();
                    msg.append(files[j1].0.as_str());
                    msg.append("` would overwrite the fixture root.");
                    proof {
                        assert(msg@ == "File `"@ + items[j1 as int].0@
                            + "` would overwrite the fixture root."@);
                        assert(collision_message(items, msg@));
                    }
                    return Err(DuplicateFileError { message: msg });
                }
                let mut j2: usize = 0;
                while j2 < n
                    invariant
                        items == files@,
                        n == files@.len(),
                        staged@.len() == n,
                        forall|t: int|
                            #![trigger staged@[t]]
                            0 <= t < n ==> seg_views(staged@[t].0@) == item_canon(items, t)
                                && staged@[t].1 == item_is_file(items, t) && staged@[t].2@
                                == item_contents(items, t) && all_plain(seg_views(staged@[t].0@)),
                        j1 < n,
                        item_is_file(items, j1 as int),
                        j2 <= n,
                        forall|t2: int|
                            #![auto]
                            0 <= t2 < j2 && t2 != j1 ==> !item_canon(
                                items,
                                j1 as int,
                            ).is_prefix_of(item_canon(items, t2)),
                    decreases n - j2,
                {
                    if j2 != j1 && is_prefix_exec(&staged[j1].0, &staged[j2].0) {
                        let same = staged[j1].0.len() == staged[j2].0.len();
                        let mut msg = "File `".to_owned();
                        msg.append(files[j2].0.as_str());
                        if same && staged[j2].1 {
                            msg.append("` was provided twice.");
                        } else {
                            msg.append("` collides with another fixture entry.");
                        }
                        proof {
                            assert(item_canon(items, j1 as int).is_prefix_of(item_canon(
                                items,
                                j2 as int,
                            )));
                            if same && staged@[j2 as int].1 {
                                assert(msg@ == "File `"@ + items[j2 as int].0@
                                    + "` was provided twice."@);
                            } else {
                                assert(msg@ == "File `"@ + items[j2 as int].0@
                                    + "` collides with another fixture entry."@);
                            }
                            assert(collision_message(items, msg@));
                        }
                        return Err(DuplicateFileError { message: msg });
                    }
                    j2 = j2 + 1;
                }
            }
            j1 = j1 + 1;
        }
        proof {
            assert(!items_collide(items));
        }
        // build the node list: intermediate directories first, then the
        // entry itself
        let mut nodes: Vec<MemNode> = Vec::new();
        let mut j: usize = 0;
        while j < n
            invariant
                items == files@,
                n == files@.len(),
                staged@.len() == n,
                !items_collide(items),
                forall|t: int|
                    #![trigger staged@[t]]
                    0 <= t < n ==> seg_views(staged@[t].0@) == item_canon(items, t)
                        && staged@[t].1 == item_is_file(items, t) && staged@[t].2@
                        == item_contents(items, t) && all_plain(seg_views(staged@[t].0@)),
                j <= n,
                nodes_from(items, nodes@, j as int),
                forall|i: int|
                    #![trigger nodes@[i]]
                    0 <= i < nodes@.len() ==> all_plain(seg_views(nodes@[i].segs@)) && seg_views(
                        nodes@[i].segs@,
                    ).len() >= 1,
                forall|i1: int, i2: int|
                    #![trigger nodes@[i1], nodes@[i2]]
                    0 <= i1 < i2 < nodes@.len() ==> seg_views(nodes@[i1].segs@) != seg_views(
                        nodes@[i2].segs@,
                    ),
                forall|i: int, m: int|
                    #![trigger seg_views(nodes@[i].segs@).take(m)]
                    0 <= i < nodes@.len() && 1 <= m < seg_views(nodes@[i].segs@).len()
                        ==> exists|i2: int|
                        #![auto]
                        0 <= i2 < nodes@.len() && seg_views(nodes@[i2].segs@) == seg_views(
                            nodes@[i].segs@,
                        ).take(m) && !nodes@[i2].is_file,
                forall|t: int|
                    #![trigger item_is_file(items, t)]
                    0 <= t < j && item_is_file(items, t) ==> has_file_node_at(
                        nodes@,
                        item_canon(items, t),
                    ),
                forall|t: int, m: int|
                    #![trigger item_canon(items, t).take(m)]
                    0 <= t < j && 1 <= m <= item_canon(items, t).len() && (m < item_canon(
                        items,
                        t,
                    ).len() || !item_is_file(items, t)) ==> has_dir_node_at(
                        nodes@,
                        item_canon(items, t).take(m),
                    ),
            decreases n - j,
        {
            let canon_len = staged[j].0.len();
            let is_file = staged[j].1;
            let ghost cj = item_canon(items, j as int);
            let ghost nodes_head = nodes@;
            let mut k: usize = 1;
            while k < canon_len
                invariant
                    items == files@,
                    n == files@.len(),
                    staged@.len() == n,
                    !items_collide(items),
                    forall|t: int|
                        #![trigger staged@[t]]
                        0 <= t < n ==> seg_views(staged@[t].0@) == item_canon(items, t)
                            && staged@[t].1 == item_is_file(items, t) && staged@[t].2@
                            == item_contents(items, t) && all_plain(seg_views(staged@[t].0@)),
                    j < n,
                    canon_len == staged@[j as int].0@.len(),
                    is_file == item_is_file(items, j as int),
                    cj == item_canon(items, j as int),
                    cj.len() == canon_len,
                    1 <= k,
                    k <= canon_len || canon_len == 0,
                    nodes_head.len() <= nodes@.len(),
                    forall|i: int|
                        #![trigger nodes@[i]]
                        0 <= i < nodes_head.len() ==> nodes@[i] == nodes_head[i],
                    nodes_from(items, nodes@, j as int),
                    forall|i: int|
                        #![trigger nodes@[i]]
                        0 <= i < nodes@.len() ==> all_plain(seg_views(nodes@[i].segs@))
                            && seg_views(nodes@[i].segs@).len() >= 1,
                    forall|i1: int, i2: int|
                        #![trigger nodes@[i1], nodes@[i2]]
                        0 <= i1 < i2 < nodes@.len() ==> seg_views(nodes@[i1].segs@) != seg_views(
                            nodes@[i2].segs@,
                        ),
                    forall|i: int, m: int|
                        #![trigger seg_views(nodes@[i].segs@).take(m)]
                        0 <= i < nodes@.len() && 1 <= m < seg_views(nodes@[i].segs@).len()
                            ==> exists|i2: int|
                            #![auto]
                            0 <= i2 < nodes@.len() && seg_views(nodes@[i2].segs@) == seg_views(
                                nodes@[i].segs@,
                            ).take(m) && !nodes@[i2].is_file,
                    forall|m: int|
                        #![trigger cj.take(m)]
                        1 <= m < k ==> has_dir_node_at(nodes@, cj.take(m)),
                decreases canon_len + 1 - k,
            {
                let prefix = take_prefix(&staged[j].0, k);
                proof {
                    assert(seg_views(prefix@) == cj.take(k as int));
                    assert(all_plain(cj.take(k as int))) by {
                        assert(forall|m: int| 0 <= m < k ==> cj.take(k as int)[m] == cj[m]);
                    }
                }
                match find_node(&nodes, &prefix) {
                    Some(i) => {
                        proof {
                            // an existing node here cannot be a file: that
                            // file entry would lie on this entry's path
                            if nodes@[i as int].is_file {
                                assert(node_from(items, nodes@[i as int], j as int));
                                let (j2, k2) = choose|j2: int, k2: int|
                                    #![auto]
                                    {
                                        &&& 0 <= j2 < items.len()
                                        &&& 1 <= k2 <= item_canon(items, j2).len()
                                        &&& seg_views(nodes@[i as int].segs@) == item_canon(
                                            items,
                                            j2,
                                        ).take(k2)
                                        &&& if nodes@[i as int].is_file {
                                            k2 == item_canon(items, j2).len() && item_is_file(
                                                items,
                                                j2,
                                            ) && j2 < j && nodes@[i as int].contents@
                                                == item_contents(items, j2)
                                        } else {
                                            k2 < item_canon(items, j2).len() || !item_is_file(
                                                items,
                                                j2,
                                            )
                                        }
                                    };
                                assert(item_canon(items, j2) =~= item_canon(items, j2).take(k2));
                                assert(item_canon(items, j2) == cj.take(k as int));
                                assert(item_canon(items, j2).is_prefix_of(cj)) by {
                                    assert(cj.take(k as int) =~= cj.subrange(0, k as int));
                                }
                                assert(j2 != j);
                                assert(items_collide(items));
                                assert(false);
                            }
                        }
                    },
                    None => {
                        let ghost pre = nodes@;
                        nodes.push(
                            MemNode { segs: prefix, is_file: false, contents: String::new() },
                        );
                        proof {
                            assert(forall|i: int| 0 <= i < pre.len() ==> nodes@[i] == pre[i]);
                            assert(seg_views(nodes@[pre.len() as int].segs@) == cj.take(
                                k as int,
                            ));
                            assert(cj.take(k as int).len() == k);
                            assert forall|i: int, m: int|
                                #![trigger seg_views(nodes@[i].segs@).take(m)]
                                0 <= i < nodes@.len() && 1 <= m < seg_views(
                                    nodes@[i].segs@,
                                ).len() implies exists|i2: int|
                                #![auto]
                                0 <= i2 < nodes@.len() && seg_views(nodes@[i2].segs@)
                                    == seg_views(nodes@[i].segs@).take(m) && !nodes@[i2].is_file by {
                                if i < pre.len() {
                                    let i2 = choose|i2: int|
                                        #![auto]
                                        0 <= i2 < pre.len() && seg_views(pre[i2].segs@)
                                            == seg_views(pre[i].segs@).take(m) && !pre[i2].is_file;
                                    assert(seg_views(nodes@[i2].segs@) == seg_views(
                                        nodes@[i].segs@,
                                    ).take(m) && !nodes@[i2].is_file);
                                } else {
                                    assert(seg_views(nodes@[i].segs@) == cj.take(k as int));
                                    assert(cj.take(k as int).take(m) =~= cj.take(m));
                                    let i2 = choose|i2: int|
                                        #![auto]
                                        0 <= i2 < pre.len() && seg_views(pre[i2].segs@)
                                            == cj.take(m) && !pre[i2].is_file;
                                    assert(seg_views(nodes@[i2].segs@) == cj.take(m)
                                        && !nodes@[i2].is_file);
                                }
                            }
                            assert(node_from(items, nodes@[pre.len() as int], j as int)) by {
                                assert(k < item_canon(items, j as int).len());
                            }
                            lemma_nodes_from_grow(items, pre, nodes@, j as int, j as int);
                        }
                    },
                }
                k = k + 1;
            }
            if is_file || canon_len > 0 {
                proof {
                    if is_file {
                        assert(!(item_is_file(items, j as int) && item_canon(
                            items,
                            j as int,
                        ).len() == 0));
                        assert(cj.len() >= 1);
                    }
                    assert(k == canon_len || canon_len == 0);
                    assert(canon_len >= 1);
                }
                let segs = take_prefix(&staged[j].0, canon_len);
                proof {
                    assert(seg_views(segs@) =~= cj) by {
                        assert(cj.take(canon_len as int) =~= cj);
                    }
                }
                let ghost nodes_mid = nodes@;
                // nothing can already sit at a file entry's own path
                let found = match find_node(&nodes, &segs) {
                    Some(i) => {
                        proof {
                            assert(node_from(items, nodes@[i as int], j as int));
                            let (j2, k2) = choose|j2: int, k2: int|
                                #![auto]
                                {
                                    &&& 0 <= j2 < items.len()
                                    &&& 1 <= k2 <= item_canon(items, j2).len()
                                    &&& seg_views(nodes@[i as int].segs@) == item_canon(
                                        items,
                                        j2,
                                    ).take(k2)
                                    &&& if nodes@[i as int].is_file {
                                        k2 == item_canon(items, j2).len() && item_is_file(
                                            items,
                                            j2,
                                        ) && j2 < j && nodes@[i as int].contents@
                                            == item_contents(items, j2)
                                    } else {
                                        k2 < item_canon(items, j2).len() || !item_is_file(
                                            items,
                                            j2,
                                        )
                                    }
                                };
                            assert(cj == item_canon(items, j2).take(k2));
                            assert(cj.is_prefix_of(item_canon(items, j2))) by {
                                assert(item_canon(items, j2).take(k2) =~= item_canon(
                                    items,
                                    j2,
                                ).subrange(0, k2));
                            }
                            if is_file {
                                if nodes@[i as int].is_file {
                                    assert(j2 != j);
                                    assert(items_collide(items));
                                } else {
                                    if j2 == j {
                                        assert(item_canon(items, j2).take(k2).len() == k2);
                                        assert(k2 == cj.len());
                                        assert(k2 < item_canon(items, j2).len() || !item_is_file(
                                            items,
                                            j2,
                                        ));
                                        assert(false);
                                    } else {
                                        assert(items_collide(items));
                                    }
                                }
                                assert(false);
                            } else {
                                // a directory entry may already exist, but a
                                // file node here would collide
                                if nodes@[i as int].is_file {
                                    assert(j2 != j);
                                    assert(item_canon(items, j2) == cj) by {
                                        assert(item_canon(items, j2) =~= item_canon(
                                            items,
                                            j2,
                                        ).take(k2));
                                    }
                                    assert(item_canon(items, j2).is_prefix_of(
                                        item_canon(items, j as int),
                                    )) by {
                                        assert(cj =~= cj.subrange(0, cj.len() as int));
                                    }
                                    assert(items_collide(items));
                                    assert(false);
                                }
                            }
                        }
                        if is_file {
                            // unreachable: the proof above established false
                            let mut msg = "File `".to_owned();
                            msg.append(files[j].0.as_str());
                            msg.append("` collides with another fixture entry.");
                            return Err(DuplicateFileError { message: msg });
                        }
                        proof {
                            assert(has_dir_node_at(nodes@, cj));
                            lemma_nodes_from_grow(items, nodes@, nodes@, j as int, j + 1);
                        }
                        true
                    },
                    None => false,
                };
                if !found {
                    let contents = staged[j].2.clone();
                    let ghost pre = nodes@;
                    nodes.push(MemNode { segs, is_file, contents });
                    proof {
                        assert(forall|i: int| 0 <= i < pre.len() ==> nodes@[i] == pre[i]);
                        assert(seg_views(nodes@[pre.len() as int].segs@) == cj);
                        assert(nodes@[pre.len() as int].is_file == is_file);
                        assert(node_from(items, nodes@[pre.len() as int], j + 1)) by {
                            assert(cj =~= cj.take(cj.len() as int));
                            assert(nodes@[pre.len() as int].contents@ == item_contents(
                                items,
                                j as int,
                            ));
                        }
                        lemma_nodes_from_grow(items, pre, nodes@, j as int, j + 1);
                        assert forall|i: int, m: int|
                            #![trigger seg_views(nodes@[i].segs@).take(m)]
                            0 <= i < nodes@.len() && 1 <= m < seg_views(nodes@[i].segs@).len() implies
                            exists|i2: int|
                            #![auto]
                            0 <= i2 < nodes@.len() && seg_views(nodes@[i2].segs@) == seg_views(
                                nodes@[i].segs@,
                            ).take(m) && !nodes@[i2].is_file by {
                            if i < pre.len() {
                                let i2 = choose|i2: int|
                                    #![auto]
                                    0 <= i2 < pre.len() && seg_views(pre[i2].segs@) == seg_views(
                                        pre[i].segs@,
                                    ).take(m) && !pre[i2].is_file;
                                assert(seg_views(nodes@[i2].segs@) == seg_views(
                                    nodes@[i].segs@,
                                ).take(m) && !nodes@[i2].is_file);
                            } else {
                                assert(seg_views(nodes@[i].segs@) == cj);
                                let i2 = choose|i2: int|
                                    #![auto]
                                    0 <= i2 < pre.len() && seg_views(pre[i2].segs@) == cj.take(m)
                                        && !pre[i2].is_file;
                                assert(seg_views(nodes@[i2].segs@) == cj.take(m)
                                    && !nodes@[i2].is_file);
                            }
                        }
                        if is_file {
                            assert(has_file_node_at(nodes@, cj)) by {
                                assert(seg_views(nodes@[pre.len() as int].segs@) == cj
                                    && nodes@[pre.len() as int].is_file);
                            }
                        } else {
                            assert(has_dir_node_at(nodes@, cj)) by {
                                assert(seg_views(nodes@[pre.len() as int].segs@) == cj
                                    && !nodes@[pre.len() as int].is_file);
                            }
                        }
                    }
                }
                proof {
                    // either found or freshly pushed: the entry's own node
                    if is_file {
                        assert(has_file_node_at(nodes@, cj));
                    } else {
                        assert(has_dir_node_at(nodes@, cj));
                    }
                    assert(nodes_head.len() <= nodes@.len());
                    assert(forall|i: int|
                        #![trigger nodes@[i]]
                        0 <= i < nodes_head.len() ==> nodes@[i] == nodes_head[i]);
                    assert(k == canon_len);
                    assert(cj.len() > 0);
                    lemma_carry_completeness(
                        items,
                        nodes_head,
                        nodes_mid,
                        nodes@,
                        j as int,
                        cj,
                        is_file,
                    );
                }
            } else {
                proof {
                    lemma_nodes_from_grow(items, nodes@, nodes@, j as int, j + 1);
                    assert(cj.len() == 0 && !is_file) by {
                        assert(canon_len == 0);
                    }
                    lemma_carry_completeness(
                        items,
                        nodes_head,
                        nodes@,
                        nodes@,
                        j as int,
                        cj,
                        is_file,
                    );
                }
            }
            j = j + 1;
        }
        let ghost gnodes = nodes@;
        let h = MemHost { sandbox, nodes };
        proof {
            assert(h.nodes@ == gnodes);
            assert(h.root() == sandbox.root_segs());
            assert(h.nodes_wf()) by {
                assert forall|i: int|
                    #![trigger h.nv(i)]
                    0 <= i < h.nodes@.len() implies all_plain(h.nv(i)) && h.nv(i).len() >= 1 by {
                    assert(gnodes[i] == h.nodes@[i]);
                    assert(all_plain(seg_views(gnodes[i].segs@)));
                }
                assert forall|i1: int, i2: int|
                    #![trigger h.nv(i1), h.nv(i2)]
                    0 <= i1 < i2 < h.nodes@.len() implies h.nv(i1) != h.nv(i2) by {
                    assert(seg_views(gnodes[i1].segs@) != seg_views(gnodes[i2].segs@));
                }
                assert forall|i: int, m: int|
                    #![trigger h.nv(i).take(m)]
                    0 <= i < h.nodes@.len() && 1 <= m < h.nv(i).len() implies h.has_dir_node(
                    h.nv(i).take(m),
                ) by {
                    assert(seg_views(gnodes[i].segs@).take(m) == h.nv(i).take(m));
                    let i2 = choose|i2: int|
                        #![auto]
                        0 <= i2 < gnodes.len() && seg_views(gnodes[i2].segs@) == seg_views(
                            gnodes[i].segs@,
                        ).take(m) && !gnodes[i2].is_file;
                    assert(h.nv(i2) == h.nv(i).take(m) && !h.nodes@[i2].is_file);
                }
            }
            assert(h.nodes@ == gnodes);
            assert(nodes_from(items, h.nodes@, items.len() as int));
            lemma_model_files(items, h);
            lemma_model_files_only(items, h);
            lemma_model_dirs(items, h);
        }
        Ok(h)
    }
}

} // verus!
