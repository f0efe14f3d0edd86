//! Lexical path manipulation: splitting a path into `/`-separated segments,
//! the `.`/`..` stack reduction, and reassembly into an absolute path.
//!
//! Everything here is purely syntactic; nothing touches a filesystem.

use vstd::prelude::*;
use vstd::string::StringExecFns;
use vstd::string::StrSliceExecFns;

use crate::errors::HostError;

verus! {

/// A segment contains no `/` separator.
pub open spec fn no_slash(s: Seq<char>) -> bool {
    forall|i: int| 0 <= i < s.len() ==> s[i] != '/'
}

/// A plain name: a segment that names a real child (nonempty, not `.`, not `..`).
pub open spec fn plain_name(s: Seq<char>) -> bool {
    no_slash(s) && s.len() > 0 && s != seq!['.'] && s != seq!['.', '.']
}

/// Every segment of `segs` contains no `/`.
pub open spec fn all_no_slash(segs: Seq<Seq<char>>) -> bool {
    forall|i: int| 0 <= i < segs.len() ==> no_slash(#[trigger] segs[i])
}

/// Every segment of `segs` is a plain name.
pub open spec fn all_plain(segs: Seq<Seq<char>>) -> bool {
    forall|i: int| 0 <= i < segs.len() ==> plain_name(#[trigger] segs[i])
}

/// The views of a sequence of owned segments.
pub open spec fn seg_views(segs: Seq<String>) -> Seq<Seq<char>> {
    segs.map_values(|s: String| s@)
}

/// Splitting a character sequence at every `/`. The result always has at
/// least one element; empty segments (from leading, trailing or doubled
/// separators) are kept.
pub open spec fn split_path(s: Seq<char>) -> Seq<Seq<char>>
    decreases s.len(),
{
    if s.len() == 0 {
        seq![Seq::<char>::empty()]
    } else {
        let rest = split_path(s.drop_last());
        if s.last() == '/' {
            rest.push(Seq::<char>::empty())
        } else {
            rest.update(rest.len() - 1, rest.last().push(s.last()))
        }
    }
}

/// The `.`/`..` stack reduction over raw segments, walked left to right:
/// empty segments and `.` are skipped, `..` pops the last pushed name if any
/// (and is silently ignored at the root), anything else is pushed.
pub open spec fn reduce_segments(segs: Seq<Seq<char>>) -> Seq<Seq<char>>
    decreases segs.len(),
{
    if segs.len() == 0 {
        Seq::<Seq<char>>::empty()
    } else {
        let prev = reduce_segments(segs.drop_last());
        let last = segs.last();
        if last.len() == 0 || last == seq!['.'] {
            prev
        } else if last == seq!['.', '.'] {
            if prev.len() > 0 {
                prev.drop_last()
            } else {
                prev
            }
        } else {
            prev.push(last)
        }
    }
}

/// Joining segments with `/` separators (no leading or trailing separator).
pub open spec fn join_segments(segs: Seq<Seq<char>>) -> Seq<char>
    decreases segs.len(),
{
    if segs.len() == 0 {
        Seq::<char>::empty()
    } else if segs.len() == 1 {
        segs[0]
    } else {
        join_segments(segs.drop_last()) + seq!['/'] + segs.last()
    }
}

/// The absolute path assembled from canonical segments: `/` + joined segments.
pub open spec fn abs_path_view(segs: Seq<Seq<char>>) -> Seq<char> {
    seq!['/'] + join_segments(segs)
}

/// A path beginning with the root marker `/`.
pub open spec fn is_absolute(s: Seq<char>) -> bool {
    s.len() > 0 && s[0] == '/'
}

/// Lexical normalization of an absolute path: split, reduce, reassemble.
pub open spec fn normalize_view(s: Seq<char>) -> Seq<char> {
    abs_path_view(reduce_segments(split_path(s)))
}

/// The caller-coordinate join of a directory path and one child name.
pub open spec fn child_join_view(path: Seq<char>, name: Seq<char>) -> Seq<char> {
    if path.len() == 0 {
        name
    } else {
        path + seq!['/'] + name
    }
}

/// Splitting distributes over a separator: cutting `x / y` at the middle
/// separator splits each side on its own.
pub proof fn lemma_split_concat(x: Seq<char>, y: Seq<char>)
    ensures
        split_path(x + seq!['/'] + y) == split_path(x) + split_path(y),
    decreases y.len(),
{
    if y.len() == 0 {
        let whole = x + seq!['/'] + y;
        assert(whole =~= x + seq!['/']);
        assert(whole.len() == x.len() + 1);
        assert(whole.last() == '/');
        assert(whole.drop_last() =~= x);
        assert(split_path(whole) == split_path(x).push(Seq::<char>::empty()));
        assert(split_path(x).push(Seq::<char>::empty()) =~= split_path(x) + split_path(y));
    } else {
        lemma_split_concat(x, y.drop_last());
        let whole = x + seq!['/'] + y;
        assert(whole.len() > 0);
        assert(whole.drop_last() =~= x + seq!['/'] + y.drop_last());
        assert(whole.last() == y.last());
        let rest = split_path(x) + split_path(y.drop_last());
        assert(split_path(whole.drop_last()) == rest);
        lemma_split_len(y.drop_last());
        assert(rest.len() >= 1);
        if y.last() == '/' {
            assert(split_path(whole) == rest.push(Seq::<char>::empty()));
            assert(split_path(y) == split_path(y.drop_last()).push(Seq::<char>::empty()));
            assert(rest.push(Seq::<char>::empty()) =~= split_path(x) + split_path(y));
        } else {
            assert(split_path(whole) == rest.update(rest.len() - 1, rest.last().push(y.last())));
            let ry = split_path(y.drop_last());
            assert(split_path(y) == ry.update(ry.len() - 1, ry.last().push(y.last())));
            assert(rest.last() == ry.last());
            assert(rest.update(rest.len() - 1, rest.last().push(y.last())) =~= split_path(x)
                + split_path(y));
        }
    }
}

/// Splitting a string with no separator yields just that string.
pub proof fn lemma_split_single(s: Seq<char>)
    requires
        no_slash(s),
    ensures
        split_path(s) == seq![s],
    decreases s.len(),
{
    if s.len() == 0 {
        assert(split_path(s) == seq![Seq::<char>::empty()]);
        assert(s =~= Seq::<char>::empty());
        assert(seq![Seq::<char>::empty()] =~= seq![s]);
    } else {
        lemma_split_single(s.drop_last());
        assert(s.last() != '/');
        let rest = seq![s.drop_last()];
        assert(split_path(s) == rest.update(0, rest.last().push(s.last())));
        assert(s.drop_last().push(s.last()) =~= s);
        assert(rest.update(0, rest.last().push(s.last())) =~= seq![s]);
    }
}

/// Every part produced by splitting contains no separator.
pub proof fn lemma_split_no_slash(s: Seq<char>)
    ensures
        all_no_slash(split_path(s)),
    decreases s.len(),
{
    if s.len() == 0 {
        assert forall|i: int| 0 <= i < split_path(s).len() implies no_slash(
            #[trigger] split_path(s)[i],
        ) by {
            assert(split_path(s)[i] == Seq::<char>::empty());
        }
    } else {
        lemma_split_no_slash(s.drop_last());
        let rest = split_path(s.drop_last());
        assert(rest.len() >= 1) by {
            lemma_split_len(s.drop_last());
        }
        assert forall|i: int| 0 <= i < split_path(s).len() implies no_slash(
            #[trigger] split_path(s)[i],
        ) by {
            if s.last() == '/' {
                if i < rest.len() {
                    assert(split_path(s)[i] == rest[i]);
                } else {
                    assert(split_path(s)[i] == Seq::<char>::empty());
                }
            } else {
                if i == rest.len() - 1 {
                    assert(split_path(s)[i] == rest.last().push(s.last()));
                    assert(no_slash(rest.last()));
                } else {
                    assert(split_path(s)[i] == rest[i]);
                }
            }
        }
    }
}

/// Splitting always yields at least one part.
pub proof fn lemma_split_len(s: Seq<char>)
    ensures
        split_path(s).len() >= 1,
    decreases s.len(),
{
    if s.len() > 0 {
        lemma_split_len(s.drop_last());
    }
}

/// The reduction of slash-free segments contains only plain names.
pub proof fn lemma_reduce_all_plain(segs: Seq<Seq<char>>)
    requires
        all_no_slash(segs),
    ensures
        all_plain(reduce_segments(segs)),
    decreases segs.len(),
{
    if segs.len() > 0 {
        assert(all_no_slash(segs.drop_last()));
        lemma_reduce_all_plain(segs.drop_last());
    }
}

/// Reducing already-plain segments changes nothing.
pub proof fn lemma_reduce_of_plain(segs: Seq<Seq<char>>)
    requires
        all_plain(segs),
    ensures
        reduce_segments(segs) == segs,
    decreases segs.len(),
{
    if segs.len() > 0 {
        assert(all_plain(segs.drop_last()));
        lemma_reduce_of_plain(segs.drop_last());
        assert(reduce_segments(segs) == segs.drop_last().push(segs.last()));
        assert(segs.drop_last().push(segs.last()) == segs);
    }
}

/// Splitting and reducing the assembled absolute form of plain segments
/// recovers exactly those segments.
pub proof fn lemma_resplit_abs(segs: Seq<Seq<char>>)
    requires
        all_plain(segs),
    ensures
        reduce_segments(split_path(abs_path_view(segs))) == segs,
    decreases segs.len(),
{
    if segs.len() == 0 {
        let slash = seq!['/'];
        assert(abs_path_view(segs) =~= slash);
        assert(slash.drop_last() =~= Seq::<char>::empty());
        assert(split_path(Seq::<char>::empty()) == seq![Seq::<char>::empty()]);
        let two = seq![Seq::<char>::empty()].push(Seq::<char>::empty());
        assert(split_path(slash) == two);
        assert(two.drop_last() =~= seq![Seq::<char>::empty()]);
        assert(two.last() == Seq::<char>::empty());
        let one = seq![Seq::<char>::empty()];
        assert(one.drop_last() =~= Seq::<Seq<char>>::empty());
        assert(one.last().len() == 0);
        assert(reduce_segments(Seq::<Seq<char>>::empty()) == Seq::<Seq<char>>::empty());
        assert(reduce_segments(one.drop_last()) == Seq::<Seq<char>>::empty());
        assert(reduce_segments(one) == Seq::<Seq<char>>::empty());
        assert(reduce_segments(two.drop_last()) == Seq::<Seq<char>>::empty());
        assert(reduce_segments(two) == Seq::<Seq<char>>::empty());
        assert(reduce_segments(split_path(abs_path_view(segs))) == segs);
    } else {
        let front = segs.drop_last();
        let n = segs.last();
        assert(all_plain(front));
        lemma_resplit_abs(front);
        if front.len() == 0 {
            // abs = "/" + n = "" + "/" + n
            assert(join_segments(segs) == n);
            assert(abs_path_view(segs) =~= Seq::<char>::empty() + seq!['/'] + n);
            lemma_split_concat(Seq::<char>::empty(), n);
            lemma_split_single(n);
            let two = seq![Seq::<char>::empty()] + seq![n];
            assert(split_path(abs_path_view(segs)) == two);
            assert(two.drop_last() =~= seq![Seq::<char>::empty()]);
            assert(two.last() == n);
            let one = seq![Seq::<char>::empty()];
            assert(one.drop_last() =~= Seq::<Seq<char>>::empty());
            assert(reduce_segments(Seq::<Seq<char>>::empty()) == Seq::<Seq<char>>::empty());
            assert(reduce_segments(one.drop_last()) == Seq::<Seq<char>>::empty());
            assert(reduce_segments(one) == Seq::<Seq<char>>::empty());
            assert(reduce_segments(two.drop_last()) == Seq::<Seq<char>>::empty());
            assert(plain_name(n));
            assert(reduce_segments(two) =~= seq![n]);
            assert(seq![n] =~= segs);
        } else {
            assert(join_segments(segs) == join_segments(front) + seq!['/'] + n);
            assert(abs_path_view(segs) =~= abs_path_view(front) + seq!['/'] + n);
            lemma_split_concat(abs_path_view(front), n);
            lemma_split_single(n);
            let base = split_path(abs_path_view(front));
            let whole = base + seq![n];
            assert(split_path(abs_path_view(segs)) == whole);
            assert(whole.len() > 0);
            assert(whole.drop_last() =~= base);
            assert(whole.last() == n);
            assert(plain_name(n));
            assert(reduce_segments(whole) == reduce_segments(base).push(n));
            assert(front.push(n) =~= segs);
        }
    }
}

pub proof fn lemma_seg_views_push(v: Seq<String>, x: String)
    ensures
        seg_views(v.push(x)) == seg_views(v).push(x@),
{
    assert(seg_views(v.push(x)) =~= seg_views(v).push(x@));
}

pub proof fn lemma_seg_views_drop_last(v: Seq<String>)
    requires
        v.len() > 0,
    ensures
        seg_views(v.drop_last()) == seg_views(v).drop_last(),
{
    assert(seg_views(v.drop_last()) =~= seg_views(v).drop_last());
}

/// Splits a path string into its raw `/`-separated segments.
pub fn split_segments(s: &str) -> (r: Vec<String>)
    ensures
        seg_views(r@) == split_path(s@),
{
    let ghost sv = s@;
    let n = s.unicode_len();
    let mut parts: Vec<String> = Vec::new();
    let mut start: usize = 0;
    let mut i: usize = 0;
    proof {
        assert(sv.subrange(0, 0) =~= Seq::<char>::empty());
        assert(seg_views(parts@) =~= Seq::<Seq<char>>::empty());
        assert(split_path(sv.subrange(0, 0)) =~= seg_views(parts@).push(sv.subrange(0, 0)));
    }
    while i < n
        invariant
            n == sv.len(),
            sv == s@,
            start <= i <= n,
            split_path(sv.subrange(0, i as int)) == seg_views(parts@).push(
                sv.subrange(start as int, i as int),
            ),
        decreases n - i,
    {
        let c = s.get_char(i);
        proof {
            assert(sv.subrange(0, i + 1).drop_last() =~= sv.subrange(0, i as int));
            assert(sv.subrange(0, i + 1).last() == sv[i as int]);
        }
        if c == '/' {
            let seg = s.substring_char(start, i).to_owned();
            proof {
                lemma_seg_views_push(parts@, seg);
            }
            parts.push(seg);
            proof {
                assert(split_path(sv.subrange(0, i + 1)) == split_path(
                    sv.subrange(0, i as int),
                ).push(Seq::<char>::empty()));
                assert(sv.subrange(i + 1, i + 1) =~= Seq::<char>::empty());
            }
            start = i + 1;
        } else {
            proof {
                let rest = split_path(sv.subrange(0, i as int));
                assert(rest == seg_views(parts@).push(sv.subrange(start as int, i as int)));
                assert(rest.len() == seg_views(parts@).len() + 1);
                assert(split_path(sv.subrange(0, i + 1)) == rest.update(
                    rest.len() - 1,
                    rest.last().push(sv[i as int]),
                ));
                assert(rest.last() == sv.subrange(start as int, i as int));
                assert(sv.subrange(start as int, i as int).push(sv[i as int]) =~= sv.subrange(
                    start as int,
                    i + 1,
                ));
                assert(rest.update(rest.len() - 1, rest.last().push(sv[i as int]))
                    =~= seg_views(parts@).push(sv.subrange(start as int, i + 1)));
            }
        }
        i = i + 1;
    }
    let seg = s.substring_char(start, n).to_owned();
    proof {
        lemma_seg_views_push(parts@, seg);
        assert(sv.subrange(0, n as int) =~= sv);
    }
    parts.push(seg);
    parts
}

fn seg_is_skippable(s: &String) -> (b: bool)
    ensures
        b == (s@.len() == 0 || s@ == seq!['.']),
{
    let n = s.as_str().unicode_len();
    if n == 0 {
        true
    } else if n == 1 && s.as_str().get_char(0) == '.' {
        proof {
            assert(s@ =~= seq!['.']);
        }
        true
    } else {
        proof {
            assert(s@ != seq!['.']) by {
                if s@ == seq!['.'] {
                    assert(s@.len() == 1);
                    assert(s@[0] == '.');
                }
            }
        }
        false
    }
}

fn seg_is_dotdot(s: &String) -> (b: bool)
    ensures
        b == (s@ == seq!['.', '.']),
{
    let n = s.as_str().unicode_len();
    if n == 2 && s.as_str().get_char(0) == '.' && s.as_str().get_char(1) == '.' {
        proof {
            assert(s@ =~= seq!['.', '.']);
        }
        true
    } else {
        proof {
            assert(s@ != seq!['.', '.']) by {
                if s@ == seq!['.', '.'] {
                    assert(s@.len() == 2);
                    assert(s@[0] == '.');
                    assert(s@[1] == '.');
                }
            }
        }
        false
    }
}

/// Runs the `.`/`..` stack reduction of `parts` on top of an already-reduced
/// `stack` of plain names.
pub fn reduce_onto(stack: &mut Vec<String>, parts: &Vec<String>)
    requires
        all_plain(seg_views(old(stack)@)),
        all_no_slash(seg_views(parts@)),
    ensures
        seg_views(final(stack)@) == reduce_segments(
            seg_views(old(stack)@) + seg_views(parts@),
        ),
        all_plain(seg_views(final(stack)@)),
{
    let ghost base = seg_views(stack@);
    let ghost pv = seg_views(parts@);
    proof {
        lemma_reduce_of_plain(base);
        assert(base + pv.subrange(0, 0) =~= base);
        assert(reduce_segments(base + pv.subrange(0, 0)) == base);
    }
    let mut i: usize = 0;
    while i < parts.len()
        invariant
            pv == seg_views(parts@),
            pv.len() == parts@.len(),
            all_no_slash(pv),
            i <= parts.len(),
            seg_views(stack@) == reduce_segments(base + pv.subrange(0, i as int)),
            all_plain(seg_views(stack@)),
        decreases parts.len() - i,
    {
        let part = &parts[i];
        proof {
            assert(pv[i as int] == part@);
            assert((base + pv.subrange(0, i + 1)).drop_last() =~= base + pv.subrange(0, i as int));
            assert((base + pv.subrange(0, i + 1)).last() == pv[i as int]);
        }
        let ghost pre = seg_views(stack@);
        if seg_is_skippable(part) {
            // nothing to do
        } else if seg_is_dotdot(part) {
            if stack.len() > 0 {
                proof {
                    lemma_seg_views_drop_last(stack@);
                }
                let _ = stack.pop();
                proof {
                    assert(seg_views(stack@) == pre.drop_last());
                    assert(all_plain(pre.drop_last())) by {
                        assert(forall|k: int| 0 <= k < pre.drop_last().len() ==> pre.drop_last()[k]
                            == pre[k]);
                    }
                }
            }
        } else {
            let seg = part.clone();
            proof {
                lemma_seg_views_push(stack@, seg);
            }
            stack.push(seg);
            proof {
                assert(no_slash(pv[i as int]));
                assert(plain_name(part@));
                assert(seg_views(stack@) == pre.push(part@));
                assert(all_plain(pre.push(part@))) by {
                    assert(forall|k: int| 0 <= k < pre.len() ==> pre.push(part@)[k] == pre[k]);
                    assert(pre.push(part@)[pre.len() as int] == part@);
                }
            }
        }
        i = i + 1;
    }
    proof {
        assert(pv.subrange(0, pv.len() as int) =~= pv);
    }
}

/// Reassembles canonical segments into an absolute path string.
pub fn join_abs(segs: &Vec<String>) -> (r: String)
    ensures
        r@ == abs_path_view(seg_views(segs@)),
{
    let ghost sv = seg_views(segs@);
    let mut out = "/".to_owned();
    proof {
        reveal_strlit("/");
        assert(out@ =~= seq!['/']);
        assert(sv.subrange(0, 0) =~= Seq::<Seq<char>>::empty());
        assert(out@ =~= abs_path_view(sv.subrange(0, 0)));
    }
    let mut i: usize = 0;
    while i < segs.len()
        invariant
            sv == seg_views(segs@),
            sv.len() == segs@.len(),
            i <= segs.len(),
            out@ == abs_path_view(sv.subrange(0, i as int)),
        decreases segs.len() - i,
    {
        if i > 0 {
            out.append("/");
            proof {
                reveal_strlit("/");
                assert("/"@ =~= seq!['/']);
            }
        }
        out.append(segs[i].as_str());
        proof {
            let prefix = sv.subrange(0, i as int);
            let next = sv.subrange(0, i + 1);
            assert(next.drop_last() =~= prefix);
            assert(next.last() == sv[i as int]);
            assert(sv[i as int] == segs@[i as int]@);
            if i == 0 {
                assert(next.len() == 1);
                assert(join_segments(next) == next[0]);
                assert(out@ =~= seq!['/'] + join_segments(next));
            } else {
                assert(join_segments(next) == join_segments(prefix) + seq!['/'] + sv[i as int]);
                assert(out@ =~= seq!['/'] + join_segments(next));
            }
        }
        i = i + 1;
    }
    proof {
        assert(sv.subrange(0, sv.len() as int) =~= sv);
    }
    out
}

/// Lexically normalizes an absolute path: `.`/`..` segments are resolved
/// without touching a filesystem. Fails exactly when the input is not
/// absolute.
pub fn normalize(path: &str) -> (r: Result<String, HostError>)
    ensures
        match r {
            Ok(out) => is_absolute(path@) && out@ == normalize_view(path@),
            Err(e) => !is_absolute(path@) && match e {
                HostError::InvalidPath { path: p } => p@ == path@,
                _ => false,
            },
        },
{
    let n = path.unicode_len();
    if n == 0 || path.get_char(0) != '/' {
        return Err(HostError::InvalidPath { path: path.to_owned() });
    }
    let parts = split_segments(path);
    let mut stack: Vec<String> = Vec::new();
    proof {
        assert(seg_views(stack@) =~= Seq::<Seq<char>>::empty());
        assert(all_plain(seg_views(stack@)));
        lemma_split_no_slash(path@);
    }
    reduce_onto(&mut stack, &parts);
    proof {
        assert(Seq::<Seq<char>>::empty() + seg_views(parts@) =~= seg_views(parts@));
    }
    Ok(join_abs(&stack))
}

/// Joins a directory path and one child name in caller coordinates.
pub fn child_join(path: &str, name: &str) -> (r: String)
    ensures
        r@ == child_join_view(path@, name@),
{
    if path.unicode_len() == 0 {
        name.to_owned()
    } else {
        let mut out = path.to_owned();
        out.append("/");
        proof {
            reveal_strlit("/");
            assert("/"@ =~= seq!['/']);
        }
        out.append(name);
        out
    }
}

/// Joining a whole sequence of child names onto a caller path, one level at
/// a time.
pub open spec fn rel_join_view(path: Seq<char>, segs: Seq<Seq<char>>) -> Seq<char>
    decreases segs.len(),
{
    if segs.len() == 0 {
        path
    } else {
        child_join_view(rel_join_view(path, segs.drop_last()), segs.last())
    }
}

/// Joining plain segments yields a nonempty path.
pub proof fn lemma_join_nonempty(segs: Seq<Seq<char>>)
    requires
        all_plain(segs),
        segs.len() > 0,
    ensures
        join_segments(segs).len() > 0,
    decreases segs.len(),
{
    if segs.len() > 1 {
        assert(all_plain(segs.drop_last()));
        lemma_join_nonempty(segs.drop_last());
    }
}

/// The closed form of `rel_join_view` over plain segments.
pub proof fn lemma_rel_join_form(path: Seq<char>, segs: Seq<Seq<char>>)
    requires
        all_plain(segs),
        segs.len() > 0,
    ensures
        rel_join_view(path, segs) == if path.len() == 0 {
            join_segments(segs)
        } else {
            path + seq!['/'] + join_segments(segs)
        },
    decreases segs.len(),
{
    let front = segs.drop_last();
    let n = segs.last();
    if segs.len() == 1 {
        assert(rel_join_view(path, front) == path);
        assert(join_segments(segs) == segs[0]);
        assert(segs[0] == n);
        if path.len() != 0 {
            assert(child_join_view(path, n) == path + seq!['/'] + n);
        }
    } else {
        assert(all_plain(front));
        lemma_rel_join_form(path, front);
        lemma_join_nonempty(front);
        assert(join_segments(segs) == join_segments(front) + seq!['/'] + n);
        if path.len() == 0 {
            assert(rel_join_view(path, front) == join_segments(front));
            assert(join_segments(front).len() > 0);
            assert(child_join_view(join_segments(front), n) == join_segments(front) + seq!['/']
                + n);
        } else {
            assert(rel_join_view(path, front) == path + seq!['/'] + join_segments(front));
            assert((path + seq!['/'] + join_segments(front)).len() > 0);
            assert(child_join_view(path + seq!['/'] + join_segments(front), n) =~= path + seq!['/']
                + (join_segments(front) + seq!['/'] + n));
        }
    }
}

/// Splitting the joined form of slash-free segments recovers them.
pub proof fn lemma_split_join(segs: Seq<Seq<char>>)
    requires
        all_no_slash(segs),
        segs.len() >= 1,
    ensures
        split_path(join_segments(segs)) == segs,
    decreases segs.len(),
{
    if segs.len() == 1 {
        lemma_split_single(segs[0]);
        assert(seq![segs[0]] =~= segs);
    } else {
        assert(all_no_slash(segs.drop_last()));
        lemma_split_join(segs.drop_last());
        lemma_split_concat(join_segments(segs.drop_last()), segs.last());
        lemma_split_single(segs.last());
        assert(segs.drop_last() + seq![segs.last()] =~= segs);
    }
}

/// `rel_join_view` is injective in the segments.
pub proof fn lemma_rel_join_injective(path: Seq<char>, a: Seq<Seq<char>>, b: Seq<Seq<char>>)
    requires
        all_plain(a),
        all_plain(b),
        rel_join_view(path, a) == rel_join_view(path, b),
    ensures
        a == b,
{
    if a.len() == 0 && b.len() == 0 {
        assert(a =~= b);
    } else if a.len() == 0 {
        lemma_rel_join_form(path, b);
        lemma_join_nonempty(b);
        assert(rel_join_view(path, a) == path);
        assert(false);
    } else if b.len() == 0 {
        lemma_rel_join_form(path, a);
        lemma_join_nonempty(a);
        assert(false);
    } else {
        lemma_rel_join_form(path, a);
        lemma_rel_join_form(path, b);
        lemma_join_nonempty(a);
        lemma_join_nonempty(b);
        if path.len() == 0 {
            assert(join_segments(a) == join_segments(b));
        } else {
            let wa = path + seq!['/'] + join_segments(a);
            let wb = path + seq!['/'] + join_segments(b);
            assert(wa == wb);
            assert(join_segments(a).len() == join_segments(b).len());
            assert(forall|i: int| 0 <= i < join_segments(a).len() ==> join_segments(a)[i]
                == wa[path.len() + 1 + i] && join_segments(b)[i] == wb[path.len() + 1 + i]);
            assert(join_segments(a) =~= join_segments(b));
        }
        lemma_split_join(a);
        lemma_split_join(b);
    }
}

/// `child_join_view` is injective in the name.
pub proof fn lemma_child_join_injective(path: Seq<char>, n1: Seq<char>, n2: Seq<char>)
    requires
        child_join_view(path, n1) == child_join_view(path, n2),
    ensures
        n1 == n2,
{
    if path.len() != 0 {
        let w1 = path + seq!['/'] + n1;
        let w2 = path + seq!['/'] + n2;
        assert(w1.len() == w2.len());
        assert(n1.len() == n2.len());
        assert(forall|i: int| 0 <= i < n1.len() ==> n1[i] == w1[path.len() + 1 + i] && n2[i]
            == w2[path.len() + 1 + i]);
        assert(n1 =~= n2);
    }
}

/// Normalizing leaves an absolute path, and doing it twice is the same as
/// doing it once.
pub proof fn lemma_normalize_idempotent(s: Seq<char>)
    ensures
        is_absolute(normalize_view(s)),
        normalize_view(normalize_view(s)) == normalize_view(s),
{
    let reduced = reduce_segments(split_path(s));
    lemma_split_no_slash(s);
    lemma_reduce_all_plain(split_path(s));
    lemma_resplit_abs(reduced);
}

} // verus!
