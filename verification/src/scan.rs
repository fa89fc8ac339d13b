//! Repository discovery over a directory traversal.
//!
//! The traversal itself (reading the disk) is the runner's job; it hands the
//! library the visited directories and the library decides which of them are
//! repository roots. A root is the parent of a `.git` metadata directory; a
//! repository nested inside another discovered one is never reported on its
//! own — whatever order the directories arrive in, the outermost roots win.

use vstd::prelude::*;
use crate::bytes::DOT;
use crate::bytes::LOWER_G;
use crate::bytes::LOWER_I;
use crate::bytes::LOWER_T;
use crate::path::DirPath;
use crate::path::is_prefix_of;
use crate::path::is_strict_prefix_of;

verus! {

/// The name of the version-control metadata directory, `.git`.
pub open spec fn git_dir_name() -> Seq<u8> {
    seq![DOT, LOWER_G, LOWER_I, LOWER_T]
}

/// `d` is a metadata directory: non-root, and its last component is `.git`.
pub open spec fn is_git_dir(d: Seq<Seq<u8>>) -> bool {
    d.len() > 0 && d.last() == git_dir_name()
}

/// The repository root that a metadata directory marks: its parent.
pub open spec fn root_of(d: Seq<Seq<u8>>) -> Seq<Seq<u8>> {
    d.drop_last()
}

/// The paths of a sequence of directories.
pub open spec fn views_of(v: Seq<DirPath>) -> Seq<Seq<Seq<u8>>> {
    v.map_values(|p: DirPath| p@)
}

/// No reported root lies in the subtree of another (nor repeats one).
pub open spec fn pairwise_unnested(rs: Seq<Seq<Seq<u8>>>) -> bool {
    forall|a: int, b: int|
        0 <= a < rs.len() && 0 <= b < rs.len() && a != b ==> !is_prefix_of(
            #[trigger] rs[a],
            #[trigger] rs[b],
        )
}

/// `r` is the parent of some metadata directory in `ds`.
pub open spec fn root_grounded(ds: Seq<Seq<Seq<u8>>>, r: Seq<Seq<u8>>) -> bool {
    exists|j: int| 0 <= j < ds.len() && is_git_dir(#[trigger] ds[j]) && r == root_of(ds[j])
}

/// Every reported root is the parent of some metadata directory seen.
pub open spec fn roots_from(ds: Seq<Seq<Seq<u8>>>, rs: Seq<Seq<Seq<u8>>>) -> bool {
    forall|a: int| 0 <= a < rs.len() ==> root_grounded(ds, #[trigger] rs[a])
}

/// `root` lies in the subtree of some path in `rs` (or is one).
pub open spec fn covered_by(rs: Seq<Seq<Seq<u8>>>, root: Seq<Seq<u8>>) -> bool {
    exists|a: int| 0 <= a < rs.len() && is_prefix_of(#[trigger] rs[a], root)
}

/// Every repository seen is represented: its root lies in the subtree of a
/// reported root.
pub open spec fn roots_cover(ds: Seq<Seq<Seq<u8>>>, rs: Seq<Seq<Seq<u8>>>) -> bool {
    forall|j: int|
        0 <= j < ds.len() && is_git_dir(#[trigger] ds[j]) ==> covered_by(rs, root_of(ds[j]))
}

/// `x` stands at one of the first `bound` positions of `s`.
pub open spec fn appears_upto(s: Seq<Seq<Seq<u8>>>, bound: int, x: Seq<Seq<u8>>) -> bool {
    exists|a: int| 0 <= a < bound && #[trigger] s[a] == x
}

/// No reported root lies strictly inside another reported root's subtree:
/// what `find_repo_roots` guarantees, stated over the strict relation.
pub proof fn lemma_no_nested_reporting(rs: Seq<Seq<Seq<u8>>>)
    requires
        pairwise_unnested(rs),
    ensures
        forall|a: int, b: int|
            0 <= a < rs.len() && 0 <= b < rs.len() ==> !is_strict_prefix_of(
                #[trigger] rs[a],
                #[trigger] rs[b],
            ),
{
    assert forall|a: int, b: int|
        0 <= a < rs.len() && 0 <= b < rs.len() implies !is_strict_prefix_of(
        rs[a],
        rs[b],
    ) by {
        if a != b {
            assert(!is_prefix_of(rs[a], rs[b]));
        }
    }
}

/// Every path lies in its own subtree.
proof fn lemma_prefix_refl(p: Seq<Seq<u8>>)
    ensures
        is_prefix_of(p, p),
{
    assert(p.subrange(0, p.len() as int) =~= p);
}

/// An ancestor of an ancestor is an ancestor.
proof fn lemma_prefix_trans(a: Seq<Seq<u8>>, b: Seq<Seq<u8>>, c: Seq<Seq<u8>>)
    requires
        is_prefix_of(a, b),
        is_prefix_of(b, c),
    ensures
        is_prefix_of(a, c),
{
    assert forall|i: int| 0 <= i < a.len() implies a[i] == c[i] by {
        assert(a[i] == b.subrange(0, a.len() as int)[i]);
        assert(b[i] == c.subrange(0, b.len() as int)[i]);
    }
    assert(a =~= c.subrange(0, a.len() as int));
}

/// One more directory seen never invalidates where the roots came from.
proof fn lemma_roots_from_extend(ds: Seq<Seq<Seq<u8>>>, x: Seq<Seq<u8>>, rs: Seq<Seq<Seq<u8>>>)
    requires
        roots_from(ds, rs),
    ensures
        roots_from(ds.push(x), rs),
{
    let ds1 = ds.push(x);
    assert forall|a: int| 0 <= a < rs.len() implies root_grounded(ds1, #[trigger] rs[a]) by {
        assert(root_grounded(ds, rs[a]));
        let j = choose|j: int|
            0 <= j < ds.len() && is_git_dir(#[trigger] ds[j]) && rs[a] == root_of(ds[j]);
        assert(ds1[j] == ds[j]);
    }
}

/// One more directory stays covered when it is no repository, or when its
/// root already lies in a reported root's subtree.
proof fn lemma_roots_cover_extend(ds: Seq<Seq<Seq<u8>>>, x: Seq<Seq<u8>>, rs: Seq<Seq<Seq<u8>>>)
    requires
        roots_cover(ds, rs),
        is_git_dir(x) ==> covered_by(rs, root_of(x)),
    ensures
        roots_cover(ds.push(x), rs),
{
    let ds1 = ds.push(x);
    assert forall|j: int| 0 <= j < ds1.len() && is_git_dir(#[trigger] ds1[j]) implies covered_by(
        rs,
        root_of(ds1[j]),
    ) by {
        if j < ds.len() {
            assert(ds1[j] == ds[j]);
        } else {
            assert(ds1[j] == x);
        }
    }
}

/// True exactly when the path's last component is `.git`.
fn has_git_last(d: &DirPath) -> (r: bool)
    ensures
        r == is_git_dir(d@),
{
    let n = d.components.len();
    if n == 0 {
        return false;
    }
    let c = &d.components[n - 1];
    if c.len() == 4 && c[0] == DOT && c[1] == LOWER_G && c[2] == LOWER_I && c[3] == LOWER_T {
        proof {
            assert(d@.last() =~= git_dir_name());
        }
        true
    } else {
        proof {
            if d@.last() == git_dir_name() {
                assert(c@[0] == git_dir_name()[0]);
                assert(c@[1] == git_dir_name()[1]);
                assert(c@[2] == git_dir_name()[2]);
                assert(c@[3] == git_dir_name()[3]);
            }
        }
        false
    }
}

/// Reports the outermost repository roots among the visited directories.
///
/// A directory whose last component is `.git` marks its parent as a root.
/// A candidate already lying in a reported root's subtree is dropped; a
/// candidate that turns out to be an ancestor of reported roots replaces
/// them. So, in whatever order the directories arrive, the report never
/// nests, every root reported is the parent of a `.git` seen, and every
/// repository seen lies in some reported root's subtree.
pub fn find_repo_roots(dirs: &Vec<DirPath>) -> (roots: Vec<DirPath>)
    ensures
        pairwise_unnested(views_of(roots@)),
        roots_from(views_of(dirs@), views_of(roots@)),
        roots_cover(views_of(dirs@), views_of(roots@)),
{
    let ghost ds = views_of(dirs@);
    let mut roots: Vec<DirPath> = Vec::new();
    let mut i: usize = 0;
    while i < dirs.len()
        invariant
            i <= dirs@.len(),
            ds == views_of(dirs@),
            ds.len() == dirs@.len(),
            pairwise_unnested(views_of(roots@)),
            roots_from(ds.subrange(0, i as int), views_of(roots@)),
            roots_cover(ds.subrange(0, i as int), views_of(roots@)),
        decreases dirs@.len() - i,
    {
        let ghost pre = ds.subrange(0, i as int);
        let d = &dirs[i];
        proof {
            assert(ds[i as int] == dirs@[i as int]@);
        }
        if has_git_last(d) {
            let candidate = d.parent();
            let mut covered_now = false;
            let mut k: usize = 0;
            while k < roots.len()
                invariant
                    k <= roots@.len(),
                    candidate@ == d@.drop_last(),
                    covered_now ==> covered_by(views_of(roots@), candidate@),
                    !covered_now ==> forall|a: int|
                        0 <= a < k ==> !is_prefix_of(#[trigger] views_of(roots@)[a], candidate@),
                decreases roots@.len() - k,
            {
                if candidate.starts_with(&roots[k]) {
                    covered_now = true;
                }
                proof {
                    assert(views_of(roots@)[k as int] == roots@[k as int]@);
                }
                k += 1;
            }
            if !covered_now {
                let ghost rs_old = views_of(roots@);
                // Keep only the reported roots outside the candidate's
                // subtree; the candidate then stands for the dropped ones.
                let mut kept: Vec<DirPath> = Vec::new();
                let mut k: usize = 0;
                while k < roots.len()
                    invariant
                        k <= roots@.len(),
                        rs_old == views_of(roots@),
                        rs_old.len() == roots@.len(),
                        candidate@ == d@.drop_last(),
                        pairwise_unnested(rs_old),
                        forall|a: int|
                            0 <= a < rs_old.len() ==> !is_prefix_of(
                                #[trigger] rs_old[a],
                                candidate@,
                            ),
                        pairwise_unnested(views_of(kept@)),
                        forall|m: int|
                            0 <= m < kept@.len() ==> appears_upto(
                                rs_old,
                                k as int,
                                #[trigger] views_of(kept@)[m],
                            ) && !is_prefix_of(candidate@, views_of(kept@)[m]),
                        forall|a: int|
                            0 <= a < k ==> appears_upto(
                                views_of(kept@),
                                kept@.len() as int,
                                #[trigger] rs_old[a],
                            ) || is_prefix_of(candidate@, rs_old[a]),
                    decreases roots@.len() - k,
                {
                    let ghost kept_old = views_of(kept@);
                    if !roots[k].starts_with(&candidate) {
                        kept.push(roots[k].clone_path());
                        proof {
                            assert(views_of(kept@) =~= kept_old.push(rs_old[k as int]));
                            let kept_new = views_of(kept@);
                            assert(kept_new[kept_old.len() as int] == rs_old[k as int]);
                            assert forall|m1: int, m2: int|
                                0 <= m1 < kept_new.len() && 0 <= m2 < kept_new.len() && m1
                                    != m2 implies !is_prefix_of(
                                #[trigger] kept_new[m1],
                                #[trigger] kept_new[m2],
                            ) by {
                                if m1 < kept_old.len() && m2 < kept_old.len() {
                                    assert(kept_new[m1] == kept_old[m1]);
                                    assert(kept_new[m2] == kept_old[m2]);
                                } else if m1 < kept_old.len() {
                                    assert(kept_new[m1] == kept_old[m1]);
                                    let a1 = choose|a: int|
                                        0 <= a < k && #[trigger] rs_old[a] == kept_old[m1];
                                    assert(!is_prefix_of(rs_old[a1], rs_old[k as int]));
                                } else {
                                    assert(kept_new[m2] == kept_old[m2]);
                                    let a2 = choose|a: int|
                                        0 <= a < k && #[trigger] rs_old[a] == kept_old[m2];
                                    assert(!is_prefix_of(rs_old[k as int], rs_old[a2]));
                                }
                            }
                            assert forall|m: int| 0 <= m < kept_new.len() implies appears_upto(
                                rs_old,
                                k as int + 1,
                                #[trigger] kept_new[m],
                            ) && !is_prefix_of(candidate@, kept_new[m]) by {
                                if m < kept_old.len() {
                                    assert(kept_new[m] == kept_old[m]);
                                    let a = choose|a: int|
                                        0 <= a < k && #[trigger] rs_old[a] == kept_old[m];
                                    assert(0 <= a < k + 1 && rs_old[a] == kept_new[m]);
                                }
                            }
                            assert forall|a: int| 0 <= a < k + 1 implies appears_upto(
                                kept_new,
                                kept_new.len() as int,
                                #[trigger] rs_old[a],
                            ) || is_prefix_of(candidate@, rs_old[a]) by {
                                if a < k {
                                    if appears_upto(kept_old, kept_old.len() as int, rs_old[a]) {
                                        let m = choose|m: int|
                                            0 <= m < kept_old.len() && #[trigger] kept_old[m]
                                                == rs_old[a];
                                        assert(kept_new[m] == kept_old[m]);
                                    }
                                } else {
                                    assert(kept_new[kept_old.len() as int] == rs_old[a]);
                                }
                            }
                        }
                    } else {
                        proof {
                            assert(views_of(roots@)[k as int] == roots@[k as int]@);
                            assert(is_prefix_of(candidate@, rs_old[k as int]));
                        }
                    }
                    k += 1;
                }
                let ghost kept_vs = views_of(kept@);
                kept.push(candidate);
                proof {
                    let rs1 = views_of(kept@);
                    assert(rs1 =~= kept_vs.push(root_of(ds[i as int])));
                    let c = root_of(ds[i as int]);
                    // the report still never nests
                    assert forall|m1: int, m2: int|
                        0 <= m1 < rs1.len() && 0 <= m2 < rs1.len() && m1 != m2 implies !is_prefix_of(
                        #[trigger] rs1[m1],
                        #[trigger] rs1[m2],
                    ) by {
                        if m1 < kept_vs.len() && m2 < kept_vs.len() {
                            assert(rs1[m1] == kept_vs[m1]);
                            assert(rs1[m2] == kept_vs[m2]);
                        } else if m1 < kept_vs.len() {
                            assert(rs1[m1] == kept_vs[m1] && rs1[m2] == c);
                            let a = choose|a: int|
                                0 <= a < rs_old.len() && #[trigger] rs_old[a] == kept_vs[m1];
                            assert(!is_prefix_of(rs_old[a], c));
                        } else {
                            assert(rs1[m1] == c && rs1[m2] == kept_vs[m2]);
                        }
                    }
                    // every root reported is the parent of a `.git` seen
                    let pre1 = ds.subrange(0, i as int + 1);
                    assert(pre1 =~= pre.push(ds[i as int]));
                    assert forall|m: int| 0 <= m < rs1.len() implies root_grounded(
                        pre1,
                        #[trigger] rs1[m],
                    ) by {
                        if m < kept_vs.len() {
                            assert(rs1[m] == kept_vs[m]);
                            let a = choose|a: int|
                                0 <= a < rs_old.len() && #[trigger] rs_old[a] == kept_vs[m];
                            assert(root_grounded(pre, rs_old[a]));
                            let j = choose|j: int|
                                0 <= j < pre.len() && is_git_dir(#[trigger] pre[j]) && rs_old[a]
                                    == root_of(pre[j]);
                            assert(pre1[j] == pre[j]);
                        } else {
                            assert(rs1[m] == c);
                            assert(pre1[i as int] == ds[i as int]);
                        }
                    }
                    // every repository seen so far stays covered
                    assert forall|j: int|
                        0 <= j < pre1.len() && is_git_dir(#[trigger] pre1[j]) implies covered_by(
                        rs1,
                        root_of(pre1[j]),
                    ) by {
                        lemma_prefix_refl(c);
                        if j < pre.len() {
                            assert(pre1[j] == pre[j]);
                            assert(covered_by(rs_old, root_of(pre[j])));
                            let a = choose|a: int|
                                0 <= a < rs_old.len() && is_prefix_of(
                                    #[trigger] rs_old[a],
                                    root_of(pre[j]),
                                );
                            if appears_upto(kept_vs, kept_vs.len() as int, rs_old[a]) {
                                let m = choose|m: int|
                                    0 <= m < kept_vs.len() && #[trigger] kept_vs[m] == rs_old[a];
                                assert(rs1[m] == kept_vs[m]);
                            } else {
                                assert(is_prefix_of(c, rs_old[a]));
                                lemma_prefix_trans(c, rs_old[a], root_of(pre[j]));
                                assert(rs1[kept_vs.len() as int] == c);
                            }
                        } else {
                            assert(pre1[j] == ds[i as int]);
                            assert(rs1[kept_vs.len() as int] == c);
                        }
                    }
                }
                roots = kept;
            } else {
                proof {
                    lemma_roots_from_extend(pre, ds[i as int], views_of(roots@));
                    lemma_roots_cover_extend(pre, ds[i as int], views_of(roots@));
                }
            }
        } else {
            proof {
                lemma_roots_from_extend(pre, ds[i as int], views_of(roots@));
                lemma_roots_cover_extend(pre, ds[i as int], views_of(roots@));
            }
        }
        proof {
            assert(ds.subrange(0, i as int + 1) =~= pre.push(ds[i as int]));
        }
        i += 1;
    }
    proof {
        assert(ds.subrange(0, ds.len() as int) =~= ds);
    }
    roots
}

} // verus!
