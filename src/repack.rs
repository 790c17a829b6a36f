//! Replaying the change list that a comparison produced, onto the tree it compared
//! against, gives a tree that the same workspace no longer differs from.
use vstd::prelude::*;
use crate::diff::{
    changes_of, deletes_of, hidden, is_delete, is_update, lemma_lookup_own, updates_of,
    RuleView,
};
use crate::model::ChangeView;
use crate::tree::{
    apply_changes, conflicts, files_wf, insert_spec, keep_clear_of, keep_outside,
    lemma_filter_wf, lookup, remove_spec, under, FileView,
};

verus! {

broadcast use vstd::seq_lib::group_seq_properties;

/// `a` is `b` but for the offset an update may carry.
pub open spec fn same_but_offset(a: ChangeView, b: ChangeView) -> bool {
    match (a, b) {
        (
            ChangeView::Update { path: p1, size: s1, modified: m1, hash: h1, .. },
            ChangeView::Update { path: p2, size: s2, modified: m2, hash: h2, .. },
        ) => p1 == p2 && s1 == s2 && m1 == m2 && h1 == h2,
        (ChangeView::Delete { path: p1 }, ChangeView::Delete { path: p2 }) => p1 == p2,
        _ => false,
    }
}

/// `x` has the path, size, modification time and hash of `f`.
pub open spec fn same_file(x: FileView, f: FileView) -> bool {
    x.path == f.path && x.size == f.size && x.modified == f.modified && x.hash == f.hash
}

/// `p` is the path of a file of `old` that the comparison removes.
pub open spec fn deleted_from(old: Seq<FileView>, new: Seq<FileView>, rules: Seq<RuleView>, p: Seq<
    char,
>) -> bool {
    exists|i: int| 0 <= i < old.len() && old[i].path == p && #[trigger] is_delete(old[i], new, rules)
}

/// `t` holds a file with the path, size, modification time and hash of `f`.
pub open spec fn holds_like(t: Seq<FileView>, f: FileView) -> bool {
    exists|x: FileView| t.contains(x) && #[trigger] same_file(x, f)
}

proof fn lemma_filter_contains_iff(s: Seq<FileView>, pred: spec_fn(FileView) -> bool, x: FileView)
    ensures
        s.filter(pred).contains(x) <==> s.contains(x) && pred(x),
{
    if s.filter(pred).contains(x) {
        s.lemma_filter_contains_rev(pred, x);
        let k = choose|k: int| 0 <= k < s.filter(pred).len() && s.filter(pred)[k] == x;
        s.lemma_filter_pred(pred, k);
    }
    if s.contains(x) && pred(x) {
        let i = choose|i: int| 0 <= i < s.len() && s[i] == x;
        s.lemma_filter_contains(pred, i);
    }
}

proof fn lemma_lookup_some(t: Seq<FileView>, p: Seq<char>)
    requires
        lookup(t, p) is Some,
    ensures
        t.contains(lookup(t, p)->Some_0),
        lookup(t, p)->Some_0.path == p,
    decreases t.len(),
{
    if t[0].path != p {
        lemma_lookup_some(t.drop_first(), p);
        let y = lookup(t, p)->Some_0;
        let k = choose|k: int| 0 <= k < t.drop_first().len() && t.drop_first()[k] == y;
        assert(t[k + 1] == y);
    } else {
        assert(t[0] == lookup(t, p)->Some_0);
    }
}

proof fn lemma_lookup_member(t: Seq<FileView>, x: FileView)
    requires
        files_wf(t),
        t.contains(x),
    ensures
        lookup(t, x.path) == Some(x),
{
    let i = choose|i: int| 0 <= i < t.len() && t[i] == x;
    lemma_lookup_own(t, i);
}

proof fn lemma_apply_concat(t: Seq<FileView>, a: Seq<ChangeView>, b: Seq<ChangeView>, ar: Seq<char>)
    ensures
        apply_changes(t, a + b, ar) == apply_changes(apply_changes(t, a, ar), b, ar),
    decreases b.len(),
{
    if b.len() == 0 {
        assert(a + b =~= a);
    } else {
        assert((a + b).drop_last() =~= a + b.drop_last());
        assert((a + b).last() == b.last());
        lemma_apply_concat(t, a, b.drop_last(), ar);
    }
}

proof fn lemma_updates_from(new: Seq<FileView>, old: Seq<FileView>, rules: Seq<RuleView>)
    ensures
        forall|k: int|
            0 <= k < updates_of(new, old, rules).len() ==> exists|i: int|
                0 <= i < new.len() && new[i] == #[trigger] updates_of(new, old, rules)[k]
                    && is_update(new[i], old, rules),
        forall|i: int|
            0 <= i < new.len() && is_update(#[trigger] new[i], old, rules) ==> updates_of(
                new,
                old,
                rules,
            ).contains(new[i]),
        files_wf(new) ==> files_wf(updates_of(new, old, rules)),
    decreases new.len(),
{
    if new.len() > 0 {
        let d = new.drop_last();
        lemma_updates_from(d, old, rules);
        let u = updates_of(d, old, rules);
        let all = updates_of(new, old, rules);
        let n = new.len() - 1;
        assert(new[n] == new.last());
        assert forall|k: int| 0 <= k < all.len() implies exists|i: int|
            0 <= i < new.len() && new[i] == #[trigger] all[k] && is_update(new[i], old, rules) by {
            if k < u.len() {
                assert(all[k] == u[k]);
                let i = choose|i: int| 0 <= i < d.len() && d[i] == u[k] && is_update(d[i], old, rules);
                assert(new[i] == d[i]);
            } else {
                assert(all[k] == new[n]);
            }
        }
        assert forall|i: int| 0 <= i < new.len() && is_update(#[trigger] new[i], old, rules) implies all.contains(new[i]) by {
            if i < n {
                assert(new[i] == d[i]);
                let k = choose|k: int| 0 <= k < u.len() && u[k] == d[i];
                assert(all[k] == u[k]);
            } else {
                assert(all[all.len() - 1] == new[n]);
            }
        }
        if files_wf(new) {
            assert(files_wf(d)) by {
                assert forall|a: int, b: int|
                    0 <= a < d.len() && 0 <= b < d.len() && a != b implies !conflicts(
                    #[trigger] d[a].path,
                    #[trigger] d[b].path,
                ) by {
                    assert(new[a] == d[a] && new[b] == d[b]);
                }
            }
            assert forall|a: int, b: int|
                0 <= a < all.len() && 0 <= b < all.len() && a != b implies !conflicts(
                #[trigger] all[a].path,
                #[trigger] all[b].path,
            ) by {
                if a < u.len() && b < u.len() {
                    assert(all[a] == u[a] && all[b] == u[b]);
                } else if a < u.len() {
                    let i = choose|i: int| 0 <= i < d.len() && d[i] == u[a] && is_update(d[i], old, rules);
                    assert(all[a] == u[a] && new[i] == d[i] && all[b] == new[n]);
                } else {
                    let i = choose|i: int| 0 <= i < d.len() && d[i] == u[b] && is_update(d[i], old, rules);
                    assert(all[b] == u[b] && new[i] == d[i] && all[a] == new[n]);
                }
            }
        }
    }
}

proof fn lemma_deletes_from(old: Seq<FileView>, new: Seq<FileView>, rules: Seq<RuleView>)
    ensures
        forall|k: int|
            0 <= k < deletes_of(old, new, rules).len() ==> deleted_from(
                old,
                new,
                rules,
                #[trigger] deletes_of(old, new, rules)[k],
            ),
        forall|i: int|
            0 <= i < old.len() && is_delete(#[trigger] old[i], new, rules) ==> deletes_of(
                old,
                new,
                rules,
            ).contains(old[i].path),
    decreases old.len(),
{
    if old.len() > 0 {
        let d = old.drop_last();
        lemma_deletes_from(d, new, rules);
        let u = deletes_of(d, new, rules);
        let all = deletes_of(old, new, rules);
        let n = old.len() - 1;
        assert(old[n] == old.last());
        assert forall|k: int| 0 <= k < all.len() implies deleted_from(old, new, rules, #[trigger] all[k]) by {
            if k < u.len() {
                assert(all[k] == u[k]);
                let i = choose|i: int| 0 <= i < d.len() && d[i].path == u[k] && #[trigger] is_delete(d[i], new, rules);
                assert(old[i] == d[i]);
                assert(0 <= i < old.len() && old[i].path == all[k] && is_delete(old[i], new, rules));
            } else {
                assert(all[k] == old[n].path);
                assert(is_delete(old[n], new, rules));
                assert(0 <= n < old.len() && old[n].path == all[k] && is_delete(old[n], new, rules));
            }
        }
        assert forall|i: int| 0 <= i < old.len() && is_delete(#[trigger] old[i], new, rules) implies all.contains(old[i].path) by {
            if i < n {
                assert(old[i] == d[i]);
                let k = choose|k: int| 0 <= k < u.len() && u[k] == d[i].path;
                assert(all[k] == u[k]);
            } else {
                assert(all[all.len() - 1] == old[n].path);
            }
        }
    }
}

/// Removing each of `ds` in turn keeps exactly the files under none of them.
proof fn lemma_delete_phase(t: Seq<FileView>, cs: Seq<ChangeView>, ds: Seq<Seq<char>>, ar: Seq<char>)
    requires
        files_wf(t),
        cs.len() == ds.len(),
        forall|j: int| 0 <= j < cs.len() ==> #[trigger] cs[j] == (ChangeView::Delete { path: ds[j] }),
    ensures
        files_wf(apply_changes(t, cs, ar)),
        forall|x: FileView|
            #[trigger] apply_changes(t, cs, ar).contains(x) <==> t.contains(x) && forall|j: int|
                0 <= j < ds.len() ==> !under(x.path, #[trigger] ds[j]),
    decreases cs.len(),
{
    if cs.len() > 0 {
        let n = cs.len() - 1;
        lemma_delete_phase(t, cs.drop_last(), ds.drop_last(), ar);
        let r0 = apply_changes(t, cs.drop_last(), ar);
        assert(cs.last() == ChangeView::Delete { path: ds[n] });
        let r = apply_changes(t, cs, ar);
        assert(r == remove_spec(r0, ds[n]));
        lemma_filter_wf(r0, keep_outside(ds[n]));
        assert forall|x: FileView| #[trigger] r.contains(x) <==> t.contains(x) && forall|j: int|
            0 <= j < ds.len() ==> !under(x.path, #[trigger] ds[j]) by {
            lemma_filter_contains_iff(r0, keep_outside(ds[n]), x);
            assert(r0.contains(x) <==> t.contains(x) && forall|j: int|
                0 <= j < ds.drop_last().len() ==> !under(x.path, #[trigger] ds.drop_last()[j]));
            if t.contains(x) && (forall|j: int| 0 <= j < ds.len() ==> !under(x.path, #[trigger] ds[j])) {
                assert forall|j: int| 0 <= j < ds.drop_last().len() implies !under(x.path, #[trigger] ds.drop_last()[j]) by {
                    assert(ds.drop_last()[j] == ds[j]);
                }
            }
            if r.contains(x) {
                assert forall|j: int| 0 <= j < ds.len() implies !under(x.path, #[trigger] ds[j]) by {
                    if j < n {
                        assert(ds.drop_last()[j] == ds[j]);
                    }
                }
            }
        }
    }
}

/// Storing each of `us` in turn keeps the files clear of all of them and adds them.
proof fn lemma_insert_phase(t: Seq<FileView>, cs: Seq<ChangeView>, us: Seq<FileView>, ar: Seq<char>)
    requires
        files_wf(t),
        files_wf(us),
        cs.len() == us.len(),
        forall|j: int|
            0 <= j < cs.len() ==> ((#[trigger] cs[j] is Update) && same_but_offset(
                cs[j],
                crate::diff::update_change(us[j]),
            )),
    ensures
        files_wf(apply_changes(t, cs, ar)),
        forall|x: FileView| #[trigger]
            apply_changes(t, cs, ar).contains(x) ==> ((t.contains(x) && forall|j: int|
                0 <= j < us.len() ==> !conflicts(x.path, #[trigger] us[j].path)) || (exists|j: int|
                0 <= j < us.len() && same_file(x, #[trigger] us[j]))),
        forall|j: int|
            0 <= j < us.len() ==> holds_like(apply_changes(t, cs, ar), #[trigger] us[j]),
        forall|x: FileView|
            t.contains(x) && (forall|j: int|
                0 <= j < us.len() ==> !conflicts(x.path, #[trigger] us[j].path)) ==> #[trigger]
            apply_changes(t, cs, ar).contains(x),
    decreases cs.len(),
{
    if cs.len() > 0 {
        let n = cs.len() - 1;
        let ud = us.drop_last();
        assert(files_wf(ud)) by {
            assert forall|a: int, b: int|
                0 <= a < ud.len() && 0 <= b < ud.len() && a != b implies !conflicts(
                #[trigger] ud[a].path,
                #[trigger] ud[b].path,
            ) by {
                assert(us[a] == ud[a] && us[b] == ud[b]);
            }
        }
        assert forall|j: int| 0 <= j < cs.drop_last().len() implies #[trigger] cs.drop_last()[j] is Update
            && same_but_offset(cs.drop_last()[j], crate::diff::update_change(ud[j])) by {
            assert(cs.drop_last()[j] == cs[j] && ud[j] == us[j]);
        }
        lemma_insert_phase(t, cs.drop_last(), ud, ar);
        let r0 = apply_changes(t, cs.drop_last(), ar);
        let c = cs[n];
        assert(cs.last() == c);
        let f = match c {
            ChangeView::Update { path, offset, size, modified, hash } => FileView {
                path,
                size,
                modified,
                hash,
                backing: crate::tree::BackingView::Archive { archive: ar, offset },
            },
            ChangeView::Delete { .. } => arbitrary(),
        };
        let r = apply_changes(t, cs, ar);
        assert(r == insert_spec(r0, f));
        assert(same_file(f, us[n]));
        crate::tree::lemma_insert_keeps_wf(r0, f);
        let fl = r0.filter(keep_clear_of(f.path));
        assert forall|x: FileView| #[trigger] r.contains(x) implies (t.contains(x) && forall|j: int|
            0 <= j < us.len() ==> !conflicts(x.path, #[trigger] us[j].path)) || exists|j: int|
            0 <= j < us.len() && same_file(x, #[trigger] us[j]) by {
            if x == f {
                assert(same_file(x, us[n]));
            } else {
                assert(fl.contains(x)) by {
                    let k = choose|k: int| 0 <= k < r.len() && r[k] == x;
                    assert(k < fl.len());
                    assert(fl[k] == x);
                }
                lemma_filter_contains_iff(r0, keep_clear_of(f.path), x);
                if t.contains(x) && forall|j: int| 0 <= j < ud.len() ==> !conflicts(x.path, #[trigger] ud[j].path) {
                    assert forall|j: int| 0 <= j < us.len() implies !conflicts(x.path, #[trigger] us[j].path) by {
                        if j < n {
                            assert(ud[j] == us[j]);
                        }
                    }
                } else {
                    let j = choose|j: int| 0 <= j < ud.len() && same_file(x, #[trigger] ud[j]);
                    assert(ud[j] == us[j]);
                }
            }
        }
        assert forall|j: int| 0 <= j < us.len() implies holds_like(r, #[trigger] us[j]) by {
            if j == n {
                assert(r[r.len() - 1] == f);
                assert(r.contains(f));
                assert(r.contains(f) && same_file(f, us[j]));
            } else {
                assert(ud[j] == us[j]);
                assert(holds_like(r0, ud[j]));
                let x = choose|x: FileView| r0.contains(x) && #[trigger] same_file(x, ud[j]);
                assert(!conflicts(us[j].path, us[n].path));
                lemma_filter_contains_iff(r0, keep_clear_of(f.path), x);
                let k = choose|k: int| 0 <= k < fl.len() && fl[k] == x;
                assert(r[k] == x);
                assert(r.contains(x));
                assert(r.contains(x) && same_file(x, us[j]));
            }
        }
        assert forall|x: FileView|
            t.contains(x) && (forall|j: int| 0 <= j < us.len() ==> !conflicts(x.path, #[trigger] us[j].path))
                implies #[trigger] r.contains(x) by {
            assert forall|j: int| 0 <= j < ud.len() implies !conflicts(x.path, #[trigger] ud[j].path) by {
                assert(ud[j] == us[j]);
            }
            assert(r0.contains(x));
            assert(!conflicts(x.path, us[n].path));
            lemma_filter_contains_iff(r0, keep_clear_of(f.path), x);
            let k = choose|k: int| 0 <= k < fl.len() && fl[k] == x;
            assert(r[k] == x);
        }
    }
}

proof fn lemma_no_updates(new: Seq<FileView>, old: Seq<FileView>, rules: Seq<RuleView>)
    requires
        forall|i: int| 0 <= i < new.len() ==> !is_update(#[trigger] new[i], old, rules),
    ensures
        updates_of(new, old, rules).len() == 0,
{
    lemma_updates_from(new, old, rules);
    if updates_of(new, old, rules).len() > 0 {
        let u0 = updates_of(new, old, rules)[0];
        let i = choose|i: int| 0 <= i < new.len() && new[i] == u0 && is_update(new[i], old, rules);
    }
}

proof fn lemma_no_deletes(old: Seq<FileView>, new: Seq<FileView>, rules: Seq<RuleView>)
    requires
        forall|i: int| 0 <= i < old.len() ==> !is_delete(#[trigger] old[i], new, rules),
    ensures
        deletes_of(old, new, rules).len() == 0,
{
    lemma_deletes_from(old, new, rules);
    if deletes_of(old, new, rules).len() > 0 {
        assert(deleted_from(old, new, rules, deletes_of(old, new, rules)[0]));
    }
}

/// Replaying the change list that comparing `w` with `h` produced, whatever offsets its
/// updates carry, onto `h` gives a tree that `w` no longer differs from: packing the
/// same workspace again finds no change.
pub proof fn lemma_replay_own_changes(
    w: Seq<FileView>,
    h: Seq<FileView>,
    rules: Seq<RuleView>,
    changes: Seq<ChangeView>,
    archive: Seq<char>,
)
    requires
        files_wf(w),
        files_wf(h),
        changes.len() == changes_of(w, h, rules).len(),
        forall|i: int|
            0 <= i < changes.len() ==> same_but_offset(
                #[trigger] changes[i],
                changes_of(w, h, rules)[i],
            ),
    ensures
        updates_of(w, apply_changes(h, changes, archive), rules).len() == 0,
        deletes_of(apply_changes(h, changes, archive), w, rules).len() == 0,
{
    let ds = deletes_of(h, w, rules);
    let us = updates_of(w, h, rules);
    let all = changes_of(w, h, rules);
    let nd = ds.len() as int;
    let a = changes.take(nd);
    let b = changes.skip(nd);
    assert(changes =~= a + b);
    assert forall|j: int| 0 <= j < a.len() implies #[trigger] a[j] == (ChangeView::Delete {
        path: ds[j],
    }) by {
        assert(all[j] == ChangeView::Delete { path: ds[j] });
        assert(same_but_offset(changes[j], all[j]));
    }
    assert forall|j: int| 0 <= j < b.len() implies ((#[trigger] b[j] is Update) && same_but_offset(
        b[j],
        crate::diff::update_change(us[j]),
    )) by {
        assert(all[nd + j] == crate::diff::update_change(us[j]));
        assert(same_but_offset(changes[nd + j], all[nd + j]));
        assert(b[j] == changes[nd + j]);
    }
    lemma_apply_concat(h, a, b, archive);
    let h1 = apply_changes(h, a, archive);
    let t2 = apply_changes(h, changes, archive);
    lemma_delete_phase(h, a, ds, archive);
    lemma_updates_from(w, h, rules);
    lemma_deletes_from(h, w, rules);
    lemma_insert_phase(h1, b, us, archive);
    assert(t2 == apply_changes(h1, b, archive));
    // every deleted path is the path of a file of `h` that `w` lacks
    assert forall|x: FileView, j: int|
        #[trigger] h.contains(x) && lookup(w, x.path) is Some && 0 <= j < ds.len() implies !under(
        x.path,
        #[trigger] ds[j],
    ) by {
        assert(deleted_from(h, w, rules, ds[j]));
        let m = choose|m: int| 0 <= m < h.len() && h[m].path == ds[j] && #[trigger] is_delete(
            h[m],
            w,
            rules,
        );
        let q = choose|q: int| 0 <= q < h.len() && h[q] == x;
        if q != m {
            assert(!conflicts(h[q].path, h[m].path));
        }
    }
    assert forall|i: int| 0 <= i < w.len() implies !is_update(#[trigger] w[i], t2, rules) by {
        let f = w[i];
        if !hidden(f.path, rules) {
            lemma_lookup_own(w, i);
            if is_update(f, h, rules) {
                let j = choose|j: int| 0 <= j < us.len() && us[j] == f;
                assert(crate::repack::holds_like(t2, us[j]));
                let x = choose|x: FileView| t2.contains(x) && #[trigger] same_file(x, us[j]);
                lemma_lookup_member(t2, x);
            } else {
                let o = lookup(h, f.path)->Some_0;
                lemma_lookup_some(h, f.path);
                assert forall|j: int| 0 <= j < ds.len() implies !under(o.path, #[trigger] ds[j]) by {}
                assert(h1.contains(o));
                assert forall|j: int| 0 <= j < us.len() implies !conflicts(o.path, #[trigger] us[j].path) by {
                    let p = choose|p: int| 0 <= p < w.len() && w[p] == us[j] && is_update(w[p], h, rules);
                    if p == i {
                        assert(is_update(f, h, rules));
                    }
                }
                assert(t2.contains(o));
                lemma_lookup_member(t2, o);
            }
        }
    }
    lemma_no_updates(w, t2, rules);
    assert forall|k: int| 0 <= k < t2.len() implies !is_delete(#[trigger] t2[k], w, rules) by {
        let x = t2[k];
        assert(t2.contains(x));
        if h1.contains(x) && forall|j: int| 0 <= j < us.len() ==> !conflicts(x.path, #[trigger] us[j].path) {
            if !hidden(x.path, rules) && lookup(w, x.path) is None {
                let q = choose|q: int| 0 <= q < h.len() && h[q] == x;
                assert(is_delete(h[q], w, rules));
                let j = choose|j: int| 0 <= j < ds.len() && ds[j] == h[q].path;
                assert(under(x.path, ds[j]));
            }
        } else {
            let j = choose|j: int| 0 <= j < us.len() && same_file(x, #[trigger] us[j]);
            let p = choose|p: int| 0 <= p < w.len() && w[p] == us[j] && is_update(w[p], h, rules);
            lemma_lookup_own(w, p);
        }
    }
    lemma_no_deletes(t2, w, rules);
}

} // verus!
