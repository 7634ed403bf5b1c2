use vstd::prelude::*;
use crate::scope::{sanitize_table_name, sanitized};
use crate::store::{
    contains_name, lemma_remove_listed_membership, name_listed, remove_listed, rows_contain,
    rows_have, rows_of, rows_sorted, rows_unique, TimestampStore,
};

verus! {

/// Why a reconciliation fails.
#[derive(Clone, Copy, Debug, PartialEq, Eq, Structural)]
pub enum ReconcileError {
    /// The path has no usable parent directory.
    NotResolvable,
    /// Listing the directory or inspecting a file failed.
    FilesystemError,
    /// The persisted store could not be read or written.
    StoreError,
}

impl ReconcileError {
    /// A short description of the failure, for display.
    pub fn message(&self) -> (r: String)
        ensures
            match self {
                ReconcileError::NotResolvable => r@ == "Could not get parent directory"@,
                ReconcileError::FilesystemError => r@ == "Could not read the directory"@,
                ReconcileError::StoreError => r@ == "Could not access the timestamp store"@,
            },
    {
        match self {
            ReconcileError::NotResolvable => String::from_str("Could not get parent directory"),
            ReconcileError::FilesystemError => String::from_str("Could not read the directory"),
            ReconcileError::StoreError => String::from_str(
                "Could not access the timestamp store",
            ),
        }
    }
}

/// The reconciler's output record: an absolute path and the capture instant.
#[derive(Debug)]
pub struct ImageInfo {
    pub path: String,
    pub shot_at: i64,
}

/// Whether position `i` of `path` holds the last separator of the path.
pub open spec fn is_last_sep(path: Seq<char>, i: int) -> bool {
    &&& 0 <= i < path.len()
    &&& path[i] == '/'
    &&& forall|j: int| i < j < path.len() ==> path[j] != '/'
}

/// The effective directory of a file path: everything before the last
/// separator, or the root when the last separator leads the path.
pub open spec fn parent_of(path: Seq<char>, i: int) -> Seq<char> {
    if i == 0 {
        seq!['/']
    } else {
        path.take(i)
    }
}

/// Resolves the directory a reconciliation works on: the path itself when it
/// names a directory, else its parent; a path with no parent (the root, or a
/// separator-free path) is not resolvable.
pub fn resolve_effective_dir(path: &String, is_dir: bool) -> (r: Result<String, ReconcileError>)
    ensures
        match r {
            Ok(d) => {
                ||| (is_dir && d@ == path@)
                ||| (!is_dir && exists|i: int|
                    is_last_sep(path@, i) && d@ == parent_of(path@, i) && parent_of(path@, i).len()
                        < path@.len())
            },
            Err(e) => {
                &&& e == ReconcileError::NotResolvable
                &&& !is_dir
                &&& forall|i: int|
                    is_last_sep(path@, i) ==> parent_of(path@, i).len() >= path@.len()
            },
        },
{
    if is_dir {
        return Ok(path.clone());
    }
    let n = path.unicode_len();
    let mut i: usize = n;
    while i > 0 && path.as_str().get_char(i - 1) != '/'
        invariant
            i <= n,
            n == path@.len(),
            forall|j: int| i <= j < n ==> path@[j] != '/',
        decreases i,
    {
        i = i - 1;
    }
    if i == 0 {
        // No separator at all: a bare relative name has no usable parent.
        return Err(ReconcileError::NotResolvable);
    }
    let p = i - 1;
    proof {
        assert(is_last_sep(path@, p as int));
        assert(forall|k: int| is_last_sep(path@, k) ==> k == p as int);
    }
    if p == 0 {
        if n == 1 {
            // The path is the root itself: it has no parent.
            return Err(ReconcileError::NotResolvable);
        }
        let d = String::from_str("/");
        proof {
            reveal_strlit("/");
            assert(d@ =~= seq!['/']);
        }
        Ok(d)
    } else {
        let d = path.as_str().substring_char(0, p).to_owned();
        proof {
            assert(d@ =~= path@.take(p as int));
        }
        Ok(d)
    }
}

/// The absolute path of `name` inside `dir`.
pub open spec fn joined(dir: Seq<char>, name: Seq<char>) -> Seq<char> {
    if dir.len() > 0 && dir[dir.len() - 1] == '/' {
        dir + name
    } else {
        dir + seq!['/'] + name
    }
}

/// Joins a directory path and a filename into one path.
pub fn join_path(dir: &String, name: &String) -> (r: String)
    ensures
        r@ == joined(dir@, name@),
{
    let n = dir.unicode_len();
    let mut out = dir.clone();
    if n == 0 || !(dir.as_str().get_char(n - 1) == '/') {
        out.append("/");
        proof {
            reveal_strlit("/");
            assert("/"@ =~= seq!['/']);
        }
    }
    out.append(name.as_str());
    out
}

/// The names of `xs` that are not listed in `ys`, in order: a set difference
/// that keeps the left operand's order.
pub open spec fn not_listed(xs: Seq<Seq<char>>, ys: Seq<Seq<char>>) -> Seq<Seq<char>>
    decreases xs.len(),
{
    if xs.len() == 0 {
        Seq::empty()
    } else {
        let rest = not_listed(xs.drop_last(), ys);
        if name_listed(ys, xs.last()) {
            rest
        } else {
            rest.push(xs.last())
        }
    }
}

/// What the difference holds: exactly the names of `xs` that `ys` lacks.
pub proof fn lemma_not_listed_membership(xs: Seq<Seq<char>>, ys: Seq<Seq<char>>)
    ensures
        forall|k: int|
            0 <= k < not_listed(xs, ys).len() ==> name_listed(xs, #[trigger] not_listed(xs, ys)[k])
                && !name_listed(ys, not_listed(xs, ys)[k]),
        forall|n: Seq<char>|
            name_listed(xs, n) && !name_listed(ys, n) ==> name_listed(not_listed(xs, ys), n),
    decreases xs.len(),
{
    let out = not_listed(xs, ys);
    if xs.len() > 0 {
        let prev = xs.drop_last();
        lemma_not_listed_membership(prev, ys);
        let rest = not_listed(prev, ys);
        assert(forall|j: int| 0 <= j < prev.len() ==> prev[j] == xs[j]);
        assert forall|k: int| 0 <= k < out.len() implies name_listed(xs, #[trigger] out[k])
            && !name_listed(ys, out[k]) by {
            if k < rest.len() {
                assert(out[k] == rest[k]);
                let w = choose|w: int| 0 <= w < prev.len() && prev[w] == rest[k];
                assert(xs[w] == rest[k]);
            } else {
                assert(out[k] == xs.last());
                assert(xs[xs.len() - 1] == xs.last());
            }
        }
        assert forall|n: Seq<char>| name_listed(xs, n) && !name_listed(ys, n) implies name_listed(
            out,
            n,
        ) by {
            let w = choose|w: int| 0 <= w < xs.len() && xs[w] == n;
            if w < xs.len() - 1 {
                assert(prev[w] == n);
                assert(name_listed(rest, n));
                let v = choose|v: int| 0 <= v < rest.len() && rest[v] == n;
                assert(out[v] == rest[v]);
            } else {
                assert(xs.last() == n);
                assert(out[out.len() - 1] == n);
            }
        }
    }
}

/// Removing no names keeps the rows exactly as they are.
pub proof fn lemma_remove_none(rows: Seq<(Seq<char>, i64)>, names: Seq<Seq<char>>)
    requires
        names.len() == 0,
    ensures
        remove_listed(rows, names) == rows,
    decreases rows.len(),
{
    if rows.len() > 0 {
        lemma_remove_none(rows.drop_last(), names);
        assert(remove_listed(rows, names) =~= rows);
    } else {
        assert(remove_listed(rows, names) =~= rows);
    }
}

/// Computes the two set differences of a reconciliation: which filesystem
/// names the cache lacks, and which cached names the filesystem lacks.
#[verifier::loop_isolation(false)]
pub fn compute_diff(fs_names: &Vec<String>, cache_names: &Vec<String>) -> (r: (
    Vec<String>,
    Vec<String>,
))
    ensures
        r.0.deep_view() == not_listed(fs_names.deep_view(), cache_names.deep_view()),
        r.1.deep_view() == not_listed(cache_names.deep_view(), fs_names.deep_view()),
{
    let to_add = diff_names(fs_names, cache_names);
    let to_remove = diff_names(cache_names, fs_names);
    (to_add, to_remove)
}

/// The names of `xs` that `ys` lacks, in `xs`'s order.
#[verifier::loop_isolation(false)]
fn diff_names(xs: &Vec<String>, ys: &Vec<String>) -> (r: Vec<String>)
    ensures
        r.deep_view() == not_listed(xs.deep_view(), ys.deep_view()),
{
    let mut out: Vec<String> = Vec::new();
    let mut i: usize = 0;
    while i < xs.len()
        invariant
            i <= xs@.len(),
            out.deep_view() == not_listed(xs.deep_view().take(i as int), ys.deep_view()),
        decreases xs@.len() - i,
    {
        let ghost prefix = xs.deep_view().take(i as int);
        let ghost next = xs.deep_view().take(i + 1);
        proof {
            assert(next.drop_last() =~= prefix);
            assert(next.last() == xs@[i as int]@);
        }
        let ghost before = out.deep_view();
        if !contains_name(ys, &xs[i]) {
            out.push(xs[i].clone());
            proof {
                assert(out.deep_view() =~~= before.push(xs@[i as int]@));
            }
        }
        i += 1;
    }
    proof {
        assert(xs.deep_view().take(xs@.len() as int) =~= xs.deep_view());
    }
    out
}

/// The filenames of a scope's rows, in stored order.
pub open spec fn row_names(rows: Seq<(Seq<char>, i64)>) -> Seq<Seq<char>> {
    Seq::new(rows.len(), |i: int| rows[i].0)
}

/// A row name is listed among the row names exactly when the rows contain it.
pub proof fn lemma_row_names_listed(rows: Seq<(Seq<char>, i64)>)
    ensures
        forall|n: Seq<char>| name_listed(row_names(rows), n) == rows_contain(rows, n),
{
    assert forall|n: Seq<char>| name_listed(row_names(rows), n) == rows_contain(rows, n) by {
        if name_listed(row_names(rows), n) {
            let w = choose|w: int| 0 <= w < row_names(rows).len() && row_names(rows)[w] == n;
            assert(rows[w].0 == n);
        }
        if rows_contain(rows, n) {
            let w = choose|w: int| 0 <= w < rows.len() && rows[w].0 == n;
            assert(row_names(rows)[w] == n);
        }
    }
}

/// What one reconciliation pass has to do: the scope it works in, the new
/// files to resolve and insert, and the vanished files to delete.
#[derive(Debug)]
pub struct ReconcilePlan {
    pub scope: String,
    pub to_add: Vec<String>,
    pub to_remove: Vec<String>,
}

/// The names of the resolved additions, in order.
pub open spec fn addition_names(adds: Seq<(String, i64)>) -> Seq<Seq<char>> {
    Seq::new(adds.len(), |i: int| adds[i].0@)
}

/// Whether the additions carry the pair (`n`, `t`).
pub open spec fn additions_have(adds: Seq<(String, i64)>, n: Seq<char>, t: i64) -> bool {
    exists|i: int| 0 <= i < adds.len() && adds[i].0@ == n && adds[i].1 == t
}

/// No filename appears in two additions.
pub open spec fn additions_unique(adds: Seq<(String, i64)>) -> bool {
    forall|i: int, j: int| 0 <= i < j < adds.len() ==> adds[i].0@ != adds[j].0@
}

/// Opens the scope a directory's cache lives in and plans the pass: the scope
/// name is derived from the directory path, the scope is created if absent,
/// and the plan holds the two set differences between the directory listing
/// and the cached filenames.
pub fn plan_reconcile(store: &mut TimestampStore, dir: &String, fs_names: &Vec<String>) -> (p:
    ReconcilePlan)
    requires
        old(store).wf(),
    ensures
        final(store).wf(),
        p.scope@ == sanitized(dir@),
        final(store).has_scope(p.scope@),
        forall|sc: Seq<char>|
            final(store).has_scope(sc) <==> (old(store).has_scope(sc) || sc == sanitized(dir@)),
        final(store).scope_rows(sanitized(dir@)) == if old(store).has_scope(sanitized(dir@)) {
            old(store).scope_rows(sanitized(dir@))
        } else {
            Seq::<(Seq<char>, i64)>::empty()
        },
        forall|sc: Seq<char>|
            sc != sanitized(dir@) ==> final(store).scope_rows(sc) == old(store).scope_rows(sc),
        p.to_add.deep_view() == not_listed(
            fs_names.deep_view(),
            row_names(final(store).scope_rows(sanitized(dir@))),
        ),
        p.to_remove.deep_view() == not_listed(
            row_names(final(store).scope_rows(sanitized(dir@))),
            fs_names.deep_view(),
        ),
{
    let scope = sanitize_table_name(dir.as_str());
    store.ensure_scope(&scope);
    let cache_names = store.list_filenames(&scope);
    proof {
        assert(cache_names.deep_view() =~~= row_names(store.scope_rows(scope@)));
    }
    let (to_add, to_remove) = compute_diff(fs_names, &cache_names);
    ReconcilePlan { scope, to_add, to_remove }
}

/// The membership a partly committed scope has: a pair is cached exactly when
/// it was added in this pass, or survived the deletions and was not replaced.
pub open spec fn committed_rows(
    rows: Seq<(Seq<char>, i64)>,
    kept: Seq<(Seq<char>, i64)>,
    adds: Seq<(String, i64)>,
) -> bool {
    forall|n: Seq<char>, t: i64|
        #![trigger rows_have(kept, n, t)]
        #![trigger rows_have(rows, n, t)]
        rows_have(rows, n, t) <==> (additions_have(adds, n, t) || (rows_have(kept, n, t)
            && !name_listed(addition_names(adds), n)))
}

/// Applies a planned pass: deletes the vanished files in one atomic step,
/// inserts every resolved addition, and returns the scope's entries ordered
/// by capture instant, each under its absolute path.
#[verifier::loop_isolation(false)]
#[verifier::rlimit(100)]
pub fn commit_reconcile(
    store: &mut TimestampStore,
    dir: &String,
    plan: &ReconcilePlan,
    additions: &Vec<(String, i64)>,
) -> (r: Vec<ImageInfo>)
    requires
        old(store).wf(),
        old(store).has_scope(plan.scope@),
        additions_unique(additions@),
    ensures
        final(store).wf(),
        forall|sc: Seq<char>| final(store).has_scope(sc) == old(store).has_scope(sc),
        forall|sc: Seq<char>|
            sc != plan.scope@ ==> final(store).scope_rows(sc) == old(store).scope_rows(sc),
        ({
            let rows0 = old(store).scope_rows(plan.scope@);
            let kept = remove_listed(rows0, plan.to_remove.deep_view());
            let rows2 = final(store).scope_rows(plan.scope@);
            &&& committed_rows(rows2, kept, additions@)
            &&& rows_sorted(rows2)
            &&& rows_unique(rows2)
            &&& (plan.to_remove@.len() == 0 && additions@.len() == 0) ==> rows2 == rows0
        }),
        ({
            let rows2 = final(store).scope_rows(plan.scope@);
            &&& r@.len() == rows2.len()
            &&& forall|i: int|
                0 <= i < r@.len() ==> (#[trigger] r@[i]).path@ == joined(dir@, rows2[i].0)
                    && r@[i].shot_at == rows2[i].1
        }),
{
    let ghost rows0 = store.scope_rows(plan.scope@);
    let ghost kept = remove_listed(rows0, plan.to_remove.deep_view());
    let mut work = TimestampStore::new();
    core::mem::swap(store, &mut work);
    if plan.to_remove.len() > 0 {
        work.delete_many(&plan.scope, &plan.to_remove);
    } else {
        proof {
            lemma_remove_none(rows0, plan.to_remove.deep_view());
        }
    }
    proof {
        assert(work.scope_rows(plan.scope@) == kept);
        work.lemma_scope_invariants(plan.scope@);
    }
    let mut i: usize = 0;
    while i < additions.len()
        invariant
            i <= additions@.len(),
            work.wf(),
            work.has_scope(plan.scope@),
            forall|sc: Seq<char>| work.has_scope(sc) == old(store).has_scope(sc),
            forall|sc: Seq<char>|
                sc != plan.scope@ ==> work.scope_rows(sc) == old(store).scope_rows(sc),
            (plan.to_remove@.len() == 0 && i == 0) ==> work.scope_rows(plan.scope@) == rows0,
            committed_rows(work.scope_rows(plan.scope@), kept, additions@.take(i as int)),
        decreases additions@.len() - i,
    {
        let ghost cur = work.scope_rows(plan.scope@);
        proof {
            assert(committed_rows(cur, kept, additions@.take(i as int)));
        }
        work.upsert(&plan.scope, &additions[i].0, additions[i].1);
        proof {
            let nxt = work.scope_rows(plan.scope@);
            let name = additions@[i as int].0@;
            let t0 = additions@[i as int].1;
            let ghost prefix = additions@.take(i as int);
            let ghost next = additions@.take(i + 1);
            assert(next[i as int] == additions@[i as int]);
            assert(addition_names(next)[i as int] == name);
            assert(name_listed(addition_names(next), name));
            assert forall|n: Seq<char>, t: i64| rows_have(nxt, n, t) implies (additions_have(
                next,
                n,
                t,
            ) || (rows_have(kept, n, t) && !name_listed(addition_names(next), n))) by {
                if n == name {
                    assert(t == t0);
                    assert(next[i as int].0@ == n && next[i as int].1 == t);
                    assert(additions_have(next, n, t));
                } else {
                    assert(rows_have(cur, n, t));
                    if additions_have(prefix, n, t) {
                        let w = choose|w: int|
                            0 <= w < prefix.len() && prefix[w].0@ == n && prefix[w].1 == t;
                        assert(next[w] == prefix[w]);
                        assert(additions_have(next, n, t));
                    } else {
                        assert(rows_have(kept, n, t) && !name_listed(addition_names(prefix), n));
                        assert(!name_listed(addition_names(next), n)) by {
                            if name_listed(addition_names(next), n) {
                                let w = choose|w: int|
                                    0 <= w < next.len() && addition_names(next)[w] == n;
                                assert(next[w].0@ == n);
                                assert(w != i as int);
                                assert(prefix[w] == next[w]);
                                assert(addition_names(prefix)[w] == n);
                            }
                        }
                    }
                }
            }
            assert forall|n: Seq<char>, t: i64| (additions_have(next, n, t) || (rows_have(
                kept,
                n,
                t,
            ) && !name_listed(addition_names(next), n))) implies rows_have(nxt, n, t) by {
                if additions_have(next, n, t) {
                    let w = choose|w: int|
                        0 <= w < next.len() && next[w].0@ == n && next[w].1 == t;
                    if w == i as int {
                        assert(n == name && t == t0);
                        assert(rows_have(nxt, n, t));
                    } else {
                        assert(prefix[w] == next[w]);
                        assert(additions_have(prefix, n, t));
                        assert(n != name) by {
                            assert(additions@[w].0@ == n);
                            assert(additions@[i as int].0@ == name);
                        }
                        assert(rows_have(cur, n, t));
                        assert(rows_have(nxt, n, t));
                    }
                } else {
                    assert(rows_have(kept, n, t) && !name_listed(addition_names(next), n));
                    assert(n != name);
                    assert(!name_listed(addition_names(prefix), n)) by {
                        if name_listed(addition_names(prefix), n) {
                            let w = choose|w: int|
                                0 <= w < prefix.len() && addition_names(prefix)[w] == n;
                            assert(prefix[w].0@ == n);
                            assert(next[w] == prefix[w]);
                            assert(addition_names(next)[w] == n);
                        }
                    }
                    assert(rows_have(cur, n, t));
                    assert(rows_have(nxt, n, t));
                }
            }
            assert(committed_rows(nxt, kept, next));
        }
        i += 1;
    }
    proof {
        assert(additions@.take(additions@.len() as int) =~= additions@);
    }
    let entries = work.list_sorted(&plan.scope);
    let ghost rows2 = work.scope_rows(plan.scope@);
    let mut out: Vec<ImageInfo> = Vec::new();
    let mut j: usize = 0;
    while j < entries.len()
        invariant
            j <= entries@.len(),
            rows_of(entries@) == rows2,
            out@.len() == j,
            forall|k: int|
                0 <= k < j ==> (#[trigger] out@[k]).path@ == joined(dir@, rows2[k].0)
                    && out@[k].shot_at == rows2[k].1,
        decreases entries@.len() - j,
    {
        let p = join_path(dir, &entries[j].filename);
        out.push(ImageInfo { path: p, shot_at: entries[j].captured_at });
        proof {
            assert(rows_of(entries@)[j as int] == (entries@[j as int].filename@, entries@[
                j as int].captured_at));
        }
        j += 1;
    }
    core::mem::swap(store, &mut work);
    out
}

/// Rows contain a name exactly when they have a pair carrying it.
pub proof fn lemma_contain_have(rows: Seq<(Seq<char>, i64)>)
    ensures
        forall|n: Seq<char>, t: i64| rows_have(rows, n, t) ==> rows_contain(rows, n),
        forall|n: Seq<char>|
            #[trigger] rows_contain(rows, n) ==> rows_have(rows, n, row_time(rows, n)),
{
    assert forall|n: Seq<char>| #[trigger] rows_contain(rows, n) implies rows_have(
        rows,
        n,
        row_time(rows, n),
    ) by {
        let w = choose|w: int| 0 <= w < rows.len() && rows[w].0 == n;
        let t = row_time(rows, n);
        assert(exists|k: int| 0 <= k < rows.len() && rows[k].0 == n && rows[k].1 == rows[k].1);
        let v = choose|k: int| 0 <= k < rows.len() && rows[k].0 == n && rows[k].1 == t;
    }
}

/// The instant recorded for a cached name, when the rows contain it.
pub open spec fn row_time(rows: Seq<(Seq<char>, i64)>, n: Seq<char>) -> i64 {
    let k = choose|k: int| 0 <= k < rows.len() && rows[k].0 == n;
    rows[k].1
}

/// Convergence law: after one reconciliation pass over the directory listing
/// `fs`, the cached filenames are exactly the image files on disk, minus the
/// new files whose timestamp the pass could not resolve. `rows0` is the cache
/// before the pass, `adds` the resolved additions, `rows1` the cache after.
pub proof fn lemma_reconcile_convergence(
    rows0: Seq<(Seq<char>, i64)>,
    fs: Seq<Seq<char>>,
    adds: Seq<(String, i64)>,
    rows1: Seq<(Seq<char>, i64)>,
)
    requires
        forall|k: int|
            0 <= k < adds.len() ==> name_listed(
                not_listed(fs, row_names(rows0)),
                #[trigger] adds[k].0@,
            ),
        committed_rows(
            rows1,
            remove_listed(rows0, not_listed(row_names(rows0), fs)),
            adds,
        ),
    ensures
        forall|n: Seq<char>|
            #[trigger] rows_contain(rows1, n) <==> (name_listed(fs, n) && (rows_contain(rows0, n)
                || name_listed(addition_names(adds), n))),
{
    let rn0 = row_names(rows0);
    let to_remove = not_listed(rn0, fs);
    let kept = remove_listed(rows0, to_remove);
    lemma_remove_listed_membership(rows0, to_remove);
    lemma_not_listed_membership(rn0, fs);
    lemma_not_listed_membership(fs, rn0);
    lemma_row_names_listed(rows0);
    lemma_contain_have(rows1);
    lemma_contain_have(kept);
    assert forall|n: Seq<char>| #[trigger] rows_contain(rows1, n) implies (name_listed(fs, n) && (
    rows_contain(rows0, n) || name_listed(addition_names(adds), n))) by {
        let t = row_time(rows1, n);
        assert(rows_have(rows1, n, t));
        if additions_have(adds, n, t) {
            let w = choose|w: int| 0 <= w < adds.len() && adds[w].0@ == n && adds[w].1 == t;
            assert(addition_names(adds)[w] == n);
            assert(name_listed(not_listed(fs, rn0), n));
            let v = choose|v: int|
                0 <= v < not_listed(fs, rn0).len() && not_listed(fs, rn0)[v] == n;
            assert(name_listed(fs, n));
        } else {
            assert(rows_have(kept, n, t));
            let w = choose|w: int| 0 <= w < kept.len() && kept[w].0 == n && kept[w].1 == t;
            assert(!name_listed(to_remove, kept[w].0));
            let v = choose|v: int| 0 <= v < rows0.len() && rows0[v] == kept[w];
            assert(rows_contain(rows0, n));
            assert(name_listed(rn0, n)) by {
                assert(row_names(rows0)[v] == n);
            }
            if !name_listed(fs, n) {
                assert(name_listed(to_remove, n));
            }
        }
    }
    assert forall|n: Seq<char>| (name_listed(fs, n) && (rows_contain(rows0, n) || name_listed(
        addition_names(adds),
        n,
    ))) implies #[trigger] rows_contain(rows1, n) by {
        if name_listed(addition_names(adds), n) {
            let w = choose|w: int|
                0 <= w < addition_names(adds).len() && addition_names(adds)[w] == n;
            assert(adds[w].0@ == n);
            assert(additions_have(adds, n, adds[w].1));
            assert(rows_have(rows1, n, adds[w].1));
        } else {
            let v = choose|v: int| 0 <= v < rows0.len() && rows0[v].0 == n;
            assert(!name_listed(to_remove, rows0[v].0)) by {
                if name_listed(to_remove, n) {
                    let u = choose|u: int| 0 <= u < to_remove.len() && to_remove[u] == n;
                    assert(!name_listed(fs, to_remove[u]));
                }
            }
            assert(rows_have(kept, rows0[v].0, rows0[v].1));
            assert(rows_have(rows1, n, rows0[v].1));
        }
    }
}

/// Idempotence law: a second reconciliation pass over the same directory
/// listing plans no deletions at all, and plans to add exactly the files the
/// first pass could not resolve; with the same resolver answers it therefore
/// issues no writes, and the committed rows stay exactly as they were.
pub proof fn lemma_reconcile_idempotent(
    rows0: Seq<(Seq<char>, i64)>,
    fs: Seq<Seq<char>>,
    adds: Seq<(String, i64)>,
    rows1: Seq<(Seq<char>, i64)>,
)
    requires
        forall|k: int|
            0 <= k < adds.len() ==> name_listed(
                not_listed(fs, row_names(rows0)),
                #[trigger] adds[k].0@,
            ),
        committed_rows(
            rows1,
            remove_listed(rows0, not_listed(row_names(rows0), fs)),
            adds,
        ),
    ensures
        not_listed(row_names(rows1), fs).len() == 0,
        forall|n: Seq<char>|
            #[trigger] name_listed(not_listed(fs, row_names(rows1)), n) <==> (name_listed(
                not_listed(fs, row_names(rows0)),
                n,
            ) && !name_listed(addition_names(adds), n)),
{
    lemma_reconcile_convergence(rows0, fs, adds, rows1);
    let rn0 = row_names(rows0);
    let rn1 = row_names(rows1);
    lemma_not_listed_membership(rn1, fs);
    lemma_not_listed_membership(fs, rn1);
    lemma_not_listed_membership(fs, rn0);
    lemma_row_names_listed(rows0);
    lemma_row_names_listed(rows1);
    if not_listed(rn1, fs).len() > 0 {
        let e = not_listed(rn1, fs)[0];
        assert(name_listed(rn1, e) && !name_listed(fs, e));
        assert(rows_contain(rows1, e));
        assert(false);
    }
    assert forall|n: Seq<char>|
        #[trigger] name_listed(not_listed(fs, rn1), n) <==> (name_listed(not_listed(fs, rn0), n)
            && !name_listed(addition_names(adds), n)) by {
        if name_listed(not_listed(fs, rn1), n) {
            let w = choose|w: int|
                0 <= w < not_listed(fs, rn1).len() && not_listed(fs, rn1)[w] == n;
            assert(name_listed(fs, n) && !name_listed(rn1, n));
            assert(!rows_contain(rows1, n));
            assert(!rows_contain(rows0, n) && !name_listed(addition_names(adds), n));
            assert(name_listed(not_listed(fs, rn0), n));
        }
        if name_listed(not_listed(fs, rn0), n) && !name_listed(addition_names(adds), n) {
            let w = choose|w: int|
                0 <= w < not_listed(fs, rn0).len() && not_listed(fs, rn0)[w] == n;
            assert(name_listed(fs, n) && !name_listed(rn0, n));
            assert(!rows_contain(rows0, n));
            assert(!rows_contain(rows1, n));
            assert(name_listed(not_listed(fs, rn1), n));
        }
    }
}

} // verus!
