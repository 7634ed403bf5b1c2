use vstd::prelude::*;

verus! {

/// One cached fact: a filename and the capture instant recorded for it.
#[derive(Debug)]
pub struct CacheEntry {
    pub filename: String,
    pub captured_at: i64,
}

/// The rows a sequence of entries denotes: (filename, capture instant) pairs
/// in stored order.
pub open spec fn rows_of(entries: Seq<CacheEntry>) -> Seq<(Seq<char>, i64)> {
    Seq::new(entries.len(), |i: int| (entries[i].filename@, entries[i].captured_at))
}

/// Whether some row carries the filename `name`.
pub open spec fn rows_contain(rows: Seq<(Seq<char>, i64)>, name: Seq<char>) -> bool {
    exists|i: int| 0 <= i < rows.len() && rows[i].0 == name
}

/// Whether some row is exactly the pair (`name`, `t`).
pub open spec fn rows_have(rows: Seq<(Seq<char>, i64)>, name: Seq<char>, t: i64) -> bool {
    exists|i: int| 0 <= i < rows.len() && rows[i].0 == name && rows[i].1 == t
}

/// No filename appears in two rows.
pub open spec fn rows_unique(rows: Seq<(Seq<char>, i64)>) -> bool {
    forall|i: int, j: int| 0 <= i < j < rows.len() ==> rows[i].0 != rows[j].0
}

/// The rows are ordered by capture instant, ascending.
pub open spec fn rows_sorted(rows: Seq<(Seq<char>, i64)>) -> bool {
    forall|i: int, j: int| 0 <= i < j < rows.len() ==> rows[i].1 <= rows[j].1
}

/// Whether `name` occurs in the list `names`.
pub open spec fn name_listed(names: Seq<Seq<char>>, name: Seq<char>) -> bool {
    exists|i: int| 0 <= i < names.len() && names[i] == name
}

/// The rows that remain after deleting every filename of `names`, in order.
pub open spec fn remove_listed(rows: Seq<(Seq<char>, i64)>, names: Seq<Seq<char>>) -> Seq<
    (Seq<char>, i64),
>
    decreases rows.len(),
{
    if rows.len() == 0 {
        Seq::empty()
    } else {
        let rest = remove_listed(rows.drop_last(), names);
        if name_listed(names, rows.last().0) {
            rest
        } else {
            rest.push(rows.last())
        }
    }
}

/// What `remove_listed` keeps: exactly the rows whose filename is not listed,
/// and nothing that was not there; uniqueness and order by instant survive.
pub proof fn lemma_remove_listed_membership(rows: Seq<(Seq<char>, i64)>, names: Seq<Seq<char>>)
    ensures
        remove_listed(rows, names).len() <= rows.len(),
        forall|k: int|
            0 <= k < remove_listed(rows, names).len() ==> !name_listed(
                names,
                #[trigger] remove_listed(rows, names)[k].0,
            ),
        forall|k: int|
            0 <= k < remove_listed(rows, names).len() ==> exists|j: int|
                0 <= j < rows.len() && rows[j] == #[trigger] remove_listed(rows, names)[k],
        forall|j: int|
            0 <= j < rows.len() && !name_listed(names, #[trigger] rows[j].0) ==> rows_have(
                remove_listed(rows, names),
                rows[j].0,
                rows[j].1,
            ),
        rows_unique(rows) ==> rows_unique(remove_listed(rows, names)),
        rows_sorted(rows) ==> rows_sorted(remove_listed(rows, names)),
    decreases rows.len(),
{
    let out = remove_listed(rows, names);
    if rows.len() > 0 {
        let prev = rows.drop_last();
        let last = rows.last();
        lemma_remove_listed_membership(prev, names);
        let rest = remove_listed(prev, names);
        assert(forall|j: int| 0 <= j < prev.len() ==> prev[j] == rows[j]);
        assert forall|j: int|
            0 <= j < rows.len() && !name_listed(names, #[trigger] rows[j].0) implies rows_have(
            out,
            rows[j].0,
            rows[j].1,
        ) by {
            if j < rows.len() - 1 {
                assert(rows_have(rest, rows[j].0, rows[j].1));
                let w = choose|w: int|
                    0 <= w < rest.len() && rest[w].0 == rows[j].0 && rest[w].1 == rows[j].1;
                assert(out[w] == rest[w]);
            } else {
                assert(rows[j] == last);
                assert(out == rest.push(last));
                assert(out[out.len() - 1] == last);
            }
        }
        if !name_listed(names, last.0) {
            assert(out == rest.push(last));
            if rows_unique(rows) {
                assert forall|i: int| 0 <= i < rest.len() implies rest[i].0 != last.0 by {
                    let j = choose|j: int| 0 <= j < prev.len() && prev[j] == rest[i];
                    assert(rows[j].0 != rows[rows.len() - 1].0);
                }
                assert(rows_unique(out));
            }
            if rows_sorted(rows) {
                assert forall|i: int| 0 <= i < rest.len() implies rest[i].1 <= last.1 by {
                    let j = choose|j: int| 0 <= j < prev.len() && prev[j] == rest[i];
                    assert(rows[j].1 <= rows[rows.len() - 1].1);
                }
                assert(rows_sorted(out));
            }
        }
    }
}

/// The rows of one scope, keyed by the scope's derived name.
struct ScopeTable {
    name: String,
    entries: Vec<CacheEntry>,
}

/// The persistent key-value cache, scoped per source directory: each scope
/// maps filenames to capture instants, and keeps its rows ordered by capture
/// instant.
pub struct TimestampStore {
    tables: Vec<ScopeTable>,
}

spec fn scope_names_unique(tables: Seq<ScopeTable>) -> bool {
    forall|i: int, j: int| 0 <= i < j < tables.len() ==> tables[i].name@ != tables[j].name@
}

impl TimestampStore {
    /// Whether a scope of this name exists in the store.
    pub closed spec fn has_scope(self, scope: Seq<char>) -> bool {
        exists|i: int| 0 <= i < self.tables@.len() && self.tables@[i].name@ == scope
    }

    spec fn index_of(self, scope: Seq<char>) -> int {
        choose|i: int| 0 <= i < self.tables@.len() && self.tables@[i].name@ == scope
    }

    /// The rows of the scope named `scope`, in stored order; empty if no such
    /// scope exists.
    pub closed spec fn scope_rows(self, scope: Seq<char>) -> Seq<(Seq<char>, i64)> {
        if self.has_scope(scope) {
            rows_of(self.tables@[self.index_of(scope)].entries@)
        } else {
            Seq::empty()
        }
    }

    /// The store's invariant: scope names are unique, and within each scope
    /// filenames are unique and rows are ordered by capture instant.
    pub closed spec fn wf(self) -> bool {
        &&& scope_names_unique(self.tables@)
        &&& forall|i: int|
            0 <= i < self.tables@.len() ==> rows_unique(
                rows_of(#[trigger] self.tables@[i].entries@),
            ) && rows_sorted(rows_of(self.tables@[i].entries@))
    }

    proof fn lemma_scope_rows_at(self, scope: Seq<char>, i: int)
        requires
            scope_names_unique(self.tables@),
            0 <= i < self.tables@.len(),
            self.tables@[i].name@ == scope,
        ensures
            self.has_scope(scope),
            self.index_of(scope) == i,
            self.scope_rows(scope) == rows_of(self.tables@[i].entries@),
    {
        assert(self.has_scope(scope));
        let j = self.index_of(scope);
        assert(0 <= j < self.tables@.len() && self.tables@[j].name@ == scope);
        if i < j {
            assert(self.tables@[i].name@ != self.tables@[j].name@);
        } else if j < i {
            assert(self.tables@[j].name@ != self.tables@[i].name@);
        }
    }

    /// The well-formedness facts of one scope's rows, for callers.
    pub proof fn lemma_scope_invariants(self, scope: Seq<char>)
        requires
            self.wf(),
        ensures
            rows_unique(self.scope_rows(scope)),
            rows_sorted(self.scope_rows(scope)),
    {
        if self.has_scope(scope) {
            let i = self.index_of(scope);
            assert(0 <= i < self.tables@.len() && self.tables@[i].name@ == scope);
        }
    }

    /// An empty store.
    pub fn new() -> (s: Self)
        ensures
            s.wf(),
            forall|sc: Seq<char>| !s.has_scope(sc),
    {
        TimestampStore { tables: Vec::new() }
    }

    #[verifier::loop_isolation(false)]
    fn find_scope(&self, scope: &String) -> (r: Option<usize>)
        ensures
            match r {
                Some(i) => 0 <= i < self.tables@.len() && self.tables@[i as int].name@ == scope@,
                None => !self.has_scope(scope@),
            },
    {
        let mut i: usize = 0;
        while i < self.tables.len()
            invariant
                i <= self.tables@.len(),
                forall|j: int| 0 <= j < i ==> self.tables@[j].name@ != scope@,
            decreases self.tables@.len() - i,
        {
            if self.tables[i].name == *scope {
                return Some(i);
            }
            i += 1;
        }
        None
    }

    /// Creates the scope if it is absent; a no-op if it already exists.
    pub fn ensure_scope(&mut self, scope: &String)
        requires
            old(self).wf(),
        ensures
            final(self).wf(),
            final(self).has_scope(scope@),
            forall|sc: Seq<char>|
                final(self).has_scope(sc) <==> (old(self).has_scope(sc) || sc == scope@),
            final(self).scope_rows(scope@) == if old(self).has_scope(scope@) {
                old(self).scope_rows(scope@)
            } else {
                Seq::<(Seq<char>, i64)>::empty()
            },
            forall|sc: Seq<char>|
                sc != scope@ ==> final(self).scope_rows(sc) == old(self).scope_rows(sc),
    {
        match self.find_scope(scope) {
            Some(i) => {
                proof {
                    self.lemma_scope_rows_at(scope@, i as int);
                }
            },
            None => {
                let ghost old_tables = self.tables@;
                self.tables.push(ScopeTable { name: scope.clone(), entries: Vec::new() });
                proof {
                    let n = old_tables.len() as int;
                    assert(self.tables@[n].name@ == scope@);
                    assert(forall|j: int| 0 <= j < n ==> self.tables@[j] == old_tables[j]);
                    assert(scope_names_unique(self.tables@));
                    self.lemma_scope_rows_at(scope@, n);
                    assert(rows_of(self.tables@[n].entries@) =~= Seq::<(Seq<char>, i64)>::empty());
                    assert forall|sc: Seq<char>| sc != scope@ implies self.scope_rows(sc) == old(
                        self,
                    ).scope_rows(sc) by {
                        if old(self).has_scope(sc) {
                            let i = choose|i: int|
                                0 <= i < old_tables.len() && old_tables[i].name@ == sc;
                            old(self).lemma_scope_rows_at(sc, i);
                            self.lemma_scope_rows_at(sc, i);
                        } else {
                            assert(!self.has_scope(sc));
                        }
                    }
                }
            },
        }
    }

    /// The filenames cached for `scope`, in stored order.
    #[verifier::loop_isolation(false)]
    pub fn list_filenames(&self, scope: &String) -> (r: Vec<String>)
        requires
            self.wf(),
            self.has_scope(scope@),
        ensures
            r.deep_view().len() == self.scope_rows(scope@).len(),
            forall|i: int|
                0 <= i < r.deep_view().len() ==> r.deep_view()[i] == self.scope_rows(scope@)[i].0,
    {
        let idx = match self.find_scope(scope) {
            Some(i) => i,
            None => 0,
        };
        proof {
            self.lemma_scope_rows_at(scope@, idx as int);
        }
        let table = &self.tables[idx];
        let mut out: Vec<String> = Vec::new();
        let mut i: usize = 0;
        while i < table.entries.len()
            invariant
                i <= table.entries@.len(),
                out.deep_view().len() == i,
                forall|j: int| 0 <= j < i ==> out.deep_view()[j] == rows_of(table.entries@)[j].0,
            decreases table.entries@.len() - i,
        {
            let ghost before = out.deep_view();
            out.push(table.entries[i].filename.clone());
            proof {
                assert(out.deep_view() =~~= before.push(table.entries@[i as int].filename@));
            }
            i += 1;
        }
        out
    }

    /// All entries of `scope` ordered by capture instant, ascending.
    #[verifier::loop_isolation(false)]
    pub fn list_sorted(&self, scope: &String) -> (r: Vec<CacheEntry>)
        requires
            self.wf(),
            self.has_scope(scope@),
        ensures
            rows_of(r@) == self.scope_rows(scope@),
            rows_sorted(rows_of(r@)),
            rows_unique(rows_of(r@)),
    {
        let idx = match self.find_scope(scope) {
            Some(i) => i,
            None => 0,
        };
        proof {
            self.lemma_scope_rows_at(scope@, idx as int);
            self.lemma_scope_invariants(scope@);
        }
        let table = &self.tables[idx];
        let mut out: Vec<CacheEntry> = Vec::new();
        let mut i: usize = 0;
        while i < table.entries.len()
            invariant
                i <= table.entries@.len(),
                out@.len() == i,
                forall|j: int| 0 <= j < i ==> rows_of(out@)[j] == rows_of(table.entries@)[j],
            decreases table.entries@.len() - i,
        {
            let ghost before = rows_of(out@);
            out.push(
                CacheEntry {
                    filename: table.entries[i].filename.clone(),
                    captured_at: table.entries[i].captured_at,
                },
            );
            proof {
                assert(rows_of(out@) =~~= before.push(rows_of(table.entries@)[i as int]));
            }
            i += 1;
        }
        proof {
            assert(rows_of(out@) =~~= self.scope_rows(scope@));
        }
        out
    }

    /// Inserts or replaces the entry for `filename` in `scope`: the last write
    /// for a filename wins, and the row takes its place in capture-instant
    /// order.
    #[verifier::loop_isolation(false)]
    #[verifier::rlimit(60)]
    pub fn upsert(&mut self, scope: &String, filename: &String, captured_at: i64)
        requires
            old(self).wf(),
            old(self).has_scope(scope@),
        ensures
            final(self).wf(),
            forall|sc: Seq<char>| final(self).has_scope(sc) == old(self).has_scope(sc),
            forall|sc: Seq<char>|
                sc != scope@ ==> final(self).scope_rows(sc) == old(self).scope_rows(sc),
            ({
                let rows0 = old(self).scope_rows(scope@);
                let rows1 = final(self).scope_rows(scope@);
                &&& rows_have(rows1, filename@, captured_at)
                &&& forall|t: i64| t != captured_at ==> !rows_have(rows1, filename@, t)
                &&& forall|n: Seq<char>, t: i64|
                    n != filename@ ==> rows_have(rows1, n, t) == rows_have(rows0, n, t)
                &&& forall|n: Seq<char>|
                    rows_contain(rows1, n) <==> (rows_contain(rows0, n) || n == filename@)
                &&& rows1.len() == rows0.len() + (if rows_contain(rows0, filename@) {
                    0int
                } else {
                    1int
                })
            }),
    {
        let idx = match self.find_scope(scope) {
            Some(i) => i,
            None => 0,
        };
        proof {
            self.lemma_scope_rows_at(scope@, idx as int);
        }
        let ghost old_tables = self.tables@;
        let mut table = self.tables.remove(idx);
        let ghost rows0 = rows_of(table.entries@);
        // Drop the old row for this filename, if there is one.
        let mut k: usize = 0;
        while k < table.entries.len() && !(table.entries[k].filename == *filename)
            invariant
                k <= table.entries@.len(),
                forall|j: int| 0 <= j < k ==> rows_of(table.entries@)[j].0 != filename@,
            decreases table.entries@.len() - k,
        {
            k += 1;
        }
        let found = k < table.entries.len();
        if found {
            table.entries.remove(k);
        }
        let ghost cleaned = rows_of(table.entries@);
        proof {
            if found {
                assert(rows0[k as int].0 == filename@);
                assert(cleaned.len() == rows0.len() - 1);
                assert(forall|j: int|
                    0 <= j < cleaned.len() ==> cleaned[j] == (if j < k {
                        rows0[j]
                    } else {
                        rows0[j + 1]
                    }));
            } else {
                assert(cleaned =~~= rows0);
            }
            assert(rows_unique(cleaned));
            assert(rows_sorted(cleaned));
            assert(!rows_contain(cleaned, filename@));
            assert(forall|n: Seq<char>, t: i64|
                n != filename@ ==> rows_have(cleaned, n, t) == rows_have(rows0, n, t)) by {
                assert forall|n: Seq<char>, t: i64| n != filename@ implies rows_have(cleaned, n, t)
                    == rows_have(rows0, n, t) by {
                    if rows_have(cleaned, n, t) {
                        let w = choose|w: int|
                            0 <= w < cleaned.len() && cleaned[w].0 == n && cleaned[w].1 == t;
                        assert(if found && w >= k {
                            rows0[w + 1] == cleaned[w]
                        } else {
                            rows0[w] == cleaned[w]
                        });
                    }
                    if rows_have(rows0, n, t) {
                        let w = choose|w: int|
                            0 <= w < rows0.len() && rows0[w].0 == n && rows0[w].1 == t;
                        if found {
                            assert(w != k);
                            assert(if w < k {
                                cleaned[w] == rows0[w]
                            } else {
                                cleaned[w - 1] == rows0[w]
                            });
                        }
                    }
                }
            }
            assert(forall|n: Seq<char>|
                n != filename@ ==> (rows_contain(cleaned, n) == rows_contain(rows0, n))) by {
                assert forall|n: Seq<char>| n != filename@ implies (rows_contain(cleaned, n)
                    == rows_contain(rows0, n)) by {
                    if rows_contain(cleaned, n) {
                        let w = choose|w: int| 0 <= w < cleaned.len() && cleaned[w].0 == n;
                        assert(if found && w >= k {
                            rows0[w + 1] == cleaned[w]
                        } else {
                            rows0[w] == cleaned[w]
                        });
                    }
                    if rows_contain(rows0, n) {
                        let w = choose|w: int| 0 <= w < rows0.len() && rows0[w].0 == n;
                        if found {
                            assert(w != k);
                            assert(if w < k {
                                cleaned[w] == rows0[w]
                            } else {
                                cleaned[w - 1] == rows0[w]
                            });
                        }
                    }
                }
            }
        }
        // Insert the new row in capture-instant order, after any equal instants.
        let mut pos: usize = 0;
        while pos < table.entries.len() && table.entries[pos].captured_at <= captured_at
            invariant
                pos <= table.entries@.len(),
                forall|j: int| 0 <= j < pos ==> rows_of(table.entries@)[j].1 <= captured_at,
            decreases table.entries@.len() - pos,
        {
            pos += 1;
        }
        table.entries.insert(pos, CacheEntry { filename: filename.clone(), captured_at });
        let ghost rows1 = rows_of(table.entries@);
        proof {
            assert(rows1.len() == cleaned.len() + 1);
            assert(rows1[pos as int].0 == filename@ && rows1[pos as int].1 == captured_at);
            assert(forall|j: int|
                0 <= j < rows1.len() && j != pos ==> rows1[j] == (if j < pos {
                    cleaned[j]
                } else {
                    cleaned[j - 1]
                }));
            assert(rows_unique(rows1)) by {
                assert forall|a: int, b: int| 0 <= a < b < rows1.len() implies rows1[a].0
                    != rows1[b].0 by {
                    if a != pos && b != pos {
                        assert(rows_unique(cleaned));
                    } else {
                        assert(!rows_contain(cleaned, filename@));
                    }
                }
            }
            assert(rows_sorted(rows1)) by {
                if (pos as int) < cleaned.len() {
                    assert(cleaned[pos as int].1 > captured_at);
                }
                assert forall|a: int, b: int| 0 <= a < b < rows1.len() implies rows1[a].1
                    <= rows1[b].1 by {
                    assert(rows_sorted(cleaned));
                }
            }
            assert(rows_have(rows1, filename@, captured_at));
            assert forall|n: Seq<char>, t: i64| n != filename@ implies rows_have(rows1, n, t)
                == rows_have(cleaned, n, t) by {
                if rows_have(rows1, n, t) {
                    let w = choose|w: int|
                        0 <= w < rows1.len() && rows1[w].0 == n && rows1[w].1 == t;
                    assert(w != pos);
                    assert(if w < pos {
                        cleaned[w] == rows1[w]
                    } else {
                        cleaned[w - 1] == rows1[w]
                    });
                }
                if rows_have(cleaned, n, t) {
                    let w = choose|w: int|
                        0 <= w < cleaned.len() && cleaned[w].0 == n && cleaned[w].1 == t;
                    assert(if w < pos {
                        rows1[w] == cleaned[w]
                    } else {
                        rows1[w + 1] == cleaned[w]
                    });
                }
            }
            assert forall|t: i64| t != captured_at implies !rows_have(rows1, filename@, t) by {
                if rows_have(rows1, filename@, t) {
                    let w = choose|w: int|
                        0 <= w < rows1.len() && rows1[w].0 == filename@ && rows1[w].1 == t;
                    assert(w != pos);
                    assert(if w < pos {
                        cleaned[w] == rows1[w]
                    } else {
                        cleaned[w - 1] == rows1[w]
                    });
                    assert(rows_contain(cleaned, filename@));
                }
            }
            assert forall|n: Seq<char>| (rows_contain(rows1, n) <==> (rows_contain(cleaned, n)
                || n == filename@)) by {
                if rows_contain(rows1, n) && n != filename@ {
                    let w = choose|w: int| 0 <= w < rows1.len() && rows1[w].0 == n;
                    assert(w != pos);
                    assert(if w < pos {
                        cleaned[w] == rows1[w]
                    } else {
                        cleaned[w - 1] == rows1[w]
                    });
                }
                if rows_contain(cleaned, n) {
                    let w = choose|w: int| 0 <= w < cleaned.len() && cleaned[w].0 == n;
                    assert(if w < pos {
                        rows1[w] == cleaned[w]
                    } else {
                        rows1[w + 1] == cleaned[w]
                    });
                }
            }
            if found {
                assert(rows_contain(rows0, filename@));
            }
        }
        self.tables.insert(idx, table);
        proof {
            assert(self.tables@.len() == old_tables.len());
            assert(forall|j: int|
                0 <= j < old_tables.len() && j != idx ==> self.tables@[j] == old_tables[j]);
            assert(self.tables@[idx as int].name@ == scope@);
            assert(scope_names_unique(self.tables@));
            assert(rows_of(self.tables@[idx as int].entries@) == rows1);
            self.lemma_scope_rows_at(scope@, idx as int);
            assert(self.wf());
            assert forall|sc: Seq<char>| sc != scope@ implies self.scope_rows(sc) == old(
                self,
            ).scope_rows(sc) by {
                if old(self).has_scope(sc) {
                    let i = choose|i: int| 0 <= i < old_tables.len() && old_tables[i].name@ == sc;
                    old(self).lemma_scope_rows_at(sc, i);
                    self.lemma_scope_rows_at(sc, i);
                } else {
                    assert(!self.has_scope(sc));
                }
            }
        }
    }

    /// Removes the rows of `scope` named in `filenames`, as one atomic step:
    /// the scope's rows afterwards are exactly the old rows with every listed
    /// filename gone, in their old order, and nothing else has changed. A
    /// filename that is already absent is no error.
    #[verifier::loop_isolation(false)]
    pub fn delete_many(&mut self, scope: &String, filenames: &Vec<String>)
        requires
            old(self).wf(),
            old(self).has_scope(scope@),
        ensures
            final(self).wf(),
            forall|sc: Seq<char>| final(self).has_scope(sc) == old(self).has_scope(sc),
            forall|sc: Seq<char>|
                sc != scope@ ==> final(self).scope_rows(sc) == old(self).scope_rows(sc),
            final(self).scope_rows(scope@) == remove_listed(
                old(self).scope_rows(scope@),
                filenames.deep_view(),
            ),
    {
        let idx = match self.find_scope(scope) {
            Some(i) => i,
            None => 0,
        };
        proof {
            self.lemma_scope_rows_at(scope@, idx as int);
        }
        let ghost old_tables = self.tables@;
        let mut table = self.tables.remove(idx);
        let ghost rows0 = rows_of(table.entries@);
        let mut kept: Vec<CacheEntry> = Vec::new();
        let mut i: usize = 0;
        while i < table.entries.len()
            invariant
                i <= table.entries@.len(),
                rows_of(kept@) == remove_listed(rows0.take(i as int), filenames.deep_view()),
            decreases table.entries@.len() - i,
        {
            let ghost prefix = rows0.take(i as int);
            let ghost next = rows0.take(i + 1);
            proof {
                assert(next.drop_last() =~= prefix);
                assert(next.last() == rows0[i as int]);
            }
            let ghost before = rows_of(kept@);
            if !contains_name(filenames, &table.entries[i].filename) {
                kept.push(
                    CacheEntry {
                        filename: table.entries[i].filename.clone(),
                        captured_at: table.entries[i].captured_at,
                    },
                );
                proof {
                    assert(rows_of(kept@) =~~= before.push(rows0[i as int]));
                }
            }
            i += 1;
        }
        proof {
            assert(rows0.take(rows0.len() as int) =~= rows0);
        }
        table.entries = kept;
        self.tables.insert(idx, table);
        proof {
            assert(self.tables@.len() == old_tables.len());
            assert(forall|j: int|
                0 <= j < old_tables.len() && j != idx ==> self.tables@[j] == old_tables[j]);
            assert(self.tables@[idx as int].name@ == scope@);
            assert(scope_names_unique(self.tables@));
            let rows1 = rows_of(self.tables@[idx as int].entries@);
            lemma_remove_listed_membership(rows0, filenames.deep_view());
            assert(rows_unique(rows1) && rows_sorted(rows1));
            self.lemma_scope_rows_at(scope@, idx as int);
            assert(self.wf());
            assert forall|sc: Seq<char>| sc != scope@ implies self.scope_rows(sc) == old(
                self,
            ).scope_rows(sc) by {
                if old(self).has_scope(sc) {
                    let i2 = choose|i2: int|
                        0 <= i2 < old_tables.len() && old_tables[i2].name@ == sc;
                    old(self).lemma_scope_rows_at(sc, i2);
                    self.lemma_scope_rows_at(sc, i2);
                } else {
                    assert(!self.has_scope(sc));
                }
            }
        }
    }
}

/// Whether `name` occurs in the list of filenames.
#[verifier::loop_isolation(false)]
pub fn contains_name(filenames: &Vec<String>, name: &String) -> (r: bool)
    ensures
        r == name_listed(filenames.deep_view(), name@),
{
    let mut i: usize = 0;
    while i < filenames.len()
        invariant
            i <= filenames@.len(),
            forall|j: int| 0 <= j < i ==> filenames.deep_view()[j] != name@,
        decreases filenames@.len() - i,
    {
        if filenames[i] == *name {
            proof {
                assert(filenames.deep_view()[i as int] == name@);
            }
            return true;
        }
        i += 1;
    }
    false
}

} // verus!
