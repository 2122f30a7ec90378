//! The scoped context store: entries, their map model, and the operations
//! `context_set`, `context_get`, `context_delete` and `context_list`.
//!
//! Global and project scopes are independent namespaces: the store is one
//! relation keyed by `(scope, key)`, where the scope is `None` for global
//! entries and `Some(project)` otherwise.

use vstd::prelude::*;

use crate::db::{byte_len, Database, DbError, DbResult, MAX_CONTEXT_VALUE_SIZE};
use crate::strings::{
    blank, lemma_lex_lt_total, lemma_trim_idempotent, lex_lt, str_eq, str_lt, trim_spec, trim_str,
};

verus! {

/// One stored context record.
pub struct ContextEntry {
    /// `None` for the global scope, `Some(p)` for the scope of project `p`.
    pub scope: Option<String>,
    /// The key, non-empty and trimmed of surrounding whitespace.
    pub key: String,
    /// The value, at most `MAX_CONTEXT_VALUE_SIZE` bytes.
    pub value: String,
    /// When the entry was created or last overwritten.
    pub updated_at: i64,
}

/// What the store remembers under one `(scope, key)` pair.
pub ghost struct CtxVal {
    /// The stored value.
    pub value: Seq<char>,
    /// When the entry was created or last overwritten.
    pub updated_at: int,
}

/// The scope argument of an operation, as the map key's first component.
pub open spec fn scope_view(project_id: Option<&str>) -> Option<Seq<char>> {
    match project_id {
        Some(p) => Some(p@),
        None => None,
    }
}

/// The `(scope, key)` coordinate of a stored entry.
pub open spec fn entry_key(e: ContextEntry) -> (Option<Seq<char>>, Seq<char>) {
    (
        match e.scope {
            Some(p) => Some(p@),
            None => None,
        },
        e.key@,
    )
}

/// The value a stored entry carries.
pub open spec fn entry_val(e: ContextEntry) -> CtxVal {
    CtxVal { value: e.value@, updated_at: e.updated_at as int }
}

/// A well-formed entry: trimmed non-empty key, value within bounds.
pub open spec fn valid_entry(e: ContextEntry) -> bool {
    &&& e.key@.len() > 0
    &&& trim_spec(e.key@) == e.key@
    &&& byte_len(e.value@) <= MAX_CONTEXT_VALUE_SIZE
}

/// No two entries share a `(scope, key)` pair.
pub open spec fn distinct_keys(entries: Seq<ContextEntry>) -> bool {
    forall|a: int, b: int|
        0 <= a < b < entries.len() ==> entry_key(entries[a]) != entry_key(entries[b])
}

/// The sequence of entries as a map from `(scope, key)` to value.
pub open spec fn ctx_map_of(entries: Seq<ContextEntry>) -> Map<
    (Option<Seq<char>>, Seq<char>),
    CtxVal,
>
    decreases entries.len(),
{
    if entries.len() == 0 {
        Map::empty()
    } else {
        ctx_map_of(entries.drop_last()).insert(
            entry_key(entries.last()),
            entry_val(entries.last()),
        )
    }
}

/// Some element of `r` reads as the key `k`.
pub open spec fn keys_has(r: Seq<String>, k: Seq<char>) -> bool {
    exists|i: int| 0 <= i < r.len() && (#[trigger] r[i])@ == k
}

/// Neighbouring keys are in strictly ascending lexicographic order.
pub open spec fn sorted_keys(r: Seq<String>) -> bool {
    forall|i: int| 0 <= i && i + 1 < r.len() ==> lex_lt((#[trigger] r[i])@, r[i + 1]@)
}

/// A key is in the map exactly when some entry carries it.
pub proof fn lemma_ctx_map_domain(entries: Seq<ContextEntry>, k: (Option<Seq<char>>, Seq<char>))
    ensures
        ctx_map_of(entries).contains_key(k) <==> exists|i: int|
            0 <= i < entries.len() && entry_key(#[trigger] entries[i]) == k,
    decreases entries.len(),
{
    if entries.len() > 0 {
        let prefix = entries.drop_last();
        lemma_ctx_map_domain(prefix, k);
        if entry_key(entries.last()) == k {
            assert(entry_key(entries[entries.len() - 1]) == k);
        } else {
            if ctx_map_of(prefix).contains_key(k) {
                let i = choose|i: int| 0 <= i < prefix.len() && entry_key(#[trigger] prefix[i]) == k;
                assert(entry_key(entries[i]) == k);
            }
            if exists|i: int| 0 <= i < entries.len() && entry_key(#[trigger] entries[i]) == k {
                let i = choose|i: int|
                    0 <= i < entries.len() && entry_key(#[trigger] entries[i]) == k;
                assert(i < entries.len() - 1);
                assert(entry_key(prefix[i]) == k);
            }
        }
    }
}

/// With unique keys, the map sends the key of entry `i` to its value.
pub proof fn lemma_ctx_map_at(entries: Seq<ContextEntry>, i: int)
    requires
        0 <= i < entries.len(),
        distinct_keys(entries),
    ensures
        ctx_map_of(entries).contains_key(entry_key(entries[i])),
        ctx_map_of(entries)[entry_key(entries[i])] == entry_val(entries[i]),
    decreases entries.len(),
{
    let prefix = entries.drop_last();
    if i < entries.len() - 1 {
        assert(distinct_keys(prefix)) by {
            assert(forall|a: int, b: int|
                0 <= a < b < prefix.len() ==> entry_key(#[trigger] prefix[a]) != entry_key(
                    #[trigger] prefix[b],
                ));
        }
        lemma_ctx_map_at(prefix, i);
        assert(entry_key(entries.last()) != entry_key(entries[i]));
    }
}

/// Removing entry `i` removes exactly its key from the map.
pub proof fn lemma_ctx_map_remove_at(entries: Seq<ContextEntry>, i: int)
    requires
        0 <= i < entries.len(),
        distinct_keys(entries),
    ensures
        ctx_map_of(entries.remove(i)) == ctx_map_of(entries).remove(entry_key(entries[i])),
        distinct_keys(entries.remove(i)),
    decreases entries.len(),
{
    let k = entry_key(entries[i]);
    let r = entries.remove(i);
    assert(forall|j: int| 0 <= j < i ==> #[trigger] r[j] == entries[j]);
    assert(forall|j: int| i <= j < r.len() ==> #[trigger] r[j] == entries[j + 1]);
    assert(distinct_keys(r)) by {
        assert forall|a: int, b: int| 0 <= a < b < r.len() implies entry_key(#[trigger] r[a])
            != entry_key(#[trigger] r[b]) by {
            let a0 = if a < i { a } else { a + 1 };
            let b0 = if b < i { b } else { b + 1 };
            assert(r[a] == entries[a0]);
            assert(r[b] == entries[b0]);
        }
    }
    let prefix = entries.drop_last();
    if i == entries.len() - 1 {
        assert(r =~= prefix);
        lemma_ctx_map_domain(prefix, k);
        assert(forall|j: int| 0 <= j < prefix.len() ==> entry_key(#[trigger] prefix[j]) != k);
        assert(!ctx_map_of(prefix).contains_key(k));
        assert(ctx_map_of(prefix).insert(k, entry_val(entries[i])).remove(k) =~= ctx_map_of(
            prefix,
        ));
    } else {
        assert(distinct_keys(prefix)) by {
            assert(forall|a: int, b: int|
                0 <= a < b < prefix.len() ==> entry_key(#[trigger] prefix[a]) != entry_key(
                    #[trigger] prefix[b],
                ));
        }
        lemma_ctx_map_remove_at(prefix, i);
        assert(r.drop_last() =~= prefix.remove(i));
        assert(r.last() == entries.last());
        let klast = entry_key(entries.last());
        let vlast = entry_val(entries.last());
        assert(klast != k);
        assert(ctx_map_of(r) == ctx_map_of(prefix).remove(k).insert(klast, vlast));
        assert(ctx_map_of(prefix).remove(k).insert(klast, vlast) =~= ctx_map_of(prefix).insert(
            klast,
            vlast,
        ).remove(k));
    }
}

/// Upsert overwrites: writing `v1` and then `v2` under one `(scope, key)`
/// leaves the store exactly as if only `v2` had been written, and a lookup
/// of that key returns `v2`.
pub proof fn lemma_upsert_overwrites(
    m: Map<(Option<Seq<char>>, Seq<char>), CtxVal>,
    k: (Option<Seq<char>>, Seq<char>),
    v1: CtxVal,
    v2: CtxVal,
)
    ensures
        m.insert(k, v1).insert(k, v2) == m.insert(k, v2),
        m.insert(k, v2)[k] == v2,
{
    assert(m.insert(k, v1).insert(k, v2) =~= m.insert(k, v2));
}

/// Global and project scopes are independent namespaces: writing a key under
/// a project and writing the same key globally land on different map keys,
/// and each lookup still sees its own write, in either order.
pub proof fn lemma_scopes_independent(
    m: Map<(Option<Seq<char>>, Seq<char>), CtxVal>,
    p: Seq<char>,
    k: Seq<char>,
    a: CtxVal,
    b: CtxVal,
)
    ensures
        m.insert((Some(p), k), a).insert((None, k), b)[(Some(p), k)] == a,
        m.insert((Some(p), k), a).insert((None, k), b)[(None, k)] == b,
        m.insert((None, k), b).insert((Some(p), k), a)[(Some(p), k)] == a,
        m.insert((None, k), b).insert((Some(p), k), a)[(None, k)] == b,
{
}

impl Database {
    /// Index of the entry holding `(scope, key)`, if any.
    fn find_ctx_index(&self, project_id: Option<&str>, key: &str) -> (r: Option<usize>)
        ensures
            match r {
                Some(i) => i < self.contexts@.len() && entry_key(self.contexts@[i as int]) == (
                    scope_view(project_id),
                    key@,
                ),
                None => forall|j: int|
                    0 <= j < self.contexts@.len() ==> entry_key(#[trigger] self.contexts@[j]) != (
                        scope_view(project_id),
                        key@,
                    ),
            },
    {
        let mut i: usize = 0;
        while i < self.contexts.len()
            invariant
                i <= self.contexts@.len(),
                forall|j: int|
                    0 <= j < i ==> entry_key(#[trigger] self.contexts@[j]) != (
                        scope_view(project_id),
                        key@,
                    ),
            decreases self.contexts@.len() - i,
        {
            let e = &self.contexts[i];
            let scope_matches = match (&e.scope, project_id) {
                (Some(a), Some(b)) => str_eq(a.as_str(), b),
                (None, None) => true,
                _ => false,
            };
            if scope_matches && str_eq(e.key.as_str(), key) {
                return Some(i);
            }
            i = i + 1;
        }
        None
    }

    /// Sets a context value: trims the key, validates it and the value, and
    /// upserts the `(scope, key)` entry, refreshing its timestamp.
    ///
    /// Fails with `EmptyField` when the trimmed key is empty, and with
    /// `ContentTooLarge` when the value exceeds `MAX_CONTEXT_VALUE_SIZE`
    /// bytes; nothing is written in either case.
    pub fn context_set(&mut self, project_id: Option<&str>, key: &str, value: &str) -> (r: DbResult<
        (),
    >)
        requires
            old(self).wf(),
        ensures
            final(self).wf(),
            final(self).messages@ == old(self).messages@,
            final(self).next_id == old(self).next_id,
            final(self).clock >= old(self).clock,
            r is Ok <==> (!blank(key@) && byte_len(value@) <= MAX_CONTEXT_VALUE_SIZE),
            match r {
                Ok(_) => final(self).ctx() == old(self).ctx().insert(
                    (scope_view(project_id), trim_spec(key@)),
                    CtxVal { value: value@, updated_at: final(self).clock as int },
                ),
                Err(e) => {
                    &&& final(self).ctx() == old(self).ctx()
                    &&& final(self).clock == old(self).clock
                    &&& match e {
                        DbError::EmptyField { field } => field@ == "key"@ && blank(key@),
                        DbError::ContentTooLarge { size, limit } => {
                            &&& !blank(key@)
                            &&& size == byte_len(value@)
                            &&& limit == MAX_CONTEXT_VALUE_SIZE
                            &&& size > limit
                        },
                        _ => false,
                    }
                },
            },
    {
        let k = trim_str(key);
        if k.as_str().is_empty() {
            return Err(DbError::EmptyField { field: "key" });
        }
        if value.len() > MAX_CONTEXT_VALUE_SIZE {
            return Err(
                DbError::ContentTooLarge { size: value.len(), limit: MAX_CONTEXT_VALUE_SIZE },
            );
        }
        let t = self.touch_clock();
        let ghost kk = (scope_view(project_id), trim_spec(key@));
        let ghost before = self.contexts@;
        match self.find_ctx_index(project_id, k.as_str()) {
            Some(i) => {
                proof {
                    lemma_ctx_map_remove_at(before, i as int);
                }
                self.contexts.remove(i);
            },
            None => {
                proof {
                    lemma_ctx_map_domain(before, kk);
                    assert(ctx_map_of(before).remove(kk) =~= ctx_map_of(before));
                }
            },
        }
        let ghost mid = self.contexts@;
        proof {
            assert(ctx_map_of(mid) == ctx_map_of(before).remove(kk));
            assert(forall|j: int| 0 <= j < mid.len() ==> entry_key(#[trigger] mid[j]) != kk) by {
                lemma_ctx_map_domain(mid, kk);
            }
            lemma_trim_idempotent(key@);
        }
        let entry = ContextEntry {
            scope: match project_id {
                Some(p) => Some(p.to_owned()),
                None => None,
            },
            key: k,
            value: value.to_owned(),
            updated_at: t,
        };
        proof {
            assert(entry_key(entry) == kk);
        }
        self.contexts.push(entry);
        proof {
            assert(self.contexts@.drop_last() =~= mid);
            assert(self.contexts@.last() == entry);
            assert(ctx_map_of(self.contexts@) == ctx_map_of(mid).insert(kk, entry_val(entry)));
            assert(ctx_map_of(before).remove(kk).insert(kk, entry_val(entry)) =~= ctx_map_of(
                before,
            ).insert(kk, entry_val(entry)));
        }
        Ok(())
    }

    /// Gets a context value: the stored value for `(scope, key)`, or `None`
    /// when the key is absent — absence is not an error. The key is looked
    /// up as given, without trimming.
    pub fn context_get(&self, project_id: Option<&str>, key: &str) -> (r: DbResult<Option<String>>)
        requires
            self.wf(),
        ensures
            match r {
                Ok(v) => match v {
                    Some(s) => self.ctx().contains_key((scope_view(project_id), key@)) && s@
                        == self.ctx()[(scope_view(project_id), key@)].value,
                    None => !self.ctx().contains_key((scope_view(project_id), key@)),
                },
                Err(_) => false,
            },
    {
        match self.find_ctx_index(project_id, key) {
            Some(i) => {
                proof {
                    lemma_ctx_map_at(self.contexts@, i as int);
                }
                Ok(Some(self.contexts[i].value.clone()))
            },
            None => {
                proof {
                    lemma_ctx_map_domain(self.contexts@, (scope_view(project_id), key@));
                }
                Ok(None)
            },
        }
    }

    /// Lists all context keys in the given scope, lexicographically sorted
    /// by code point, each key once.
    #[verifier::loop_isolation(false)]
    pub fn context_list(&self, project_id: Option<&str>) -> (r: DbResult<Vec<String>>)
        requires
            self.wf(),
        ensures
            match r {
                Ok(keys) => {
                    &&& sorted_keys(keys@)
                    &&& forall|x: int, y: int|
                        0 <= x < y < keys@.len() ==> (#[trigger] keys@[x])@ != (
                        #[trigger] keys@[y])@
                    &&& forall|x: int|
                        0 <= x < keys@.len() ==> self.ctx().contains_key(
                            (scope_view(project_id), (#[trigger] keys@[x])@),
                        )
                    &&& forall|k: Seq<char>|
                        #[trigger] self.ctx().contains_key((scope_view(project_id), k))
                            ==> keys_has(keys@, k)
                },
                Err(_) => false,
            },
    {
        let ghost sv = scope_view(project_id);
        let ghost es = self.contexts@;
        let mut collected: Vec<String> = Vec::new();
        let mut i: usize = 0;
        while i < self.contexts.len()
            invariant
                i <= es.len(),
                forall|x: int|
                    0 <= x < collected@.len() ==> exists|j: int|
                        0 <= j < i && entry_key(es[j]) == (sv, (#[trigger] collected@[x])@),
                forall|j: int|
                    0 <= j < i && entry_key(#[trigger] es[j]).0 == sv ==> keys_has(
                        collected@,
                        entry_key(es[j]).1,
                    ),
                forall|x: int, y: int|
                    0 <= x < y < collected@.len() ==> (#[trigger] collected@[x])@ != (
                    #[trigger] collected@[y])@,
            decreases es.len() - i,
        {
            let e = &self.contexts[i];
            let scope_matches = match (&e.scope, project_id) {
                (Some(a), Some(b)) => str_eq(a.as_str(), b),
                (None, None) => true,
                _ => false,
            };
            if scope_matches {
                let ghost before = collected@;
                collected.push(e.key.clone());
                proof {
                    assert(entry_key(es[i as int]) == (sv, e.key@));
                    assert forall|x: int, y: int| 0 <= x < y < collected@.len() implies (
                    #[trigger] collected@[x])@ != (#[trigger] collected@[y])@ by {
                        if y == collected@.len() - 1 {
                            let j = choose|j: int|
                                0 <= j < i && entry_key(es[j]) == (sv, (before[x])@);
                            assert(entry_key(es[j]) != entry_key(es[i as int]));
                        }
                    }
                    assert forall|j: int|
                        0 <= j < i + 1 && entry_key(#[trigger] es[j]).0 == sv implies keys_has(
                        collected@,
                        entry_key(es[j]).1,
                    ) by {
                        if j < i {
                            let w = choose|w: int|
                                0 <= w < before.len() && (#[trigger] before[w])@ == entry_key(
                                    es[j],
                                ).1;
                            assert((collected@[w])@ == entry_key(es[j]).1);
                        } else {
                            assert((collected@[collected@.len() - 1])@ == entry_key(es[j]).1);
                        }
                    }
                }
            }
            i = i + 1;
        }
        let mut out: Vec<String> = Vec::new();
        let mut t: usize = 0;
        while t < collected.len()
            invariant
                t <= collected@.len(),
                sorted_keys(out@),
                forall|x: int, y: int|
                    0 <= x < y < out@.len() ==> (#[trigger] out@[x])@ != (#[trigger] out@[y])@,
                forall|x: int|
                    0 <= x < out@.len() ==> exists|j: int|
                        0 <= j < t && (#[trigger] out@[x])@ == collected@[j]@,
                forall|j: int|
                    0 <= j < t ==> keys_has(out@, (#[trigger] collected@[j])@),
            decreases collected@.len() - t,
        {
            let x = collected[t].clone();
            let mut p: usize = 0;
            while p < out.len() && str_lt(out[p].as_str(), x.as_str())
                invariant
                    p <= out@.len(),
                    forall|q: int| 0 <= q < p ==> lex_lt((#[trigger] out@[q])@, x@),
                decreases out@.len() - p,
            {
                p = p + 1;
            }
            proof {
                assert(x@ == collected@[t as int]@);
                assert forall|q: int| 0 <= q < out@.len() implies (#[trigger] out@[q])@ != x@ by {
                    let j = choose|j: int| 0 <= j < t && (out@[q])@ == collected@[j]@;
                }
                if p < out@.len() {
                    lemma_lex_lt_total(out@[p as int]@, x@);
                    assert(lex_lt(x@, out@[p as int]@));
                }
            }
            let ghost before = out@;
            out.insert(p, x);
            proof {
                assert(forall|q: int| 0 <= q < p ==> #[trigger] out@[q] == before[q]);
                assert(out@[p as int]@ == collected@[t as int]@);
                assert(forall|q: int|
                    p < q < out@.len() ==> #[trigger] out@[q] == before[q - 1]);
                assert forall|q: int| 0 <= q && q + 1 < out@.len() implies lex_lt(
                    (#[trigger] out@[q])@,
                    out@[q + 1]@,
                ) by {
                    if q + 1 < p {
                        assert(out@[q] == before[q] && out@[q + 1] == before[q + 1]);
                    } else if q + 1 == p {
                        assert(out@[q] == before[q]);
                    } else if q == p {
                        assert(out@[q + 1] == before[q]);
                    } else {
                        assert(out@[q] == before[q - 1] && out@[q + 1] == before[q]);
                    }
                }
                assert forall|j: int| 0 <= j < t + 1 implies keys_has(
                    out@,
                    (#[trigger] collected@[j])@,
                ) by {
                    if j < t {
                        let w = choose|w: int|
                            0 <= w < before.len() && (#[trigger] before[w])@ == collected@[j]@;
                        if w < p {
                            assert((out@[w])@ == collected@[j]@);
                        } else {
                            assert((out@[w + 1])@ == collected@[j]@);
                        }
                    } else {
                        assert((out@[p as int])@ == collected@[j]@);
                    }
                }
                assert forall|x2: int, y2: int| 0 <= x2 < y2 < out@.len() implies (
                #[trigger] out@[x2])@ != (#[trigger] out@[y2])@ by {
                    let a0 = if x2 < p {
                        x2
                    } else {
                        x2 - 1
                    };
                    let b0 = if y2 < p {
                        y2
                    } else {
                        y2 - 1
                    };
                    if x2 == p {
                        assert(out@[y2] == before[b0]);
                    } else if y2 == p {
                        assert(out@[x2] == before[a0]);
                    } else {
                        assert(out@[x2] == before[a0] && out@[y2] == before[b0]);
                    }
                }
            }
            t = t + 1;
        }
        proof {
            assert forall|x: int| 0 <= x < out@.len() implies self.ctx().contains_key(
                (sv, (#[trigger] out@[x])@),
            ) by {
                let j = choose|j: int|
                    0 <= j < collected@.len() && (out@[x])@ == (#[trigger] collected@[j])@;
                let w = choose|w: int|
                    0 <= w < es.len() && entry_key(#[trigger] es[w]) == (sv, collected@[j]@);
                lemma_ctx_map_at(es, w);
            }
            assert forall|k: Seq<char>| #[trigger]
                self.ctx().contains_key((sv, k)) implies keys_has(out@, k) by {
                lemma_ctx_map_domain(es, (sv, k));
                let j = choose|j: int| 0 <= j < es.len() && entry_key(#[trigger] es[j]) == (sv, k);
                assert(keys_has(collected@, k));
                let w = choose|w: int|
                    0 <= w < collected@.len() && (#[trigger] collected@[w])@ == k;
                assert(keys_has(out@, collected@[w]@));
            }
        }
        Ok(out)
    }

    /// Deletes a context entry. Returns whether an entry was present;
    /// deleting an absent key is not an error.
    pub fn context_delete(&mut self, project_id: Option<&str>, key: &str) -> (r: DbResult<bool>)
        requires
            old(self).wf(),
        ensures
            final(self).wf(),
            final(self).messages@ == old(self).messages@,
            final(self).next_id == old(self).next_id,
            final(self).clock == old(self).clock,
            match r {
                Ok(b) => {
                    &&& b == old(self).ctx().contains_key((scope_view(project_id), key@))
                    &&& final(self).ctx() == old(self).ctx().remove((scope_view(project_id), key@))
                },
                Err(_) => false,
            },
    {
        let ghost kk = (scope_view(project_id), key@);
        let ghost before = self.contexts@;
        match self.find_ctx_index(project_id, key) {
            Some(i) => {
                proof {
                    lemma_ctx_map_at(before, i as int);
                    lemma_ctx_map_remove_at(before, i as int);
                }
                self.contexts.remove(i);
                Ok(true)
            },
            None => {
                proof {
                    lemma_ctx_map_domain(before, kk);
                    assert(ctx_map_of(before).remove(kk) =~= ctx_map_of(before));
                }
                Ok(false)
            },
        }
    }
}

} // verus!
