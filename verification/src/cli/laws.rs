use vstd::prelude::*;
use crate::cli::order::{dep_count, order_fuel, DepTable, VisitState, deps_of, visit, visit_all, build_order, level_table, dep_level, outputs_check, declared, owners, conflicted, first_paths};
use crate::datalog::store::{key_index, lookup, assoc_put, lemma_key_index_bounds};

verus! {

/// `d` occurs in `order` before position `i`.
pub open spec fn placed_before(order: Seq<Seq<char>>, d: Seq<char>, i: int) -> bool {
    exists|j: int| 0 <= j < i && order[j] == d
}

/// Every dependency recorded for a target of `order` occurs in `order` before that target.
pub open spec fn deps_placed_before(deps: DepTable, order: Seq<Seq<char>>) -> bool {
    forall|i: int, k: int|
        0 <= i < order.len() && 0 <= k < deps_of(deps, order[i]).len()
            ==> placed_before(order, #[trigger] deps_of(deps, order[i])[k], i)
}

/// `b` starts with `a`.
pub open spec fn extends(a: Seq<Seq<char>>, b: Seq<Seq<char>>) -> bool {
    a.len() <= b.len() && forall|j: int| 0 <= j < a.len() ==> #[trigger] b[j] == a[j]
}

/// The targets that `b` adds after `a` are not on `path`.
pub open spec fn fresh_after(a: Seq<Seq<char>>, b: Seq<Seq<char>>, path: Seq<Seq<char>>) -> bool {
    forall|j: int| a.len() <= j < b.len() ==> !path.contains(#[trigger] b[j])
}

/// A state of the visit in which the visited targets are the order, each once, with the
/// dependencies of each before it.
pub open spec fn sound_state(deps: DepTable, st: VisitState) -> bool {
    &&& st.0 == st.1
    &&& st.1.no_duplicates()
    &&& deps_placed_before(deps, st.1)
}

/// What a successful visit below `path` keeps: a sound state that extends the one before
/// with targets off the path.
pub open spec fn visit_kept(deps: DepTable, st: VisitState, path: Seq<Seq<char>>, r: Result<VisitState, Seq<char>>) -> bool {
    match r {
        Ok(s2) => sound_state(deps, s2) && extends(st.1, s2.1) && fresh_after(st.1, s2.1, path),
        Err(_) => true,
    }
}

/// The targets `ds[..k]` are all in the order that a successful visit gives.
pub open spec fn all_placed(ds: Seq<Seq<char>>, k: int, r: Result<VisitState, Seq<char>>) -> bool {
    match r {
        Ok(s2) => forall|m: int| 0 <= m < k ==> s2.1.contains(#[trigger] ds[m]),
        Err(_) => true,
    }
}

proof fn lemma_visit(deps: DepTable, t: Seq<char>, path: Seq<Seq<char>>, st: VisitState, fuel: nat)
    requires
        sound_state(deps, st),
    ensures
        visit_kept(deps, st, path, visit(deps, t, path, st, fuel)),
        all_placed(seq![t], 1, visit(deps, t, path, st, fuel)),
    decreases fuel, 1int, 0int,
{
    let r = visit(deps, t, path, st, fuel);
    if st.0.contains(t) {
        assert(seq![t][0] == t);
    } else if path.contains(t) || fuel == 0 {
    } else {
        let ds = deps_of(deps, t);
        let inner = path.push(t);
        let r1 = visit_all(deps, ds, ds.len() as int, inner, st, (fuel - 1) as nat);
        lemma_visit_all(deps, ds, ds.len() as int, inner, st, (fuel - 1) as nat);
        if let Ok(s1) = r1 {
            let o1 = s1.1;
            let o2 = o1.push(t);
            assert(r == Ok::<VisitState, Seq<char>>((s1.0.push(t), o2)));
            assert(!o1.contains(t)) by {
                if o1.contains(t) {
                    let j = choose|j: int| 0 <= j < o1.len() && o1[j] == t;
                    if j < st.1.len() {
                        assert(st.1[j] == t);
                        assert(st.0.contains(t));
                    } else {
                        assert(!inner.contains(o1[j]));
                        assert(inner[inner.len() - 1] == t);
                    }
                }
            }
            assert(o2.no_duplicates()) by {
                assert forall|a: int, b: int| 0 <= a < o2.len() && 0 <= b < o2.len() && a != b implies o2[a] != o2[b] by {
                    if a < o1.len() && b < o1.len() {
                        assert(o2[a] == o1[a] && o2[b] == o1[b]);
                    } else if a == o1.len() {
                        assert(o2[b] == o1[b]);
                        assert(o1.contains(o1[b]));
                    } else {
                        assert(o2[a] == o1[a]);
                        assert(o1.contains(o1[a]));
                    }
                }
            }
            assert(deps_placed_before(deps, o2)) by {
                assert forall|i: int, k: int|
                    0 <= i < o2.len() && 0 <= k < deps_of(deps, o2[i]).len()
                    implies placed_before(o2, #[trigger] deps_of(deps, o2[i])[k], i) by {
                    if i < o1.len() {
                        assert(o2[i] == o1[i]);
                        assert(placed_before(o1, deps_of(deps, o1[i])[k], i));
                        let j = choose|j: int| 0 <= j < i && o1[j] == deps_of(deps, o1[i])[k];
                        assert(o2[j] == o1[j]);
                    } else {
                        assert(o2[i] == t);
                        assert(o1.contains(ds[k]));
                        let j = choose|j: int| 0 <= j < o1.len() && o1[j] == ds[k];
                        assert(o2[j] == o1[j]);
                    }
                }
            }
            assert(extends(st.1, o2)) by {
                assert forall|j: int| 0 <= j < st.1.len() implies #[trigger] o2[j] == st.1[j] by {
                    assert(o1[j] == st.1[j]);
                }
            }
            assert(fresh_after(st.1, o2, path)) by {
                assert forall|j: int| st.1.len() <= j < o2.len() implies !path.contains(#[trigger] o2[j]) by {
                    if j < o1.len() {
                        assert(o2[j] == o1[j]);
                        assert(!inner.contains(o1[j]));
                        if path.contains(o1[j]) {
                            let m = choose|m: int| 0 <= m < path.len() && path[m] == o1[j];
                            assert(inner[m] == path[m]);
                        }
                    } else {
                        assert(o2[j] == t);
                    }
                }
            }
            assert(o2[o1.len() as int] == t);
            assert(seq![t][0] == t);
            assert(o2.contains(seq![t][0]));
        }
    }
}

proof fn lemma_visit_all(deps: DepTable, ds: Seq<Seq<char>>, k: int, path: Seq<Seq<char>>, st: VisitState, fuel: nat)
    requires
        sound_state(deps, st),
    ensures
        visit_kept(deps, st, path, visit_all(deps, ds, k, path, st, fuel)),
        all_placed(ds, k, visit_all(deps, ds, k, path, st, fuel)),
    decreases fuel, 2int, k,
{
    if k > 0 {
        let r1 = visit_all(deps, ds, k - 1, path, st, fuel);
        lemma_visit_all(deps, ds, k - 1, path, st, fuel);
        if let Ok(s1) = r1 {
            let r2 = visit(deps, ds[k - 1], path, s1, fuel);
            lemma_visit(deps, ds[k - 1], path, s1, fuel);
            if let Ok(s2) = r2 {
                assert(extends(st.1, s2.1)) by {
                    assert forall|j: int| 0 <= j < st.1.len() implies #[trigger] s2.1[j] == st.1[j] by {
                        assert(s1.1[j] == st.1[j]);
                    }
                }
                assert(fresh_after(st.1, s2.1, path)) by {
                    assert forall|j: int| st.1.len() <= j < s2.1.len() implies !path.contains(#[trigger] s2.1[j]) by {
                        if j < s1.1.len() {
                            assert(s2.1[j] == s1.1[j]);
                        }
                    }
                }
                assert forall|m: int| 0 <= m < k implies s2.1.contains(#[trigger] ds[m]) by {
                    if m < k - 1 {
                        assert(s1.1.contains(ds[m]));
                        let j = choose|j: int| 0 <= j < s1.1.len() && s1.1[j] == ds[m];
                        assert(s2.1[j] == s1.1[j]);
                    } else {
                        assert(seq![ds[k - 1]][0] == ds[k - 1]);
                    }
                }
            }
        }
    }
}

/// The build order puts every dependency recorded for a target before the target, holds
/// each target once, and holds every requested target.
pub proof fn law_dependencies_come_first(deps: DepTable, targets: Seq<Seq<char>>, st: VisitState)
    requires
        build_order(deps, targets) == Ok::<VisitState, Seq<char>>(st),
    ensures
        deps_placed_before(deps, st.1),
        st.1.no_duplicates(),
        forall|i: int| 0 <= i < targets.len() ==> st.1.contains(#[trigger] targets[i]),
{
    let st0: VisitState = (Seq::empty(), Seq::empty());
    assert(sound_state(deps, st0));
    lemma_visit_all(deps, targets, targets.len() as int, Seq::empty(), st0,
        crate::cli::order::order_fuel(targets.len(), deps));
}

proof fn lemma_key_index_same_keys<V>(s: Seq<(Seq<char>, V)>, s2: Seq<(Seq<char>, V)>, k: Seq<char>)
    requires
        s.len() == s2.len(),
        forall|j: int| 0 <= j < s.len() ==> #[trigger] s[j].0 == s2[j].0,
    ensures
        key_index(s, k) == key_index(s2, k),
    decreases s.len(),
{
    if s.len() > 0 {
        assert forall|j: int| 0 <= j < s.drop_last().len() implies #[trigger] s.drop_last()[j].0 == s2.drop_last()[j].0 by {
            assert(s.drop_last()[j] == s[j]);
            assert(s2.drop_last()[j] == s2[j]);
        }
        lemma_key_index_same_keys(s.drop_last(), s2.drop_last(), k);
        assert(s.last().0 == s2.last().0);
    }
}

proof fn lemma_lookup_put<V>(s: Seq<(Seq<char>, V)>, k: Seq<char>, v: V, k2: Seq<char>)
    ensures
        lookup(assoc_put(s, k, v), k2) == if k2 == k { Some(v) } else { lookup(s, k2) },
{
    lemma_key_index_bounds(s, k);
    lemma_key_index_bounds(s, k2);
    let r = assoc_put(s, k, v);
    match key_index(s, k) {
        Some(i) => {
            assert forall|j: int| 0 <= j < s.len() implies #[trigger] s[j].0 == r[j].0 by {
                if j == i {
                } else {
                    assert(r[j] == s[j]);
                }
            }
            lemma_key_index_same_keys(s, r, k2);
            match key_index(s, k2) {
                Some(m) => {
                    if m != i {
                        assert(r[m] == s[m]);
                    }
                },
                None => {},
            }
        },
        None => {
            assert(r.drop_last() =~= s);
            match key_index(s, k2) {
                Some(m) => {
                    assert(r[m] == s[m]);
                },
                None => {},
            }
        },
    }
}

proof fn lemma_dep_level_above(ds: Seq<Seq<char>>, table: Seq<(Seq<char>, nat)>, m: int, l: nat)
    requires
        0 <= m < ds.len(),
        lookup(table, ds[m]) == Some(l),
    ensures
        dep_level(ds, table) >= l + 1,
    decreases ds.len(),
{
    if m < ds.len() - 1 {
        assert(ds.drop_last()[m] == ds[m]);
        lemma_dep_level_above(ds.drop_last(), table, m, l);
    }
}

/// The level assigned to `ts[j]` when it is placed.
pub open spec fn placed_level(deps: DepTable, ts: Seq<Seq<char>>, j: int) -> nat {
    dep_level(deps_of(deps, ts[j]), level_table(deps, ts.take(j)))
}

proof fn lemma_level_kept(deps: DepTable, ts: Seq<Seq<char>>, j: int, n: int)
    requires
        ts.no_duplicates(),
        0 <= j < n <= ts.len(),
    ensures
        lookup(level_table(deps, ts.take(n)), ts[j]) == Some(placed_level(deps, ts, j)),
    decreases n,
{
    let tn = ts.take(n);
    assert(tn.drop_last() =~= ts.take(n - 1));
    assert(tn.last() == ts[n - 1]);
    let prev = level_table(deps, ts.take(n - 1));
    lemma_lookup_put(prev, ts[n - 1], dep_level(deps_of(deps, ts[n - 1]), prev), ts[j]);
    if n > j + 1 {
        lemma_level_kept(deps, ts, j, n - 1);
        assert(ts[n - 1] != ts[j]);
    }
}

/// The level of `t` in a level table (0 when it has none).
pub open spec fn level_in(table: Seq<(Seq<char>, nat)>, t: Seq<char>) -> nat {
    match lookup(table, t) {
        Some(l) => l,
        None => 0,
    }
}

/// Among targets in build order, each once, every target has a level, and a target's level is
/// above that of each of its dependencies that comes before it.
pub proof fn law_levels_above_dependencies(deps: DepTable, ts: Seq<Seq<char>>, i: int, j: int)
    requires
        ts.no_duplicates(),
        0 <= j < i < ts.len(),
        deps_of(deps, ts[i]).contains(ts[j]),
    ensures
        lookup(level_table(deps, ts), ts[i]) is Some,
        lookup(level_table(deps, ts), ts[j]) is Some,
        level_in(level_table(deps, ts), ts[j]) < level_in(level_table(deps, ts), ts[i]),
{
    assert(ts.take(ts.len() as int) =~= ts);
    lemma_level_kept(deps, ts, i, ts.len() as int);
    lemma_level_kept(deps, ts, j, ts.len() as int);
    lemma_level_kept(deps, ts, j, i);
    let ds = deps_of(deps, ts[i]);
    let m = choose|m: int| 0 <= m < ds.len() && ds[m] == ts[j];
    lemma_dep_level_above(ds, level_table(deps, ts.take(i)), m, placed_level(deps, ts, j));
}

/// In the build order, every dependency recorded for a target has a level below the target's:
/// each level of the build needs only the levels below it.
pub proof fn law_dependencies_build_at_lower_levels(deps: DepTable, targets: Seq<Seq<char>>, st: VisitState, i: int, k: int)
    requires
        build_order(deps, targets) == Ok::<VisitState, Seq<char>>(st),
        0 <= i < st.1.len(),
        0 <= k < deps_of(deps, st.1[i]).len(),
    ensures
        lookup(level_table(deps, st.1), deps_of(deps, st.1[i])[k]) is Some,
        level_in(level_table(deps, st.1), deps_of(deps, st.1[i])[k]) < level_in(level_table(deps, st.1), st.1[i]),
{
    law_dependencies_come_first(deps, targets, st);
    let d = deps_of(deps, st.1[i])[k];
    assert(placed_before(st.1, d, i));
    let j = choose|j: int| 0 <= j < i && st.1[j] == d;
    law_levels_above_dependencies(deps, st.1, i, j);
}

/// The output paths of the declarations, in order.
pub open spec fn output_paths(ds: Seq<(Seq<char>, Seq<char>)>) -> Seq<Seq<char>> {
    ds.map_values(|d: (Seq<char>, Seq<char>)| d.0)
}

proof fn lemma_owners_present(ds: Seq<(Seq<char>, Seq<char>)>, o: Seq<char>)
    ensures
        owners(ds, o).len() > 0 <==> output_paths(ds).contains(o),
    decreases ds.len(),
{
    if ds.len() > 0 {
        lemma_owners_present(ds.drop_last(), o);
        assert(output_paths(ds) =~= output_paths(ds.drop_last()).push(ds.last().0));
        if output_paths(ds.drop_last()).contains(o) {
            let j = choose|j: int| 0 <= j < output_paths(ds.drop_last()).len() && output_paths(ds.drop_last())[j] == o;
            assert(output_paths(ds)[j] == o);
        }
        if output_paths(ds).contains(o) {
            let j = choose|j: int| 0 <= j < output_paths(ds).len() && output_paths(ds)[j] == o;
            if j < ds.len() - 1 {
                assert(output_paths(ds.drop_last())[j] == o);
            }
        }
        if ds.last().0 == o {
            assert(output_paths(ds)[ds.len() - 1] == o);
        }
    }
}

proof fn lemma_owners_at_most_one(ds: Seq<(Seq<char>, Seq<char>)>)
    ensures
        output_paths(ds).no_duplicates() <==> forall|o: Seq<char>| #[trigger] owners(ds, o).len() <= 1,
    decreases ds.len(),
{
    if ds.len() > 0 {
        let prev = ds.drop_last();
        let x = ds.last();
        lemma_owners_at_most_one(prev);
        lemma_owners_present(prev, x.0);
        let ps = output_paths(ds);
        let pp = output_paths(prev);
        assert(ps =~= pp.push(x.0));
        if ps.no_duplicates() {
            assert(pp.no_duplicates()) by {
                assert forall|a: int, b: int| 0 <= a < pp.len() && 0 <= b < pp.len() && a != b implies pp[a] != pp[b] by {
                    assert(ps[a] == pp[a] && ps[b] == pp[b]);
                }
            }
            assert(!pp.contains(x.0)) by {
                if pp.contains(x.0) {
                    let j = choose|j: int| 0 <= j < pp.len() && pp[j] == x.0;
                    assert(ps[j] == ps[ps.len() - 1]);
                }
            }
            assert forall|o: Seq<char>| #[trigger] owners(ds, o).len() <= 1 by {
                assert(owners(prev, o).len() <= 1);
            }
        }
        if forall|o: Seq<char>| #[trigger] owners(ds, o).len() <= 1 {
            assert forall|o: Seq<char>| #[trigger] owners(prev, o).len() <= 1 by {
                assert(owners(ds, o).len() <= 1);
            }
            assert(owners(ds, x.0).len() <= 1);
            assert(!pp.contains(x.0));
            assert forall|a: int, b: int| 0 <= a < ps.len() && 0 <= b < ps.len() && a != b implies ps[a] != ps[b] by {
                if a < pp.len() && b < pp.len() {
                    assert(ps[a] == pp[a] && ps[b] == pp[b]);
                } else if a == pp.len() {
                    assert(ps[b] == pp[b]);
                    assert(pp.contains(pp[b]));
                } else {
                    assert(ps[a] == pp[a]);
                    assert(pp.contains(pp[a]));
                }
            }
        }
    } else {
        assert(output_paths(ds) =~= Seq::<Seq<char>>::empty());
    }
}

proof fn lemma_conflicted_empty(paths: Seq<Seq<char>>, ds: Seq<(Seq<char>, Seq<char>)>)
    ensures
        conflicted(paths, ds).len() == 0 <==> forall|i: int| 0 <= i < paths.len() ==> #[trigger] owners(ds, paths[i]).len() <= 1,
    decreases paths.len(),
{
    if paths.len() > 0 {
        lemma_conflicted_empty(paths.drop_last(), ds);
        if conflicted(paths, ds).len() == 0 {
            assert forall|i: int| 0 <= i < paths.len() implies #[trigger] owners(ds, paths[i]).len() <= 1 by {
                if i < paths.len() - 1 {
                    assert(paths.drop_last()[i] == paths[i]);
                }
            }
        }
        if forall|i: int| 0 <= i < paths.len() ==> #[trigger] owners(ds, paths[i]).len() <= 1 {
            assert forall|i: int| 0 <= i < paths.drop_last().len() implies #[trigger] owners(ds, paths.drop_last()[i]).len() <= 1 by {
                assert(paths.drop_last()[i] == paths[i]);
            }
            assert(owners(ds, paths[paths.len() - 1]).len() <= 1);
        }
    }
}

proof fn lemma_first_paths_cover(ds: Seq<(Seq<char>, Seq<char>)>, o: Seq<char>)
    ensures
        first_paths(ds).contains(o) <==> output_paths(ds).contains(o),
    decreases ds.len(),
{
    if ds.len() > 0 {
        lemma_first_paths_cover(ds.drop_last(), o);
        let pp = output_paths(ds.drop_last());
        let ps = output_paths(ds);
        assert(ps =~= pp.push(ds.last().0));
        let fp = first_paths(ds.drop_last());
        if fp.contains(o) {
            let j = choose|j: int| 0 <= j < fp.len() && fp[j] == o;
            assert(fp.push(ds.last().0)[j] == o);
        }
        if first_paths(ds).contains(o) && !fp.contains(o) {
            let j = choose|j: int| 0 <= j < first_paths(ds).len() && first_paths(ds)[j] == o;
            assert(ps[ps.len() - 1] == o);
        }
        if pp.contains(o) {
            let j = choose|j: int| 0 <= j < pp.len() && pp[j] == o;
            assert(ps[j] == o);
        }
        if ps.contains(o) && !pp.contains(o) {
            let j = choose|j: int| 0 <= j < ps.len() && ps[j] == o;
            if j < pp.len() {
                assert(pp[j] == o);
            }
            assert(fp.push(ds.last().0)[fp.len() as int] == o);
        }
    }
}

/// Checking the outputs of the planned targets succeeds exactly when no output path is
/// declared twice, by two targets or twice by one.
pub proof fn law_outputs_check_ok_iff_distinct(ps: Seq<((Seq<char>, Seq<char>), Seq<Seq<char>>)>)
    ensures
        outputs_check(ps) is Ok <==> output_paths(declared(ps)).no_duplicates(),
{
    let ds = declared(ps);
    let fp = first_paths(ds);
    lemma_conflicted_empty(fp, ds);
    lemma_owners_at_most_one(ds);
    if conflicted(fp, ds).len() == 0 {
        assert forall|o: Seq<char>| #[trigger] owners(ds, o).len() <= 1 by {
            lemma_owners_present(ds, o);
            lemma_first_paths_cover(ds, o);
            if owners(ds, o).len() > 0 {
                let j = choose|j: int| 0 <= j < fp.len() && fp[j] == o;
                assert(owners(ds, fp[j]).len() <= 1);
            }
        }
    }
    if output_paths(ds).no_duplicates() {
        assert forall|i: int| 0 <= i < fp.len() implies #[trigger] owners(ds, fp[i]).len() <= 1 by {
            assert(owners(ds, fp[i]).len() <= 1);
        }
    }
}

/// The dependencies recorded for the first `k` targets of the table, one after another.
pub open spec fn all_deps(deps: DepTable, k: int) -> Seq<Seq<char>>
    decreases k,
{
    if k <= 0 || k > deps.len() {
        Seq::empty()
    } else {
        all_deps(deps, k - 1) + deps[k - 1].1
    }
}

/// The number of dependencies recorded in the table.
pub open spec fn dep_total(deps: DepTable) -> nat {
    all_deps(deps, deps.len() as int).len()
}

/// `c[i + 1]` is a dependency of `c[i]`.
pub open spec fn links(deps: DepTable, c: Seq<Seq<char>>, i: int) -> bool {
    deps_of(deps, c[i]).contains(c[i + 1])
}

/// Each element of `c` after the first is a dependency of the one before it.
pub open spec fn dep_chain(deps: DepTable, c: Seq<Seq<char>>) -> bool {
    forall|i: int| 0 <= i < c.len() - 1 ==> #[trigger] links(deps, c, i)
}

/// `x` depends on itself: a chain of dependencies leads from `x` back to `x`.
pub open spec fn cycle_through(deps: DepTable, x: Seq<char>) -> bool {
    exists|c: Seq<Seq<char>>| #![trigger dep_chain(deps, c)] c.len() >= 2 && c[0] == x && c[c.len() - 1] == x && dep_chain(deps, c)
}

proof fn lemma_dep_count(n: nat, deps: DepTable, k: int)
    requires
        0 <= k <= deps.len(),
        n + all_deps(deps, k).len() <= usize::MAX,
    ensures
        dep_count(n, deps, k) == n + all_deps(deps, k).len(),
    decreases k,
{
    if k > 0 {
        lemma_dep_count(n, deps, k - 1);
    }
}

proof fn lemma_all_deps_contains(deps: DepTable, k: int, i: int, m: int)
    requires
        0 <= i < k <= deps.len(),
        0 <= m < deps[i].1.len(),
    ensures
        all_deps(deps, k).contains(deps[i].1[m]),
    decreases k,
{
    let prev = all_deps(deps, k - 1);
    if i < k - 1 {
        lemma_all_deps_contains(deps, k - 1, i, m);
        let j = choose|j: int| 0 <= j < prev.len() && prev[j] == deps[i].1[m];
        assert((prev + deps[k - 1].1)[j] == prev[j]);
    } else {
        assert((prev + deps[k - 1].1)[prev.len() + m] == deps[i].1[m]);
    }
}

/// The targets and recorded dependencies, among which every visited target lies.
pub open spec fn known_names(deps: DepTable, targets: Seq<Seq<char>>) -> Seq<Seq<char>> {
    targets + all_deps(deps, deps.len() as int)
}

proof fn lemma_names_closed(deps: DepTable, targets: Seq<Seq<char>>, x: Seq<char>, m: int)
    requires
        0 <= m < deps_of(deps, x).len(),
    ensures
        known_names(deps, targets).contains(deps_of(deps, x)[m]),
{
    lemma_key_index_bounds(deps, x);
    let i = key_index(deps, x)->0;
    lemma_all_deps_contains(deps, deps.len() as int, i, m);
    let ad = all_deps(deps, deps.len() as int);
    let j = choose|j: int| 0 <= j < ad.len() && ad[j] == deps[i].1[m];
    assert(known_names(deps, targets)[targets.len() + j] == ad[j]);
}

/// What a visit below `path` may assume: the path is a chain of dependencies of distinct
/// known targets, long enough fuel is left, and `t` depends from the end of the path.
pub open spec fn visit_setting(deps: DepTable, names: Seq<Seq<char>>, path: Seq<Seq<char>>, fuel: nat) -> bool {
    &&& path.no_duplicates()
    &&& forall|i: int| 0 <= i < path.len() ==> names.contains(#[trigger] path[i])
    &&& fuel + path.len() >= names.len() + 1
    &&& dep_chain(deps, path)
}

/// An error of a visit names a target that depends on itself.
pub open spec fn error_is_cycle(deps: DepTable, r: Result<VisitState, Seq<char>>) -> bool {
    match r {
        Ok(_) => true,
        Err(x) => cycle_through(deps, x),
    }
}

proof fn lemma_visit_error(deps: DepTable, targets: Seq<Seq<char>>, t: Seq<char>, path: Seq<Seq<char>>, st: VisitState, fuel: nat)
    requires
        visit_setting(deps, known_names(deps, targets), path, fuel),
        known_names(deps, targets).contains(t),
        path.len() > 0 ==> deps_of(deps, path[path.len() - 1]).contains(t),
    ensures
        error_is_cycle(deps, visit(deps, t, path, st, fuel)),
    decreases fuel, 1int, 0int,
{
    let names = known_names(deps, targets);
    if st.0.contains(t) {
    } else if path.contains(t) {
        let j = choose|j: int| 0 <= j < path.len() && path[j] == t;
        let c = path.subrange(j, path.len() as int).push(t);
        assert forall|i: int| 0 <= i < c.len() - 1 implies #[trigger] links(deps, c, i) by {
            if i < path.len() - j - 1 {
                assert(links(deps, path, j + i));
                assert(c[i] == path[j + i] && c[i + 1] == path[j + i + 1]);
            } else {
                assert(c[i] == path[path.len() - 1] && c[i + 1] == t);
            }
        }
        assert(c[0] == t && c[c.len() - 1] == t);
        assert(dep_chain(deps, c));
    } else {
        let np = path.push(t);
        assert(np.no_duplicates()) by {
            assert forall|a: int, b: int| 0 <= a < np.len() && 0 <= b < np.len() && a != b implies np[a] != np[b] by {
                if a < path.len() && b < path.len() {
                    assert(np[a] == path[a] && np[b] == path[b]);
                } else if a == path.len() {
                    assert(np[b] == path[b]);
                } else {
                    assert(np[a] == path[a]);
                }
            }
        }
        assert(np.to_set().subset_of(names.to_set())) by {
            assert forall|x: Seq<char>| np.to_set().contains(x) implies names.to_set().contains(x) by {
                assert(np.contains(x));
                let i = choose|i: int| 0 <= i < np.len() && np[i] == x;
                if i < path.len() {
                    assert(np[i] == path[i]);
                }
            }
        }
        np.unique_seq_to_set();
        names.lemma_cardinality_of_set();
        vstd::set_lib::lemma_len_subset(np.to_set(), names.to_set());
        assert(fuel > 0);
        let ds = deps_of(deps, t);
        assert(visit_setting(deps, names, np, (fuel - 1) as nat)) by {
            assert forall|i: int| 0 <= i < np.len() implies names.contains(#[trigger] np[i]) by {
                if i < path.len() {
                    assert(np[i] == path[i]);
                }
            }
            assert forall|i: int| 0 <= i < np.len() - 1 implies #[trigger] links(deps, np, i) by {
                if i < path.len() - 1 {
                    assert(links(deps, path, i));
                    assert(np[i] == path[i] && np[i + 1] == path[i + 1]);
                } else {
                    assert(np[i] == path[path.len() - 1] && np[i + 1] == t);
                }
            }
        }
        assert forall|m: int| 0 <= m < ds.len() implies names.contains(#[trigger] ds[m]) by {
            lemma_names_closed(deps, targets, t, m);
        }
        lemma_visit_all_error(deps, targets, ds, ds.len() as int, np, st, (fuel - 1) as nat);
    }
}

proof fn lemma_visit_all_error(deps: DepTable, targets: Seq<Seq<char>>, ds: Seq<Seq<char>>, k: int, path: Seq<Seq<char>>, st: VisitState, fuel: nat)
    requires
        visit_setting(deps, known_names(deps, targets), path, fuel),
        k <= ds.len(),
        forall|m: int| 0 <= m < k ==> known_names(deps, targets).contains(#[trigger] ds[m]),
        path.len() == 0 ==> ds == targets,
        path.len() > 0 ==> ds == deps_of(deps, path[path.len() - 1]),
    ensures
        error_is_cycle(deps, visit_all(deps, ds, k, path, st, fuel)),
    decreases fuel, 2int, k,
{
    if k > 0 {
        lemma_visit_all_error(deps, targets, ds, k - 1, path, st, fuel);
        match visit_all(deps, ds, k - 1, path, st, fuel) {
            Err(_) => {},
            Ok(s1) => {
                assert(known_names(deps, targets).contains(ds[k - 1]));
                if path.len() > 0 {
                    assert(ds[k - 1] == ds[k - 1]);
                    assert(deps_of(deps, path[path.len() - 1]).contains(ds[k - 1]));
                }
                lemma_visit_error(deps, targets, ds[k - 1], path, s1, fuel);
            },
        }
    }
}

/// The build order fails only on a cycle: the target it names depends on itself through a
/// chain of recorded dependencies (for tables whose size fits a machine word).
pub proof fn law_order_error_is_cycle(deps: DepTable, targets: Seq<Seq<char>>, x: Seq<char>)
    requires
        build_order(deps, targets) == Err::<VisitState, Seq<char>>(x),
        targets.len() + dep_total(deps) < usize::MAX,
    ensures
        cycle_through(deps, x),
{
    let names = known_names(deps, targets);
    lemma_dep_count(targets.len(), deps, deps.len() as int);
    assert(order_fuel(targets.len(), deps) == names.len() + 1);
    let path = Seq::<Seq<char>>::empty();
    assert(dep_chain(deps, path));
    assert forall|m: int| 0 <= m < targets.len() implies names.contains(#[trigger] targets[m]) by {
        assert(names[m] == targets[m]);
    }
    lemma_visit_all_error(deps, targets, targets, targets.len() as int, path,
        (Seq::empty(), Seq::empty()), order_fuel(targets.len(), deps));
}

/// Some target placed after position `i` of `o` depends on `o[i]`.
pub open spec fn later_parent(deps: DepTable, o: Seq<Seq<char>>, i: int) -> bool {
    exists|j: int| i < j < o.len() && deps_of(deps, o[j]).contains(o[i])
}

/// Why `x` was visited below `path`: it is requested (at the top) or a dependency of the
/// path's last target.
pub open spec fn wanted(deps: DepTable, targets: Seq<Seq<char>>, path: Seq<Seq<char>>, x: Seq<char>) -> bool {
    if path.len() == 0 { targets.contains(x) } else { deps_of(deps, path[path.len() - 1]).contains(x) }
}

/// Each target that `o` holds from position `from` on is requested, depended on by a target
/// placed after it, or wanted by the path.
pub open spec fn grounded(deps: DepTable, targets: Seq<Seq<char>>, path: Seq<Seq<char>>, o: Seq<Seq<char>>, from: int) -> bool {
    forall|i: int| from <= i < o.len() ==> #[trigger] targets.contains(o[i]) || later_parent(deps, o, i) || wanted(deps, targets, path, o[i])
}

pub open spec fn grounded_result(deps: DepTable, targets: Seq<Seq<char>>, path: Seq<Seq<char>>, st: VisitState, r: Result<VisitState, Seq<char>>) -> bool {
    match r {
        Ok(s2) => grounded(deps, targets, path, s2.1, st.1.len() as int),
        Err(_) => true,
    }
}

proof fn lemma_visit_grounded(deps: DepTable, targets: Seq<Seq<char>>, t: Seq<char>, path: Seq<Seq<char>>, st: VisitState, fuel: nat)
    requires
        sound_state(deps, st),
        wanted(deps, targets, path, t),
    ensures
        grounded_result(deps, targets, path, st, visit(deps, t, path, st, fuel)),
    decreases fuel, 1int, 0int,
{
    if !st.0.contains(t) && !(path.contains(t) || fuel == 0) {
        let ds = deps_of(deps, t);
        let inner = path.push(t);
        assert forall|m: int| 0 <= m < ds.len() implies #[trigger] wanted(deps, targets, inner, ds[m]) by {
            assert(inner[inner.len() - 1] == t);
            assert(ds[m] == ds[m]);
        }
        lemma_visit_all_grounded(deps, targets, ds, ds.len() as int, inner, st, (fuel - 1) as nat);
        lemma_visit_all(deps, ds, ds.len() as int, inner, st, (fuel - 1) as nat);
        if let Ok(s1) = visit_all(deps, ds, ds.len() as int, inner, st, (fuel - 1) as nat) {
            let o1 = s1.1;
            let o2 = o1.push(t);
            assert forall|i: int| st.1.len() <= i < o2.len() implies #[trigger] targets.contains(o2[i]) || later_parent(deps, o2, i) || wanted(deps, targets, path, o2[i]) by {
                if i == o1.len() {
                    assert(o2[i] == t);
                } else {
                    assert(o2[i] == o1[i]);
                    if later_parent(deps, o1, i) {
                        let j = choose|j: int| i < j < o1.len() && deps_of(deps, o1[j]).contains(o1[i]);
                        assert(o2[j] == o1[j]);
                    } else if !targets.contains(o1[i]) {
                        assert(wanted(deps, targets, inner, o1[i]));
                        assert(inner[inner.len() - 1] == t);
                        assert(o2[o1.len() as int] == t);
                        assert(deps_of(deps, o2[o1.len() as int]).contains(o2[i]));
                    }
                }
            }
        }
    }
}

proof fn lemma_visit_all_grounded(deps: DepTable, targets: Seq<Seq<char>>, ds: Seq<Seq<char>>, k: int, path: Seq<Seq<char>>, st: VisitState, fuel: nat)
    requires
        sound_state(deps, st),
        k <= ds.len(),
        forall|m: int| 0 <= m < k ==> #[trigger] wanted(deps, targets, path, ds[m]),
    ensures
        grounded_result(deps, targets, path, st, visit_all(deps, ds, k, path, st, fuel)),
    decreases fuel, 2int, k,
{
    if k > 0 {
        lemma_visit_all_grounded(deps, targets, ds, k - 1, path, st, fuel);
        lemma_visit_all(deps, ds, k - 1, path, st, fuel);
        if let Ok(s1) = visit_all(deps, ds, k - 1, path, st, fuel) {
            assert(wanted(deps, targets, path, ds[k - 1]));
            lemma_visit_grounded(deps, targets, ds[k - 1], path, s1, fuel);
            lemma_visit(deps, ds[k - 1], path, s1, fuel);
            if let Ok(s2) = visit(deps, ds[k - 1], path, s1, fuel) {
                assert forall|i: int| st.1.len() <= i < s2.1.len() implies #[trigger] targets.contains(s2.1[i]) || later_parent(deps, s2.1, i) || wanted(deps, targets, path, s2.1[i]) by {
                    if i < s1.1.len() {
                        assert(s2.1[i] == s1.1[i]);
                        if later_parent(deps, s1.1, i) {
                            let j = choose|j: int| i < j < s1.1.len() && deps_of(deps, s1.1[j]).contains(s1.1[i]);
                            assert(s2.1[j] == s1.1[j]);
                        }
                    }
                }
            }
        }
    }
}

/// The build order holds nothing but what was asked for: each of its targets is a requested
/// target or a recorded dependency of a target placed after it, so every target of the order
/// is reachable from the requested ones.
pub proof fn law_order_holds_only_reachable(deps: DepTable, targets: Seq<Seq<char>>, st: VisitState, i: int)
    requires
        build_order(deps, targets) == Ok::<VisitState, Seq<char>>(st),
        0 <= i < st.1.len(),
    ensures
        targets.contains(st.1[i]) || later_parent(deps, st.1, i),
{
    let st0: VisitState = (Seq::empty(), Seq::empty());
    assert(sound_state(deps, st0));
    let path = Seq::<Seq<char>>::empty();
    assert forall|m: int| 0 <= m < targets.len() implies #[trigger] wanted(deps, targets, path, targets[m]) by {
        assert(targets.contains(targets[m]));
    }
    lemma_visit_all_grounded(deps, targets, targets, targets.len() as int, path, st0,
        crate::cli::order::order_fuel(targets.len(), deps));
    assert(targets.contains(st.1[i]) || later_parent(deps, st.1, i) || wanted(deps, targets, path, st.1[i]));
}

} // verus!
