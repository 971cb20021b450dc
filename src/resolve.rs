use vstd::prelude::*;
use vstd::set_lib::{lemma_int_range, lemma_len_subset, set_int_range};

use crate::definition::ColorschemeIntermediate;
use crate::error::ConfigError;
use crate::name::{lemma_name_less_irreflexive, lemma_name_less_total, lemma_name_less_transitive, name_less, name_lt};

verus! {

/// The names that colorscheme `i` of `g` inherits from, in order.
pub open spec fn deps(g: Seq<(String, ColorschemeIntermediate)>, i: int) -> Seq<String> {
    g[i].1.settings.inherit@
}

/// No two colorschemes of `g` share a name.
pub open spec fn names_distinct(g: Seq<(String, ColorschemeIntermediate)>) -> bool {
    forall|i: int, j: int| 0 <= i < j < g.len() ==> g[i].0@ != g[j].0@
}

/// Some colorscheme of `g` is named `n`.
pub open spec fn is_defined(g: Seq<(String, ColorschemeIntermediate)>, n: Seq<char>) -> bool {
    exists|i: int| 0 <= i < g.len() && g[i].0@ == n
}

/// Every inherited name refers to a colorscheme of `g`.
pub open spec fn all_defined(g: Seq<(String, ColorschemeIntermediate)>) -> bool {
    forall|i: int, d: int| 0 <= i < g.len() && 0 <= d < deps(g, i).len() ==> is_defined(g, #[trigger] deps(g, i)[d]@)
}

/// Some colorscheme listed (by index) in `o` is named `n`.
pub open spec fn is_done(g: Seq<(String, ColorschemeIntermediate)>, o: Seq<int>, n: Seq<char>) -> bool {
    exists|k: int| 0 <= k < o.len() && g[o[k]].0@ == n
}

/// Colorscheme `i` is not yet in `o`, and everything it inherits is.
pub open spec fn is_ready(g: Seq<(String, ColorschemeIntermediate)>, o: Seq<int>, i: int) -> bool {
    &&& 0 <= i < g.len()
    &&& !o.contains(i)
    &&& forall|d: int| 0 <= d < deps(g, i).len() ==> is_done(g, o, #[trigger] deps(g, i)[d]@)
}

/// No colorscheme that is ready after the steps `o` has a name before that
/// of colorscheme `i`.
pub open spec fn is_least_ready(g: Seq<(String, ColorschemeIntermediate)>, o: Seq<int>, i: int) -> bool {
    forall|j: int| #[trigger] is_ready(g, o, j) ==> !name_less(g[j].0@, g[i].0@)
}

/// Each step of `o` takes, of the colorschemes that are ready after the
/// steps before it, the one whose name comes first.
pub open spec fn is_greedy(g: Seq<(String, ColorschemeIntermediate)>, o: Seq<int>) -> bool {
    forall|k: int| 0 <= k < o.len() ==> is_ready(g, o.take(k), #[trigger] o[k]) && is_least_ready(g, o.take(k), o[k])
}

/// Every colorscheme of `g` appears in `o`.
pub open spec fn covers(g: Seq<(String, ColorschemeIntermediate)>, o: Seq<int>) -> bool {
    forall|i: int| 0 <= i < g.len() ==> o.contains(i)
}

/// `o` is the resolution order of `g`: greedy and complete.
pub open spec fn is_resolution(g: Seq<(String, ColorschemeIntermediate)>, o: Seq<int>) -> bool {
    is_greedy(g, o) && covers(g, o)
}

/// `o` lists each colorscheme of `g` once, and each after every colorscheme
/// named in its inherit list.
pub open spec fn is_topological(g: Seq<(String, ColorschemeIntermediate)>, o: Seq<int>) -> bool {
    &&& o.no_duplicates()
    &&& covers(g, o)
    &&& forall|k: int| 0 <= k < o.len() ==> 0 <= #[trigger] o[k] < g.len()
    &&& forall|q: int, d: int| 0 <= q < o.len() && 0 <= d < deps(g, o[q]).len()
        ==> appears_before(g, o, q, #[trigger] deps(g, o[q])[d]@)
}

/// Some colorscheme listed in `o` before position `q` is named `n`.
pub open spec fn appears_before(g: Seq<(String, ColorschemeIntermediate)>, o: Seq<int>, q: int, n: Seq<char>) -> bool {
    exists|p: int| 0 <= p < q && g[o[p]].0@ == n
}

/// Entry `d` of the inherit list of colorscheme `i` is the name `n`.
pub open spec fn inherits_name(g: Seq<(String, ColorschemeIntermediate)>, i: int, d: int, n: Seq<char>) -> bool {
    0 <= i < g.len() && 0 <= d < deps(g, i).len() && deps(g, i)[d]@ == n
}

/// Some order of `g` is topological.
pub open spec fn has_topological_order(g: Seq<(String, ColorschemeIntermediate)>) -> bool {
    exists|o: Seq<int>| is_topological(g, o)
}

/// The resolution order of `g`, where there is one.
pub open spec fn resolution(g: Seq<(String, ColorschemeIntermediate)>) -> Seq<int> {
    choose|o: Seq<int>| is_resolution(g, o)
}

/// The names of the colorschemes that `o` lists.
pub open spec fn order_names(g: Seq<(String, ColorschemeIntermediate)>, o: Seq<int>) -> Seq<Seq<char>> {
    o.map_values(|i: int| g[i].0@)
}

/// Some entry of the inherit list of colorscheme `i` names no colorscheme of `g`.
pub open spec fn has_unknown(g: Seq<(String, ColorschemeIntermediate)>, i: int) -> bool {
    exists|d: int| 0 <= d < deps(g, i).len() && !is_defined(g, #[trigger] deps(g, i)[d]@)
}

/// Entry `d` is the first entry of the inherit list of colorscheme `i` that
/// names no colorscheme of `g`.
pub open spec fn first_unknown(g: Seq<(String, ColorschemeIntermediate)>, i: int, d: int) -> bool {
    &&& 0 <= i < g.len()
    &&& 0 <= d < deps(g, i).len()
    &&& !is_defined(g, deps(g, i)[d]@)
    &&& forall|e: int| 0 <= e < d ==> is_defined(g, #[trigger] deps(g, i)[e]@)
}

/// Of the colorschemes that inherit an unknown name, `i` has the name that
/// comes first.
pub open spec fn least_with_unknown(g: Seq<(String, ColorschemeIntermediate)>, i: int) -> bool {
    &&& 0 <= i < g.len()
    &&& has_unknown(g, i)
    &&& forall|j: int| 0 <= j < g.len() && #[trigger] has_unknown(g, j) ==> !name_less(g[j].0@, g[i].0@)
}

/// `o` is a greedy order after which no colorscheme is ready.
pub open spec fn is_stuck(g: Seq<(String, ColorschemeIntermediate)>, o: Seq<int>) -> bool {
    is_greedy(g, o) && forall|j: int| 0 <= j < g.len() ==> !is_ready(g, o, j)
}

/// Of the colorschemes outside `o`, `i` has the name that comes first.
pub open spec fn least_pending(g: Seq<(String, ColorschemeIntermediate)>, o: Seq<int>, i: int) -> bool {
    &&& 0 <= i < g.len()
    &&& !o.contains(i)
    &&& forall|j: int| 0 <= j < g.len() && !o.contains(j) ==> !name_less(g[j].0@, g[i].0@)
}

/// Entry `d` is the first entry of the inherit list of colorscheme `i` that
/// names no colorscheme of `o`.
pub open spec fn first_unfinished(g: Seq<(String, ColorschemeIntermediate)>, o: Seq<int>, i: int, d: int) -> bool {
    &&& 0 <= d < deps(g, i).len()
    &&& !is_done(g, o, deps(g, i)[d]@)
    &&& forall|e: int| 0 <= e < d ==> is_done(g, o, #[trigger] deps(g, i)[e]@)
}

/// `g` has no topological order. Once the greedy order is stuck,
/// `dependent` is the colorscheme left out whose name comes first, and
/// `dependency` the first name of its inherit list that is left out too.
pub open spec fn cycle_reported(g: Seq<(String, ColorschemeIntermediate)>, dependent: Seq<char>, dependency: Seq<char>) -> bool {
    &&& all_defined(g)
    &&& !has_topological_order(g)
    &&& exists|o: Seq<int>, i: int, d: int| is_stuck(g, o) && least_pending(g, o, i) && #[trigger] first_unfinished(g, o, i, d)
        && g[i].0@ == dependent && deps(g, i)[d]@ == dependency
}

/// What `compilation_strategy` returns for `g`.
pub open spec fn strategy_result(g: Seq<(String, ColorschemeIntermediate)>, r: Result<Vec<String>, ConfigError>) -> bool {
    match r {
        Ok(order) => all_defined(g) && is_resolution(g, resolution(g))
            && order@.map_values(|s: String| s@) == order_names(g, resolution(g)),
        Err(ConfigError::UnknownColorscheme(n)) => !all_defined(g)
            && exists|i: int, d: int| least_with_unknown(g, i) && #[trigger] first_unknown(g, i, d) && deps(g, i)[d]@ == n@,
        Err(ConfigError::CyclicDependency { dependent, dependency }) => cycle_reported(g, dependent@, dependency@),
        Err(_) => false,
    }
}

/// Two greedy orders agree on their common prefix.
proof fn lemma_greedy_prefix(g: Seq<(String, ColorschemeIntermediate)>, o1: Seq<int>, o2: Seq<int>, k: int)
    requires
        names_distinct(g),
        is_greedy(g, o1),
        is_greedy(g, o2),
        0 <= k <= o1.len(),
        k <= o2.len(),
    ensures
        o1.take(k) == o2.take(k),
    decreases k,
{
    if k > 0 {
        lemma_greedy_prefix(g, o1, o2, k - 1);
        let (a, b) = (o1[k - 1], o2[k - 1]);
        assert(is_ready(g, o1.take(k - 1), a));
        assert(is_ready(g, o2.take(k - 1), b));
        if a != b {
            if a < b {
                assert(g[a].0@ != g[b].0@);
            } else {
                assert(g[b].0@ != g[a].0@);
            }
            lemma_name_less_total(g[a].0@, g[b].0@);
            assert(!name_less(g[a].0@, g[b].0@));
            assert(!name_less(g[b].0@, g[a].0@));
        }
        assert(o1.take(k) =~= o1.take(k - 1).push(a));
        assert(o2.take(k) =~= o2.take(k - 1).push(b));
    }
}

/// A greedy order cannot be extended past a covering greedy order.
proof fn lemma_greedy_not_longer(g: Seq<(String, ColorschemeIntermediate)>, o1: Seq<int>, o2: Seq<int>)
    requires
        names_distinct(g),
        is_resolution(g, o1),
        is_greedy(g, o2),
    ensures
        o2.len() <= o1.len(),
{
    if o2.len() > o1.len() {
        let n = o1.len() as int;
        lemma_greedy_prefix(g, o1, o2, n);
        assert(o1.take(n) =~= o1);
        let x = o2[n];
        assert(is_ready(g, o2.take(n), x));
        assert(o1.contains(x));
    }
}

/// The resolution order of a set of colorschemes is unique: resolving the
/// same definitions again yields the same order.
pub proof fn lemma_resolution_unique(g: Seq<(String, ColorschemeIntermediate)>, o1: Seq<int>, o2: Seq<int>)
    requires
        names_distinct(g),
        is_resolution(g, o1),
        is_resolution(g, o2),
    ensures
        o1 == o2,
{
    lemma_greedy_not_longer(g, o1, o2);
    lemma_greedy_not_longer(g, o2, o1);
    lemma_greedy_prefix(g, o1, o2, o1.len() as int);
    assert(o1.take(o1.len() as int) =~= o1);
    assert(o2.take(o2.len() as int) =~= o2);
}

/// `r1` and `r2` are the same outcome: orders with the same names, or the
/// same error naming the same colorschemes.
pub open spec fn same_outcome(r1: Result<Vec<String>, ConfigError>, r2: Result<Vec<String>, ConfigError>) -> bool {
    match (r1, r2) {
        (Ok(a), Ok(b)) => a@.map_values(|s: String| s@) == b@.map_values(|s: String| s@),
        (Err(ConfigError::UnknownColorscheme(a)), Err(ConfigError::UnknownColorscheme(b))) => a@ == b@,
        (
            Err(ConfigError::CyclicDependency { dependent: a1, dependency: a2 }),
            Err(ConfigError::CyclicDependency { dependent: b1, dependency: b2 }),
        ) => a1@ == b1@ && a2@ == b2@,
        _ => false,
    }
}

/// Two greedy orders after which nothing is ready are the same.
proof fn lemma_stuck_unique(g: Seq<(String, ColorschemeIntermediate)>, o1: Seq<int>, o2: Seq<int>)
    requires
        names_distinct(g),
        is_stuck(g, o1),
        is_stuck(g, o2),
    ensures
        o1 == o2,
{
    if o1.len() < o2.len() {
        lemma_greedy_prefix(g, o1, o2, o1.len() as int);
        assert(o1.take(o1.len() as int) =~= o1);
        assert(is_ready(g, o2.take(o1.len() as int), o2[o1.len() as int]));
    } else if o2.len() < o1.len() {
        lemma_greedy_prefix(g, o1, o2, o2.len() as int);
        assert(o2.take(o2.len() as int) =~= o2);
        assert(is_ready(g, o1.take(o2.len() as int), o1[o2.len() as int]));
    } else {
        lemma_greedy_prefix(g, o1, o2, o1.len() as int);
        assert(o1.take(o1.len() as int) =~= o1);
        assert(o2.take(o2.len() as int) =~= o2);
    }
}

/// With distinct names, two colorschemes neither of whose names comes before
/// the other's are the same.
proof fn lemma_same_least(g: Seq<(String, ColorschemeIntermediate)>, i: int, j: int)
    requires
        names_distinct(g),
        0 <= i < g.len(),
        0 <= j < g.len(),
        !name_less(g[i].0@, g[j].0@),
        !name_less(g[j].0@, g[i].0@),
    ensures
        i == j,
{
    if i != j {
        if i < j {
            assert(g[i].0@ != g[j].0@);
        } else {
            assert(g[j].0@ != g[i].0@);
        }
        lemma_name_less_total(g[i].0@, g[j].0@);
    }
}

/// Resolving the same colorschemes twice gives the same outcome: two results
/// that both meet the contract of `compilation_strategy` are orders with the
/// same names, or the same error naming the same colorschemes.
pub proof fn lemma_strategy_deterministic(g: Seq<(String, ColorschemeIntermediate)>, r1: Result<Vec<String>, ConfigError>, r2: Result<Vec<String>, ConfigError>)
    requires
        names_distinct(g),
        strategy_result(g, r1),
        strategy_result(g, r2),
    ensures
        same_outcome(r1, r2),
{
    if r1 is Ok || r2 is Ok {
        assert(is_resolution(g, resolution(g)));
        lemma_resolution_topological(g, resolution(g));
    } else if r1 matches Err(ConfigError::UnknownColorscheme(_)) || r2 matches Err(ConfigError::UnknownColorscheme(_)) {
        let (a, b) = (r1->Err_0->UnknownColorscheme_0, r2->Err_0->UnknownColorscheme_0);
        let (i1, d1) = choose|i: int, d: int| least_with_unknown(g, i) && #[trigger] first_unknown(g, i, d) && deps(g, i)[d]@ == a@;
        let (i2, d2) = choose|i: int, d: int| least_with_unknown(g, i) && #[trigger] first_unknown(g, i, d) && deps(g, i)[d]@ == b@;
        lemma_same_least(g, i1, i2);
        if d1 < d2 {
            assert(is_defined(g, deps(g, i1)[d1]@));
        } else if d2 < d1 {
            assert(is_defined(g, deps(g, i1)[d2]@));
        }
    } else {
        let (a1, a2) = (r1->Err_0->dependent, r1->Err_0->dependency);
        let (b1, b2) = (r2->Err_0->dependent, r2->Err_0->dependency);
        let (o1, i1, d1) = choose|o: Seq<int>, i: int, d: int| is_stuck(g, o) && least_pending(g, o, i) && #[trigger] first_unfinished(g, o, i, d)
            && g[i].0@ == a1@ && deps(g, i)[d]@ == a2@;
        let (o2, i2, d2) = choose|o: Seq<int>, i: int, d: int| is_stuck(g, o) && least_pending(g, o, i) && #[trigger] first_unfinished(g, o, i, d)
            && g[i].0@ == b1@ && deps(g, i)[d]@ == b2@;
        lemma_stuck_unique(g, o1, o2);
        lemma_same_least(g, i1, i2);
        if d1 < d2 {
            assert(is_done(g, o1, deps(g, i1)[d1]@));
        } else if d2 < d1 {
            assert(is_done(g, o1, deps(g, i1)[d2]@));
        }
    }
}

/// The resolution order places every inherited colorscheme strictly before
/// each colorscheme that inherits it, and lists every colorscheme once.
pub proof fn lemma_resolution_topological(g: Seq<(String, ColorschemeIntermediate)>, o: Seq<int>)
    requires
        is_resolution(g, o),
    ensures
        is_topological(g, o),
{
    assert forall|p: int, q: int| 0 <= p < q < o.len() implies o[p] != o[q] by {
        assert(is_ready(g, o.take(q), o[q]));
        assert(o.take(q)[p] == o[p]);
    }
    assert forall|k: int| 0 <= k < o.len() implies 0 <= #[trigger] o[k] < g.len() by {
        assert(is_ready(g, o.take(k), o[k]));
    }
    assert forall|q: int, d: int| 0 <= q < o.len() && 0 <= d < deps(g, o[q]).len()
        implies appears_before(g, o, q, #[trigger] deps(g, o[q])[d]@) by {
        assert(is_ready(g, o.take(q), o[q]));
        assert(is_done(g, o.take(q), deps(g, o[q])[d]@));
        let k = choose|k: int| 0 <= k < o.take(q).len() && g[o.take(q)[k]].0@ == deps(g, o[q])[d]@;
        assert(o.take(q)[k] == o[k]);
        assert(0 <= k < q && g[o[k]].0@ == deps(g, o[q])[d]@);
    }
    assert(o.no_duplicates());
    assert(covers(g, o));
}

/// With distinct names, two positions of a topological order that list
/// colorschemes of the same name are the same position.
proof fn lemma_position_of_name(g: Seq<(String, ColorschemeIntermediate)>, t: Seq<int>, q: int, p: int)
    requires
        names_distinct(g),
        is_topological(g, t),
        0 <= p < t.len(),
        0 <= q < t.len(),
        g[t[p]].0@ == g[t[q]].0@,
    ensures
        p == q,
{
    assert(0 <= t[p] < g.len());
    assert(0 <= t[q] < g.len());
    if t[p] != t[q] {
        if t[p] < t[q] {
            assert(g[t[p]].0@ != g[t[q]].0@);
        } else {
            assert(g[t[q]].0@ != g[t[p]].0@);
        }
    }
}

/// Two colorschemes that inherit each other, or one that inherits itself,
/// leave no valid order: resolving them fails.
pub proof fn lemma_mutual_inheritance_fails(g: Seq<(String, ColorschemeIntermediate)>, i: int, j: int, di: int, dj: int, r: Result<Vec<String>, ConfigError>)
    requires
        names_distinct(g),
        inherits_name(g, i, di, g[j].0@),
        inherits_name(g, j, dj, g[i].0@),
        0 <= j < g.len(),
        strategy_result(g, r),
    ensures
        !has_topological_order(g),
        r is Err,
{
    if has_topological_order(g) {
        let t = choose|t: Seq<int>| is_topological(g, t);
        assert(t.contains(i));
        assert(t.contains(j));
        let qi = choose|q: int| 0 <= q < t.len() && t[q] == i;
        let qj = choose|q: int| 0 <= q < t.len() && t[q] == j;
        assert(appears_before(g, t, qi, deps(g, t[qi])[di]@));
        let pj = choose|p: int| 0 <= p < qi && g[t[p]].0@ == deps(g, t[qi])[di]@;
        lemma_position_of_name(g, t, qj, pj);
        assert(appears_before(g, t, qj, deps(g, t[qj])[dj]@));
        let pi = choose|p: int| 0 <= p < qj && g[t[p]].0@ == deps(g, t[qj])[dj]@;
        lemma_position_of_name(g, t, qi, pi);
    }
    if r is Ok {
        lemma_resolution_topological(g, resolution(g));
    }
}

/// Entry `i` of `g` and entry `j` of `h` have the same name and inherit
/// the same names in the same order.
pub open spec fn same_entry(g: Seq<(String, ColorschemeIntermediate)>, i: int, h: Seq<(String, ColorschemeIntermediate)>, j: int) -> bool {
    &&& g[i].0@ == h[j].0@
    &&& deps(g, i).len() == deps(h, j).len()
    &&& forall|d: int| 0 <= d < deps(g, i).len() ==> #[trigger] deps(g, i)[d]@ == deps(h, j)[d]@
}

/// `h` lists the colorschemes of `g` in another order: entry `i` of `g` is
/// entry `p[i]` of `h`.
pub open spec fn is_reordering(g: Seq<(String, ColorschemeIntermediate)>, h: Seq<(String, ColorschemeIntermediate)>, p: Seq<int>) -> bool {
    &&& g.len() == h.len()
    &&& p.len() == g.len()
    &&& forall|i: int| 0 <= i < g.len() ==> 0 <= #[trigger] p[i] < g.len()
    &&& forall|i: int, j: int| 0 <= i < j < g.len() ==> p[i] != p[j]
    &&& forall|i: int| 0 <= i < g.len() ==> same_entry(g, i, h, #[trigger] p[i])
}

/// Every entry of a reordering comes from some entry of the original.
proof fn lemma_reordering_onto(g: Seq<(String, ColorschemeIntermediate)>, h: Seq<(String, ColorschemeIntermediate)>, p: Seq<int>, j: int)
    requires
        is_reordering(g, h, p),
        0 <= j < h.len(),
    ensures
        exists|i: int| 0 <= i < g.len() && p[i] == j,
{
    if !(exists|i: int| 0 <= i < g.len() && p[i] == j) {
        let q = p.push(j);
        assert forall|a: int, b: int| 0 <= a < q.len() && 0 <= b < q.len() && a != b implies q[a] != q[b] by {
            if a < b {
                if b < p.len() {
                    assert(p[a] != p[b]);
                }
            } else if a < p.len() {
                assert(p[b] != p[a]);
            }
        }
        assert(q.no_duplicates());
        lemma_distinct_indices_bound(q, g.len() as int);
    }
}

/// A list of indices of `g`, carried over to the reordering `h`.
pub open spec fn reorder(p: Seq<int>, o: Seq<int>) -> Seq<int> {
    o.map_values(|x: int| p[x])
}

proof fn lemma_reorder_ready(g: Seq<(String, ColorschemeIntermediate)>, h: Seq<(String, ColorschemeIntermediate)>, p: Seq<int>, q: Seq<int>, i: int)
    requires
        is_reordering(g, h, p),
        forall|k: int| 0 <= k < q.len() ==> 0 <= #[trigger] q[k] < g.len(),
        0 <= i < g.len(),
    ensures
        is_ready(h, reorder(p, q), p[i]) == is_ready(g, q, i),
{
    let qm = reorder(p, q);
    assert(same_entry(g, i, h, p[i]));
    if qm.contains(p[i]) {
        let k = choose|k: int| 0 <= k < qm.len() && qm[k] == p[i];
        if q[k] != i {
            if q[k] < i {
                assert(p[q[k]] != p[i]);
            } else {
                assert(p[i] != p[q[k]]);
            }
        }
    }
    if q.contains(i) {
        let k = choose|k: int| 0 <= k < q.len() && q[k] == i;
        assert(qm[k] == p[i]);
    }
    assert forall|n: Seq<char>| is_done(h, qm, n) == is_done(g, q, n) by {
        if is_done(h, qm, n) {
            let k = choose|k: int| 0 <= k < qm.len() && h[qm[k]].0@ == n;
            assert(same_entry(g, q[k], h, p[q[k]]));
        }
        if is_done(g, q, n) {
            let k = choose|k: int| 0 <= k < q.len() && g[q[k]].0@ == n;
            assert(same_entry(g, q[k], h, p[q[k]]));
            assert(h[qm[k]].0@ == n);
        }
    }
    if is_ready(g, q, i) {
        assert forall|d: int| 0 <= d < deps(h, p[i]).len() implies is_done(h, qm, #[trigger] deps(h, p[i])[d]@) by {
            assert(deps(g, i)[d]@ == deps(h, p[i])[d]@);
            assert(is_done(g, q, deps(g, i)[d]@));
        }
    }
    if is_ready(h, qm, p[i]) {
        assert forall|d: int| 0 <= d < deps(g, i).len() implies is_done(g, q, #[trigger] deps(g, i)[d]@) by {
            assert(deps(g, i)[d]@ == deps(h, p[i])[d]@);
            assert(is_done(h, qm, deps(h, p[i])[d]@));
        }
    }
}

/// Listing the same colorschemes in another order does not change the
/// resolution order: carried over to the new list, it is the resolution
/// order there, with the same names.
pub proof fn lemma_resolution_reordered(g: Seq<(String, ColorschemeIntermediate)>, h: Seq<(String, ColorschemeIntermediate)>, p: Seq<int>, o: Seq<int>)
    requires
        is_reordering(g, h, p),
        is_resolution(g, o),
    ensures
        is_resolution(h, reorder(p, o)),
        order_names(h, reorder(p, o)) == order_names(g, o),
{
    let om = reorder(p, o);
    lemma_greedy_reordered(g, h, p, o);
    assert forall|j: int| 0 <= j < h.len() implies om.contains(j) by {
        lemma_reordering_onto(g, h, p, j);
        let i = choose|i: int| 0 <= i < g.len() && p[i] == j;
        assert(o.contains(i));
        let k = choose|k: int| 0 <= k < o.len() && o[k] == i;
        assert(om[k] == j);
    }
    assert forall|k: int| 0 <= k < o.len() implies #[trigger] order_names(h, om)[k] == order_names(g, o)[k] by {
        assert(same_entry(g, o[k], h, p[o[k]]));
    }
    assert(order_names(h, om) =~= order_names(g, o));
}

/// A greedy order, carried over to a reordering, is greedy there.
proof fn lemma_greedy_reordered(g: Seq<(String, ColorschemeIntermediate)>, h: Seq<(String, ColorschemeIntermediate)>, p: Seq<int>, o: Seq<int>)
    requires
        is_reordering(g, h, p),
        is_greedy(g, o),
    ensures
        is_greedy(h, reorder(p, o)),
        forall|k: int| 0 <= k < o.len() ==> 0 <= #[trigger] o[k] < g.len(),
{
    let om = reorder(p, o);
    assert forall|k: int| 0 <= k < o.len() implies 0 <= #[trigger] o[k] < g.len() by {
        assert(is_ready(g, o.take(k), o[k]));
    }
    assert forall|k: int| 0 <= k < om.len() implies is_ready(h, om.take(k), #[trigger] om[k]) && is_least_ready(h, om.take(k), om[k]) by {
        let q = o.take(k);
        assert(om.take(k) =~= reorder(p, q));
        assert(is_ready(g, q, o[k]));
        lemma_reorder_ready(g, h, p, q, o[k]);
        assert forall|j: int| #[trigger] is_ready(h, om.take(k), j) implies !name_less(h[j].0@, h[om[k]].0@) by {
            lemma_reordering_onto(g, h, p, j);
            let i = choose|i: int| 0 <= i < g.len() && p[i] == j;
            lemma_reorder_ready(g, h, p, q, i);
            assert(same_entry(g, i, h, p[i]));
            assert(same_entry(g, o[k], h, p[o[k]]));
        }
    }
}

/// A reordering of colorschemes with distinct names has distinct names.
proof fn lemma_reordering_names_distinct(g: Seq<(String, ColorschemeIntermediate)>, h: Seq<(String, ColorschemeIntermediate)>, p: Seq<int>)
    requires
        names_distinct(g),
        is_reordering(g, h, p),
    ensures
        names_distinct(h),
{
    assert forall|a: int, b: int| 0 <= a < b < h.len() implies h[a].0@ != h[b].0@ by {
        lemma_reordering_onto(g, h, p, a);
        lemma_reordering_onto(g, h, p, b);
        let i = choose|i: int| 0 <= i < g.len() && p[i] == a;
        let j = choose|j: int| 0 <= j < g.len() && p[j] == b;
        assert(same_entry(g, i, h, p[i]));
        assert(same_entry(g, j, h, p[j]));
        if i < j {
            assert(g[i].0@ != g[j].0@);
        } else {
            assert(g[j].0@ != g[i].0@);
        }
    }
}

/// The positions in `g` of the entries of its reordering by `p`.
pub open spec fn inverse_of(p: Seq<int>) -> Seq<int> {
    Seq::new(p.len(), |j: int| choose|i: int| 0 <= i < p.len() && p[i] == j)
}

/// The original list is a reordering of any of its reorderings.
proof fn lemma_reordering_inverse(g: Seq<(String, ColorschemeIntermediate)>, h: Seq<(String, ColorschemeIntermediate)>, p: Seq<int>)
    requires
        is_reordering(g, h, p),
    ensures
        is_reordering(h, g, inverse_of(p)),
{
    let q = inverse_of(p);
    assert forall|j: int| 0 <= j < h.len() implies 0 <= #[trigger] q[j] < h.len() && p[q[j]] == j by {
        lemma_reordering_onto(g, h, p, j);
    }
    assert forall|a: int, b: int| 0 <= a < b < h.len() implies q[a] != q[b] by {
        assert(p[q[a]] == a);
        assert(p[q[b]] == b);
    }
    assert forall|j: int| 0 <= j < h.len() implies same_entry(h, j, g, #[trigger] q[j]) by {
        assert(p[q[j]] == j);
        assert(same_entry(g, q[j], h, p[q[j]]));
    }
}

proof fn lemma_strategy_reordered_ok(g: Seq<(String, ColorschemeIntermediate)>, h: Seq<(String, ColorschemeIntermediate)>, p: Seq<int>, r1: Result<Vec<String>, ConfigError>, r2: Result<Vec<String>, ConfigError>)
    requires
        names_distinct(g),
        is_reordering(g, h, p),
        strategy_result(g, r1),
        strategy_result(h, r2),
        r1 is Ok,
    ensures
        r2 is Ok,
        r2->Ok_0@.map_values(|s: String| s@) == r1->Ok_0@.map_values(|s: String| s@),
{
    let o = resolution(g);
    lemma_resolution_reordered(g, h, p, o);
    let om = reorder(p, o);
    lemma_resolution_topological(h, om);
    lemma_reordering_names_distinct(g, h, p);
    assert(all_defined(h)) by {
        assert forall|a: int, d: int| 0 <= a < h.len() && 0 <= d < deps(h, a).len() implies is_defined(h, #[trigger] deps(h, a)[d]@) by {
            lemma_reordering_onto(g, h, p, a);
            let i = choose|i: int| 0 <= i < g.len() && p[i] == a;
            assert(same_entry(g, i, h, p[i]));
            assert(deps(g, i)[d]@ == deps(h, a)[d]@);
            assert(is_defined(g, deps(g, i)[d]@));
            let m = choose|m: int| 0 <= m < g.len() && g[m].0@ == deps(g, i)[d]@;
            assert(same_entry(g, m, h, p[m]));
        }
    }
    assert(is_resolution(h, resolution(h)));
    lemma_resolution_unique(h, om, resolution(h));
}

proof fn lemma_reorder_done(g: Seq<(String, ColorschemeIntermediate)>, h: Seq<(String, ColorschemeIntermediate)>, p: Seq<int>, q: Seq<int>, n: Seq<char>)
    requires
        is_reordering(g, h, p),
        forall|k: int| 0 <= k < q.len() ==> 0 <= #[trigger] q[k] < g.len(),
    ensures
        is_done(h, reorder(p, q), n) == is_done(g, q, n),
{
    let qm = reorder(p, q);
    if is_done(h, qm, n) {
        let k = choose|k: int| 0 <= k < qm.len() && h[qm[k]].0@ == n;
        assert(same_entry(g, q[k], h, p[q[k]]));
    }
    if is_done(g, q, n) {
        let k = choose|k: int| 0 <= k < q.len() && g[q[k]].0@ == n;
        assert(same_entry(g, q[k], h, p[q[k]]));
        assert(h[qm[k]].0@ == n);
    }
}

proof fn lemma_reorder_defined(g: Seq<(String, ColorschemeIntermediate)>, h: Seq<(String, ColorschemeIntermediate)>, p: Seq<int>, n: Seq<char>)
    requires
        is_reordering(g, h, p),
    ensures
        is_defined(h, n) == is_defined(g, n),
{
    if is_defined(h, n) {
        let a = choose|a: int| 0 <= a < h.len() && h[a].0@ == n;
        lemma_reordering_onto(g, h, p, a);
        let i = choose|i: int| 0 <= i < g.len() && p[i] == a;
        assert(same_entry(g, i, h, p[i]));
    }
    if is_defined(g, n) {
        let i = choose|i: int| 0 <= i < g.len() && g[i].0@ == n;
        assert(same_entry(g, i, h, p[i]));
    }
}

proof fn lemma_reorder_has_unknown(g: Seq<(String, ColorschemeIntermediate)>, h: Seq<(String, ColorschemeIntermediate)>, p: Seq<int>, i: int)
    requires
        is_reordering(g, h, p),
        0 <= i < g.len(),
    ensures
        has_unknown(h, p[i]) == has_unknown(g, i),
        forall|d: int| first_unknown(g, i, d) ==> first_unknown(h, p[i], d),
{
    assert(same_entry(g, i, h, p[i]));
    if has_unknown(g, i) {
        let d = choose|d: int| 0 <= d < deps(g, i).len() && !is_defined(g, #[trigger] deps(g, i)[d]@);
        lemma_reorder_defined(g, h, p, deps(g, i)[d]@);
        assert(deps(g, i)[d]@ == deps(h, p[i])[d]@);
    }
    if has_unknown(h, p[i]) {
        let d = choose|d: int| 0 <= d < deps(h, p[i]).len() && !is_defined(h, #[trigger] deps(h, p[i])[d]@);
        lemma_reorder_defined(g, h, p, deps(h, p[i])[d]@);
        assert(deps(g, i)[d]@ == deps(h, p[i])[d]@);
    }
    assert forall|d: int| first_unknown(g, i, d) implies first_unknown(h, p[i], d) by {
        lemma_reorder_defined(g, h, p, deps(g, i)[d]@);
        assert(deps(g, i)[d]@ == deps(h, p[i])[d]@);
        assert forall|e: int| 0 <= e < d implies is_defined(h, #[trigger] deps(h, p[i])[e]@) by {
            assert(deps(g, i)[e]@ == deps(h, p[i])[e]@);
            assert(is_defined(g, deps(g, i)[e]@));
            lemma_reorder_defined(g, h, p, deps(g, i)[e]@);
        }
    }
}

proof fn lemma_strategy_reordered_err(g: Seq<(String, ColorschemeIntermediate)>, h: Seq<(String, ColorschemeIntermediate)>, p: Seq<int>, r1: Result<Vec<String>, ConfigError>, r2: Result<Vec<String>, ConfigError>)
    requires
        names_distinct(g),
        is_reordering(g, h, p),
        strategy_result(g, r1),
        strategy_result(h, r2),
        r1 is Err,
        r2 is Err,
    ensures
        same_outcome(r1, r2),
{
    lemma_reordering_names_distinct(g, h, p);
    if r1 matches Err(ConfigError::UnknownColorscheme(_)) {
        let a = r1->Err_0->UnknownColorscheme_0;
        let (i, d) = choose|i: int, d: int| least_with_unknown(g, i) && #[trigger] first_unknown(g, i, d) && deps(g, i)[d]@ == a@;
        lemma_reorder_has_unknown(g, h, p, i);
        assert(same_entry(g, i, h, p[i]));
        assert(deps(g, i)[d]@ == deps(h, p[i])[d]@);
        assert forall|j2: int| 0 <= j2 < h.len() && #[trigger] has_unknown(h, j2) implies !name_less(h[j2].0@, h[p[i]].0@) by {
            lemma_reordering_onto(g, h, p, j2);
            let j = choose|j: int| 0 <= j < g.len() && p[j] == j2;
            lemma_reorder_has_unknown(g, h, p, j);
            assert(same_entry(g, j, h, p[j]));
        }
        assert(least_with_unknown(h, p[i]));
        assert(first_unknown(h, p[i], d));
        assert(!all_defined(h)) by {
            assert(!is_defined(h, deps(h, p[i])[d]@));
        }
        let r = Err::<Vec<String>, ConfigError>(ConfigError::UnknownColorscheme(a));
        assert(strategy_result(h, r));
        lemma_strategy_deterministic(h, r, r2);
    } else {
        let (a1, a2) = (r1->Err_0->dependent, r1->Err_0->dependency);
        let (o, i, d) = choose|o: Seq<int>, i: int, d: int| is_stuck(g, o) && least_pending(g, o, i) && #[trigger] first_unfinished(g, o, i, d)
            && g[i].0@ == a1@ && deps(g, i)[d]@ == a2@;
        let om = reorder(p, o);
        lemma_greedy_reordered(g, h, p, o);
        assert forall|j2: int| 0 <= j2 < h.len() implies !is_ready(h, om, j2) by {
            lemma_reordering_onto(g, h, p, j2);
            let j = choose|j: int| 0 <= j < g.len() && p[j] == j2;
            lemma_reorder_ready(g, h, p, o, j);
        }
        assert(is_stuck(h, om));
        assert forall|j: int| 0 <= j < g.len() implies om.contains(#[trigger] p[j]) == o.contains(j) by {
            if om.contains(p[j]) {
                let k = choose|k: int| 0 <= k < om.len() && om[k] == p[j];
                if o[k] != j {
                    if o[k] < j {
                        assert(p[o[k]] != p[j]);
                    } else {
                        assert(p[j] != p[o[k]]);
                    }
                }
            }
            if o.contains(j) {
                let k = choose|k: int| 0 <= k < o.len() && o[k] == j;
                assert(om[k] == p[j]);
            }
        }
        assert(same_entry(g, i, h, p[i]));
        assert forall|j2: int| 0 <= j2 < h.len() && !om.contains(j2) implies !name_less(h[j2].0@, h[p[i]].0@) by {
            lemma_reordering_onto(g, h, p, j2);
            let j = choose|j: int| 0 <= j < g.len() && p[j] == j2;
            assert(same_entry(g, j, h, p[j]));
        }
        assert(least_pending(h, om, p[i]));
        lemma_reorder_done(g, h, p, o, deps(g, i)[d]@);
        assert(deps(g, i)[d]@ == deps(h, p[i])[d]@);
        assert forall|e: int| 0 <= e < d implies is_done(h, om, #[trigger] deps(h, p[i])[e]@) by {
            assert(deps(g, i)[e]@ == deps(h, p[i])[e]@);
            assert(is_done(g, o, deps(g, i)[e]@));
            lemma_reorder_done(g, h, p, o, deps(g, i)[e]@);
        }
        assert(first_unfinished(h, om, p[i], d));
        lemma_stuck_no_order(h, om, p[i]);
        assert(all_defined(h)) by {
            assert forall|a: int, e: int| 0 <= a < h.len() && 0 <= e < deps(h, a).len() implies is_defined(h, #[trigger] deps(h, a)[e]@) by {
                lemma_reordering_onto(g, h, p, a);
                let j = choose|j: int| 0 <= j < g.len() && p[j] == a;
                assert(same_entry(g, j, h, p[j]));
                assert(deps(g, j)[e]@ == deps(h, a)[e]@);
                lemma_reorder_defined(g, h, p, deps(g, j)[e]@);
            }
        }
        let r = Err::<Vec<String>, ConfigError>(ConfigError::CyclicDependency { dependent: a1, dependency: a2 });
        assert(cycle_reported(h, a1@, a2@));
        assert(strategy_result(h, r));
        lemma_strategy_deterministic(h, r, r2);
    }
}

/// Resolving the same colorschemes listed in another order gives the same
/// outcome: orders with the same names, or the same error naming the same
/// colorschemes.
pub proof fn lemma_strategy_reordered(g: Seq<(String, ColorschemeIntermediate)>, h: Seq<(String, ColorschemeIntermediate)>, p: Seq<int>, r1: Result<Vec<String>, ConfigError>, r2: Result<Vec<String>, ConfigError>)
    requires
        names_distinct(g),
        is_reordering(g, h, p),
        strategy_result(g, r1),
        strategy_result(h, r2),
    ensures
        same_outcome(r1, r2),
{
    if r1 is Ok {
        lemma_strategy_reordered_ok(g, h, p, r1, r2);
    } else if r2 is Ok {
        lemma_reordering_names_distinct(g, h, p);
        lemma_reordering_inverse(g, h, p);
        lemma_strategy_reordered_ok(h, g, inverse_of(p), r2, r1);
    } else {
        lemma_strategy_reordered_err(g, h, p, r1, r2);
    }
}

/// When nothing outside `o` is ready, every position of a topological
/// order before `k` lists a colorscheme of `o`.
proof fn lemma_stuck_prefix(g: Seq<(String, ColorschemeIntermediate)>, o: Seq<int>, t: Seq<int>, k: int)
    requires
        forall|j: int| 0 <= j < g.len() ==> !is_ready(g, o, j),
        is_topological(g, t),
        0 <= k <= t.len(),
    ensures
        forall|q: int| 0 <= q < k ==> o.contains(#[trigger] t[q]),
    decreases k,
{
    if k > 0 {
        lemma_stuck_prefix(g, o, t, k - 1);
        let x = t[k - 1];
        if !o.contains(x) {
            assert(0 <= x < g.len());
            assert(!is_ready(g, o, x));
            let d = choose|d: int| 0 <= d < deps(g, x).len() && !is_done(g, o, #[trigger] deps(g, x)[d]@);
            assert(appears_before(g, t, k - 1, deps(g, t[k - 1])[d]@));
            let p = choose|p: int| 0 <= p < k - 1 && g[t[p]].0@ == deps(g, t[k - 1])[d]@;
            assert(o.contains(t[p]));
            let kk = choose|kk: int| 0 <= kk < o.len() && o[kk] == t[p];
            assert(is_done(g, o, deps(g, x)[d]@));
        }
    }
}

/// When some colorscheme is outside `o` and none is ready, no topological
/// order exists.
proof fn lemma_stuck_no_order(g: Seq<(String, ColorschemeIntermediate)>, o: Seq<int>, i0: int)
    requires
        forall|j: int| 0 <= j < g.len() ==> !is_ready(g, o, j),
        0 <= i0 < g.len(),
        !o.contains(i0),
    ensures
        !has_topological_order(g),
{
    if has_topological_order(g) {
        let t = choose|t: Seq<int>| is_topological(g, t);
        lemma_stuck_prefix(g, o, t, t.len() as int);
        assert(t.contains(i0));
        let q = choose|q: int| 0 <= q < t.len() && t[q] == i0;
        assert(o.contains(t[q]));
    }
}

/// A list of distinct indices below `n` has at most `n` elements.
proof fn lemma_distinct_indices_bound(o: Seq<int>, n: int)
    requires
        o.no_duplicates(),
        0 <= n,
        forall|k: int| 0 <= k < o.len() ==> 0 <= #[trigger] o[k] < n,
    ensures
        o.len() <= n,
{
    o.unique_seq_to_set();
    lemma_int_range(0, n);
    assert(o.to_set().subset_of(set_int_range(0, n)));
    lemma_len_subset(o.to_set(), set_int_range(0, n));
}

/// Whether some colorscheme named in `order` (which names those of `o`) is `name`.
fn name_done(order: &Vec<String>, name: &String, Ghost(g): Ghost<Seq<(String, ColorschemeIntermediate)>>, Ghost(o): Ghost<Seq<int>>) -> (r: bool)
    requires
        order@.len() == o.len(),
        forall|k: int| 0 <= k < o.len() ==> (#[trigger] order@[k])@ == g[o[k]].0@,
    ensures
        r == is_done(g, o, name@),
{
    for k in 0..order.len()
        invariant
            order@.len() == o.len(),
            forall|k: int| 0 <= k < o.len() ==> (#[trigger] order@[k])@ == g[o[k]].0@,
            forall|j: int| 0 <= j < k ==> g[o[j]].0@ != name@,
    {
        if order[k] == *name {
            return true;
        }
    }
    false
}

/// Index in the inherit list of colorscheme `i` of a name not yet done.
fn first_missing_dep(g: &Vec<(String, ColorschemeIntermediate)>, order: &Vec<String>, i: usize, Ghost(o): Ghost<Seq<int>>) -> (r: Option<usize>)
    requires
        i < g@.len(),
        order@.len() == o.len(),
        forall|k: int| 0 <= k < o.len() ==> (#[trigger] order@[k])@ == g@[o[k]].0@,
    ensures
        match r {
            Some(d) => first_unfinished(g@, o, i as int, d as int),
            None => forall|d: int| 0 <= d < deps(g@, i as int).len() ==> is_done(g@, o, #[trigger] deps(g@, i as int)[d]@),
        },
{
    let inherit = &g[i].1.settings.inherit;
    for d in 0..inherit.len()
        invariant
            inherit@ == deps(g@, i as int),
            order@.len() == o.len(),
            forall|k: int| 0 <= k < o.len() ==> (#[trigger] order@[k])@ == g@[o[k]].0@,
            forall|e: int| 0 <= e < d ==> is_done(g@, o, #[trigger] deps(g@, i as int)[e]@),
    {
        if !name_done(order, &inherit[d], Ghost(g@), Ghost(o)) {
            return Some(d);
        }
    }
    None
}

/// The ready colorscheme, after the steps of `o`, whose name comes first.
fn first_ready(g: &Vec<(String, ColorschemeIntermediate)>, taken: &Vec<bool>, order: &Vec<String>, Ghost(o): Ghost<Seq<int>>) -> (r: Option<usize>)
    requires
        taken@.len() == g@.len(),
        forall|j: int| 0 <= j < g@.len() ==> taken@[j] == o.contains(j),
        order@.len() == o.len(),
        forall|k: int| 0 <= k < o.len() ==> (#[trigger] order@[k])@ == g@[o[k]].0@,
    ensures
        match r {
            Some(i) => is_ready(g@, o, i as int) && is_least_ready(g@, o, i as int),
            None => forall|j: int| 0 <= j < g@.len() ==> !is_ready(g@, o, j),
        },
{
    let mut best: Option<usize> = None;
    for i in 0..g.len()
        invariant
            taken@.len() == g@.len(),
            forall|j: int| 0 <= j < g@.len() ==> taken@[j] == o.contains(j),
            order@.len() == o.len(),
            forall|k: int| 0 <= k < o.len() ==> (#[trigger] order@[k])@ == g@[o[k]].0@,
            match best {
                Some(b) => b < i && is_ready(g@, o, b as int)
                    && forall|j: int| 0 <= j < i && #[trigger] is_ready(g@, o, j) ==> !name_less(g@[j].0@, g@[b as int].0@),
                None => forall|j: int| 0 <= j < i ==> !is_ready(g@, o, j),
            },
    {
        if !taken[i] && first_missing_dep(g, order, i, Ghost(o)).is_none() {
            proof {
                lemma_name_less_irreflexive(g@[i as int].0@);
            }
            match best {
                None => {
                    best = Some(i);
                },
                Some(b) => {
                    if name_lt(&g[i].0, &g[b].0) {
                        proof {
                            assert forall|j: int| 0 <= j < i + 1 && #[trigger] is_ready(g@, o, j) implies !name_less(g@[j].0@, g@[i as int].0@) by {
                                if j < i && name_less(g@[j].0@, g@[i as int].0@) {
                                    lemma_name_less_transitive(g@[j].0@, g@[i as int].0@, g@[b as int].0@);
                                }
                            }
                        }
                        best = Some(i);
                    }
                },
            }
        }
    }
    best
}

/// The first entry of the inherit list of colorscheme `i` that names no
/// colorscheme of `g`, if any.
fn first_unknown_dep(g: &Vec<(String, ColorschemeIntermediate)>, i: usize) -> (r: Option<usize>)
    requires
        i < g@.len(),
    ensures
        match r {
            Some(d) => first_unknown(g@, i as int, d as int),
            None => !has_unknown(g@, i as int),
        },
{
    let inherit = &g[i].1.settings.inherit;
    for d in 0..inherit.len()
        invariant
            i < g@.len(),
            inherit@ == deps(g@, i as int),
            forall|e: int| 0 <= e < d ==> is_defined(g@, #[trigger] deps(g@, i as int)[e]@),
    {
        if !defined(g, &inherit[d]) {
            return Some(d);
        }
    }
    None
}

/// Whether some colorscheme of `g` is named `name`.
fn defined(g: &Vec<(String, ColorschemeIntermediate)>, name: &String) -> (r: bool)
    ensures
        r == is_defined(g@, name@),
{
    for i in 0..g.len()
        invariant
            forall|j: int| 0 <= j < i ==> g@[j].0@ != name@,
    {
        if g[i].0 == *name {
            return true;
        }
    }
    false
}

/// Orders the colorschemes so that each comes after every colorscheme it
/// inherits from.
///
/// The order is built by repeatedly taking, of the colorschemes whose
/// inherited colorschemes have all been taken, the one whose name comes
/// first, so it does not depend on the order of `colorschemes`.
/// Fails with `UnknownColorscheme` when an inherit list names a missing
/// colorscheme: the first such name of the colorscheme, among those with one,
/// whose name comes first. Otherwise fails with `CyclicDependency` exactly
/// when no such order exists: once no colorscheme is ready, it names the
/// left-out colorscheme whose name comes first and the first name of its
/// inherit list that is left out too.
pub fn compilation_strategy(colorschemes: &Vec<(String, ColorschemeIntermediate)>) -> (r: Result<Vec<String>, ConfigError>)
    requires
        names_distinct(colorschemes@),
    ensures
        strategy_result(colorschemes@, r),
{
    let n = colorschemes.len();
    let mut worst: Option<(usize, usize)> = None;
    for i in 0..n
        invariant
            n == colorschemes@.len(),
            match worst {
                Some((b, d)) => b < i && first_unknown(colorschemes@, b as int, d as int)
                    && forall|j: int| 0 <= j < i && #[trigger] has_unknown(colorschemes@, j) ==> !name_less(colorschemes@[j].0@, colorschemes@[b as int].0@),
                None => forall|j: int| 0 <= j < i ==> !has_unknown(colorschemes@, j),
            },
    {
        if let Some(d) = first_unknown_dep(colorschemes, i) {
            proof {
                lemma_name_less_irreflexive(colorschemes@[i as int].0@);
                assert(has_unknown(colorschemes@, i as int));
            }
            match worst {
                None => {
                    worst = Some((i, d));
                },
                Some((b, _)) => {
                    if name_lt(&colorschemes[i].0, &colorschemes[b].0) {
                        proof {
                            assert forall|j: int| 0 <= j < i + 1 && #[trigger] has_unknown(colorschemes@, j)
                                implies !name_less(colorschemes@[j].0@, colorschemes@[i as int].0@) by {
                                if j < i && name_less(colorschemes@[j].0@, colorschemes@[i as int].0@) {
                                    lemma_name_less_transitive(colorschemes@[j].0@, colorschemes@[i as int].0@, colorschemes@[b as int].0@);
                                }
                            }
                        }
                        worst = Some((i, d));
                    }
                },
            }
        }
    }
    if let Some((b, d)) = worst {
        let name = colorschemes[b].1.settings.inherit[d].clone();
        proof {
            assert(least_with_unknown(colorschemes@, b as int));
            assert(first_unknown(colorschemes@, b as int, d as int));
            assert(!all_defined(colorschemes@));
        }
        return Err(ConfigError::UnknownColorscheme(name));
    }
    assert(all_defined(colorschemes@)) by {
        assert forall|ii: int, d: int| 0 <= ii < n && 0 <= d < deps(colorschemes@, ii).len()
            implies is_defined(colorschemes@, #[trigger] deps(colorschemes@, ii)[d]@) by {
            assert(!has_unknown(colorschemes@, ii));
        }
    }
    let mut taken: Vec<bool> = Vec::new();
    for i in 0..n
        invariant
            taken@.len() == i,
            forall|j: int| 0 <= j < i ==> !taken@[j],
    {
        taken.push(false);
    }
    let mut order: Vec<String> = Vec::new();
    let ghost mut o: Seq<int> = Seq::empty();
    loop
        invariant
            n == colorschemes@.len(),
            names_distinct(colorschemes@),
            all_defined(colorschemes@),
            is_greedy(colorschemes@, o),
            o.no_duplicates(),
            forall|k: int| 0 <= k < o.len() ==> 0 <= #[trigger] o[k] < n,
            o.len() <= n,
            taken@.len() == n,
            forall|j: int| 0 <= j < n ==> taken@[j] == o.contains(j),
            order@.len() == o.len(),
            forall|k: int| 0 <= k < o.len() ==> (#[trigger] order@[k])@ == colorschemes@[o[k]].0@,
        decreases n - o.len(),
    {
        match first_ready(colorschemes, &taken, &order, Ghost(o)) {
            Some(i) => {
                let ghost prev = o;
                let ghost prev_order = order@;
                taken.set(i, true);
                order.push(colorschemes[i].0.clone());
                proof {
                    o = o.push(i as int);
                    assert forall|k: int| 0 <= k < o.len() implies is_ready(colorschemes@, o.take(k), #[trigger] o[k])
                        && is_least_ready(colorschemes@, o.take(k), o[k]) by {
                        if k < prev.len() {
                            assert(o.take(k) =~= prev.take(k));
                        } else {
                            assert(o.take(k) =~= prev);
                        }
                    }
                    assert forall|p: int, q: int| 0 <= p < q < o.len() implies o[p] != o[q] by {
                        if q == prev.len() {
                            assert(prev.contains(prev[p]));
                        }
                    }
                    lemma_distinct_indices_bound(o, n as int);
                    assert forall|j: int| 0 <= j < n implies taken@[j] == o.contains(j) by {
                        if j == i as int {
                            assert(o[prev.len() as int] == j);
                        } else {
                            if prev.contains(j) {
                                let k = choose|k: int| 0 <= k < prev.len() && prev[k] == j;
                                assert(o[k] == j);
                            }
                            if o.contains(j) {
                                let k = choose|k: int| 0 <= k < o.len() && o[k] == j;
                                assert(prev[k] == j);
                            }
                        }
                    }
                    assert forall|k: int| 0 <= k < o.len() implies (#[trigger] order@[k])@ == colorschemes@[o[k]].0@ by {
                        if k < prev.len() {
                            assert(order@[k] == prev_order[k]);
                        }
                    }
                }
            },
            None => {
                let mut least: Option<usize> = None;
                for i in 0..n
                    invariant
                        n == colorschemes@.len(),
                        taken@.len() == n,
                        forall|j: int| 0 <= j < n ==> taken@[j] == o.contains(j),
                        match least {
                            Some(b) => b < i && !o.contains(b as int)
                                && forall|j: int| 0 <= j < i && !o.contains(j) ==> !name_less(colorschemes@[j].0@, colorschemes@[b as int].0@),
                            None => forall|j: int| 0 <= j < i ==> o.contains(j),
                        },
                {
                    if !taken[i] {
                        proof {
                            lemma_name_less_irreflexive(colorschemes@[i as int].0@);
                        }
                        match least {
                            None => {
                                least = Some(i);
                            },
                            Some(b) => {
                                if name_lt(&colorschemes[i].0, &colorschemes[b].0) {
                                    proof {
                                        assert forall|j: int| 0 <= j < i + 1 && !o.contains(j)
                                            implies !name_less(colorschemes@[j].0@, colorschemes@[i as int].0@) by {
                                            if j < i && name_less(colorschemes@[j].0@, colorschemes@[i as int].0@) {
                                                lemma_name_less_transitive(colorschemes@[j].0@, colorschemes@[i as int].0@, colorschemes@[b as int].0@);
                                            }
                                        }
                                    }
                                    least = Some(i);
                                }
                            },
                        }
                    }
                }
                let i0: usize = match least {
                    Some(b) => b,
                    None => n,
                };
                if i0 == n {
                    proof {
                        assert(covers(colorschemes@, o));
                        assert(is_resolution(colorschemes@, o));
                        assert(is_resolution(colorschemes@, resolution(colorschemes@)));
                        lemma_resolution_unique(colorschemes@, o, resolution(colorschemes@));
                        assert(order@.map_values(|s: String| s@) =~= order_names(colorschemes@, o));
                    }
                    return Ok(order);
                }
                let d = match first_missing_dep(colorschemes, &order, i0, Ghost(o)) {
                    Some(d) => d,
                    None => {
                        assert(is_ready(colorschemes@, o, i0 as int));
                        unreached()
                    },
                };
                proof {
                    lemma_stuck_no_order(colorschemes@, o, i0 as int);
                }
                let dependent = colorschemes[i0].0.clone();
                let dependency = colorschemes[i0].1.settings.inherit[d].clone();
                assert(is_stuck(colorschemes@, o));
                assert(least_pending(colorschemes@, o, i0 as int));
                assert(first_unfinished(colorschemes@, o, i0 as int, d as int));
                assert(cycle_reported(colorschemes@, dependent@, dependency@));
                return Err(ConfigError::CyclicDependency { dependent, dependency });
            },
        }
    }
}

} // verus!
