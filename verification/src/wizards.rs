//! The conflict wizard's groups of colliding keybinds.
use crate::export::{object_views, text_or_empty};
use crate::keybind_object::{KeybindDataView, KeybindObject};
use crate::keybinds::{normalize, normalized_key, normalized_mods};
use crate::text::{chars_of, eq_chars};
use vstd::prelude::*;

verus! {

broadcast use vstd::string::group_string_axioms;

// ---------------------------------------------------------------------------
// Groups of colliding keybinds
// ---------------------------------------------------------------------------

/// What colliding keybinds share: canonical modifiers, canonical key and
/// submap.
pub open spec fn group_key(d: KeybindDataView) -> (Seq<char>, Seq<char>, Seq<char>) {
    (normalized_mods(d.clean_mods), normalized_key(d.key), text_or_empty(d.submap))
}

/// Keybind `j` is a marked conflict with the combination of keybind `i`.
pub open spec fn in_group_of(ds: Seq<KeybindDataView>, j: int, i: int) -> bool {
    ds[j].is_conflicted && group_key(ds[j]) == group_key(ds[i])
}

/// The keybinds among the first `n` in keybind `i`'s group, in order.
pub open spec fn group_members(ds: Seq<KeybindDataView>, i: int, n: int) -> Seq<usize>
    decreases n,
{
    if n <= 0 {
        seq![]
    } else {
        group_members(ds, i, n - 1) + (if in_group_of(ds, n - 1, i) {
            seq![(n - 1) as usize]
        } else {
            seq![]
        })
    }
}

/// The members of keybind `i`'s group among the first `n` are positions
/// below `n` of marked conflicts with its combination.
proof fn lemma_group_members(ds: Seq<KeybindDataView>, i: int, n: int)
    requires
        n <= usize::MAX,
    ensures
        forall|a: int|
            0 <= a < group_members(ds, i, n).len() ==> {
                let x = #[trigger] group_members(ds, i, n)[a];
                &&& 0 <= x < n
                &&& in_group_of(ds, x as int, i)
            },
    decreases n,
{
    if n > 0 {
        lemma_group_members(ds, i, n - 1);
        let prev = group_members(ds, i, n - 1);
        if in_group_of(ds, n - 1, i) {
            assert(group_members(ds, i, n) =~= prev.push((n - 1) as usize));
            assert(((n - 1) as usize) as int == n - 1);
            assert forall|a: int| 0 <= a < group_members(ds, i, n).len() implies {
                let x = #[trigger] group_members(ds, i, n)[a];
                &&& 0 <= x < n
                &&& in_group_of(ds, x as int, i)
            } by {
                if a < prev.len() {
                    assert(group_members(ds, i, n)[a] == prev[a]);
                }
            }
        } else {
            assert(group_members(ds, i, n) =~= prev);
        }
    }
}

/// Keybind `i` is the first of a group of at least two marked conflicts.
pub open spec fn leads_group(ds: Seq<KeybindDataView>, i: int) -> bool {
    &&& 0 <= i < ds.len()
    &&& ds[i].is_conflicted
    &&& forall|j: int| 0 <= j < i ==> !in_group_of(ds, j, i)
    &&& group_members(ds, i, ds.len() as int).len() > 1
}

/// The place of a group: by the line of its first keybind, then by that
/// keybind's position.
pub open spec fn group_rank(ds: Seq<KeybindDataView>, i: int) -> int {
    ds[i].line_number * (ds.len() + 1) + i
}

/// `leads` lists the first keybinds of the groups, each once, in the groups'
/// order.
pub open spec fn are_group_leads(ds: Seq<KeybindDataView>, leads: Seq<usize>) -> bool {
    &&& rank_sorted(ds, leads)
    &&& forall|i: int| 0 <= i < ds.len() ==> (leads_group(ds, i) <==> leads.contains(i as usize))
    &&& forall|a: int| 0 <= a < leads.len() ==> (#[trigger] leads[a]) < ds.len()
}

/// The first keybinds of the groups, in the groups' order.
pub open spec fn group_leads(ds: Seq<KeybindDataView>) -> Seq<usize> {
    choose|leads: Seq<usize>| are_group_leads(ds, leads)
}

/// The conflict wizard's groups: the marked conflicts grouped by their
/// combination (groups of one left out), ordered by the line of each
/// group's first keybind (groups whose first keybinds share a line number
/// by position), each group as the positions of its keybinds in order.
pub open spec fn conflict_groups(ds: Seq<KeybindDataView>) -> Seq<Seq<usize>> {
    group_leads(ds).map_values(|i: usize| group_members(ds, i as int, ds.len() as int))
}

/// The positions are in strictly increasing group order.
pub open spec fn rank_sorted(ds: Seq<KeybindDataView>, s: Seq<usize>) -> bool {
    forall|a: int, b: int|
        0 <= a < b < s.len() ==> group_rank(ds, #[trigger] s[a] as int) < group_rank(ds, #[trigger] s[b] as int)
}

proof fn lemma_rank_unique(ds: Seq<KeybindDataView>, a: Seq<usize>, b: Seq<usize>)
    requires
        rank_sorted(ds, a),
        rank_sorted(ds, b),
        forall|x: usize| a.contains(x) <==> b.contains(x),
    ensures
        a == b,
    decreases a.len(),
{
    if a.len() == 0 {
        if b.len() > 0 {
            assert(b.contains(b[0]));
        }
        assert(a =~= b);
    } else {
        assert(a.contains(a[0]));
        let j = choose|j: int| 0 <= j < b.len() && b[j] == a[0];
        assert(b.contains(b[0]));
        let k = choose|k: int| 0 <= k < a.len() && a[k] == b[0];
        if j > 0 {
            assert(group_rank(ds, b[0] as int) < group_rank(ds, b[j] as int));
            if k > 0 {
                assert(group_rank(ds, a[0] as int) < group_rank(ds, a[k] as int));
            }
        }
        assert(a[0] == b[0]);
        let ta = a.drop_first();
        let tb = b.drop_first();
        assert forall|x: usize| ta.contains(x) <==> tb.contains(x) by {
            if ta.contains(x) {
                let p = choose|p: int| 0 <= p < ta.len() && ta[p] == x;
                assert(a[p + 1] == x);
                assert(group_rank(ds, a[0] as int) < group_rank(ds, a[p + 1] as int));
                assert(a.contains(x));
                let q = choose|q: int| 0 <= q < b.len() && b[q] == x;
                assert(q != 0);
                assert(tb[q - 1] == x);
            }
            if tb.contains(x) {
                let p = choose|p: int| 0 <= p < tb.len() && tb[p] == x;
                assert(b[p + 1] == x);
                assert(group_rank(ds, b[0] as int) < group_rank(ds, b[p + 1] as int));
                assert(b.contains(x));
                let q = choose|q: int| 0 <= q < a.len() && a[q] == x;
                assert(q != 0);
                assert(ta[q - 1] == x);
            }
        }
        assert(rank_sorted(ds, ta)) by {
            assert forall|p: int, q: int| 0 <= p < q < ta.len() implies group_rank(ds, #[trigger] ta[p] as int)
                < group_rank(ds, #[trigger] ta[q] as int) by {
                assert(ta[p] == a[p + 1] && ta[q] == a[q + 1]);
            }
        }
        assert(rank_sorted(ds, tb)) by {
            assert forall|p: int, q: int| 0 <= p < q < tb.len() implies group_rank(ds, #[trigger] tb[p] as int)
                < group_rank(ds, #[trigger] tb[q] as int) by {
                assert(tb[p] == b[p + 1] && tb[q] == b[q + 1]);
            }
        }
        lemma_rank_unique(ds, ta, tb);
        assert(a =~= b) by {
            assert forall|p: int| 0 <= p < a.len() implies a[p] == b[p] by {
                if p > 0 {
                    assert(a[p] == ta[p - 1] && b[p] == tb[p - 1]);
                }
            }
        }
    }
}

proof fn lemma_rank_order(l1: int, a: int, l2: int, b: int, n: int)
    requires
        0 <= a < n,
        0 <= b < n,
        0 <= l1,
        0 <= l2,
    ensures
        (l1 * (n + 1) + a < l2 * (n + 1) + b) <==> (l1 < l2 || (l1 == l2 && a < b)),
{
    if l1 < l2 {
        assert(l1 * (n + 1) + (n + 1) <= l2 * (n + 1)) by (nonlinear_arith)
            requires
                l1 < l2,
                n >= 0,
        ;
    } else if l1 > l2 {
        assert(l2 * (n + 1) + (n + 1) <= l1 * (n + 1)) by (nonlinear_arith)
            requires
                l2 < l1,
                n >= 0,
        ;
    }
}

/// The combination of a keybind as computed, taken as text.
spec fn key_view(k: (Vec<char>, Vec<char>, Vec<char>)) -> (Seq<char>, Seq<char>, Seq<char>) {
    (k.0@, k.1@, k.2@)
}

/// The first `t` computed combinations are those of the keybinds.
spec fn keys_match(ds: Seq<KeybindDataView>, ks: Seq<(Vec<char>, Vec<char>, Vec<char>)>, t: int) -> bool {
    forall|j: int| 0 <= j < t ==> key_view(#[trigger] ks[j]) == group_key(ds[j])
}

fn same_group(
    objects: &[KeybindObject],
    ks: &Vec<(Vec<char>, Vec<char>, Vec<char>)>,
    j: usize,
    i: usize,
    Ghost(ds): Ghost<Seq<KeybindDataView>>,
) -> (r: bool)
    requires
        i < objects@.len(),
        j < objects@.len(),
        ds == object_views(objects@),
        ks@.len() == objects@.len(),
        keys_match(ds, ks@, ks@.len() as int),
    ensures
        r == in_group_of(ds, j as int, i as int),
{
    assert(key_view(ks@[j as int]) == group_key(ds[j as int]));
    assert(key_view(ks@[i as int]) == group_key(ds[i as int]));
    assert(ds[j as int] == objects@[j as int].data@);
    let a = &ks[j];
    let b = &ks[i];
    let r = objects[j].data.is_conflicted && eq_chars(&a.0, &b.0) && eq_chars(&a.1, &b.1) && eq_chars(&a.2, &b.2);
    proof {
        if ds[j as int].is_conflicted && group_key(ds[j as int]) == group_key(ds[i as int]) {
            assert(a.0@ == b.0@ && a.1@ == b.1@ && a.2@ == b.2@);
        }
    }
    r
}

fn members_exec(
    objects: &[KeybindObject],
    ks: &Vec<(Vec<char>, Vec<char>, Vec<char>)>,
    i: usize,
    Ghost(ds): Ghost<Seq<KeybindDataView>>,
) -> (r: Vec<usize>)
    requires
        i < objects@.len(),
        ds == object_views(objects@),
        ks@.len() == objects@.len(),
        keys_match(ds, ks@, ks@.len() as int),
    ensures
        r@ == group_members(ds, i as int, ds.len() as int),
{
    let n = objects.len();
    let mut r: Vec<usize> = Vec::new();
    let mut j: usize = 0;
    while j < n
        invariant
            j <= n,
            i < n,
            n == objects@.len(),
            ds == object_views(objects@),
            ks@.len() == n,
            keys_match(ds, ks@, n as int),
            r@ == group_members(ds, i as int, j as int),
        decreases n - j,
    {
        let same = same_group(objects, ks, j, i, Ghost(ds));
        if same {
            let ghost before = r@;
            r.push(j);
            assert(r@ =~= before + seq![j]);
        } else {
            assert(r@ =~= r@ + Seq::<usize>::empty());
        }
        j = j + 1;
    }
    r
}

/// Whether keybind `i` is the first of its group among those before it.
fn opens_group(
    objects: &[KeybindObject],
    ks: &Vec<(Vec<char>, Vec<char>, Vec<char>)>,
    i: usize,
    Ghost(ds): Ghost<Seq<KeybindDataView>>,
) -> (r: bool)
    requires
        i < objects@.len(),
        ds == object_views(objects@),
        ks@.len() == objects@.len(),
        keys_match(ds, ks@, ks@.len() as int),
    ensures
        r == (ds[i as int].is_conflicted && forall|q: int| 0 <= q < i ==> !in_group_of(ds, q, i as int)),
{
    assert(ds[i as int] == objects@[i as int].data@);
    if !objects[i].data.is_conflicted {
        return false;
    }
    let mut j: usize = 0;
    while j < i
        invariant
            j <= i,
            i < objects@.len(),
            ds == object_views(objects@),
            ks@.len() == objects@.len(),
            keys_match(ds, ks@, ks@.len() as int),
            forall|q: int| 0 <= q < j ==> !in_group_of(ds, q, i as int),
        decreases i - j,
    {
        if same_group(objects, ks, j, i, Ghost(ds)) {
            return false;
        }
        j = j + 1;
    }
    true
}

/// The groups of colliding keybinds that the conflict wizard walks through,
/// as positions in `objects`.
pub fn get_conflict_groups(objects: &[KeybindObject]) -> (r: Vec<Vec<usize>>)
    ensures
        r@.map_values(|g: Vec<usize>| g@) == conflict_groups(object_views(objects@)),
        forall|g: int| 0 <= g < r@.len() ==> (#[trigger] r@[g])@.len() >= 2,
        forall|g: int, a: int|
            0 <= g < r@.len() && 0 <= a < r@[g]@.len() ==> {
                let x = (#[trigger] r@[g]@[a]) as int;
                let d = object_views(objects@);
                &&& 0 <= x < d.len()
                &&& d[x].is_conflicted
                &&& group_key(d[x]) == group_key(d[r@[g]@[0] as int])
            },
{
    let ghost ds = object_views(objects@);
    let n = objects.len();
    let mut ks: Vec<(Vec<char>, Vec<char>, Vec<char>)> = Vec::new();
    let mut t: usize = 0;
    while t < n
        invariant
            t <= n,
            n == objects@.len(),
            ds == object_views(objects@),
            ks@.len() == t,
            keys_match(ds, ks@, t as int),
        decreases n - t,
    {
        let d = &objects[t].data;
        assert(ds[t as int] == d@);
        let (m, k) = normalize(d.clean_mods.as_str(), d.key.as_str());
        let sb = match &d.submap {
            Some(x) => chars_of(x.as_str()),
            None => Vec::new(),
        };
        let entry = (chars_of(m.as_str()), chars_of(k.as_str()), sb);
        assert(key_view(entry) == group_key(ds[t as int]));
        let ghost before = ks@;
        ks.push(entry);
        assert forall|j: int| 0 <= j < t + 1 implies key_view(#[trigger] ks@[j]) == group_key(ds[j]) by {
            if j < t {
                assert(ks@[j] == before[j]);
            }
        }
        t = t + 1;
    }
    let mut leads: Vec<usize> = Vec::new();
    let mut i: usize = 0;
    while i < n
        invariant
            i <= n,
            n == objects@.len(),
            ds == object_views(objects@),
            ks@.len() == n,
            keys_match(ds, ks@, n as int),
            rank_sorted(ds, leads@),
            forall|a: int| 0 <= a < leads@.len() ==> (#[trigger] leads@[a]) < i,
            forall|x: usize| leads@.contains(x) <==> (x < i && leads_group(ds, x as int)),
        decreases n - i,
    {
        let members = members_exec(objects, &ks, i, Ghost(ds));
        let first = opens_group(objects, &ks, i, Ghost(ds));
        let is_lead = first && members.len() > 1;
        assert(is_lead == leads_group(ds, i as int));
        if is_lead {
            assert(ds[i as int] == objects@[i as int].data@);
            let li = objects[i].data.line_number;
            let mut p: usize = 0;
            while p < leads.len() && objects[leads[p]].data.line_number <= li
                invariant
                    p <= leads@.len(),
                    i < n,
                    n == objects@.len(),
                    ds == object_views(objects@),
                    li == ds[i as int].line_number,
                    forall|a: int| 0 <= a < leads@.len() ==> (#[trigger] leads@[a]) < i,
                    forall|a: int| 0 <= a < p ==> ds[(#[trigger] leads@[a]) as int].line_number <= li,
                decreases leads@.len() - p,
            {
                assert(leads@[p as int] < i);
                assert(ds[leads@[p as int] as int] == objects@[leads@[p as int] as int].data@);
                p = p + 1;
            }
            let ghost before = leads@;
            proof {
                if p < before.len() {
                    assert(before[p as int] < i);
                    assert(ds[before[p as int] as int] == objects@[before[p as int] as int].data@);
                }
            }
            leads.insert(p, i);
            proof {
                let after = leads@;
                assert(after =~= before.insert(p as int, i));
                assert forall|a: int, b: int| 0 <= a < b < after.len() implies group_rank(ds, #[trigger] after[a] as int)
                    < group_rank(ds, #[trigger] after[b] as int) by {
                    if b < p {
                        assert(after[a] == before[a] && after[b] == before[b]);
                    } else if b == p {
                        assert(after[a] == before[a]);
                        assert(before[a] < i);
                        lemma_rank_order(ds[before[a] as int].line_number, before[a] as int, ds[i as int].line_number, i as int, ds.len() as int);
                    } else if a < p {
                        assert(after[a] == before[a] && after[b] == before[b - 1]);
                    } else if a == p {
                        assert(after[b] == before[b - 1]);
                        assert(before[p as int] < i);
                        lemma_rank_order(ds[i as int].line_number, i as int, ds[before[p as int] as int].line_number, before[p as int] as int, ds.len() as int);
                        if b - 1 > p {
                            assert(group_rank(ds, before[p as int] as int) < group_rank(ds, before[b - 1] as int));
                        }
                    } else {
                        assert(after[a] == before[a - 1] && after[b] == before[b - 1]);
                    }
                }
                assert forall|a: int| 0 <= a < after.len() implies (#[trigger] after[a]) < i + 1 by {
                    if a < p {
                        assert(after[a] == before[a]);
                    } else if a > p {
                        assert(after[a] == before[a - 1]);
                    }
                }
                assert forall|x: usize| after.contains(x) <==> (x < i + 1 && leads_group(ds, x as int)) by {
                    if after.contains(x) && x != i {
                        let q = choose|q: int| 0 <= q < after.len() && after[q] == x;
                        if q < p {
                            assert(before[q] == x);
                        } else {
                            assert(before[q - 1] == x);
                        }
                        assert(before.contains(x));
                    }
                    if before.contains(x) {
                        let q = choose|q: int| 0 <= q < before.len() && before[q] == x;
                        if q < p {
                            assert(after[q] == x);
                        } else {
                            assert(after[q + 1] == x);
                        }
                    }
                    if x == i {
                        assert(after[p as int] == x);
                    }
                    if x < i && leads_group(ds, x as int) {
                        assert(before.contains(x));
                    }
                }
            }
        } else {
            assert forall|x: usize| leads@.contains(x) <==> (x < i + 1 && leads_group(ds, x as int)) by {
                if leads@.contains(x) {
                    let q = choose|q: int| 0 <= q < leads@.len() && leads@[q] == x;
                    assert(leads@[q] < i);
                }
            }
        }
        i = i + 1;
    }
    proof {
        assert(are_group_leads(ds, leads@)) by {
            assert forall|a: int| 0 <= a < leads@.len() implies (#[trigger] leads@[a]) < ds.len() by {
                assert(leads@[a] < i);
            }
            assert forall|x: int| 0 <= x < ds.len() implies (leads_group(ds, x) <==> leads@.contains(x as usize)) by {
                assert((x as usize) as int == x);
            }
        }
        let g = group_leads(ds);
        assert(are_group_leads(ds, g));
        assert forall|x: usize| g.contains(x) <==> leads@.contains(x) by {
            if g.contains(x) {
                let q = choose|q: int| 0 <= q < g.len() && g[q] == x;
                assert(x < ds.len());
                assert(leads_group(ds, x as int));
            }
            if leads@.contains(x) {
                let q = choose|q: int| 0 <= q < leads@.len() && leads@[q] == x;
                assert(x < ds.len());
                assert(leads_group(ds, x as int));
            }
        }
        lemma_rank_unique(ds, g, leads@);
    }
    let mut r: Vec<Vec<usize>> = Vec::new();
    let mut k: usize = 0;
    while k < leads.len()
        invariant
            k <= leads@.len(),
            n == objects@.len(),
            ds == object_views(objects@),
            leads@ == group_leads(ds),
            are_group_leads(ds, leads@),
            ks@.len() == n,
            keys_match(ds, ks@, n as int),
            r@.map_values(|g: Vec<usize>| g@) == leads@.take(k as int).map_values(
                |i: usize| group_members(ds, i as int, ds.len() as int),
            ),
            forall|g: int| 0 <= g < r@.len() ==> (#[trigger] r@[g])@.len() >= 2,
            forall|g: int, a: int|
                0 <= g < r@.len() && 0 <= a < r@[g]@.len() ==> {
                    let x = (#[trigger] r@[g]@[a]) as int;
                    &&& 0 <= x < ds.len()
                    &&& ds[x].is_conflicted
                    &&& group_key(ds[x]) == group_key(ds[r@[g]@[0] as int])
                },
        decreases leads@.len() - k,
    {
        assert(leads@[k as int] < ds.len());
        let m = members_exec(objects, &ks, leads[k], Ghost(ds));
        proof {
            let li = leads@[k as int];
            assert(leads@.contains(li));
            assert(leads_group(ds, li as int));
            lemma_group_members(ds, li as int, ds.len() as int);
            let gm = m@;
            assert forall|a: int| 0 <= a < gm.len() implies {
                let x = (#[trigger] gm[a]) as int;
                &&& 0 <= x < ds.len()
                &&& ds[x].is_conflicted
                &&& group_key(ds[x]) == group_key(ds[gm[0] as int])
            } by {
                assert(in_group_of(ds, gm[a] as int, li as int));
                assert(in_group_of(ds, gm[0] as int, li as int));
            }
        }
        let ghost before = r@.map_values(|g: Vec<usize>| g@);
        let ghost rb = r@;
        r.push(m);
        assert(forall|g: int| 0 <= g < rb.len() ==> r@[g] == rb[g]);
        assert(r@.map_values(|g: Vec<usize>| g@) =~= before.push(group_members(ds, leads@[k as int] as int, ds.len() as int)));
        assert(leads@.take(k + 1) =~= leads@.take(k as int).push(leads@[k as int]));
        assert(leads@.take(k + 1).map_values(|i: usize| group_members(ds, i as int, ds.len() as int)) =~= leads@.take(
            k as int,
        ).map_values(|i: usize| group_members(ds, i as int, ds.len() as int)).push(
            group_members(ds, leads@[k as int] as int, ds.len() as int),
        ));
        k = k + 1;
    }
    assert(leads@.take(k as int) =~= leads@);
    r
}

} // verus!
