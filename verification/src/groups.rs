use vstd::prelude::*;

use crate::order::{
    id_order, insert_sorted, is_strict_order, lemma_id_order_strict, lemma_insert_sorted,
    lemma_sorted_elements_of, lemma_sorted_insert, lemma_sorted_is_sorted_elements,
    lemma_text_order_strict, lemma_text_trichotomy, sorted_elements, strictly_sorted, text_order,
};
use crate::process::{PortProcess, PortProcessView, views};
use crate::text::{char_vec, lex_less, owned, signed_decimal, signed_decimal_string};

verus! {

broadcast use vstd::string::group_string_axioms;

/// A named group of processes, given by their positions in the process list.
pub struct ProcessGroup {
    pub name: String,
    pub process_indices: Vec<usize>,
}

/// A group with its name as a character sequence.
pub struct GroupView {
    pub name: Seq<char>,
    pub indices: Seq<usize>,
}

impl View for ProcessGroup {
    type V = GroupView;

    open spec fn view(&self) -> GroupView {
        GroupView { name: self.name@, indices: self.process_indices@ }
    }
}

/// The views of a sequence of groups.
pub open spec fn group_views(gs: Seq<ProcessGroup>) -> Seq<GroupView> {
    gs.map_values(|g: ProcessGroup| g@)
}

/// The positions below `n` that satisfy `f`, in increasing order.
pub open spec fn indices_where(n: nat, f: spec_fn(int) -> bool) -> Seq<usize>
    decreases n,
{
    if n == 0 {
        seq![]
    } else {
        let r = indices_where((n - 1) as nat, f);
        if f(n - 1) {
            r.push((n - 1) as usize)
        } else {
            r
        }
    }
}

/// The test "the process at position `i` belongs to the project `name`".
pub open spec fn in_project(ps: Seq<PortProcessView>, name: Seq<char>) -> spec_fn(int) -> bool {
    |i: int| ps[i].project == Some(name)
}

/// The names of the projects that some process belongs to.
pub open spec fn project_names(ps: Seq<PortProcessView>) -> Set<Seq<char>> {
    Set::new(|n: Seq<char>| exists|i: int| 0 <= i < ps.len() && ps[i].project == Some(n))
}

/// The group of a project: its name and the positions of its processes.
pub open spec fn project_group(ps: Seq<PortProcessView>, name: Seq<char>) -> GroupView {
    GroupView { name: name, indices: indices_where(ps.len(), in_project(ps, name)) }
}

/// One group per project, in lexicographic order of project names.
pub open spec fn project_groups(ps: Seq<PortProcessView>) -> Seq<GroupView> {
    sorted_elements(project_names(ps), text_order()).map_values(
        |n: Seq<char>| project_group(ps, n),
    )
}

/// The test "the process at position `i` belongs to no project and has the
/// parent `q`".
pub open spec fn shares_parent(ps: Seq<PortProcessView>, q: i32) -> spec_fn(int) -> bool {
    |i: int| ps[i].project is None && ps[i].ppid == Some(q)
}

/// The positions of the processes without a project whose parent is `q`.
pub open spec fn siblings(ps: Seq<PortProcessView>, q: i32) -> Seq<usize> {
    indices_where(ps.len(), shares_parent(ps, q))
}

/// The parents of the processes that belong to no project.
pub open spec fn loose_parents(ps: Seq<PortProcessView>) -> Set<i32> {
    Set::new(
        |q: i32| exists|i: int| 0 <= i < ps.len() && ps[i].project is None && ps[i].ppid == Some(q),
    )
}

/// The name of the group of the children of `q`.
pub open spec fn parent_group_name(q: i32) -> Seq<char> {
    "PID group (PPID "@ + signed_decimal(q as int) + ")"@
}

/// One group for each parent in `ids` with at least two children that belong
/// to no project, in the order of `ids`.
pub open spec fn parent_groups_from(ps: Seq<PortProcessView>, ids: Seq<i32>) -> Seq<GroupView>
    decreases ids.len(),
{
    if ids.len() == 0 {
        seq![]
    } else {
        let r = parent_groups_from(ps, ids.drop_last());
        let q = ids.last();
        if siblings(ps, q).len() >= 2 {
            r.push(parent_group(ps, q))
        } else {
            r
        }
    }
}

/// The group of the children of `q` that belong to no project.
pub open spec fn parent_group(ps: Seq<PortProcessView>, q: i32) -> GroupView {
    GroupView { name: parent_group_name(q), indices: siblings(ps, q) }
}

/// The groups of processes without a project that share a parent, in
/// increasing order of the parent's id.
pub open spec fn parent_groups(ps: Seq<PortProcessView>) -> Seq<GroupView> {
    parent_groups_from(ps, sorted_elements(loose_parents(ps), id_order()))
}

/// The process at position `i` falls into a project group or a parent group.
pub open spec fn is_grouped(ps: Seq<PortProcessView>, i: int) -> bool {
    ps[i].project is Some || (ps[i].ppid matches Some(q) && siblings(ps, q).len() >= 2)
}

/// The positions of the processes that fall into no other group.
pub open spec fn ungrouped(ps: Seq<PortProcessView>) -> Seq<usize> {
    indices_where(ps.len(), |i: int| !is_grouped(ps, i))
}

/// The group `Other`, when some process falls into no other group.
pub open spec fn other_group(ps: Seq<PortProcessView>) -> Seq<GroupView> {
    if ungrouped(ps).len() > 0 {
        seq![GroupView { name: "Other"@, indices: ungrouped(ps) }]
    } else {
        seq![]
    }
}

/// The groups shown for a process list: the project groups, then the parent
/// groups, then `Other`.
pub open spec fn groups_of(ps: Seq<PortProcessView>) -> Seq<GroupView> {
    project_groups(ps) + parent_groups(ps) + other_group(ps)
}

/// Some group lists the position `i`.
pub open spec fn is_listed(gs: Seq<GroupView>, i: usize) -> bool {
    exists|k: int| 0 <= k < gs.len() && #[trigger] gs[k].indices.contains(i)
}

/// `gs` divides the positions `0..n` among its groups: every group lists at
/// least one position, in increasing order and below `n`, and every position
/// below `n` is listed by exactly one group.
pub open spec fn is_partition(gs: Seq<GroupView>, n: nat) -> bool {
    &&& forall|k: int| 0 <= k < gs.len() ==> #[trigger] gs[k].indices.len() > 0
    &&& forall|k: int, a: int, b: int|
        0 <= k < gs.len() && 0 <= a < b < gs[k].indices.len() ==> #[trigger] gs[k].indices[a]
            < #[trigger] gs[k].indices[b]
    &&& forall|k: int, a: int| 0 <= k < gs.len() && 0 <= a < gs[k].indices.len() ==> #[trigger] gs[k].indices[a] < n
    &&& forall|i: usize| i < n ==> #[trigger] is_listed(gs, i)
    &&& forall|i: usize, k1: int, k2: int|
        0 <= k1 < gs.len() && 0 <= k2 < gs.len() && #[trigger] gs[k1].indices.contains(i)
            && #[trigger] gs[k2].indices.contains(i) ==> k1 == k2
}

/// The parents in `ids` with at least two children that belong to no project,
/// in the order of `ids`.
pub open spec fn parent_ids_from(ps: Seq<PortProcessView>, ids: Seq<i32>) -> Seq<i32>
    decreases ids.len(),
{
    if ids.len() == 0 {
        seq![]
    } else {
        let r = parent_ids_from(ps, ids.drop_last());
        if siblings(ps, ids.last()).len() >= 2 {
            r.push(ids.last())
        } else {
            r
        }
    }
}

proof fn lemma_indices_where(n: nat, f: spec_fn(int) -> bool)
    requires
        n <= usize::MAX,
    ensures
        forall|a: int, b: int|
            0 <= a < b < indices_where(n, f).len() ==> #[trigger] indices_where(n, f)[a]
                < #[trigger] indices_where(n, f)[b],
        forall|a: int|
            0 <= a < indices_where(n, f).len() ==> #[trigger] indices_where(n, f)[a] < n && f(
                indices_where(n, f)[a] as int,
            ),
        forall|i: int| 0 <= i < n && f(i) ==> #[trigger] indices_where(n, f).contains(i as usize),
    decreases n,
{
    if n > 0 {
        let m = (n - 1) as nat;
        lemma_indices_where(m, f);
        let r = indices_where(m, f);
        if f(n - 1) {
            let s = r.push((n - 1) as usize);
            assert(indices_where(n, f) == s);
            assert forall|i: int| 0 <= i < n && f(i) implies #[trigger] s.contains(i as usize) by {
                if i < n - 1 {
                    assert(r.contains(i as usize));
                    let j = choose|j: int| 0 <= j < r.len() && r[j] == i as usize;
                    assert(s[j] == i as usize);
                } else {
                    assert(s[s.len() - 1] == i as usize);
                }
            }
        } else {
            assert forall|i: int| 0 <= i < n && f(i) implies #[trigger] r.contains(i as usize) by {
                assert(i < n - 1);
            }
        }
    }
}

proof fn lemma_contains_member(n: nat, f: spec_fn(int) -> bool, x: usize)
    requires
        n <= usize::MAX,
        indices_where(n, f).contains(x),
    ensures
        x < n && f(x as int),
{
    lemma_indices_where(n, f);
    let j = choose|j: int| 0 <= j < indices_where(n, f).len() && indices_where(n, f)[j] == x;
    assert(indices_where(n, f)[j] < n);
}

proof fn lemma_parent_ids_from(ps: Seq<PortProcessView>, ids: Seq<i32>)
    ensures
        parent_groups_from(ps, ids) == parent_ids_from(ps, ids).map_values(
            |q: i32| parent_group(ps, q),
        ),
        forall|m: int|
            0 <= m < parent_ids_from(ps, ids).len() ==> ids.contains(
                #[trigger] parent_ids_from(ps, ids)[m],
            ) && siblings(ps, parent_ids_from(ps, ids)[m]).len() >= 2,
        forall|t: int|
            0 <= t < ids.len() && siblings(ps, ids[t]).len() >= 2 ==> parent_ids_from(
                ps,
                ids,
            ).contains(#[trigger] ids[t]),
        ids.no_duplicates() ==> parent_ids_from(ps, ids).no_duplicates(),
    decreases ids.len(),
{
    if ids.len() > 0 {
        let init = ids.drop_last();
        lemma_parent_ids_from(ps, init);
        let r = parent_ids_from(ps, init);
        let x = ids.last();
        let g = parent_groups_from(ps, init);
        assert forall|m: int| 0 <= m < r.len() implies ids.contains(#[trigger] r[m]) by {
            let t = choose|t: int| 0 <= t < init.len() && init[t] == r[m];
            assert(ids[t] == r[m]);
        }
        if siblings(ps, x).len() >= 2 {
            let s = r.push(x);
            assert(parent_ids_from(ps, ids) == s);
            assert(parent_groups_from(ps, ids) =~= s.map_values(|q: i32| parent_group(ps, q)));
            assert(ids.contains(x)) by {
                assert(ids[ids.len() - 1] == x);
            }
            assert forall|t: int| 0 <= t < ids.len() && siblings(ps, ids[t]).len() >= 2 implies s.contains(
                #[trigger] ids[t],
            ) by {
                if t < ids.len() - 1 {
                    assert(init[t] == ids[t]);
                    assert(r.contains(init[t]));
                    let m = choose|m: int| 0 <= m < r.len() && r[m] == init[t];
                    assert(s[m] == ids[t]);
                } else {
                    assert(s[s.len() - 1] == ids[t]);
                }
            }
            if ids.no_duplicates() {
                assert(init.no_duplicates()) by {
                    assert forall|a: int, b: int| 0 <= a < init.len() && 0 <= b < init.len() && a != b implies init[a]
                        != init[b] by {
                        assert(init[a] == ids[a] && init[b] == ids[b]);
                    }
                }
                assert(!r.contains(x)) by {
                    if r.contains(x) {
                        let m = choose|m: int| 0 <= m < r.len() && r[m] == x;
                        assert(init.contains(r[m]));
                        let t = choose|t: int| 0 <= t < init.len() && init[t] == x;
                        assert(ids[t] == ids[ids.len() - 1]);
                    }
                }
                assert forall|a: int, b: int| 0 <= a < s.len() && 0 <= b < s.len() && a != b implies s[a]
                    != s[b] by {
                    if a < r.len() && b < r.len() {
                    } else if a < r.len() {
                        assert(r.contains(s[a]));
                    } else if b < r.len() {
                        assert(r.contains(s[b]));
                    }
                }
            }
        } else {
            assert(parent_ids_from(ps, ids) == r);
            assert forall|t: int| 0 <= t < ids.len() && siblings(ps, ids[t]).len() >= 2 implies r.contains(
                #[trigger] ids[t],
            ) by {
                assert(t < ids.len() - 1);
                assert(init[t] == ids[t]);
            }
            if ids.no_duplicates() {
                assert(init.no_duplicates()) by {
                    assert forall|a: int, b: int| 0 <= a < init.len() && 0 <= b < init.len() && a != b implies init[a]
                        != init[b] by {
                        assert(init[a] == ids[a] && init[b] == ids[b]);
                    }
                }
            }
        }
    } else {
        assert(parent_groups_from(ps, ids) =~= parent_ids_from(ps, ids).map_values(
            |q: i32| parent_group(ps, q),
        ));
    }
}

proof fn lemma_sorted_no_duplicates<T>(s: Seq<T>, lt: spec_fn(T, T) -> bool)
    requires
        is_strict_order(lt),
        strictly_sorted(s, lt),
    ensures
        s.no_duplicates(),
{
    assert forall|a: int, b: int| 0 <= a < s.len() && 0 <= b < s.len() && a != b implies s[a] != s[b] by {
        if s[a] == s[b] {
            if a < b {
                assert(lt(s[a], s[b]));
            } else {
                assert(lt(s[b], s[a]));
            }
        }
    }
}

/// The groups of a process list divide its positions among them.
proof fn lemma_groups_partition(ps: Seq<PortProcessView>)
    requires
        ps.len() <= usize::MAX,
        strictly_sorted(sorted_elements(project_names(ps), text_order()), text_order()),
        sorted_elements(project_names(ps), text_order()).to_set() == project_names(ps),
        strictly_sorted(sorted_elements(loose_parents(ps), id_order()), id_order()),
        sorted_elements(loose_parents(ps), id_order()).to_set() == loose_parents(ps),
    ensures
        is_partition(groups_of(ps), ps.len()),
{
    let n = ps.len();
    let sn = sorted_elements(project_names(ps), text_order());
    let sids = sorted_elements(loose_parents(ps), id_order());
    let qs = parent_ids_from(ps, sids);
    let pg = project_groups(ps);
    let pp = parent_groups(ps);
    let og = other_group(ps);
    let gs = groups_of(ps);
    lemma_text_order_strict();
    lemma_id_order_strict();
    lemma_sorted_no_duplicates(sn, text_order());
    lemma_sorted_no_duplicates(sids, id_order());
    lemma_parent_ids_from(ps, sids);
    assert(gs == pg + pp + og);
    let a: int = pg.len() as int;
    let b: int = (pg.len() + pp.len()) as int;
    // What each group is.
    assert forall|k: int| 0 <= k < a implies #[trigger] gs[k] == project_group(ps, sn[k]) by {
        assert(gs[k] == pg[k]);
    }
    assert forall|k: int| a <= k < b implies #[trigger] gs[k] == parent_group(ps, qs[k - a]) by {
        assert(gs[k] == pp[k - a]);
    }
    assert forall|k: int| b <= k < gs.len() implies #[trigger] gs[k] == (GroupView {
        name: "Other"@,
        indices: ungrouped(ps),
    }) by {
        assert(gs[k] == og[k - b]);
    }
    // Each group lists the positions that satisfy a test.
    assert forall|k: int| 0 <= k < gs.len() implies exists|f: spec_fn(int) -> bool| #[trigger] gs[k].indices
        == indices_where(n, f) by {
        if k < a {
            assert(gs[k].indices == indices_where(n, in_project(ps, sn[k])));
        } else if k < b {
            assert(gs[k].indices == indices_where(n, shares_parent(ps, qs[k - a])));
        } else {
            assert(gs[k].indices == indices_where(n, |i: int| !is_grouped(ps, i)));
        }
    }
    assert forall|k: int, x: int, y: int|
        0 <= k < gs.len() && 0 <= x < y < gs[k].indices.len() implies #[trigger] gs[k].indices[x]
        < #[trigger] gs[k].indices[y] by {
        let f = choose|f: spec_fn(int) -> bool| gs[k].indices == indices_where(n, f);
        lemma_indices_where(n, f);
    }
    assert forall|k: int, x: int| 0 <= k < gs.len() && 0 <= x < gs[k].indices.len() implies #[trigger] gs[k].indices[x]
        < n by {
        let f = choose|f: spec_fn(int) -> bool| gs[k].indices == indices_where(n, f);
        lemma_indices_where(n, f);
    }
    // No group is empty.
    assert forall|k: int| 0 <= k < gs.len() implies #[trigger] gs[k].indices.len() > 0 by {
        if k < a {
            assert(sn.to_set().contains(sn[k]));
            let i = choose|i: int| 0 <= i < ps.len() && ps[i].project == Some(sn[k]);
            lemma_indices_where(n, in_project(ps, sn[k]));
            assert(gs[k].indices.contains(i as usize));
        } else if k < b {
            assert(siblings(ps, qs[k - a]).len() >= 2);
        }
    }
    // Every position falls into some group.
    assert forall|i: usize| i < n implies #[trigger] is_listed(gs, i) by {
        match ps[i as int].project {
            Some(p) => {
                assert(project_names(ps).contains(p));
                assert(sn.to_set().contains(p));
                let k = choose|k: int| 0 <= k < sn.len() && sn[k] == p;
                lemma_indices_where(n, in_project(ps, p));
                assert(in_project(ps, p)(i as int));
                assert(indices_where(n, in_project(ps, p)).contains((i as int) as usize));
                assert(gs[k] == project_group(ps, sn[k]));
                assert(gs[k].indices.contains(i));
            },
            None => {
                if ps[i as int].ppid is Some && siblings(ps, ps[i as int].ppid->0).len() >= 2 {
                    let q = ps[i as int].ppid->0;
                    assert(loose_parents(ps).contains(q));
                    assert(sids.to_set().contains(q));
                    let t = choose|t: int| 0 <= t < sids.len() && sids[t] == q;
                    assert(qs.contains(sids[t]));
                    let m = choose|m: int| 0 <= m < qs.len() && qs[m] == q;
                    lemma_indices_where(n, shares_parent(ps, q));
                    assert(shares_parent(ps, q)(i as int));
                    assert(indices_where(n, shares_parent(ps, q)).contains((i as int) as usize));
                    assert(gs[a + m] == parent_group(ps, qs[a + m - a]));
                    assert(gs[a + m].indices.contains(i));
                } else {
                    lemma_indices_where(n, |j: int| !is_grouped(ps, j));
                    assert(!is_grouped(ps, i as int));
                    assert(ungrouped(ps).contains((i as int) as usize));
                    assert(ungrouped(ps).len() > 0);
                    assert(gs[b].indices.contains(i));
                }
            },
        }
    }
    // No position falls into two groups.
    assert forall|i: usize, k1: int, k2: int|
        0 <= k1 < gs.len() && 0 <= k2 < gs.len() && #[trigger] gs[k1].indices.contains(i)
            && #[trigger] gs[k2].indices.contains(i) implies k1 == k2 by {
        if k1 < a {
            lemma_contains_member(n, in_project(ps, sn[k1]), i);
        } else if k1 < b {
            lemma_contains_member(n, shares_parent(ps, qs[k1 - a]), i);
        } else {
            lemma_contains_member(n, |j: int| !is_grouped(ps, j), i);
        }
        if k2 < a {
            lemma_contains_member(n, in_project(ps, sn[k2]), i);
        } else if k2 < b {
            lemma_contains_member(n, shares_parent(ps, qs[k2 - a]), i);
        } else {
            lemma_contains_member(n, |j: int| !is_grouped(ps, j), i);
        }
        if k1 < a && k2 < a {
            assert(sn[k1] == sn[k2]);
        } else if a <= k1 < b && a <= k2 < b {
            assert(qs[k1 - a] == qs[k2 - a]);
        }
    }
}

/// The texts of a sequence of strings.
pub open spec fn name_texts(v: Seq<String>) -> Seq<Seq<char>> {
    v.map_values(|s: String| s@)
}

/// Adds `p` to the strictly sorted names, where it belongs, unless it is there.
fn insert_name(names: &mut Vec<String>, p: &String)
    requires
        strictly_sorted(name_texts(old(names)@), text_order()),
    ensures
        strictly_sorted(name_texts(final(names)@), text_order()),
        name_texts(final(names)@).to_set() == name_texts(old(names)@).to_set().insert(p@),
{
    let ghost s = name_texts(names@);
    proof {
        lemma_text_order_strict();
    }
    let pv = char_vec(p.as_str());
    let mut k: usize = 0;
    while k < names.len()
        invariant
            k <= names@.len(),
            s == name_texts(names@),
            pv@ == p@,
            forall|j: int| 0 <= j < k ==> text_order()(#[trigger] s[j], p@),
        ensures
            k <= names@.len(),
            s == name_texts(names@),
            forall|j: int| 0 <= j < k ==> text_order()(#[trigger] s[j], p@),
            k < names@.len() ==> !text_order()(s[k as int], p@),
        decreases names.len() - k,
    {
        let nv = char_vec(names[k].as_str());
        if !lex_less(&nv, &pv) {
            assert(s[k as int] == names@[k as int]@);
            break;
        }
        assert(s[k as int] == names@[k as int]@);
        assert(text_order()(s[k as int], p@));
        k = k + 1;
    }
    if k < names.len() && names[k] == *p {
        assert(s[k as int] == p@);
        assert(s.to_set().insert(p@) =~= s.to_set());
        return;
    }
    proof {
        if k < s.len() {
            lemma_text_trichotomy(s[k as int], p@);
            assert forall|j: int| k <= j < s.len() implies text_order()(p@, #[trigger] s[j]) by {
                if j > k {
                    assert(text_order()(s[k as int], s[j]));
                }
            }
        }
        lemma_sorted_insert(s, k as int, p@, text_order());
    }
    names.insert(k, p.clone());
    assert(name_texts(names@) =~= s.insert(k as int, p@));
}

/// Adds `q` to the strictly increasing ids, where it belongs, unless it is there.
fn insert_id(ids: &mut Vec<i32>, q: i32)
    requires
        strictly_sorted(old(ids)@, id_order()),
    ensures
        strictly_sorted(final(ids)@, id_order()),
        final(ids)@.to_set() == old(ids)@.to_set().insert(q),
{
    let ghost s = ids@;
    proof {
        lemma_id_order_strict();
    }
    let mut k: usize = 0;
    while k < ids.len() && ids[k] < q
        invariant
            k <= ids@.len(),
            s == ids@,
            forall|j: int| 0 <= j < k ==> id_order()(#[trigger] s[j], q),
        decreases ids.len() - k,
    {
        k = k + 1;
    }
    if k < ids.len() && ids[k] == q {
        assert(s.to_set().insert(q) =~= s.to_set());
        return;
    }
    proof {
        assert forall|j: int| k <= j < s.len() implies id_order()(q, #[trigger] s[j]) by {
            if j > k {
                assert(id_order()(s[k as int], s[j]));
            }
        }
        lemma_sorted_insert(s, k as int, q, id_order());
    }
    ids.insert(k, q);
}

/// The positions of the processes that belong to the project `name`.
fn project_indices(ps: &[PortProcess], name: &String) -> (r: Vec<usize>)
    ensures
        r@ == indices_where(ps@.len(), in_project(views(ps@), name@)),
{
    let ghost vs = views(ps@);
    let mut r: Vec<usize> = Vec::new();
    let mut i: usize = 0;
    while i < ps.len()
        invariant
            i <= ps@.len(),
            vs == views(ps@),
            r@ == indices_where(i as nat, in_project(vs, name@)),
        decreases ps.len() - i,
    {
        assert(vs[i as int] == ps@[i as int]@);
        let belongs = match &ps[i].project {
            Some(pr) => *pr == *name,
            None => false,
        };
        assert(belongs == in_project(vs, name@)(i as int));
        if belongs {
            r.push(i);
        }
        i = i + 1;
    }
    r
}

/// The positions of the processes without a project whose parent is `q`.
fn sibling_indices(ps: &[PortProcess], q: i32) -> (r: Vec<usize>)
    ensures
        r@ == siblings(views(ps@), q),
{
    let ghost vs = views(ps@);
    let mut r: Vec<usize> = Vec::new();
    let mut i: usize = 0;
    while i < ps.len()
        invariant
            i <= ps@.len(),
            vs == views(ps@),
            r@ == indices_where(i as nat, shares_parent(vs, q)),
        decreases ps.len() - i,
    {
        assert(vs[i as int] == ps@[i as int]@);
        let shares = ps[i].project.is_none() && ps[i].ppid == Some(q);
        assert(shares == shares_parent(vs, q)(i as int));
        if shares {
            r.push(i);
        }
        i = i + 1;
    }
    r
}

/// One process more adds its project, if it has one, to the project names.
proof fn lemma_project_names_step(vs: Seq<PortProcessView>, i: int)
    requires
        0 <= i < vs.len(),
    ensures
        project_names(vs.take(i + 1)) == (match vs[i].project {
            Some(p) => project_names(vs.take(i)).insert(p),
            None => project_names(vs.take(i)),
        }),
{
    let before = project_names(vs.take(i));
    let after = project_names(vs.take(i + 1));
    assert forall|n: Seq<char>| after.contains(n) == (before.contains(n) || vs[i].project == Some(n)) by {
        if after.contains(n) {
            let j = choose|j: int| #![trigger vs.take(i + 1)[j]] 0 <= j < i + 1 && vs.take(i + 1)[j].project == Some(n);
            if j < i {
                assert(vs.take(i)[j] == vs.take(i + 1)[j]);
            }
        }
        if before.contains(n) {
            let j = choose|j: int| #![trigger vs.take(i)[j]] 0 <= j < i && vs.take(i)[j].project == Some(n);
            assert(vs.take(i)[j] == vs.take(i + 1)[j]);
        }
        if vs[i].project == Some(n) {
            assert(vs.take(i + 1)[i] == vs[i]);
        }
    }
    match vs[i].project {
        Some(p) => assert(after =~= before.insert(p)),
        None => assert(after =~= before),
    }
}

/// One process more adds its parent, if it has one and no project, to the
/// loose parents.
proof fn lemma_loose_parents_step(vs: Seq<PortProcessView>, i: int)
    requires
        0 <= i < vs.len(),
    ensures
        loose_parents(vs.take(i + 1)) == (if vs[i].project is None && vs[i].ppid is Some {
            loose_parents(vs.take(i)).insert(vs[i].ppid->0)
        } else {
            loose_parents(vs.take(i))
        }),
{
    let before = loose_parents(vs.take(i));
    let after = loose_parents(vs.take(i + 1));
    assert forall|n: i32| after.contains(n) == (before.contains(n) || (vs[i].project is None && vs[i].ppid == Some(n))) by {
        if after.contains(n) {
            let j = choose|j: int|
                #![trigger vs.take(i + 1)[j]]
                0 <= j < i + 1 && vs.take(i + 1)[j].project is None && vs.take(i + 1)[j].ppid == Some(n);
            if j < i {
                assert(vs.take(i)[j] == vs.take(i + 1)[j]);
            }
        }
        if before.contains(n) {
            let j = choose|j: int|
                #![trigger vs.take(i)[j]]
                0 <= j < i && vs.take(i)[j].project is None && vs.take(i)[j].ppid == Some(n);
            assert(vs.take(i)[j] == vs.take(i + 1)[j]);
        }
        if vs[i].project is None && vs[i].ppid == Some(n) {
            assert(vs.take(i + 1)[i] == vs[i]);
        }
    }
    if vs[i].project is None && vs[i].ppid is Some {
        assert(after =~= before.insert(vs[i].ppid->0));
    } else {
        assert(after =~= before);
    }
}

/// The project names of the processes, without repeats, in lexicographic order.
fn sorted_project_names(ps: &[PortProcess]) -> (r: Vec<String>)
    ensures
        name_texts(r@) == sorted_elements(project_names(views(ps@)), text_order()),
        strictly_sorted(name_texts(r@), text_order()),
        name_texts(r@).to_set() == project_names(views(ps@)),
{
    let ghost vs = views(ps@);
    let mut names: Vec<String> = Vec::new();
    let mut i: usize = 0;
    proof {
        lemma_text_order_strict();
        assert(name_texts(names@).to_set() =~= project_names(vs.take(0)));
    }
    while i < ps.len()
        invariant
            i <= ps@.len(),
            vs == views(ps@),
            strictly_sorted(name_texts(names@), text_order()),
            name_texts(names@).to_set() == project_names(vs.take(i as int)),
        decreases ps.len() - i,
    {
        assert(vs[i as int] == ps@[i as int]@);
        proof {
            lemma_project_names_step(vs, i as int);
        }
        match &ps[i].project {
            Some(pr) => {
                insert_name(&mut names, pr);
            },
            None => {},
        }
        i = i + 1;
    }
    proof {
        assert(vs.take(i as int) =~= vs);
        lemma_sorted_is_sorted_elements(name_texts(names@), text_order());
    }
    names
}

/// The parents of the processes without a project, without repeats, in
/// increasing order.
fn sorted_loose_parents(ps: &[PortProcess]) -> (r: Vec<i32>)
    ensures
        r@ == sorted_elements(loose_parents(views(ps@)), id_order()),
        strictly_sorted(r@, id_order()),
        r@.to_set() == loose_parents(views(ps@)),
{
    let ghost vs = views(ps@);
    let mut ids: Vec<i32> = Vec::new();
    let mut i: usize = 0;
    proof {
        lemma_id_order_strict();
        assert(ids@.to_set() =~= loose_parents(vs.take(0)));
    }
    while i < ps.len()
        invariant
            i <= ps@.len(),
            vs == views(ps@),
            strictly_sorted(ids@, id_order()),
            ids@.to_set() == loose_parents(vs.take(i as int)),
        decreases ps.len() - i,
    {
        assert(vs[i as int] == ps@[i as int]@);
        proof {
            lemma_loose_parents_step(vs, i as int);
        }
        if ps[i].project.is_none() && ps[i].ppid.is_some() {
            let q = ps[i].ppid.unwrap();
            insert_id(&mut ids, q);
        }
        i = i + 1;
    }
    proof {
        assert(vs.take(i as int) =~= vs);
        lemma_sorted_is_sorted_elements(ids@, id_order());
    }
    ids
}

/// The name of the group of the children of `q`.
fn parent_group_label(q: i32) -> (r: String)
    ensures
        r@ == parent_group_name(q),
{
    let mut s = owned("PID group (PPID ");
    let d = signed_decimal_string(q);
    s.append(d.as_str());
    s.append(")");
    s
}

/// Whether the process at position `i` falls into a project or parent group.
fn grouped_at(ps: &[PortProcess], i: usize) -> (r: bool)
    requires
        i < ps@.len(),
    ensures
        r == is_grouped(views(ps@), i as int),
{
    assert(views(ps@)[i as int] == ps@[i as int]@);
    if ps[i].project.is_some() {
        return true;
    }
    match ps[i].ppid {
        Some(q) => sibling_indices(ps, q).len() >= 2,
        None => false,
    }
}

/// Groups the processes: first one group per project, in lexicographic order
/// of project names; then, among the processes without a project, one group
/// per parent with at least two such children, in increasing order of parent
/// id; then `Other` with the rest, when there is a rest. Each group lists the
/// positions of its processes in increasing order.
pub fn compute_groups(processes: &[PortProcess]) -> (r: Vec<ProcessGroup>)
    ensures
        group_views(r@) == groups_of(views(processes@)),
        is_partition(group_views(r@), processes@.len()),
{
    let ghost vs = views(processes@);
    let mut groups: Vec<ProcessGroup> = Vec::new();

    // Pass 1: one group per project.
    let names = sorted_project_names(processes);
    let ids = sorted_loose_parents(processes);
    let count = processes.len();
    proof {
        assert(vs.len() == count);
        lemma_groups_partition(vs);
    }
    let ghost sn = sorted_elements(project_names(vs), text_order());
    let ghost pg = project_groups(vs);
    let mut k: usize = 0;
    assert(group_views(groups@) =~= pg.take(0));
    while k < names.len()
        invariant
            k <= names@.len(),
            vs == views(processes@),
            name_texts(names@) == sn,
            sn == sorted_elements(project_names(vs), text_order()),
            pg == project_groups(vs),
            pg.len() == names@.len(),
            group_views(groups@) == pg.take(k as int),
        decreases names.len() - k,
    {
        let indices = project_indices(processes, &names[k]);
        let ghost old_groups = groups@;
        assert(sn[k as int] == names@[k as int]@);
        groups.push(ProcessGroup { name: names[k].clone(), process_indices: indices });
        assert(pg[k as int] == project_group(vs, sn[k as int]));
        assert(group_views(groups@) =~= group_views(old_groups).push(pg[k as int]));
        assert(pg.take(k + 1) =~= pg.take(k as int).push(pg[k as int]));
        k = k + 1;
    }
    assert(pg.take(k as int) =~= pg);

    // Pass 2: among the processes without a project, one group per shared parent.
    let ghost sids = sorted_elements(loose_parents(vs), id_order());
    let ghost first = group_views(groups@);
    let mut k: usize = 0;
    assert(sids.take(0) =~= Seq::<i32>::empty());
    assert(first + parent_groups_from(vs, sids.take(0)) =~= first);
    while k < ids.len()
        invariant
            k <= ids@.len(),
            vs == views(processes@),
            ids@ == sids,
            group_views(groups@) == first + parent_groups_from(vs, sids.take(k as int)),
        decreases ids.len() - k,
    {
        let q = ids[k];
        let members = sibling_indices(processes, q);
        assert(sids.take(k + 1).drop_last() =~= sids.take(k as int));
        assert(sids.take(k + 1).last() == q);
        if members.len() >= 2 {
            let ghost old_groups = groups@;
            let name = parent_group_label(q);
            groups.push(ProcessGroup { name, process_indices: members });
            assert(group_views(groups@) =~= group_views(old_groups).push(parent_group(vs, q)));
        }
        k = k + 1;
    }
    assert(sids.take(k as int) =~= sids);

    // Pass 3: the rest go to `Other`.
    let mut other: Vec<usize> = Vec::new();
    let mut i: usize = 0;
    while i < processes.len()
        invariant
            i <= processes@.len(),
            vs == views(processes@),
            other@ == indices_where(i as nat, |j: int| !is_grouped(vs, j)),
        decreases processes.len() - i,
    {
        if !grouped_at(processes, i) {
            other.push(i);
        }
        i = i + 1;
    }
    let ghost second = group_views(groups@);
    if other.len() > 0 {
        let ghost old_groups = groups@;
        groups.push(ProcessGroup { name: owned("Other"), process_indices: other });
        assert(group_views(groups@) =~= group_views(old_groups).push(
            GroupView { name: "Other"@, indices: ungrouped(vs) },
        ));
    } else {
        assert(second + other_group(vs) =~= second);
    }
    groups
}


proof fn lemma_project_names_sortable(ps: Seq<PortProcessView>, i: int)
    requires
        0 <= i <= ps.len(),
    ensures
        exists|q: Seq<Seq<char>>| strictly_sorted(q, text_order()) && q.to_set() == project_names(ps.take(i)),
    decreases i,
{
    lemma_text_order_strict();
    if i == 0 {
        let q = Seq::<Seq<char>>::empty();
        assert(q.to_set() =~= project_names(ps.take(0)));
        assert(strictly_sorted(q, text_order()));
    } else {
        lemma_project_names_sortable(ps, i - 1);
        let q = choose|q: Seq<Seq<char>>| strictly_sorted(q, text_order()) && q.to_set() == project_names(ps.take(i - 1));
        lemma_project_names_step(ps, i - 1);
        match ps[i - 1].project {
            Some(p) => {
                assert forall|j: int| 0 <= j < q.len() implies #[trigger] q[j] == p || text_order()(q[j], p)
                    || text_order()(p, q[j]) by {
                    lemma_text_trichotomy(q[j], p);
                }
                lemma_insert_sorted(q, p, text_order());
                let r = insert_sorted(q, p, text_order());
                assert(strictly_sorted(r, text_order()) && r.to_set() == project_names(ps.take(i)));
            },
            None => {
                assert(strictly_sorted(q, text_order()) && q.to_set() == project_names(ps.take(i)));
            },
        }
    }
}

proof fn lemma_loose_parents_sortable(ps: Seq<PortProcessView>, i: int)
    requires
        0 <= i <= ps.len(),
    ensures
        exists|q: Seq<i32>| strictly_sorted(q, id_order()) && q.to_set() == loose_parents(ps.take(i)),
    decreases i,
{
    lemma_id_order_strict();
    if i == 0 {
        let q = Seq::<i32>::empty();
        assert(q.to_set() =~= loose_parents(ps.take(0)));
        assert(strictly_sorted(q, id_order()));
    } else {
        lemma_loose_parents_sortable(ps, i - 1);
        let q = choose|q: Seq<i32>| strictly_sorted(q, id_order()) && q.to_set() == loose_parents(ps.take(i - 1));
        lemma_loose_parents_step(ps, i - 1);
        if ps[i - 1].project is None && ps[i - 1].ppid is Some {
            let p = ps[i - 1].ppid->0;
            lemma_insert_sorted(q, p, id_order());
            let r = insert_sorted(q, p, id_order());
            assert(strictly_sorted(r, id_order()) && r.to_set() == loose_parents(ps.take(i)));
        } else {
            assert(strictly_sorted(q, id_order()) && q.to_set() == loose_parents(ps.take(i)));
        }
    }
}

proof fn lemma_two_members(s: Seq<usize>, x: usize, y: usize)
    requires
        s.contains(x),
        s.contains(y),
        x != y,
    ensures
        s.len() >= 2,
{
}

/// What each group of a process list is, for each process it lists: a
/// process with a project is listed under its project's name; one without a
/// project that shares its parent with another such process is listed under
/// `PID group (PPID ..)` with its parent's id; any other one under `Other`.
/// And every process is listed exactly once.
pub proof fn law_group_membership(ps: Seq<PortProcessView>)
    requires
        ps.len() <= usize::MAX,
    ensures
        is_partition(groups_of(ps), ps.len()),
        forall|k: int, m: int|
            0 <= k < groups_of(ps).len() && 0 <= m < groups_of(ps)[k].indices.len() ==> {
                let i = #[trigger] groups_of(ps)[k].indices[m] as int;
                let name = groups_of(ps)[k].name;
                match ps[i].project {
                    Some(p) => name == p,
                    None => if ps[i].ppid is Some && exists|j: int|
                        0 <= j < ps.len() && j != i && ps[j].project is None && ps[j].ppid
                            == ps[i].ppid {
                        name == "PID group (PPID "@ + signed_decimal(ps[i].ppid->0 as int) + ")"@
                    } else {
                        name == "Other"@
                    },
                }
            },
{
    let n = ps.len();
    lemma_project_names_sortable(ps, n as int);
    lemma_loose_parents_sortable(ps, n as int);
    assert(ps.take(n as int) =~= ps);
    let q1 = choose|q: Seq<Seq<char>>| strictly_sorted(q, text_order()) && q.to_set() == project_names(ps.take(n as int));
    let q2 = choose|q: Seq<i32>| strictly_sorted(q, id_order()) && q.to_set() == loose_parents(ps.take(n as int));
    lemma_sorted_elements_of(q1, project_names(ps), text_order());
    lemma_sorted_elements_of(q2, loose_parents(ps), id_order());
    lemma_groups_partition(ps);
    let sn = sorted_elements(project_names(ps), text_order());
    let sids = sorted_elements(loose_parents(ps), id_order());
    let qs = parent_ids_from(ps, sids);
    let pg = project_groups(ps);
    let pp = parent_groups(ps);
    let gs = groups_of(ps);
    lemma_parent_ids_from(ps, sids);
    let a: int = pg.len() as int;
    let b: int = (pg.len() + pp.len()) as int;
    assert forall|k: int, m: int|
        0 <= k < gs.len() && 0 <= m < gs[k].indices.len() implies {
            let i = #[trigger] gs[k].indices[m] as int;
            let name = gs[k].name;
            match ps[i].project {
                Some(p) => name == p,
                None => if ps[i].ppid is Some && exists|j: int|
                    0 <= j < ps.len() && j != i && ps[j].project is None && ps[j].ppid == ps[i].ppid {
                    name == "PID group (PPID "@ + signed_decimal(ps[i].ppid->0 as int) + ")"@
                } else {
                    name == "Other"@
                },
            }
        } by {
        let x = gs[k].indices[m];
        let i = x as int;
        assert(gs[k].indices.contains(x));
        if k < a {
            assert(gs[k] == pg[k]);
            assert(gs[k] == project_group(ps, sn[k]));
            lemma_contains_member(n, in_project(ps, sn[k]), x);
        } else if k < b {
            assert(gs[k] == pp[k - a]);
            let q = qs[k - a];
            assert(gs[k] == parent_group(ps, q));
            lemma_contains_member(n, shares_parent(ps, q), x);
            assert(siblings(ps, q).len() >= 2);
            let sib = siblings(ps, q);
            lemma_indices_where(n, shares_parent(ps, q));
            let other = if sib[0] != x { sib[0] } else { sib[1] };
            assert(other != x) by {
                if sib[0] == x {
                    assert(sib[0] < sib[1]);
                }
            }
            assert(shares_parent(ps, q)(other as int));
            assert(0 <= other as int && other as int != i && ps[other as int].project is None
                && ps[other as int].ppid == ps[i].ppid);
        } else {
            assert(gs[k] == other_group(ps)[k - b]);
            assert(gs[k].name == "Other"@);
            lemma_contains_member(n, |j: int| !is_grouped(ps, j), x);
            assert(!is_grouped(ps, i));
            if ps[i].project is None && ps[i].ppid is Some && exists|j: int|
                0 <= j < ps.len() && j != i && ps[j].project is None && ps[j].ppid == ps[i].ppid {
                let j = choose|j: int|
                    0 <= j < ps.len() && j != i && ps[j].project is None && ps[j].ppid == ps[i].ppid;
                let q = ps[i].ppid->0;
                lemma_indices_where(n, shares_parent(ps, q));
                assert(shares_parent(ps, q)(i));
                assert(shares_parent(ps, q)(j));
                assert(siblings(ps, q).contains(i as usize));
                assert(siblings(ps, q).contains(j as usize));
                lemma_two_members(siblings(ps, q), i as usize, j as usize);
            }
        }
    }
}

} // verus!
