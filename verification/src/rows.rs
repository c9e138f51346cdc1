use vstd::prelude::*;

use crate::groups::{
    compute_groups, group_views, groups_of, is_listed, is_partition, GroupView, ProcessGroup,
};
use crate::process::{PortProcess, PortProcessView, views};

verus! {

// ---------------------------------------------------------------------------
// Display rows
// ---------------------------------------------------------------------------

/// A row of the process list: a group header, or one process.
pub enum DisplayRow {
    GroupHeader { name: String, count: usize },
    Process { process_index: usize },
}

/// A row with its texts as character sequences.
pub enum RowView {
    Header { name: Seq<char>, count: usize },
    Process { index: usize },
}

impl View for DisplayRow {
    type V = RowView;

    open spec fn view(&self) -> RowView {
        match self {
            DisplayRow::GroupHeader { name, count } => RowView::Header { name: name@, count: *count },
            DisplayRow::Process { process_index } => RowView::Process { index: *process_index },
        }
    }
}

/// The views of a sequence of rows.
pub open spec fn row_views(rows: Seq<DisplayRow>) -> Seq<RowView> {
    rows.map_values(|r: DisplayRow| r@)
}

/// The rows of one group: a header with its name and size, then one row per
/// process; no rows at all for an empty group.
pub open spec fn rows_of_group(g: GroupView) -> Seq<RowView> {
    if g.indices.len() == 0 {
        seq![]
    } else {
        seq![RowView::Header { name: g.name, count: g.indices.len() as usize }] + g.indices.map_values(
            |i: usize| RowView::Process { index: i },
        )
    }
}

/// The rows of the groups, group after group.
pub open spec fn rows_of_groups(gs: Seq<GroupView>) -> Seq<RowView>
    decreases gs.len(),
{
    if gs.len() == 0 {
        seq![]
    } else {
        rows_of_groups(gs.drop_last()) + rows_of_group(gs.last())
    }
}

/// The rows shown for a process list.
pub open spec fn display_rows_of(ps: Seq<PortProcessView>) -> Seq<RowView> {
    rows_of_groups(groups_of(ps))
}

/// The row showing the process at position `i` of the list exists.
pub open spec fn shown(rows: Seq<RowView>, i: usize) -> bool {
    exists|r: int| 0 <= r < rows.len() && rows[r] == (RowView::Process { index: i })
}

/// The process rows name processes of a list of `n`, and each of them on
/// exactly one row.
pub open spec fn shows_each_once(rows: Seq<RowView>, n: nat) -> bool {
    &&& forall|r: int|
        0 <= r < rows.len() ==> (#[trigger] rows[r] matches RowView::Process { index } ==> index < n)
    &&& forall|i: usize| i < n ==> #[trigger] shown(rows, i)
    &&& forall|r1: int, r2: int|
        #![trigger rows[r1], rows[r2]]
        0 <= r1 < rows.len() && 0 <= r2 < rows.len() && rows[r1] is Process && rows[r1] == rows[r2]
            ==> r1 == r2
}

/// The positions that the groups list, group after group.
pub open spec fn flat(gs: Seq<GroupView>) -> Seq<usize>
    decreases gs.len(),
{
    if gs.len() == 0 {
        seq![]
    } else {
        flat(gs.drop_last()) + gs.last().indices
    }
}

proof fn lemma_flat_contains(gs: Seq<GroupView>, x: usize)
    ensures
        flat(gs).contains(x) <==> is_listed(gs, x),
    decreases gs.len(),
{
    if gs.len() > 0 {
        let init = gs.drop_last();
        lemma_flat_contains(init, x);
        let f = flat(init);
        let l = gs.last().indices;
        if flat(gs).contains(x) {
            let j = choose|j: int| 0 <= j < flat(gs).len() && flat(gs)[j] == x;
            if j < f.len() {
                assert(f[j] == x);
                let k = choose|k: int| 0 <= k < init.len() && #[trigger] init[k].indices.contains(x);
                assert(gs[k] == init[k]);
            } else {
                assert(l[j - f.len()] == x);
                assert(gs[gs.len() - 1].indices.contains(x));
            }
        }
        if is_listed(gs, x) {
            let k = choose|k: int| 0 <= k < gs.len() && #[trigger] gs[k].indices.contains(x);
            let j = choose|j: int| 0 <= j < gs[k].indices.len() && gs[k].indices[j] == x;
            if k < gs.len() - 1 {
                assert(init[k] == gs[k]);
                assert(is_listed(init, x));
                let m = choose|m: int| 0 <= m < f.len() && f[m] == x;
                assert(flat(gs)[m] == x);
            } else {
                assert(flat(gs)[f.len() + j] == x);
            }
        }
    }
}

proof fn lemma_flat_no_duplicates(gs: Seq<GroupView>, n: nat)
    requires
        forall|k: int, a: int, b: int|
            0 <= k < gs.len() && 0 <= a < b < gs[k].indices.len() ==> #[trigger] gs[k].indices[a]
                < #[trigger] gs[k].indices[b],
        forall|i: usize, k1: int, k2: int|
            0 <= k1 < gs.len() && 0 <= k2 < gs.len() && #[trigger] gs[k1].indices.contains(i)
                && #[trigger] gs[k2].indices.contains(i) ==> k1 == k2,
    ensures
        flat(gs).no_duplicates(),
    decreases gs.len(),
{
    if gs.len() > 0 {
        let init = gs.drop_last();
        assert forall|k: int, a: int, b: int|
            0 <= k < init.len() && 0 <= a < b < init[k].indices.len() implies #[trigger] init[k].indices[a]
            < #[trigger] init[k].indices[b] by {
            assert(init[k] == gs[k]);
        }
        assert forall|i: usize, k1: int, k2: int|
            0 <= k1 < init.len() && 0 <= k2 < init.len() && #[trigger] init[k1].indices.contains(i)
                && #[trigger] init[k2].indices.contains(i) implies k1 == k2 by {
            assert(init[k1] == gs[k1] && init[k2] == gs[k2]);
        }
        lemma_flat_no_duplicates(init, n);
        let f = flat(init);
        let l = gs.last().indices;
        let s = flat(gs);
        assert(s == f + l);
        assert forall|a: int, b: int| 0 <= a < s.len() && 0 <= b < s.len() && a != b implies s[a] != s[b] by {
            if a >= f.len() && b >= f.len() {
                let x = a - f.len();
                let y = b - f.len();
                if x < y {
                    assert(gs[gs.len() - 1].indices[x] < gs[gs.len() - 1].indices[y]);
                } else {
                    assert(gs[gs.len() - 1].indices[y] < gs[gs.len() - 1].indices[x]);
                }
            } else if a < f.len() && b >= f.len() {
                if s[a] == s[b] {
                    assert(f.contains(s[a]));
                    lemma_flat_contains(init, s[a]);
                    let k = choose|k: int| 0 <= k < init.len() && #[trigger] init[k].indices.contains(s[a]);
                    assert(gs[k] == init[k]);
                    assert(gs[gs.len() - 1].indices.contains(s[b]));
                }
            } else if a >= f.len() && b < f.len() {
                if s[a] == s[b] {
                    assert(f.contains(s[b]));
                    lemma_flat_contains(init, s[b]);
                    let k = choose|k: int| 0 <= k < init.len() && #[trigger] init[k].indices.contains(s[b]);
                    assert(gs[k] == init[k]);
                    assert(gs[gs.len() - 1].indices.contains(s[a]));
                }
            }
        }
    }
}

proof fn lemma_rows_of_groups(gs: Seq<GroupView>)
    ensures
        forall|r: int|
            0 <= r < rows_of_groups(gs).len() ==> (#[trigger] rows_of_groups(gs)[r] matches RowView::Process {
                index,
            } ==> flat(gs).contains(index)),
        forall|x: usize| #[trigger] flat(gs).contains(x) ==> shown(rows_of_groups(gs), x),
        flat(gs).no_duplicates() ==> forall|r1: int, r2: int|
            #![trigger rows_of_groups(gs)[r1], rows_of_groups(gs)[r2]]
            0 <= r1 < rows_of_groups(gs).len() && 0 <= r2 < rows_of_groups(gs).len()
                && rows_of_groups(gs)[r1] is Process && rows_of_groups(gs)[r1] == rows_of_groups(
                gs,
            )[r2] ==> r1 == r2,
    decreases gs.len(),
{
    if gs.len() > 0 {
        let init = gs.drop_last();
        lemma_rows_of_groups(init);
        let g = gs.last();
        let pre = rows_of_groups(init);
        let post = rows_of_group(g);
        let rows = rows_of_groups(gs);
        let f = flat(init);
        let l = g.indices;
        assert(rows == pre + post);
        assert(flat(gs) == f + l);
        // Rows of the last group.
        assert forall|r: int| 0 <= r < post.len() implies (#[trigger] post[r] matches RowView::Process {
            index,
        } ==> l.contains(index) && r >= 1 && l[r - 1] == index) by {
            if l.len() > 0 && r >= 1 {
                assert(post[r] == (RowView::Process { index: l[r - 1] }));
            }
        }
        assert forall|r: int| 0 <= r < rows.len() implies (#[trigger] rows[r] matches RowView::Process {
            index,
        } ==> flat(gs).contains(index)) by {
            if r < pre.len() {
                assert(rows[r] == pre[r]);
                if let RowView::Process { index } = pre[r] {
                    let j = choose|j: int| 0 <= j < f.len() && f[j] == index;
                    assert(flat(gs)[j] == index);
                }
            } else {
                assert(rows[r] == post[r - pre.len()]);
                if let RowView::Process { index } = post[r - pre.len()] {
                    let j = choose|j: int| 0 <= j < l.len() && l[j] == index;
                    assert(flat(gs)[f.len() + j] == index);
                }
            }
        }
        assert forall|x: usize| #[trigger] flat(gs).contains(x) implies shown(rows, x) by {
            let j = choose|j: int| 0 <= j < flat(gs).len() && flat(gs)[j] == x;
            if j < f.len() {
                assert(f[j] == x);
                assert(f.contains(x));
                let r = choose|r: int| 0 <= r < pre.len() && pre[r] == (RowView::Process { index: x });
                assert(rows[r] == pre[r]);
            } else {
                let m = j - f.len();
                assert(l[m] == x);
                assert(post[m + 1] == (RowView::Process { index: x }));
                assert(rows[pre.len() + m + 1] == post[m + 1]);
            }
        }
        if flat(gs).no_duplicates() {
            assert(f.no_duplicates()) by {
                assert forall|a: int, b: int| 0 <= a < f.len() && 0 <= b < f.len() && a != b implies f[a] != f[b] by {
                    assert(flat(gs)[a] == f[a] && flat(gs)[b] == f[b]);
                }
            }
            assert forall|r1: int, r2: int|
                #![trigger rows[r1], rows[r2]]
                0 <= r1 < rows.len() && 0 <= r2 < rows.len() && rows[r1] is Process && rows[r1] == rows[r2]
                    implies r1 == r2 by {
                let x = rows[r1]->index;
                if r1 < pre.len() && r2 < pre.len() {
                    assert(rows[r1] == pre[r1] && rows[r2] == pre[r2]);
                } else if r1 >= pre.len() && r2 >= pre.len() {
                    assert(rows[r1] == post[r1 - pre.len()] && rows[r2] == post[r2 - pre.len()]);
                    assert(post[r1 - pre.len()] matches RowView::Process { .. });
                    let m1 = r1 - pre.len() - 1;
                    let m2 = r2 - pre.len() - 1;
                    assert(l[m1] == x && l[m2] == x);
                    assert(flat(gs)[f.len() + m1] == flat(gs)[f.len() + m2]);
                } else if r1 < pre.len() {
                    assert(rows[r1] == pre[r1] && rows[r2] == post[r2 - pre.len()]);
                    assert(f.contains(x));
                    let j = choose|j: int| 0 <= j < f.len() && f[j] == x;
                    let m2 = r2 - pre.len() - 1;
                    assert(l[m2] == x);
                    assert(flat(gs)[j] == flat(gs)[f.len() + m2]);
                } else {
                    assert(rows[r2] == pre[r2] && rows[r1] == post[r1 - pre.len()]);
                    assert(f.contains(x));
                    let j = choose|j: int| 0 <= j < f.len() && f[j] == x;
                    let m1 = r1 - pre.len() - 1;
                    assert(l[m1] == x);
                    assert(flat(gs)[j] == flat(gs)[f.len() + m1]);
                }
            }
        }
    }
}

/// When the groups divide the positions of a list of `n` processes, their rows
/// show each process exactly once.
proof fn lemma_rows_show_each_once(gs: Seq<GroupView>, n: nat)
    requires
        is_partition(gs, n),
    ensures
        shows_each_once(rows_of_groups(gs), n),
{
    lemma_flat_no_duplicates(gs, n);
    lemma_rows_of_groups(gs);
    let rows = rows_of_groups(gs);
    assert forall|r: int| 0 <= r < rows.len() implies (#[trigger] rows[r] matches RowView::Process {
        index,
    } ==> index < n) by {
        if let RowView::Process { index } = rows[r] {
            lemma_flat_contains(gs, index);
            let k = choose|k: int| 0 <= k < gs.len() && #[trigger] gs[k].indices.contains(index);
            let j = choose|j: int| 0 <= j < gs[k].indices.len() && gs[k].indices[j] == index;
            assert(gs[k].indices[j] < n);
        }
    }
    assert forall|i: usize| i < n implies #[trigger] shown(rows, i) by {
        assert(is_listed(gs, i));
        lemma_flat_contains(gs, i);
    }
}

/// The rows shown for the processes.
pub(crate) fn rows_for(processes: &Vec<PortProcess>) -> (r: Vec<DisplayRow>)
    ensures
        row_views(r@) == display_rows_of(views(processes@)),
        shows_each_once(row_views(r@), processes@.len()),
{
    let groups: Vec<ProcessGroup> = compute_groups(processes.as_slice());
    proof {
        lemma_rows_show_each_once(group_views(groups@), processes@.len());
    }
    let ghost gv = group_views(groups@);
    let mut rows: Vec<DisplayRow> = Vec::new();
    let mut k: usize = 0;
    assert(gv.take(0) =~= Seq::<GroupView>::empty());
    assert(row_views(rows@) =~= Seq::<RowView>::empty());
    while k < groups.len()
        invariant
            k <= groups@.len(),
            gv == group_views(groups@),
            gv == groups_of(views(processes@)),
            row_views(rows@) == rows_of_groups(gv.take(k as int)),
        decreases groups.len() - k,
    {
        let g = &groups[k];
        assert(gv[k as int] == g@);
        assert(gv.take(k + 1).drop_last() =~= gv.take(k as int));
        assert(gv.take(k + 1).last() == g@);
        let ghost before = row_views(rows@);
        let n = g.process_indices.len();
        if n > 0 {
            rows.push(DisplayRow::GroupHeader { name: g.name.clone(), count: n });
            let ghost header = row_views(rows@);
            let ghost procs = g@.indices.map_values(|i: usize| RowView::Process { index: i });
            assert(header =~= before.push(RowView::Header { name: g@.name, count: n }));
            let mut j: usize = 0;
            assert(header + procs.take(0) =~= header);
            while j < n
                invariant
                    j <= n,
                    n == g.process_indices@.len(),
                    procs == g@.indices.map_values(|i: usize| RowView::Process { index: i }),
                    row_views(rows@) == header + procs.take(j as int),
                decreases n - j,
            {
                let ghost old_rows = rows@;
                rows.push(DisplayRow::Process { process_index: g.process_indices[j] });
                assert(row_views(rows@) =~= row_views(old_rows).push(procs[j as int]));
                assert(procs.take(j + 1) =~= procs.take(j as int).push(procs[j as int]));
                j = j + 1;
            }
            assert(procs.take(n as int) =~= procs);
            assert(row_views(rows@) =~= before + rows_of_group(g@));
        } else {
            assert(before + rows_of_group(g@) =~= before);
        }
        k = k + 1;
    }
    assert(gv.take(k as int) =~= gv);
    rows
}

// ---------------------------------------------------------------------------
// Selection
// ---------------------------------------------------------------------------

/// The first process row at position `start` or later.
pub open spec fn first_process_from(rows: Seq<RowView>, start: int) -> Option<int>
    decreases rows.len() - start,
{
    if start < 0 || start >= rows.len() {
        None
    } else if rows[start] is Process {
        Some(start)
    } else {
        first_process_from(rows, start + 1)
    }
}

/// The last process row before position `end`.
pub open spec fn last_process_before(rows: Seq<RowView>, end: int) -> Option<int>
    decreases end,
{
    if end <= 0 {
        None
    } else if end > rows.len() {
        last_process_before(rows, rows.len() as int)
    } else if rows[end - 1] is Process {
        Some(end - 1)
    } else {
        last_process_before(rows, end - 1)
    }
}

/// A position as a selection.
pub open spec fn as_selection(p: Option<int>) -> Option<usize> {
    match p {
        Some(i) => Some(i as usize),
        None => None,
    }
}

/// The selection after moving down: the next process row after the selected
/// one, wrapping round to the first; unchanged when there is none.
pub open spec fn next_selection(rows: Seq<RowView>, sel: Option<usize>) -> Option<usize> {
    if rows.len() == 0 {
        sel
    } else {
        let start = match sel {
            Some(s) => s + 1,
            None => 0,
        };
        match first_process_from(rows, start) {
            Some(i) => Some(i as usize),
            None => match first_process_from(rows, 0) {
                Some(i) => Some(i as usize),
                None => sel,
            },
        }
    }
}

/// The selection after moving up: the previous process row before the selected
/// one, wrapping round to the last; unchanged when there is none.
pub open spec fn previous_selection(rows: Seq<RowView>, sel: Option<usize>) -> Option<usize> {
    if rows.len() == 0 {
        sel
    } else {
        let start: int = match sel {
            Some(s) => s as int,
            None => 0,
        };
        let back = if start > 0 {
            last_process_before(rows, start)
        } else {
            None
        };
        match back {
            Some(i) => Some(i as usize),
            None => match last_process_before(rows, rows.len() as int) {
                Some(i) => Some(i as usize),
                None => sel,
            },
        }
    }
}

/// The first process row at `start` or later.
pub(crate) fn find_process_from(rows: &Vec<DisplayRow>, start: usize) -> (r: Option<usize>)
    ensures
        as_selection(first_process_from(row_views(rows@), start as int)) == r,
        r matches Some(i) ==> i < rows@.len(),
{
    let ghost rv = row_views(rows@);
    let mut i = start;
    while i < rows.len()
        invariant
            start <= i,
            rv == row_views(rows@),
            first_process_from(rv, start as int) == first_process_from(rv, i as int),
        decreases rows.len() - i,
    {
        assert(rv[i as int] == rows@[i as int]@);
        if let DisplayRow::Process { .. } = rows[i] {
            return Some(i);
        }
        i = i + 1;
    }
    None
}

/// The last process row before `end`.
pub(crate) fn find_process_before(rows: &Vec<DisplayRow>, end: usize) -> (r: Option<usize>)
    requires
        end <= rows@.len(),
    ensures
        as_selection(last_process_before(row_views(rows@), end as int)) == r,
        r matches Some(i) ==> i < rows@.len(),
{
    let ghost rv = row_views(rows@);
    let mut i = end;
    while i > 0
        invariant
            i <= end <= rows@.len(),
            rv == row_views(rows@),
            last_process_before(rv, end as int) == last_process_before(rv, i as int),
        decreases i,
    {
        assert(rv[i - 1] == rows@[i - 1]@);
        if let DisplayRow::Process { .. } = rows[i - 1] {
            return Some(i - 1);
        }
        i = i - 1;
    }
    None
}

} // verus!
