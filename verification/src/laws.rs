use vstd::prelude::*;

use crate::app::refreshed_selection;
use crate::describe::{description_of, emoji_of};
use crate::screen::{color_of, fitted_command, PortColor};
use crate::rows::{
    as_selection, first_process_from, last_process_before, next_selection, previous_selection,
    RowView,
};
use crate::text::{
    decimal, first_occurrence, has_substring, is_white_space, lines, lowercase, parse_i32, split_char,
    strip_cr, words, is_first_occurrence, is_last_index, lemma_first_occurrence_unique,
    lemma_last_index_unique, occurs_at,
};
use crate::process::{
    entries_of, found_processes, is_stable_port_order, listing_entry, listing_processes, on_port, ports_ascending, PortListing,
    PortProcessView, ProcessRecord, joined, record_for, texts,
};
use crate::project::{last_qualifying, node_modules_project, pattern_project, project_of, qualifies};

verus! {

/// The row at position `i` shows a process.
pub open spec fn is_process_row(rows: Seq<RowView>, i: int) -> bool {
    0 <= i < rows.len() && rows[i] is Process
}

proof fn lemma_first_from_found(rows: Seq<RowView>, s: int, i: int)
    requires
        0 <= s <= i,
        is_process_row(rows, i),
        forall|j: int| s <= j < i ==> !is_process_row(rows, j),
    ensures
        first_process_from(rows, s) == Some(i),
    decreases i - s,
{
    if s < i {
        assert(!is_process_row(rows, s));
        lemma_first_from_found(rows, s + 1, i);
    }
}

proof fn lemma_first_from_result(rows: Seq<RowView>, s: int)
    requires
        0 <= s,
    ensures
        match first_process_from(rows, s) {
            Some(i) => s <= i && is_process_row(rows, i) && forall|j: int|
                s <= j < i ==> !is_process_row(rows, j),
            None => forall|j: int| s <= j < rows.len() ==> !is_process_row(rows, j),
        },
    decreases rows.len() - s,
{
    if s < rows.len() && !(rows[s] is Process) {
        lemma_first_from_result(rows, s + 1);
    }
}

proof fn lemma_last_before_found(rows: Seq<RowView>, e: int, i: int)
    requires
        i < e <= rows.len(),
        is_process_row(rows, i),
        forall|j: int| i < j < e ==> !is_process_row(rows, j),
    ensures
        last_process_before(rows, e) == Some(i),
    decreases e - i,
{
    if i < e - 1 {
        assert(!is_process_row(rows, e - 1));
        lemma_last_before_found(rows, e - 1, i);
    }
}

proof fn lemma_last_before_result(rows: Seq<RowView>, e: int)
    requires
        e <= rows.len(),
    ensures
        match last_process_before(rows, e) {
            Some(i) => i < e && is_process_row(rows, i) && forall|j: int|
                i < j < e ==> !is_process_row(rows, j),
            None => forall|j: int| 0 <= j < e ==> !is_process_row(rows, j),
        },
    decreases e,
{
    if e > 0 && !(rows[e - 1] is Process) {
        lemma_last_before_result(rows, e - 1);
    }
}

/// Moving up undoes moving down: from a process row, the next process row's
/// previous process row is the row one started from.
pub proof fn law_previous_undoes_next(rows: Seq<RowView>, s: usize)
    requires
        rows.len() <= usize::MAX,
        is_process_row(rows, s as int),
    ensures
        previous_selection(rows, next_selection(rows, Some(s))) == Some(s),
{
    lemma_first_from_result(rows, s + 1);
    match first_process_from(rows, s + 1) {
        Some(j) => {
            lemma_last_before_found(rows, j, s as int);
        },
        None => {
            lemma_first_from_result(rows, 0);
            let j = first_process_from(rows, 0)->0;
            if j > 0 {
                lemma_last_before_result(rows, j);
            }
            lemma_last_before_found(rows, rows.len() as int, s as int);
        },
    }
}

/// Moving down undoes moving up: from a process row, the previous process
/// row's next process row is the row one started from.
pub proof fn law_next_undoes_previous(rows: Seq<RowView>, s: usize)
    requires
        rows.len() <= usize::MAX,
        is_process_row(rows, s as int),
    ensures
        next_selection(rows, previous_selection(rows, Some(s))) == Some(s),
{
    let back = if s > 0 {
        last_process_before(rows, s as int)
    } else {
        None
    };
    if s > 0 {
        lemma_last_before_result(rows, s as int);
    }
    match back {
        Some(j) => {
            lemma_first_from_found(rows, j + 1, s as int);
        },
        None => {
            lemma_last_before_result(rows, rows.len() as int);
            let j = last_process_before(rows, rows.len() as int)->0;
            lemma_first_from_result(rows, j + 1);
            lemma_first_from_found(rows, 0, s as int);
        },
    }
}

/// Moving up or down, with at least one process row shown, always ends on a
/// process row.
pub proof fn law_moves_end_on_process_rows(rows: Seq<RowView>, sel: Option<usize>, p: int)
    requires
        rows.len() <= usize::MAX,
        is_process_row(rows, p),
        sel matches Some(s) ==> s < rows.len(),
    ensures
        next_selection(rows, sel) matches Some(i) && is_process_row(rows, i as int),
        previous_selection(rows, sel) matches Some(i) && is_process_row(rows, i as int),
{
    let start: int = match sel {
        Some(s) => s + 1,
        None => 0,
    };
    lemma_first_from_result(rows, start);
    lemma_first_from_result(rows, 0);
    let back_start: int = match sel {
        Some(s) => s as int,
        None => 0,
    };
    if back_start > 0 {
        lemma_last_before_result(rows, back_start);
    }
    lemma_last_before_result(rows, rows.len() as int);
}

proof fn lemma_last_qualifying(parts: Seq<Seq<char>>)
    ensures
        last_qualifying(parts) matches Some(p) ==> qualifies(p),
    decreases parts.len(),
{
    if parts.len() > 0 && !qualifies(parts.last()) {
        lemma_last_qualifying(parts.drop_last());
    }
}

proof fn lemma_pattern_project(cmd: Seq<char>, pat: Seq<char>)
    ensures
        pattern_project(cmd, pat) matches Some(p) ==> qualifies(p),
{
    match crate::text::first_occurrence(cmd, pat) {
        Some(i) => lemma_last_qualifying(
            crate::text::split_char(cmd.skip(i + pat.len()), '/').drop_last(),
        ),
        None => {},
    }
}

/// A project name found in a command line is never empty, `bin` or `src`.
pub proof fn law_project_is_a_name(cmd: Seq<char>)
    ensures
        project_of(cmd) matches Some(p) ==> p.len() > 0 && p != "bin"@ && p != "src"@,
{
    lemma_pattern_project(cmd, "/sandbox/"@);
    lemma_pattern_project(cmd, "/projects/"@);
    lemma_pattern_project(cmd, "/work/"@);
    lemma_pattern_project(cmd, "/dev/"@);
    lemma_pattern_project(cmd, "/Users/"@);
}

proof fn lemma_filter_last(s: Seq<PortProcessView>, p: u16)
    requires
        s.len() > 0,
    ensures
        s.filter(on_port(p)) == (if s.last().port == p {
            s.drop_last().filter(on_port(p)).push(s.last())
        } else {
            s.drop_last().filter(on_port(p))
        }),
{
    reveal(Seq::filter);
}

proof fn lemma_filter_has(s: Seq<PortProcessView>, p: u16, i: int)
    requires
        0 <= i < s.len(),
        s[i].port == p,
    ensures
        s.filter(on_port(p)).len() > 0,
    decreases s.len(),
{
    lemma_filter_last(s, p);
    if i < s.len() - 1 && s.last().port != p {
        lemma_filter_has(s.drop_last(), p, i);
    }
}

/// Sorting by port while keeping the order of processes on one port has a
/// single possible result: two sequences that are both such an order of the
/// same input are equal.
pub proof fn law_stable_port_order_unique(
    a: Seq<PortProcessView>,
    b: Seq<PortProcessView>,
    input: Seq<PortProcessView>,
)
    requires
        is_stable_port_order(a, input),
        is_stable_port_order(b, input),
    ensures
        a == b,
    decreases a.len() + b.len(),
{
    assert forall|p: u16| #[trigger] a.filter(on_port(p)) == b.filter(on_port(p)) by {
        assert(a.filter(on_port(p)) == input.filter(on_port(p)));
        assert(b.filter(on_port(p)) == input.filter(on_port(p)));
    }
    if a.len() == 0 || b.len() == 0 {
        if a.len() > 0 {
            lemma_filter_has(a, a[0].port, 0);
            assert(b.filter(on_port(a[0].port)) =~= Seq::<PortProcessView>::empty()) by {
                reveal(Seq::filter);
            }
        } else if b.len() > 0 {
            lemma_filter_has(b, b[0].port, 0);
            assert(a.filter(on_port(b[0].port)) =~= Seq::<PortProcessView>::empty()) by {
                reveal(Seq::filter);
            }
        }
        assert(a =~= b);
    } else {
        let x = a.last();
        let y = b.last();
        if x.port < y.port {
            lemma_filter_has(b, y.port, b.len() - 1);
            let fa = a.filter(on_port(y.port));
            assert(fa.len() > 0);
            assert(fa[fa.len() - 1].port == y.port) by {
                a.lemma_filter_pred(on_port(y.port), fa.len() - 1);
            }
            assert(a.filter(on_port(y.port)).contains(fa[fa.len() - 1]));
            assert(false) by {
                broadcast use vstd::seq_lib::group_filter_ensures;

                let z = fa[fa.len() - 1];
                a.lemma_filter_contains_rev(on_port(y.port), z);
                assert(a.contains(z));
                let k = choose|k: int| 0 <= k < a.len() && a[k] == z;
                assert(a[k].port <= a[a.len() - 1].port);
            }
        } else if y.port < x.port {
            lemma_filter_has(a, x.port, a.len() - 1);
            let fb = b.filter(on_port(x.port));
            assert(fb.len() > 0);
            assert(fb[fb.len() - 1].port == x.port) by {
                b.lemma_filter_pred(on_port(x.port), fb.len() - 1);
            }
            assert(false) by {
                broadcast use vstd::seq_lib::group_filter_ensures;

                let z = fb[fb.len() - 1];
                assert(b.filter(on_port(x.port)).contains(z));
                b.lemma_filter_contains_rev(on_port(x.port), z);
                assert(b.contains(z));
                let k = choose|k: int| 0 <= k < b.len() && b[k] == z;
                assert(b[k].port <= b[b.len() - 1].port);
            }
        }
        let p = x.port;
        lemma_filter_last(a, p);
        lemma_filter_last(b, p);
        assert(a.filter(on_port(p)) == b.filter(on_port(p)));
        assert(a.filter(on_port(p)).last() == x);
        assert(b.filter(on_port(p)).last() == y);
        assert(x == y);
        let a1 = a.drop_last();
        let b1 = b.drop_last();
        let i1 = a1;
        assert forall|q: u16| #[trigger] a1.filter(on_port(q)) == b1.filter(on_port(q)) by {
            lemma_filter_last(a, q);
            lemma_filter_last(b, q);
            if q == p {
                assert(a1.filter(on_port(q)) =~= a.filter(on_port(q)).drop_last());
                assert(b1.filter(on_port(q)) =~= b.filter(on_port(q)).drop_last());
            }
        }
        assert(ports_ascending(a1));
        assert(ports_ascending(b1));
        assert(is_stable_port_order(a1, i1));
        assert(is_stable_port_order(b1, i1));
        law_stable_port_order_unique(a1, b1, i1);
        assert(a =~= b) by {
            assert(a == a1.push(x));
            assert(b == b1.push(y));
        }
    }
}


/// The scans of several listings, one after another.
pub open spec fn concatenated(parts: Seq<Seq<PortProcessView>>) -> Seq<PortProcessView>
    decreases parts.len(),
{
    if parts.len() == 0 {
        seq![]
    } else {
        concatenated(parts.drop_last()) + parts.last()
    }
}

proof fn lemma_single_listing(l: PortListing, t: Seq<ProcessRecord>)
    ensures
        found_processes(seq![l], t) == listing_processes(l, t),
        is_stable_port_order(listing_processes(l, t), listing_processes(l, t)),
{
    let one = seq![l];
    assert(one.drop_last() =~= Seq::<PortListing>::empty());
    assert(one.last() == l);
    assert(found_processes(one.drop_last(), t) =~= Seq::<PortProcessView>::empty());
    assert(found_processes(one, t) =~= listing_processes(l, t));
    let s = listing_processes(l, t);
    assert forall|i: int| 0 <= i < s.len() implies #[trigger] s[i].port == l.port by {
        match l.output {
            Some(o) => {},
            None => {},
        }
    }
}

proof fn lemma_concatenated_scans(
    ls: Seq<PortListing>,
    t: Seq<ProcessRecord>,
    parts: Seq<Seq<PortProcessView>>,
)
    requires
        parts.len() == ls.len(),
        forall|i: int| 0 <= i < ls.len() ==> #[trigger] parts[i] == listing_processes(ls[i], t),
    ensures
        concatenated(parts) == found_processes(ls, t),
    decreases ls.len(),
{
    if ls.len() > 0 {
        let ls1 = ls.drop_last();
        let parts1 = parts.drop_last();
        assert forall|i: int| 0 <= i < ls1.len() implies #[trigger] parts1[i] == listing_processes(
            ls1[i],
            t,
        ) by {
            assert(parts1[i] == parts[i]);
            assert(ls1[i] == ls[i]);
        }
        lemma_concatenated_scans(ls1, t, parts1);
        assert(parts.last() == parts[parts.len() - 1]);
    }
}

/// Scanning the watched ports one by one, joining what each scan found and
/// sorting the whole by port gives what one scan of all the ports gives.
pub proof fn law_per_port_scans_agree(
    ls: Seq<PortListing>,
    t: Seq<ProcessRecord>,
    parts: Seq<Seq<PortProcessView>>,
    joined_sorted: Seq<PortProcessView>,
    whole: Seq<PortProcessView>,
)
    requires
        parts.len() == ls.len(),
        forall|i: int|
            0 <= i < ls.len() ==> is_stable_port_order(
                #[trigger] parts[i],
                found_processes(seq![ls[i]], t),
            ),
        is_stable_port_order(joined_sorted, concatenated(parts)),
        is_stable_port_order(whole, found_processes(ls, t)),
    ensures
        joined_sorted == whole,
{
    assert forall|i: int| 0 <= i < ls.len() implies #[trigger] parts[i] == listing_processes(
        ls[i],
        t,
    ) by {
        lemma_single_listing(ls[i], t);
        law_stable_port_order_unique(
            parts[i],
            listing_processes(ls[i], t),
            listing_processes(ls[i], t),
        );
    }
    lemma_concatenated_scans(ls, t, parts);
    law_stable_port_order_unique(joined_sorted, whole, found_processes(ls, t));
}


proof fn lemma_first_node_modules(x: Seq<char>, rest: Seq<char>)
    requires
        !has_substring(x + "/node_modules"@, "/node_modules/"@),
    ensures
        first_occurrence(x + "/node_modules/"@ + rest, "/node_modules/"@) == Some(x.len() as int),
{
    let nm = "/node_modules/"@;
    let stem = "/node_modules"@;
    let cmd = x + nm + rest;
    let xs = x + stem;
    assert(nm.len() == 14 && stem.len() == 13 && stem =~= nm.take(13)) by {
        reveal_strlit("/node_modules/");
        reveal_strlit("/node_modules");
    }
    assert(cmd.subrange(x.len() as int, x.len() + 14int) =~= nm);
    assert(occurs_at(cmd, nm, x.len() as int));
    assert forall|k: int| 0 <= k < xs.len() implies xs[k] == cmd[k] by {
        if k >= x.len() {
            assert(xs[k] == stem[k - x.len()]);
            assert(cmd[k] == nm[k - x.len()]);
            assert(stem[k - x.len()] == nm.take(13)[k - x.len()]);
        }
    }
    assert forall|i: int| 0 <= i < x.len() implies !occurs_at(cmd, nm, i) by {
        assert(!occurs_at(xs, nm, i));
        if occurs_at(cmd, nm, i) {
            assert(xs.subrange(i, i + 14) =~= cmd.subrange(i, i + 14));
        }
    }
    assert(is_first_occurrence(cmd, nm, x.len() as int));
    lemma_first_occurrence_unique(cmd, nm, x.len() as int);
}

proof fn lemma_node_modules_project(x: Seq<char>, j: int, rest: Seq<char>)
    requires
        0 <= j < x.len(),
        x[j] == '/',
        forall|k: int| j < k < x.len() ==> x[k] != '/',
        x.skip(j + 1).len() > 0,
        x.skip(j + 1) != "bin"@,
        x.skip(j + 1) != "src"@,
        !has_substring(x + "/node_modules"@, "/node_modules/"@),
    ensures
        node_modules_project(x + "/node_modules/"@ + rest) == Some(x.skip(j + 1)),
{
    let cmd = x + "/node_modules/"@ + rest;
    lemma_first_node_modules(x, rest);
    assert(cmd.take(x.len() as int) =~= x);
    assert(is_last_index(x, '/', j));
    lemma_last_index_unique(x, '/', j);
}

/// The `node_modules` project is read at the leftmost `/node_modules/` of a
/// command line: when `cmd` is `x`, `/node_modules/` and anything at all, no
/// `/node_modules/` begins inside `x`, and the text of `x` after its last `/`
/// is not empty, `bin` or `src`, that text is the project, whatever follows.
pub proof fn law_node_modules_project(x: Seq<char>, j: int, rest: Seq<char>)
    requires
        0 <= j < x.len(),
        x[j] == '/',
        forall|k: int| j < k < x.len() ==> x[k] != '/',
        x.skip(j + 1).len() > 0,
        x.skip(j + 1) != "bin"@,
        x.skip(j + 1) != "src"@,
        !has_substring(x + "/node_modules"@, "/node_modules/"@),
    ensures
        project_of(x + "/node_modules/"@ + rest) == Some(x.skip(j + 1)),
{
    lemma_node_modules_project(x, j, rest);
}

/// A process whose lower-case name names none of the known services is
/// described by its port alone: the development ports by what usually runs on
/// them, 8000, 8080 and 8081 as an HTTP server, the database ports by their
/// database, 9229 as the Node.js debugger, any other port by its number.
pub proof fn law_described_by_port(port: u16, name: Seq<char>, cmd: Seq<char>)
    requires
        !has_substring(name, "controlce"@),
        !has_substring(name, "docker"@),
        !has_substring(name, "com.docke"@),
        name != "node"@,
        !has_substring(name, "python"@),
        !has_substring(name, "postgres"@),
        !has_substring(name, "mysql"@),
        !has_substring(name, "redis"@),
        !has_substring(name, "mongo"@),
    ensures
        3000 <= port <= 3003 ==> description_of(port, name, cmd) == "Frontend dev server"@,
        port == 4200 ==> description_of(port, name, cmd) == "Nx frontend"@,
        5000 <= port <= 5001 ==> description_of(port, name, cmd) == "Backend API"@,
        port == 5173 ==> description_of(port, name, cmd) == "Vite dev server"@,
        port == 8000 || port == 8080 || port == 8081 ==> description_of(port, name, cmd)
            == "HTTP server"@,
        port == 5432 ==> description_of(port, name, cmd) == "PostgreSQL"@,
        port == 3306 ==> description_of(port, name, cmd) == "MySQL"@,
        port == 6379 ==> description_of(port, name, cmd) == "Redis"@,
        port == 27017 ==> description_of(port, name, cmd) == "MongoDB"@,
        port == 9229 ==> description_of(port, name, cmd) == "Node.js debugger"@,
        !(3000 <= port <= 3003 || port == 4200 || 5000 <= port <= 5001 || port == 5173 || port
            == 8000 || port == 8080 || port == 8081 || port == 5432 || port == 3306 || port == 6379
            || port == 27017 || port == 9229) ==> description_of(port, name, cmd)
            == "Service on port "@ + decimal(port as nat),
{
    assert(!has_substring(name, "controlcenter"@)) by {
        reveal_strlit("controlce");
        reveal_strlit("controlcenter");
        if has_substring(name, "controlcenter"@) {
            let i = choose|i: int| occurs_at(name, "controlcenter"@, i);
            assert(name.subrange(i, i + 9) =~= "controlcenter"@.subrange(0, 9));
            assert("controlcenter"@.subrange(0, 9) =~= "controlce"@);
            assert(occurs_at(name, "controlce"@, i));
        }
    }
}

/// The emoji of a service follows its lower-case description: a dev server
/// that mentions vite, react or next gets the lightning; then Nx or Angular,
/// Node or an API, Python frameworks, each database, Docker, macOS, a
/// debugger, in that order; anything else the small diamond.
pub proof fn law_service_emoji(d: Seq<char>)
    ensures
        has_substring(d, "vite"@) || has_substring(d, "react"@) || has_substring(d, "next"@)
            ==> emoji_of(d) == "\u{26a1}"@,
        !(has_substring(d, "vite"@) || has_substring(d, "react"@) || has_substring(d, "next"@))
            ==> {
            &&& has_substring(d, "nx"@) || has_substring(d, "angular"@) ==> emoji_of(d)
                == "\u{1f537}"@
            &&& !(has_substring(d, "nx"@) || has_substring(d, "angular"@)) ==> {
                &&& has_substring(d, "node"@) || has_substring(d, "api"@) || has_substring(
                    d,
                    "express"@,
                ) ==> emoji_of(d) == "\u{1f7e2}"@
                &&& !(has_substring(d, "node"@) || has_substring(d, "api"@) || has_substring(
                    d,
                    "express"@,
                )) ==> {
                    &&& has_substring(d, "python"@) || has_substring(d, "flask"@)
                        || has_substring(d, "django"@) || has_substring(d, "fastapi"@)
                        ==> emoji_of(d) == "\u{1f40d}"@
                    &&& !(has_substring(d, "python"@) || has_substring(d, "flask"@)
                        || has_substring(d, "django"@) || has_substring(d, "fastapi"@)) ==> {
                        &&& has_substring(d, "postgres"@) ==> emoji_of(d) == "\u{1f418}"@
                        &&& !has_substring(d, "postgres"@) && has_substring(d, "mysql"@)
                            ==> emoji_of(d) == "\u{1f42c}"@
                        &&& !has_substring(d, "postgres"@) && !has_substring(d, "mysql"@)
                            && has_substring(d, "redis"@) ==> emoji_of(d) == "\u{1f534}"@
                        &&& !has_substring(d, "postgres"@) && !has_substring(d, "mysql"@)
                            && !has_substring(d, "redis"@) && has_substring(d, "mongo"@)
                            ==> emoji_of(d) == "\u{1f343}"@
                    }
                }
            }
        },
{
}

/// Replacing the process list keeps the selected row when it is still a row
/// and a process is left; with no process left nothing is selected; a
/// selection past the new rows moves to the first process row.
pub proof fn law_refresh_keeps_selection(old_sel: Option<usize>, n: nat, rows: Seq<RowView>)
    ensures
        old_sel is Some && old_sel->0 < rows.len() && n > 0 ==> refreshed_selection(
            old_sel,
            n,
            rows,
        ) == old_sel,
        n == 0 ==> refreshed_selection(old_sel, n, rows) is None,
        old_sel is None ==> refreshed_selection(old_sel, n, rows) is None,
        old_sel is Some && old_sel->0 >= rows.len() && n > 0 ==> refreshed_selection(old_sel, n, rows)
            == as_selection(first_process_from(rows, 0)),
{
}


/// What the process table holds as the full command line of `pid`.
spec fn table_command(t: Seq<ProcessRecord>, pid: i32) -> Seq<char> {
    match record_for(t, pid) {
        Some(r) => joined(texts(r.cmd@)),
        None => "Unknown"@,
    }
}

/// The two command lines of `v` are those the table holds for its process.
spec fn commands_from_table(v: PortProcessView, t: Seq<ProcessRecord>) -> bool {
    let full = table_command(t, v.pid);
    &&& v.command_full == full
    &&& v.command.len() <= 100
    &&& full.len() <= 100 ==> v.command == full
    &&& full.len() > 100 ==> v.command == full.take(97) + "..."@
    &&& v.ppid == match record_for(t, v.pid) {
        Some(r) => match r.parent {
            Some(p) => Some(p as i32),
            None => None,
        },
        None => None,
    }
    &&& v.description == description_of(v.port, lowercase(v.name), lowercase(full))
    &&& v.project == project_of(lowercase(full))
}

proof fn lemma_found_commands(ls: Seq<PortListing>, t: Seq<ProcessRecord>)
    ensures
        forall|k: int|
            0 <= k < found_processes(ls, t).len() ==> commands_from_table(
                #[trigger] found_processes(ls, t)[k],
                t,
            ),
    decreases ls.len(),
{
    reveal_strlit("...");
    reveal_strlit("Unknown");
    if ls.len() > 0 {
        lemma_found_commands(ls.drop_last(), t);
        let a = found_processes(ls.drop_last(), t);
        let b = listing_processes(ls.last(), t);
        assert forall|k: int| 0 <= k < b.len() implies commands_from_table(#[trigger] b[k], t) by {
            match ls.last().output {
                Some(o) => {},
                None => {},
            }
        }
        assert forall|k: int|
            0 <= k < found_processes(ls, t).len() implies commands_from_table(
            #[trigger] found_processes(ls, t)[k],
            t,
        ) by {
            if k < a.len() {
                assert(found_processes(ls, t)[k] == a[k]);
            } else {
                assert(found_processes(ls, t)[k] == b[k - a.len()]);
            }
        }
    }
}

/// Each process that a scan reports carries, as its full command line, the
/// parts of its command line in the process table joined by single spaces
/// (`Unknown` when the table holds no record of it), and as its command that
/// text cut to at most 100 characters: whole when it is that short, else its
/// first 97 characters and `...`. Its parent is the table's parent id, and its
/// description and project are read from the full command line, not the cut
/// one.
pub proof fn law_scan_commands(ls: Seq<PortListing>, t: Seq<ProcessRecord>, out: Seq<PortProcessView>)
    requires
        is_stable_port_order(out, found_processes(ls, t)),
    ensures
        forall|i: int|
            0 <= i < out.len() ==> {
                let full = match record_for(t, #[trigger] out[i].pid) {
                    Some(r) => joined(texts(r.cmd@)),
                    None => "Unknown"@,
                };
                &&& out[i].command_full == full
                &&& out[i].command.len() <= 100
                &&& full.len() <= 100 ==> out[i].command == full
                &&& full.len() > 100 ==> out[i].command == full.take(97) + "..."@
                &&& out[i].ppid == match record_for(t, out[i].pid) {
                    Some(r) => match r.parent {
                        Some(p) => Some(p as i32),
                        None => None,
                    },
                    None => None,
                }
                &&& out[i].description == description_of(out[i].port, lowercase(out[i].name), lowercase(full))
                &&& out[i].project == project_of(lowercase(full))
            },
{
    let found = found_processes(ls, t);
    lemma_found_commands(ls, t);
    assert forall|i: int| 0 <= i < out.len() implies commands_from_table(#[trigger] out[i], t) by {
        let p = out[i].port;
        out.lemma_filter_contains(on_port(p), i);
        assert(out.filter(on_port(p)) == found.filter(on_port(p)));
        found.lemma_filter_contains_rev(on_port(p), out[i]);
        let k = choose|k: int| 0 <= k < found.len() && found[k] == out[i];
        assert(commands_from_table(found[k], t));
    }
    assert forall|i: int| 0 <= i < out.len() implies {
        let full = match record_for(t, #[trigger] out[i].pid) {
            Some(r) => joined(texts(r.cmd@)),
            None => "Unknown"@,
        };
        &&& out[i].command_full == full
        &&& out[i].command.len() <= 100
        &&& full.len() <= 100 ==> out[i].command == full
        &&& full.len() > 100 ==> out[i].command == full.take(97) + "..."@
        &&& out[i].ppid == match record_for(t, out[i].pid) {
            Some(r) => match r.parent {
                Some(p) => Some(p as i32),
                None => None,
            },
            None => None,
        }
        &&& out[i].description == description_of(out[i].port, lowercase(out[i].name), lowercase(full))
        &&& out[i].project == project_of(lowercase(full))
    } by {
        assert(commands_from_table(out[i], t));
    }
}

proof fn lemma_no_longer_substring(h: Seq<char>, n: Seq<char>)
    requires
        n.len() > h.len(),
    ensures
        !has_substring(h, n),
{
}

/// A process is first described by its lower-case name: the macOS Control
/// Center; Docker, by the database its port belongs to; the named databases;
/// `node` and Python processes by what their lower-case command line runs,
/// with the project it names where one is known.
pub proof fn law_described_by_name(port: u16, name: Seq<char>, cmd: Seq<char>)
    ensures
        has_substring(name, "controlce"@) ==> description_of(port, name, cmd)
            == "macOS Control Center"@,
        !has_substring(name, "controlce"@) && !has_substring(name, "controlcenter"@) && (
        has_substring(name, "docker"@) || has_substring(name, "com.docke"@)) ==> description_of(
            port,
            name,
            cmd,
        ) == (if port == 5432 {
            "PostgreSQL (Docker)"@
        } else if port == 3306 {
            "MySQL (Docker)"@
        } else if port == 6379 {
            "Redis (Docker)"@
        } else if port == 27017 {
            "MongoDB (Docker)"@
        } else {
            "Docker service"@
        }),
        name == "node"@ && has_substring(cmd, "vite"@) ==> description_of(port, name, cmd) == (
        match project_of(cmd) {
            Some(p) => "Vite dev server ("@ + p + ")"@,
            None => "Vite dev server"@,
        }),
        name == "node"@ && !has_substring(cmd, "vite"@) && has_substring(cmd, "next"@)
            ==> description_of(port, name, cmd) == (match project_of(cmd) {
            Some(p) => "Next.js ("@ + p + ")"@,
            None => "Next.js dev server"@,
        }),
        name == "node"@ && !has_substring(cmd, "vite"@) && !has_substring(cmd, "next"@) && (
        has_substring(cmd, "nx serve"@) || has_substring(cmd, "nx run"@)) ==> description_of(
            port,
            name,
            cmd,
        ) == (match project_of(cmd) {
            Some(p) => "Nx dev server ("@ + p + ")"@,
            None => "Nx dev server"@,
        }),
        name == "node"@ && !has_substring(cmd, "vite"@) && !has_substring(cmd, "next"@)
            && !has_substring(cmd, "nx serve"@) && !has_substring(cmd, "nx run"@) ==> {
            &&& has_substring(cmd, "webpack"@) ==> description_of(port, name, cmd)
                == "Webpack dev server"@
            &&& !has_substring(cmd, "webpack"@) && (has_substring(cmd, "express"@)
                || has_substring(cmd, "fastify"@)) ==> description_of(port, name, cmd) == (
            match project_of(cmd) {
                Some(p) => "Node API ("@ + p + ")"@,
                None => "Node.js API server"@,
            })
            &&& !has_substring(cmd, "webpack"@) && !has_substring(cmd, "express"@)
                && !has_substring(cmd, "fastify"@) && has_substring(cmd, "react-scripts"@)
                ==> description_of(port, name, cmd) == "Create React App"@
            &&& !has_substring(cmd, "webpack"@) && !has_substring(cmd, "express"@)
                && !has_substring(cmd, "fastify"@) && !has_substring(cmd, "react-scripts"@)
                ==> description_of(port, name, cmd) == (match project_of(cmd) {
                Some(p) => "Node.js ("@ + p + ")"@,
                None => "Node.js app"@,
            })
        },
        !has_substring(name, "controlce"@) && !has_substring(name, "controlcenter"@)
            && !has_substring(name, "docker"@) && !has_substring(name, "com.docke"@) && name
            != "node"@ ==> {
            &&& has_substring(name, "python"@) ==> {
                &&& has_substring(cmd, "uvicorn"@) ==> description_of(port, name, cmd)
                    == "FastAPI/ASGI server"@
                &&& !has_substring(cmd, "uvicorn"@) && has_substring(cmd, "flask"@)
                    ==> description_of(port, name, cmd) == "Flask dev server"@
                &&& !has_substring(cmd, "uvicorn"@) && !has_substring(cmd, "flask"@)
                    && has_substring(cmd, "django"@) ==> description_of(port, name, cmd)
                    == "Django dev server"@
                &&& !has_substring(cmd, "uvicorn"@) && !has_substring(cmd, "flask"@)
                    && !has_substring(cmd, "django"@) ==> description_of(port, name, cmd) == (
                match project_of(cmd) {
                    Some(p) => "Python app ("@ + p + ")"@,
                    None => "Python app"@,
                })
            }
            &&& !has_substring(name, "python"@) ==> {
                &&& has_substring(name, "postgres"@) ==> description_of(port, name, cmd)
                    == "PostgreSQL"@
                &&& !has_substring(name, "postgres"@) && has_substring(name, "mysql"@)
                    ==> description_of(port, name, cmd) == "MySQL"@
                &&& !has_substring(name, "postgres"@) && !has_substring(name, "mysql"@)
                    && has_substring(name, "redis"@) ==> description_of(port, name, cmd)
                    == "Redis"@
                &&& !has_substring(name, "postgres"@) && !has_substring(name, "mysql"@)
                    && !has_substring(name, "redis"@) && has_substring(name, "mongo"@)
                    ==> description_of(port, name, cmd) == "MongoDB"@
            }
        },
{
    if name == "node"@ {
        reveal_strlit("node");
        reveal_strlit("controlce");
        reveal_strlit("controlcenter");
        reveal_strlit("docker");
        reveal_strlit("com.docke");
        lemma_no_longer_substring(name, "controlce"@);
        lemma_no_longer_substring(name, "controlcenter"@);
        lemma_no_longer_substring(name, "docker"@);
        lemma_no_longer_substring(name, "com.docke"@);
    }
}

/// The last tiers of the emoji choice: with none of the words of the earlier
/// tiers, Docker gets the whale, macOS or Control Center the apple, a
/// debugger the bug, and anything else the small diamond.
pub proof fn law_service_emoji_rest(d: Seq<char>)
    requires
        !has_substring(d, "vite"@),
        !has_substring(d, "react"@),
        !has_substring(d, "next"@),
        !has_substring(d, "nx"@),
        !has_substring(d, "angular"@),
        !has_substring(d, "node"@),
        !has_substring(d, "api"@),
        !has_substring(d, "express"@),
        !has_substring(d, "python"@),
        !has_substring(d, "flask"@),
        !has_substring(d, "django"@),
        !has_substring(d, "fastapi"@),
        !has_substring(d, "postgres"@),
        !has_substring(d, "mysql"@),
        !has_substring(d, "redis"@),
        !has_substring(d, "mongo"@),
    ensures
        has_substring(d, "docker"@) ==> emoji_of(d) == "\u{1f433}"@,
        !has_substring(d, "docker"@) && (has_substring(d, "macos"@) || has_substring(
            d,
            "control"@,
        )) ==> emoji_of(d) == "\u{1f34e}"@,
        !has_substring(d, "docker"@) && !has_substring(d, "macos"@) && !has_substring(
            d,
            "control"@,
        ) && has_substring(d, "debug"@) ==> emoji_of(d) == "\u{1f41b}"@,
        !has_substring(d, "docker"@) && !has_substring(d, "macos"@) && !has_substring(
            d,
            "control"@,
        ) && !has_substring(d, "debug"@) ==> emoji_of(d) == "\u{1f539}"@,
{
}

/// Ports are coloured by what usually listens on them: 3000 to 4200 green,
/// 5000 to 5173 yellow, the database ports magenta (but 3306, which lies in
/// the first range, green), all others white.
pub proof fn law_port_colors(port: u16)
    ensures
        3000 <= port <= 4200 ==> color_of(port) == PortColor::Green,
        5000 <= port <= 5173 ==> color_of(port) == PortColor::Yellow,
        port == 5432 || port == 6379 || port == 27017 ==> color_of(port) == PortColor::Magenta,
        !(3000 <= port <= 4200 || 5000 <= port <= 5173 || port == 5432 || port == 3306 || port
            == 6379 || port == 27017) ==> color_of(port) == PortColor::White,
{
}

/// The footer's command line fits the terminal: with `avail` the width less 20
/// columns, a command of at most `avail` characters is shown whole; a longer
/// one is shown as a beginning of it followed by `...`, in at most `avail`
/// characters (at most 3 when `avail` is smaller than that).
pub proof fn law_fitted_command(cmd: Seq<char>, width: u16)
    ensures
        ({
            let avail: int = if width >= 20 { width - 20 } else { 0 };
            let r = fitted_command(cmd, width);
            &&& cmd.len() <= avail ==> r == cmd
            &&& cmd.len() > avail ==> {
                &&& r.len() == (if avail >= 3 { avail } else { 3 })
                &&& r.take(r.len() - 3) == cmd.take(r.len() - 3)
                &&& r.skip(r.len() - 3) == "..."@
            }
        }),
{
    reveal_strlit("...");
    let avail: int = if width >= 20 { width - 20 } else { 0 };
    let r = fitted_command(cmd, width);
    if cmd.len() > avail {
        let k: int = if avail >= 3 { avail - 3 } else { 0 };
        assert(r == cmd.take(k) + "..."@);
        assert(r.take(k) =~= cmd.take(k));
        assert(r.skip(k) =~= "..."@);
    }
}


proof fn lemma_first_at(x: Seq<char>, pat: Seq<char>, tail: Seq<char>)
    requires
        pat.len() > 0,
        !has_substring(x + pat.drop_last(), pat),
    ensures
        first_occurrence(x + pat + tail, pat) == Some(x.len() as int),
{
    let cmd = x + pat + tail;
    let xs = x + pat.drop_last();
    assert(cmd.subrange(x.len() as int, (x.len() + pat.len()) as int) =~= pat);
    assert(occurs_at(cmd, pat, x.len() as int));
    assert forall|k: int| 0 <= k < xs.len() implies xs[k] == cmd[k] by {
        if k >= x.len() {
            assert(xs[k] == pat.drop_last()[k - x.len()]);
            assert(cmd[k] == pat[k - x.len()]);
        }
    }
    assert forall|i: int| 0 <= i < x.len() implies !occurs_at(cmd, pat, i) by {
        assert(!occurs_at(xs, pat, i));
        if occurs_at(cmd, pat, i) {
            assert(xs.subrange(i, i + pat.len()) =~= cmd.subrange(i, i + pat.len()));
        }
    }
    assert(is_first_occurrence(cmd, pat, x.len() as int));
    lemma_first_occurrence_unique(cmd, pat, x.len() as int);
}

proof fn lemma_split_without(s: Seq<char>, c: char)
    requires
        forall|k: int| 0 <= k < s.len() ==> s[k] != c,
    ensures
        split_char(s, c) == seq![s],
    decreases s.len(),
{
    if s.len() > 0 {
        lemma_split_without(s.drop_last(), c);
        assert(s.drop_last().push(s.last()) =~= s);
        assert(split_char(s, c) =~= seq![s]);
    } else {
        assert(s =~= Seq::<char>::empty());
    }
}

proof fn lemma_split_extend(a: Seq<char>, b: Seq<char>, c: char)
    requires
        forall|k: int| 0 <= k < b.len() ==> b[k] != c,
    ensures
        split_char(a + b, c) == split_char(a, c).update(
            split_char(a, c).len() - 1,
            split_char(a, c).last() + b,
        ),
    decreases b.len(),
{
    crate::text::lemma_split_char_nonempty(a, c);
    if b.len() == 0 {
        assert(a + b =~= a);
        assert(split_char(a, c).last() + b =~= split_char(a, c).last());
        assert(split_char(a, c).update(split_char(a, c).len() - 1, split_char(a, c).last() + b)
            =~= split_char(a, c));
    } else {
        let b1 = b.drop_last();
        lemma_split_extend(a, b1, c);
        assert((a + b).drop_last() =~= a + b1);
        assert((a + b).last() == b.last());
        let sa = split_char(a, c);
        let r1 = split_char(a + b1, c);
        assert(r1 == sa.update(sa.len() - 1, sa.last() + b1));
        assert(r1.len() == sa.len());
        assert(r1.last() == sa.last() + b1);
        assert(b.last() != c);
        assert(split_char(a + b, c) == r1.update(r1.len() - 1, r1.last().push(b.last())));
        assert((sa.last() + b1).push(b.last()) =~= sa.last() + b);
        assert(split_char(a + b, c) =~= sa.update(sa.len() - 1, sa.last() + b));
    }
}

/// Under a path marker such as `/projects/`, the project is the directory
/// that follows the marker: when `cmd` is `x`, the marker, a name that can
/// name a project, `/` and a last part without `/`, and the marker does not
/// begin inside `x`, the name is what the marker yields.
pub proof fn law_marker_project(x: Seq<char>, pat: Seq<char>, name: Seq<char>, rest: Seq<char>)
    requires
        pat.len() > 0,
        !has_substring(x + pat.drop_last(), pat),
        name.len() > 0,
        name != "bin"@,
        name != "src"@,
        name != "node_modules"@,
        forall|k: int| 0 <= k < name.len() ==> name[k] != '/',
        forall|k: int| 0 <= k < rest.len() ==> rest[k] != '/',
    ensures
        pattern_project(x + pat + (name + "/"@ + rest), pat) == Some(name),
{
    reveal_strlit("/");
    let tail = name + "/"@ + rest;
    lemma_first_at(x, pat, tail);
    assert((x + pat + tail).skip((x.len() + pat.len()) as int) =~= tail);
    lemma_split_without(name, '/');
    assert(name.push('/') =~= name + "/"@);
    assert(split_char(name + "/"@, '/') == seq![name].push(Seq::<char>::empty())) by {
        assert((name + "/"@).drop_last() =~= name);
        assert((name + "/"@).last() == '/');
    }
    lemma_split_extend(name + "/"@, rest, '/');
    let parts = split_char(tail, '/');
    assert(Seq::<char>::empty() + rest =~= rest);
    assert(parts =~= seq![name, rest]);
    assert(parts.drop_last() =~= seq![name]);
    assert(seq![name].drop_last() =~= Seq::<Seq<char>>::empty());
}

/// Without a `node_modules` project, the markers are tried in the order
/// `/sandbox/`, `/projects/`, `/work/`, `/dev/`, `/Users/`, and the last one
/// that yields a project wins.
pub proof fn law_marker_precedence(cmd: Seq<char>)
    requires
        !has_substring(cmd, "/node_modules/"@),
    ensures
        pattern_project(cmd, "/Users/"@) is Some ==> project_of(cmd) == pattern_project(
            cmd,
            "/Users/"@,
        ),
        pattern_project(cmd, "/Users/"@) is None && pattern_project(cmd, "/dev/"@) is Some
            ==> project_of(cmd) == pattern_project(cmd, "/dev/"@),
        pattern_project(cmd, "/Users/"@) is None && pattern_project(cmd, "/dev/"@) is None
            && pattern_project(cmd, "/work/"@) is Some ==> project_of(cmd) == pattern_project(
            cmd,
            "/work/"@,
        ),
        pattern_project(cmd, "/Users/"@) is None && pattern_project(cmd, "/dev/"@) is None
            && pattern_project(cmd, "/work/"@) is None && pattern_project(cmd, "/projects/"@) is Some
            ==> project_of(cmd) == pattern_project(cmd, "/projects/"@),
        pattern_project(cmd, "/Users/"@) is None && pattern_project(cmd, "/dev/"@) is None
            && pattern_project(cmd, "/work/"@) is None && pattern_project(cmd, "/projects/"@) is None
            ==> project_of(cmd) == pattern_project(cmd, "/sandbox/"@),
{
    assert(node_modules_project(cmd) is None);
}


proof fn lemma_words_one(s: Seq<char>)
    requires
        s.len() > 0,
        forall|k: int| 0 <= k < s.len() ==> !is_white_space(#[trigger] s[k]),
    ensures
        words(s) == seq![s],
    decreases s.len(),
{
    if s.len() == 1 {
        assert(s.drop_last() =~= Seq::<char>::empty());
        assert(words(s.drop_last()) == Seq::<Seq<char>>::empty());
        assert(s.last() == s[0]);
        assert(!is_white_space(s[0]));
        assert(seq![s.last()] =~= s);
        assert(words(s) == Seq::<Seq<char>>::empty().push(seq![s.last()]));
        assert(words(s) =~= seq![s]);
    } else {
        let s1 = s.drop_last();
        lemma_words_one(s1);
        assert(s[s.len() - 2] == s1[s1.len() - 1]);
        assert(s1.push(s.last()) =~= s);
        assert(words(s) =~= seq![s]);
    }
}

proof fn lemma_words_new_word(a: Seq<char>, w: Seq<char>)
    requires
        a.len() > 0,
        is_white_space(a.last()),
        w.len() > 0,
        forall|k: int| 0 <= k < w.len() ==> !is_white_space(#[trigger] w[k]),
    ensures
        words(a + w) == words(a).push(w),
    decreases w.len(),
{
    let s = a + w;
    if w.len() == 1 {
        assert(s.drop_last() =~= a);
        assert(s[s.len() - 2] == a.last());
        assert(seq![w[0]] =~= w);
    } else {
        let w1 = w.drop_last();
        lemma_words_new_word(a, w1);
        assert(s.drop_last() =~= a + w1);
        assert(s[s.len() - 2] == w1[w1.len() - 1]);
        assert(w1.push(w.last()) =~= w);
        assert(words(s) =~= words(a).push(w));
    }
}

proof fn lemma_words_keep_prefix(x: Seq<char>, t: Seq<char>)
    requires
        x.len() > 0,
        !is_white_space(x.last()),
        t.len() > 0,
        is_white_space(t[0]),
    ensures
        words(x + t).len() >= words(x).len(),
        words(x + t).take(words(x).len() as int) == words(x),
        !is_white_space((x + t).last()) ==> words(x + t).len() > words(x).len(),
    decreases t.len(),
{
    let s = x + t;
    let wx = words(x);
    if t.len() == 1 {
        assert(s.drop_last() =~= x);
        assert(s.last() == t[0]);
        assert(words(s) == wx);
        assert(wx.take(wx.len() as int) =~= wx);
    } else {
        let t1 = t.drop_last();
        assert(t1[0] == t[0]);
        lemma_words_keep_prefix(x, t1);
        assert(s.drop_last() =~= x + t1);
        let w1 = words(x + t1);
        assert(s[s.len() - 2] == (x + t1).last());
        if is_white_space(s.last()) {
        } else if !is_white_space(s[s.len() - 2]) {
            let w = w1.update(w1.len() - 1, w1.last().push(s.last()));
            assert(words(s) == w);
            assert(w.take(wx.len() as int) =~= w1.take(wx.len() as int));
        } else {
            let w = w1.push(seq![s.last()]);
            assert(words(s) == w);
            assert(w.take(wx.len() as int) =~= w1.take(wx.len() as int));
        }
    }
}

/// A line of a listing names the process by its first word and its process
/// id by its second: `name`, a space, a number and anything after further
/// white space give that name and that number.
pub proof fn law_listing_line(name: Seq<char>, id: Seq<char>, tail: Seq<char>)
    requires
        name.len() > 0,
        forall|k: int| 0 <= k < name.len() ==> !is_white_space(#[trigger] name[k]),
        id.len() > 0,
        forall|k: int| 0 <= k < id.len() ==> !is_white_space(#[trigger] id[k]),
        parse_i32(id) is Some,
        tail.len() > 0 ==> is_white_space(tail[0]),
    ensures
        listing_entry(name + " "@ + id + tail) == Some((name, parse_i32(id)->0)),
{
    reveal_strlit(" ");
    let a = name + " "@;
    let x = a + id;
    lemma_words_one(name);
    assert(a.drop_last() =~= name);
    assert(is_white_space(a.last()));
    assert(words(a) == words(name));
    lemma_words_new_word(a, id);
    assert(words(x) =~= seq![name, id]);
    if tail.len() > 0 {
        assert(x.last() == id.last());
        assert(!is_white_space(id[id.len() - 1]));
        lemma_words_keep_prefix(x, tail);
        let w = words(x + tail);
        assert(w.take(2) == seq![name, id]);
        assert(w[0] == w.take(2)[0] && w[1] == w.take(2)[1]);
    } else {
        assert(x + tail =~= x);
    }
}


/// A listing's first line is its header and names no process, whatever it
/// holds; a listing of a header and one line of a process gives that process.
pub proof fn law_listing_skips_header(
    header: Seq<char>,
    name: Seq<char>,
    id: Seq<char>,
    tail: Seq<char>,
)
    requires
        forall|k: int| 0 <= k < header.len() ==> header[k] != '\n',
        name.len() > 0,
        forall|k: int| 0 <= k < name.len() ==> !is_white_space(#[trigger] name[k]),
        id.len() > 0,
        forall|k: int| 0 <= k < id.len() ==> !is_white_space(#[trigger] id[k]),
        parse_i32(id) is Some,
        tail.len() > 0 ==> is_white_space(tail[0]),
        forall|k: int| 0 <= k < tail.len() ==> tail[k] != '\n',
        tail.len() > 0 ==> tail.last() != '\r',
    ensures
        entries_of(header + "\n"@ + (name + " "@ + id + tail) + "\n"@) == seq![
            (name, parse_i32(id)->0),
        ],
{
    reveal_strlit("\n");
    reveal_strlit(" ");
    let l = name + " "@ + id + tail;
    let out = header + "\n"@ + l + "\n"@;
    assert forall|k: int| 0 <= k < l.len() implies l[k] != '\n' by {
        if k < name.len() {
            assert(l[k] == name[k]);
            assert(!is_white_space(name[k]));
        } else if k == name.len() {
        } else if k < name.len() + 1 + id.len() {
            assert(l[k] == id[k - name.len() - 1]);
            assert(!is_white_space(id[k - name.len() - 1]));
        } else {
            assert(l[k] == tail[k - name.len() - 1 - id.len()]);
        }
    }
    assert(l.last() != '\r') by {
        if tail.len() == 0 {
            assert(l.last() == id[id.len() - 1]);
            assert(!is_white_space(id[id.len() - 1]));
        } else {
            assert(l.last() == tail.last());
        }
    }
    lemma_split_without(header, '\n');
    let h1 = header + "\n"@;
    assert(h1.drop_last() =~= header);
    assert(split_char(h1, '\n') =~= seq![header, Seq::<char>::empty()]);
    lemma_split_extend(h1, l, '\n');
    assert(Seq::<char>::empty() + l =~= l);
    assert(split_char(h1 + l, '\n') =~= seq![header, l]);
    let hl = h1 + l;
    assert((hl + "\n"@).drop_last() =~= hl);
    assert(out =~= hl + "\n"@);
    assert(split_char(out, '\n') =~= seq![header, l, Seq::<char>::empty()]);
    let ls = lines(out);
    assert(strip_cr(l) == l);
    assert(ls =~= seq![strip_cr(header), l]);
    law_listing_line(name, id, tail);
    let body = seq![l];
    assert(crate::process::without_header(ls) =~= body);
    assert(body.drop_last() =~= Seq::<Seq<char>>::empty());
    assert(body.last() == l);
    assert(listing_entry(l) == Some((name, parse_i32(id)->0)));
    assert(crate::process::listing_entries(body.drop_last()) == Seq::<(Seq<char>, i32)>::empty());
    assert(crate::process::listing_entries(body) == Seq::<(Seq<char>, i32)>::empty().push(
        (name, parse_i32(id)->0),
    ));
    assert(crate::process::listing_entries(body) =~= seq![(name, parse_i32(id)->0)]);
}

} // verus!
