use vstd::prelude::*;

use crate::describe::{description_of, infer_description};
use crate::project::{extract_project, opt_text, project_of};
use crate::text::{
    char_vec, line_ranges, lines, lowercase, owned, parse_i32, parse_i32_range, piece, slice_vec,
    sub_text, to_lowercase, word_ranges, words,
};

verus! {

broadcast use vstd::string::group_string_axioms;

/// A process that listens on one of the watched ports.
#[derive(Debug)]
pub struct PortProcess {
    pub port: u16,
    pub pid: i32,
    pub ppid: Option<i32>,
    pub name: String,
    pub command: String,
    pub command_full: String,
    pub description: String,
    pub project: Option<String>,
}

/// A listening process, with its texts as character sequences.
pub struct PortProcessView {
    pub port: u16,
    pub pid: i32,
    pub ppid: Option<i32>,
    pub name: Seq<char>,
    pub command: Seq<char>,
    pub command_full: Seq<char>,
    pub description: Seq<char>,
    pub project: Option<Seq<char>>,
}

impl View for PortProcess {
    type V = PortProcessView;

    open spec fn view(&self) -> PortProcessView {
        PortProcessView {
            port: self.port,
            pid: self.pid,
            ppid: self.ppid,
            name: self.name@,
            command: self.command@,
            command_full: self.command_full@,
            description: self.description@,
            project: opt_text(self.project),
        }
    }
}

/// The views of a sequence of processes.
pub open spec fn views(ps: Seq<PortProcess>) -> Seq<PortProcessView> {
    ps.map_values(|p: PortProcess| p@)
}

/// What the process table holds of one process: its id, the parts of its
/// command line that are valid text, and its parent's id.
pub struct ProcessRecord {
    pub pid: i32,
    pub cmd: Vec<String>,
    pub parent: Option<u32>,
}

/// The first record of the table with the process id `pid`.
pub open spec fn record_for(t: Seq<ProcessRecord>, pid: i32) -> Option<ProcessRecord>
    decreases t.len(),
{
    if t.len() == 0 {
        None
    } else if t[0].pid == pid {
        Some(t[0])
    } else {
        record_for(t.drop_first(), pid)
    }
}

/// The texts of a sequence of strings.
pub open spec fn texts(v: Seq<String>) -> Seq<Seq<char>> {
    v.map_values(|s: String| s@)
}

/// The parts joined with single spaces.
pub open spec fn joined(parts: Seq<Seq<char>>) -> Seq<char>
    decreases parts.len(),
{
    if parts.len() == 0 {
        Seq::<char>::empty()
    } else if parts.len() == 1 {
        parts[0]
    } else {
        joined(parts.drop_last()) + " "@ + parts.last()
    }
}

/// A command line cut to at most 100 characters: one longer than that keeps its
/// first 97 characters, followed by `...`.
pub open spec fn shortened(full: Seq<char>) -> Seq<char> {
    if full.len() > 100 {
        full.take(97) + "..."@
    } else {
        full
    }
}

/// The parent's process id as a signed number (a `u32` read as `i32`).
pub open spec fn parent_pid(parent: Option<u32>) -> Option<i32> {
    match parent {
        Some(p) => Some(p as i32),
        None => None,
    }
}

/// The full command line, the shortened one and the parent's id that the
/// table holds for a process; `Unknown` twice when it holds nothing.
pub open spec fn info_of(rec: Option<ProcessRecord>) -> (Seq<char>, Seq<char>, Option<i32>) {
    match rec {
        Some(r) => (
            joined(texts(r.cmd@)),
            shortened(joined(texts(r.cmd@))),
            parent_pid(r.parent),
        ),
        None => ("Unknown"@, "Unknown"@, None),
    }
}

/// The position of the first record of the table with the process id `pid`.
fn lookup(t: &Vec<ProcessRecord>, pid: i32) -> (r: Option<usize>)
    ensures
        match r {
            Some(i) => i < t@.len() && record_for(t@, pid) == Some(t@[i as int]),
            None => record_for(t@, pid) is None,
        },
{
    let mut i: usize = 0;
    assert(t@.skip(0) =~= t@);
    while i < t.len()
        invariant
            i <= t@.len(),
            record_for(t@, pid) == record_for(t@.skip(i as int), pid),
        decreases t.len() - i,
    {
        assert(t@.skip(i as int)[0] == t@[i as int]);
        if t[i].pid == pid {
            return Some(i);
        }
        assert(t@.skip(i as int).drop_first() =~= t@.skip(i + 1));
        i = i + 1;
    }
    None
}

/// The command line parts joined with single spaces.
fn join_parts(parts: &Vec<String>) -> (r: String)
    ensures
        r@ == joined(texts(parts@)),
{
    let mut full = String::new();
    let mut k: usize = 0;
    let ghost ts = texts(parts@);
    assert(ts.take(0) =~= Seq::<Seq<char>>::empty());
    while k < parts.len()
        invariant
            k <= parts@.len(),
            ts == texts(parts@),
            ts.len() == parts@.len(),
            full@ == joined(ts.take(k as int)),
        decreases parts.len() - k,
    {
        assert(ts.take(k + 1).drop_last() =~= ts.take(k as int));
        assert(ts.take(k + 1).last() == parts@[k as int]@);
        if k > 0 {
            full.append(" ");
        } else {
            assert(full@ + parts@[k as int]@ =~= parts@[k as int]@);
        }
        full.append(parts[k].as_str());
        k = k + 1;
    }
    assert(ts.take(k as int) =~= ts);
    full
}

/// The full command line, the shortened command line and the parent's process
/// id that the process table `table` holds for `pid`.
pub fn get_process_info(table: &Vec<ProcessRecord>, pid: i32) -> (r: (String, String, Option<i32>))
    ensures
        (r.0@, r.1@, r.2) == info_of(record_for(table@, pid)),
{
    match lookup(table, pid) {
        Some(i) => {
            let rec = &table[i];
            let full = join_parts(&rec.cmd);
            let count = full.as_str().unicode_len();
            let command = if count > 100 {
                let mut c = sub_text(full.as_str(), 0, 97);
                c.append("...");
                c
            } else {
                full.clone()
            };
            let ppid = match rec.parent {
                Some(p) => Some(p as i32),
                None => None,
            };
            (full, command, ppid)
        },
        None => (owned("Unknown"), owned("Unknown"), None),
    }
}

/// The lines after the first, which is a header.
pub open spec fn without_header(ls: Seq<Seq<char>>) -> Seq<Seq<char>> {
    if ls.len() > 0 {
        ls.drop_first()
    } else {
        ls
    }
}

/// The process name and process id that a line of a listing names: its first
/// word and its second word read as a number, when there are two words and the
/// second is a number.
pub open spec fn listing_entry(line: Seq<char>) -> Option<(Seq<char>, i32)> {
    let w = words(line);
    if w.len() >= 2 {
        match parse_i32(w[1]) {
            Some(pid) => Some((w[0], pid)),
            None => None,
        }
    } else {
        None
    }
}

/// The entries that the lines name, in order.
pub open spec fn listing_entries(ls: Seq<Seq<char>>) -> Seq<(Seq<char>, i32)>
    decreases ls.len(),
{
    if ls.len() == 0 {
        seq![]
    } else {
        let e = listing_entries(ls.drop_last());
        match listing_entry(ls.last()) {
            Some(x) => e.push(x),
            None => e,
        }
    }
}

/// The entries of a listing of listening processes (the output of `lsof`):
/// after a header line, each line whose first word is a process name and whose
/// second is a process id.
pub open spec fn entries_of(out: Seq<char>) -> Seq<(Seq<char>, i32)> {
    listing_entries(without_header(lines(out)))
}

/// The views of a sequence of (name, id) pairs.
pub open spec fn entry_views(v: Seq<(String, i32)>) -> Seq<(Seq<char>, i32)> {
    v.map_values(|e: (String, i32)| (e.0@, e.1))
}

/// The process names and ids of a listing of listening processes.
pub fn parse_lsof_listing(out: &str) -> (r: Vec<(String, i32)>)
    ensures
        entry_views(r@) == entries_of(out@),
{
    let cv = char_vec(out);
    let lr = line_ranges(&cv);
    let ghost ls = lines(cv@);
    let mut r: Vec<(String, i32)> = Vec::new();
    if lr.len() == 0 {
        assert(entry_views(r@) =~= Seq::<(Seq<char>, i32)>::empty());
        return r;
    }
    let ghost body = without_header(ls);
    let mut k: usize = 1;
    assert(body.take(0) =~= Seq::<Seq<char>>::empty());
    assert(entry_views(r@) =~= Seq::<(Seq<char>, i32)>::empty());
    while k < lr.len()
        invariant
            1 <= k <= lr@.len(),
            cv@ == out@,
            ls == lines(cv@),
            body == without_header(ls),
            lr@.len() == ls.len(),
            forall|j: int| #![trigger lr@[j]] 0 <= j < lr@.len() ==> lr@[j].0 <= lr@[j].1 <= cv@.len(),
            forall|j: int| 0 <= j < lr@.len() ==> #[trigger] piece(cv@, lr@[j]) == ls[j],
            entry_views(r@) == listing_entries(body.take(k - 1)),
        decreases lr.len() - k,
    {
        let (a, b) = lr[k];
        assert(piece(cv@, lr@[k as int]) == ls[k as int]);
        let line = slice_vec(&cv, a, b);
        assert(body.take(k as int).drop_last() =~= body.take(k - 1));
        assert(body.take(k as int).last() == line@);
        let wr = word_ranges(&line);
        let ghost old_r = r@;
        if wr.len() >= 2 {
            let (wa, wb) = wr[1];
            assert(piece(line@, wr@[1]) == words(line@)[1]);
            match parse_i32_range(&line, wa, wb) {
                Some(pid) => {
                    let (na, nb) = wr[0];
                    assert(piece(line@, wr@[0]) == words(line@)[0]);
                    assert(cv@.subrange(a + na, a + nb) =~= line@.subrange(na as int, nb as int));
                    let name = sub_text(out, a + na, a + nb);
                    r.push((name, pid));
                    assert(entry_views(r@) =~= entry_views(old_r).push((name@, pid)));
                },
                None => {},
            }
        }
        k = k + 1;
    }
    assert(body.take(k - 1) =~= body);
    r
}

// ---------------------------------------------------------------------------
// Ordering by port
// ---------------------------------------------------------------------------

/// The processes come in ascending order of port.
pub open spec fn ports_ascending(s: Seq<PortProcessView>) -> bool {
    forall|i: int, j: int| 0 <= i <= j < s.len() ==> s[i].port <= s[j].port
}

/// The test "listens on port `p`".
pub open spec fn on_port(p: u16) -> spec_fn(PortProcessView) -> bool {
    |v: PortProcessView| v.port == p
}

/// `out` is `input` sorted by port, keeping the order of processes that share a
/// port (a stable sort by port).
pub open spec fn is_stable_port_order(out: Seq<PortProcessView>, input: Seq<PortProcessView>) -> bool {
    &&& ports_ascending(out)
    &&& forall|p: u16| #[trigger] out.filter(on_port(p)) == input.filter(on_port(p))
}

proof fn lemma_insert_in_order(
    r: Seq<PortProcessView>,
    k: int,
    x: PortProcessView,
    input: Seq<PortProcessView>,
)
    requires
        0 <= k <= r.len(),
        is_stable_port_order(r, input),
        forall|j: int| 0 <= j < k ==> r[j].port <= x.port,
        forall|j: int| k <= j < r.len() ==> r[j].port > x.port,
    ensures
        is_stable_port_order(r.insert(k, x), input.push(x)),
{
    broadcast use vstd::seq_lib::group_seq_properties;

    let n = r.insert(k, x);
    let a = r.take(k);
    let b = r.skip(k);
    assert(r =~= a + b);
    assert(n =~= a.push(x) + b);
    assert forall|p: u16| #[trigger] n.filter(on_port(p)) == input.push(x).filter(on_port(p)) by {
        Seq::filter_distributes_over_add(a, b, on_port(p));
        Seq::filter_distributes_over_add(a.push(x), b, on_port(p));
        a.lemma_filter_push(x, on_port(p));
        input.lemma_filter_push(x, on_port(p));
        assert(r.filter(on_port(p)) == input.filter(on_port(p)));
        if x.port == p {
            assert(b.all(|y: PortProcessView| !on_port(p)(y))) by {
                assert forall|j: int| 0 <= j < b.len() implies !on_port(p)(#[trigger] b[j]) by {
                    assert(b[j] == r[k + j]);
                }
            }
            b.lemma_all_neg_filter_empty(on_port(p));
            assert(b.filter(on_port(p)) =~= Seq::<PortProcessView>::empty());
            assert(a.filter(on_port(p)) + b.filter(on_port(p)) =~= a.filter(on_port(p)));
            assert(a.filter(on_port(p)).push(x) + b.filter(on_port(p)) =~= a.filter(on_port(p)).push(
                x,
            ));
        } else {
            assert(!on_port(p)(x));
        }
    }
    assert forall|i: int, j: int| 0 <= i <= j < n.len() implies n[i].port <= n[j].port by {
        if i < k && j > k {
            assert(n[i] == r[i]);
            assert(n[j] == r[j - 1]);
        } else if i < k && j < k {
            assert(n[i] == r[i]);
            assert(n[j] == r[j]);
        } else if i > k {
            assert(n[i] == r[i - 1]);
            assert(n[j] == r[j - 1]);
        } else if i == k && j > k {
            assert(n[j] == r[j - 1]);
        } else if i < k && j == k {
            assert(n[i] == r[i]);
        }
    }
}

/// The processes sorted by port; processes on one port keep their order.
pub fn sort_by_port(v: Vec<PortProcess>) -> (r: Vec<PortProcess>)
    ensures
        is_stable_port_order(views(r@), views(v@)),
{
    let ghost orig = views(v@);
    let mut rest = v;
    let mut r: Vec<PortProcess> = Vec::new();
    let ghost mut i: int = 0;
    proof {
        assert(orig.take(0) =~= Seq::<PortProcessView>::empty());
        assert(views(r@) =~= Seq::<PortProcessView>::empty());
        assert(views(rest@) =~= orig.skip(0));
    }
    while rest.len() > 0
        invariant
            0 <= i <= orig.len(),
            views(rest@) == orig.skip(i),
            is_stable_port_order(views(r@), orig.take(i)),
        decreases rest.len(),
    {
        let ghost old_rest = rest@;
        let x = rest.remove(0);
        proof {
            assert(views(old_rest).len() == old_rest.len());
            assert(orig.skip(i).len() == orig.len() - i);
            assert(views(old_rest)[0] == old_rest[0]@);
            assert(orig.skip(i)[0] == orig[i]);
            assert(x@ == orig[i]);
            assert(rest@ =~= old_rest.drop_first());
            assert forall|j: int| 0 <= j < views(rest@).len() implies views(rest@)[j] == orig.skip(
                i + 1,
            )[j] by {
                assert(views(rest@)[j] == rest@[j]@);
                assert(rest@[j] == old_rest[j + 1]);
                assert(views(old_rest)[j + 1] == old_rest[j + 1]@);
                assert(orig.skip(i)[j + 1] == orig[i + j + 1]);
            }
            assert(views(rest@) =~= orig.skip(i + 1));
            assert(orig.take(i + 1) =~= orig.take(i).push(x@));
        }
        let mut k: usize = 0;
        while k < r.len() && r[k].port <= x.port
            invariant
                k <= r@.len(),
                ports_ascending(views(r@)),
                forall|j: int| 0 <= j < k ==> views(r@)[j].port <= x.port,
            decreases r.len() - k,
        {
            k = k + 1;
        }
        proof {
            let rv = views(r@);
            assert forall|j: int| k <= j < rv.len() implies rv[j].port > x.port by {
                assert(rv[k as int].port > x.port);
                assert(rv[k as int].port <= rv[j].port);
            }
            lemma_insert_in_order(rv, k as int, x@, orig.take(i));
        }
        let ghost before = r@;
        r.insert(k, x);
        proof {
            assert(views(r@) =~= views(before).insert(k as int, x@));
            i = i + 1;
        }
    }
    proof {
        assert(orig.skip(i).len() == 0);
        assert(orig.take(i) =~= orig);
    }
    r
}

// ---------------------------------------------------------------------------
// Scanning the watched ports
// ---------------------------------------------------------------------------

/// What was learned of one watched port: its number, and the listing of the
/// processes that listen on it when the listing could be made.
pub struct PortListing {
    pub port: u16,
    pub output: Option<String>,
}

/// The process that a listing entry names on `port`, with what the table holds
/// of it and what its command line tells.
pub open spec fn listener_view(port: u16, name: Seq<char>, pid: i32, t: Seq<ProcessRecord>) -> PortProcessView {
    let info = info_of(record_for(t, pid));
    PortProcessView {
        port: port,
        pid: pid,
        ppid: info.2,
        name: name,
        command: info.1,
        command_full: info.0,
        description: description_of(port, lowercase(name), lowercase(info.0)),
        project: project_of(lowercase(info.0)),
    }
}

/// The processes that one listing names.
pub open spec fn listing_processes(l: PortListing, t: Seq<ProcessRecord>) -> Seq<PortProcessView> {
    match l.output {
        Some(o) => entries_of(o@).map_values(
            |e: (Seq<char>, i32)| listener_view(l.port, e.0, e.1, t),
        ),
        None => seq![],
    }
}

/// The processes that the listings name, port after port.
pub open spec fn found_processes(ls: Seq<PortListing>, t: Seq<ProcessRecord>) -> Seq<PortProcessView>
    decreases ls.len(),
{
    if ls.len() == 0 {
        seq![]
    } else {
        found_processes(ls.drop_last(), t) + listing_processes(ls.last(), t)
    }
}

/// The process that a listing entry names on `port`.
fn listener(port: u16, name: String, pid: i32, table: &Vec<ProcessRecord>) -> (r: PortProcess)
    ensures
        r@ == listener_view(port, name@, pid, table@),
{
    let (command_full, command, ppid) = get_process_info(table, pid);
    let description = infer_description(port, name.as_str(), command_full.as_str());
    let lower = to_lowercase(command_full.as_str());
    let project = extract_project(lower.as_str());
    PortProcess { port, pid, ppid, name, command, command_full, description, project }
}

/// The processes listening on the watched ports, sorted by port, from the
/// listings made for each port and the process table.
pub fn scan_ports(listings: &Vec<PortListing>, table: &Vec<ProcessRecord>) -> (r: Vec<PortProcess>)
    ensures
        is_stable_port_order(views(r@), found_processes(listings@, table@)),
{
    let mut results: Vec<PortProcess> = Vec::new();
    let mut i: usize = 0;
    assert(listings@.take(0) =~= Seq::<PortListing>::empty());
    assert(views(results@) =~= Seq::<PortProcessView>::empty());
    while i < listings.len()
        invariant
            i <= listings@.len(),
            views(results@) == found_processes(listings@.take(i as int), table@),
        decreases listings.len() - i,
    {
        let l = &listings[i];
        let ghost prefix = views(results@);
        assert(listings@.take(i + 1).drop_last() =~= listings@.take(i as int));
        assert(listings@.take(i + 1).last() == *l);
        match &l.output {
            Some(o) => {
                let entries = parse_lsof_listing(o.as_str());
                let ghost ev = entries_of(o@);
                let ghost mapped = ev.map_values(
                    |e: (Seq<char>, i32)| listener_view(l.port, e.0, e.1, table@),
                );
                let mut j: usize = 0;
                assert(mapped.take(0) =~= Seq::<PortProcessView>::empty());
                assert(prefix + mapped.take(0) =~= prefix);
                while j < entries.len()
                    invariant
                        j <= entries@.len(),
                        entry_views(entries@) == ev,
                        ev.len() == entries@.len(),
                        mapped == ev.map_values(
                            |e: (Seq<char>, i32)| listener_view(l.port, e.0, e.1, table@),
                        ),
                        views(results@) == prefix + mapped.take(j as int),
                    decreases entries.len() - j,
                {
                    let name = entries[j].0.clone();
                    let pid = entries[j].1;
                    assert(ev[j as int] == (entries@[j as int].0@, entries@[j as int].1));
                    let p = listener(l.port, name, pid, table);
                    let ghost old_results = results@;
                    results.push(p);
                    assert(mapped.take(j + 1) =~= mapped.take(j as int).push(mapped[j as int]));
                    assert(views(results@) =~= views(old_results).push(p@));
                    j = j + 1;
                }
                assert(mapped.take(j as int) =~= mapped);
            },
            None => {
                assert(prefix + Seq::<PortProcessView>::empty() =~= prefix);
            },
        }
        i = i + 1;
    }
    assert(listings@.take(i as int) =~= listings@);
    sort_by_port(results)
}

} // verus!
