use vstd::prelude::*;

use crate::text::{
    char_vec, find, first_occurrence, last_index_of, occurs_at,
    lemma_split_char_nonempty, piece, range_is, rfind_char, slice_vec, split_char, split_ranges, sub_text,
};

verus! {

broadcast use vstd::string::group_string_axioms;

/// The view of an optional owned text.
pub open spec fn opt_text(o: Option<String>) -> Option<Seq<char>> {
    match o {
        Some(s) => Some(s@),
        None => None,
    }
}

/// A path component that can name a project: not empty, and none of `bin`,
/// `src` or `node_modules`.
pub open spec fn qualifies(p: Seq<char>) -> bool {
    p.len() > 0 && p != "bin"@ && p != "src"@ && p != "node_modules"@
}

/// The last component of `parts` that can name a project.
pub open spec fn last_qualifying(parts: Seq<Seq<char>>) -> Option<Seq<char>>
    decreases parts.len(),
{
    if parts.len() == 0 {
        None
    } else if qualifies(parts.last()) {
        Some(parts.last())
    } else {
        last_qualifying(parts.drop_last())
    }
}

/// The project that `cmd` names under the path marker `pat`: after the first
/// occurrence of `pat`, the last component that is followed by a `/` and can
/// name a project.
pub open spec fn pattern_project(cmd: Seq<char>, pat: Seq<char>) -> Option<Seq<char>> {
    match first_occurrence(cmd, pat) {
        Some(i) => last_qualifying(split_char(cmd.skip(i + pat.len()), '/').drop_last()),
        None => None,
    }
}

/// The project that `cmd` names through `node_modules`: the directory just
/// before the first `/node_modules/`, unless it is empty, `bin` or `src`.
pub open spec fn node_modules_project(cmd: Seq<char>) -> Option<Seq<char>> {
    match first_occurrence(cmd, "/node_modules/"@) {
        Some(i) => match last_index_of(cmd.take(i), '/') {
            Some(j) => {
                let p = cmd.take(i).skip(j + 1);
                if p.len() > 0 && p != "bin"@ && p != "src"@ {
                    Some(p)
                } else {
                    None
                }
            },
            None => None,
        },
        None => None,
    }
}

/// `b` where it names something, else `a`.
pub open spec fn later(a: Option<Seq<char>>, b: Option<Seq<char>>) -> Option<Seq<char>> {
    if b is Some {
        b
    } else {
        a
    }
}

/// The project that a command line names: the one found through `node_modules`
/// if any; else the one found under the last of the markers `/sandbox/`,
/// `/projects/`, `/work/`, `/dev/`, `/Users/` (in that order) that names one.
pub open spec fn project_of(cmd: Seq<char>) -> Option<Seq<char>> {
    match node_modules_project(cmd) {
        Some(p) => Some(p),
        None => later(
            later(
                later(
                    later(pattern_project(cmd, "/sandbox/"@), pattern_project(cmd, "/projects/"@)),
                    pattern_project(cmd, "/work/"@),
                ),
                pattern_project(cmd, "/dev/"@),
            ),
            pattern_project(cmd, "/Users/"@),
        ),
    }
}

/// The project that the command line `cmd` names under the marker `pat`.
fn project_under(cmd: &str, cs: &Vec<char>, pat: &str) -> (r: Option<String>)
    requires
        cs@ == cmd@,
    ensures
        opt_text(r) == pattern_project(cmd@, pat@),
{
    let pv = char_vec(pat);
    let i = match find(cs, &pv) {
        Some(i) => i,
        None => {
            return None;
        },
    };
    let total = cs.len();
    assert(occurs_at(cs@, pv@, i as int));
    assert(i + pv.len() <= total);
    let start = i + pv.len();
    let tail = slice_vec(cs, start, total);
    assert(tail@ =~= cs@.skip(start as int));
    let ranges = split_ranges(&tail, '/');
    let ghost parts = split_char(tail@, '/');
    proof {
        lemma_split_char_nonempty(tail@, '/');
    }
    let mut best: Option<usize> = None;
    let mut k: usize = 0;
    let n = ranges.len();
    assert(parts.take(0) =~= Seq::<Seq<char>>::empty());
    while k + 1 < n
        invariant
            n == ranges@.len(),
            parts == split_char(tail@, '/'),
            ranges@.len() == parts.len() >= 1,
            k + 1 <= ranges@.len(),
            forall|j: int| #![trigger ranges@[j]] 0 <= j < ranges@.len() ==> ranges@[j].0 <= ranges@[j].1 <= tail@.len(),
            forall|j: int| 0 <= j < ranges@.len() ==> #[trigger] piece(tail@, ranges@[j]) == parts[j],
            match best {
                Some(j) => j < k && last_qualifying(parts.take(k as int)) == Some(parts[j as int]),
                None => last_qualifying(parts.take(k as int)) is None,
            },
        decreases n - k,
    {
        let (a, b) = ranges[k];
        assert(piece(tail@, ranges@[k as int]) == parts[k as int]);
        assert(parts.take(k + 1).drop_last() =~= parts.take(k as int));
        assert(parts.take(k + 1).last() == parts[k as int]);
        if a < b && !range_is(&tail, a, b, "bin") && !range_is(&tail, a, b, "src") && !range_is(
            &tail,
            a,
            b,
            "node_modules",
        ) {
            best = Some(k);
        }
        k = k + 1;
    }
    assert(parts.take(k as int) =~= parts.drop_last());
    match best {
        Some(j) => {
            let (a, b) = ranges[j];
            assert(piece(tail@, ranges@[j as int]) == parts[j as int]);
            assert(cs@.subrange(start + a, start + b) =~= tail@.subrange(a as int, b as int));
            Some(sub_text(cmd, start + a, start + b))
        },
        None => None,
    }
}

/// The project that a command line names, as a path component (see
/// `project_of`).
pub fn extract_project(cmd: &str) -> (r: Option<String>)
    ensures
        opt_text(r) == project_of(cmd@),
{
    let cs = char_vec(cmd);
    let nm = char_vec("/node_modules/");
    if let Some(i) = find(&cs, &nm) {
        if let Some(j) = rfind_char(&cs, '/', i) {
            proof {
                assert(cs@.take(i as int).skip(j + 1) =~= cs@.subrange(j + 1, i as int));
            }
            if j + 1 < i && !range_is(&cs, j + 1, i, "bin") && !range_is(&cs, j + 1, i, "src") {
                return Some(sub_text(cmd, j + 1, i));
            }
        }
    }
    let mut best: Option<String> = None;
    let found = project_under(cmd, &cs, "/sandbox/");
    if found.is_some() {
        best = found;
    }
    let found = project_under(cmd, &cs, "/projects/");
    if found.is_some() {
        best = found;
    }
    let found = project_under(cmd, &cs, "/work/");
    if found.is_some() {
        best = found;
    }
    let found = project_under(cmd, &cs, "/dev/");
    if found.is_some() {
        best = found;
    }
    let found = project_under(cmd, &cs, "/Users/");
    if found.is_some() {
        best = found;
    }
    best
}

} // verus!
