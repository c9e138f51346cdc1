use vstd::prelude::*;

verus! {

broadcast use vstd::string::group_string_axioms;

// ---------------------------------------------------------------------------
// Searching
// ---------------------------------------------------------------------------

/// `n` occurs in `h` starting at position `i`.
pub open spec fn occurs_at(h: Seq<char>, n: Seq<char>, i: int) -> bool {
    0 <= i && i + n.len() <= h.len() && h.subrange(i, i + n.len()) == n
}

/// `n` occurs somewhere in `h` (what `str::contains` answers).
pub open spec fn has_substring(h: Seq<char>, n: Seq<char>) -> bool {
    exists|i: int| occurs_at(h, n, i)
}

/// `i` is the leftmost position at which `n` occurs in `h`.
pub open spec fn is_first_occurrence(h: Seq<char>, n: Seq<char>, i: int) -> bool {
    occurs_at(h, n, i) && forall|j: int| 0 <= j < i ==> !occurs_at(h, n, j)
}

/// The leftmost position at which `n` occurs in `h` (what `str::find` answers,
/// counted in characters).
pub open spec fn first_occurrence(h: Seq<char>, n: Seq<char>) -> Option<int> {
    if has_substring(h, n) {
        Some(choose|i: int| is_first_occurrence(h, n, i))
    } else {
        None
    }
}

/// `i` is the rightmost position of the character `c` in `s`.
pub open spec fn is_last_index(s: Seq<char>, c: char, i: int) -> bool {
    0 <= i < s.len() && s[i] == c && forall|j: int| i < j < s.len() ==> s[j] != c
}

/// The rightmost position of `c` in `s` (what `str::rfind` answers for a
/// character, counted in characters).
pub open spec fn last_index_of(s: Seq<char>, c: char) -> Option<int> {
    if exists|i: int| 0 <= i < s.len() && s[i] == c {
        Some(choose|i: int| is_last_index(s, c, i))
    } else {
        None
    }
}

/// The leftmost occurrence is the one that `first_occurrence` names.
pub proof fn lemma_first_occurrence_unique(h: Seq<char>, n: Seq<char>, k: int)
    requires
        is_first_occurrence(h, n, k),
    ensures
        first_occurrence(h, n) == Some(k),
{
    assert(has_substring(h, n));
    let c = choose|i: int| is_first_occurrence(h, n, i);
    assert(is_first_occurrence(h, n, c));
    if c < k {
        assert(!occurs_at(h, n, c));
    } else if k < c {
        assert(!occurs_at(h, n, k));
    }
}

/// The rightmost position of a character is the one that `last_index_of` names.
pub proof fn lemma_last_index_unique(s: Seq<char>, c: char, k: int)
    requires
        is_last_index(s, c, k),
    ensures
        last_index_of(s, c) == Some(k),
{
    assert(s[k] == c);
    let w = choose|i: int| is_last_index(s, c, i);
    assert(is_last_index(s, c, w));
}

/// Whether `n` occurs in `h` at position `i`.
pub fn matches_at(h: &Vec<char>, n: &Vec<char>, i: usize) -> (r: bool)
    ensures
        r == occurs_at(h@, n@, i as int),
{
    if i > h.len() || n.len() > h.len() - i {
        return false;
    }
    let mut j: usize = 0;
    while j < n.len()
        invariant
            i + n.len() <= h.len(),
            j <= n.len(),
            forall|k: int| 0 <= k < j ==> h@[i + k] == n@[k],
        decreases n.len() - j,
    {
        if h[i + j] != n[j] {
            assert(h@.subrange(i as int, i + n.len())[j as int] != n@[j as int]);
            return false;
        }
        j = j + 1;
    }
    assert(h@.subrange(i as int, i + n.len()) =~= n@);
    true
}

/// The leftmost position at which `n` occurs in `h`.
pub fn find(h: &Vec<char>, n: &Vec<char>) -> (r: Option<usize>)
    ensures
        match r {
            Some(k) => first_occurrence(h@, n@) == Some(k as int) && is_first_occurrence(
                h@,
                n@,
                k as int,
            ),
            None => first_occurrence(h@, n@) is None,
        },
{
    let mut i: usize = 0;
    while i <= h.len()
        invariant
            i <= h.len() + 1,
            forall|j: int| 0 <= j < i ==> !occurs_at(h@, n@, j),
        decreases h.len() + 1 - i,
    {
        if matches_at(h, n, i) {
            proof {
                lemma_first_occurrence_unique(h@, n@, i as int);
            }
            return Some(i);
        }
        if i == h.len() {
            assert forall|j: int| !occurs_at(h@, n@, j) by {
                if 0 <= j && j <= h@.len() {
                }
            }
            return None;
        }
        i = i + 1;
    }
    None
}

/// Whether the characters between `a` and `b` of `v` are exactly the text `w`.
pub fn range_is(v: &Vec<char>, a: usize, b: usize, w: &str) -> (r: bool)
    requires
        a <= b <= v@.len(),
    ensures
        r == (v@.subrange(a as int, b as int) == w@),
{
    let wv = char_vec(w);
    if b - a != wv.len() {
        assert(v@.subrange(a as int, b as int).len() != w@.len());
        return false;
    }
    matches_at(v, &wv, a)
}

/// Whether the characters of `v` are exactly the text `w`.
pub fn text_is(v: &Vec<char>, w: &str) -> (r: bool)
    ensures
        r == (v@ == w@),
{
    let n = v.len();
    assert(v@.subrange(0, n as int) =~= v@);
    range_is(v, 0, n, w)
}

/// Whether `n` occurs anywhere in `h`.
pub fn contains(h: &Vec<char>, n: &Vec<char>) -> (r: bool)
    ensures
        r == has_substring(h@, n@),
{
    match find(h, n) {
        Some(_) => true,
        None => false,
    }
}

/// Whether the text `n` occurs anywhere in the text `h`.
pub fn str_contains(h: &Vec<char>, n: &str) -> (r: bool)
    ensures
        r == has_substring(h@, n@),
{
    let nv = char_vec(n);
    contains(h, &nv)
}

/// The rightmost position of `c` among the first `end` characters of `v`.
pub fn rfind_char(v: &Vec<char>, c: char, end: usize) -> (r: Option<usize>)
    requires
        end <= v.len(),
    ensures
        match r {
            Some(k) => last_index_of(v@.take(end as int), c) == Some(k as int) && is_last_index(
                v@.take(end as int),
                c,
                k as int,
            ),
            None => last_index_of(v@.take(end as int), c) is None,
        },
{
    let ghost s = v@.take(end as int);
    let mut i: usize = end;
    while i > 0
        invariant
            i <= end <= v.len(),
            s == v@.take(end as int),
            forall|j: int| i <= j < end ==> s[j] != c,
        decreases i,
    {
        i = i - 1;
        if v[i] == c {
            proof {
                lemma_last_index_unique(s, c, i as int);
            }
            return Some(i);
        }
    }
    None
}

// ---------------------------------------------------------------------------
// Splitting
// ---------------------------------------------------------------------------

/// The pieces of `s` between occurrences of `c` (what `str::split` with a
/// character yields): appending `c` starts a new, empty piece, and appending any
/// other character extends the last piece.
pub open spec fn split_char(s: Seq<char>, c: char) -> Seq<Seq<char>>
    decreases s.len(),
{
    if s.len() == 0 {
        seq![Seq::<char>::empty()]
    } else {
        let rest = split_char(s.drop_last(), c);
        if s.last() == c {
            rest.push(Seq::<char>::empty())
        } else {
            rest.update(rest.len() - 1, rest.last().push(s.last()))
        }
    }
}

/// Splitting always yields at least one piece.
pub proof fn lemma_split_char_nonempty(s: Seq<char>, c: char)
    ensures
        split_char(s, c).len() >= 1,
    decreases s.len(),
{
    if s.len() > 0 {
        lemma_split_char_nonempty(s.drop_last(), c);
    }
}

/// The text that a range of positions covers.
pub open spec fn piece(s: Seq<char>, r: (usize, usize)) -> Seq<char> {
    s.subrange(r.0 as int, r.1 as int)
}

/// The ranges of `v` between occurrences of `c`, one per piece of `split_char`.
pub fn split_ranges(v: &Vec<char>, c: char) -> (r: Vec<(usize, usize)>)
    ensures
        r@.len() == split_char(v@, c).len(),
        forall|k: int| #![trigger r@[k]] 0 <= k < r@.len() ==> r@[k].0 <= r@[k].1 <= v@.len(),
        forall|k: int| 0 <= k < r@.len() ==> #[trigger] piece(v@, r@[k]) == split_char(v@, c)[k],
{
    let mut ranges: Vec<(usize, usize)> = Vec::new();
    let mut start: usize = 0;
    let mut i: usize = 0;
    proof {
        assert(v@.take(0) =~= Seq::<char>::empty());
        assert(v@.subrange(0, 0) =~= Seq::<char>::empty());
    }
    while i < v.len()
        invariant
            start <= i <= v.len(),
            ranges@.len() + 1 == split_char(v@.take(i as int), c).len(),
            forall|k: int| #![trigger ranges@[k]] 0 <= k < ranges@.len() ==> ranges@[k].0 <= ranges@[k].1 <= v@.len(),
            forall|k: int|
                0 <= k < ranges@.len() ==> #[trigger] piece(v@, ranges@[k]) == split_char(
                    v@.take(i as int),
                    c,
                )[k],
            split_char(v@.take(i as int), c).last() == v@.subrange(start as int, i as int),
        decreases v.len() - i,
    {
        let ghost before = split_char(v@.take(i as int), c);
        let ghost old_ranges = ranges@;
        let ghost old_start = start;
        let ghost old_i = i;
        proof {
            lemma_split_char_nonempty(v@.take(i as int), c);
            assert(v@.take(i + 1).drop_last() =~= v@.take(i as int));
            assert(v@.take(i + 1).last() == v@[i as int]);
        }
        if v[i] == c {
            ranges.push((start, i));
            start = i + 1;
            proof {
                assert(v@.subrange(start as int, i + 1) =~= Seq::<char>::empty());
            }
        } else {
            proof {
                assert(v@.subrange(start as int, i + 1) =~= v@.subrange(start as int, i as int).push(
                    v@[i as int],
                ));
            }
        }
        i = i + 1;
        proof {
            let after = split_char(v@.take(i as int), c);
            assert forall|k: int| 0 <= k < ranges@.len() implies #[trigger] piece(v@, ranges@[k])
                == after[k] by {
                assert(v@.take(i as int).drop_last() =~= v@.take(old_i as int));
                if k < old_ranges.len() {
                    assert(ranges@[k] == old_ranges[k]);
                    assert(piece(v@, old_ranges[k]) == before[k]);
                    assert(after[k] == before[k]);
                } else {
                    assert(ranges@[k] == (old_start, old_i));
                    assert(after[k] == before[k]);
                }
            }
        }
    }
    proof {
        lemma_split_char_nonempty(v@, c);
        assert(v@.take(v@.len() as int) =~= v@);
    }
    let ghost old_ranges = ranges@;
    ranges.push((start, i));
    proof {
        assert forall|k: int| 0 <= k < ranges@.len() implies #[trigger] piece(v@, ranges@[k])
            == split_char(v@, c)[k] by {
            if k < old_ranges.len() {
                assert(ranges@[k] == old_ranges[k]);
                assert(piece(v@, old_ranges[k]) == split_char(v@.take(i as int), c)[k]);
            }
        }
    }
    ranges
}

// ---------------------------------------------------------------------------
// Lines and words
// ---------------------------------------------------------------------------

/// A line without the carriage return of a `\r\n` ending.
pub open spec fn strip_cr(l: Seq<char>) -> Seq<char> {
    if l.len() > 0 && l.last() == '\r' {
        l.drop_last()
    } else {
        l
    }
}

/// The lines of `s` (what `str::lines` yields): the pieces between newlines,
/// where a line that a newline ends loses a carriage return before it, and a
/// final newline starts no further line.
pub open spec fn lines(s: Seq<char>) -> Seq<Seq<char>> {
    let p = split_char(s, '\n');
    if p.last().len() == 0 {
        ended_lines(p)
    } else {
        ended_lines(p).push(p.last())
    }
}

/// All pieces but the last, each without a carriage return at its end.
pub open spec fn ended_lines(p: Seq<Seq<char>>) -> Seq<Seq<char>> {
    p.drop_last().map_values(|l: Seq<char>| strip_cr(l))
}

/// The ranges of `v` that `lines` yields.
pub fn line_ranges(v: &Vec<char>) -> (r: Vec<(usize, usize)>)
    ensures
        r@.len() == lines(v@).len(),
        forall|k: int| #![trigger r@[k]] 0 <= k < r@.len() ==> r@[k].0 <= r@[k].1 <= v@.len(),
        forall|k: int| 0 <= k < r@.len() ==> #[trigger] piece(v@, r@[k]) == lines(v@)[k],
{
    let pieces = split_ranges(v, '\n');
    let ghost p = split_char(v@, '\n');
    let ghost ended = ended_lines(p);
    let mut r: Vec<(usize, usize)> = Vec::new();
    let n = pieces.len();
    let mut k: usize = 0;
    proof {
        lemma_split_char_nonempty(v@, '\n');
    }
    while k + 1 < n
        invariant
            n == pieces@.len() == p.len() >= 1,
            p == split_char(v@, '\n'),
            ended == ended_lines(p),
            k + 1 <= n,
            r@.len() == k,
            forall|j: int| #![trigger pieces@[j]] 0 <= j < pieces@.len() ==> pieces@[j].0 <= pieces@[j].1 <= v@.len(),
            forall|j: int| 0 <= j < pieces@.len() ==> #[trigger] piece(v@, pieces@[j]) == p[j],
            forall|j: int| #![trigger r@[j]] 0 <= j < r@.len() ==> r@[j].0 <= r@[j].1 <= v@.len(),
            forall|j: int| 0 <= j < r@.len() ==> #[trigger] piece(v@, r@[j]) == ended[j],
        decreases n - k,
    {
        let (a, b) = pieces[k];
        assert(piece(v@, pieces@[k as int]) == p[k as int]);
        let ghost old_r = r@;
        assert(p.drop_last()[k as int] == p[k as int]);
        assert(ended[k as int] == strip_cr(p[k as int]));
        if a < b && v[b - 1] == '\r' {
            assert(v@.subrange(a as int, b - 1) =~= v@.subrange(a as int, b as int).drop_last());
            r.push((a, b - 1));
        } else {
            r.push((a, b));
        }
        assert(piece(v@, r@[k as int]) == ended[k as int]);
        assert forall|j: int| 0 <= j < r@.len() implies #[trigger] piece(v@, r@[j]) == ended[j] by {
            if j < old_r.len() {
                assert(r@[j] == old_r[j]);
                assert(piece(v@, old_r[j]) == ended[j]);
            }
        }
        k = k + 1;
    }
    let (a, b) = pieces[n - 1];
    assert(piece(v@, pieces@[n - 1]) == p[n - 1]);
    if a < b {
        let ghost old_r = r@;
        r.push((a, b));
        assert forall|j: int| 0 <= j < r@.len() implies #[trigger] piece(v@, r@[j]) == lines(v@)[j] by {
            if j < old_r.len() {
                assert(r@[j] == old_r[j]);
            }
        }
    } else {
        assert(r@.len() == ended.len());
    }
    r
}

/// `c` has the Unicode White_Space property (what `char::is_whitespace` answers).
pub open spec fn is_white_space(c: char) -> bool {
    let u = c as u32;
    ||| 0x9 <= u <= 0xD
    ||| u == 0x20
    ||| u == 0x85
    ||| u == 0xA0
    ||| u == 0x1680
    ||| 0x2000 <= u <= 0x200A
    ||| u == 0x2028
    ||| u == 0x2029
    ||| u == 0x202F
    ||| u == 0x205F
    ||| u == 0x3000
}

/// Whether `c` is white space.
pub fn white_space(c: char) -> (r: bool)
    ensures
        r == is_white_space(c),
{
    let u: u32 = c as u32;
    (0x9 <= u && u <= 0xD) || u == 0x20 || u == 0x85 || u == 0xA0 || u == 0x1680 || (0x2000 <= u
        && u <= 0x200A) || u == 0x2028 || u == 0x2029 || u == 0x202F || u == 0x205F || u == 0x3000
}

/// The words of `s` (what `str::split_whitespace` yields): the longest runs of
/// characters that are not white space, in order.
pub open spec fn words(s: Seq<char>) -> Seq<Seq<char>>
    decreases s.len(),
{
    if s.len() == 0 {
        seq![]
    } else {
        let w = words(s.drop_last());
        let c = s.last();
        if is_white_space(c) {
            w
        } else if s.len() >= 2 && !is_white_space(s[s.len() - 2]) {
            w.update(w.len() - 1, w.last().push(c))
        } else {
            w.push(seq![c])
        }
    }
}

/// The ranges of the words of `v`.
pub fn word_ranges(v: &Vec<char>) -> (r: Vec<(usize, usize)>)
    ensures
        r@.len() == words(v@).len(),
        forall|k: int| #![trigger r@[k]] 0 <= k < r@.len() ==> r@[k].0 <= r@[k].1 <= v@.len(),
        forall|k: int| 0 <= k < r@.len() ==> #[trigger] piece(v@, r@[k]) == words(v@)[k],
{
    let mut r: Vec<(usize, usize)> = Vec::new();
    let mut start: usize = 0;
    let mut in_word = false;
    let mut i: usize = 0;
    assert(v@.take(0) =~= Seq::<char>::empty());
    while i < v.len()
        invariant
            i <= v.len(),
            start <= i,
            in_word ==> start < i && !is_white_space(v@[i - 1]),
            !in_word ==> i == 0 || is_white_space(v@[i - 1]),
            r@.len() + (if in_word { 1int } else { 0int }) == words(v@.take(i as int)).len(),
            forall|k: int| #![trigger r@[k]] 0 <= k < r@.len() ==> r@[k].0 <= r@[k].1 <= v@.len(),
            forall|k: int|
                0 <= k < r@.len() ==> #[trigger] piece(v@, r@[k]) == words(v@.take(i as int))[k],
            in_word ==> words(v@.take(i as int)).last() == v@.subrange(start as int, i as int),
        decreases v.len() - i,
    {
        let ghost before = words(v@.take(i as int));
        let ghost old_r = r@;
        proof {
            assert(v@.take(i + 1).drop_last() =~= v@.take(i as int));
            assert(v@.take(i + 1).last() == v@[i as int]);
            if i > 0 {
                assert(v@.take(i + 1)[i - 1] == v@[i - 1]);
            }
        }
        let c = v[i];
        if white_space(c) {
            if in_word {
                r.push((start, i));
                in_word = false;
            }
        } else {
            if in_word {
                assert(v@.subrange(start as int, i + 1) =~= v@.subrange(start as int, i as int).push(c));
            } else {
                start = i;
                in_word = true;
                assert(v@.subrange(start as int, i + 1) =~= seq![c]);
            }
        }
        i = i + 1;
        proof {
            let after = words(v@.take(i as int));
            assert forall|k: int| 0 <= k < r@.len() implies #[trigger] piece(v@, r@[k]) == after[k] by {
                if k < old_r.len() {
                    assert(r@[k] == old_r[k]);
                    assert(piece(v@, old_r[k]) == before[k]);
                }
            }
        }
    }
    assert(v@.take(v@.len() as int) =~= v@);
    if in_word {
        let ghost old_r = r@;
        r.push((start, i));
        assert forall|k: int| 0 <= k < r@.len() implies #[trigger] piece(v@, r@[k]) == words(v@)[k] by {
            if k < old_r.len() {
                assert(r@[k] == old_r[k]);
                assert(piece(v@, old_r[k]) == words(v@)[k]);
            }
        }
    }
    r
}

// ---------------------------------------------------------------------------
// Reading numbers
// ---------------------------------------------------------------------------

/// `c` is one of the digits `0` to `9`.
pub open spec fn is_digit(c: char) -> bool {
    48 <= (c as u32) <= 57
}

/// The value of the digits `d`, read in decimal.
pub open spec fn digits_value(d: Seq<char>) -> int
    decreases d.len(),
{
    if d.len() == 0 {
        0
    } else {
        digits_value(d.drop_last()) * 10 + ((d.last() as u32) - 48)
    }
}

/// `s` begins with a minus sign.
pub open spec fn is_negative(s: Seq<char>) -> bool {
    s.len() > 0 && s[0] == '-'
}

/// `s` without a leading `+` or `-`.
pub open spec fn unsigned_part(s: Seq<char>) -> Seq<char> {
    if s.len() > 0 && (s[0] == '-' || s[0] == '+') {
        s.drop_first()
    } else {
        s
    }
}

/// Every character of `d` is a decimal digit.
pub open spec fn all_digits(d: Seq<char>) -> bool {
    forall|i: int| 0 <= i < d.len() ==> is_digit(#[trigger] d[i])
}

/// The `i32` that the text `s` denotes, as `str::parse::<i32>` reads it: an
/// optional `+` or `-`, then one or more decimal digits, of a value within range.
pub open spec fn parse_i32(s: Seq<char>) -> Option<i32> {
    let d = unsigned_part(s);
    let v = if is_negative(s) {
        -digits_value(d)
    } else {
        digits_value(d)
    };
    if d.len() == 0 || !all_digits(d) {
        None
    } else if i32::MIN <= v <= i32::MAX {
        Some(v as i32)
    } else {
        None
    }
}

/// Reading more digits never gives a smaller value.
pub proof fn lemma_digits_value_grows(d: Seq<char>, k: int)
    requires
        0 <= k <= d.len(),
        all_digits(d),
    ensures
        0 <= digits_value(d.take(k)) <= digits_value(d),
    decreases d.len(),
{
    if d.len() > 0 {
        let e = d.drop_last();
        assert forall|i: int| 0 <= i < e.len() implies is_digit(#[trigger] e[i]) by {
            assert(e[i] == d[i]);
        }
        assert(is_digit(d[d.len() - 1]));
        if k == d.len() {
            assert(d.take(k) =~= d);
            lemma_digits_value_grows(e, e.len() as int);
            assert(e.take(e.len() as int) =~= e);
        } else {
            assert(e.take(k) =~= d.take(k));
            lemma_digits_value_grows(e, k);
        }
    } else {
        assert(d.take(k) =~= d);
    }
}

/// The `i32` that the text between positions `a` and `b` of `v` denotes.
pub fn parse_i32_range(v: &Vec<char>, a: usize, b: usize) -> (r: Option<i32>)
    requires
        a <= b <= v@.len(),
    ensures
        r == parse_i32(v@.subrange(a as int, b as int)),
{
    let ghost s = v@.subrange(a as int, b as int);
    if a == b {
        return None;
    }
    let neg = v[a] == '-';
    let mut i: usize = a;
    if v[a] == '-' || v[a] == '+' {
        i = a + 1;
    }
    let ghost d = v@.subrange(i as int, b as int);
    assert(d =~= unsigned_part(s));
    assert(neg == is_negative(s));
    if i == b {
        return None;
    }
    let limit: i64 = if neg { 2147483648 } else { 2147483647 };
    let mut acc: i64 = 0;
    let start = i;
    assert(d.take(0) =~= Seq::<char>::empty());
    while i < b
        invariant
            start <= i <= b <= v@.len(),
            s == v@.subrange(a as int, b as int),
            d == unsigned_part(s),
            neg == is_negative(s),
            d == v@.subrange(start as int, b as int),
            forall|j: int| 0 <= j < i - start ==> is_digit(#[trigger] d[j]),
            acc == digits_value(d.take(i - start)),
            0 <= acc <= limit,
            limit == (if neg { 2147483648i64 } else { 2147483647i64 }),
        decreases b - i,
    {
        let c = v[i];
        let u: u32 = c as u32;
        assert(c == d[i - start]);
        if u < 48 || u > 57 {
            assert(!is_digit(d[i - start]));
            assert(!all_digits(d));
            return None;
        }
        proof {
            assert(d.take(i - start + 1).drop_last() =~= d.take(i - start));
            assert(d.take(i - start + 1).last() == c);
        }
        let next: i64 = acc * 10 + (u as i64 - 48);
        if next > limit {
            proof {
                let k = i - start + 1;
                assert forall|j: int| 0 <= j < k implies is_digit(#[trigger] d.take(k)[j]) by {
                    assert(d.take(k)[j] == d[j]);
                }
                assert(digits_value(d.take(k)) == next);
                if all_digits(d) {
                    lemma_digits_value_grows(d, k);
                }
            }
            return None;
        }
        acc = next;
        i = i + 1;
    }
    assert(d.take(d.len() as int) =~= d);
    if neg {
        Some((-acc) as i32)
    } else {
        Some(acc as i32)
    }
}

/// The characters of `v` between positions `a` and `b`.
pub fn slice_vec(v: &Vec<char>, a: usize, b: usize) -> (r: Vec<char>)
    requires
        a <= b <= v@.len(),
    ensures
        r@ == v@.subrange(a as int, b as int),
{
    let mut r: Vec<char> = Vec::new();
    let mut i = a;
    assert(r@ =~= v@.subrange(a as int, a as int));
    while i < b
        invariant
            a <= i <= b <= v@.len(),
            r@ == v@.subrange(a as int, i as int),
        decreases b - i,
    {
        r.push(v[i]);
        i = i + 1;
        assert(r@ =~= v@.subrange(a as int, i as int));
    }
    r
}

// ---------------------------------------------------------------------------
// Building text
// ---------------------------------------------------------------------------

/// The characters of `s`, one per element.
pub fn char_vec(s: &str) -> (v: Vec<char>)
    ensures
        v@ == s@,
{
    let mut v: Vec<char> = Vec::new();
    for c in it: s.chars()
        invariant
            it.seq() == s@,
            v@ == it.seq().take(it.index() as int),
    {
        v.push(c);
    }
    v
}

/// The text of `s` in lower case, as `str::to_lowercase` gives it.
pub uninterp spec fn lowercase(s: Seq<char>) -> Seq<char>;

/// Every character of `s` is ASCII.
pub open spec fn is_ascii_text(s: Seq<char>) -> bool {
    forall|i: int| 0 <= i < s.len() ==> (#[trigger] s[i] as u32) < 128
}

/// `c` with `A` to `Z` turned into `a` to `z`.
pub open spec fn ascii_lower_char(c: char) -> char {
    let u = c as u32;
    if 65 <= u <= 90 {
        (u + 32) as char
    } else {
        c
    }
}

/// `s` with `A` to `Z` turned into `a` to `z`, every other character kept.
pub open spec fn ascii_lower(s: Seq<char>) -> Seq<char> {
    s.map_values(|c: char| ascii_lower_char(c))
}

/// Calls `str::to_lowercase`. Its result depends on `s` alone, and is named
/// `lowercase`. Of ASCII text it is stated what Unicode's lower-case mapping
/// (which the function documents that it follows) gives there: `A` to `Z`
/// become `a` to `z`, and every other character stays. Of other text only the
/// name is given (the Unicode case tables are not restated here).
#[verifier::external_body]
pub(crate) fn to_lowercase(s: &str) -> (r: String)
    ensures
        r@ == lowercase(s@),
        is_ascii_text(s@) ==> r@ == ascii_lower(s@),
{
    s.to_lowercase()
}

/// A copy of `s` as an owned string.
pub fn owned(s: &str) -> (r: String)
    ensures
        r@ == s@,
{
    s.to_owned()
}

/// The text between positions `from` and `to` of `s`, as an owned string.
pub fn sub_text(s: &str, from: usize, to: usize) -> (r: String)
    requires
        from <= to <= s@.len(),
    ensures
        r@ == s@.subrange(from as int, to as int),
{
    s.substring_char(from, to).to_owned()
}

// ---------------------------------------------------------------------------
// Numbers as text
// ---------------------------------------------------------------------------

/// The decimal digit for `d` (0 to 9).
pub open spec fn digit_char(d: int) -> char {
    if d == 0 {
        '0'
    } else if d == 1 {
        '1'
    } else if d == 2 {
        '2'
    } else if d == 3 {
        '3'
    } else if d == 4 {
        '4'
    } else if d == 5 {
        '5'
    } else if d == 6 {
        '6'
    } else if d == 7 {
        '7'
    } else if d == 8 {
        '8'
    } else {
        '9'
    }
}

/// `n` written in decimal, without leading zeros (what `{}` prints).
pub open spec fn decimal(n: nat) -> Seq<char>
    decreases n,
{
    if n < 10 {
        seq![digit_char(n as int)]
    } else {
        decimal(n / 10).push(digit_char((n % 10) as int))
    }
}

/// `n` written in decimal, with a leading `-` when it is negative.
pub open spec fn signed_decimal(n: int) -> Seq<char> {
    if n < 0 {
        seq!['-'] + decimal((-n) as nat)
    } else {
        decimal(n as nat)
    }
}

fn digit_text(d: u64) -> (s: &'static str)
    requires
        d < 10,
    ensures
        s@ == seq![digit_char(d as int)],
{
    if d == 0 {
        proof { reveal_strlit("0"); }
        assert("0"@ =~= seq!['0']);
        "0"
    } else if d == 1 {
        proof { reveal_strlit("1"); }
        assert("1"@ =~= seq!['1']);
        "1"
    } else if d == 2 {
        proof { reveal_strlit("2"); }
        assert("2"@ =~= seq!['2']);
        "2"
    } else if d == 3 {
        proof { reveal_strlit("3"); }
        assert("3"@ =~= seq!['3']);
        "3"
    } else if d == 4 {
        proof { reveal_strlit("4"); }
        assert("4"@ =~= seq!['4']);
        "4"
    } else if d == 5 {
        proof { reveal_strlit("5"); }
        assert("5"@ =~= seq!['5']);
        "5"
    } else if d == 6 {
        proof { reveal_strlit("6"); }
        assert("6"@ =~= seq!['6']);
        "6"
    } else if d == 7 {
        proof { reveal_strlit("7"); }
        assert("7"@ =~= seq!['7']);
        "7"
    } else if d == 8 {
        proof { reveal_strlit("8"); }
        assert("8"@ =~= seq!['8']);
        "8"
    } else {
        proof { reveal_strlit("9"); }
        assert("9"@ =~= seq!['9']);
        "9"
    }
}

/// `n` in decimal.
pub fn decimal_string(n: u64) -> (s: String)
    ensures
        s@ == decimal(n as nat),
    decreases n,
{
    if n < 10 {
        String::from_str(digit_text(n))
    } else {
        let mut s = decimal_string(n / 10);
        s.append(digit_text(n % 10));
        s
    }
}

/// `n` in decimal, with a leading `-` when it is negative.
pub fn signed_decimal_string(n: i32) -> (s: String)
    ensures
        s@ == signed_decimal(n as int),
{
    if n < 0 {
        let m: i64 = n as i64;
        let d = decimal_string((-m) as u64);
        let mut s = String::from_str("-");
        proof { reveal_strlit("-"); }
        assert("-"@ =~= seq!['-']);
        s.append(d.as_str());
        s
    } else {
        decimal_string(n as u64)
    }
}

// ---------------------------------------------------------------------------
// Ordering of text
// ---------------------------------------------------------------------------

/// `a` comes before `b` in lexicographic order of characters. For UTF-8 text
/// this is the order in which `String` compares, since UTF-8 keeps the order of
/// code points.
pub open spec fn lex_lt(a: Seq<char>, b: Seq<char>) -> bool
    decreases a.len(),
{
    if a.len() == 0 {
        b.len() > 0
    } else if b.len() == 0 {
        false
    } else if a[0] != b[0] {
        (a[0] as u32) < (b[0] as u32)
    } else {
        lex_lt(a.drop_first(), b.drop_first())
    }
}

/// No text comes before itself.
pub proof fn lemma_lex_irreflexive(a: Seq<char>)
    ensures
        !lex_lt(a, a),
    decreases a.len(),
{
    if a.len() > 0 {
        lemma_lex_irreflexive(a.drop_first());
    }
}

/// Lexicographic order is transitive.
pub proof fn lemma_lex_transitive(a: Seq<char>, b: Seq<char>, c: Seq<char>)
    requires
        lex_lt(a, b),
        lex_lt(b, c),
    ensures
        lex_lt(a, c),
    decreases a.len(),
{
    if a.len() > 0 && b.len() > 0 && c.len() > 0 {
        if a[0] == b[0] && b[0] == c[0] {
            lemma_lex_transitive(a.drop_first(), b.drop_first(), c.drop_first());
        }
    }
}

/// Of two different texts, one comes before the other.
pub proof fn lemma_lex_total(a: Seq<char>, b: Seq<char>)
    ensures
        a == b || lex_lt(a, b) || lex_lt(b, a),
    decreases a.len(),
{
    if a.len() > 0 && b.len() > 0 {
        if a[0] == b[0] {
            lemma_lex_total(a.drop_first(), b.drop_first());
            if a.drop_first() == b.drop_first() {
                assert(a =~= seq![a[0]] + a.drop_first());
                assert(b =~= seq![b[0]] + b.drop_first());
            }
        } else {
            let x = a[0] as u32;
            let y = b[0] as u32;
            vstd::utf8::char_u32_cast(a[0], x);
            vstd::utf8::char_u32_cast(b[0], y);
        }
    } else if a.len() == 0 && b.len() == 0 {
        assert(a =~= b);
    }
}

/// Whether `a` comes before `b` in lexicographic order of characters.
pub fn lex_less(a: &Vec<char>, b: &Vec<char>) -> (r: bool)
    ensures
        r == lex_lt(a@, b@),
{
    let mut i: usize = 0;
    assert(a@.skip(0) =~= a@);
    assert(b@.skip(0) =~= b@);
    while i < a.len() && i < b.len()
        invariant
            i <= a.len(),
            i <= b.len(),
            lex_lt(a@, b@) == lex_lt(a@.skip(i as int), b@.skip(i as int)),
        decreases a.len() - i,
    {
        if a[i] != b[i] {
            let x: u32 = a[i] as u32;
            let y: u32 = b[i] as u32;
            return x < y;
        }
        proof {
            assert(a@.skip(i as int).drop_first() =~= a@.skip(i + 1));
            assert(b@.skip(i as int).drop_first() =~= b@.skip(i + 1));
        }
        i = i + 1;
    }
    i == a.len() && i < b.len()
}

} // verus!
