use vstd::prelude::*;

use crate::text::{lemma_lex_irreflexive, lemma_lex_total, lemma_lex_transitive, lex_lt};

verus! {

broadcast use vstd::seq_lib::group_seq_properties;

/// `lt` is a strict order: irreflexive and transitive.
pub open spec fn is_strict_order<T>(lt: spec_fn(T, T) -> bool) -> bool {
    &&& forall|x: T| !#[trigger] lt(x, x)
    &&& forall|x: T, y: T, z: T| #[trigger] lt(x, y) && #[trigger] lt(y, z) ==> lt(x, z)
}

/// Each element of `s` comes before every later one in the order `lt` (so
/// none occurs twice).
pub open spec fn strictly_sorted<T>(s: Seq<T>, lt: spec_fn(T, T) -> bool) -> bool {
    forall|i: int, j: int| 0 <= i < j < s.len() ==> lt(#[trigger] s[i], #[trigger] s[j])
}

/// The elements of the finite set `s` in increasing order of `lt`.
pub open spec fn sorted_elements<T>(s: Set<T>, lt: spec_fn(T, T) -> bool) -> Seq<T> {
    choose|q: Seq<T>| strictly_sorted(q, lt) && q.to_set() == s
}

/// Lexicographic order of texts.
pub open spec fn text_order() -> spec_fn(Seq<char>, Seq<char>) -> bool {
    |a: Seq<char>, b: Seq<char>| lex_lt(a, b)
}

/// Numeric order of process ids.
pub open spec fn id_order() -> spec_fn(i32, i32) -> bool {
    |a: i32, b: i32| a < b
}

/// Lexicographic order of texts is a strict order.
pub proof fn lemma_text_order_strict()
    ensures
        is_strict_order(text_order()),
{
    assert forall|x: Seq<char>| !#[trigger] text_order()(x, x) by {
        lemma_lex_irreflexive(x);
    }
    assert forall|x: Seq<char>, y: Seq<char>, z: Seq<char>|
        #[trigger] text_order()(x, y) && #[trigger] text_order()(y, z) implies text_order()(x, z) by {
        lemma_lex_transitive(x, y, z);
    }
}

/// Numeric order of port numbers.
pub open spec fn port_order() -> spec_fn(u16, u16) -> bool {
    |a: u16, b: u16| a < b
}

/// Numeric order of ports is a strict order.
pub proof fn lemma_port_order_strict()
    ensures
        is_strict_order(port_order()),
{
}

/// Numeric order of process ids is a strict order.
pub proof fn lemma_id_order_strict()
    ensures
        is_strict_order(id_order()),
{
}

/// Two sequences sorted strictly by one strict order, with the same elements,
/// are equal.
pub proof fn lemma_sorted_unique<T>(a: Seq<T>, b: Seq<T>, lt: spec_fn(T, T) -> bool)
    requires
        is_strict_order(lt),
        strictly_sorted(a, lt),
        strictly_sorted(b, lt),
        a.to_set() == b.to_set(),
    ensures
        a == b,
    decreases a.len(),
{
    if a.len() == 0 {
        if b.len() > 0 {
            assert(b.to_set().contains(b[0]));
            assert(!a.to_set().contains(b[0]));
        }
        assert(a =~= b);
    } else {
        assert(a.to_set().contains(a[0]));
        assert(b.to_set().contains(a[0]));
        let j = choose|j: int| 0 <= j < b.len() && b[j] == a[0];
        assert(a.to_set().contains(b[0]));
        let i = choose|i: int| 0 <= i < a.len() && a[i] == b[0];
        if j > 0 {
            assert(lt(b[0], b[j]));
            if i > 0 {
                assert(lt(a[0], a[i]));
                assert(lt(a[0], a[0]));
            } else {
                assert(lt(a[0], a[0]));
            }
        }
        assert(b[0] == a[0]);
        let a1 = a.drop_first();
        let b1 = b.drop_first();
        assert forall|x: T| a1.to_set().contains(x) == b1.to_set().contains(x) by {
            if a1.to_set().contains(x) {
                let k = choose|k: int| 0 <= k < a1.len() && a1[k] == x;
                assert(lt(a[0], a[k + 1]));
                assert(a.to_set().contains(x));
                let m = choose|m: int| 0 <= m < b.len() && b[m] == x;
                if m == 0 {
                    assert(lt(x, x));
                }
                assert(b1[m - 1] == x);
            }
            if b1.to_set().contains(x) {
                let k = choose|k: int| 0 <= k < b1.len() && b1[k] == x;
                assert(lt(b[0], b[k + 1]));
                assert(b.to_set().contains(x));
                let m = choose|m: int| 0 <= m < a.len() && a[m] == x;
                if m == 0 {
                    assert(lt(x, x));
                }
                assert(a1[m - 1] == x);
            }
        }
        assert(a1.to_set() =~= b1.to_set());
        assert forall|p: int, q: int| 0 <= p < q < a1.len() implies lt(#[trigger] a1[p], #[trigger] a1[q]) by {
            assert(a1[p] == a[p + 1] && a1[q] == a[q + 1]);
        }
        assert forall|p: int, q: int| 0 <= p < q < b1.len() implies lt(#[trigger] b1[p], #[trigger] b1[q]) by {
            assert(b1[p] == b[p + 1] && b1[q] == b[q + 1]);
        }
        lemma_sorted_unique(a1, b1, lt);
        assert(a.len() == b.len());
        assert forall|k: int| 0 <= k < a.len() implies a[k] == b[k] by {
            if k > 0 {
                assert(a[k] == a1[k - 1]);
                assert(b[k] == b1[k - 1]);
            }
        }
        assert(a =~= b);
    }
}

/// A sequence sorted strictly by `lt` lists the elements of its set in order.
pub proof fn lemma_sorted_is_sorted_elements<T>(a: Seq<T>, lt: spec_fn(T, T) -> bool)
    requires
        is_strict_order(lt),
        strictly_sorted(a, lt),
    ensures
        sorted_elements(a.to_set(), lt) == a,
{
    let c = sorted_elements(a.to_set(), lt);
    assert(strictly_sorted(c, lt) && c.to_set() == a.to_set());
    lemma_sorted_unique(c, a, lt);
}

/// Inserting `x` where it belongs keeps a sequence strictly sorted, and adds
/// `x` to its elements.
pub proof fn lemma_sorted_insert<T>(s: Seq<T>, k: int, x: T, lt: spec_fn(T, T) -> bool)
    requires
        is_strict_order(lt),
        strictly_sorted(s, lt),
        0 <= k <= s.len(),
        forall|j: int| 0 <= j < k ==> lt(#[trigger] s[j], x),
        forall|j: int| k <= j < s.len() ==> lt(x, #[trigger] s[j]),
    ensures
        strictly_sorted(s.insert(k, x), lt),
        s.insert(k, x).to_set() == s.to_set().insert(x),
{
    let n = s.insert(k, x);
    assert forall|i: int, j: int| 0 <= i < j < n.len() implies lt(#[trigger] n[i], #[trigger] n[j]) by {
        if j < k {
            assert(n[i] == s[i] && n[j] == s[j]);
        } else if j == k {
            assert(n[i] == s[i]);
        } else if i < k {
            assert(n[i] == s[i] && n[j] == s[j - 1]);
        } else if i == k {
            assert(n[j] == s[j - 1]);
        } else {
            assert(n[i] == s[i - 1] && n[j] == s[j - 1]);
        }
    }
    assert forall|y: T| n.to_set().contains(y) == s.to_set().insert(x).contains(y) by {
        if n.to_set().contains(y) {
            let m = choose|m: int| 0 <= m < n.len() && n[m] == y;
            if m < k {
                assert(s[m] == y);
            } else if m > k {
                assert(s[m - 1] == y);
            }
        }
        if s.to_set().contains(y) {
            let m = choose|m: int| 0 <= m < s.len() && s[m] == y;
            if m < k {
                assert(n[m] == y);
            } else {
                assert(n[m + 1] == y);
            }
        }
        if y == x {
            assert(n[k] == x);
        }
    }
    assert(n.to_set() =~= s.to_set().insert(x));
}

/// Under a total strict order, `x` belongs before `y`, is `y`, or after it.
pub proof fn lemma_text_trichotomy(x: Seq<char>, y: Seq<char>)
    ensures
        x == y || text_order()(x, y) || text_order()(y, x),
{
    lemma_lex_total(x, y);
}


/// `s` with `x` put where it belongs in the order `lt`, unless it is there.
pub open spec fn insert_sorted<T>(s: Seq<T>, x: T, lt: spec_fn(T, T) -> bool) -> Seq<T>
    decreases s.len(),
{
    if s.len() == 0 {
        seq![x]
    } else if s.last() == x {
        s
    } else if lt(s.last(), x) {
        s.push(x)
    } else {
        insert_sorted(s.drop_last(), x, lt).push(s.last())
    }
}

/// Putting `x` where it belongs keeps a strictly sorted sequence so, and adds
/// `x` to its elements.
pub proof fn lemma_insert_sorted<T>(s: Seq<T>, x: T, lt: spec_fn(T, T) -> bool)
    requires
        is_strict_order(lt),
        strictly_sorted(s, lt),
        forall|j: int| 0 <= j < s.len() ==> #[trigger] s[j] == x || lt(s[j], x) || lt(x, s[j]),
    ensures
        strictly_sorted(insert_sorted(s, x, lt), lt),
        insert_sorted(s, x, lt).to_set() == s.to_set().insert(x),
    decreases s.len(),
{
    let r = insert_sorted(s, x, lt);
    if s.len() == 0 {
        assert(r.to_set() =~= s.to_set().insert(x)) by {
            assert(r[0] == x);
        }
    } else if s.last() == x {
        assert(s.to_set().contains(s[s.len() - 1]));
        assert(s.to_set().insert(x) =~= s.to_set());
    } else if lt(s.last(), x) {
        assert forall|j: int| 0 <= j < s.len() implies lt(#[trigger] s[j], x) by {
            if j < s.len() - 1 {
                assert(lt(s[j], s[s.len() - 1]));
            }
        }
        lemma_sorted_insert(s, s.len() as int, x, lt);
        assert(s.insert(s.len() as int, x) =~= s.push(x));
    } else {
        let init = s.drop_last();
        let last = s.last();
        assert(lt(x, last)) by {
            assert(s[s.len() - 1] == last);
        }
        assert forall|j: int| 0 <= j < init.len() implies #[trigger] init[j] == x || lt(init[j], x)
            || lt(x, init[j]) by {
            assert(init[j] == s[j]);
        }
        assert forall|i: int, j: int| 0 <= i < j < init.len() implies lt(#[trigger] init[i], #[trigger] init[j]) by {
            assert(init[i] == s[i] && init[j] == s[j]);
        }
        lemma_insert_sorted(init, x, lt);
        let r1 = insert_sorted(init, x, lt);
        assert forall|j: int| 0 <= j < r1.len() implies lt(#[trigger] r1[j], last) by {
            assert(r1.to_set().contains(r1[j]));
            if r1[j] != x {
                assert(init.to_set().contains(r1[j]));
                let m = choose|m: int| 0 <= m < init.len() && init[m] == r1[j];
                assert(lt(s[m], s[s.len() - 1]));
            }
        }
        assert(r == r1.push(last));
        assert forall|i: int, j: int| 0 <= i < j < r.len() implies lt(#[trigger] r[i], #[trigger] r[j]) by {
            if j == r.len() - 1 {
                assert(r[i] == r1[i]);
            } else {
                assert(r[i] == r1[i] && r[j] == r1[j]);
            }
        }
        assert forall|y: T| r.to_set().contains(y) == s.to_set().insert(x).contains(y) by {
            if r.to_set().contains(y) {
                let m = choose|m: int| 0 <= m < r.len() && r[m] == y;
                if m < r.len() - 1 {
                    assert(r1[m] == y);
                    assert(r1.to_set().contains(y));
                    if y != x {
                        let t = choose|t: int| 0 <= t < init.len() && init[t] == y;
                        assert(s[t] == y);
                    }
                } else {
                    assert(s[s.len() - 1] == y);
                }
            }
            if s.to_set().contains(y) {
                let m = choose|m: int| 0 <= m < s.len() && s[m] == y;
                if m < s.len() - 1 {
                    assert(init[m] == y);
                    assert(init.to_set().contains(y));
                    assert(r1.to_set().contains(y));
                    let t = choose|t: int| 0 <= t < r1.len() && r1[t] == y;
                    assert(r[t] == y);
                } else {
                    assert(r[r.len() - 1] == y);
                }
            }
            if y == x {
                assert(r1.to_set().contains(x));
                let t = choose|t: int| 0 <= t < r1.len() && r1[t] == x;
                assert(r[t] == x);
            }
        }
        assert(r.to_set() =~= s.to_set().insert(x));
    }
}

/// When some strictly sorted sequence holds exactly the elements of `s`,
/// `sorted_elements` names one.
pub proof fn lemma_sorted_elements_of<T>(q: Seq<T>, s: Set<T>, lt: spec_fn(T, T) -> bool)
    requires
        strictly_sorted(q, lt),
        q.to_set() == s,
    ensures
        strictly_sorted(sorted_elements(s, lt), lt),
        sorted_elements(s, lt).to_set() == s,
{
}

} // verus!
