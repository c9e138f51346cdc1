use vstd::prelude::*;

use crate::order::{
    lemma_port_order_strict, lemma_sorted_insert, lemma_sorted_is_sorted_elements, port_order,
    sorted_elements, strictly_sorted,
};

verus! {

// ---------------------------------------------------------------------------
// Watched ports
// ---------------------------------------------------------------------------

/// The ports that are watched when nothing else is asked for.
pub open spec fn default_port_seq() -> Seq<u16> {
    seq![3000u16, 3001, 3002, 3003, 4200, 5000, 5001, 5173, 8000, 8080, 8081, 5432, 3306, 6379, 27017, 9229]
}

/// The watched ports: the default ones and the custom ones, each once, in
/// increasing order.
pub open spec fn monitored(custom: Seq<u16>) -> Seq<u16> {
    sorted_elements(default_port_seq().to_set().union(custom.to_set()), port_order())
}

/// The ports that are watched when nothing else is asked for.
pub fn default_ports() -> (v: Vec<u16>)
    ensures
        v@ == default_port_seq(),
{
    let v: Vec<u16> = vec![3000, 3001, 3002, 3003, 4200, 5000, 5001, 5173, 8000, 8080, 8081, 5432, 3306, 6379, 27017, 9229];
    assert(v@ =~= default_port_seq());
    v
}

/// Adds `q` to the strictly increasing ports, where it belongs, unless it is there.
fn insert_port(ports: &mut Vec<u16>, q: u16)
    requires
        strictly_sorted(old(ports)@, port_order()),
    ensures
        strictly_sorted(final(ports)@, port_order()),
        final(ports)@.to_set() == old(ports)@.to_set().insert(q),
{
    let ghost s = ports@;
    proof {
        lemma_port_order_strict();
    }
    let mut k: usize = 0;
    while k < ports.len() && ports[k] < q
        invariant
            k <= ports@.len(),
            s == ports@,
            forall|j: int| 0 <= j < k ==> port_order()(#[trigger] s[j], q),
        decreases ports.len() - k,
    {
        k = k + 1;
    }
    if k < ports.len() && ports[k] == q {
        assert(s.to_set().insert(q) =~= s.to_set());
        return;
    }
    proof {
        assert forall|j: int| k <= j < s.len() implies port_order()(q, #[trigger] s[j]) by {
            if j > k {
                assert(port_order()(s[k as int], s[j]));
            }
        }
        lemma_sorted_insert(s, k as int, q, port_order());
    }
    ports.insert(k, q);
}

/// The watched ports: the default ones and `custom`, each once, in increasing
/// order.
pub fn monitored_ports(custom: &Vec<u16>) -> (r: Vec<u16>)
    ensures
        r@ == monitored(custom@),
        strictly_sorted(r@, port_order()),
        r@.to_set() == default_port_seq().to_set().union(custom@.to_set()),
{
    let mut all = default_ports();
    let mut i: usize = 0;
    while i < custom.len()
        invariant
            i <= custom@.len(),
            all@ == default_port_seq() + custom@.take(i as int),
        decreases custom.len() - i,
    {
        all.push(custom[i]);
        assert(custom@.take(i + 1) =~= custom@.take(i as int).push(custom@[i as int]));
        assert(all@ =~= default_port_seq() + custom@.take(i + 1));
        i = i + 1;
    }
    assert(custom@.take(i as int) =~= custom@);
    let mut r: Vec<u16> = Vec::new();
    let mut k: usize = 0;
    proof {
        lemma_port_order_strict();
        assert(r@.to_set() =~= all@.take(0).to_set());
    }
    while k < all.len()
        invariant
            k <= all@.len(),
            strictly_sorted(r@, port_order()),
            r@.to_set() == all@.take(k as int).to_set(),
        decreases all.len() - k,
    {
        insert_port(&mut r, all[k]);
        assert(all@.take(k + 1) =~= all@.take(k as int).push(all@[k as int]));
        proof {
            all@.take(k as int).lemma_push_to_set_commute(all@[k as int]);
        }
        k = k + 1;
    }
    proof {
        assert(all@.take(k as int) =~= all@);
        let d = default_port_seq();
        let c = custom@;
        assert forall|x: u16| (d + c).to_set().contains(x) == d.to_set().union(c.to_set()).contains(x) by {
            if (d + c).to_set().contains(x) {
                let j = choose|j: int| 0 <= j < (d + c).len() && (d + c)[j] == x;
                if j < d.len() {
                    assert(d[j] == x);
                } else {
                    assert(c[j - d.len()] == x);
                }
            }
            if d.to_set().contains(x) {
                let j = choose|j: int| 0 <= j < d.len() && d[j] == x;
                assert((d + c)[j] == x);
            }
            if c.to_set().contains(x) {
                let j = choose|j: int| 0 <= j < c.len() && c[j] == x;
                assert((d + c)[d.len() + j] == x);
            }
        }
        assert((d + c).to_set() =~= d.to_set().union(c.to_set()));
        lemma_sorted_is_sorted_elements(r@, port_order());
    }
    r
}

} // verus!
