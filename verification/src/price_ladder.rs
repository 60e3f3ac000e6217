//! Price ladders: the prices of one side of a book, listed in order.

use std::collections::BTreeMap;
use vstd::prelude::*;
use vstd::std_specs::cmp::OrdSpec;

verus! {

broadcast use vstd::std_specs::btree::group_btree_axioms;

/// `s` lists every price of `dom` exactly once, lowest first.
pub open spec fn is_ladder(s: Seq<u64>, dom: Set<u64>) -> bool {
    &&& forall|i: int, j: int| 0 <= i < j < s.len() ==> s[i] < s[j]
    &&& forall|p: u64| #[trigger] dom.contains(p) <==> s.contains(p)
}

/// The prices of `dom`, lowest first.
pub open spec fn ascending(dom: Set<u64>) -> Seq<u64> {
    choose|s: Seq<u64>| is_ladder(s, dom)
}

/// The prices of `dom`, highest first.
pub open spec fn descending(dom: Set<u64>) -> Seq<u64> {
    ascending(dom).reverse()
}

/// Two ladders over the same prices are the same sequence.
proof fn lemma_ladder_unique(s: Seq<u64>, t: Seq<u64>, dom: Set<u64>)
    requires
        is_ladder(s, dom),
        is_ladder(t, dom),
    ensures
        s == t,
    decreases s.len(),
{
    if s.len() == 0 {
        if t.len() > 0 {
            assert(t.contains(t[0]));
            assert(dom.contains(t[0]));
        }
        assert(s =~= t);
    } else {
        assert(s.contains(s[0]));
        assert(dom.contains(s[0]));
        assert(t.contains(s[0]));
        let j = choose|j: int| 0 <= j < t.len() && t[j] == s[0];
        assert(t.contains(t[0]));
        assert(dom.contains(t[0]));
        assert(s.contains(t[0]));
        let i = choose|i: int| 0 <= i < s.len() && s[i] == t[0];
        assert(s[0] == t[0]) by {
            if i > 0 {
                assert(s[0] < s[i]);
                if j > 0 {
                    assert(t[0] < t[j]);
                }
            }
        }
        let rest = dom.remove(s[0]);
        let s2 = s.drop_first();
        let t2 = t.drop_first();
        assert forall|p: u64| #[trigger] rest.contains(p) <==> s2.contains(p) by {
            if rest.contains(p) {
                assert(s.contains(p));
                let k = choose|k: int| 0 <= k < s.len() && s[k] == p;
                assert(k != 0);
                assert(s2[k - 1] == p);
            }
            if s2.contains(p) {
                let k = choose|k: int| 0 <= k < s2.len() && s2[k] == p;
                assert(s[k + 1] == p);
                assert(s.contains(p));
                assert(s[0] < s[k + 1]);
            }
        }
        assert forall|p: u64| #[trigger] rest.contains(p) <==> t2.contains(p) by {
            if rest.contains(p) {
                assert(t.contains(p));
                let k = choose|k: int| 0 <= k < t.len() && t[k] == p;
                assert(k != 0);
                assert(t2[k - 1] == p);
            }
            if t2.contains(p) {
                let k = choose|k: int| 0 <= k < t2.len() && t2[k] == p;
                assert(t[k + 1] == p);
                assert(t.contains(p));
                assert(t[0] < t[k + 1]);
            }
        }
        lemma_ladder_unique(s2, t2, rest);
        assert(s =~= seq![s[0]] + s2);
        assert(t =~= seq![t[0]] + t2);
    }
}

/// Every finite set of prices has a ladder.
proof fn lemma_ladder_exists(dom: Set<u64>)
    requires
        dom.finite(),
    ensures
        is_ladder(ascending(dom), dom),
    decreases dom.len(),
{
    if dom.len() == 0 {
        assert forall|p: u64| #[trigger] dom.contains(p) <==> Seq::<u64>::empty().contains(p) by {
            if dom.contains(p) {
                assert(dom.len() > 0);
            }
        }
        assert(is_ladder(Seq::<u64>::empty(), dom));
    } else {
        let le = |a: u64, b: u64| a <= b;
        assert(vstd::relations::total_ordering(le));
        dom.find_unique_minimal_ensures(le);
        let m = dom.find_unique_minimal(le);
        let rest = dom.remove(m);
        lemma_ladder_exists(rest);
        let r = ascending(rest);
        let s = seq![m] + r;
        assert forall|i: int, j: int| 0 <= i < j < s.len() implies s[i] < s[j] by {
            if i == 0 {
                assert(s[j] == r[j - 1]);
                assert(r.contains(s[j]));
                assert(rest.contains(s[j]));
                assert(dom.contains(s[j]));
                assert(s[j] != m);
                assert(le(s[j], m) ==> le(m, s[j]));
            } else {
                assert(s[i] == r[i - 1]);
                assert(s[j] == r[j - 1]);
            }
        }
        assert forall|p: u64| #[trigger] dom.contains(p) <==> s.contains(p) by {
            if dom.contains(p) {
                if p == m {
                    assert(s[0] == p);
                } else {
                    assert(rest.contains(p));
                    assert(r.contains(p));
                    let k = choose|k: int| 0 <= k < r.len() && r[k] == p;
                    assert(s[k + 1] == p);
                }
            }
            if s.contains(p) {
                let k = choose|k: int| 0 <= k < s.len() && s[k] == p;
                if k > 0 {
                    assert(r[k - 1] == p);
                    assert(r.contains(p));
                }
            }
        }
        assert(is_ladder(s, dom));
    }
}

/// Prices obey the ordering model that the specification of `BTreeMap` relies on.
pub open spec fn prices_ordered() -> bool {
    vstd::laws_cmp::obeys_cmp::<u64>()
}

/// Prices obey the ordering that `BTreeMap` relies on.
pub(crate) proof fn lemma_price_order()
    ensures
        prices_ordered(),
{
    broadcast use vstd::laws_cmp::group_laws_cmp;

}

/// In a sequence that `BTreeMap` reports as increasing, earlier keys compare less.
proof fn lemma_increasing_compares_less<K: Ord>(r: Seq<K>, i: int, j: int)
    requires
        vstd::std_specs::btree::increasing_seq(r),
        vstd::laws_cmp::obeys_cmp::<K>(),
        0 <= i < j < r.len(),
    ensures
        r[i].cmp_spec(&r[j]) is Less,
{
    vstd::std_specs::btree::axiom_increasing_seq_meaning::<K>(r);
}

/// Keys that a `BTreeMap` hands out in increasing order are strictly increasing.
proof fn lemma_increasing_keys(r: Seq<&u64>, i: int, j: int)
    requires
        vstd::std_specs::btree::increasing_seq(r),
        0 <= i < j < r.len(),
    ensures
        *r[i] < *r[j],
{
    broadcast use vstd::laws_cmp::group_laws_cmp;

    assert(vstd::laws_cmp::obeys_cmp::<u64>());
    assert(vstd::laws_cmp::obeys_cmp::<&u64>());
    lemma_increasing_compares_less::<&u64>(r, i, j);
}

/// The ladder of a finite set of prices lists each of them once, lowest first,
/// and its reverse lists them highest first.
pub proof fn lemma_ladders(dom: Set<u64>)
    requires
        dom.finite(),
    ensures
        is_ladder(ascending(dom), dom),
        ascending(dom).no_duplicates(),
        descending(dom).no_duplicates(),
        forall|i: int, j: int|
            0 <= i < j < descending(dom).len() ==> descending(dom)[i] > descending(dom)[j],
        forall|p: u64| #[trigger] dom.contains(p) <==> descending(dom).contains(p),
{
    lemma_ladder_exists(dom);
    let a = ascending(dom);
    let d = descending(dom);
    assert forall|i: int, j: int| 0 <= i < j < d.len() implies d[i] > d[j] by {
        assert(d[i] == a[a.len() - 1 - i]);
        assert(d[j] == a[a.len() - 1 - j]);
    }
    assert forall|p: u64| #[trigger] dom.contains(p) <==> d.contains(p) by {
        if dom.contains(p) {
            let k = choose|k: int| 0 <= k < a.len() && a[k] == p;
            assert(d[a.len() - 1 - k] == p);
        }
        if d.contains(p) {
            let k = choose|k: int| 0 <= k < d.len() && d[k] == p;
            assert(a[a.len() - 1 - k] == p);
            assert(a.contains(p));
        }
    }
}

/// The prices of a book side, lowest first.
pub fn ascending_keys<V>(m: &BTreeMap<u64, V>) -> (keys: Vec<u64>)
    ensures
        keys@ == ascending(m@.dom()),
        is_ladder(keys@, m@.dom()),
{
    let mut keys: Vec<u64> = Vec::new();
    for k in it: m.keys()
        invariant
            keys@.len() == it.index(),
            forall|i: int| 0 <= i < keys@.len() ==> keys@[i] == *it.seq()[i],
            vstd::std_specs::btree::increasing_seq(it.seq()),
            forall|i: int, j: int| 0 <= i < j < keys@.len() ==> keys@[i] < keys@[j],
            forall|p: u64| #[trigger] m@.dom().contains(p) <==> it.seq().unref().contains(p),
            forall|p: u64|
                #[trigger] m@.dom().contains(p) ==> keys@.contains(p) || exists|i: int|
                    it.index() <= i < it.seq().len() && *it.seq()[i] == p,
            forall|p: u64| keys@.contains(p) ==> #[trigger] m@.dom().contains(p),
    {
        proof {
            let r = it.seq();
            assert forall|i: int| 0 <= i < keys@.len() implies keys@[i] < *k by {
                lemma_increasing_keys(r, i, keys@.len() as int);
            }
        }
        let ghost old_keys = keys@;
        keys.push(*k);
        proof {
            let r = it.seq();
            let n = old_keys.len() as int;
            assert(*r[n] == *k);
            assert(r.unref()[n] == *k);
            assert(r.unref().contains(*k));
            assert(keys@[n] == *k);
            assert forall|p: u64| #[trigger] m@.dom().contains(p) implies keys@.contains(p) || exists|i: int|
                n + 1 <= i < r.len() && *r[i] == p by {
                if old_keys.contains(p) {
                    let j = choose|j: int| 0 <= j < old_keys.len() && old_keys[j] == p;
                    assert(keys@[j] == p);
                } else {
                    let i = choose|i: int| n <= i < r.len() && *r[i] == p;
                    if i == n {
                        assert(keys@[n] == p);
                    }
                }
            }
            assert forall|p: u64| keys@.contains(p) implies #[trigger] m@.dom().contains(p) by {
                let j = choose|j: int| 0 <= j < keys@.len() && keys@[j] == p;
                if j < n {
                    assert(old_keys[j] == p);
                    assert(old_keys.contains(p));
                }
            }
        }
    }
    proof {
        lemma_ladder_unique(keys@, ascending(m@.dom()), m@.dom());
    }
    keys
}

/// The prices of a book side, highest first.
pub fn descending_keys<V>(m: &BTreeMap<u64, V>) -> (keys: Vec<u64>)
    ensures
        keys@ == descending(m@.dom()),
        forall|p: u64| #[trigger] m@.dom().contains(p) <==> keys@.contains(p),
{
    let up = ascending_keys(m);
    let mut keys: Vec<u64> = Vec::new();
    let mut i: usize = up.len();
    while i > 0
        invariant
            0 <= i <= up@.len(),
            keys@.len() == up@.len() - i,
            forall|k: int| 0 <= k < keys@.len() ==> keys@[k] == up@[up@.len() - 1 - k],
        decreases i,
    {
        i = i - 1;
        keys.push(up[i]);
    }
    assert(keys@ =~= up@.reverse());
    assert forall|p: u64| #[trigger] m@.dom().contains(p) <==> keys@.contains(p) by {
        if m@.dom().contains(p) {
            assert(up@.contains(p));
            let k = choose|k: int| 0 <= k < up@.len() && up@[k] == p;
            assert(keys@[up@.len() - 1 - k] == p);
        }
        if keys@.contains(p) {
            let k = choose|k: int| 0 <= k < keys@.len() && keys@[k] == p;
            assert(up@[up@.len() - 1 - k] == p);
            assert(up@.contains(p));
        }
    }
    keys
}

} // verus!
