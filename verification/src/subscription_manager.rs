//! The websocket server's subscription registry: which channels each user
//! follows and which users follow each channel. The registry decides when
//! the server has to subscribe to or unsubscribe from a channel of the
//! message bus; the server does that work.

use vstd::prelude::*;
use vstd::string::StringExecFns;

verus! {

// ---------------------------------------------------------------------------
// Tables of names
// ---------------------------------------------------------------------------

/// The text of each name of a list.
pub open spec fn names(v: Vec<String>) -> Seq<Seq<char>> {
    v@.map_values(|s: String| s@)
}

/// No two entries of a table share a key.
pub open spec fn keys_unique(e: Seq<(String, Vec<String>)>) -> bool {
    forall|i: int, j: int| 0 <= i < e.len() && 0 <= j < e.len() && i != j ==> e[i].0@ != e[j].0@
}

/// Some entry of a table has key `k`.
pub open spec fn has_key(e: Seq<(String, Vec<String>)>, k: Seq<char>) -> bool {
    exists|i: int| 0 <= i < e.len() && (#[trigger] e[i]).0@ == k
}

/// A table of entries seen as a map from key to its list of names.
pub open spec fn table(e: Seq<(String, Vec<String>)>) -> Map<Seq<char>, Seq<Seq<char>>> {
    Map::new(
        |k: Seq<char>| has_key(e, k),
        |k: Seq<char>| names(e[choose|i: int| 0 <= i < e.len() && (#[trigger] e[i]).0@ == k].1),
    )
}

/// The list of `k` in `m`, empty when `k` has none.
pub open spec fn list_of(m: Map<Seq<char>, Seq<Seq<char>>>, k: Seq<char>) -> Seq<Seq<char>> {
    if m.contains_key(k) {
        m[k]
    } else {
        Seq::empty()
    }
}

/// A list of names without the name `x`.
pub open spec fn without(s: Seq<Seq<char>>, x: Seq<char>) -> Seq<Seq<char>>
    decreases s.len(),
{
    if s.len() == 0 {
        s
    } else if s.last() == x {
        without(s.drop_last(), x)
    } else {
        without(s.drop_last(), x).push(s.last())
    }
}

/// An entry of a table without repeated keys is what the table maps its
/// key to.
pub(crate) proof fn lemma_table_at(e: Seq<(String, Vec<String>)>, i: int)
    requires
        keys_unique(e),
        0 <= i < e.len(),
    ensures
        table(e).contains_key(e[i].0@),
        table(e)[e[i].0@] == names(e[i].1),
{
    let k = e[i].0@;
    assert(has_key(e, k));
    let j = choose|j: int| 0 <= j < e.len() && (#[trigger] e[j]).0@ == k;
    assert(j == i);
}

/// Removing an entry of a table without repeated keys removes its key.
pub(crate) proof fn lemma_table_remove(e: Seq<(String, Vec<String>)>, i: int)
    requires
        keys_unique(e),
        0 <= i < e.len(),
    ensures
        keys_unique(e.remove(i)),
        table(e.remove(i)) == table(e).remove(e[i].0@),
{
    let r = e.remove(i);
    assert forall|a: int| 0 <= a < r.len() implies (#[trigger] r[a]) == e[if a < i {
        a
    } else {
        a + 1
    }] by {}
    assert forall|k: Seq<char>| #[trigger] table(r).contains_key(k) == table(e).remove(e[i].0@).contains_key(
        k,
    ) by {
        if has_key(r, k) {
            let a = choose|a: int| 0 <= a < r.len() && (#[trigger] r[a]).0@ == k;
            let b = if a < i {
                a
            } else {
                a + 1
            };
            assert(e[b].0@ == k);
            assert(has_key(e, k));
        }
        if has_key(e, k) && k != e[i].0@ {
            let b = choose|b: int| 0 <= b < e.len() && (#[trigger] e[b]).0@ == k;
            let a = if b < i {
                b
            } else {
                b - 1
            };
            assert(r[a].0@ == k);
        }
    }
    assert forall|k: Seq<char>| #[trigger] table(r).contains_key(k) implies table(r)[k] == table(e)[k] by {
        let a = choose|a: int| 0 <= a < r.len() && (#[trigger] r[a]).0@ == k;
        let b = if a < i {
            a
        } else {
            a + 1
        };
        lemma_table_at(r, a);
        lemma_table_at(e, b);
    }
    assert(table(r) =~= table(e).remove(e[i].0@));
}

/// Appending an entry with a new key adds that key.
pub(crate) proof fn lemma_table_push(e: Seq<(String, Vec<String>)>, k: String, v: Vec<String>)
    requires
        keys_unique(e),
        !has_key(e, k@),
    ensures
        keys_unique(e.push((k, v))),
        table(e.push((k, v))) == table(e).insert(k@, names(v)),
{
    let r = e.push((k, v));
    assert forall|i: int, j: int| 0 <= i < r.len() && 0 <= j < r.len() && i != j implies r[i].0@ != r[j].0@ by {
        if i == e.len() {
            assert(r[j] == e[j]);
        } else if j == e.len() {
            assert(r[i] == e[i]);
        } else {
            assert(r[i] == e[i]);
            assert(r[j] == e[j]);
        }
    }
    assert forall|q: Seq<char>| #[trigger] table(r).contains_key(q) == table(e).insert(k@, names(v)).contains_key(
        q,
    ) by {
        if has_key(r, q) {
            let a = choose|a: int| 0 <= a < r.len() && (#[trigger] r[a]).0@ == q;
            if a < e.len() {
                assert(r[a] == e[a]);
                assert(has_key(e, q));
            }
        }
        if has_key(e, q) {
            let b = choose|b: int| 0 <= b < e.len() && (#[trigger] e[b]).0@ == q;
            assert(r[b] == e[b]);
            assert(has_key(r, q));
        }
        if q == k@ {
            assert(r[e.len() as int].0@ == q);
            assert(has_key(r, q));
        }
    }
    assert forall|q: Seq<char>| #[trigger] table(r).contains_key(q) implies table(r)[q] == table(e).insert(
        k@,
        names(v),
    )[q] by {
        let a = choose|a: int| 0 <= a < r.len() && (#[trigger] r[a]).0@ == q;
        lemma_table_at(r, a);
        if a < e.len() {
            assert(r[a] == e[a]);
            lemma_table_at(e, a);
        }
    }
    assert(table(r) =~= table(e).insert(k@, names(v)));
}

/// The index of the entry with key `key`, if any.
pub(crate) fn find_entry(e: &Vec<(String, Vec<String>)>, key: &String) -> (r: Option<usize>)
    ensures
        r matches Some(i) ==> i < e@.len() && e@[i as int].0@ == key@,
        r is None ==> !has_key(e@, key@),
{
    let mut i: usize = 0;
    while i < e.len()
        invariant
            0 <= i <= e@.len(),
            forall|j: int| 0 <= j < i ==> (#[trigger] e@[j]).0@ != key@,
        decreases e@.len() - i,
    {
        if e[i].0 == *key {
            return Some(i);
        }
        i = i + 1;
    }
    None
}

/// Whether the list holds the name `x`.
fn contains_name(v: &Vec<String>, x: &String) -> (b: bool)
    ensures
        b == names(*v).contains(x@),
{
    let mut i: usize = 0;
    while i < v.len()
        invariant
            0 <= i <= v@.len(),
            forall|j: int| 0 <= j < i ==> (#[trigger] v@[j])@ != x@,
        decreases v@.len() - i,
    {
        if v[i] == *x {
            assert(names(*v)[i as int] == x@);
            return true;
        }
        i = i + 1;
    }
    proof {
        if names(*v).contains(x@) {
            let j = choose|j: int| 0 <= j < names(*v).len() && names(*v)[j] == x@;
            assert(v@[j]@ == x@);
        }
    }
    false
}

/// The list without the name `x`.
pub(crate) fn without_name(v: &Vec<String>, x: &String) -> (r: Vec<String>)
    ensures
        names(r) == without(names(*v), x@),
{
    let mut r: Vec<String> = Vec::new();
    let mut i: usize = 0;
    proof {
        assert(names(*v).take(0) =~= Seq::<Seq<char>>::empty());
        assert(names(r) =~= Seq::<Seq<char>>::empty());
    }
    while i < v.len()
        invariant
            0 <= i <= v@.len(),
            names(r) == without(names(*v).take(i as int), x@),
        decreases v@.len() - i,
    {
        proof {
            let n = i as int;
            assert(names(*v).take(n + 1).drop_last() =~= names(*v).take(n));
            assert(names(*v).take(n + 1).last() == v@[n]@);
        }
        if !(v[i] == *x) {
            let ghost before = names(r);
            r.push(v[i].clone());
            proof {
                assert(names(r) =~= before.push(v@[i as int]@));
            }
        }
        i = i + 1;
    }
    proof {
        assert(names(*v).take(v@.len() as int) =~= names(*v));
    }
    r
}

/// A copy of a list of names.
pub(crate) fn copy_names(v: &Vec<String>) -> (r: Vec<String>)
    ensures
        names(r) == names(*v),
{
    let r = v.clone();
    proof {
        assert(names(r) =~= names(*v));
    }
    r
}

/// Appends `x` to the list of `key`, creating the entry if missing.
fn append_to(e: &mut Vec<(String, Vec<String>)>, key: &String, x: &String)
    requires
        keys_unique(old(e)@),
    ensures
        keys_unique(final(e)@),
        table(final(e)@) == table(old(e)@).insert(key@, list_of(table(old(e)@), key@).push(x@)),
{
    match find_entry(e, key) {
        Some(i) => {
            proof {
                lemma_table_at(e@, i as int);
                lemma_table_remove(e@, i as int);
            }
            let ghost mid = e@.remove(i as int);
            let (k, mut v) = e.remove(i);
            let ghost before = names(v);
            v.push(x.clone());
            proof {
                assert(names(v) =~= before.push(x@));
                assert(!has_key(mid, k@)) by {
                    if has_key(mid, k@) {
                        let a = choose|a: int| 0 <= a < mid.len() && (#[trigger] mid[a]).0@ == k@;
                        assert(table(mid).contains_key(k@));
                    }
                }
                lemma_table_push(mid, k, v);
            }
            e.push((k, v));
            proof {
                assert(table(e@) =~= table(old(e)@).insert(key@, list_of(table(old(e)@), key@).push(x@)));
            }
        },
        None => {
            let mut v: Vec<String> = Vec::new();
            v.push(x.clone());
            proof {
                assert(names(v) =~= Seq::<Seq<char>>::empty().push(x@));
            }
            let k = key.clone();
            proof {
                lemma_table_push(e@, k, v);
            }
            e.push((k, v));
            proof {
                assert(!table(old(e)@).contains_key(key@));
                assert(table(e@) =~= table(old(e)@).insert(key@, list_of(table(old(e)@), key@).push(x@)));
            }
        },
    }
}

/// Removes the name `x` from the list of `key`, if `key` has one. When
/// `drop_empty` holds and the list is left empty, the entry goes too, and
/// the result says so.
fn remove_from(e: &mut Vec<(String, Vec<String>)>, key: &String, x: &String, drop_empty: bool) -> (dropped: bool)
    requires
        keys_unique(old(e)@),
    ensures
        keys_unique(final(e)@),
        ({
            let t = table(old(e)@);
            if t.contains_key(key@) {
                let l = without(t[key@], x@);
                if drop_empty && l.len() == 0 {
                    &&& dropped
                    &&& table(final(e)@) == t.remove(key@)
                } else {
                    &&& !dropped
                    &&& table(final(e)@) == t.insert(key@, l)
                }
            } else {
                &&& !dropped
                &&& table(final(e)@) == t
            }
        }),
{
    match find_entry(e, key) {
        Some(i) => {
            proof {
                lemma_table_at(e@, i as int);
                lemma_table_remove(e@, i as int);
            }
            let ghost mid = e@.remove(i as int);
            let (k, v) = e.remove(i);
            let l = without_name(&v, x);
            proof {
                assert(!has_key(mid, k@)) by {
                    if has_key(mid, k@) {
                        let a = choose|a: int| 0 <= a < mid.len() && (#[trigger] mid[a]).0@ == k@;
                        assert(table(mid).contains_key(k@));
                    }
                }
            }
            if drop_empty && l.len() == 0 {
                proof {
                    assert(table(e@) =~= table(old(e)@).remove(key@));
                }
                true
            } else {
                proof {
                    lemma_table_push(mid, k, l);
                }
                e.push((k, l));
                proof {
                    assert(table(e@) =~= table(old(e)@).insert(key@, without(table(old(e)@)[key@], x@)));
                }
                false
            }
        },
        None => false,
    }
}

/// Removes the entry of `key`, if any.
fn remove_key(e: &mut Vec<(String, Vec<String>)>, key: &String)
    requires
        keys_unique(old(e)@),
    ensures
        keys_unique(final(e)@),
        table(final(e)@) == table(old(e)@).remove(key@),
{
    match find_entry(e, key) {
        Some(i) => {
            proof {
                lemma_table_remove(e@, i as int);
            }
            e.remove(i);
        },
        None => {
            proof {
                assert(table(e@) =~= table(old(e)@).remove(key@));
            }
        },
    }
}

// ---------------------------------------------------------------------------
// Messages from the bus
// ---------------------------------------------------------------------------

/// Whether `serde_json` reads `text` as a JSON document.
pub uninterp spec fn json_parses(text: Seq<char>) -> bool;

/// Calls `serde_json::from_str::<serde_json::Value>`; the result says only
/// whether it succeeded, which depends on the text alone.
#[verifier::external_body]
fn is_json(text: &str) -> (ok: bool)
    ensures
        ok == json_parses(text@),
{
    serde_json::from_str::<serde_json::Value>(text).is_ok()
}

// ---------------------------------------------------------------------------
// The registry
// ---------------------------------------------------------------------------

/// Subscribing user `u` to channel `c`: the registry afterwards, and the
/// channel to subscribe to on the message bus when `u` is its first user.
/// A user already subscribed to the channel changes nothing.
pub open spec fn subscribe_model(
    subs: Map<Seq<char>, Seq<Seq<char>>>,
    rev: Map<Seq<char>, Seq<Seq<char>>>,
    u: Seq<char>,
    c: Seq<char>,
) -> (Map<Seq<char>, Seq<Seq<char>>>, Map<Seq<char>, Seq<Seq<char>>>, Option<Seq<char>>) {
    if subs.contains_key(u) && subs[u].contains(c) {
        (subs, rev, None)
    } else {
        (
            subs.insert(u, list_of(subs, u).push(c)),
            rev.insert(c, list_of(rev, c).push(u)),
            if list_of(rev, c).len() == 0 {
                Some(c)
            } else {
                None
            },
        )
    }
}

/// Unsubscribing user `u` from channel `c`: the registry afterwards, and the
/// channel to leave on the message bus when `u` was its last user.
pub open spec fn unsubscribe_model(
    subs: Map<Seq<char>, Seq<Seq<char>>>,
    rev: Map<Seq<char>, Seq<Seq<char>>>,
    u: Seq<char>,
    c: Seq<char>,
) -> (Map<Seq<char>, Seq<Seq<char>>>, Map<Seq<char>, Seq<Seq<char>>>, Option<Seq<char>>) {
    let subs2 = if subs.contains_key(u) {
        subs.insert(u, without(subs[u], c))
    } else {
        subs
    };
    if rev.contains_key(c) {
        let users = without(rev[c], u);
        if users.len() == 0 {
            (subs2, rev.remove(c), Some(c))
        } else {
            (subs2, rev.insert(c, users), None)
        }
    } else {
        (subs2, rev, None)
    }
}

/// Unsubscribing user `u` from each of `channels` in turn: the registry
/// afterwards and the channels to leave on the message bus, in order.
pub open spec fn leave_model(
    subs: Map<Seq<char>, Seq<Seq<char>>>,
    rev: Map<Seq<char>, Seq<Seq<char>>>,
    u: Seq<char>,
    channels: Seq<Seq<char>>,
) -> (Map<Seq<char>, Seq<Seq<char>>>, Map<Seq<char>, Seq<Seq<char>>>, Seq<Seq<char>>)
    decreases channels.len(),
{
    if channels.len() == 0 {
        (subs, rev, Seq::empty())
    } else {
        let s = unsubscribe_model(subs, rev, u, channels[0]);
        let r = leave_model(s.0, s.1, u, channels.drop_first());
        (
            r.0,
            r.1,
            match s.2 {
                Some(c) => seq![c] + r.2,
                None => r.2,
            },
        )
    }
}

// ---------------------------------------------------------------------------
// Laws of the registry
// ---------------------------------------------------------------------------

/// The two directions of the registry agree: user `u` lists channel `c`
/// exactly when `c` lists `u`; no list names anyone twice; and a channel
/// that is listed has at least one user.
pub open spec fn consistent(subs: Map<Seq<char>, Seq<Seq<char>>>, rev: Map<Seq<char>, Seq<Seq<char>>>) -> bool {
    &&& forall|u: Seq<char>, c: Seq<char>|
        #![trigger list_of(subs, u).contains(c), list_of(rev, c).contains(u)]
        list_of(subs, u).contains(c) <==> list_of(rev, c).contains(u)
    &&& forall|u: Seq<char>| #[trigger] subs.contains_key(u) ==> subs[u].no_duplicates()
    &&& forall|c: Seq<char>| #[trigger] rev.contains_key(c) ==> rev[c].no_duplicates() && rev[c].len() > 0
}

/// What is left of a list without `x` is what it held other than `x`.
pub proof fn lemma_without_contains(s: Seq<Seq<char>>, x: Seq<char>, y: Seq<char>)
    ensures
        without(s, x).contains(y) <==> s.contains(y) && y != x,
    decreases s.len(),
{
    if s.len() > 0 {
        let d = s.drop_last();
        lemma_without_contains(d, x, y);
        assert(s =~= d.push(s.last()));
        if d.contains(y) {
            let i = choose|i: int| 0 <= i < d.len() && d[i] == y;
            assert(s[i] == y);
        }
        if s.contains(y) {
            let i = choose|i: int| 0 <= i < s.len() && s[i] == y;
            if i < d.len() {
                assert(d[i] == y);
            }
        }
        if s.last() != x {
            let w = without(d, x);
            assert(without(s, x) == w.push(s.last()));
            if w.push(s.last()).contains(y) {
                let i = choose|i: int| 0 <= i < w.push(s.last()).len() && w.push(s.last())[i] == y;
                if i < w.len() {
                    assert(w[i] == y);
                }
            }
            if w.contains(y) {
                let i = choose|i: int| 0 <= i < w.len() && w[i] == y;
                assert(w.push(s.last())[i] == y);
            }
            assert(w.push(s.last())[w.len() as int] == s.last());
        }
    }
}

/// Dropping a name keeps a list free of repeats.
proof fn lemma_without_no_duplicates(s: Seq<Seq<char>>, x: Seq<char>)
    requires
        s.no_duplicates(),
    ensures
        without(s, x).no_duplicates(),
    decreases s.len(),
{
    if s.len() > 0 {
        let d = s.drop_last();
        assert(d.no_duplicates());
        lemma_without_no_duplicates(d, x);
        if s.last() != x {
            let w = without(d, x);
            lemma_without_contains(d, x, s.last());
            assert(!d.contains(s.last())) by {
                if d.contains(s.last()) {
                    let i = choose|i: int| 0 <= i < d.len() && d[i] == s.last();
                    assert(s[i] == s[s.len() - 1]);
                }
            }
            let v = w.push(s.last());
            assert forall|i: int, j: int| 0 <= i < v.len() && 0 <= j < v.len() && i != j implies v[i] != v[j] by {
                if i == w.len() {
                    assert(v[j] == w[j]);
                    assert(w.contains(w[j]));
                } else if j == w.len() {
                    assert(v[i] == w[i]);
                    assert(w.contains(w[i]));
                }
            }
        }
    }
}

/// Dropping a name a list does not hold leaves the list as it was.
proof fn lemma_without_absent(s: Seq<Seq<char>>, x: Seq<char>)
    requires
        !s.contains(x),
    ensures
        without(s, x) == s,
    decreases s.len(),
{
    if s.len() > 0 {
        let d = s.drop_last();
        assert(!d.contains(x)) by {
            if d.contains(x) {
                let i = choose|i: int| 0 <= i < d.len() && d[i] == x;
                assert(s[i] == x);
            }
        }
        lemma_without_absent(d, x);
        assert(s.last() != x) by {
            assert(s[s.len() - 1] == s.last());
        }
        assert(s =~= d.push(s.last()));
    }
}

/// Whether a name is not `x`.
pub open spec fn other_name(x: Seq<char>) -> spec_fn(Seq<char>) -> bool {
    |y: Seq<char>| y != x
}

/// A list without `x` is the list filtered to the names other than `x`, in
/// their order.
pub proof fn lemma_without_is_filter(s: Seq<Seq<char>>, x: Seq<char>)
    ensures
        without(s, x) == s.filter(other_name(x)),
    decreases s.len(),
{
    reveal(Seq::filter);
    if s.len() > 0 {
        lemma_without_is_filter(s.drop_last(), x);
        assert(s.filter(other_name(x)) == if other_name(x)(s.last()) {
            s.drop_last().filter(other_name(x)).push(s.last())
        } else {
            s.drop_last().filter(other_name(x))
        });
    }
}

/// A list without repeats that holds `u` is left empty without `u` exactly
/// when `u` is all it holds.
proof fn lemma_without_empty_iff_single(s: Seq<Seq<char>>, u: Seq<char>)
    requires
        s.no_duplicates(),
        s.contains(u),
    ensures
        without(s, u).len() == 0 <==> s == seq![u],
{
    if without(s, u).len() == 0 {
        assert forall|i: int| 0 <= i < s.len() implies s[i] == u by {
            lemma_without_contains(s, u, s[i]);
            if s[i] != u {
                assert(s.contains(s[i]));
                assert(without(s, u).contains(s[i]));
            }
        }
        if s.len() >= 2 {
            assert(s[0] == s[1]);
        }
        assert(s =~= seq![u]);
    }
    if s == seq![u] {
        assert(s.drop_last() =~= Seq::<Seq<char>>::empty());
        assert(s.last() == u);
        assert(without(s.drop_last(), u).len() == 0);
        assert(without(s, u) == without(s.drop_last(), u));
    }
}

proof fn lemma_leave_closes(
    subs: Map<Seq<char>, Seq<Seq<char>>>,
    rev: Map<Seq<char>, Seq<Seq<char>>>,
    u: Seq<char>,
    chs: Seq<Seq<char>>,
)
    requires
        chs.no_duplicates(),
        forall|i: int|
            0 <= i < chs.len() ==> rev.contains_key(#[trigger] chs[i]) && rev[chs[i]].contains(u)
                && rev[chs[i]].no_duplicates(),
    ensures
        forall|c: Seq<char>| #[trigger]
            leave_model(subs, rev, u, chs).2.contains(c) <==> chs.contains(c) && list_of(rev, c) == seq![u],
    decreases chs.len(),
{
    if chs.len() > 0 {
        let c0 = chs[0];
        let rest = chs.drop_first();
        let s = unsubscribe_model(subs, rev, u, c0);
        assert(rev.contains_key(c0) && rev[c0].contains(u) && rev[c0].no_duplicates());
        lemma_without_empty_iff_single(rev[c0], u);
        assert(rest.no_duplicates());
        assert(!rest.contains(c0)) by {
            if rest.contains(c0) {
                let j = choose|j: int| 0 <= j < rest.len() && rest[j] == c0;
                assert(chs[j + 1] == chs[0]);
            }
        }
        assert forall|c: Seq<char>| c != c0 implies #[trigger] list_of(s.1, c) == list_of(rev, c) by {}
        assert forall|i: int| 0 <= i < rest.len() implies s.1.contains_key(#[trigger] rest[i]) && s.1[rest[i]].contains(u)
            && s.1[rest[i]].no_duplicates() by {
            assert(rest[i] == chs[i + 1]);
            assert(rest[i] != c0);
            assert(list_of(s.1, rest[i]) == list_of(rev, rest[i]));
        }
        lemma_leave_closes(s.0, s.1, u, rest);
        let r = leave_model(s.0, s.1, u, rest);
        let out = leave_model(subs, rev, u, chs).2;
        assert(s.2 is Some <==> list_of(rev, c0) == seq![u]);
        assert forall|c: Seq<char>| #[trigger] out.contains(c) <==> chs.contains(c) && list_of(rev, c) == seq![u] by {
            assert(chs.contains(c) <==> c == c0 || rest.contains(c)) by {
                if chs.contains(c) {
                    let j = choose|j: int| 0 <= j < chs.len() && chs[j] == c;
                    if j > 0 {
                        assert(rest[j - 1] == c);
                    }
                }
                if rest.contains(c) {
                    let j = choose|j: int| 0 <= j < rest.len() && rest[j] == c;
                    assert(chs[j + 1] == c);
                }
                if c == c0 {
                    assert(chs[0] == c);
                }
            }
            assert(r.2.contains(c) <==> rest.contains(c) && list_of(s.1, c) == seq![u]);
            if s.2 is Some {
                assert(out == seq![c0] + r.2);
                assert(out.contains(c) <==> c == c0 || r.2.contains(c)) by {
                    if out.contains(c) {
                        let j = choose|j: int| 0 <= j < out.len() && out[j] == c;
                        if j > 0 {
                            assert(r.2[j - 1] == c);
                        }
                    }
                    if r.2.contains(c) {
                        let j = choose|j: int| 0 <= j < r.2.len() && r.2[j] == c;
                        assert(out[j + 1] == c);
                    }
                    if c == c0 {
                        assert(out[0] == c);
                    }
                }
            } else {
                assert(out == r.2);
            }
        }
    }
}

/// A user who leaves has the server leave exactly those channels of the
/// user's list that had the user as their only user.
pub proof fn lemma_leave_closes_the_channels_left_empty(
    subs: Map<Seq<char>, Seq<Seq<char>>>,
    rev: Map<Seq<char>, Seq<Seq<char>>>,
    u: Seq<char>,
)
    requires
        consistent(subs, rev),
    ensures
        forall|c: Seq<char>| #[trigger]
            leave_model(subs, rev, u, list_of(subs, u)).2.contains(c) <==> list_of(subs, u).contains(c)
                && list_of(rev, c) == seq![u],
{
    let chs = list_of(subs, u);
    assert(chs.no_duplicates());
    assert forall|i: int| 0 <= i < chs.len() implies rev.contains_key(#[trigger] chs[i]) && rev[chs[i]].contains(u)
        && rev[chs[i]].no_duplicates() by {
        let c = chs[i];
        assert(chs.contains(c));
        assert(list_of(subs, u).contains(c) == list_of(rev, c).contains(u));
        assert(list_of(rev, c).contains(u));
    }
    lemma_leave_closes(subs, rev, u, chs);
}

/// Subscribing keeps the registry consistent, and the bus is asked to
/// subscribe exactly when the channel had no user.
pub proof fn lemma_subscribe_consistent(
    subs: Map<Seq<char>, Seq<Seq<char>>>,
    rev: Map<Seq<char>, Seq<Seq<char>>>,
    u: Seq<char>,
    c: Seq<char>,
)
    requires
        consistent(subs, rev),
    ensures
        ({
            let r = subscribe_model(subs, rev, u, c);
            &&& consistent(r.0, r.1)
            &&& list_of(r.0, u).contains(c)
            &&& list_of(r.1, c).contains(u)
            &&& (r.2 is Some <==> !list_of(rev, c).contains(u) && !rev.contains_key(c))
        }),
{
    let r = subscribe_model(subs, rev, u, c);
    if subs.contains_key(u) && subs[u].contains(c) {
        assert(list_of(subs, u).contains(c));
        assert(list_of(rev, c).contains(u));
    } else {
        assert(!list_of(subs, u).contains(c));
        assert(!list_of(rev, c).contains(u));
        let su = list_of(subs, u);
        let rc = list_of(rev, c);
        assert(su.push(c)[su.len() as int] == c);
        assert(rc.push(u)[rc.len() as int] == u);
        assert forall|x: Seq<char>, y: Seq<char>| #![trigger list_of(r.0, x).contains(y), list_of(r.1, y).contains(x)]
            list_of(r.0, x).contains(y) <==> list_of(r.1, y).contains(x) by {
            assert(list_of(subs, x).contains(y) <==> list_of(rev, y).contains(x));
            if x == u {
                assert(list_of(r.0, x) == su.push(c));
                if su.push(c).contains(y) && y != c {
                    let i = choose|i: int| 0 <= i < su.push(c).len() && su.push(c)[i] == y;
                    assert(su[i] == y);
                }
                if su.contains(y) {
                    let i = choose|i: int| 0 <= i < su.len() && su[i] == y;
                    assert(su.push(c)[i] == y);
                }
            }
            if y == c {
                assert(list_of(r.1, y) == rc.push(u));
                if rc.push(u).contains(x) && x != u {
                    let i = choose|i: int| 0 <= i < rc.push(u).len() && rc.push(u)[i] == x;
                    assert(rc[i] == x);
                }
                if rc.contains(x) {
                    let i = choose|i: int| 0 <= i < rc.len() && rc[i] == x;
                    assert(rc.push(u)[i] == x);
                }
            }
        }
        assert forall|x: Seq<char>| #[trigger] r.0.contains_key(x) implies r.0[x].no_duplicates() by {
            if x == u {
                assert forall|i: int, j: int| 0 <= i < su.push(c).len() && 0 <= j < su.push(c).len() && i != j implies su.push(c)[i] != su.push(c)[j] by {
                    if i == su.len() {
                        assert(su.contains(su[j]));
                    } else if j == su.len() {
                        assert(su.contains(su[i]));
                    }
                }
            }
        }
        assert forall|y: Seq<char>| #[trigger] r.1.contains_key(y) implies r.1[y].no_duplicates() && r.1[y].len() > 0 by {
            if y == c {
                assert forall|i: int, j: int| 0 <= i < rc.push(u).len() && 0 <= j < rc.push(u).len() && i != j implies rc.push(u)[i] != rc.push(u)[j] by {
                    if i == rc.len() {
                        assert(rc.contains(rc[j]));
                    } else if j == rc.len() {
                        assert(rc.contains(rc[i]));
                    }
                }
            }
        }
        assert(list_of(r.0, u).contains(c));
        assert(list_of(r.1, c).contains(u));
    }
}

/// Unsubscribing keeps the registry consistent and leaves the user and the
/// channel unconnected.
pub proof fn lemma_unsubscribe_consistent(
    subs: Map<Seq<char>, Seq<Seq<char>>>,
    rev: Map<Seq<char>, Seq<Seq<char>>>,
    u: Seq<char>,
    c: Seq<char>,
)
    requires
        consistent(subs, rev),
    ensures
        ({
            let r = unsubscribe_model(subs, rev, u, c);
            &&& consistent(r.0, r.1)
            &&& !list_of(r.0, u).contains(c)
            &&& !list_of(r.1, c).contains(u)
            &&& r.0.contains_key(u) == subs.contains_key(u)
            &&& forall|y: Seq<char>| #[trigger] list_of(r.0, u).contains(y) <==> list_of(subs, u).contains(y) && y != c
            &&& forall|x: Seq<char>| x != u ==> #[trigger] list_of(r.0, x) == list_of(subs, x)
        }),
{
    let r = unsubscribe_model(subs, rev, u, c);
    let su = list_of(subs, u);
    let rc = list_of(rev, c);
    assert forall|y: Seq<char>| #[trigger] list_of(r.0, u).contains(y) <==> su.contains(y) && y != c by {
        if subs.contains_key(u) {
            lemma_without_contains(subs[u], c, y);
        }
    }
    assert forall|x: Seq<char>| #[trigger] list_of(r.1, c).contains(x) <==> rc.contains(x) && x != u by {
        if rev.contains_key(c) {
            lemma_without_contains(rev[c], u, x);
            if without(rev[c], u).len() == 0 && rc.contains(x) && x != u {
                assert(without(rev[c], u).contains(x));
                let i = choose|i: int| 0 <= i < without(rev[c], u).len() && without(rev[c], u)[i] == x;
            }
        }
    }
    assert(!list_of(r.0, u).contains(c));
    assert(!list_of(r.1, c).contains(u));
    assert forall|x: Seq<char>, y: Seq<char>| #![trigger list_of(r.0, x).contains(y), list_of(r.1, y).contains(x)]
        list_of(r.0, x).contains(y) <==> list_of(r.1, y).contains(x) by {
        assert(list_of(subs, x).contains(y) <==> list_of(rev, y).contains(x));
        if x == u {
            assert(list_of(r.0, x).contains(y) <==> su.contains(y) && y != c);
        }
        if y == c {
            assert(list_of(r.1, y).contains(x) <==> rc.contains(x) && x != u);
        }
    }
    assert forall|x: Seq<char>| #[trigger] r.0.contains_key(x) implies r.0[x].no_duplicates() by {
        if x == u {
            lemma_without_no_duplicates(subs[u], c);
        }
    }
    assert forall|y: Seq<char>| #[trigger] r.1.contains_key(y) implies r.1[y].no_duplicates() && r.1[y].len() > 0 by {
        if y == c {
            lemma_without_no_duplicates(rev[c], u);
        }
    }
}

/// Unsubscribing a user from channels in turn keeps the registry consistent,
/// leaves none of those channels listing the user, and takes exactly those
/// channels off the user's list.
pub proof fn lemma_leave_consistent(
    subs: Map<Seq<char>, Seq<Seq<char>>>,
    rev: Map<Seq<char>, Seq<Seq<char>>>,
    u: Seq<char>,
    channels: Seq<Seq<char>>,
)
    requires
        consistent(subs, rev),
    ensures
        ({
            let r = leave_model(subs, rev, u, channels);
            &&& consistent(r.0, r.1)
            &&& r.0.contains_key(u) == subs.contains_key(u)
            &&& forall|y: Seq<char>| #[trigger] list_of(r.0, u).contains(y) <==> list_of(subs, u).contains(y)
                && !channels.contains(y)
            &&& forall|x: Seq<char>| x != u ==> #[trigger] list_of(r.0, x) == list_of(subs, x)
        }),
    decreases channels.len(),
{
    if channels.len() > 0 {
        let c = channels[0];
        let s = unsubscribe_model(subs, rev, u, c);
        lemma_unsubscribe_consistent(subs, rev, u, c);
        let rest = channels.drop_first();
        lemma_leave_consistent(s.0, s.1, u, rest);
        let r = leave_model(subs, rev, u, channels);
        assert forall|y: Seq<char>| #[trigger] list_of(r.0, u).contains(y) <==> list_of(subs, u).contains(y)
            && !channels.contains(y) by {
            assert(channels.contains(y) <==> y == c || rest.contains(y)) by {
                if channels.contains(y) {
                    let i = choose|i: int| 0 <= i < channels.len() && channels[i] == y;
                    if i > 0 {
                        assert(rest[i - 1] == y);
                    }
                }
                if rest.contains(y) {
                    let i = choose|i: int| 0 <= i < rest.len() && rest[i] == y;
                    assert(channels[i + 1] == y);
                }
                if y == c {
                    assert(channels[0] == y);
                }
            }
            assert(list_of(s.0, u).contains(y) <==> list_of(subs, u).contains(y) && y != c);
        }
        assert forall|x: Seq<char>| x != u implies #[trigger] list_of(r.0, x) == list_of(subs, x) by {
            assert(list_of(s.0, x) == list_of(subs, x));
        }
    }
}

/// A user that leaves is gone from the registry, and the registry stays
/// consistent.
pub proof fn lemma_user_left_consistent(
    subs: Map<Seq<char>, Seq<Seq<char>>>,
    rev: Map<Seq<char>, Seq<Seq<char>>>,
    u: Seq<char>,
)
    requires
        consistent(subs, rev),
    ensures
        ({
            let r = leave_model(subs, rev, u, list_of(subs, u));
            let after = r.0.remove(u);
            &&& consistent(after, r.1)
            &&& !after.contains_key(u)
            &&& forall|c: Seq<char>| !(#[trigger] list_of(r.1, c)).contains(u)
        }),
{
    let l = list_of(subs, u);
    lemma_leave_consistent(subs, rev, u, l);
    let r = leave_model(subs, rev, u, l);
    let after = r.0.remove(u);
    assert forall|y: Seq<char>| !(#[trigger] list_of(r.0, u)).contains(y) by {
        assert(list_of(r.0, u).contains(y) <==> l.contains(y) && !l.contains(y));
    }
    assert forall|c: Seq<char>| !(#[trigger] list_of(r.1, c)).contains(u) by {
        assert(list_of(r.0, u).contains(c) <==> list_of(r.1, c).contains(u));
    }
    assert forall|x: Seq<char>, y: Seq<char>| #![trigger list_of(after, x).contains(y), list_of(r.1, y).contains(x)]
        list_of(after, x).contains(y) <==> list_of(r.1, y).contains(x) by {
        assert(list_of(r.0, x).contains(y) <==> list_of(r.1, y).contains(x));
        if x != u {
            assert(list_of(after, x) == list_of(r.0, x));
        } else {
            assert(list_of(after, x) == Seq::<Seq<char>>::empty());
            assert(!list_of(r.1, y).contains(u));
        }
    }
}

/// Subscribing a registered user to a channel it does not follow, then
/// unsubscribing it, restores the registry; the bus is asked to subscribe
/// and later to leave exactly when the channel had no other user.
pub proof fn lemma_subscribe_unsubscribe_round_trip(
    subs: Map<Seq<char>, Seq<Seq<char>>>,
    rev: Map<Seq<char>, Seq<Seq<char>>>,
    u: Seq<char>,
    c: Seq<char>,
)
    requires
        consistent(subs, rev),
        subs.contains_key(u),
        !subs[u].contains(c),
    ensures
        ({
            let a = subscribe_model(subs, rev, u, c);
            let b = unsubscribe_model(a.0, a.1, u, c);
            &&& b.0 == subs
            &&& b.1 == rev
            &&& (a.2 is Some <==> b.2 is Some)
            &&& (a.2 is Some <==> !rev.contains_key(c))
        }),
{
    let a = subscribe_model(subs, rev, u, c);
    let b = unsubscribe_model(a.0, a.1, u, c);
    let su = subs[u];
    let rc = list_of(rev, c);
    assert(!list_of(subs, u).contains(c));
    assert(!rc.contains(u));
    lemma_without_absent(su, c);
    assert(su.push(c).drop_last() =~= su);
    assert(without(su.push(c), c) == without(su, c));
    assert(b.0 =~= subs);
    lemma_without_absent(rc, u);
    assert(rc.push(u).drop_last() =~= rc);
    assert(without(rc.push(u), u) == rc);
    if rev.contains_key(c) {
        assert(rc.len() > 0);
        assert(b.1 =~= rev);
    } else {
        assert(b.1 =~= rev);
    }
}

/// Which channels each user follows, and which users follow each channel.
pub struct SubscriptionManager {
    subscriptions: Vec<(String, Vec<String>)>,
    reverse_subscriptions: Vec<(String, Vec<String>)>,
}

impl SubscriptionManager {
    /// The channels of each user, in the order the user subscribed.
    pub closed spec fn user_channels(&self) -> Map<Seq<char>, Seq<Seq<char>>> {
        table(self.subscriptions@)
    }

    /// The users of each channel, in the order they subscribed.
    pub closed spec fn channel_users(&self) -> Map<Seq<char>, Seq<Seq<char>>> {
        table(self.reverse_subscriptions@)
    }

    /// Each user and each channel has one entry, and the two directions of
    /// the registry agree.
    pub closed spec fn wf(&self) -> bool {
        &&& keys_unique(self.subscriptions@)
        &&& keys_unique(self.reverse_subscriptions@)
        &&& consistent(self.user_channels(), self.channel_users())
    }

    /// In every state the manager reaches, the two directions of the
    /// registry agree: a user lists a channel exactly when the channel lists
    /// the user, no list names anyone twice, and every listed channel has a
    /// user.
    pub proof fn lemma_always_consistent(&self)
        requires
            self.wf(),
        ensures
            consistent(self.user_channels(), self.channel_users()),
    {
    }

    /// An empty registry.
    pub fn new() -> (m: Self)
        ensures
            m.wf(),
            m.user_channels() == Map::<Seq<char>, Seq<Seq<char>>>::empty(),
            m.channel_users() == Map::<Seq<char>, Seq<Seq<char>>>::empty(),
    {
        let m = SubscriptionManager { subscriptions: Vec::new(), reverse_subscriptions: Vec::new() };
        assert(m.user_channels() =~= Map::<Seq<char>, Seq<Seq<char>>>::empty());
        assert(m.channel_users() =~= Map::<Seq<char>, Seq<Seq<char>>>::empty());
        m
    }

    /// Subscribes `user_id` to `subscription`. Returns the channel when the
    /// server has to subscribe to it on the message bus, that is when the
    /// user is its first; a repeated subscription changes nothing.
    pub fn subscribe(&mut self, user_id: &str, subscription: String) -> (first: Option<String>)
        requires
            old(self).wf(),
        ensures
            final(self).wf(),
            ({
                let r = subscribe_model(
                    old(self).user_channels(),
                    old(self).channel_users(),
                    user_id@,
                    subscription@,
                );
                &&& final(self).user_channels() == r.0
                &&& final(self).channel_users() == r.1
                &&& match r.2 {
                    Some(c) => first matches Some(f) && f@ == c,
                    None => first is None,
                }
            }),
    {
        proof {
            lemma_subscribe_consistent(self.user_channels(), self.channel_users(), user_id@, subscription@);
        }
        let user = <String as StringExecFns>::from_str(user_id);
        match find_entry(&self.subscriptions, &user) {
            Some(i) => {
                proof {
                    lemma_table_at(self.subscriptions@, i as int);
                }
                if contains_name(&self.subscriptions[i].1, &subscription) {
                    return None;
                }
            },
            None => {},
        }
        proof {
            assert(!(old(self).user_channels().contains_key(user_id@) && old(
                self,
            ).user_channels()[user_id@].contains(subscription@)));
        }
        append_to(&mut self.subscriptions, &user, &subscription);
        let ghost rev0 = self.channel_users();
        assert(rev0 == old(self).channel_users());
        append_to(&mut self.reverse_subscriptions, &subscription, &user);
        assert(self.channel_users()[subscription@] == list_of(rev0, subscription@).push(user_id@));
        match find_entry(&self.reverse_subscriptions, &subscription) {
            Some(i) => {
                proof {
                    lemma_table_at(self.reverse_subscriptions@, i as int);
                    assert(names(self.reverse_subscriptions@[i as int].1).len()
                        == self.reverse_subscriptions@[i as int].1@.len());
                }
                if self.reverse_subscriptions[i].1.len() == 1 {
                    Some(subscription)
                } else {
                    None
                }
            },
            None => {
                proof {
                    assert(self.channel_users().contains_key(subscription@));
                }
                None
            },
        }
    }

    /// Unsubscribes `user_id` from `subscription`. Returns the channel when
    /// the server has to leave it on the message bus, that is when the user
    /// was its last; the channel's entry is then dropped.
    pub fn unsubscribe(&mut self, user_id: &str, subscription: &str) -> (last: Option<String>)
        requires
            old(self).wf(),
        ensures
            final(self).wf(),
            ({
                let r = unsubscribe_model(
                    old(self).user_channels(),
                    old(self).channel_users(),
                    user_id@,
                    subscription@,
                );
                &&& final(self).user_channels() == r.0
                &&& final(self).channel_users() == r.1
                &&& match r.2 {
                    Some(c) => last matches Some(f) && f@ == c,
                    None => last is None,
                }
            }),
    {
        proof {
            lemma_unsubscribe_consistent(self.user_channels(), self.channel_users(), user_id@, subscription@);
        }
        let user = <String as StringExecFns>::from_str(user_id);
        let channel = <String as StringExecFns>::from_str(subscription);
        remove_from(&mut self.subscriptions, &user, &channel, false);
        if remove_from(&mut self.reverse_subscriptions, &channel, &user, true) {
            Some(channel)
        } else {
            None
        }
    }

    /// The channels of `user_id`, in the order it subscribed to them.
    pub fn get_subscriptions(&self, user_id: &str) -> (channels: Vec<String>)
        requires
            self.wf(),
        ensures
            names(channels) == list_of(self.user_channels(), user_id@),
    {
        let user = <String as StringExecFns>::from_str(user_id);
        match find_entry(&self.subscriptions, &user) {
            Some(i) => {
                proof {
                    lemma_table_at(self.subscriptions@, i as int);
                }
                copy_names(&self.subscriptions[i].1)
            },
            None => {
                let v: Vec<String> = Vec::new();
                proof {
                    assert(names(v) =~= Seq::<Seq<char>>::empty());
                }
                v
            },
        }
    }

    /// A user leaves: it is unsubscribed from each of its channels in turn
    /// and its entry is dropped. Returns the channels the server has to
    /// leave on the message bus, in order.
    pub fn user_left(&mut self, user_id: &str) -> (closed: Vec<String>)
        requires
            old(self).wf(),
        ensures
            final(self).wf(),
            ({
                let r = leave_model(
                    old(self).user_channels(),
                    old(self).channel_users(),
                    user_id@,
                    list_of(old(self).user_channels(), user_id@),
                );
                &&& final(self).user_channels() == r.0.remove(user_id@)
                &&& final(self).channel_users() == r.1
                &&& names(closed) == r.2
            }),
    {
        proof {
            lemma_user_left_consistent(self.user_channels(), self.channel_users(), user_id@);
        }
        let channels = self.get_subscriptions(user_id);
        let ghost list = names(channels);
        let ghost subs0 = self.user_channels();
        let ghost rev0 = self.channel_users();
        let ghost full = leave_model(subs0, rev0, user_id@, list);
        let mut closed: Vec<String> = Vec::new();
        let mut i: usize = 0;
        proof {
            assert(list.skip(0) =~= list);
            assert(names(closed) =~= Seq::<Seq<char>>::empty());
        }
        while i < channels.len()
            invariant
                0 <= i <= channels@.len(),
                list == names(channels),
                self.wf(),
                ({
                    let r = leave_model(self.user_channels(), self.channel_users(), user_id@, list.skip(i as int));
                    &&& full.0 == r.0
                    &&& full.1 == r.1
                    &&& full.2 == names(closed) + r.2
                }),
            decreases channels@.len() - i,
        {
            proof {
                let s = list.skip(i as int);
                assert(s[0] == channels@[i as int]@);
                assert(s.drop_first() =~= list.skip(i as int + 1));
            }
            let ghost before = names(closed);
            match self.unsubscribe(user_id, channels[i].as_str()) {
                Some(c) => {
                    closed.push(c);
                    proof {
                        assert(names(closed) =~= before.push(channels@[i as int]@));
                        assert(before.push(channels@[i as int]@) + leave_model(
                            self.user_channels(),
                            self.channel_users(),
                            user_id@,
                            list.skip(i as int + 1),
                        ).2 =~= before + (seq![channels@[i as int]@] + leave_model(
                            self.user_channels(),
                            self.channel_users(),
                            user_id@,
                            list.skip(i as int + 1),
                        ).2));
                    }
                },
                None => {},
            }
            i = i + 1;
        }
        proof {
            assert(list.skip(i as int) =~= Seq::<Seq<char>>::empty());
            assert(names(closed) + Seq::<Seq<char>>::empty() =~= names(closed));
        }
        let user = <String as StringExecFns>::from_str(user_id);
        remove_key(&mut self.subscriptions, &user);
        closed
    }

    /// A message published on `channel`: when it is a JSON document, the
    /// users of the channel that it goes to, in order; otherwise none.
    pub fn handle_redis_message(&self, channel: &str, message: &str) -> (recipients: Vec<String>)
        requires
            self.wf(),
        ensures
            names(recipients) == if json_parses(message@) {
                list_of(self.channel_users(), channel@)
            } else {
                Seq::empty()
            },
    {
        if is_json(message) {
            let key = <String as StringExecFns>::from_str(channel);
            match find_entry(&self.reverse_subscriptions, &key) {
                Some(i) => {
                    proof {
                        lemma_table_at(self.reverse_subscriptions@, i as int);
                    }
                    return copy_names(&self.reverse_subscriptions[i].1);
                },
                None => {},
            }
        }
        let v: Vec<String> = Vec::new();
        proof {
            assert(names(v) =~= Seq::<Seq<char>>::empty());
        }
        v
    }
}

} // verus!
