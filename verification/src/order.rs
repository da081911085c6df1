//! Lexicographic string order and a stable sort by string key, the order in
//! which discovered devices and GPU mappings are reported.

use vstd::prelude::*;

verus! {

/// `a < b` in the order of `str::cmp` (code point by code point, a proper
/// prefix first).
pub open spec fn lex_lt(a: Seq<char>, b: Seq<char>) -> bool
    decreases a.len(),
{
    if a.len() == 0 {
        b.len() > 0
    } else if b.len() == 0 {
        false
    } else if a[0] != b[0] {
        (a[0] as int) < (b[0] as int)
    } else {
        lex_lt(a.drop_first(), b.drop_first())
    }
}

pub proof fn lemma_lex_irreflexive(a: Seq<char>)
    ensures
        !lex_lt(a, a),
    decreases a.len(),
{
    if a.len() > 0 {
        lemma_lex_irreflexive(a.drop_first());
    }
}

pub proof fn lemma_lex_asymmetric(a: Seq<char>, b: Seq<char>)
    ensures
        !(lex_lt(a, b) && lex_lt(b, a)),
    decreases a.len(),
{
    if a.len() > 0 && b.len() > 0 && a[0] == b[0] {
        lemma_lex_asymmetric(a.drop_first(), b.drop_first());
    }
}

pub proof fn lemma_lex_transitive(a: Seq<char>, b: Seq<char>, c: Seq<char>)
    requires
        lex_lt(a, b),
        lex_lt(b, c),
    ensures
        lex_lt(a, c),
    decreases a.len(),
{
    if a.len() > 0 && b.len() > 0 && c.len() > 0 {
        if a[0] == b[0] && b[0] == c[0] {
            lemma_lex_transitive(a.drop_first(), b.drop_first(), c.drop_first());
        }
    }
}

pub proof fn lemma_lex_total(a: Seq<char>, b: Seq<char>)
    requires
        a != b,
    ensures
        lex_lt(a, b) || lex_lt(b, a),
    decreases a.len(),
{
    if a.len() > 0 && b.len() > 0 {
        if a[0] == b[0] {
            if a.drop_first() == b.drop_first() {
                assert(a =~= seq![a[0]] + a.drop_first());
                assert(b =~= seq![b[0]] + b.drop_first());
            }
            lemma_lex_total(a.drop_first(), b.drop_first());
        } else {
            let x = a[0];
            let y = b[0];
            assert((x as int) != (y as int));
        }
    } else if a.len() == 0 && b.len() == 0 {
        assert(a =~= b);
    }
}

/// `!(b < a)`: `a` may stand before `b`.
pub open spec fn lex_le(a: Seq<char>, b: Seq<char>) -> bool {
    !lex_lt(b, a)
}

pub fn lex_lt_exec(a: &[char], b: &[char]) -> (r: bool)
    ensures
        r == lex_lt(a@, b@),
{
    let mut i: usize = 0;
    assert(a@.skip(0) =~= a@);
    assert(b@.skip(0) =~= b@);
    while i < a.len() && i < b.len()
        invariant
            i <= a@.len(),
            i <= b@.len(),
            lex_lt(a@, b@) == lex_lt(a@.skip(i as int), b@.skip(i as int)),
        decreases a@.len() - i,
    {
        let ghost sa = a@.skip(i as int);
        let ghost sb = b@.skip(i as int);
        assert(sa[0] == a@[i as int] && sb[0] == b@[i as int]);
        if a[i] != b[i] {
            return a[i] < b[i];
        }
        assert(sa.drop_first() =~= a@.skip(i + 1));
        assert(sb.drop_first() =~= b@.skip(i + 1));
        i = i + 1;
    }
    a.len() < b.len()
}

// ---------------------------------------------------------------------------
// Stable sort by key
// ---------------------------------------------------------------------------

/// Keys never decrease along `s`.
pub open spec fn sorted_by_key<T>(s: Seq<(Seq<char>, T)>) -> bool {
    forall|i: int, j: int| 0 <= i < j < s.len() ==> lex_le(#[trigger] s[i].0, #[trigger] s[j].0)
}

/// Where a new entry with key `k` goes: before the first strictly greater key.
pub open spec fn insert_pos<T>(s: Seq<(Seq<char>, T)>, k: Seq<char>) -> int
    decreases s.len(),
{
    if s.len() == 0 {
        0
    } else if lex_lt(k, s[0].0) {
        0
    } else {
        1 + insert_pos(s.drop_first(), k)
    }
}

pub open spec fn insert_sorted<T>(s: Seq<(Seq<char>, T)>, x: (Seq<char>, T)) -> Seq<(Seq<char>, T)> {
    s.insert(insert_pos(s, x.0), x)
}

/// Insertion sort by key: equal keys keep their input order.
pub open spec fn sort_by_key_spec<T>(s: Seq<(Seq<char>, T)>) -> Seq<(Seq<char>, T)>
    decreases s.len(),
{
    if s.len() == 0 {
        s
    } else {
        insert_sorted(sort_by_key_spec(s.drop_last()), s.last())
    }
}

proof fn lemma_insert_pos_props<T>(s: Seq<(Seq<char>, T)>, k: Seq<char>)
    ensures
        0 <= insert_pos(s, k) <= s.len(),
        forall|m: int| 0 <= m < insert_pos(s, k) ==> !lex_lt(k, #[trigger] s[m].0),
        insert_pos(s, k) < s.len() ==> lex_lt(k, s[insert_pos(s, k)].0),
    decreases s.len(),
{
    if s.len() > 0 && !lex_lt(k, s[0].0) {
        lemma_insert_pos_props(s.drop_first(), k);
        assert forall|m: int| 0 <= m < insert_pos(s, k) implies !lex_lt(k, #[trigger] s[m].0) by {
            if m > 0 {
                assert(s[m] == s.drop_first()[m - 1]);
            }
        }
    }
}

proof fn lemma_insert_pos_unique<T>(s: Seq<(Seq<char>, T)>, k: Seq<char>, j: int)
    requires
        0 <= j <= s.len(),
        forall|m: int| 0 <= m < j ==> !lex_lt(k, #[trigger] s[m].0),
        j < s.len() ==> lex_lt(k, s[j].0),
    ensures
        insert_pos(s, k) == j,
    decreases s.len(),
{
    if s.len() > 0 {
        if j == 0 {
        } else {
            assert(!lex_lt(k, s[0].0));
            let t = s.drop_first();
            assert forall|m: int| 0 <= m < j - 1 implies !lex_lt(k, #[trigger] t[m].0) by {
                assert(t[m] == s[m + 1]);
            }
            if j - 1 < t.len() {
                assert(t[j - 1] == s[j]);
            }
            lemma_insert_pos_unique(t, k, j - 1);
        }
    }
}

proof fn lemma_insert_sorted_keeps_order<T>(s: Seq<(Seq<char>, T)>, x: (Seq<char>, T))
    requires
        sorted_by_key(s),
    ensures
        sorted_by_key(insert_sorted(s, x)),
        insert_sorted(s, x).len() == s.len() + 1,
{
    lemma_insert_pos_props(s, x.0);
    let p = insert_pos(s, x.0);
    let r = insert_sorted(s, x);
    assert forall|i: int, j: int| 0 <= i < j < r.len() implies lex_le(#[trigger] r[i].0, #[trigger] r[j].0) by {
        if i < p && j < p {
            assert(r[i] == s[i] && r[j] == s[j]);
        } else if i < p && j == p {
            assert(r[i] == s[i]);
        } else if i < p && j > p {
            assert(r[i] == s[i] && r[j] == s[j - 1]);
        } else if i == p {
            assert(r[j] == s[j - 1]);
            assert(lex_lt(x.0, s[p].0));
            if j - 1 > p {
                assert(lex_le(s[p].0, s[j - 1].0));
                if lex_lt(s[j - 1].0, x.0) {
                    lemma_lex_transitive(s[j - 1].0, x.0, s[p].0);
                }
            } else {
                lemma_lex_asymmetric(x.0, s[p].0);
            }
        } else {
            assert(r[i] == s[i - 1] && r[j] == s[j - 1]);
        }
    }
}

/// Insertion sort leaves the keys in order.
pub proof fn lemma_sort_by_key_sorted<T>(s: Seq<(Seq<char>, T)>)
    ensures
        sorted_by_key(sort_by_key_spec(s)),
        sort_by_key_spec(s).len() == s.len(),
    decreases s.len(),
{
    if s.len() > 0 {
        lemma_sort_by_key_sorted(s.drop_last());
        lemma_insert_sorted_keeps_order(sort_by_key_spec(s.drop_last()), s.last());
    }
}

/// Insertion sort keeps every entry, each as often as it occurred.
pub proof fn lemma_sort_by_key_permutes<T>(s: Seq<(Seq<char>, T)>)
    ensures
        sort_by_key_spec(s).to_multiset() == s.to_multiset(),
    decreases s.len(),
{
    broadcast use vstd::seq_lib::group_to_multiset_ensures;

    if s.len() > 0 {
        let t = sort_by_key_spec(s.drop_last());
        lemma_sort_by_key_permutes(s.drop_last());
        lemma_insert_pos_props(t, s.last().0);
        let p = insert_pos(t, s.last().0);
        t.insert_ensures(p, s.last());
        assert(s =~= s.drop_last().push(s.last()));
        vstd::seq_lib::lemma_seq_union_to_multiset_commutative(t.take(p), seq![s.last()]);
        assert(t.insert(p, s.last()) =~= t.take(p) + seq![s.last()] + t.skip(p));
        assert(t =~= t.take(p) + t.skip(p));
        vstd::seq_lib::lemma_multiset_commutative(t.take(p) + seq![s.last()], t.skip(p));
        vstd::seq_lib::lemma_multiset_commutative(t.take(p), seq![s.last()]);
        vstd::seq_lib::lemma_multiset_commutative(t.take(p), t.skip(p));
    }
}

pub open spec fn keyed_view<T>(v: Seq<(Vec<char>, T)>) -> Seq<(Seq<char>, T)> {
    v.map_values(|p: (Vec<char>, T)| (p.0@, p.1))
}

/// Stable sort of `(key, item)` pairs by key.
pub fn sort_by_key<T>(v: Vec<(Vec<char>, T)>) -> (r: Vec<(Vec<char>, T)>)
    ensures
        keyed_view(r@) == sort_by_key_spec(keyed_view(v@)),
{
    let ghost src = keyed_view(v@);
    let n = v.len();
    let mut input = v;
    let mut out: Vec<(Vec<char>, T)> = Vec::new();
    let mut done: usize = 0;
    while input.len() > 0
        invariant
            src.len() == n == done + input@.len(),
            keyed_view(input@) == src.skip(done as int),
            keyed_view(out@) == sort_by_key_spec(src.take(done as int)),
        decreases input@.len(),
    {
        let ghost rest = input@;
        let x = input.remove(0);
        assert(keyed_view(input@) =~= src.skip(done + 1)) by {
            assert(input@ =~= rest.drop_first());
            assert(keyed_view(input@) =~= keyed_view(rest).drop_first());
            assert(src.skip(done as int).drop_first() =~= src.skip(done + 1));
        }
        assert(keyed_view(rest)[0] == (x.0@, x.1));
        let ghost ov = keyed_view(out@);
        let mut j: usize = 0;
        while j < out.len() && !lex_lt_exec(x.0.as_slice(), out[j].0.as_slice())
            invariant
                j <= out@.len(),
                ov == keyed_view(out@),
                forall|m: int| 0 <= m < j ==> !lex_lt(x.0@, #[trigger] ov[m].0),
            decreases out@.len() - j,
        {
            assert(ov[j as int].0 == out@[j as int].0@);
            j = j + 1;
        }
        proof {
            if j < out@.len() {
                assert(ov[j as int].0 == out@[j as int].0@);
            }
            lemma_insert_pos_unique(ov, x.0@, j as int);
            let nxt = src.take(done + 1);
            assert(nxt.drop_last() =~= src.take(done as int));
            assert(nxt.last() == (x.0@, x.1));
        }
        out.insert(j, x);
        assert(keyed_view(out@) =~= ov.insert(j as int, (x.0@, x.1)));
        done = done + 1;
    }
    assert(src.take(done as int) =~= src);
    out
}


/// `s` with `f` applied to every item, keys unchanged.
pub open spec fn map_items<T, U>(s: Seq<(Seq<char>, T)>, f: spec_fn(T) -> U) -> Seq<(Seq<char>, U)> {
    s.map_values(|p: (Seq<char>, T)| (p.0, f(p.1)))
}

proof fn lemma_insert_pos_map<T, U>(s: Seq<(Seq<char>, T)>, k: Seq<char>, f: spec_fn(T) -> U)
    ensures
        insert_pos(map_items(s, f), k) == insert_pos(s, k),
    decreases s.len(),
{
    if s.len() > 0 {
        assert(map_items(s, f).drop_first() =~= map_items(s.drop_first(), f));
        lemma_insert_pos_map(s.drop_first(), k, f);
    }
}

/// Sorting by key commutes with changing the items: the order depends on
/// the keys alone.
pub proof fn lemma_sort_map<T, U>(s: Seq<(Seq<char>, T)>, f: spec_fn(T) -> U)
    ensures
        sort_by_key_spec(map_items(s, f)) == map_items(sort_by_key_spec(s), f),
    decreases s.len(),
{
    if s.len() > 0 {
        let ms = map_items(s, f);
        assert(ms.drop_last() =~= map_items(s.drop_last(), f));
        lemma_sort_map(s.drop_last(), f);
        let t = sort_by_key_spec(s.drop_last());
        lemma_insert_pos_map(t, s.last().0, f);
        lemma_insert_pos_props(t, s.last().0);
        let p = insert_pos(t, s.last().0);
        assert(map_items(t, f).insert(p, (s.last().0, f(s.last().1))) =~= map_items(
            t.insert(p, s.last()),
            f,
        ));
    }
}


/// No two entries share a key.
pub open spec fn distinct_keys_of<T>(s: Seq<(Seq<char>, T)>) -> bool {
    forall|i: int, j: int| 0 <= i < j < s.len() ==> #[trigger] s[i].0 != #[trigger] s[j].0
}

/// Every entry of the sorted sequence is an entry of the input.
pub proof fn lemma_sort_members<T>(s: Seq<(Seq<char>, T)>, i: int)
    requires
        0 <= i < sort_by_key_spec(s).len(),
    ensures
        s.contains(sort_by_key_spec(s)[i]),
{
    broadcast use vstd::seq_lib::group_to_multiset_ensures;

    lemma_sort_by_key_permutes(s);
    let x = sort_by_key_spec(s)[i];
    assert(sort_by_key_spec(s).to_multiset().count(x) > 0);
}

/// Sorting keeps keys distinct.
pub proof fn lemma_sort_keeps_distinct<T>(s: Seq<(Seq<char>, T)>)
    requires
        distinct_keys_of(s),
    ensures
        distinct_keys_of(sort_by_key_spec(s)),
    decreases s.len(),
{
    if s.len() > 0 {
        let t = s.drop_last();
        assert(distinct_keys_of(t)) by {
            assert forall|i: int, j: int| 0 <= i < j < t.len() implies #[trigger] t[i].0 != #[trigger] t[j].0 by {
                assert(t[i] == s[i] && t[j] == s[j]);
            }
        }
        lemma_sort_keeps_distinct(t);
        let st = sort_by_key_spec(t);
        lemma_sort_by_key_sorted(t);
        assert forall|m: int| 0 <= m < st.len() implies (#[trigger] st[m]).0 != s.last().0 by {
            lemma_sort_members(t, m);
            let k = choose|k: int| 0 <= k < t.len() && t[k] == st[m];
            assert(s[k] == t[k]);
        }
        lemma_insert_pos_props(st, s.last().0);
        let p = insert_pos(st, s.last().0);
        let r = st.insert(p, s.last());
        assert forall|i: int, j: int| 0 <= i < j < r.len() implies #[trigger] r[i].0 != #[trigger] r[j].0 by {
            if i < p && j < p {
                assert(r[i] == st[i] && r[j] == st[j]);
            } else if i < p && j == p {
                assert(r[i] == st[i]);
            } else if i < p {
                assert(r[i] == st[i] && r[j] == st[j - 1]);
            } else if i == p {
                assert(r[j] == st[j - 1]);
            } else {
                assert(r[i] == st[i - 1] && r[j] == st[j - 1]);
            }
        }
    }
}


/// The items of `(key, item)` pairs, stably sorted by key.
pub fn sort_values_by_key<T>(pairs: Vec<(Vec<char>, T)>) -> (r: Vec<T>)
    ensures
        r@ == sort_by_key_spec(keyed_view(pairs@)).map_values(|p: (Seq<char>, T)| p.1),
{
    let mut sorted = sort_by_key(pairs);
    let ghost sv = keyed_view(sorted@);
    let m = sorted.len();
    let mut out: Vec<T> = Vec::new();
    let mut j: usize = 0;
    while sorted.len() > 0
        invariant
            m == sv.len() == j + sorted@.len(),
            keyed_view(sorted@) == sv.skip(j as int),
            out@ == sv.take(j as int).map_values(|p: (Seq<char>, T)| p.1),
        decreases sorted@.len(),
    {
        let ghost rest = sorted@;
        let (_, g) = sorted.remove(0);
        assert(keyed_view(rest)[0] == sv[j as int]);
        assert(keyed_view(sorted@) =~= sv.skip(j + 1)) by {
            assert(sorted@ =~= rest.drop_first());
            assert(keyed_view(sorted@) =~= keyed_view(rest).drop_first());
            assert(sv.skip(j as int).drop_first() =~= sv.skip(j + 1));
        }
        out.push(g);
        assert(out@ =~= sv.take(j + 1).map_values(|p: (Seq<char>, T)| p.1));
        j = j + 1;
    }
    assert(sv.take(j as int) =~= sv);
    out
}

// ---------------------------------------------------------------------------
// Keyed entries
// ---------------------------------------------------------------------------

/// Position of the first entry whose key is `k`.
pub open spec fn first_index<K, T>(s: Seq<(K, T)>, k: K) -> Option<int>
    decreases s.len(),
{
    if s.len() == 0 {
        None
    } else if s[0].0 == k {
        Some(0)
    } else {
        match first_index(s.drop_first(), k) {
            Some(j) => Some(j + 1),
            None => None,
        }
    }
}

pub proof fn lemma_first_index_at<K, T>(s: Seq<(K, T)>, k: K, i: int)
    requires
        0 <= i < s.len(),
        s[i].0 == k,
        forall|j: int| 0 <= j < i ==> (#[trigger] s[j]).0 != k,
    ensures
        first_index(s, k) == Some(i),
    decreases s.len(),
{
    if i > 0 {
        assert forall|j: int| 0 <= j < i - 1 implies (#[trigger] s.drop_first()[j]).0 != k by {
            assert(s.drop_first()[j] == s[j + 1]);
        }
        lemma_first_index_at(s.drop_first(), k, i - 1);
    }
}

pub proof fn lemma_first_index_none<K, T>(s: Seq<(K, T)>, k: K)
    requires
        forall|j: int| 0 <= j < s.len() ==> (#[trigger] s[j]).0 != k,
    ensures
        first_index(s, k) is None,
    decreases s.len(),
{
    if s.len() > 0 {
        assert forall|j: int| 0 <= j < s.len() - 1 implies (#[trigger] s.drop_first()[j]).0
            != k by {
            assert(s.drop_first()[j] == s[j + 1]);
        }
        lemma_first_index_none(s.drop_first(), k);
    }
}

pub proof fn lemma_first_index_props<K, T>(s: Seq<(K, T)>, k: K)
    ensures
        match first_index(s, k) {
            Some(i) => 0 <= i < s.len() && s[i].0 == k && forall|j: int|
                0 <= j < i ==> (#[trigger] s[j]).0 != k,
            None => forall|j: int| 0 <= j < s.len() ==> (#[trigger] s[j]).0 != k,
        },
    decreases s.len(),
{
    if s.len() > 0 {
        lemma_first_index_props(s.drop_first(), k);
        let t = s.drop_first();
        match first_index(t, k) {
            Some(i) => {
                assert forall|j: int| 0 <= j < i + 1 && s[0].0 != k implies (#[trigger] s[j]).0
                    != k by {
                    if j > 0 {
                        assert(s[j] == t[j - 1]);
                    }
                }
            },
            None => {
                assert forall|j: int| 0 <= j < s.len() && s[0].0 != k implies (#[trigger] s[j]).0
                    != k by {
                    if j > 0 {
                        assert(s[j] == t[j - 1]);
                    }
                }
            },
        }
    }
}

/// Replace the first entry with key `k`, or append one.
pub open spec fn set_keyed<K, T>(s: Seq<(K, T)>, k: K, v: T) -> Seq<(K, T)> {
    match first_index(s, k) {
        Some(i) => s.update(i, (k, v)),
        None => s.push((k, v)),
    }
}

/// Value of the first entry with key `k`.
pub open spec fn get_keyed<K, T>(s: Seq<(K, T)>, k: K) -> Option<T> {
    match first_index(s, k) {
        Some(i) => Some(s[i].1),
        None => None,
    }
}

/// Reading a key gives back what was last stored under it.
pub proof fn lemma_get_set_same<K, T>(s: Seq<(K, T)>, k: K, v: T)
    ensures
        get_keyed(set_keyed(s, k, v), k) == Some(v),
{
    lemma_first_index_props(s, k);
    let t = set_keyed(s, k, v);
    match first_index(s, k) {
        Some(i) => {
            assert forall|j: int| 0 <= j < i implies (#[trigger] t[j]).0 != k by {
                assert(t[j] == s[j]);
            }
            lemma_first_index_at(t, k, i);
        },
        None => {
            assert forall|j: int| 0 <= j < s.len() implies (#[trigger] t[j]).0 != k by {
                assert(t[j] == s[j]);
            }
            lemma_first_index_at(t, k, s.len() as int);
        },
    }
}

/// Storing under one key leaves what every other key reads.
pub proof fn lemma_get_set_other<K, T>(s: Seq<(K, T)>, k: K, v: T, k2: K)
    requires
        k2 != k,
    ensures
        get_keyed(set_keyed(s, k, v), k2) == get_keyed(s, k2),
{
    lemma_first_index_props(s, k);
    lemma_first_index_props(s, k2);
    let t = set_keyed(s, k, v);
    assert(forall|j: int| 0 <= j < s.len() ==> (#[trigger] t[j]).0 == s[j].0 && (t[j].0 == k2 ==> t[j] == s[j]));
    match first_index(s, k2) {
        Some(i) => {
            assert forall|j: int| 0 <= j < i implies (#[trigger] t[j]).0 != k2 by {
                assert(t[j].0 == s[j].0);
            }
            lemma_first_index_at(t, k2, i);
        },
        None => {
            assert forall|j: int| 0 <= j < t.len() implies (#[trigger] t[j]).0 != k2 by {
                if j < s.len() {
                    assert(t[j].0 == s[j].0);
                }
            }
            lemma_first_index_none(t, k2);
        },
    }
}


/// Index of the first entry keyed `k`, found by a linear scan.
pub fn find_keyed<T>(v: &Vec<(Vec<char>, T)>, k: &[char]) -> (r: Option<usize>)
    ensures
        match r {
            Some(i) => first_index(keyed_view(v@), k@) == Some(i as int),
            None => first_index(keyed_view(v@), k@) is None,
        },
{
    let ghost kv = keyed_view(v@);
    let mut i: usize = 0;
    while i < v.len()
        invariant
            i <= v@.len(),
            kv == keyed_view(v@),
            forall|j: int| 0 <= j < i ==> (#[trigger] kv[j]).0 != k@,
        decreases v@.len() - i,
    {
        assert(kv[i as int].0 == v@[i as int].0@);
        if crate::text::eq_chars(v[i].0.as_slice(), k) {
            proof {
                lemma_first_index_at(kv, k@, i as int);
            }
            return Some(i);
        }
        i = i + 1;
    }
    proof {
        lemma_first_index_none(kv, k@);
    }
    None
}

} // verus!
