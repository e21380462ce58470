//! Laws of the cache model: how sequences of insertions and lookups shape
//! the resident entries.  Each law is stated over the spec-level transitions
//! (`spec_put`, `spec_refresh`) that the contracts of [`crate::Cache`]
//! relate the executable methods to.

use vstd::prelude::*;

use crate::cache::lru::{
    has_key, key_index, keys_distinct, lemma_key_index_unique, lemma_remove_push_distinct,
    put_all, spec_put, spec_refresh, value_of,
};
use crate::storage::file::{
    lemma_render_parse_round_trip, parse_capacity_spec, parse_entries_spec, render_spec, storable,
};

verus! {

/// The character sequences of a sequence of string pairs.
pub open spec fn views_of(s: Seq<(String, String)>) -> Seq<(Seq<char>, Seq<char>)> {
    s.map_values(|p: (String, String)| p.deep_view())
}

/// One insertion keeps the cache invariant: keys stay pairwise distinct and
/// the number of resident entries stays at most the capacity.
pub proof fn lemma_put_preserves_invariant<K: DeepView, V>(
    s: Seq<(K, V)>,
    cap: nat,
    key: K,
    value: V,
)
    requires
        keys_distinct(s),
        s.len() <= cap,
    ensures
        keys_distinct(spec_put(s, cap, key, value)),
        spec_put(s, cap, key, value).len() <= cap,
{
    let kd = key.deep_view();
    if has_key(s, kd) {
        let i = key_index(s, kd);
        lemma_key_index_unique(s, kd, i);
        lemma_remove_push_distinct(s, i, (key, value));
        s.remove_ensures(i);
    }
}

/// The capacity invariant: however many insertions are replayed on a cache
/// that satisfies the invariant, it still holds afterwards — and, since the
/// replay proceeds one insertion at a time, after every single one of them.
pub proof fn lemma_capacity_invariant<K: DeepView, V>(
    s: Seq<(K, V)>,
    cap: nat,
    pairs: Seq<(K, V)>,
)
    requires
        keys_distinct(s),
        s.len() <= cap,
    ensures
        keys_distinct(put_all(s, cap, pairs)),
        put_all(s, cap, pairs).len() <= cap,
    decreases pairs.len(),
{
    if pairs.len() > 0 {
        lemma_put_preserves_invariant(s, cap, pairs[0].0, pairs[0].1);
        lemma_capacity_invariant(spec_put(s, cap, pairs[0].0, pairs[0].1), cap, pairs.skip(1));
    }
}

/// Helper for [`lemma_eviction_order`]: once the first `i` of the pairs are
/// resident, replaying the rest ends with exactly the last `cap` pairs.
proof fn lemma_fill_from<K: DeepView, V>(cap: nat, pairs: Seq<(K, V)>, i: int)
    requires
        keys_distinct(pairs),
        pairs.len() == cap + 1,
        0 <= i <= cap,
    ensures
        put_all(pairs.take(i), cap, pairs.skip(i)) == pairs.skip(1),
    decreases cap - i,
{
    let s = pairs.take(i);
    let p = pairs[i];
    let rest = pairs.skip(i);
    assert(rest[0] == p);
    assert(!has_key(s, p.0.deep_view())) by {
        assert forall|j: int| 0 <= j < s.len() implies s[j].0.deep_view()
            != p.0.deep_view() by {
            assert(s[j] == pairs[j]);
        }
    }
    assert(rest.skip(1) =~= pairs.skip(i + 1));
    let t = spec_put(s, cap, p.0, p.1);
    assert(put_all(s, cap, rest) == put_all(t, cap, pairs.skip(i + 1)));
    if i < cap {
        assert(t =~= pairs.take(i + 1));
        lemma_fill_from(cap, pairs, i + 1);
    } else {
        assert(s.push(p) =~= pairs);
        assert(t =~= pairs.skip(1));
        assert(pairs.skip(i + 1).len() == 0);
        assert(put_all(t, cap, pairs.skip(i + 1)) == t);
    }
}

/// Eviction correctness: replaying `cap + 1` insertions of pairwise distinct
/// keys into an empty cache evicts exactly the first-inserted pair; what
/// remains are the `cap` most recently inserted pairs, in insertion order.
pub proof fn lemma_eviction_order<K: DeepView, V>(cap: nat, pairs: Seq<(K, V)>)
    requires
        keys_distinct(pairs),
        pairs.len() == cap + 1,
    ensures
        put_all(Seq::empty(), cap, pairs) == pairs.skip(1),
{
    assert(pairs.take(0) =~= Seq::<(K, V)>::empty());
    assert(pairs.skip(0) =~= pairs);
    lemma_fill_from(cap, pairs, 0);
}

/// Helper for [`lemma_replay_restores`].
proof fn lemma_replay_from<K: DeepView, V>(cap: nat, pairs: Seq<(K, V)>, i: int)
    requires
        keys_distinct(pairs),
        pairs.len() <= cap,
        0 <= i <= pairs.len(),
    ensures
        put_all(pairs.take(i), cap, pairs.skip(i)) == pairs,
    decreases pairs.len() - i,
{
    let s = pairs.take(i);
    if i == pairs.len() {
        assert(s =~= pairs);
    } else {
        let p = pairs[i];
        let rest = pairs.skip(i);
        assert(rest[0] == p);
        assert(!has_key(s, p.0.deep_view())) by {
            assert forall|j: int| 0 <= j < s.len() implies s[j].0.deep_view()
                != p.0.deep_view() by {
                assert(s[j] == pairs[j]);
            }
        }
        assert(rest.skip(1) =~= pairs.skip(i + 1));
        let t = spec_put(s, cap, p.0, p.1);
        assert(put_all(s, cap, rest) == put_all(t, cap, pairs.skip(i + 1)));
        assert(t =~= pairs.take(i + 1));
        lemma_replay_from(cap, pairs, i + 1);
    }
}

/// Replaying pairwise-distinct pairs that fit within the capacity into an
/// empty cache makes exactly those pairs resident, in replay order: this is
/// what rebuilds a saved cache from its loaded entries.
pub proof fn lemma_replay_restores<K: DeepView, V>(cap: nat, pairs: Seq<(K, V)>)
    requires
        keys_distinct(pairs),
        pairs.len() <= cap,
    ensures
        put_all(Seq::empty(), cap, pairs) == pairs,
{
    assert(pairs.take(0) =~= Seq::<(K, V)>::empty());
    assert(pairs.skip(0) =~= pairs);
    lemma_replay_from(cap, pairs, 0);
}

/// Save and load round trip, end to end: rendering the resident pairs of a
/// well-formed string cache (oldest first) and parsing the result yields
/// the capacity and pair sequence unchanged, and replaying whatever string
/// pairs carry those parsed characters rebuilds a cache that holds, key by
/// key and in the same recency order, the same character contents.
pub proof fn lemma_save_load_round_trip(
    cap: nat,
    pairs: Seq<(String, String)>,
    loaded: Seq<(String, String)>,
)
    requires
        cap <= usize::MAX,
        pairs.len() <= cap,
        keys_distinct(pairs),
        forall|i: int| 0 <= i < pairs.len() ==> storable((#[trigger] pairs[i]).deep_view()),
        views_of(loaded) == parse_entries_spec(render_spec(cap, views_of(pairs))),
    ensures
        parse_capacity_spec(render_spec(cap, views_of(pairs))) == cap,
        parse_entries_spec(render_spec(cap, views_of(pairs))) == views_of(pairs),
        views_of(put_all(Seq::empty(), cap, loaded)) == views_of(pairs),
{
    assert forall|i: int| 0 <= i < views_of(pairs).len() implies storable(
        #[trigger] views_of(pairs)[i],
    ) by {
        assert(views_of(pairs)[i] == pairs[i].deep_view());
    }
    lemma_render_parse_round_trip(cap, views_of(pairs));
    assert(views_of(loaded) == views_of(pairs));
    assert(loaded.len() == pairs.len());
    assert(keys_distinct(loaded)) by {
        assert forall|i: int, j: int| 0 <= i < j < loaded.len() implies loaded[i].0.deep_view()
            != loaded[j].0.deep_view() by {
            assert(views_of(loaded)[i] == loaded[i].deep_view());
            assert(views_of(loaded)[j] == loaded[j].deep_view());
            assert(views_of(pairs)[i] == pairs[i].deep_view());
            assert(views_of(pairs)[j] == pairs[j].deep_view());
        }
    }
    lemma_replay_restores(cap, loaded);
}

/// Update in place: inserting an existing key keeps the resident count,
/// stores the new value for that key, moves its entry to the most-recently-
/// used end, and neither adds nor removes any other key.
pub proof fn lemma_update_in_place<K: DeepView, V>(s: Seq<(K, V)>, cap: nat, key: K, value: V)
    requires
        keys_distinct(s),
        has_key(s, key.deep_view()),
    ensures
        spec_put(s, cap, key, value).len() == s.len(),
        keys_distinct(spec_put(s, cap, key, value)),
        spec_put(s, cap, key, value).last() == (key, value),
        value_of(spec_put(s, cap, key, value), key.deep_view()) == value,
        forall|k: <K as DeepView>::V| #[trigger]
            has_key(spec_put(s, cap, key, value), k) ==> has_key(s, k),
        forall|k: <K as DeepView>::V| #[trigger] has_key(s, k) ==> has_key(
            spec_put(s, cap, key, value),
            k,
        ),
{
    let kd = key.deep_view();
    let i = key_index(s, kd);
    lemma_key_index_unique(s, kd, i);
    lemma_remove_push_distinct(s, i, (key, value));
    s.remove_ensures(i);
    let t = spec_put(s, cap, key, value);
    assert(t == s.remove(i).push((key, value)));
    lemma_key_index_unique(t, kd, t.len() - 1);
    assert forall|k: <K as DeepView>::V| #[trigger] has_key(t, k) implies has_key(s, k) by {
        let j = choose|j: int| 0 <= j < t.len() && t[j].0.deep_view() == k;
        if j == t.len() - 1 {
            assert(s[i].0.deep_view() == k);
        } else if j < i {
            assert(t[j] == s[j]);
        } else {
            assert(t[j] == s[j + 1]);
        }
    }
    assert forall|k: <K as DeepView>::V| #[trigger] has_key(s, k) implies has_key(t, k) by {
        let j = choose|j: int| 0 <= j < s.len() && s[j].0.deep_view() == k;
        if j == i {
            assert(t[t.len() - 1].0.deep_view() == k);
        } else if j < i {
            assert(t[j] == s[j]);
        } else {
            assert(t[j - 1] == s[j]);
        }
    }
}

/// Recency refresh on read: with capacity 3, after inserting three distinct
/// keys in order and then looking the second one up, inserting a fourth
/// distinct key evicts the first key — the least recently used — while the
/// looked-up second key survives with its value, as do the third and fourth.
pub proof fn lemma_refresh_protects<K: DeepView, V>(
    a: K,
    b: K,
    c: K,
    d: K,
    va: V,
    vb: V,
    vc: V,
    vd: V,
)
    requires
        a.deep_view() != b.deep_view(),
        a.deep_view() != c.deep_view(),
        a.deep_view() != d.deep_view(),
        b.deep_view() != c.deep_view(),
        b.deep_view() != d.deep_view(),
        c.deep_view() != d.deep_view(),
    ensures
        ({
            let s3 = spec_put(spec_put(spec_put(Seq::empty(), 3, a, va), 3, b, vb), 3, c, vc);
            let s4 = spec_refresh(s3, b.deep_view());
            let s5 = spec_put(s4, 3, d, vd);
            &&& !has_key(s5, a.deep_view())
            &&& has_key(s5, b.deep_view())
            &&& has_key(s5, c.deep_view())
            &&& has_key(s5, d.deep_view())
            &&& value_of(s5, b.deep_view()) == vb
        }),
{
    let s1 = spec_put(Seq::<(K, V)>::empty(), 3, a, va);
    assert(!has_key(Seq::<(K, V)>::empty(), a.deep_view()));
    assert(s1 =~= seq![(a, va)]);
    let s2 = spec_put(s1, 3, b, vb);
    assert(!has_key(s1, b.deep_view()));
    assert(s2 =~= seq![(a, va), (b, vb)]);
    let s3 = spec_put(s2, 3, c, vc);
    assert(!has_key(s2, c.deep_view()));
    assert(s3 =~= seq![(a, va), (b, vb), (c, vc)]);
    assert(keys_distinct(s3));
    lemma_key_index_unique(s3, b.deep_view(), 1);
    let s4 = spec_refresh(s3, b.deep_view());
    assert(s4 =~= seq![(a, va), (c, vc), (b, vb)]);
    let s5 = spec_put(s4, 3, d, vd);
    assert(!has_key(s4, d.deep_view()));
    assert(s5 =~= seq![(c, vc), (b, vb), (d, vd)]);
    assert(keys_distinct(s5));
    assert(s5[1].0.deep_view() == b.deep_view());
    assert(s5[0].0.deep_view() == c.deep_view());
    assert(s5[2].0.deep_view() == d.deep_view());
    lemma_key_index_unique(s5, b.deep_view(), 1);
}

} // verus!
