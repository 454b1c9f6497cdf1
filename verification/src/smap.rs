//! A string-keyed association vector held in strictly increasing key order.
//!
//! Both the item catalog and the history store keep their entries this way:
//! keys are unique, iteration is deterministic (lexicographic by key), and
//! re-inserting a key overwrites its entry. The abstract view of such a
//! vector is a `Map` from key characters to the entry's model value.

use vstd::prelude::*;

use crate::text::lex_lt;
use crate::text::lemma_lex_lt_irreflexive;
use crate::text::lemma_lex_lt_trichotomy;
use crate::text::lemma_lex_lt_transitive;
use crate::text::str_eq;
use crate::text::str_lt;

verus! {

/// The entries' keys are strictly increasing: unique and sorted.
pub open spec fn keys_sorted<M>(s: Seq<(Seq<char>, M)>) -> bool {
    forall|i: int, j: int| 0 <= i < j < s.len() ==> lex_lt(s[i].0, s[j].0)
}

/// The map an association sequence stands for; a later entry for the same
/// key overwrites an earlier one.
pub open spec fn map_of<M>(s: Seq<(Seq<char>, M)>) -> Map<Seq<char>, M>
    decreases s.len(),
{
    if s.len() == 0 {
        Map::empty()
    } else {
        map_of(s.drop_last()).insert(s.last().0, s.last().1)
    }
}

/// The model of an entry vector: each entry reduced to its view.
pub open spec fn kv_view<V: View>(s: Seq<(String, V)>) -> Seq<(Seq<char>, V::V)> {
    Seq::new(s.len(), |i: int| (s[i].0@, s[i].1@))
}

/// Insertion into a sorted association sequence, keeping the order and
/// overwriting an entry whose key is already present.
pub open spec fn model_insert<M>(s: Seq<(Seq<char>, M)>, k: Seq<char>, m: M) -> Seq<
    (Seq<char>, M),
>
    decreases s.len(),
{
    if s.len() == 0 {
        seq![(k, m)]
    } else if lex_lt(s.last().0, k) {
        s.push((k, m))
    } else if s.last().0 == k {
        s.update(s.len() - 1, (k, m))
    } else {
        model_insert(s.drop_last(), k, m).push(s.last())
    }
}

/// Insertion of each pair in turn, first to last.
pub open spec fn model_insert_all<M>(
    acc: Seq<(Seq<char>, M)>,
    ps: Seq<(Seq<char>, M)>,
) -> Seq<(Seq<char>, M)>
    decreases ps.len(),
{
    if ps.len() == 0 {
        acc
    } else {
        model_insert_all(model_insert(acc, ps[0].0, ps[0].1), ps.drop_first())
    }
}

/// A key is in the map exactly when some entry holds it, and the map sends
/// each entry's key to that entry's value.
pub proof fn lemma_map_of_props<M>(s: Seq<(Seq<char>, M)>)
    requires
        keys_sorted(s),
    ensures
        forall|k: Seq<char>|
            #[trigger] map_of(s).contains_key(k) <==> (exists|i: int|
                0 <= i < s.len() && s[i].0 == k),
        forall|i: int|
            0 <= i < s.len() ==> map_of(s).contains_key(#[trigger] s[i].0) && map_of(s)[s[i].0]
                == s[i].1,
    decreases s.len(),
{
    if s.len() > 0 {
        let d = s.drop_last();
        assert(keys_sorted(d)) by {
            assert(forall|i: int, j: int|
                0 <= i < j < d.len() ==> d[i] == s[i] && d[j] == s[j]);
        }
        lemma_map_of_props(d);
        assert forall|i: int| 0 <= i < s.len() implies map_of(s).contains_key(
            #[trigger] s[i].0,
        ) && map_of(s)[s[i].0] == s[i].1 by {
            if i < s.len() - 1 {
                assert(lex_lt(s[i].0, s.last().0));
                lemma_lex_lt_irreflexive(s[i].0);
                assert(s[i].0 != s.last().0);
                assert(d[i] == s[i]);
            }
        }
        assert forall|k: Seq<char>| #[trigger] map_of(s).contains_key(k) implies (exists|i: int|
            0 <= i < s.len() && s[i].0 == k) by {
            if k == s.last().0 {
                assert(0 <= s.len() - 1 < s.len() && s[s.len() - 1].0 == k);
            } else {
                assert(map_of(d).contains_key(k));
                let i = choose|i: int| 0 <= i < d.len() && d[i].0 == k;
                assert(d[i] == s[i]);
                assert(0 <= i < s.len() && s[i].0 == k);
            }
        }
        assert forall|k: Seq<char>| (exists|i: int|
            0 <= i < s.len() && s[i].0 == k) implies #[trigger] map_of(s).contains_key(k) by {
            let i = choose|i: int| 0 <= i < s.len() && s[i].0 == k;
            if i < s.len() - 1 {
                assert(d[i].0 == k);
            }
        }
    }
}

/// `model_insert` keeps the order and acts as `insert` on the map view;
/// every key of the result is the new key or one already present.
pub proof fn lemma_model_insert<M>(s: Seq<(Seq<char>, M)>, k: Seq<char>, m: M)
    requires
        keys_sorted(s),
    ensures
        keys_sorted(model_insert(s, k, m)),
        map_of(model_insert(s, k, m)) == map_of(s).insert(k, m),
        forall|i: int|
            0 <= i < model_insert(s, k, m).len() ==> (#[trigger] model_insert(s, k, m)[i] == (k, m)
                || exists|j: int| 0 <= j < s.len() && model_insert(s, k, m)[i] == s[j]),
    decreases s.len(),
{
    let r = model_insert(s, k, m);
    if s.len() == 0 {
        assert(r =~= seq![(k, m)]);
        assert(r.len() == 1);
        assert(r.last() == (k, m));
        assert(r.drop_last() =~= Seq::<(Seq<char>, M)>::empty());
        assert(map_of(r) == map_of(r.drop_last()).insert(k, m));
        assert(map_of(r.drop_last()) == Map::<Seq<char>, M>::empty());
        assert(map_of(s) == Map::<Seq<char>, M>::empty());
    } else if lex_lt(s.last().0, k) {
        assert(r == s.push((k, m)));
        assert(r.drop_last() =~= s);
        assert(r.last() == (k, m));
        assert(map_of(r) == map_of(s).insert(k, m));
        assert forall|i: int, j: int| 0 <= i < j < r.len() implies lex_lt(r[i].0, r[j].0) by {
            if j == r.len() - 1 {
                if i < s.len() - 1 {
                    lemma_lex_lt_transitive(s[i].0, s.last().0, k);
                }
            }
        }
    } else if s.last().0 == k {
        assert(r == s.update(s.len() - 1, (k, m)));
        assert(r.drop_last() =~= s.drop_last());
        assert(r.last() == (k, m));
        assert(map_of(r) == map_of(s.drop_last()).insert(k, m));
        assert(map_of(s) == map_of(s.drop_last()).insert(k, s.last().1));
        assert(map_of(s.drop_last()).insert(k, s.last().1).insert(k, m) =~= map_of(
            s.drop_last(),
        ).insert(k, m));
        assert forall|i: int, j: int| 0 <= i < j < r.len() implies lex_lt(r[i].0, r[j].0) by {
            assert(forall|i: int| 0 <= i < s.len() - 1 ==> r[i] == s[i]);
        }
    } else {
        lemma_lex_lt_trichotomy(s.last().0, k);
        assert(lex_lt(k, s.last().0));
        let d = s.drop_last();
        assert(keys_sorted(d)) by {
            assert(forall|i: int, j: int|
                0 <= i < j < d.len() ==> d[i] == s[i] && d[j] == s[j]);
        }
        lemma_model_insert(d, k, m);
        let q = model_insert(d, k, m);
        assert(r == q.push(s.last()));
        assert(r.drop_last() =~= q);
        assert(map_of(r) == map_of(q).insert(s.last().0, s.last().1));
        assert(map_of(r) == map_of(d).insert(k, m).insert(s.last().0, s.last().1));
        assert(map_of(s) == map_of(d).insert(s.last().0, s.last().1));
        assert(map_of(d).insert(k, m).insert(s.last().0, s.last().1) =~= map_of(d).insert(
            s.last().0,
            s.last().1,
        ).insert(k, m));
        assert forall|i: int, j: int| 0 <= i < j < r.len() implies lex_lt(r[i].0, r[j].0) by {
            if j == r.len() - 1 {
                assert(r[i] == q[i]);
                if q[i] == (k, m) {
                    assert(lex_lt(r[i].0, r[j].0));
                } else {
                    let jj = choose|jj: int| 0 <= jj < d.len() && q[i] == d[jj];
                    assert(d[jj] == s[jj]);
                    assert(lex_lt(s[jj].0, s.last().0));
                }
            } else {
                assert(r[i] == q[i] && r[j] == q[j]);
            }
        }
        assert forall|i: int|
            0 <= i < r.len() implies (#[trigger] r[i] == (k, m) || exists|j: int|
            0 <= j < s.len() && r[i] == s[j]) by {
            if i < r.len() - 1 {
                if q[i] != (k, m) {
                    let jj = choose|jj: int| 0 <= jj < d.len() && q[i] == d[jj];
                    assert(d[jj] == s[jj]);
                    assert(r[i] == s[jj]);
                }
            } else {
                assert(r[i] == s[s.len() - 1]);
            }
        }
    }
}

/// Inserting pairs whose sorted keys all lie above the accumulator's keys
/// appends them in order.
pub proof fn lemma_insert_all_append<M>(acc: Seq<(Seq<char>, M)>, ps: Seq<(Seq<char>, M)>)
    requires
        keys_sorted(acc),
        keys_sorted(ps),
        forall|i: int, j: int|
            0 <= i < acc.len() && 0 <= j < ps.len() ==> lex_lt(
                #[trigger] acc[i].0,
                #[trigger] ps[j].0,
            ),
    ensures
        model_insert_all(acc, ps) == acc + ps,
    decreases ps.len(),
{
    if ps.len() == 0 {
        assert(model_insert_all(acc, ps) =~= acc + ps);
    } else {
        let p = ps[0];
        let step = model_insert(acc, p.0, p.1);
        if acc.len() == 0 {
            assert(step =~= acc.push(p));
        } else {
            assert(lex_lt(acc.last().0, p.0));
            assert(step == acc.push(p));
        }
        lemma_model_insert(acc, p.0, p.1);
        assert(keys_sorted(ps.drop_first())) by {
            assert(forall|i: int, j: int|
                0 <= i < j < ps.drop_first().len() ==> ps.drop_first()[i] == ps[i + 1]
                    && ps.drop_first()[j] == ps[j + 1]);
        }
        assert forall|i: int, j: int|
            0 <= i < step.len() && 0 <= j < ps.drop_first().len() implies lex_lt(
            #[trigger] step[i].0,
            #[trigger] ps.drop_first()[j].0,
        ) by {
            assert(ps.drop_first()[j] == ps[j + 1]);
            if i < acc.len() {
                assert(step[i] == acc[i]);
                lemma_lex_lt_transitive(acc[i].0, p.0, ps[j + 1].0);
            } else {
                assert(step[i] == p);
                assert(lex_lt(ps[0].0, ps[j + 1].0));
            }
        }
        lemma_insert_all_append(step, ps.drop_first());
        assert(step + ps.drop_first() =~= acc + ps);
    }
}

/// Folding one more pair at the end is one more insertion.
pub proof fn lemma_insert_all_snoc<M>(
    acc: Seq<(Seq<char>, M)>,
    ps: Seq<(Seq<char>, M)>,
    p: (Seq<char>, M),
)
    ensures
        model_insert_all(acc, ps.push(p)) == model_insert(model_insert_all(acc, ps), p.0, p.1),
    decreases ps.len(),
{
    if ps.len() == 0 {
        assert(ps.push(p)[0] == p);
        assert(ps.push(p).drop_first() =~= Seq::<(Seq<char>, M)>::empty());
        assert(model_insert_all(acc, ps.push(p)) == model_insert_all(
            model_insert(acc, p.0, p.1),
            ps.push(p).drop_first(),
        ));
        assert(model_insert_all(model_insert(acc, p.0, p.1), Seq::<(Seq<char>, M)>::empty())
            == model_insert(acc, p.0, p.1));
        assert(model_insert_all(acc, ps) == acc);
    } else {
        assert(ps.push(p)[0] == ps[0]);
        assert(ps.push(p).drop_first() =~= ps.drop_first().push(p));
        assert(model_insert_all(acc, ps.push(p)) == model_insert_all(
            model_insert(acc, ps[0].0, ps[0].1),
            ps.drop_first().push(p),
        ));
        lemma_insert_all_snoc(model_insert(acc, ps[0].0, ps[0].1), ps.drop_first(), p);
        assert(model_insert_all(acc, ps) == model_insert_all(
            model_insert(acc, ps[0].0, ps[0].1),
            ps.drop_first(),
        ));
    }
}

/// Returns `v` with `(key, val)` inserted in key order, overwriting the
/// entry under an equal key.
pub fn entries_insert<V: View>(v: Vec<(String, V)>, key: String, val: V) -> (r: Vec<
    (String, V),
>)
    ensures
        kv_view(r@) == model_insert(kv_view(v@), key@, val@),
    decreases v@.len(),
{
    let ghost s = kv_view(v@);
    let mut v = v;
    let n = v.len();
    if n == 0 {
        v.push((key, val));
        proof {
            assert(s.len() == 0);
            assert(kv_view(v@) =~= seq![(key@, val@)]);
        }
        v
    } else if str_lt(v[n - 1].0.as_str(), key.as_str()) {
        proof {
            assert(s.last() == (v@[n - 1].0@, v@[n - 1].1@));
        }
        v.push((key, val));
        proof {
            assert(kv_view(v@) =~= s.push((key@, val@)));
        }
        v
    } else if str_eq(v[n - 1].0.as_str(), key.as_str()) {
        proof {
            assert(s.last() == (v@[n - 1].0@, v@[n - 1].1@));
            assert(!lex_lt(s.last().0, key@));
            assert(s.last().0 == key@);
        }
        let _ = v.pop();
        v.push((key, val));
        proof {
            assert(kv_view(v@) =~= s.update(s.len() - 1, (key@, val@)));
        }
        v
    } else {
        proof {
            assert(s.last() == (v@[n - 1].0@, v@[n - 1].1@));
            assert(!lex_lt(s.last().0, key@));
            assert(s.last().0 != key@);
        }
        let last = v.pop().unwrap();
        proof {
            assert(kv_view(v@) =~= s.drop_last());
            assert((last.0@, last.1@) == s.last());
        }
        let mut r = entries_insert(v, key, val);
        r.push(last);
        proof {
            assert(kv_view(r@) =~= model_insert(s.drop_last(), key@, val@).push(
                (last.0@, last.1@),
            ));
        }
        r
    }
}

/// Looks the key up among the entries; exact match only.
pub fn entries_get<'a, V: View>(v: &'a Vec<(String, V)>, key: &str) -> (r: Option<&'a V>)
    requires
        keys_sorted(kv_view(v@)),
    ensures
        match r {
            Some(x) => map_of(kv_view(v@)).contains_key(key@) && x@ == map_of(kv_view(v@))[key@],
            None => !map_of(kv_view(v@)).contains_key(key@),
        },
{
    let mut i: usize = 0;
    while i < v.len()
        invariant
            0 <= i <= v.len(),
            keys_sorted(kv_view(v@)),
            forall|j: int| 0 <= j < i ==> kv_view(v@)[j].0 != key@,
        decreases v.len() - i,
    {
        if str_eq(v[i].0.as_str(), key) {
            proof {
                lemma_map_of_props(kv_view(v@));
                assert(kv_view(v@)[i as int].0 == key@);
                assert(kv_view(v@)[i as int].1 == v@[i as int].1@);
            }
            return Some(&v[i].1);
        }
        proof {
            assert(kv_view(v@)[i as int].0 == v@[i as int].0@);
        }
        i = i + 1;
    }
    proof {
        lemma_map_of_props(kv_view(v@));
        if map_of(kv_view(v@)).contains_key(key@) {
            let j = choose|j: int| 0 <= j < kv_view(v@).len() && kv_view(v@)[j].0 == key@;
            assert(false);
        }
    }
    None
}

} // verus!
