use vstd::prelude::*;

verus! {

/// The map that an association list stands for: a later entry of a key shadows an earlier
/// one.
pub open spec fn pairs_view<K, V>(s: Seq<(K, V)>) -> Map<K, V>
    decreases s.len(),
{
    if s.len() == 0 {
        Map::empty()
    } else {
        pairs_view(s.drop_last()).insert(s.last().0, s.last().1)
    }
}

/// No key occurs twice.
pub open spec fn keys_unique<K, V>(s: Seq<(K, V)>) -> bool {
    forall|i: int, j: int| 0 <= i < s.len() && 0 <= j < s.len() && i != j ==> #[trigger] s[i].0 != #[trigger] s[j].0
}

pub proof fn lemma_pairs_view_push<K, V>(s: Seq<(K, V)>, p: (K, V))
    ensures
        pairs_view(s.push(p)) == pairs_view(s).insert(p.0, p.1),
{
    assert(s.push(p).drop_last() =~= s);
}

pub proof fn lemma_pairs_view_take<K, V>(s: Seq<(K, V)>, i: int)
    requires
        0 <= i < s.len(),
    ensures
        pairs_view(s.take(i + 1)) == pairs_view(s.take(i)).insert(s[i].0, s[i].1),
{
    assert(s.take(i + 1).drop_last() =~= s.take(i));
}

pub proof fn lemma_pairs_view_dom<K, V>(s: Seq<(K, V)>, k: K)
    ensures
        pairs_view(s).contains_key(k) <==> exists|i: int| 0 <= i < s.len() && #[trigger] s[i].0 == k,
    decreases s.len(),
{
    if s.len() > 0 {
        lemma_pairs_view_dom(s.drop_last(), k);
        if pairs_view(s.drop_last()).contains_key(k) {
            let i = choose|i: int| 0 <= i < s.len() - 1 && #[trigger] s.drop_last()[i].0 == k;
            assert(s[i].0 == k);
        }
        if exists|i: int| 0 <= i < s.len() && #[trigger] s[i].0 == k {
            let i = choose|i: int| 0 <= i < s.len() && #[trigger] s[i].0 == k;
            if i < s.len() - 1 {
                assert(s.drop_last()[i].0 == k);
            }
        }
    }
}

/// With unique keys, each entry is what the map holds for its key.
pub proof fn lemma_pairs_view_entry<K, V>(s: Seq<(K, V)>, i: int)
    requires
        keys_unique(s),
        0 <= i < s.len(),
    ensures
        pairs_view(s).contains_key(s[i].0),
        pairs_view(s)[s[i].0] == s[i].1,
    decreases s.len(),
{
    if i < s.len() - 1 {
        let d = s.drop_last();
        assert(keys_unique(d)) by {
            assert forall|a: int, b: int| 0 <= a < d.len() && 0 <= b < d.len() && a != b implies #[trigger] d[a].0
                != #[trigger] d[b].0 by {
                assert(d[a] == s[a] && d[b] == s[b]);
            }
        }
        assert(d[i] == s[i]);
        lemma_pairs_view_entry(d, i);
        assert(s.last().0 != s[i].0);
    }
}

/// Position of the entry that gives a key its value.
pub fn find_key<V>(s: &Vec<(u128, V)>, k: u128) -> (r: Option<usize>)
    ensures
        r.is_none() <==> !pairs_view(s@).contains_key(k),
        r matches Some(i) ==> i < s@.len() && s@[i as int].0 == k && pairs_view(s@)[k] == s@[i as int].1,
{
    let mut i: usize = s.len();
    assert(s@.take(i as int) =~= s@);
    while i > 0
        invariant
            i <= s@.len(),
            pairs_view(s@).contains_key(k) == pairs_view(s@.take(i as int)).contains_key(k),
            pairs_view(s@).contains_key(k) ==> pairs_view(s@)[k] == pairs_view(s@.take(i as int))[k],
        decreases i,
    {
        proof {
            lemma_pairs_view_take(s@, i - 1);
        }
        if s[i - 1].0 == k {
            return Some(i - 1);
        }
        i = i - 1;
    }
    None
}

/// Removes the entry of a key from an association list of unique keys, handing back its
/// value.
pub fn take_key<V>(s: &mut Vec<(u128, V)>, k: u128) -> (r: Option<V>)
    requires
        keys_unique(old(s)@),
    ensures
        keys_unique(final(s)@),
        pairs_view(final(s)@) == pairs_view(old(s)@).remove(k),
        r.is_none() <==> !pairs_view(old(s)@).contains_key(k),
        r matches Some(v) ==> v == pairs_view(old(s)@)[k],
{
    match find_key(s, k) {
        None => {
            proof {
                assert(pairs_view(s@).remove(k) =~= pairs_view(s@));
            }
            None
        },
        Some(i) => {
            let ghost before = s@;
            let (_, v) = s.remove(i);
            proof {
                let after = s@;
                assert(after =~= before.remove(i as int));
                assert(keys_unique(after)) by {
                    assert forall|a: int, b: int| 0 <= a < after.len() && 0 <= b < after.len() && a != b implies #[trigger] after[a].0
                        != #[trigger] after[b].0 by {
                        let a2 = if a < i { a } else { a + 1 };
                        let b2 = if b < i { b } else { b + 1 };
                        assert(after[a] == before[a2] && after[b] == before[b2]);
                    }
                }
                assert forall|key: u128| #[trigger] pairs_view(after).contains_key(key) <==> pairs_view(before).remove(k).contains_key(key) by {
                    lemma_pairs_view_dom(after, key);
                    lemma_pairs_view_dom(before, key);
                    if exists|j: int| 0 <= j < after.len() && #[trigger] after[j].0 == key {
                        let j = choose|j: int| 0 <= j < after.len() && #[trigger] after[j].0 == key;
                        let j2 = if j < i { j } else { j + 1 };
                        assert(before[j2].0 == key);
                        assert(j2 != i);
                    }
                    if key != k && exists|j: int| 0 <= j < before.len() && #[trigger] before[j].0 == key {
                        let j = choose|j: int| 0 <= j < before.len() && #[trigger] before[j].0 == key;
                        assert(j != i);
                        let j2 = if j < i { j } else { j - 1 };
                        assert(after[j2].0 == key);
                    }
                }
                assert forall|key: u128| #[trigger] pairs_view(after).contains_key(key) implies pairs_view(after)[key]
                    == pairs_view(before)[key] by {
                    lemma_pairs_view_dom(after, key);
                    let j = choose|j: int| 0 <= j < after.len() && #[trigger] after[j].0 == key;
                    let j2 = if j < i { j } else { j + 1 };
                    lemma_pairs_view_entry(after, j);
                    lemma_pairs_view_entry(before, j2);
                }
                assert(pairs_view(after) =~= pairs_view(before).remove(k));
            }
            Some(v)
        },
    }
}

/// Sets the value of a key in an association list of unique keys.
pub fn set_key<V>(s: &mut Vec<(u128, V)>, k: u128, v: V)
    requires
        keys_unique(old(s)@),
    ensures
        keys_unique(final(s)@),
        pairs_view(final(s)@) == pairs_view(old(s)@).insert(k, v),
        forall|i: int| 0 <= i < final(s)@.len() ==> #[trigger] final(s)@[i] == (k, v) || old(s)@.contains(final(s)@[i]),
{
    match find_key(s, k) {
        Some(i) => {
            let ghost before = s@;
            s.set(i, (k, v));
            proof {
                assert forall|j: int| 0 <= j < s@.len() implies #[trigger] s@[j] == (k, v) || before.contains(s@[j]) by {
                    if j != i {
                        assert(before[j] == s@[j]);
                    }
                }
            }
            proof {
                assert(keys_unique(s@)) by {
                    assert forall|a: int, b: int| 0 <= a < s@.len() && 0 <= b < s@.len() && a != b implies #[trigger] s@[a].0
                        != #[trigger] s@[b].0 by {
                        assert(before[a].0 != before[b].0);
                    }
                }
                assert forall|key: u128| #[trigger] pairs_view(s@).contains_key(key) <==> pairs_view(before).insert(k, v).contains_key(key) by {
                    lemma_pairs_view_dom(s@, key);
                    lemma_pairs_view_dom(before, key);
                    if exists|j: int| 0 <= j < before.len() && #[trigger] before[j].0 == key {
                        let j = choose|j: int| 0 <= j < before.len() && #[trigger] before[j].0 == key;
                        assert(s@[j].0 == key);
                    }
                    if exists|j: int| 0 <= j < s@.len() && #[trigger] s@[j].0 == key {
                        let j = choose|j: int| 0 <= j < s@.len() && #[trigger] s@[j].0 == key;
                        assert(before[j].0 == key);
                    }
                }
                assert forall|key: u128| #[trigger] pairs_view(s@).contains_key(key) implies pairs_view(s@)[key] == pairs_view(before).insert(k, v)[key] by {
                    lemma_pairs_view_dom(s@, key);
                    let j = choose|j: int| 0 <= j < s@.len() && #[trigger] s@[j].0 == key;
                    lemma_pairs_view_entry(s@, j);
                    lemma_pairs_view_entry(before, j);
                }
                assert(pairs_view(s@) =~= pairs_view(before).insert(k, v));
            }
        },
        None => {
            let ghost before = s@;
            proof {
                lemma_pairs_view_push(s@, (k, v));
            }
            s.push((k, v));
            proof {
                assert forall|j: int| 0 <= j < s@.len() implies #[trigger] s@[j] == (k, v) || before.contains(s@[j]) by {
                    if j < before.len() {
                        assert(before[j] == s@[j]);
                    }
                }
                assert forall|a: int, b: int| 0 <= a < s@.len() && 0 <= b < s@.len() && a != b implies #[trigger] s@[a].0
                    != #[trigger] s@[b].0 by {
                    let n = before.len() as int;
                    if a == n {
                        lemma_pairs_view_dom(before, k);
                        assert(before[b].0 == s@[b].0);
                    } else if b == n {
                        lemma_pairs_view_dom(before, k);
                        assert(before[a].0 == s@[a].0);
                    } else {
                        assert(before[a].0 != before[b].0);
                    }
                }
            }
        },
    }
}

} // verus!
