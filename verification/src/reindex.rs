//! How lists of particle indices change when one particle leaves the
//! population: the entry that named it goes, and every index above it
//! moves down by one.
use vstd::prelude::*;

verus! {

/// The place that particle `x` takes once particle `d` has been removed
/// from the list of particles (meaningful for `x != d`).
pub open spec fn shift_down(x: usize, d: usize) -> usize {
    if x > d {
        (x - 1) as usize
    } else {
        x
    }
}

/// A list of particle indices after particle `d` has left: the entries equal
/// to `d` are dropped and the others are shifted by `shift_down`, in order.
pub open spec fn renumber(s: Seq<usize>, d: usize) -> Seq<usize>
    decreases s.len(),
{
    if s.len() == 0 {
        Seq::empty()
    } else {
        let rest = renumber(s.drop_first(), d);
        if s[0] == d {
            rest
        } else {
            seq![shift_down(s[0], d)] + rest
        }
    }
}

/// The values of `vals` whose key (the entry of `keys` at the same place) is
/// not `d`, in order.
pub open spec fn keep_unless<T>(vals: Seq<T>, keys: Seq<usize>, d: usize) -> Seq<T>
    decreases keys.len(),
{
    if keys.len() == 0 || vals.len() == 0 {
        Seq::empty()
    } else {
        let rest = keep_unless(vals.drop_first(), keys.drop_first(), d);
        if keys[0] == d {
            rest
        } else {
            seq![vals[0]] + rest
        }
    }
}

/// The values of `vals` except those whose key (the entry of `keys` at the
/// same place) is below `k` and held by `marks`, in order.
pub open spec fn drop_marked_keys<V>(vals: Seq<V>, keys: Seq<usize>, marks: Set<usize>, k: nat) -> Seq<V>
    decreases keys.len(),
{
    if keys.len() == 0 || vals.len() == 0 {
        Seq::empty()
    } else {
        let rest = drop_marked_keys(vals.drop_first(), keys.drop_first(), marks, k);
        if (keys[0] as int) < k && marks.contains(keys[0]) {
            rest
        } else {
            seq![vals[0]] + rest
        }
    }
}

/// With the bound at zero, no value is dropped.
pub proof fn lemma_drop_marked_keys_none<V>(vals: Seq<V>, keys: Seq<usize>, marks: Set<usize>)
    requires
        vals.len() == keys.len(),
    ensures
        drop_marked_keys(vals, keys, marks, 0) == vals,
    decreases keys.len(),
{
    if keys.len() > 0 {
        lemma_drop_marked_keys_none(vals.drop_first(), keys.drop_first(), marks);
        assert(seq![vals[0]] + vals.drop_first() =~= vals);
    } else {
        assert(vals =~= Seq::empty());
    }
}

/// Raising the bound past an unmarked key changes nothing.
pub proof fn lemma_drop_marked_keys_unmarked<V>(vals: Seq<V>, keys: Seq<usize>, marks: Set<usize>, d: usize)
    requires
        !marks.contains(d),
    ensures
        drop_marked_keys(vals, keys, marks, (d + 1) as nat) == drop_marked_keys(vals, keys, marks, d as nat),
    decreases keys.len(),
{
    if keys.len() > 0 && vals.len() > 0 {
        lemma_drop_marked_keys_unmarked(vals.drop_first(), keys.drop_first(), marks, d);
    }
}

/// Dropping the values keyed by a marked `d` and renumbering the keys, then
/// dropping the marked keys below `d`, drops the same values as dropping the
/// marked keys below `d + 1` at once.
pub proof fn lemma_drop_marked_keys_step<V>(vals: Seq<V>, keys: Seq<usize>, marks: Set<usize>, d: usize)
    requires
        marks.contains(d),
        vals.len() == keys.len(),
    ensures
        drop_marked_keys(keep_unless(vals, keys, d), renumber(keys, d), marks, d as nat)
            == drop_marked_keys(vals, keys, marks, (d + 1) as nat),
    decreases keys.len(),
{
    if keys.len() > 0 {
        let v = vals.drop_first();
        let t = keys.drop_first();
        lemma_drop_marked_keys_step(v, t, marks, d);
        lemma_keep_unless_len(v, t, d);
        let x = keys[0];
        if x != d {
            let kv = keep_unless(vals, keys, d);
            let rk = renumber(keys, d);
            assert(kv.drop_first() =~= keep_unless(v, t, d));
            assert(rk.drop_first() =~= renumber(t, d));
            assert(rk[0] == shift_down(x, d));
        }
    }
}

/// A list whose entries are all below `d` is left as it is by renumbering.
pub proof fn lemma_renumber_below(s: Seq<usize>, d: usize)
    requires
        forall|k: int| 0 <= k < s.len() ==> #[trigger] s[k] < d,
    ensures
        renumber(s, d) == s,
    decreases s.len(),
{
    if s.len() > 0 {
        lemma_renumber_below(s.drop_first(), d);
        assert(seq![s[0]] + s.drop_first() =~= s);
    } else {
        assert(s =~= Seq::empty());
    }
}

/// Renumbering drops an entry `d` at the end.
pub proof fn lemma_renumber_push(s: Seq<usize>, d: usize)
    ensures
        renumber(s.push(d), d) == renumber(s, d),
    decreases s.len(),
{
    if s.len() > 0 {
        lemma_renumber_push(s.drop_first(), d);
        assert(s.push(d).drop_first() =~= s.drop_first().push(d));
        assert(s.push(d)[0] == s[0]);
    } else {
        assert(s.push(d).drop_first() =~= Seq::<usize>::empty());
        assert(renumber(Seq::<usize>::empty(), d) == Seq::<usize>::empty());
        assert(s.push(d)[0] == d);
        assert(s =~= Seq::<usize>::empty());
    }
}

/// Values whose keys all differ from `d` are all kept.
pub proof fn lemma_keep_unless_all<T>(vals: Seq<T>, keys: Seq<usize>, d: usize)
    requires
        vals.len() == keys.len(),
        forall|k: int| 0 <= k < keys.len() ==> #[trigger] keys[k] != d,
    ensures
        keep_unless(vals, keys, d) == vals,
    decreases keys.len(),
{
    if keys.len() > 0 {
        lemma_keep_unless_all(vals.drop_first(), keys.drop_first(), d);
        assert(seq![vals[0]] + vals.drop_first() =~= vals);
    } else {
        assert(vals =~= Seq::empty());
    }
}

/// The value at the end goes when its key `d` goes.
pub proof fn lemma_keep_unless_push<T>(vals: Seq<T>, keys: Seq<usize>, v: T, d: usize)
    requires
        vals.len() == keys.len(),
    ensures
        keep_unless(vals.push(v), keys.push(d), d) == keep_unless(vals, keys, d),
    decreases keys.len(),
{
    if keys.len() > 0 {
        lemma_keep_unless_push(vals.drop_first(), keys.drop_first(), v, d);
        assert(vals.push(v).drop_first() =~= vals.drop_first().push(v));
        assert(keys.push(d).drop_first() =~= keys.drop_first().push(d));
        assert(keys.push(d)[0] == keys[0]);
        assert(vals.push(v)[0] == vals[0]);
    } else {
        assert(vals.push(v).drop_first() =~= Seq::<T>::empty());
        assert(keys.push(d).drop_first() =~= Seq::<usize>::empty());
        assert(keep_unless(Seq::<T>::empty(), Seq::<usize>::empty(), d) == Seq::<T>::empty());
        assert(keys.push(d)[0] == d);
        assert(keys =~= Seq::<usize>::empty());
    }
}

/// Every value that survives the dropping of marked keys is a value whose
/// key was not dropped.
pub proof fn lemma_drop_marked_keys_source<V>(
    vals: Seq<V>,
    keys: Seq<usize>,
    marks: Set<usize>,
    k: nat,
    j: int,
)
    requires
        vals.len() == keys.len(),
        0 <= j < drop_marked_keys(vals, keys, marks, k).len(),
    ensures
        exists|i: int|
            0 <= i < vals.len() && drop_marked_keys(vals, keys, marks, k)[j] == vals[i] && !((
            keys[i] as int) < k && marks.contains(keys[i])),
    decreases keys.len(),
{
    let v = vals.drop_first();
    let t = keys.drop_first();
    let rest = drop_marked_keys(v, t, marks, k);
    if (keys[0] as int) < k && marks.contains(keys[0]) {
        lemma_drop_marked_keys_source(v, t, marks, k, j);
        let i = choose|i: int|
            0 <= i < v.len() && rest[j] == v[i] && !((t[i] as int) < k && marks.contains(t[i]));
        assert(vals[i + 1] == v[i] && keys[i + 1] == t[i]);
    } else if j > 0 {
        lemma_drop_marked_keys_source(v, t, marks, k, j - 1);
        let i = choose|i: int|
            0 <= i < v.len() && rest[j - 1] == v[i] && !((t[i] as int) < k && marks.contains(t[i]));
        assert(vals[i + 1] == v[i] && keys[i + 1] == t[i]);
        assert(drop_marked_keys(vals, keys, marks, k)[j] == rest[j - 1]);
    } else {
        assert(drop_marked_keys(vals, keys, marks, k)[0] == vals[0]);
    }
}

/// Unfolds `renumber` on the suffix that starts one place earlier.
pub proof fn lemma_renumber_step(s: Seq<usize>, d: usize, i: int)
    requires
        0 < i <= s.len(),
    ensures
        renumber(s.skip(i - 1), d) == (if s[i - 1] == d {
            renumber(s.skip(i), d)
        } else {
            seq![shift_down(s[i - 1], d)] + renumber(s.skip(i), d)
        }),
{
    assert(s.skip(i - 1).drop_first() =~= s.skip(i));
}

/// Unfolds `keep_unless` on the suffixes that start one place earlier.
pub proof fn lemma_keep_unless_step<T>(vals: Seq<T>, keys: Seq<usize>, d: usize, i: int)
    requires
        0 < i <= keys.len(),
        vals.len() == keys.len(),
    ensures
        keep_unless(vals.skip(i - 1), keys.skip(i - 1), d) == (if keys[i - 1] == d {
            keep_unless(vals.skip(i), keys.skip(i), d)
        } else {
            seq![vals[i - 1]] + keep_unless(vals.skip(i), keys.skip(i), d)
        }),
{
    assert(vals.skip(i - 1).drop_first() =~= vals.skip(i));
    assert(keys.skip(i - 1).drop_first() =~= keys.skip(i));
}

/// Every entry of a renumbered list comes from an entry of the list before renumbering
/// that was not `d`.
pub proof fn lemma_renumber_source(s: Seq<usize>, d: usize, j: int)
    requires
        0 <= j < renumber(s, d).len(),
    ensures
        exists|k: int| 0 <= k < s.len() && s[k] != d && renumber(s, d)[j] == shift_down(s[k], d),
    decreases s.len(),
{
    let rest = renumber(s.drop_first(), d);
    if s[0] == d {
        lemma_renumber_source(s.drop_first(), d, j);
        let k = choose|k: int|
            0 <= k < s.drop_first().len() && s.drop_first()[k] != d && rest[j] == shift_down(
                s.drop_first()[k],
                d,
            );
        assert(s[k + 1] == s.drop_first()[k]);
    } else if j == 0 {
        assert(s[0] != d && renumber(s, d)[0] == shift_down(s[0], d));
    } else {
        lemma_renumber_source(s.drop_first(), d, j - 1);
        let k = choose|k: int|
            0 <= k < s.drop_first().len() && s.drop_first()[k] != d && rest[j - 1] == shift_down(
                s.drop_first()[k],
                d,
            );
        assert(s[k + 1] == s.drop_first()[k]);
        assert(renumber(s, d)[j] == rest[j - 1]);
    }
}

/// Every entry other than `d` of the list before renumbering has its shifted value in
/// the renumbered list.
pub proof fn lemma_renumber_keeps(s: Seq<usize>, d: usize, k: int)
    requires
        0 <= k < s.len(),
        s[k] != d,
    ensures
        renumber(s, d).contains(shift_down(s[k], d)),
    decreases s.len(),
{
    let rest = renumber(s.drop_first(), d);
    if k == 0 {
        assert(renumber(s, d)[0] == shift_down(s[0], d));
    } else {
        assert(s.drop_first()[k - 1] == s[k]);
        lemma_renumber_keeps(s.drop_first(), d, k - 1);
        let j = choose|j: int| 0 <= j < rest.len() && rest[j] == shift_down(s[k], d);
        if s[0] == d {
            assert(renumber(s, d)[j] == shift_down(s[k], d));
        } else {
            assert(renumber(s, d)[j + 1] == shift_down(s[k], d));
        }
    }
}

/// `shift_down` does not merge two indices that both differ from `d`.
pub proof fn lemma_shift_down_injective(x: usize, y: usize, d: usize)
    requires
        x != d,
        y != d,
        shift_down(x, d) == shift_down(y, d),
    ensures
        x == y,
{
}

/// Renumbering keeps a list free of repeated entries.
pub proof fn lemma_renumber_no_duplicates(s: Seq<usize>, d: usize)
    requires
        s.no_duplicates(),
    ensures
        renumber(s, d).no_duplicates(),
    decreases s.len(),
{
    if s.len() > 0 {
        let t = s.drop_first();
        assert(t.no_duplicates()) by {
            assert forall|a: int, b: int| 0 <= a < t.len() && 0 <= b < t.len() && a != b implies t[a]
                != t[b] by {
                assert(t[a] == s[a + 1] && t[b] == s[b + 1]);
            }
        }
        lemma_renumber_no_duplicates(t, d);
        let rest = renumber(t, d);
        if s[0] != d {
            let r = renumber(s, d);
            assert forall|a: int, b: int| 0 <= a < r.len() && 0 <= b < r.len() && a != b implies r[a]
                != r[b] by {
                if a == 0 || b == 0 {
                    let j = if a == 0 {
                        b - 1
                    } else {
                        a - 1
                    };
                    if r[a] == r[b] {
                        assert(rest[j] == shift_down(s[0], d));
                        lemma_renumber_source(t, d, j);
                        let k = choose|k: int|
                            0 <= k < t.len() && t[k] != d && rest[j] == shift_down(t[k], d);
                        lemma_shift_down_injective(t[k], s[0], d);
                        assert(s[k + 1] == s[0]);
                    }
                } else {
                    assert(r[a] == rest[a - 1] && r[b] == rest[b - 1]);
                }
            }
        }
    }
}

/// The length of a renumbered list that holds no repeated entries.
pub proof fn lemma_renumber_len(s: Seq<usize>, d: usize)
    requires
        s.no_duplicates(),
    ensures
        renumber(s, d).len() == (if s.contains(d) {
            s.len() - 1
        } else {
            s.len() as int
        }),
    decreases s.len(),
{
    if s.len() > 0 {
        let t = s.drop_first();
        assert(t.no_duplicates()) by {
            assert forall|a: int, b: int| 0 <= a < t.len() && 0 <= b < t.len() && a != b implies t[a]
                != t[b] by {
                assert(t[a] == s[a + 1] && t[b] == s[b + 1]);
            }
        }
        lemma_renumber_len(t, d);
        if s[0] == d {
            if t.contains(d) {
                let k = choose|k: int| 0 <= k < t.len() && t[k] == d;
                assert(s[k + 1] == s[0]);
            }
        } else {
            if s.contains(d) {
                let k = choose|k: int| 0 <= k < s.len() && s[k] == d;
                assert(t[k - 1] == d);
            }
            if t.contains(d) {
                let k = choose|k: int| 0 <= k < t.len() && t[k] == d;
                assert(s[k + 1] == d);
            }
        }
    }
}

/// Keeping the values whose key is not `d` leaves as many values as there
/// are entries in the renumbered keys.
pub proof fn lemma_keep_unless_len<T>(vals: Seq<T>, keys: Seq<usize>, d: usize)
    requires
        vals.len() == keys.len(),
    ensures
        keep_unless(vals, keys, d).len() == renumber(keys, d).len(),
    decreases keys.len(),
{
    if keys.len() > 0 {
        lemma_keep_unless_len(vals.drop_first(), keys.drop_first(), d);
    }
}

/// After particle `d` leaves, the renumbered indices still name the same
/// values as the kept ones did before.
pub proof fn lemma_renumber_tracks<B>(items: Seq<B>, keys: Seq<usize>, d: usize)
    requires
        d < items.len(),
        forall|k: int| 0 <= k < keys.len() ==> keys[k] < items.len(),
    ensures
        renumber(keys, d).map_values(|i: usize| items.remove(d as int)[i as int]) == keep_unless(
            keys.map_values(|i: usize| items[i as int]),
            keys,
            d,
        ),
    decreases keys.len(),
{
    let after = items.remove(d as int);
    let vals = keys.map_values(|i: usize| items[i as int]);
    if keys.len() > 0 {
        let t = keys.drop_first();
        lemma_renumber_tracks(items, t, d);
        assert(vals.drop_first() =~= t.map_values(|i: usize| items[i as int]));
        let rest_l = renumber(t, d).map_values(|i: usize| after[i as int]);
        if keys[0] == d {
            assert(renumber(keys, d).map_values(|i: usize| after[i as int]) =~= rest_l);
        } else {
            let x = keys[0];
            assert(after[shift_down(x, d) as int] == items[x as int]);
            assert(renumber(keys, d).map_values(|i: usize| after[i as int]) =~= seq![
                items[x as int],
            ] + rest_l);
        }
    } else {
        assert(renumber(keys, d).map_values(|i: usize| after[i as int]) =~= Seq::empty());
    }
}

} // verus!
