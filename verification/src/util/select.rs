use vstd::prelude::*;

verus! {

/// The order in which candidates are picked: the larger key first, and of
/// two equal keys the one with the lower index.
pub open spec fn precedes(keys: Seq<u64>, a: int, b: int) -> bool {
    keys[a] > keys[b] || (keys[a] == keys[b] && a < b)
}

/// Whether candidate `k` is among the picked.
pub open spec fn holds(picked: Seq<usize>, k: int) -> bool {
    exists|j: int| 0 <= j < picked.len() && #[trigger] picked[j] as int == k
}

/// Whether `picked` holds the first candidates in picking order: its
/// indices are valid, have positive keys and stand in picking order, and
/// every candidate with a positive key that is left out comes after all of
/// them.
pub open spec fn is_selection(keys: Seq<u64>, picked: Seq<usize>) -> bool {
    &&& forall|i: int|
        0 <= i < picked.len() ==> (#[trigger] picked[i]) < keys.len() && keys[picked[i] as int]
            > 0
    &&& forall|i: int, j: int|
        0 <= i < j < picked.len() ==> precedes(keys, #[trigger] picked[i] as int, #[trigger] picked[j] as int)
    &&& forall|k: int, i: int|
        0 <= k < keys.len() && #[trigger] keys[k] > 0 && !holds(picked, k) && 0 <= i
            < picked.len() ==> precedes(keys, #[trigger] picked[i] as int, k)
}

/// Whether every candidate with a positive key is in `picked`.
pub open spec fn exhausts(keys: Seq<u64>, picked: Seq<usize>) -> bool {
    forall|k: int| 0 <= k < keys.len() && #[trigger] keys[k] > 0 ==> holds(picked, k)
}

/// A selection of as many candidates as there are leaves out none with a
/// positive key, if it was to leave out none unless it is full.
pub proof fn lemma_full_selection(keys: Seq<u64>, picked: Seq<usize>)
    requires
        is_selection(keys, picked),
        picked.len() == keys.len() || exhausts(keys, picked),
    ensures
        exhausts(keys, picked),
{
    if picked.len() == keys.len() && !exhausts(keys, picked) {
        let k = choose|k: int| 0 <= k < keys.len() && #[trigger] keys[k] > 0 && !holds(picked, k);
        // the picked indices are distinct and below the number of keys, and
        // none of them is `k`: there is no room for that many
        let without = Set::new(|i: int| 0 <= i < keys.len() && i != k);
        let all = Set::new(|i: int| 0 <= i < keys.len());
        vstd::set_lib::lemma_int_range(0, keys.len() as int);
        assert(all =~= vstd::set_lib::set_int_range(0, keys.len() as int));
        assert(without =~= all.remove(k));
        let indices = picked.map_values(|p: usize| p as int);
        assert forall|i: int, j: int|
            0 <= i < indices.len() && 0 <= j < indices.len() && i != j implies indices[i]
            != indices[j] by {
            if i < j {
                assert(precedes(keys, picked[i] as int, picked[j] as int));
            } else {
                assert(precedes(keys, picked[j] as int, picked[i] as int));
            }
        }
        assert(indices.no_duplicates());
        indices.unique_seq_to_set();
        assert forall|x: int| indices.to_set().contains(x) implies without.contains(x) by {
            let i = choose|i: int| 0 <= i < indices.len() && indices[i] == x;
            assert(picked[i] as int == x);
            assert(picked[i] < keys.len());
            if x == k {
                assert(holds(picked, k));
            }
        }
        vstd::set_lib::lemma_len_subset(indices.to_set(), without);
    }
}

/// Picks the candidates with the `n` largest positive keys, the largest
/// first; of equal keys the one with the lower index goes first. Fewer than
/// `n` are picked only when no candidate with a positive key is left.
pub fn select_largest(keys: &Vec<u64>, n: usize) -> (picked: Vec<usize>)
    ensures
        picked@.len() <= n,
        is_selection(keys@, picked@),
        picked@.len() == n || exhausts(keys@, picked@),
{
    let mut picked: Vec<usize> = Vec::new();
    while picked.len() < n
        invariant
            picked@.len() <= n,
            is_selection(keys@, picked@),
        ensures
            picked@.len() <= n,
            is_selection(keys@, picked@),
            picked@.len() == n || exhausts(keys@, picked@),
        decreases n - picked@.len(),
    {
        let has_last = picked.len() > 0;
        let last: usize = if has_last { picked[picked.len() - 1] } else { 0 };
        let mut best: Option<usize> = None;
        let mut k: usize = 0;
        while k < keys.len()
            invariant
                k <= keys@.len(),
                has_last == (picked@.len() > 0),
                has_last ==> last == picked@[picked@.len() - 1],
                is_selection(keys@, picked@),
                best.is_some() ==> best.unwrap() < k && keys@[best.unwrap() as int] > 0 && (has_last
                    ==> precedes(keys@, last as int, best.unwrap() as int)),
                forall|j: int|
                    0 <= j < k && #[trigger] keys@[j] > 0 && (has_last ==> precedes(
                        keys@,
                        last as int,
                        j,
                    )) ==> best.is_some() && (j == best.unwrap() || precedes(
                        keys@,
                        best.unwrap() as int,
                        j,
                    )),
            decreases keys@.len() - k,
        {
            let key = keys[k];
            let after_last = !has_last || keys[last] > key || (keys[last] == key && last < k);
            if key > 0 && after_last {
                let better = match best {
                    None => true,
                    Some(b) => key > keys[b],
                };
                if better {
                    best = Some(k);
                }
            }
            k += 1;
        }
        match best {
            None => {
                proof {
                    assert forall|j: int| 0 <= j < keys@.len() && #[trigger] keys@[j] > 0 implies holds(
                        picked@,
                        j,
                    ) by {
                        if !holds(picked@, j) {
                            assert(has_last ==> precedes(keys@, picked@[picked@.len() - 1] as int, j));
                        }
                    }
                }
                break ;
            },
            Some(b) => {
                let ghost before = picked@;
                picked.push(b);
                proof {
                    assert forall|i: int, j: int| 0 <= i < j < picked@.len() implies precedes(
                        keys@,
                        #[trigger] picked@[i] as int,
                        #[trigger] picked@[j] as int,
                    ) by {
                        if j == before.len() {
                            if i < before.len() - 1 {
                                assert(precedes(
                                    keys@,
                                    before[i] as int,
                                    before[before.len() - 1] as int,
                                ));
                            }
                        } else {
                            assert(picked@[i] == before[i] && picked@[j] == before[j]);
                        }
                    }
                    assert forall|j: int, i: int|
                        0 <= j < keys@.len() && #[trigger] keys@[j] > 0 && !holds(picked@, j)
                            && 0 <= i < picked@.len() implies precedes(
                        keys@,
                        #[trigger] picked@[i] as int,
                        j,
                    ) by {
                        assert(picked@[before.len() as int] == b);
                        assert(j != b);
                        if holds(before, j) {
                            let w = choose|w: int| 0 <= w < before.len() && #[trigger] before[w] as int == j;
                            assert(picked@[w] as int == j);
                        }
                        if has_last {
                            assert(precedes(keys@, before[before.len() - 1] as int, j));
                        }
                        assert(precedes(keys@, b as int, j));
                        if i < before.len() {
                            assert(picked@[i] == before[i]);
                            assert(precedes(keys@, before[i] as int, j));
                        }
                    }
                }
            },
        }
    }
    picked
}

} // verus!
