use vstd::prelude::*;
use std::collections::HashMap;

verus! {

broadcast use vstd::std_specs::hash::group_hash_axioms;

/// Whether target `i` has a known size that some other target shares. A
/// target whose size is unknown (its metadata could not be read) shares
/// nothing.
pub open spec fn size_is_shared(sizes: Seq<Option<u64>>, i: int) -> bool {
    &&& sizes[i] is Some
    &&& exists|j: int| 0 <= j < sizes.len() && j != i && sizes[j] == sizes[i]
}

/// Whether two of the first `n` targets have size `s`.
pub open spec fn two_of_size(sizes: Seq<Option<u64>>, n: int, s: u64) -> bool {
    exists|j: int, k: int|
        0 <= j < k < n && #[trigger] sizes[j] == Some(s) && #[trigger] sizes[k] == Some(s)
}

/// Marks the targets worth hashing: those whose size another target shares.
/// A file of a size no other target has cannot have a duplicate among them,
/// so it is never read.
pub fn hash_candidates(sizes: &Vec<Option<u64>>) -> (r: Vec<bool>)
    ensures
        r@.len() == sizes@.len(),
        forall|i: int| 0 <= i < sizes@.len() ==> r@[i] == size_is_shared(sizes@, i),
{
    let n = sizes.len();
    // For each size seen so far, whether more than one target has it.
    let mut shared: HashMap<u64, bool> = HashMap::new();
    let mut i: usize = 0;
    while i < n
        invariant
            n == sizes@.len(),
            i <= n,
            forall|s: u64|
                #[trigger] shared@.contains_key(s) <==> exists|j: int|
                    0 <= j < i && sizes@[j] == Some(s),
            forall|s: u64|
                #[trigger] shared@.contains_key(s) ==> (shared@[s] <==> two_of_size(
                    sizes@,
                    i as int,
                    s,
                )),
        decreases n - i,
    {
        match sizes[i] {
            Some(s) => {
                let seen = shared.contains_key(&s);
                shared.insert(s, seen);
                assert forall|t: u64| #[trigger]
                    shared@.contains_key(t) implies (shared@[t] <==> two_of_size(
                        sizes@,
                        i + 1,
                        t,
                    )) by {
                    if shared@.contains_key(t) {
                        if t == s {
                            if seen {
                                let j = choose|j: int| 0 <= j < i && sizes@[j] == Some(s);
                                assert(sizes@[j] == Some(s) && sizes@[i as int] == Some(s));
                                assert(two_of_size(sizes@, i + 1, t));
                            } else {
                                if two_of_size(sizes@, i + 1, t) {
                                    let (j, k) = choose|j: int, k: int|
                                        0 <= j < k < i + 1 && #[trigger] sizes@[j] == Some(t)
                                            && #[trigger] sizes@[k] == Some(t);
                                    assert(0 <= j < i && sizes@[j] == Some(s));
                                }
                            }
                        } else {
                            if two_of_size(sizes@, i + 1, t) {
                                let (j, k) = choose|j: int, k: int|
                                    0 <= j < k < i + 1 && #[trigger] sizes@[j] == Some(t)
                                        && #[trigger] sizes@[k] == Some(t);
                                assert(k != i);
                                assert(two_of_size(sizes@, i as int, t));
                            }
                        }
                    }
                }
                assert forall|t: u64| #[trigger]
                    shared@.contains_key(t) <==> exists|j: int|
                        0 <= j < i + 1 && sizes@[j] == Some(t) by {
                    if exists|j: int| 0 <= j < i + 1 && sizes@[j] == Some(t) {
                        let j = choose|j: int| 0 <= j < i + 1 && sizes@[j] == Some(t);
                        if j < i {
                            assert(exists|j: int| 0 <= j < i && sizes@[j] == Some(t));
                        }
                    }
                }
            },
            None => {
                assert forall|t: u64| #[trigger]
                    shared@.contains_key(t) implies (shared@[t] <==> two_of_size(
                        sizes@,
                        i + 1,
                        t,
                    )) by {
                    if two_of_size(sizes@, i + 1, t) {
                        let (j, k) = choose|j: int, k: int|
                            0 <= j < k < i + 1 && #[trigger] sizes@[j] == Some(t)
                                && #[trigger] sizes@[k] == Some(t);
                        assert(k != i);
                        assert(two_of_size(sizes@, i as int, t));
                    }
                }
                assert forall|t: u64| #[trigger]
                    shared@.contains_key(t) <==> exists|j: int|
                        0 <= j < i + 1 && sizes@[j] == Some(t) by {
                    if exists|j: int| 0 <= j < i + 1 && sizes@[j] == Some(t) {
                        let j = choose|j: int| 0 <= j < i + 1 && sizes@[j] == Some(t);
                        assert(j != i);
                        assert(exists|j: int| 0 <= j < i && sizes@[j] == Some(t));
                    }
                }
            },
        }
        i = i + 1;
    }
    let mut r: Vec<bool> = Vec::new();
    let mut i: usize = 0;
    while i < n
        invariant
            n == sizes@.len(),
            i <= n,
            r@.len() == i,
            forall|s: u64|
                #[trigger] shared@.contains_key(s) <==> exists|j: int|
                    0 <= j < n && sizes@[j] == Some(s),
            forall|s: u64|
                #[trigger] shared@.contains_key(s) ==> (shared@[s] <==> two_of_size(
                    sizes@,
                    n as int,
                    s,
                )),
            forall|k: int| 0 <= k < i ==> r@[k] == size_is_shared(sizes@, k),
        decreases n - i,
    {
        let b = match sizes[i] {
            Some(s) => {
                assert(shared@.contains_key(s));
                let v = match shared.get(&s) {
                    Some(v) => *v,
                    None => false,
                };
                proof {
                    if size_is_shared(sizes@, i as int) {
                        let j = choose|j: int|
                            0 <= j < n && j != i && sizes@[j] == sizes@[i as int];
                        if j < i {
                            assert(sizes@[j] == Some(s) && sizes@[i as int] == Some(s));
                        } else {
                            assert(sizes@[i as int] == Some(s) && sizes@[j] == Some(s));
                        }
                    }
                    if two_of_size(sizes@, n as int, s) {
                        let (j, k) = choose|j: int, k: int|
                            0 <= j < k < n && #[trigger] sizes@[j] == Some(s)
                                && #[trigger] sizes@[k] == Some(s);
                        if j != i {
                            assert(0 <= j < n && j != i && sizes@[j] == sizes@[i as int]);
                        } else {
                            assert(0 <= k < n && k != i && sizes@[k] == sizes@[i as int]);
                        }
                    }
                }
                v
            },
            None => false,
        };
        r.push(b);
        i = i + 1;
    }
    r
}

} // verus!
