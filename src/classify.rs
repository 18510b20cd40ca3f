use vstd::prelude::*;

verus! {

/// Whether target `i` has a digest that an earlier target already had.
pub open spec fn is_repeat(ds: Seq<Option<Seq<u8>>>, i: int) -> bool {
    &&& ds[i] is Some
    &&& exists|j: int| 0 <= j < i && ds[j] == ds[i]
}

/// The targets among the first `n` whose digest an earlier target already
/// had, in order: the ones to delete.
pub open spec fn repeats_before(ds: Seq<Option<Seq<u8>>>, n: int) -> Seq<usize>
    decreases n,
{
    if n <= 0 {
        Seq::empty()
    } else if is_repeat(ds, n - 1) {
        repeats_before(ds, n - 1).push((n - 1) as usize)
    } else {
        repeats_before(ds, n - 1)
    }
}

/// The targets to delete: every one whose digest an earlier target had.
pub open spec fn repeats(ds: Seq<Option<Seq<u8>>>) -> Seq<usize> {
    repeats_before(ds, ds.len() as int)
}

/// Whether two byte strings are equal.
fn same_bytes(a: &[u8], b: &[u8]) -> (r: bool)
    ensures
        r == (a@ == b@),
{
    let n = a.len();
    if n != b.len() {
        return false;
    }
    let mut i: usize = 0;
    while i < n
        invariant
            n == a@.len(),
            n == b@.len(),
            i <= n,
            forall|k: int| 0 <= k < i ==> a@[k] == b@[k],
        decreases n - i,
    {
        if a[i] != b[i] {
            return false;
        }
        i = i + 1;
    }
    assert(a@ =~= b@);
    true
}

/// A digest and the first target that had it.
struct SeenEntry {
    digest: Vec<u8>,
    first: usize,
}

/// For each digest met so far, the first target that had it.
pub struct SeenTable {
    entries: Vec<SeenEntry>,
    map: Ghost<Map<Seq<u8>, usize>>,
}

impl SeenTable {
    /// The table as a map from digest to the first target with it.
    pub closed spec fn view(&self) -> Map<Seq<u8>, usize> {
        self.map@
    }

    /// The table's invariant: one entry per digest, and the map holds them.
    pub closed spec fn wf(&self) -> bool {
        &&& forall|d: Seq<u8>|
            #[trigger] self.map@.contains_key(d) <==> exists|k: int|
                0 <= k < self.entries@.len() && self.entries@[k].digest@ == d
        &&& forall|k: int|
            0 <= k < self.entries@.len() ==> self.map@[#[trigger] self.entries@[k].digest@]
                == self.entries@[k].first
    }

    /// An empty table.
    pub fn new() -> (r: SeenTable)
        ensures
            r.wf(),
            r@ == Map::<Seq<u8>, usize>::empty(),
    {
        SeenTable { entries: Vec::new(), map: Ghost(Map::empty()) }
    }

    /// The first target recorded with digest `d`, if any.
    pub fn first_seen(&self, d: &[u8]) -> (r: Option<usize>)
        requires
            self.wf(),
        ensures
            r == (if self@.contains_key(d@) {
                Some(self@[d@])
            } else {
                None
            }),
    {
        let mut k: usize = 0;
        while k < self.entries.len()
            invariant
                self.wf(),
                k <= self.entries@.len(),
                forall|q: int| 0 <= q < k ==> self.entries@[q].digest@ != d@,
            decreases self.entries@.len() - k,
        {
            if same_bytes(self.entries[k].digest.as_slice(), d) {
                return Some(self.entries[k].first);
            }
            k = k + 1;
        }
        None
    }

    /// Records that target `at` has digest `d`, unless that digest is
    /// already in the table: then the table is unchanged and the first target
    /// recorded with it is returned.
    pub fn record(&mut self, d: Vec<u8>, at: usize) -> (r: Option<usize>)
        requires
            old(self).wf(),
        ensures
            final(self).wf(),
            r == (if old(self)@.contains_key(d@) {
                Some(old(self)@[d@])
            } else {
                None
            }),
            final(self)@ == (if old(self)@.contains_key(d@) {
                old(self)@
            } else {
                old(self)@.insert(d@, at)
            }),
    {
        match self.first_seen(d.as_slice()) {
            Some(first) => Some(first),
            None => {
                let ghost dv = d@;
                let ghost before = self.entries@;
                self.entries.push(SeenEntry { digest: d, first: at });
                self.map = Ghost(self.map@.insert(dv, at));
                assert forall|k: int| 0 <= k < self.entries@.len() implies self.map@[
                    #[trigger] self.entries@[k].digest@] == self.entries@[k].first by {
                    if k < before.len() {
                        assert(self.entries@[k] == before[k]);
                        assert(before[k].digest@ != dv);
                    }
                }
                assert forall|e: Seq<u8>| #[trigger]
                    self.map@.contains_key(e) <==> exists|k: int|
                        0 <= k < self.entries@.len() && self.entries@[k].digest@ == e by {
                    if e == dv {
                        assert(self.entries@[before.len() as int].digest@ == dv);
                    } else if exists|k: int|
                        0 <= k < self.entries@.len() && self.entries@[k].digest@ == e {
                        let k = choose|k: int|
                            0 <= k < self.entries@.len() && self.entries@[k].digest@ == e;
                        assert(self.entries@[k] == before[k]);
                    }
                    if exists|k: int| 0 <= k < before.len() && before[k].digest@ == e {
                        let k = choose|k: int| 0 <= k < before.len() && before[k].digest@ == e;
                        assert(self.entries@[k] == before[k]);
                    }
                }
                None
            },
        }
    }
}

/// The targets to delete, in order: each whose digest an earlier target
/// already had. A target whose digest is unknown (`None`: it was not hashed,
/// or could not be read) is neither kept nor deleted, and the first target
/// with each digest is always kept.
pub fn classify(digests: &Vec<Option<Vec<u8>>>) -> (r: Vec<usize>)
    ensures
        r@ == repeats(digests.deep_view()),
{
    let ghost ds = digests.deep_view();
    let n = digests.len();
    let mut table = SeenTable::new();
    let mut r: Vec<usize> = Vec::new();
    let mut i: usize = 0;
    while i < n
        invariant
            n == ds.len(),
            ds == digests.deep_view(),
            i <= n,
            table.wf(),
            r@ == repeats_before(ds, i as int),
            forall|d: Seq<u8>|
                #[trigger] table@.contains_key(d) <==> exists|j: int|
                    0 <= j < i && ds[j] == Some(d),
        decreases n - i,
    {
        match &digests[i] {
            Some(d) => {
                assert(ds[i as int] == Some(d@));
                let seen = table.record(d.clone(), i);
                if seen.is_some() {
                    r.push(i);
                }
                assert forall|e: Seq<u8>| #[trigger]
                    table@.contains_key(e) <==> exists|j: int|
                        0 <= j < i + 1 && ds[j] == Some(e) by {
                    if exists|j: int| 0 <= j < i + 1 && ds[j] == Some(e) {
                        let j = choose|j: int| 0 <= j < i + 1 && ds[j] == Some(e);
                        if j < i {
                            assert(exists|j: int| 0 <= j < i && ds[j] == Some(e));
                        }
                    }
                }
            },
            None => {
                assert(ds[i as int] is None);
                assert forall|e: Seq<u8>| #[trigger]
                    table@.contains_key(e) <==> exists|j: int|
                        0 <= j < i + 1 && ds[j] == Some(e) by {
                    if exists|j: int| 0 <= j < i + 1 && ds[j] == Some(e) {
                        let j = choose|j: int| 0 <= j < i + 1 && ds[j] == Some(e);
                        assert(j != i);
                        assert(exists|j: int| 0 <= j < i && ds[j] == Some(e));
                    }
                }
            },
        }
        i = i + 1;
    }
    r
}

/// How many of the first `n` targets have a known digest.
pub open spec fn present_before(ds: Seq<Option<Seq<u8>>>, n: int) -> nat
    decreases n,
{
    if n <= 0 {
        0
    } else if ds[n - 1] is Some {
        present_before(ds, n - 1) + 1
    } else {
        present_before(ds, n - 1)
    }
}

/// The distinct digests among the first `n` targets.
pub open spec fn digests_before(ds: Seq<Option<Seq<u8>>>, n: int) -> Set<Seq<u8>>
    decreases n,
{
    if n <= 0 {
        Set::empty()
    } else if let Some(d) = ds[n - 1] {
        digests_before(ds, n - 1).insert(d)
    } else {
        digests_before(ds, n - 1)
    }
}

proof fn lemma_digests_before(ds: Seq<Option<Seq<u8>>>, n: int)
    requires
        0 <= n <= ds.len(),
    ensures
        digests_before(ds, n).finite(),
        forall|d: Seq<u8>|
            #[trigger] digests_before(ds, n).contains(d) <==> exists|j: int|
                0 <= j < n && ds[j] == Some(d),
    decreases n,
{
    if n > 0 {
        lemma_digests_before(ds, n - 1);
        assert forall|d: Seq<u8>| #[trigger]
            digests_before(ds, n).contains(d) <==> exists|j: int|
                0 <= j < n && ds[j] == Some(d) by {
            if exists|j: int| 0 <= j < n && ds[j] == Some(d) {
                let j = choose|j: int| 0 <= j < n && ds[j] == Some(d);
                if j < n - 1 {
                    assert(exists|j: int| 0 <= j < n - 1 && ds[j] == Some(d));
                }
            }
        }
    }
}

proof fn lemma_repeats_before_members(ds: Seq<Option<Seq<u8>>>, n: int)
    requires
        0 <= n <= ds.len(),
        ds.len() <= usize::MAX,
    ensures
        forall|p: int|
            0 <= p < repeats_before(ds, n).len() ==> {
                let i = #[trigger] repeats_before(ds, n)[p] as int;
                0 <= i < n && is_repeat(ds, i)
            },
        forall|i: int|
            0 <= i < n && is_repeat(ds, i) ==> #[trigger] repeats_before(ds, n).contains(
                i as usize,
            ),
    decreases n,
{
    if n > 0 {
        lemma_repeats_before_members(ds, n - 1);
        let prev = repeats_before(ds, n - 1);
        assert forall|p: int| 0 <= p < repeats_before(ds, n).len() implies {
            let i = #[trigger] repeats_before(ds, n)[p] as int;
            0 <= i < n && is_repeat(ds, i)
        } by {
            if p < prev.len() {
                assert(repeats_before(ds, n)[p] == prev[p]);
            }
        }
        assert forall|i: int| 0 <= i < n && is_repeat(ds, i) implies #[trigger] repeats_before(
            ds,
            n,
        ).contains(i as usize) by {
            if i < n - 1 {
                assert(prev.contains(i as usize));
                let p = choose|p: int| 0 <= p < prev.len() && prev[p] == i as usize;
                if is_repeat(ds, n - 1) {
                    assert(repeats_before(ds, n) == prev.push((n - 1) as usize));
                    assert(repeats_before(ds, n)[p] == i as usize);
                }
            } else {
                assert(repeats_before(ds, n).last() == i as usize);
            }
        }
    }
}

/// A target is deleted exactly when its digest is known and an earlier
/// target had the same digest.
pub proof fn lemma_deleted_iff_repeat(ds: Seq<Option<Seq<u8>>>, i: int)
    requires
        ds.len() <= usize::MAX,
        0 <= i < ds.len(),
    ensures
        repeats(ds).contains(i as usize) <==> is_repeat(ds, i),
{
    lemma_repeats_before_members(ds, ds.len() as int);
    if repeats(ds).contains(i as usize) {
        let p = choose|p: int| 0 <= p < repeats(ds).len() && repeats(ds)[p] == i as usize;
        assert(repeats_before(ds, ds.len() as int)[p] as int == i);
    }
}

/// The first target with a digest is kept, and every later target with the
/// same digest is deleted.
pub proof fn lemma_first_seen_wins(ds: Seq<Option<Seq<u8>>>, first: int, later: int)
    requires
        ds.len() <= usize::MAX,
        0 <= first < later < ds.len(),
        ds[first] is Some,
        ds[later] == ds[first],
        forall|k: int| 0 <= k < first ==> ds[k] != ds[first],
    ensures
        !repeats(ds).contains(first as usize),
        repeats(ds).contains(later as usize),
{
    lemma_deleted_iff_repeat(ds, first);
    lemma_deleted_iff_repeat(ds, later);
}

/// A target without a known digest (never hashed, or unreadable) is never
/// deleted.
pub proof fn lemma_unknown_never_deleted(ds: Seq<Option<Seq<u8>>>, i: int)
    requires
        ds.len() <= usize::MAX,
        0 <= i < ds.len(),
        ds[i] is None,
    ensures
        !repeats(ds).contains(i as usize),
{
    lemma_deleted_iff_repeat(ds, i);
}

proof fn lemma_count_before(ds: Seq<Option<Seq<u8>>>, n: int)
    requires
        0 <= n <= ds.len(),
    ensures
        repeats_before(ds, n).len() + digests_before(ds, n).len() == present_before(ds, n),
    decreases n,
{
    if n > 0 {
        lemma_count_before(ds, n - 1);
        lemma_digests_before(ds, n - 1);
        if let Some(d) = ds[n - 1] {
            if digests_before(ds, n - 1).contains(d) {
                let j = choose|j: int| 0 <= j < n - 1 && ds[j] == Some(d);
                assert(is_repeat(ds, n - 1));
                assert(digests_before(ds, n) =~= digests_before(ds, n - 1));
            } else {
                assert(!is_repeat(ds, n - 1));
            }
        }
    }
}

/// As many targets are deleted as there are targets with a known digest,
/// less the number of distinct digests: one target per digest is kept.
pub proof fn lemma_deleted_count(ds: Seq<Option<Seq<u8>>>)
    ensures
        repeats(ds).len() == present_before(ds, ds.len() as int) - digests_before(
            ds,
            ds.len() as int,
        ).len(),
{
    lemma_count_before(ds, ds.len() as int);
}

} // verus!
