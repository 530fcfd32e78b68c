use vstd::prelude::*;
use vstd::set_lib::lemma_len_subset;

verus! {

/// Every element of `p` is a location below `n`.
pub open spec fn all_below(p: Seq<usize>, n: nat) -> bool {
    forall|k: int| 0 <= k < p.len() ==> (#[trigger] p[k] as nat) < n
}

/// A path of length `n` that starts at `start` and visits each of the `n`
/// locations once.
pub open spec fn is_full_path(p: Seq<usize>, n: nat, start: usize) -> bool {
    &&& p.len() == n
    &&& n > 0
    &&& p[0] == start
    &&& p.no_duplicates()
    &&& all_below(p, n)
}

/// The locations below `k` that `p` does not hold, in ascending order.
pub open spec fn unvisited_below(p: Seq<usize>, k: nat) -> Seq<usize>
    decreases k,
{
    if k == 0 {
        Seq::empty()
    } else {
        let prev = unvisited_below(p, (k - 1) as nat);
        if p.contains((k - 1) as usize) {
            prev
        } else {
            prev.push((k - 1) as usize)
        }
    }
}

/// The set of locations below `k`.
pub open spec fn locations_below(k: nat) -> Set<usize> {
    Set::new(|x: usize| (x as nat) < k)
}

/// The path that a sequence of picks builds: each pick is a position in the
/// ascending list of locations not yet visited.
pub open spec fn path_from_picks(n: nat, start: usize, picks: Seq<nat>) -> Seq<usize>
    decreases picks.len(),
{
    if picks.len() == 0 {
        seq![start]
    } else {
        let prev = path_from_picks(n, start, picks.drop_last());
        prev.push(unvisited_below(prev, n)[picks.last() as int])
    }
}

/// What `unvisited_below` holds: exactly the locations below `k` missing from
/// `p`, strictly ascending.
pub proof fn lemma_unvisited_below(p: Seq<usize>, k: nat)
    requires
        k <= usize::MAX + 1,
    ensures
        forall|x: usize|
            unvisited_below(p, k).contains(x) <==> ((x as nat) < k && !p.contains(x)),
        forall|i: int, j: int|
            0 <= i < j < unvisited_below(p, k).len() ==> unvisited_below(p, k)[i]
                < unvisited_below(p, k)[j],
        forall|i: int|
            0 <= i < unvisited_below(p, k).len() ==> (#[trigger] unvisited_below(p, k)[i]
                as nat) < k,
    decreases k,
{
    if k > 0 {
        lemma_unvisited_below(p, (k - 1) as nat);
        let prev = unvisited_below(p, (k - 1) as nat);
        if !p.contains((k - 1) as usize) {
            let cur = prev.push((k - 1) as usize);
            assert forall|x: usize| cur.contains(x) <==> ((x as nat) < k && !p.contains(x)) by {
                if cur.contains(x) {
                    let i = choose|i: int| 0 <= i < cur.len() && cur[i] == x;
                    if i < prev.len() {
                        assert(prev[i] == x);
                    }
                }
                if (x as nat) < k && !p.contains(x) && x != (k - 1) as usize {
                    assert(prev.contains(x));
                    let i = choose|i: int| 0 <= i < prev.len() && prev[i] == x;
                    assert(cur[i] == x);
                }
                if x == (k - 1) as usize {
                    assert(cur[prev.len() as int] == x);
                }
            }
        }
    }
}

/// There are exactly `k` locations below `k`.
pub proof fn lemma_locations_below(k: nat)
    requires
        k <= usize::MAX + 1,
    ensures
        locations_below(k).finite(),
        locations_below(k).len() == k,
    decreases k,
{
    if k == 0 {
        assert(locations_below(k) =~= Set::empty());
    } else {
        lemma_locations_below((k - 1) as nat);
        assert(locations_below(k) =~= locations_below((k - 1) as nat).insert((k - 1) as usize));
    }
}

/// A path without repeats over locations below `n` is no longer than `n`,
/// and while it is shorter, some location below `n` is still unvisited.
pub proof fn lemma_short_path_has_unvisited(p: Seq<usize>, n: nat)
    requires
        n <= usize::MAX + 1,
        p.no_duplicates(),
        all_below(p, n),
        p.len() < n,
    ensures
        unvisited_below(p, n).len() > 0,
{
    lemma_unvisited_below(p, n);
    lemma_locations_below(n);
    p.unique_seq_to_set();
    if unvisited_below(p, n).len() == 0 {
        assert(locations_below(n).subset_of(p.to_set())) by {
            assert forall|x: usize| locations_below(n).contains(x) implies p.to_set().contains(
                x,
            ) by {
                if !p.contains(x) {
                    assert(unvisited_below(p, n).contains(x));
                }
            }
        }
        lemma_len_subset(locations_below(n), p.to_set());
    }
}

/// A path of length `n` without repeats over locations below `n` visits every
/// one of them.
pub proof fn lemma_full_path_visits_all(p: Seq<usize>, n: nat, start: usize)
    requires
        n <= usize::MAX + 1,
        is_full_path(p, n, start),
    ensures
        forall|x: usize| (x as nat) < n ==> p.contains(x),
{
    lemma_locations_below(n);
    p.unique_seq_to_set();
    assert forall|x: usize| (x as nat) < n implies p.contains(x) by {
        if !p.contains(x) {
            let rest = locations_below(n).remove(x);
            assert(p.to_set().subset_of(rest)) by {
                assert forall|y: usize| p.to_set().contains(y) implies rest.contains(y) by {
                    let i = choose|i: int| 0 <= i < p.len() && p[i] == y;
                    assert((p[i] as nat) < n);
                }
            }
            lemma_len_subset(p.to_set(), rest);
        }
    }
}

/// Tells whether `path` holds `city`.
fn visits(path: &Vec<usize>, city: usize) -> (r: bool)
    ensures
        r == path@.contains(city),
{
    let mut i: usize = 0;
    while i < path.len()
        invariant
            i <= path.len(),
            forall|j: int| 0 <= j < i ==> path@[j] != city,
        decreases path.len() - i,
    {
        if path[i] == city {
            return true;
        }
        i = i + 1;
    }
    false
}

/// The locations below `n` that `path` has not visited, in ascending order.
pub fn unvisited(path: &Vec<usize>, n: usize) -> (r: Vec<usize>)
    ensures
        r@ == unvisited_below(path@, n as nat),
{
    let mut out: Vec<usize> = Vec::new();
    let mut city: usize = 0;
    while city < n
        invariant
            city <= n,
            out@ == unvisited_below(path@, city as nat),
        decreases n - city,
    {
        if !visits(path, city) {
            out.push(city);
        }
        city = city + 1;
    }
    out
}

/// Roulette-wheel choice over candidates in ascending order, given for each
/// position whether the mass accumulated up to it exceeds the random draw:
/// the first position that does, or the last position when none does.
pub fn roulette_select(exceeds: &Vec<bool>) -> (k: usize)
    requires
        exceeds.len() > 0,
    ensures
        k < exceeds.len(),
        forall|j: int| 0 <= j < k ==> !exceeds@[j],
        exceeds@[k as int] || k == exceeds.len() - 1,
{
    let mut i: usize = 0;
    while i < exceeds.len() - 1
        invariant
            0 < exceeds.len(),
            i < exceeds.len(),
            forall|j: int| 0 <= j < i ==> !exceeds@[j],
        decreases exceeds.len() - i,
    {
        if exceeds[i] {
            return i;
        }
        i = i + 1;
    }
    i
}

/// One ant's path under construction: it starts at a fixed location and grows
/// by one unvisited location per step.
pub struct PathBuilder {
    n: usize,
    start: usize,
    path: Vec<usize>,
    picks: Ghost<Seq<nat>>,
}

impl PathBuilder {
    /// The number of locations.
    pub closed spec fn size(&self) -> nat {
        self.n as nat
    }

    /// The first location of the path.
    pub closed spec fn origin(&self) -> usize {
        self.start
    }

    /// The path built so far.
    pub closed spec fn current(&self) -> Seq<usize> {
        self.path@
    }

    /// The picks made so far, each a position among the unvisited locations.
    pub closed spec fn history(&self) -> Seq<nat> {
        self.picks@
    }

    /// The path is a non-empty prefix of a full path: it starts at the
    /// origin, holds no location twice and is what its picks build.
    pub open spec fn wf(&self) -> bool {
        &&& self.origin() < self.size()
        &&& 1 <= self.current().len() <= self.size()
        &&& self.current()[0] == self.origin()
        &&& self.current().no_duplicates()
        &&& all_below(self.current(), self.size())
        &&& self.current() == path_from_picks(self.size(), self.origin(), self.history())
    }

    /// A path that holds only `start`, among `n` locations.
    pub fn new(n: usize, start: usize) -> (b: Self)
        requires
            start < n,
        ensures
            b.wf(),
            b.size() == n,
            b.origin() == start,
            b.current() == seq![start],
            b.history() == Seq::<nat>::empty(),
    {
        let mut path: Vec<usize> = Vec::new();
        path.push(start);
        let b = PathBuilder { n, start, path, picks: Ghost(Seq::empty()) };
        assert(b.current() =~= seq![start]);
        b
    }

    /// Whether every location has been visited.
    pub fn is_complete(&self) -> (r: bool)
        requires
            self.wf(),
        ensures
            r == (self.current().len() == self.size()),
    {
        self.path.len() == self.n
    }

    /// The locations that may come next, in ascending order; there is at
    /// least one while the path is not complete.
    pub fn candidates(&self) -> (r: Vec<usize>)
        requires
            self.wf(),
        ensures
            r@ == unvisited_below(self.current(), self.size()),
            self.current().len() < self.size() ==> r.len() > 0,
    {
        proof {
            if self.current().len() < self.size() {
                lemma_short_path_has_unvisited(self.current(), self.size());
            }
        }
        unvisited(&self.path, self.n)
    }

    /// Appends the candidate at position `k` of `candidates()`.
    pub fn advance(&mut self, k: usize)
        requires
            old(self).wf(),
            k < unvisited_below(old(self).current(), old(self).size()).len(),
        ensures
            final(self).wf(),
            final(self).size() == old(self).size(),
            final(self).origin() == old(self).origin(),
            final(self).history() == old(self).history().push(k as nat),
            final(self).current() == old(self).current().push(
                unvisited_below(old(self).current(), old(self).size())[k as int],
            ),
    {
        let cands = unvisited(&self.path, self.n);
        let next = cands[k];
        proof {
            lemma_unvisited_below(self.path@, self.n as nat);
            assert(cands@.contains(next));
            let ghost old_picks = self.picks@;
            let ghost np = old_picks.push(k as nat);
            assert(np.drop_last() =~= old_picks);
            self.picks = Ghost(np);
        }
        let ghost before = self.path@;
        self.path.push(next);
        proof {
            assert(self.path@[0] == before[0]);
            assert forall|i: int, j: int|
                0 <= i < j < self.path@.len() implies self.path@[i] != self.path@[j] by {
                if j == before.len() {
                    assert(before.contains(before[i]));
                }
            }
            assert forall|i: int| 0 <= i < self.path@.len() implies (
            #[trigger] self.path@[i] as nat) < self.n as nat by {
                if i < before.len() {
                    assert(before[i] == self.path@[i]);
                }
            }
            assert(self.path@.len() <= self.n) by {
                if before.len() == self.n {
                    lemma_full_path_visits_all(before, self.n as nat, self.start);
                    assert(before.contains(next));
                }
            }
        }
    }

    /// The path built so far.
    pub fn path(&self) -> (r: Vec<usize>)
        requires
            self.wf(),
        ensures
            r@ == self.current(),
    {
        self.path.clone()
    }
}

/// A completed builder holds a full path: it has one entry per location,
/// starts at the origin, and visits every location exactly once.
pub proof fn lemma_complete_path_is_full(b: PathBuilder)
    requires
        b.wf(),
        b.current().len() == b.size(),
    ensures
        is_full_path(b.current(), b.size(), b.origin()),
        forall|x: usize| (x as nat) < b.size() ==> b.current().contains(x),
{
    lemma_full_path_visits_all(b.current(), b.size(), b.origin());
}

/// Two builders over the same locations and origin that were handed the same
/// picks hold the same path.
pub proof fn lemma_same_picks_same_path(b1: PathBuilder, b2: PathBuilder)
    requires
        b1.wf(),
        b2.wf(),
        b1.size() == b2.size(),
        b1.origin() == b2.origin(),
        b1.history() == b2.history(),
    ensures
        b1.current() == b2.current(),
{
}

} // verus!
