//! A variable-order Markov chain over integer-coded atoms.
//!
//! A [`Chain`] learns transition statistics incrementally from atom
//! sequences and can then sample successor atoms in proportion to the
//! observed transition frequencies.  The conditioning context is a
//! fixed-length sliding window of the most recent atoms, called the
//! history; the atom `0` is reserved as the sentence-boundary marker
//! and seeds every fresh history.

use vstd::prelude::*;
use vstd::pervasive::VecAdditionalExecFns;

verus! {

/// The ways a chain operation can fail.
#[derive(Clone, Copy, Debug, PartialEq, Eq, Structural)]
pub enum ChainError {
    /// Construction was attempted with an order of zero.
    InvalidConfiguration,
    /// A sampling state does not have length equal to the chain's order.
    PreconditionViolation,
}

/// One recorded destination atom together with how often it was observed.
#[derive(Clone, Copy, Debug)]
pub struct DestCount {
    pub atom: usize,
    pub count: usize,
}

/// The statistics recorded for one conditioning history: the history
/// itself, the destinations observed after it with their occurrence
/// counts, and the total occurrence count over all destinations.
pub struct TransitionEntry {
    pub key: Vec<usize>,
    pub dests: Vec<DestCount>,
    pub total: usize,
}

/// A variable-order Markov chain: the learned transition statistics
/// together with the current training history.
pub struct Chain {
    pub order: usize,
    pub transitions: Vec<TransitionEntry>,
    pub history: Vec<usize>,
}

/// The sum of the occurrence counts of a destination list.
pub open spec fn sum_counts(ds: Seq<DestCount>) -> nat
    decreases ds.len(),
{
    if ds.len() == 0 {
        0
    } else {
        ds[0].count as nat + sum_counts(ds.drop_first())
    }
}

/// Whether `atom` occurs as a destination in `ds`.
pub open spec fn has_dest(ds: Seq<DestCount>, atom: usize) -> bool {
    exists|i: int| 0 <= i < ds.len() && ds[i].atom == atom
}

/// The position of `atom` in `ds` (meaningful when `has_dest` holds and
/// the destination atoms are distinct).
pub open spec fn dest_index(ds: Seq<DestCount>, atom: usize) -> int {
    choose|i: int| 0 <= i < ds.len() && ds[i].atom == atom
}

/// The occurrence count recorded for `atom` in `ds`, zero if absent.
pub open spec fn count_in(ds: Seq<DestCount>, atom: usize) -> nat {
    if has_dest(ds, atom) {
        ds[dest_index(ds, atom)].count as nat
    } else {
        0
    }
}

impl TransitionEntry {
    /// Consistency of the recorded counts: destination atoms are
    /// distinct, every count is positive, and the stored total equals
    /// the sum of the destination counts.
    pub open spec fn counts_wf(self) -> bool {
        &&& forall|i: int, j: int|
            0 <= i < j < self.dests@.len() ==> self.dests@[i].atom != self.dests@[j].atom
        &&& forall|i: int| 0 <= i < self.dests@.len() ==> (#[trigger] self.dests@[i]).count >= 1
        &&& self.total == sum_counts(self.dests@)
    }

    /// Consistent counts with at least one destination recorded.
    pub open spec fn stats_wf(self) -> bool {
        &&& self.counts_wf()
        &&& self.dests@.len() > 0
    }

    /// Well-formedness of one entry: the key has the chain's order as
    /// its length and the statistics are consistent.
    pub open spec fn wf(self, order: nat) -> bool {
        &&& self.key@.len() == order
        &&& self.stats_wf()
    }
}

/// Whether the entries' keys are pairwise distinct.
pub open spec fn keys_distinct(ts: Seq<TransitionEntry>) -> bool {
    forall|a: int, b: int| 0 <= a < b < ts.len() ==> ts[a].key@ != ts[b].key@
}

/// Whether `key` occurs among the entries.
pub open spec fn key_seen(ts: Seq<TransitionEntry>, key: Seq<usize>) -> bool {
    exists|i: int| 0 <= i < ts.len() && ts[i].key@ == key
}

/// The position of the entry for `key` (meaningful when `key_seen`
/// holds and keys are distinct).
pub open spec fn key_index(ts: Seq<TransitionEntry>, key: Seq<usize>) -> int {
    choose|i: int| 0 <= i < ts.len() && ts[i].key@ == key
}

/// The entry recorded for `key` (meaningful when `key_seen` holds).
pub open spec fn entry_at(ts: Seq<TransitionEntry>, key: Seq<usize>) -> TransitionEntry {
    ts[key_index(ts, key)]
}

impl Chain {
    /// Well-formedness of the whole chain: positive order, a history of
    /// exactly `order` atoms, every entry well formed, and distinct keys.
    pub open spec fn wf(self) -> bool {
        &&& self.order >= 1
        &&& self.history@.len() == self.order
        &&& forall|i: int|
            0 <= i < self.transitions@.len() ==> (#[trigger] self.transitions@[i]).wf(
                self.order as nat,
            )
        &&& keys_distinct(self.transitions@)
    }

    /// Whether `key` has been observed as a training context.
    pub open spec fn seen(self, key: Seq<usize>) -> bool {
        key_seen(self.transitions@, key)
    }

    /// The entry recorded for `key` (meaningful when `seen` holds).
    pub open spec fn entry_for(self, key: Seq<usize>) -> TransitionEntry {
        entry_at(self.transitions@, key)
    }

    /// The total occurrence count recorded for `key`, zero if unseen.
    pub open spec fn total_of(self, key: Seq<usize>) -> nat {
        if self.seen(key) {
            self.entry_for(key).total as nat
        } else {
            0
        }
    }

    /// The occurrence count recorded for the transition `key -> atom`,
    /// zero if unseen.
    pub open spec fn count_of(self, key: Seq<usize>, atom: usize) -> nat {
        if self.seen(key) {
            count_in(self.entry_for(key).dests@, atom)
        } else {
            0
        }
    }

    /// A history of `order` copies of the boundary atom `0`.
    pub open spec fn boundary_history(order: nat) -> Seq<usize> {
        Seq::new(order, |i: int| 0usize)
    }
}

/// Each destination count is bounded by the sum of all counts.
proof fn lemma_count_le_sum(ds: Seq<DestCount>, j: int)
    requires
        0 <= j < ds.len(),
    ensures
        ds[j].count <= sum_counts(ds),
    decreases ds.len(),
{
    if j > 0 {
        lemma_count_le_sum(ds.drop_first(), j - 1);
    }
}

/// Updating one destination changes the sum by the difference at that
/// position.
proof fn lemma_sum_update(ds: Seq<DestCount>, j: int, d: DestCount)
    requires
        0 <= j < ds.len(),
    ensures
        sum_counts(ds.update(j, d)) == sum_counts(ds) - ds[j].count + d.count,
    decreases ds.len(),
{
    if j == 0 {
        assert(ds.update(0, d).drop_first() =~= ds.drop_first());
    } else {
        assert(ds.update(j, d).drop_first() =~= ds.drop_first().update(j - 1, d));
        lemma_sum_update(ds.drop_first(), j - 1, d);
    }
}

/// Appending a destination adds its count to the sum.
proof fn lemma_sum_push(ds: Seq<DestCount>, d: DestCount)
    ensures
        sum_counts(ds.push(d)) == sum_counts(ds) + d.count,
    decreases ds.len(),
{
    let p = ds.push(d);
    assert(p.len() == ds.len() + 1);
    assert(sum_counts(p) == p[0].count + sum_counts(p.drop_first()));
    if ds.len() == 0 {
        assert(p[0] == d);
        assert(p.drop_first() =~= Seq::<DestCount>::empty());
        assert(sum_counts(p.drop_first()) == 0);
    } else {
        assert(p[0] == ds[0]);
        assert(p.drop_first() =~= ds.drop_first().push(d));
        lemma_sum_push(ds.drop_first(), d);
    }
}

/// With distinct destination atoms, `dest_index` finds exactly the
/// position that holds a given atom.
proof fn lemma_dest_index_unique(ds: Seq<DestCount>, i: int)
    requires
        forall|a: int, b: int| 0 <= a < b < ds.len() ==> ds[a].atom != ds[b].atom,
        0 <= i < ds.len(),
    ensures
        has_dest(ds, ds[i].atom),
        dest_index(ds, ds[i].atom) == i,
{
    let atom = ds[i].atom;
    assert(has_dest(ds, atom));
    let j = dest_index(ds, atom);
    assert(0 <= j < ds.len() && ds[j].atom == atom);
}

/// Replacing the destination at position `j` by one with the same atom
/// and a new count changes only that atom's count.
proof fn lemma_count_in_replace(ds: Seq<DestCount>, j: int, d: DestCount)
    requires
        forall|a: int, b: int| 0 <= a < b < ds.len() ==> ds[a].atom != ds[b].atom,
        0 <= j < ds.len(),
        d.atom == ds[j].atom,
    ensures
        forall|a: int, b: int|
            0 <= a < b < ds.update(j, d).len() ==> ds.update(j, d)[a].atom != ds.update(
                j,
                d,
            )[b].atom,
        count_in(ds.update(j, d), d.atom) == d.count,
        forall|a: usize| a != d.atom ==> count_in(ds.update(j, d), a) == count_in(ds, a),
{
    let ds2 = ds.update(j, d);
    assert(forall|k: int| 0 <= k < ds.len() ==> ds2[k].atom == ds[k].atom);
    lemma_dest_index_unique(ds2, j);
    assert forall|a: usize| a != d.atom implies count_in(ds2, a) == count_in(ds, a) by {
        if has_dest(ds, a) {
            let w = dest_index(ds, a);
            assert(0 <= w < ds.len() && ds[w].atom == a);
            assert(ds2[w].atom == a);
            lemma_dest_index_unique(ds, w);
            lemma_dest_index_unique(ds2, w);
        } else {
            assert(!has_dest(ds2, a)) by {
                if has_dest(ds2, a) {
                    let w = dest_index(ds2, a);
                    assert(ds[w].atom == a);
                }
            }
        }
    }
}

/// Appending a destination for a fresh atom leaves every other atom's
/// count unchanged and gives the fresh atom the appended count.
proof fn lemma_count_in_push(ds: Seq<DestCount>, d: DestCount)
    requires
        forall|a: int, b: int| 0 <= a < b < ds.len() ==> ds[a].atom != ds[b].atom,
        !has_dest(ds, d.atom),
    ensures
        forall|a: int, b: int|
            0 <= a < b < ds.push(d).len() ==> ds.push(d)[a].atom != ds.push(d)[b].atom,
        count_in(ds.push(d), d.atom) == d.count,
        forall|a: usize| a != d.atom ==> count_in(ds.push(d), a) == count_in(ds, a),
{
    let ds2 = ds.push(d);
    assert(forall|k: int| 0 <= k < ds.len() ==> ds2[k].atom == ds[k].atom);
    assert(ds2[ds.len() as int] == d);
    assert forall|a: int, b: int| 0 <= a < b < ds2.len() implies ds2[a].atom != ds2[b].atom by {
        if b == ds.len() {
            assert(ds[a].atom != d.atom);
        }
    }
    lemma_dest_index_unique(ds2, ds.len() as int);
    assert forall|a: usize| a != d.atom implies count_in(ds2, a) == count_in(ds, a) by {
        if has_dest(ds, a) {
            let w = dest_index(ds, a);
            assert(0 <= w < ds.len() && ds[w].atom == a);
            assert(ds2[w].atom == a);
            lemma_dest_index_unique(ds, w);
            lemma_dest_index_unique(ds2, w);
        } else {
            assert(!has_dest(ds2, a)) by {
                if has_dest(ds2, a) {
                    let w = dest_index(ds2, a);
                    if w < ds.len() {
                        assert(ds[w].atom == a);
                    }
                }
            }
        }
    }
}

/// The destination selected by weighted sampling: the destinations are
/// laid out as consecutive intervals, each as wide as its count, and
/// the destination whose interval contains `idx` is returned.
pub open spec fn pick_dest(ds: Seq<DestCount>, idx: int) -> usize
    decreases ds.len(),
{
    if ds.len() == 0 {
        arbitrary()
    } else if idx < ds[0].count {
        ds[0].atom
    } else {
        pick_dest(ds.drop_first(), idx - ds[0].count)
    }
}

/// An index below the sum of the counts always falls into the interval
/// of a recorded destination.
proof fn lemma_pick_dest_valid(ds: Seq<DestCount>, idx: int)
    requires
        0 <= idx < sum_counts(ds),
    ensures
        has_dest(ds, pick_dest(ds, idx)),
    decreases ds.len(),
{
    if idx < ds[0].count {
        assert(ds[0].atom == pick_dest(ds, idx));
    } else {
        lemma_pick_dest_valid(ds.drop_first(), idx - ds[0].count);
        let a = pick_dest(ds.drop_first(), idx - ds[0].count);
        let w = choose|i: int| 0 <= i < ds.drop_first().len() && ds.drop_first()[i].atom == a;
        assert(ds[w + 1].atom == a);
    }
}

/// With distinct keys, `key_index` finds exactly the position that
/// holds a given key.
proof fn lemma_key_index_unique(ts: Seq<TransitionEntry>, i: int)
    requires
        keys_distinct(ts),
        0 <= i < ts.len(),
    ensures
        key_seen(ts, ts[i].key@),
        key_index(ts, ts[i].key@) == i,
{
    let key = ts[i].key@;
    assert(key_seen(ts, key));
    let j = key_index(ts, key);
    assert(0 <= j < ts.len() && ts[j].key@ == key);
}

/// Replacing one entry by another with the same key keeps the set of
/// seen keys, the distinctness of keys, and every other key's entry.
proof fn lemma_replace_entry(pre: Seq<TransitionEntry>, post: Seq<TransitionEntry>, idx: int)
    requires
        keys_distinct(pre),
        0 <= idx < pre.len(),
        post.len() == pre.len(),
        forall|i: int| 0 <= i < post.len() && i != idx ==> post[i] == pre[i],
        post[idx].key@ == pre[idx].key@,
    ensures
        keys_distinct(post),
        forall|k: Seq<usize>| #![trigger key_seen(post, k)] key_seen(post, k) <==> key_seen(pre, k),
        key_index(pre, pre[idx].key@) == idx,
        key_index(post, pre[idx].key@) == idx,
        key_seen(pre, pre[idx].key@),
        forall|k: Seq<usize>| #![trigger entry_at(post, k)]
            key_seen(pre, k) && k != pre[idx].key@ ==> entry_at(post, k) == entry_at(pre, k),
{
    let key = pre[idx].key@;
    assert(forall|i: int| 0 <= i < post.len() ==> post[i].key@ == pre[i].key@);
    assert forall|a: int, b: int| 0 <= a < b < post.len() implies post[a].key@ != post[b].key@ by {
        assert(pre[a].key@ != pre[b].key@);
    }
    assert forall|k: Seq<usize>| #![trigger key_seen(post, k)]
        key_seen(post, k) <==> key_seen(pre, k) by {
        if key_seen(post, k) {
            let w = key_index(post, k);
            assert(0 <= w < post.len() && post[w].key@ == k);
            assert(pre[w].key@ == k);
            lemma_key_index_unique(pre, w);
        }
        if key_seen(pre, k) {
            let w = key_index(pre, k);
            assert(0 <= w < pre.len() && pre[w].key@ == k);
            assert(post[w].key@ == k);
            lemma_key_index_unique(post, w);
        }
    }
    lemma_key_index_unique(pre, idx);
    lemma_key_index_unique(post, idx);
    assert forall|k: Seq<usize>| #![trigger entry_at(post, k)]
        key_seen(pre, k) && k != key implies entry_at(post, k) == entry_at(pre, k) by {
        let w = key_index(pre, k);
        assert(0 <= w < pre.len() && pre[w].key@ == k);
        lemma_key_index_unique(pre, w);
        assert(w != idx);
        assert(post[w].key@ == k);
        lemma_key_index_unique(post, w);
    }
}

/// Appending an entry with an unseen key makes exactly that key seen
/// and leaves every previously seen key's entry unchanged.
proof fn lemma_append_entry(pre: Seq<TransitionEntry>, post: Seq<TransitionEntry>)
    requires
        keys_distinct(pre),
        post.len() == pre.len() + 1,
        forall|i: int| 0 <= i < pre.len() ==> post[i] == pre[i],
        !key_seen(pre, post[pre.len() as int].key@),
    ensures
        keys_distinct(post),
        forall|k: Seq<usize>| #![trigger key_seen(post, k)]
            key_seen(post, k) <==> (key_seen(pre, k) || k == post[pre.len() as int].key@),
        key_index(post, post[pre.len() as int].key@) == pre.len(),
        forall|k: Seq<usize>| #![trigger entry_at(post, k)]
            key_seen(pre, k) ==> entry_at(post, k) == entry_at(pre, k),
{
    let n = pre.len() as int;
    let newkey = post[n].key@;
    assert forall|a: int, b: int| 0 <= a < b < post.len() implies post[a].key@ != post[b].key@ by {
        if b < n {
            assert(pre[a].key@ != pre[b].key@);
        } else {
            assert(post[a].key@ == pre[a].key@);
            if post[a].key@ == newkey {
                lemma_key_index_unique(pre, a);
                assert(key_seen(pre, newkey));
            }
        }
    }
    assert forall|k: Seq<usize>| #![trigger key_seen(post, k)]
        key_seen(post, k) <==> (key_seen(pre, k) || k == newkey) by {
        if key_seen(post, k) {
            let w = key_index(post, k);
            assert(0 <= w < post.len() && post[w].key@ == k);
            if w < n {
                assert(pre[w].key@ == k);
                lemma_key_index_unique(pre, w);
            }
        }
        if key_seen(pre, k) {
            let w = key_index(pre, k);
            assert(0 <= w < pre.len() && pre[w].key@ == k);
            assert(post[w].key@ == k);
            lemma_key_index_unique(post, w);
        }
        if k == newkey {
            lemma_key_index_unique(post, n);
        }
    }
    lemma_key_index_unique(post, n);
    assert forall|k: Seq<usize>| #![trigger entry_at(post, k)]
        key_seen(pre, k) implies entry_at(post, k) == entry_at(pre, k) by {
        let w = key_index(pre, k);
        assert(0 <= w < pre.len() && pre[w].key@ == k);
        assert(post[w].key@ == k);
        lemma_key_index_unique(post, w);
    }
}

/// Builds a fresh history of `order` copies of the boundary atom `0`.
fn zero_history(order: usize) -> (v: Vec<usize>)
    ensures
        v@ == Chain::boundary_history(order as nat),
{
    let mut v: Vec<usize> = Vec::new();
    let mut i: usize = 0;
    while i < order
        invariant
            i <= order,
            v@.len() == i,
            forall|k: int| 0 <= k < i ==> v@[k] == 0usize,
        decreases order - i,
    {
        v.push(0);
        i += 1;
    }
    proof {
        assert(v@ =~= Chain::boundary_history(order as nat));
    }
    v
}

/// Compares two atom sequences element by element.
fn atoms_equal(a: &Vec<usize>, b: &Vec<usize>) -> (r: bool)
    ensures
        r <==> a@ == b@,
{
    if a.len() != b.len() {
        proof {
            assert(a@ != b@);
        }
        return false;
    }
    let n = a.len();
    let mut i: usize = 0;
    while i < n
        invariant
            n == a@.len() == b@.len(),
            i <= n,
            forall|k: int| 0 <= k < i ==> a@[k] == b@[k],
        decreases n - i,
    {
        if a[i] != b[i] {
            return false;
        }
        i += 1;
    }
    proof {
        assert(a@ =~= b@);
    }
    true
}

/// Copies an atom sequence.
pub(crate) fn clone_atoms(a: &Vec<usize>) -> (r: Vec<usize>)
    ensures
        r@ == a@,
{
    let n = a.len();
    let mut r: Vec<usize> = Vec::new();
    let mut i: usize = 0;
    while i < n
        invariant
            n == a@.len(),
            i <= n,
            r@ =~= a@.subrange(0, i as int),
        decreases n - i,
    {
        r.push(a[i]);
        proof {
            assert(r@ =~= a@.subrange(0, i + 1));
        }
        i += 1;
    }
    proof {
        assert(r@ =~= a@);
    }
    r
}

/// Finds the position of `atom` among the recorded destinations.
fn find_dest(ds: &Vec<DestCount>, atom: usize) -> (r: Option<usize>)
    ensures
        match r {
            Some(j) => 0 <= j < ds@.len() && ds@[j as int].atom == atom,
            None => !has_dest(ds@, atom),
        },
{
    let n = ds.len();
    let mut j: usize = 0;
    while j < n
        invariant
            n == ds@.len(),
            j <= n,
            forall|k: int| 0 <= k < j ==> ds@[k].atom != atom,
        decreases n - j,
    {
        if ds[j].atom == atom {
            return Some(j);
        }
        j += 1;
    }
    None
}

/// Walks the destination intervals and returns the destination whose
/// interval contains `index`, realizing `pick_dest` in executable code.
fn pick_from(ds: &Vec<DestCount>, index: usize) -> (r: usize)
    requires
        index < sum_counts(ds@),
        sum_counts(ds@) <= usize::MAX,
    ensures
        r == pick_dest(ds@, index as int),
{
    let n = ds.len();
    let mut left: usize = 0;
    let mut j: usize = 0;
    proof {
        assert(ds@.skip(0) =~= ds@);
    }
    while j < n
        invariant
            n == ds@.len(),
            j <= n,
            left <= index,
            index < sum_counts(ds@),
            sum_counts(ds@) <= usize::MAX,
            sum_counts(ds@) == left + sum_counts(ds@.skip(j as int)),
            pick_dest(ds@, index as int) == pick_dest(ds@.skip(j as int), index - left),
        decreases n - j,
    {
        let c = ds[j].count;
        proof {
            assert(ds@.skip(j as int)[0] == ds@[j as int]);
            assert(ds@.skip(j as int).drop_first() =~= ds@.skip(j as int + 1));
            assert(sum_counts(ds@.skip(j as int)) == c + sum_counts(ds@.skip(j as int + 1)));
        }
        if index < left + c {
            return ds[j].atom;
        }
        left = left + c;
        j += 1;
    }
    proof {
        assert(ds@.skip(n as int) =~= Seq::<DestCount>::empty());
        assert(false);
    }
    unreached()
}

impl TransitionEntry {
    /// Records one observation of `atom` after this entry's history:
    /// the atom's count and the total both grow by one, every other
    /// count is untouched.
    fn record(&mut self, atom: usize)
        requires
            old(self).counts_wf(),
            old(self).total < usize::MAX,
        ensures
            final(self).key == old(self).key,
            final(self).stats_wf(),
            final(self).total == old(self).total + 1,
            count_in(final(self).dests@, atom) == count_in(old(self).dests@, atom) + 1,
            forall|a: usize|
                a != atom ==> count_in(final(self).dests@, a) == count_in(old(self).dests@, a),
    {
        match find_dest(&self.dests, atom) {
            Some(j) => {
                let c = self.dests[j].count;
                proof {
                    lemma_count_le_sum(self.dests@, j as int);
                    lemma_dest_index_unique(self.dests@, j as int);
                    lemma_sum_update(self.dests@, j as int, DestCount { atom, count: (c + 1) as usize });
                    lemma_count_in_replace(
                        self.dests@,
                        j as int,
                        DestCount { atom, count: (c + 1) as usize },
                    );
                }
                self.dests.set(j, DestCount { atom, count: c + 1 });
            },
            None => {
                proof {
                    lemma_sum_push(self.dests@, DestCount { atom, count: 1usize });
                    lemma_count_in_push(self.dests@, DestCount { atom, count: 1usize });
                }
                self.dests.push(DestCount { atom, count: 1 });
            },
        }
        self.total = self.total + 1;
    }
}

impl Chain {
    /// Finds the position of the entry whose key is `key`.
    fn find_entry(&self, key: &Vec<usize>) -> (r: Option<usize>)
        ensures
            match r {
                Some(i) => 0 <= i < self.transitions@.len() && self.transitions@[i as int].key@
                    == key@,
                None => !self.seen(key@),
            },
    {
        let n = self.transitions.len();
        let mut i: usize = 0;
        while i < n
            invariant
                n == self.transitions@.len(),
                i <= n,
                forall|k: int| 0 <= k < i ==> self.transitions@[k].key@ != key@,
            decreases n - i,
        {
            if atoms_equal(&self.transitions[i].key, key) {
                return Some(i);
            }
            i += 1;
        }
        None
    }
}

impl Chain {
    /// Creates a chain of the given order, rejecting an order of zero.
    /// A fresh chain has no recorded transitions and starts at a
    /// sentence boundary.
    pub fn new(order: usize) -> (r: Result<Chain, ChainError>)
        ensures
            match r {
                Err(e) => order == 0 && e == ChainError::InvalidConfiguration,
                Ok(c) => {
                    &&& order >= 1
                    &&& c.wf()
                    &&& c.order == order
                    &&& c.transitions@.len() == 0
                    &&& c.history@ == Chain::boundary_history(order as nat)
                },
            },
    {
        if order == 0 {
            return Err(ChainError::InvalidConfiguration);
        }
        Ok(Chain { order, transitions: Vec::new(), history: zero_history(order) })
    }

    /// Returns the configured order.
    pub fn order(&self) -> (r: usize)
        ensures
            r == self.order,
    {
        self.order
    }

    /// Records one training observation: the transition from the
    /// current history to `atom` is counted, and the history slides
    /// forward, evicting its oldest atom and prepending `atom` as the
    /// newest.  Any atom value is accepted.
    pub fn add_atom(&mut self, atom: usize)
        requires
            old(self).wf(),
            old(self).total_of(old(self).history@) < usize::MAX,
        ensures
            final(self).wf(),
            final(self).order == old(self).order,
            final(self).history@ == seq![atom] + old(self).history@.drop_last(),
            final(self).seen(old(self).history@),
            final(self).count_of(old(self).history@, atom) == old(self).count_of(
                old(self).history@,
                atom,
            ) + 1,
            final(self).total_of(old(self).history@) == old(self).total_of(old(self).history@)
                + 1,
            forall|k: Seq<usize>| #![trigger final(self).seen(k)]
                final(self).seen(k) <==> (old(self).seen(k) || k == old(self).history@),
            forall|k: Seq<usize>, a: usize| #![trigger final(self).count_of(k, a)]
                !(k == old(self).history@ && a == atom) ==> final(self).count_of(k, a) == old(
                    self,
                ).count_of(k, a),
            forall|k: Seq<usize>| #![trigger final(self).total_of(k)]
                k != old(self).history@ ==> final(self).total_of(k) == old(self).total_of(k),
    {
        let ghost pre = *self;
        let ghost hist = self.history@;
        match self.find_entry(&self.history) {
            Some(idx) => {
                proof {
                    lemma_key_index_unique(pre.transitions@, idx as int);
                }
                let mut entry = self.transitions.remove(idx);
                entry.record(atom);
                self.transitions.insert(idx, entry);
                proof {
                    assert(forall|i: int|
                        0 <= i < self.transitions@.len() && i != idx ==> self.transitions@[i]
                            == pre.transitions@[i]);
                    lemma_replace_entry(pre.transitions@, self.transitions@, idx as int);
                }
            },
            None => {
                let key = clone_atoms(&self.history);
                let mut entry = TransitionEntry { key, dests: Vec::new(), total: 0 };
                entry.record(atom);
                self.transitions.push(entry);
                proof {
                    lemma_append_entry(pre.transitions@, self.transitions@);
                }
            },
        }
        self.history.pop();
        self.history.insert(0, atom);
        proof {
            assert(self.history@ =~= seq![atom] + hist.drop_last());
        }
    }

    /// Resets the history to `order` copies of the boundary atom `0`,
    /// marking the start of a new independent sequence.  The recorded
    /// transitions are untouched.
    pub fn end_sentence(&mut self)
        requires
            old(self).wf(),
        ensures
            final(self).wf(),
            final(self).order == old(self).order,
            final(self).transitions == old(self).transitions,
            final(self).history@ == Chain::boundary_history(old(self).order as nat),
    {
        self.history = zero_history(self.order);
    }

    /// Single-step sampling with an explicit randomness draw, so that
    /// callers and tests can supply a deterministic source.  `raw` is
    /// reduced modulo the state's total count and the destination whose
    /// interval contains the reduced index is returned.  A state of the
    /// wrong length is rejected; an unseen state gives the empty
    /// outcome.
    pub fn sample_with_draw(&self, state: &Vec<usize>, raw: usize) -> (r: Result<
        Option<usize>,
        ChainError,
    >)
        requires
            self.wf(),
        ensures
            match r {
                Err(e) => state@.len() != self.order && e == ChainError::PreconditionViolation,
                Ok(None) => state@.len() == self.order && !self.seen(state@),
                Ok(Some(a)) => {
                    &&& state@.len() == self.order
                    &&& self.seen(state@)
                    &&& a == pick_dest(
                        self.entry_for(state@).dests@,
                        ((raw as nat) % self.total_of(state@)) as int,
                    )
                    &&& self.count_of(state@, a) >= 1
                },
            },
    {
        if state.len() != self.order {
            return Err(ChainError::PreconditionViolation);
        }
        match self.find_entry(state) {
            None => Ok(None),
            Some(i) => {
                proof {
                    lemma_key_index_unique(self.transitions@, i as int);
                    lemma_count_le_sum(self.transitions@[i as int].dests@, 0);
                }
                let entry = &self.transitions[i];
                let index = raw % entry.total;
                proof {
                    lemma_pick_dest_valid(entry.dests@, index as int);
                    let a = pick_dest(entry.dests@, index as int);
                    let w = dest_index(entry.dests@, a);
                    assert(0 <= w < entry.dests@.len() && entry.dests@[w].atom == a);
                    assert(entry.dests@[w].count >= 1);
                }
                let a = pick_from(&entry.dests, index);
                Ok(Some(a))
            },
        }
    }

    /// Single-step stochastic sampling from the process-wide random
    /// source: a state of the wrong length is rejected, an unseen state
    /// gives the empty outcome, and otherwise some recorded destination
    /// of the state is returned.
    pub fn sample(&self, state: &Vec<usize>) -> (r: Result<Option<usize>, ChainError>)
        requires
            self.wf(),
        ensures
            match r {
                Err(e) => state@.len() != self.order && e == ChainError::PreconditionViolation,
                Ok(None) => state@.len() == self.order && !self.seen(state@),
                Ok(Some(a)) => state@.len() == self.order && self.seen(state@) && self.count_of(
                    state@,
                    a,
                ) >= 1,
            },
    {
        let raw = random_usize();
        self.sample_with_draw(state, raw)
    }
}

/// Relies on rand::random: draws one uniformly distributed machine word
/// from the process-wide generator.  Nothing is assumed of the value.
#[verifier::external_body]
fn random_usize() -> usize {
    rand::random::<usize>()
}

/// For every chain and every history it has observed, the stored total
/// equals the sum of the per-destination counts.
pub proof fn lemma_total_matches_counts(c: Chain, key: Seq<usize>)
    requires
        c.wf(),
        c.seen(key),
    ensures
        c.total_of(key) == sum_counts(c.entry_for(key).dests@),
{
    let w = key_index(c.transitions@, key);
    assert(0 <= w < c.transitions@.len() && c.transitions@[w].key@ == key);
}

/// A chain that holds no transition statistics at all, such as a
/// freshly constructed one, has seen no history: sampling any state on
/// it can only give the empty outcome.
pub proof fn lemma_fresh_chain_unseen(c: Chain, state: Seq<usize>)
    requires
        c.transitions@.len() == 0,
    ensures
        !c.seen(state),
{
}

} // verus!
