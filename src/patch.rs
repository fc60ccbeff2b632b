use vstd::prelude::*;

verus! {

/// A substitution maps a tag to one of its values: `%target%` is replaced by `value`.
#[derive(Debug, Clone, PartialEq)]
pub struct Substitution {
    pub target: String,
    pub value: String,
}

impl View for Substitution {
    type V = (Seq<char>, Seq<char>);

    open spec fn view(&self) -> (Seq<char>, Seq<char>) {
        (self.target@, self.value@)
    }
}

pub open spec fn patch_view(p: Seq<Substitution>) -> Seq<(Seq<char>, Seq<char>)> {
    p.map_values(|s: Substitution| s@)
}

/// The number of values of each tag.
pub open spec fn value_counts(tags: Seq<(String, Vec<String>)>) -> Seq<nat> {
    tags.map_values(|t: (String, Vec<String>)| t.1@.len())
}

/// The number of combinations: the product of the counts.
pub open spec fn combinations(lens: Seq<nat>) -> nat
    decreases lens.len(),
{
    if lens.len() == 0 {
        1
    } else {
        combinations(lens.drop_last()) * lens.last()
    }
}

/// Each index points at a value of its tag.
pub open spec fn valid_indices(idx: Seq<usize>, lens: Seq<nat>) -> bool {
    &&& idx.len() == lens.len()
    &&& forall|i: int| 0 <= i < idx.len() ==> (#[trigger] idx[i]) < lens[i]
    &&& forall|i: int| 0 <= i < lens.len() ==> (#[trigger] lens[i]) <= usize::MAX
}

/// The position of a combination in the enumeration: the indices read as the digits of a
/// mixed-radix number whose last digit is the least significant.
pub open spec fn rank(idx: Seq<usize>, lens: Seq<nat>) -> nat
    decreases idx.len(),
{
    if idx.len() == 0 || lens.len() == 0 {
        0
    } else {
        rank(idx.drop_last(), lens.drop_last()) * lens.last() + idx.last() as nat
    }
}

/// The next combination: the last index advances, and an index that runs past its count
/// goes back to zero and carries into the one before it. `None` once the first index
/// runs past its count.
pub open spec fn successor(idx: Seq<usize>, lens: Seq<nat>) -> Option<Seq<usize>>
    decreases idx.len(),
{
    if idx.len() == 0 || lens.len() == 0 {
        None
    } else if idx.last() + 1 < lens.last() {
        Some(idx.drop_last().push((idx.last() + 1) as usize))
    } else {
        match successor(idx.drop_last(), lens.drop_last()) {
            Some(p) => Some(p.push(0usize)),
            None => None,
        }
    }
}

/// The patch of one combination: each tag's name with the value at its index.
pub open spec fn patch_at(tags: Seq<(String, Vec<String>)>, idx: Seq<usize>) -> Seq<
    (Seq<char>, Seq<char>),
> {
    Seq::new(tags.len(), |i: int| (tags[i].0@, tags[i].1@[idx[i] as int]@))
}

pub proof fn lemma_rank_bound(idx: Seq<usize>, lens: Seq<nat>)
    requires
        valid_indices(idx, lens),
    ensures
        rank(idx, lens) < combinations(lens),
    decreases idx.len(),
{
    if idx.len() > 0 {
        let p = idx.drop_last();
        let pl = lens.drop_last();
        assert(valid_indices(p, pl)) by {
            assert forall|i: int| 0 <= i < p.len() implies (#[trigger] p[i]) < pl[i] by {
                assert(p[i] == idx[i]);
            }
            assert forall|i: int| 0 <= i < pl.len() implies (#[trigger] pl[i]) <= usize::MAX by {
                assert(pl[i] == lens[i]);
            }
        }
        lemma_rank_bound(p, pl);
        let l = lens.last();
        let d = idx.last();
        assert(d < l) by {
            assert(idx[idx.len() - 1] < lens[idx.len() - 1]);
        }
        let rp = rank(p, pl);
        let cp = combinations(pl);
        assert(rp * l + d < cp * l) by (nonlinear_arith)
            requires
                rp < cp,
                d < l,
        ;
    }
}

/// The enumeration walks the combinations in order of rank: where a successor exists it
/// is valid and has the next rank, and there is none exactly at the last rank.
pub proof fn lemma_successor_rank(idx: Seq<usize>, lens: Seq<nat>)
    requires
        valid_indices(idx, lens),
    ensures
        successor(idx, lens) is Some <==> rank(idx, lens) + 1 < combinations(lens),
        successor(idx, lens) matches Some(n) ==> valid_indices(n, lens) && rank(n, lens) == rank(
            idx,
            lens,
        ) + 1,
    decreases idx.len(),
{
    if idx.len() > 0 {
        let p = idx.drop_last();
        let pl = lens.drop_last();
        assert(valid_indices(p, pl)) by {
            assert forall|i: int| 0 <= i < p.len() implies (#[trigger] p[i]) < pl[i] by {
                assert(p[i] == idx[i]);
            }
            assert forall|i: int| 0 <= i < pl.len() implies (#[trigger] pl[i]) <= usize::MAX by {
                assert(pl[i] == lens[i]);
            }
        }
        lemma_rank_bound(p, pl);
        lemma_successor_rank(p, pl);
        assert(lens.last() <= usize::MAX) by {
            assert(lens[lens.len() - 1] <= usize::MAX);
        }
        let l = lens.last();
        let d = idx.last();
        assert(d < l) by {
            assert(idx[idx.len() - 1] < lens[idx.len() - 1]);
        }
        let rp = rank(p, pl);
        let cp = combinations(pl);
        if d + 1 < l {
            let n = p.push((d + 1) as usize);
            assert(n.drop_last() =~= p);
            assert(rank(n, lens) == rp * l + d + 1);
            assert(rp * l + d + 1 < cp * l) by (nonlinear_arith)
                requires
                    rp < cp,
                    d + 1 < l,
            ;
            assert forall|i: int| 0 <= i < n.len() implies (#[trigger] n[i]) < lens[i] by {
                if i < p.len() {
                    assert(n[i] == p[i]);
                    assert(p[i] == idx[i]);
                }
            }
        } else {
            assert(d + 1 == l);
            assert((rp + 1) * l == rp * l + d + 1) by (nonlinear_arith)
                requires
                    d + 1 == l,
            ;
            match successor(p, pl) {
                Some(q) => {
                    let n = q.push(0usize);
                    assert(n.drop_last() =~= q);
                    assert(rank(n, lens) == (rp + 1) * l);
                    assert((rp + 1) * l < cp * l) by (nonlinear_arith)
                        requires
                            rp + 1 < cp,
                            l > 0,
                    ;
                    assert forall|i: int| 0 <= i < n.len() implies (#[trigger] n[i]) < lens[i] by {
                        if i < q.len() {
                            assert(n[i] == q[i]);
                            assert(q[i] < pl[i]);
                        }
                    }
                },
                None => {
                    assert(rp + 1 == cp);
                },
            }
        }
    }
}

} // verus!

verus! {

pub open spec fn zeros(n: nat) -> Seq<usize> {
    Seq::new(n, |i: int| 0usize)
}

pub open spec fn pad_zeros(o: Option<Seq<usize>>, n: nat) -> Option<Seq<usize>> {
    match o {
        Some(p) => Some(p + zeros(n)),
        None => None,
    }
}

/// Enumerates every combination of one value per tag, the last tag varying fastest.
#[derive(Debug, Clone, PartialEq)]
pub struct PatchIterator {
    pub tags: Vec<(String, Vec<String>)>,
    pub indices: Vec<usize>,
    pub is_done: bool,
}

impl PatchIterator {
    pub open spec fn wf(&self) -> bool {
        &&& self.indices@.len() == self.tags@.len()
        &&& !self.is_done ==> valid_indices(self.indices@, value_counts(self.tags@))
    }

    /// How many patches are still to come.
    pub open spec fn remaining(&self) -> nat {
        if self.is_done {
            0
        } else {
            (combinations(value_counts(self.tags@)) - rank(
                self.indices@,
                value_counts(self.tags@),
            )) as nat
        }
    }

    /// Starts at the first combination; where a tag has no values there is none.
    pub fn new(tags: Vec<(String, Vec<String>)>) -> (r: Self)
        ensures
            r.wf(),
            r.tags@ == tags@,
            r.indices@ == zeros(tags@.len()),
            r.is_done == exists|i: int| 0 <= i < tags@.len() && (#[trigger] tags@[i]).1@.len() == 0,
    {
        let mut indices: Vec<usize> = Vec::new();
        let mut is_done = false;
        let mut i: usize = 0;
        while i < tags.len()
            invariant
                i <= tags@.len(),
                indices@ == zeros(i as nat),
                is_done == exists|j: int| 0 <= j < i && (#[trigger] tags@[j]).1@.len() == 0,
                forall|j: int| 0 <= j < i ==> (#[trigger] tags@[j]).1@.len() <= usize::MAX,
            decreases tags.len() - i,
        {
            let count = tags[i].1.len();
            if count == 0 {
                is_done = true;
            }
            indices.push(0);
            assert(indices@ =~= zeros((i + 1) as nat));
            i += 1;
        }
        let r = PatchIterator { tags, indices, is_done };
        proof {
            let lens = value_counts(r.tags@);
            if !is_done {
                assert forall|j: int| 0 <= j < r.indices@.len() implies (#[trigger] r.indices@[j]) < lens[j] by {
                    assert(r.tags@[j].1@.len() != 0);
                }
                assert forall|j: int| 0 <= j < lens.len() implies (#[trigger] lens[j]) <= usize::MAX by {
                    assert(lens[j] == r.tags@[j].1@.len());
                }
            }
        }
        r
    }

    /// Moves to the next combination: the last index advances and carries into the ones
    /// before it. Returns false, with every index back at zero, after the last one.
    pub fn increment_indices(&mut self) -> (r: bool)
        requires
            valid_indices(old(self).indices@, value_counts(old(self).tags@)),
        ensures
            final(self).tags@ == old(self).tags@,
            final(self).is_done == old(self).is_done,
            valid_indices(final(self).indices@, value_counts(old(self).tags@)),
            r == (successor(old(self).indices@, value_counts(old(self).tags@)) is Some),
            r ==> final(self).indices@ == successor(
                old(self).indices@,
                value_counts(old(self).tags@),
            )->Some_0,
            !r ==> final(self).indices@ == zeros(old(self).indices@.len()),
    {
        let ghost o = self.indices@;
        let ghost lens = value_counts(self.tags@);
        let n = self.indices.len();
        let mut i: usize = n;
        assert(o.take(n as int) + zeros(0) =~= o);
        assert(o.take(n as int) =~= o);
        assert(lens.take(n as int) =~= lens);
        while i > 0
            invariant
                i <= n,
                n == o.len(),
                self.tags@ == old(self).tags@,
                self.is_done == old(self).is_done,
                lens == value_counts(self.tags@),
                o == old(self).indices@,
                valid_indices(o, lens),
                self.indices@ == o.take(i as int) + zeros((n - i) as nat),
                successor(o, lens) == pad_zeros(
                    successor(o.take(i as int), lens.take(i as int)),
                    (n - i) as nat,
                ),
            decreases i,
        {
            i -= 1;
            let ghost ot = o.take(i + 1);
            let ghost lt = lens.take(i + 1);
            assert(ot.drop_last() =~= o.take(i as int));
            assert(lt.drop_last() =~= lens.take(i as int));
            assert(ot.last() == o[i as int]);
            assert(lt.last() == lens[i as int]);
            assert(lens[i as int] == self.tags@[i as int].1@.len());
            assert(o[i as int] < lens[i as int]);
            assert(self.indices@[i as int] == o[i as int]);
            let next = self.indices[i] + 1;
            if next < self.tags[i].1.len() {
                self.indices.set(i, next);
                assert(self.indices@ =~= o.take(i as int).push(next) + zeros((n - i - 1) as nat));
                proof {
                    lemma_successor_rank(o, lens);
                }
                return true;
            }
            self.indices.set(i, 0);
            assert(self.indices@ =~= o.take(i as int) + zeros((n - i) as nat));
            assert(pad_zeros(successor(ot, lt), (n - i - 1) as nat) == pad_zeros(
                successor(o.take(i as int), lens.take(i as int)),
                (n - i) as nat,
            )) by {
                match successor(o.take(i as int), lens.take(i as int)) {
                    Some(p) => {
                        assert(p.push(0usize) + zeros((n - i - 1) as nat) =~= p + zeros((n - i) as nat));
                    },
                    None => {},
                }
            }
        }
        assert(self.indices@ =~= zeros(n as nat));
        assert forall|j: int| 0 <= j < n implies (#[trigger] self.indices@[j]) < lens[j] by {
            assert(o[j] < lens[j]);
        }
        false
    }

    /// The patch of the current combination, then a step to the next one; `None` once
    /// every combination has been handed out.
    pub fn next(&mut self) -> (r: Option<Vec<Substitution>>)
        requires
            old(self).wf(),
        ensures
            final(self).wf(),
            final(self).tags@ == old(self).tags@,
            old(self).is_done ==> r is None && final(self).is_done,
            !old(self).is_done ==> r is Some && patch_view(r->Some_0@) == patch_at(
                old(self).tags@,
                old(self).indices@,
            ) && match successor(old(self).indices@, value_counts(old(self).tags@)) {
                Some(n) => !final(self).is_done && final(self).indices@ == n,
                None => final(self).is_done,
            },
    {
        if self.is_done {
            return None;
        }
        let ghost lens = value_counts(self.tags@);
        let mut patch: Vec<Substitution> = Vec::new();
        let mut i: usize = 0;
        while i < self.tags.len()
            invariant
                i <= self.tags@.len(),
                self.wf(),
                !self.is_done,
                lens == value_counts(self.tags@),
                patch@.len() == i,
                forall|j: int| 0 <= j < i ==> (#[trigger] patch@[j])@ == patch_at(
                    self.tags@,
                    self.indices@,
                )[j],
            decreases self.tags.len() - i,
        {
            assert(self.indices@[i as int] < lens[i as int]);
            assert(lens[i as int] == self.tags@[i as int].1@.len());
            let target = self.tags[i].0.clone();
            let value = self.tags[i].1[self.indices[i]].clone();
            patch.push(Substitution { target, value });
            i += 1;
        }
        assert(patch_view(patch@) =~= patch_at(self.tags@, self.indices@));
        proof {
            lemma_successor_rank(self.indices@, lens);
        }
        if !self.increment_indices() {
            self.is_done = true;
        }
        Some(patch)
    }
}

} // verus!

verus! {

/// The combination at a position of the enumeration: the mixed-radix digits of `r`.
pub open spec fn unrank(lens: Seq<nat>, r: nat) -> Seq<usize>
    decreases lens.len(),
{
    if lens.len() == 0 {
        Seq::empty()
    } else {
        let l = lens.last();
        if l == 0 {
            unrank(lens.drop_last(), 0).push(0usize)
        } else {
            unrank(lens.drop_last(), r / l).push((r % l) as usize)
        }
    }
}

/// A valid combination is the one at its own rank.
pub proof fn lemma_unrank_rank(idx: Seq<usize>, lens: Seq<nat>)
    requires
        valid_indices(idx, lens),
    ensures
        unrank(lens, rank(idx, lens)) == idx,
    decreases idx.len(),
{
    if idx.len() == 0 {
        assert(unrank(lens, 0) =~= idx);
    } else {
        let p = idx.drop_last();
        let pl = lens.drop_last();
        assert(valid_indices(p, pl)) by {
            assert forall|i: int| 0 <= i < p.len() implies (#[trigger] p[i]) < pl[i] by {
                assert(p[i] == idx[i]);
            }
            assert forall|i: int| 0 <= i < pl.len() implies (#[trigger] pl[i]) <= usize::MAX by {
                assert(pl[i] == lens[i]);
            }
        }
        lemma_unrank_rank(p, pl);
        let l = lens.last();
        let d = idx.last();
        assert(d < l) by {
            assert(idx[idx.len() - 1] < lens[idx.len() - 1]);
        }
        let rp = rank(p, pl);
        vstd::arithmetic::div_mod::lemma_fundamental_div_mod_converse(
            rank(idx, lens) as int,
            l as int,
            rp as int,
            d as int,
        );
        assert(unrank(lens, rank(idx, lens)) =~= idx);
    }
}

/// The first combination, every index at zero, has rank zero.
pub proof fn lemma_rank_zeros(lens: Seq<nat>)
    ensures
        rank(zeros(lens.len()), lens) == 0,
    decreases lens.len(),
{
    if lens.len() > 0 {
        assert(zeros(lens.len()).drop_last() =~= zeros(lens.drop_last().len()));
        lemma_rank_zeros(lens.drop_last());
        let z = zeros(lens.len());
        assert(z.last() == 0usize);
        assert(rank(z.drop_last(), lens.drop_last()) == 0);
        assert(0 * lens.last() == 0) by (nonlinear_arith);
    }
}

/// A tag without values leaves no combination.
pub proof fn lemma_combinations_zero(lens: Seq<nat>, i: int)
    requires
        0 <= i < lens.len(),
        lens[i] == 0,
    ensures
        combinations(lens) == 0,
    decreases lens.len(),
{
    if i < lens.len() - 1 {
        assert(lens.drop_last()[i] == lens[i]);
        lemma_combinations_zero(lens.drop_last(), i);
        assert(0 * lens.last() == 0) by (nonlinear_arith);
    } else {
        let c = combinations(lens.drop_last());
        assert(c * 0 == 0) by (nonlinear_arith);
    }
}

} // verus!
