//! Storage and access for labelled training data.
//!
//! A data source holds `(input, target)` vector pairs; scalars are carried
//! as 64-bit patterns, as everywhere in this crate.  The numeric statistics
//! of the embedding application (sums, means, rounding) read the pairs
//! through the same interface the training driver uses.

use vstd::prelude::*;
use vstd::slice::slice_to_vec;

verus! {

broadcast use vstd::seq_lib::group_to_multiset_ensures;

/// Capability the training driver needs from a data source: drawing an
/// example at random, fetching one by index, and the example count.
pub trait Extractable {
    /// Internal consistency the source maintains and its callers rely on.
    spec fn wf(&self) -> bool;

    /// The `(input, target)` pairs the source currently holds.
    spec fn spec_pairs(&self) -> Seq<(Seq<u64>, Seq<u64>)>;

    /// Some currently held pair, drawn at random.
    fn rand(&self) -> (r: (&Vec<u64>, &Vec<u64>))
        requires
            self.wf(),
            self.spec_pairs().len() > 0,
        ensures
            exists|k: int|
                0 <= k < self.spec_pairs().len() && r.0@ == (#[trigger] self.spec_pairs()[k]).0
                    && r.1@ == self.spec_pairs()[k].1,
    ;

    /// The pair at index `i`.
    fn get(&self, i: usize) -> (r: (&Vec<u64>, &Vec<u64>))
        requires
            self.wf(),
            i < self.spec_pairs().len(),
        ensures
            r.0@ == self.spec_pairs()[i as int].0,
            r.1@ == self.spec_pairs()[i as int].1,
    ;

    /// Number of pairs held.
    fn len(&self) -> (r: usize)
        requires
            self.wf(),
        ensures
            r == self.spec_pairs().len(),
    ;
}

/// Container for labelled examples: a training set (`x`, `y`) and a test
/// set (`tx`, `ty`) split off from it, kept as parallel vectors.
pub struct DataSet {
    pub x: Vec<Vec<u64>>,
    pub y: Vec<Vec<u64>>,
    pub tx: Vec<Vec<u64>>,
    pub ty: Vec<Vec<u64>>,
}

/// The `(input, target)` pairs of two parallel vectors.
pub open spec fn spec_zip(x: Seq<Vec<u64>>, y: Seq<Vec<u64>>) -> Seq<(Seq<u64>, Seq<u64>)> {
    Seq::new(x.len(), |i: int| (x[i]@, y[i]@))
}

impl DataSet {
    /// Training pairs.
    pub open spec fn spec_train(self) -> Seq<(Seq<u64>, Seq<u64>)> {
        spec_zip(self.x@, self.y@)
    }

    /// Test pairs.
    pub open spec fn spec_test(self) -> Seq<(Seq<u64>, Seq<u64>)> {
        spec_zip(self.tx@, self.ty@)
    }

    /// An empty data set.
    pub fn new() -> (r: DataSet)
        ensures
            r.wf(),
            r.spec_train() =~= Seq::<(Seq<u64>, Seq<u64>)>::empty(),
            r.spec_test() =~= Seq::<(Seq<u64>, Seq<u64>)>::empty(),
    {
        DataSet { x: Vec::new(), y: Vec::new(), tx: Vec::new(), ty: Vec::new() }
    }

    /// Appends a pair to the end of the training set.
    pub fn push(&mut self, x: &[u64], y: &[u64])
        requires
            old(self).wf(),
        ensures
            final(self).wf(),
            final(self).spec_train() =~= old(self).spec_train().push((x@, y@)),
            final(self).spec_test() == old(self).spec_test(),
    {
        self.x.push(slice_to_vec(x));
        self.y.push(slice_to_vec(y));
    }

    /// Removes the training pair at index `i`.
    pub fn remove(&mut self, i: usize)
        requires
            old(self).wf(),
            i < old(self).spec_train().len(),
        ensures
            final(self).wf(),
            final(self).spec_train() =~= old(self).spec_train().remove(i as int),
            final(self).spec_test() == old(self).spec_test(),
    {
        self.x.remove(i);
        self.y.remove(i);
    }

    /// Moves every test pair back into the training set, then draws
    /// `amount` training pairs at random and moves them to the test set.
    /// No pair is gained or lost: the pairs of both sets together form the
    /// same multiset before and after.
    pub fn divide(&mut self, amount: usize)
        requires
            old(self).wf(),
            amount <= old(self).spec_train().len() + old(self).spec_test().len(),
        ensures
            final(self).wf(),
            final(self).spec_test().len() == amount,
            final(self).spec_train().len() == old(self).spec_train().len() + old(
                self,
            ).spec_test().len() - amount,
            final(self).spec_train().to_multiset().add(final(self).spec_test().to_multiset())
                =~= old(self).spec_train().to_multiset().add(old(self).spec_test().to_multiset()),
    {
        let ghost whole = old(self).spec_train().to_multiset().add(
            old(self).spec_test().to_multiset(),
        );
        let mut i: usize = 0;
        let tests = self.tx.len();
        while i < tests
            invariant
                self.wf(),
                i <= tests,
                self.spec_test().len() == tests - i,
                self.spec_train().to_multiset().add(self.spec_test().to_multiset()) =~= whole,
                self.spec_train().len() + self.spec_test().len() == old(self).spec_train().len()
                    + old(self).spec_test().len(),
            decreases tests - i,
        {
            let ghost pre = *self;
            let vx = self.tx.remove(0);
            let vy = self.ty.remove(0);
            self.x.push(vx);
            self.y.push(vy);
            i = i + 1;
            proof {
                assert(self.spec_train() =~= pre.spec_train().push((vx@, vy@)));
                assert(self.spec_test() =~= pre.spec_test().remove(0));
                assert(pre.spec_test()[0] == (vx@, vy@));
                assert(self.spec_train().to_multiset().add(self.spec_test().to_multiset())
                    =~= whole);
            }
        }
        let mut k: usize = 0;
        while k < amount
            invariant
                self.wf(),
                k <= amount,
                self.spec_test().len() == k,
                amount <= self.spec_train().len() + k,
                self.spec_train().to_multiset().add(self.spec_test().to_multiset()) =~= whole,
                self.spec_train().len() + self.spec_test().len() == old(self).spec_train().len()
                    + old(self).spec_test().len(),
            decreases amount - k,
        {
            let ghost pre = *self;
            let i = self.rand_index();
            let vx = self.x.remove(i);
            let vy = self.y.remove(i);
            self.tx.push(vx);
            self.ty.push(vy);
            k = k + 1;
            proof {
                assert(self.spec_train() =~= pre.spec_train().remove(i as int));
                assert(self.spec_test() =~= pre.spec_test().push((vx@, vy@)));
                assert(pre.spec_train()[i as int] == (vx@, vy@));
                assert(self.spec_train().to_multiset().add(self.spec_test().to_multiset())
                    =~= whole);
            }
        }
    }

    /// A uniformly drawn index into the training set.
    fn rand_index(&self) -> (r: usize)
        requires
            self.wf(),
            self.spec_train().len() > 0,
        ensures
            r < self.spec_train().len(),
    {
        random_below(self.y.len())
    }
}

impl Extractable for DataSet {
    /// Parallel vectors of each set agree on the example count.
    open spec fn wf(&self) -> bool {
        &&& self.x@.len() == self.y@.len()
        &&& self.tx@.len() == self.ty@.len()
    }

    open spec fn spec_pairs(&self) -> Seq<(Seq<u64>, Seq<u64>)> {
        self.spec_train()
    }

    fn rand(&self) -> (r: (&Vec<u64>, &Vec<u64>)) {
        let k = random_below(self.y.len());
        let r = (&self.x[k], &self.y[k]);
        proof {
            assert(r.0@ == self.spec_pairs()[k as int].0 && r.1@ == self.spec_pairs()[k as int].1);
        }
        r
    }

    fn get(&self, i: usize) -> (r: (&Vec<u64>, &Vec<u64>)) {
        (&self.x[i], &self.y[i])
    }

    fn len(&self) -> (r: usize) {
        self.y.len()
    }
}

/// Relies on rand's `Rng::gen_range` over the range `0..bound`: the sample
/// of a non-empty range lies within it.  The draw is random; nothing beyond
/// membership in the range holds of it.
#[verifier::external_body]
fn random_below(bound: usize) -> (r: usize)
    requires
        bound >= 1,
    ensures
        r < bound,
{
    rand::Rng::gen_range(&mut rand::thread_rng(), 0..bound)
}

} // verus!
