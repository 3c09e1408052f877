//! The countable part of a running statistic.
//!
//! An accumulator of mean and variance also keeps how many samples it
//! holds and which came first and last. That part needs no arithmetic on
//! the samples and is kept here, over their 64-bit patterns; it follows
//! the accumulator through every addition, removal and merge.

use vstd::prelude::*;

verus! {

/// How many samples an accumulator holds, and the first and the last that
/// it took in.
#[derive(Debug, Clone, Copy, PartialEq, Eq, Structural)]
pub struct Tally {
    pub count: usize,
    pub first: Option<u64>,
    pub last: Option<u64>,
}

/// The tally of an accumulator that holds nothing.
pub open spec fn neutral() -> Tally {
    Tally { count: 0, first: None, last: None }
}

/// The tally after one more sample.
pub open spec fn added(t: Tally, value: u64) -> Tally {
    Tally {
        count: (t.count + 1) as usize,
        first: if t.first is None {
            Some(value)
        } else {
            t.first
        },
        last: Some(value),
    }
}

/// The tally after one sample was taken back: an empty tally stays as it
/// is, and a tally that becomes empty forgets its first and last.
pub open spec fn removed(t: Tally) -> Tally {
    if t.count == 0 {
        t
    } else if t.count == 1 {
        neutral()
    } else {
        Tally { count: (t.count - 1) as usize, first: t.first, last: t.last }
    }
}

/// The tally of two accumulators in one, the second taken as the later.
pub open spec fn merged(a: Tally, b: Tally) -> Tally {
    if b.count == 0 {
        a
    } else {
        Tally {
            count: (a.count + b.count) as usize,
            first: if a.first is None {
                b.first
            } else {
                a.first
            },
            last: if b.last is None {
                a.last
            } else {
                b.last
            },
        }
    }
}

/// The tally after the samples were added one after the other.
pub open spec fn added_all(t: Tally, values: Seq<u64>) -> Tally
    decreases values.len(),
{
    if values.len() == 0 {
        t
    } else {
        added(added_all(t, values.drop_last()), values.last())
    }
}

/// The tally after `n` samples were taken back.
pub open spec fn removed_times(t: Tally, n: nat) -> Tally
    decreases n,
{
    if n == 0 {
        t
    } else {
        removed(removed_times(t, (n - 1) as nat))
    }
}

/// A tally is sound where it holds a first and a last sample exactly when
/// it holds any.
pub open spec fn sound(t: Tally) -> bool {
    &&& t.count == 0 <==> t.first is None
    &&& t.count == 0 <==> t.last is None
}

/// The tally of a run of additions: as many samples as were added, the
/// first of them and the last.
pub proof fn lemma_added_all(values: Seq<u64>)
    requires
        values.len() <= usize::MAX,
    ensures
        added_all(neutral(), values) == if values.len() == 0 {
            neutral()
        } else {
            Tally {
                count: values.len() as usize,
                first: Some(values[0]),
                last: Some(values.last()),
            }
        },
    decreases values.len(),
{
    if values.len() > 0 {
        lemma_added_all(values.drop_last());
        if values.len() > 1 {
            assert(values.drop_last()[0] == values[0]);
        }
    }
}

/// Taking back from a sound tally as many samples as it holds, or more,
/// leaves the neutral tally.
pub proof fn lemma_removed_all(t: Tally, n: nat)
    requires
        sound(t),
        n >= t.count,
    ensures
        removed_times(t, n) == neutral(),
    decreases n,
{
    if n > 0 {
        if n - 1 >= t.count {
            lemma_removed_all(t, (n - 1) as nat);
        } else {
            lemma_removed_keeps_count(t, (n - 1) as nat);
        }
    }
}

/// Taking back fewer samples than a sound tally holds lowers its count by
/// their number and keeps its first and last.
pub proof fn lemma_removed_keeps_count(t: Tally, n: nat)
    requires
        sound(t),
        n < t.count,
    ensures
        removed_times(t, n) == (Tally { count: (t.count - n) as usize, first: t.first, last: t.last }),
    decreases n,
{
    if n > 0 {
        lemma_removed_keeps_count(t, (n - 1) as nat);
    }
}

/// Samples that are added and then taken back, as many as were added,
/// leave the neutral tally.
pub proof fn lemma_add_remove_symmetry(values: Seq<u64>)
    requires
        values.len() <= usize::MAX,
    ensures
        removed_times(added_all(neutral(), values), values.len()) == neutral(),
{
    lemma_added_all(values);
    lemma_removed_all(added_all(neutral(), values), values.len());
}

/// Merging the tallies of two runs gives the tally of the runs one after
/// the other.
pub proof fn lemma_merge_is_concatenation(a: Seq<u64>, b: Seq<u64>)
    requires
        a.len() + b.len() <= usize::MAX,
    ensures
        merged(added_all(neutral(), a), added_all(neutral(), b)) == added_all(neutral(), a + b),
{
    lemma_added_all(a);
    lemma_added_all(b);
    lemma_added_all(a + b);
    if b.len() == 0 {
        assert(a + b =~= a);
    } else if a.len() > 0 {
        assert((a + b)[0] == a[0]);
    } else {
        assert(a + b =~= b);
    }
}

impl Tally {
    /// The tally of an accumulator that holds nothing.
    pub fn new() -> (r: Self)
        ensures
            r == neutral(),
    {
        Tally { count: 0, first: None, last: None }
    }

    /// Counts one more sample and notes it as the last, and as the first
    /// where there was none.
    pub fn add(&mut self, value: u64)
        requires
            old(self).count < usize::MAX,
        ensures
            *final(self) == added(*old(self), value),
            sound(*old(self)) ==> sound(*final(self)),
    {
        self.count = self.count + 1;
        if self.first.is_none() {
            self.first = Some(value);
        }
        self.last = Some(value);
    }

    /// Takes one sample back. An empty tally stays as it is; a tally that
    /// becomes empty forgets its first and last.
    pub fn remove(&mut self)
        ensures
            *final(self) == removed(*old(self)),
            sound(*old(self)) ==> sound(*final(self)),
    {
        if self.count == 0 {
            return;
        }
        self.count = self.count - 1;
        if self.count == 0 {
            self.first = None;
            self.last = None;
        }
    }

    /// Takes in the tally of another accumulator, as the later of the two.
    pub fn merge(&mut self, other: &Tally)
        requires
            old(self).count + other.count <= usize::MAX,
        ensures
            *final(self) == merged(*old(self), *other),
            sound(*old(self)) && sound(*other) ==> sound(*final(self)),
    {
        if other.count == 0 {
            return;
        }
        self.count = self.count + other.count;
        if self.first.is_none() {
            self.first = other.first;
        }
        if other.last.is_some() {
            self.last = other.last;
        }
    }
}

impl Default for Tally {
    /// The tally of an accumulator that holds nothing.
    fn default() -> (r: Self)
        ensures
            r == neutral(),
    {
        Tally::new()
    }
}

} // verus!
