//! A priority queue over dense keys, each with a value, from which keys can
//! be taken out and put back.

use vstd::prelude::*;

verus! {

/// How many of the first `n` flags are set.
pub open spec fn count_set(flags: Seq<bool>, n: int) -> int
    decreases n,
{
    if n <= 0 {
        0
    } else {
        count_set(flags, n - 1) + if flags[n - 1] {
            1int
        } else {
            0
        }
    }
}

/// How many of the first `n` keys are present with a value of at least
/// `bound`.
pub open spec fn count_at_least(flags: Seq<bool>, values: Seq<u128>, bound: int, n: int) -> int
    decreases n,
{
    if n <= 0 {
        0
    } else {
        count_at_least(flags, values, bound, n - 1) + if flags[n - 1] && values[n - 1] >= bound {
            1int
        } else {
            0
        }
    }
}

pub proof fn lemma_count_set_bounds(flags: Seq<bool>, n: int)
    requires
        0 <= n <= flags.len(),
    ensures
        0 <= count_set(flags, n) <= n,
    decreases n,
{
    if n > 0 {
        lemma_count_set_bounds(flags, n - 1);
    }
}

/// Changing one flag changes the count by one, where the flag is counted.
pub proof fn lemma_count_set_update(flags: Seq<bool>, key: int, flag: bool, n: int)
    requires
        0 <= key < flags.len(),
        0 <= n <= flags.len(),
    ensures
        count_set(flags.update(key, flag), n) == count_set(flags, n) + if key < n && flag
            && !flags[key] {
            1int
        } else if key < n && !flag && flags[key] {
            -1int
        } else {
            0
        },
    decreases n,
{
    if n > 0 {
        lemma_count_set_update(flags, key, flag, n - 1);
    }
}

/// Where some flag is set the count is positive, and where the count is
/// positive some flag is set.
pub proof fn lemma_count_set_positive(flags: Seq<bool>, n: int)
    requires
        0 <= n <= flags.len(),
    ensures
        count_set(flags, n) > 0 <==> exists|k: int| 0 <= k < n && flags[k],
    decreases n,
{
    if n > 0 {
        lemma_count_set_positive(flags, n - 1);
        lemma_count_set_bounds(flags, n - 1);
        if flags[n - 1] {
            assert(0 <= n - 1 < n && flags[n - 1]);
        } else if exists|k: int| 0 <= k < n && flags[k] {
            let k = choose|k: int| 0 <= k < n && flags[k];
            assert(0 <= k < n - 1 && flags[k]);
        }
    }
}

/// What a change of one key does to the number of present keys with a value
/// of at least `bound`.
pub proof fn lemma_count_at_least_update(
    flags: Seq<bool>,
    values: Seq<u128>,
    key: int,
    flag: bool,
    value: u128,
    bound: int,
    n: int,
)
    requires
        0 <= key < flags.len(),
        flags.len() == values.len(),
        0 <= n <= flags.len(),
    ensures
        count_at_least(flags.update(key, flag), values.update(key, value), bound, n)
            == count_at_least(flags, values, bound, n) + if key < n {
            (if flag && value >= bound {
                1int
            } else {
                0
            }) - (if flags[key] && values[key] >= bound {
                1int
            } else {
                0
            })
        } else {
            0
        },
    decreases n,
{
    if n > 0 {
        lemma_count_at_least_update(flags, values, key, flag, value, bound, n - 1);
    }
}

/// Keys that are appended absent do not count.
pub proof fn lemma_count_at_least_push(
    flags: Seq<bool>,
    values: Seq<u128>,
    value: u128,
    bound: int,
    n: int,
)
    requires
        flags.len() == values.len(),
        0 <= n <= flags.len() + 1,
    ensures
        count_at_least(flags.push(false), values.push(value), bound, n) == count_at_least(
            flags,
            values,
            bound,
            if n <= flags.len() {
                n
            } else {
                n - 1
            },
        ),
        count_set(flags.push(false), n) == count_set(
            flags,
            if n <= flags.len() {
                n
            } else {
                n - 1
            },
        ),
    decreases n,
{
    if n > 0 {
        lemma_count_at_least_push(flags, values, value, bound, n - 1);
    }
}

/// Under a smaller bound no fewer keys count; under a bound that no value
/// reaches none counts.
pub proof fn lemma_count_at_least_bounds(
    flags: Seq<bool>,
    values: Seq<u128>,
    low: int,
    high: int,
    n: int,
)
    requires
        flags.len() == values.len(),
        0 <= n <= flags.len(),
        low <= high,
    ensures
        0 <= count_at_least(flags, values, high, n) <= count_at_least(flags, values, low, n) <= n,
        (forall|k: int| 0 <= k < n && flags[k] ==> values[k] < high) ==> count_at_least(
            flags,
            values,
            high,
            n,
        ) == 0,
    decreases n,
{
    if n > 0 {
        lemma_count_at_least_bounds(flags, values, low, high, n - 1);
    }
}

/// A priority queue over the keys `0..len`. Each key has a value and is
/// present or absent; the maximum is taken over the present keys.
#[derive(Debug)]
pub struct KeyValueHeap {
    values: Vec<u128>,
    present: Vec<bool>,
    num_present: usize,
}

impl Default for KeyValueHeap {
    fn default() -> (r: KeyValueHeap)
        ensures
            r.wf(),
            r.values() == Seq::<u128>::empty(),
            r.flags() == Seq::<bool>::empty(),
    {
        KeyValueHeap { values: Vec::new(), present: Vec::new(), num_present: 0 }
    }
}

impl KeyValueHeap {
    /// The value of each key.
    pub closed spec fn values(&self) -> Seq<u128> {
        self.values@
    }

    /// For each key, whether it is present.
    pub closed spec fn flags(&self) -> Seq<bool> {
        self.present@
    }

    /// The number of present keys.
    pub open spec fn count(&self) -> int {
        count_set(self.flags(), self.flags().len() as int)
    }

    /// Each key has a value and a flag.
    pub closed spec fn wf(&self) -> bool {
        &&& self.values@.len() == self.present@.len()
        &&& self.num_present == count_set(self.present@, self.present@.len() as int)
    }

    pub proof fn lemma_wf(&self)
        requires
            self.wf(),
        ensures
            self.values().len() == self.flags().len(),
            0 <= self.count() <= self.flags().len(),
    {
        lemma_count_set_bounds(self.present@, self.present@.len() as int);
    }

    /// Returns the number of keys, present or not.
    pub fn len(&self) -> (r: usize)
        requires
            self.wf(),
        ensures
            r == self.flags().len(),
    {
        self.values.len()
    }

    pub fn num_nonremoved_elements(&self) -> (r: usize)
        requires
            self.wf(),
        ensures
            r == self.count(),
    {
        self.num_present
    }

    pub fn is_key_present(&self, key: usize) -> (r: bool)
        requires
            self.wf(),
            key < self.flags().len(),
        ensures
            r == self.flags()[key as int],
    {
        self.present[key]
    }

    pub fn get_value(&self, key: usize) -> (r: u128)
        requires
            self.wf(),
            key < self.flags().len(),
        ensures
            r == self.values()[key as int],
    {
        self.values[key]
    }

    /// Removes all keys.
    pub fn clear(&mut self)
        ensures
            final(self).wf(),
            final(self).values() == Seq::<u128>::empty(),
            final(self).flags() == Seq::<bool>::empty(),
    {
        self.values.clear();
        self.present.clear();
        self.num_present = 0;
    }

    /// Adds the next key, absent, with the value `value`.
    pub fn grow(&mut self, value: u128)
        requires
            old(self).wf(),
        ensures
            final(self).wf(),
            final(self).values() == old(self).values().push(value),
            final(self).flags() == old(self).flags().push(false),
            final(self).count() == old(self).count(),
    {
        proof {
            lemma_count_at_least_push(
                self.present@,
                self.values@,
                value,
                0,
                (self.present@.len() + 1) as int,
            );
        }
        self.values.push(value);
        self.present.push(false);
    }

    /// Makes `key` absent.
    pub fn delete_key(&mut self, key: usize)
        requires
            old(self).wf(),
            key < old(self).flags().len(),
        ensures
            final(self).wf(),
            final(self).values() == old(self).values(),
            final(self).flags() == old(self).flags().update(key as int, false),
    {
        proof {
            lemma_count_set_update(self.present@, key as int, false, self.present@.len() as int);
            lemma_count_set_bounds(self.present@, self.present@.len() as int);
            lemma_count_set_positive(self.present@, self.present@.len() as int);
        }
        if self.present[key] {
            self.present[key] = false;
            self.num_present -= 1;
        }
        proof {
            assert(self.present@ =~= old(self).present@.update(key as int, false));
        }
    }

    /// Makes `key` present with the value `value`.
    pub fn restore_key(&mut self, key: usize, value: u128)
        requires
            old(self).wf(),
            key < old(self).flags().len(),
        ensures
            final(self).wf(),
            final(self).values() == old(self).values().update(key as int, value),
            final(self).flags() == old(self).flags().update(key as int, true),
    {
        proof {
            lemma_count_set_update(self.present@, key as int, true, self.present@.len() as int);
            lemma_count_set_bounds(self.present@, self.present@.len() as int);
            lemma_count_set_bounds(
                self.present@.update(key as int, true),
                self.present@.len() as int,
            );
        }
        let total = self.present.len();
        if !self.present[key] {
            assert(self.num_present < total);
            self.num_present += 1;
            self.present[key] = true;
        }
        self.values[key] = value;
        proof {
            assert(self.present@ =~= old(self).present@.update(key as int, true));
        }
    }

    /// Whether `key` is present with a value that no present key exceeds.
    pub open spec fn is_max(&self, key: int) -> bool {
        &&& 0 <= key < self.flags().len()
        &&& self.flags()[key]
        &&& forall|k: int|
            0 <= k < self.flags().len() && self.flags()[k] ==> self.values()[k]
                <= self.values()[key]
    }

    /// A present key with the greatest value; `None` where no key is
    /// present.
    pub fn peek_max(&self) -> (r: Option<usize>)
        requires
            self.wf(),
        ensures
            r is None <==> self.count() == 0,
            r matches Some(key) ==> self.is_max(key as int),
    {
        proof {
            lemma_count_set_positive(self.present@, self.present@.len() as int);
        }
        let mut best: Option<usize> = None;
        let mut k: usize = 0;
        while k < self.values.len()
            invariant
                self.values@.len() == self.present@.len(),
                k <= self.values.len(),
                best is None <==> forall|i: int| 0 <= i < k ==> !self.present@[i],
                best matches Some(key) ==> key < k && self.present@[key as int] && forall|i: int|
                    0 <= i < k && self.present@[i] ==> self.values@[i] <= self.values@[key as int],
            decreases self.values.len() - k,
        {
            if self.present[k] {
                match best {
                    Some(key) => {
                        if self.values[k] > self.values[key] {
                            best = Some(k);
                        }
                    },
                    None => {
                        best = Some(k);
                    },
                }
            }
            k += 1;
        }
        best
    }

    /// Takes out a present key with the greatest value.
    pub fn pop_max(&mut self) -> (r: Option<usize>)
        requires
            old(self).wf(),
        ensures
            final(self).wf(),
            final(self).values() == old(self).values(),
            r is None <==> old(self).count() == 0,
            match r {
                Some(key) => old(self).is_max(key as int)
                    && final(self).flags() == old(self).flags().update(key as int, false)
                    && final(self).count() == old(self).count()
                    - 1,
                None => final(self).flags() == old(self).flags(),
            },
    {
        match self.peek_max() {
            Some(key) => {
                proof {
                    lemma_count_set_update(
                        self.present@,
                        key as int,
                        false,
                        self.present@.len() as int,
                    );
                }
                self.delete_key(key);
                Some(key)
            },
            None => None,
        }
    }
}

} // verus!
