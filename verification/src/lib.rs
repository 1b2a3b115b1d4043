//! Lazy grouping of a borrowed slice into maximal runs of adjacent elements
//! that share a key, where the key of an element is computed by a
//! caller-supplied function.
//!
//! [`GroupByKey`] wraps a read-only slice and a key function and hands out,
//! one production step at a time, pairs of a representative key and the
//! sub-slice covering exactly one maximal run. Concatenating the emitted
//! sub-slices in order reconstructs the input; within one sub-slice every
//! element carries the emitted key; two consecutive pairs never share a key.

use vstd::prelude::*;
use vstd::std_specs::cmp::PartialEqSpec;

verus! {

/// The key that the key function `m` assigns to the element `t`.
///
/// Where `m` is pure in the sense of [`key_fn_pure`] and `t` is an element
/// that `m` has actually been applied to, this is the one value that the
/// application can return.
pub open spec fn key_of<T, K, M: Fn(&T) -> K>(m: M, t: T) -> K {
    choose|k: K| call_ensures(m, (&t,), k)
}

/// The key function `m` is pure: for any one element it admits at most one
/// result, so repeated applications agree.
pub open spec fn key_fn_pure<T, K, M: Fn(&T) -> K>(m: M) -> bool {
    forall|t: &T, k1: K, k2: K|
        #[trigger] call_ensures(m, (t,), k1) && #[trigger] call_ensures(m, (t,), k2) ==> k1 == k2
}

/// The key function `m` may be applied to every element of `s`.
pub open spec fn key_fn_callable<T, K, M: Fn(&T) -> K>(m: M, s: Seq<T>) -> bool {
    forall|i: int| 0 <= i < s.len() ==> #[trigger] call_requires(m, (&s[i],))
}

/// Executable equality on the key type `K` agrees with logical equality, so
/// that comparing two keys with `==` decides whether they are the same value.
pub open spec fn key_eq_agrees<K: PartialEq>() -> bool {
    &&& K::obeys_eq_spec()
    &&& forall|x: K, y: K| #[trigger] x.eq_spec(&y) <==> x == y
}

/// The length of the maximal leading run of `s`: the count of leading
/// elements whose key equals the key of the first element. Zero exactly on
/// the empty sequence, and at least one otherwise.
pub open spec fn run_len<T, K, M: Fn(&T) -> K>(m: M, s: Seq<T>) -> nat
    decreases s.len(),
{
    if s.len() == 0 {
        0
    } else if s.len() == 1 {
        1
    } else if key_of(m, s[1]) == key_of(m, s[0]) {
        1 + run_len(m, s.subrange(1, s.len() as int))
    } else {
        1
    }
}

proof fn lemma_run_len_bounds<T, K, M: Fn(&T) -> K>(m: M, s: Seq<T>)
    ensures
        s.len() == 0 ==> run_len(m, s) == 0,
        s.len() > 0 ==> 1 <= run_len(m, s) <= s.len(),
    decreases s.len(),
{
    if s.len() >= 2 && key_of(m, s[1]) == key_of(m, s[0]) {
        lemma_run_len_bounds(m, s.subrange(1, s.len() as int));
    }
}

/// Every element of the leading run carries the leading key, and the first
/// element past the run, if any, does not.
proof fn lemma_run_len_keys<T, K, M: Fn(&T) -> K>(m: M, s: Seq<T>)
    ensures
        forall|i: int| 0 <= i < run_len(m, s) ==> #[trigger] key_of(m, s[i]) == key_of(m, s[0]),
        run_len(m, s) < s.len() ==> key_of(m, s[run_len(m, s) as int]) != key_of(m, s[0]),
    decreases s.len(),
{
    lemma_run_len_bounds(m, s);
    if s.len() >= 2 && key_of(m, s[1]) == key_of(m, s[0]) {
        let s1 = s.subrange(1, s.len() as int);
        lemma_run_len_keys(m, s1);
        lemma_run_len_bounds(m, s1);
        assert(s1[0] == s[1]);
        assert forall|i: int| 0 <= i < run_len(m, s) implies #[trigger] key_of(m, s[i]) == key_of(
            m,
            s[0],
        ) by {
            if i >= 1 {
                assert(s1[i - 1] == s[i]);
            }
        }
        if run_len(m, s) < s.len() {
            assert(s1[run_len(m, s) - 1] == s[run_len(m, s) as int]);
        }
    }
}

/// The run length is the only boundary with the properties of the scan: all
/// keys before it equal the leading key, and the key at it, if any, differs.
proof fn lemma_run_len_unique<T, K, M: Fn(&T) -> K>(m: M, s: Seq<T>, n: int)
    requires
        1 <= n <= s.len(),
        forall|i: int| 0 <= i < n ==> #[trigger] key_of(m, s[i]) == key_of(m, s[0]),
        n < s.len() ==> key_of(m, s[n]) != key_of(m, s[0]),
    ensures
        run_len(m, s) == n,
    decreases s.len(),
{
    if n == 1 {
        if s.len() >= 2 {
            assert(key_of(m, s[1]) != key_of(m, s[0]));
        }
    } else {
        assert(key_of(m, s[1]) == key_of(m, s[0]));
        let s1 = s.subrange(1, s.len() as int);
        assert forall|i: int| 0 <= i < n - 1 implies #[trigger] key_of(m, s1[i]) == key_of(
            m,
            s1[0],
        ) by {
            assert(s1[i] == s[i + 1]);
            assert(s1[0] == s[1]);
        }
        if n - 1 < s1.len() {
            assert(s1[n - 1] == s[n]);
        }
        lemma_run_len_unique(m, s1, n - 1);
    }
}

/// The full grouping of `s` under the key function `m`: the sequence of
/// (representative key, run) pairs that a complete traversal emits.
pub open spec fn runs<T, K, M: Fn(&T) -> K>(m: M, s: Seq<T>) -> Seq<(K, Seq<T>)>
    decreases s.len(),
    via runs_decreases::<T, K, M>
{
    if s.len() == 0 {
        Seq::empty()
    } else {
        seq![(key_of(m, s[0]), s.subrange(0, run_len(m, s) as int))]
            + runs(m, s.subrange(run_len(m, s) as int, s.len() as int))
    }
}

#[via_fn]
proof fn runs_decreases<T, K, M: Fn(&T) -> K>(m: M, s: Seq<T>) {
    lemma_run_len_bounds(m, s);
}

/// A lazy grouper over a borrowed slice: its only state is the remaining,
/// not yet consumed suffix of the input, together with the key function.
pub struct GroupByKey<'a, T, M> {
    slice: &'a [T],
    by: M,
}

impl<'a, T, M> GroupByKey<'a, T, M> {
    /// The remaining, not yet consumed suffix of the input.
    pub closed spec fn remaining(self) -> Seq<T> {
        self.slice@
    }

    /// The key function the grouper was constructed with.
    pub closed spec fn key_fn(self) -> M {
        self.by
    }
}

impl<'a, T, K: PartialEq, M: Fn(&T) -> K> GroupByKey<'a, T, M> {
    /// The caller's side of the contract: the key function is pure, it may be
    /// applied to every remaining element, and equality on keys is honest.
    pub open spec fn wf(self) -> bool {
        &&& key_fn_pure::<T, K, M>(self.key_fn())
        &&& key_fn_callable::<T, K, M>(self.key_fn(), self.remaining())
        &&& key_eq_agrees::<K>()
    }

    /// Wraps `slice` and `by`; computes nothing eagerly and never fails.
    pub fn new(slice: &'a [T], by: M) -> (g: Self)
        ensures
            g.remaining() == slice@,
            g.key_fn() == by,
    {
        Self { slice, by }
    }

    /// One production step: emits the representative key and the sub-slice of
    /// the maximal leading run of the remaining input and advances past it,
    /// or signals end-of-sequence, permanently, once the input is consumed.
    pub fn next(&mut self) -> (r: Option<(K, &'a [T])>)
        requires
            old(self).wf(),
        ensures
            final(self).wf(),
            final(self).key_fn() == old(self).key_fn(),
            r is None <==> old(self).remaining().len() == 0,
            r is None ==> final(self).remaining() == old(self).remaining(),
            r matches Some((k, sub)) ==> {
                let s = old(self).remaining();
                let m = old(self).key_fn();
                &&& sub@.len() == run_len(m, s)
                &&& sub@ == s.subrange(0, run_len(m, s) as int)
                &&& final(self).remaining() == s.subrange(run_len(m, s) as int, s.len() as int)
                &&& old(self).remaining() == sub@ + final(self).remaining()
                &&& k == key_of(m, s[0])
                &&& forall|i: int| 0 <= i < sub@.len() ==> #[trigger] key_of(m, sub@[i]) == k
                &&& forall|i: int| 0 <= i < sub@.len() ==> #[trigger] call_ensures(m, (&sub@[i],), k)
                &&& final(self).remaining().len() > 0 ==> key_of(m, final(self).remaining()[0]) != k
                &&& final(self).remaining().len() > 0 ==> exists|k2: K|
                    #[trigger] call_ensures(m, (&final(self).remaining()[0],), k2) && k2 != k
                &&& runs(m, s) == seq![(k, sub@)] + runs(m, final(self).remaining())
            },
    {
        let ghost m = self.by;
        let ghost s = self.slice@;
        if self.slice.len() == 0 {
            return None;
        }
        let first = vstd::slice::slice_index_get(self.slice, 0);
        let key = (self.by)(first);
        proof {
            lemma_key_of_pure(m, s[0], key);
        }
        let mut index: usize = 1;
        while index < self.slice.len()
            invariant
                old(self).wf(),
                *self == *old(self),
                s == self.slice@,
                m == self.by,
                1 <= index <= s.len(),
                key == key_of(m, s[0]),
                forall|i: int| 0 <= i < index ==> #[trigger] key_of(m, s[i]) == key,
                forall|i: int| 0 <= i < index ==> #[trigger] call_ensures(m, (&s[i],), key),
            ensures
                *self == *old(self),
                1 <= index <= s.len(),
                forall|i: int| 0 <= i < index ==> #[trigger] key_of(m, s[i]) == key,
                forall|i: int| 0 <= i < index ==> #[trigger] call_ensures(m, (&s[i],), key),
                index < s.len() ==> key_of(m, s[index as int]) != key,
                index < s.len() ==> exists|k2: K|
                    #[trigger] call_ensures(m, (&s[index as int],), k2) && k2 != key,
            decreases s.len() - index,
        {
            let item = vstd::slice::slice_index_get(self.slice, index);
            let next_key = (self.by)(item);
            proof {
                lemma_key_of_pure(m, s[index as int], next_key);
            }
            if next_key != key {
                break;
            }
            index += 1;
        }
        let (ret, rest) = self.slice.split_at(index);
        self.slice = rest;
        proof {
            lemma_run_len_unique(m, s, index as int);
            assert forall|i: int| 0 <= i < rest@.len() implies #[trigger] call_requires(
                m,
                (&rest@[i],),
            ) by {
                assert(rest@[i] == s[i + index]);
            }
            assert forall|i: int| 0 <= i < ret@.len() implies #[trigger] call_ensures(
                m,
                (&ret@[i],),
                key,
            ) by {
                assert(ret@[i] == s[i]);
            }
            if rest@.len() > 0 {
                assert(rest@[0] == s[index as int]);
            }
            assert(runs(m, s) == seq![(key, ret@)] + runs(m, rest@));
        }
        Some((key, ret))
    }
}

/// The elements covered by a sequence of emitted pairs: the concatenation of
/// their runs, in emission order.
pub open spec fn concat_of_runs<T, K>(rs: Seq<(K, Seq<T>)>) -> Seq<T>
    decreases rs.len(),
{
    if rs.len() == 0 {
        Seq::empty()
    } else {
        rs[0].1 + concat_of_runs(rs.subrange(1, rs.len() as int))
    }
}

/// Completeness: for any input sequence, concatenating the runs of all
/// emitted pairs in order reproduces the input exactly.
pub proof fn lemma_runs_complete<T, K, M: Fn(&T) -> K>(m: M, s: Seq<T>)
    ensures
        concat_of_runs(runs(m, s)) == s,
    decreases s.len(),
{
    if s.len() == 0 {
        assert(concat_of_runs(runs(m, s)) =~= s);
    } else {
        lemma_run_len_bounds(m, s);
        let n = run_len(m, s) as int;
        let tail = s.subrange(n, s.len() as int);
        let rs = runs(m, s);
        lemma_runs_complete(m, tail);
        assert(rs.subrange(1, rs.len() as int) =~= runs(m, tail));
        assert(s.subrange(0, n) + tail =~= s);
    }
}

/// Run purity: every element of the run of an emitted pair maps to the key of
/// that pair.
pub proof fn lemma_runs_pure<T, K, M: Fn(&T) -> K>(m: M, s: Seq<T>, j: int, i: int)
    requires
        0 <= j < runs(m, s).len(),
        0 <= i < runs(m, s)[j].1.len(),
    ensures
        key_of(m, runs(m, s)[j].1[i]) == runs(m, s)[j].0,
    decreases s.len(),
{
    lemma_run_len_bounds(m, s);
    let n = run_len(m, s) as int;
    let tail = s.subrange(n, s.len() as int);
    if j == 0 {
        lemma_run_len_keys(m, s);
        assert(runs(m, s)[0].1[i] == s[i]);
    } else {
        assert(runs(m, s)[j] == runs(m, tail)[j - 1]);
        lemma_runs_pure(m, tail, j - 1, i);
    }
}

/// Maximality: two consecutive emitted pairs never carry the same key.
pub proof fn lemma_runs_maximal<T, K, M: Fn(&T) -> K>(m: M, s: Seq<T>, j: int)
    requires
        0 <= j,
        j + 1 < runs(m, s).len(),
    ensures
        runs(m, s)[j].0 != runs(m, s)[j + 1].0,
    decreases s.len(),
{
    lemma_run_len_bounds(m, s);
    let n = run_len(m, s) as int;
    let tail = s.subrange(n, s.len() as int);
    if j == 0 {
        lemma_run_len_keys(m, s);
        assert(runs(m, s)[1] == runs(m, tail)[0]);
        assert(tail[0] == s[n]);
    } else {
        assert(runs(m, s)[j] == runs(m, tail)[j - 1]);
        assert(runs(m, s)[j + 1] == runs(m, tail)[j]);
        lemma_runs_maximal(m, tail, j - 1);
    }
}

/// A single run: an input whose elements all map to one key is emitted as
/// exactly one pair covering the whole input.
pub proof fn lemma_runs_single<T, K, M: Fn(&T) -> K>(m: M, s: Seq<T>)
    requires
        s.len() > 0,
        forall|i: int| 0 <= i < s.len() ==> #[trigger] key_of(m, s[i]) == key_of(m, s[0]),
    ensures
        runs(m, s) == seq![(key_of(m, s[0]), s)],
{
    lemma_run_len_unique(m, s, s.len() as int);
    assert(s.subrange(0, s.len() as int) =~= s);
    let tail = s.subrange(s.len() as int, s.len() as int);
    assert(runs(m, tail) =~= Seq::<(K, Seq<T>)>::empty());
    assert(runs(m, s) =~= seq![(key_of(m, s[0]), s)]);
}

/// All runs distinct: an input where every two adjacent elements map to
/// different keys is emitted as one pair per element, each run of length one.
pub proof fn lemma_runs_all_distinct<T, K, M: Fn(&T) -> K>(m: M, s: Seq<T>)
    requires
        forall|i: int| 1 <= i < s.len() ==> #[trigger] key_of(m, s[i]) != key_of(m, s[i - 1]),
    ensures
        runs(m, s).len() == s.len(),
        forall|j: int| 0 <= j < s.len() ==> #[trigger] runs(m, s)[j] == (
            key_of(m, s[j]),
            seq![s[j]],
        ),
    decreases s.len(),
{
    if s.len() > 0 {
        if s.len() >= 2 {
            assert(key_of(m, s[1]) != key_of(m, s[0]));
        }
        lemma_run_len_unique(m, s, 1);
        let tail = s.subrange(1, s.len() as int);
        assert forall|i: int| 1 <= i < tail.len() implies #[trigger] key_of(m, tail[i]) != key_of(
            m,
            tail[i - 1],
        ) by {
            assert(tail[i] == s[i + 1]);
            assert(tail[i - 1] == s[i]);
        }
        lemma_runs_all_distinct(m, tail);
        assert(s.subrange(0, 1) =~= seq![s[0]]);
        assert forall|j: int| 0 <= j < s.len() implies #[trigger] runs(m, s)[j] == (
            key_of(m, s[j]),
            seq![s[j]],
        ) by {
            if j >= 1 {
                assert(runs(m, s)[j] == runs(m, tail)[j - 1]);
                assert(tail[j - 1] == s[j]);
            }
        }
    }
}

/// Where `m` is pure, a value that an application of `m` to `t` has actually
/// returned is `key_of(m, t)`.
proof fn lemma_key_of_pure<T, K, M: Fn(&T) -> K>(m: M, t: T, k: K)
    requires
        key_fn_pure::<T, K, M>(m),
        call_ensures(m, (&t,), k),
    ensures
        key_of(m, t) == k,
{
    assert(call_ensures(m, (&t,), key_of(m, t)));
}

} // verus!
