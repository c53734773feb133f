//! Small facts about sequences and copying of vectors.

use vstd::prelude::*;

use crate::field::Field;

verus! {

/// The least index below `n` that satisfies `p`.
pub open spec fn least(n: nat, p: spec_fn(int) -> bool) -> Option<int>
    decreases n,
{
    if n == 0 {
        None
    } else {
        match least((n - 1) as nat, p) {
            Some(i) => Some(i),
            None => if p(n - 1) {
                Some(n - 1)
            } else {
                None
            },
        }
    }
}

pub proof fn lemma_least_none(n: nat, p: spec_fn(int) -> bool)
    requires
        forall|i: int| 0 <= i < n ==> !#[trigger] p(i),
    ensures
        least(n, p) is None,
    decreases n,
{
    if n > 0 {
        lemma_least_none((n - 1) as nat, p);
    }
}

pub proof fn lemma_least_some(n: nat, p: spec_fn(int) -> bool, k: int)
    requires
        0 <= k < n,
        p(k),
        forall|i: int| 0 <= i < k ==> !#[trigger] p(i),
    ensures
        least(n, p) == Some(k),
    decreases n,
{
    if k == n - 1 {
        lemma_least_none((n - 1) as nat, p);
    } else {
        lemma_least_some((n - 1) as nat, p, k);
    }
}

/// What `least` finds satisfies the predicate, and nothing below it does.
pub proof fn lemma_least(n: nat, p: spec_fn(int) -> bool)
    ensures
        match least(n, p) {
            Some(k) => 0 <= k < n && p(k) && forall|i: int| 0 <= i < k ==> !#[trigger] p(i),
            None => forall|i: int| 0 <= i < n ==> !#[trigger] p(i),
        },
    decreases n,
{
    if n > 0 {
        lemma_least((n - 1) as nat, p);
    }
}

/// The rows of a table.
pub open spec fn rows<T>(v: Seq<Vec<T>>) -> Seq<Seq<T>> {
    Seq::new(v.len(), |i: int| v[i]@)
}

/// The tables of a list of tables.
pub open spec fn tables<T>(v: Seq<Vec<Vec<T>>>) -> Seq<Seq<Seq<T>>> {
    Seq::new(v.len(), |i: int| rows(v[i]@))
}

pub fn copy_vec<T: Copy>(v: &Vec<T>) -> (r: Vec<T>)
    ensures
        r@ == v@,
{
    let mut r: Vec<T> = Vec::with_capacity(v.len());
    let mut i: usize = 0;
    while i < v.len()
        invariant
            i <= v@.len(),
            r@ == v@.take(i as int),
        decreases v@.len() - i,
    {
        r.push(v[i]);
        i += 1;
        assert(v@.take(i as int) =~= v@.take(i - 1).push(v@[i - 1]));
    }
    assert(v@.take(i as int) =~= v@);
    r
}

pub fn append_copy<T: Copy>(dst: &mut Vec<T>, src: &Vec<T>)
    ensures
        final(dst)@ == old(dst)@ + src@,
{
    let mut i: usize = 0;
    while i < src.len()
        invariant
            i <= src@.len(),
            dst@ == old(dst)@ + src@.take(i as int),
        decreases src@.len() - i,
    {
        dst.push(src[i]);
        i += 1;
        assert(src@.take(i as int) =~= src@.take(i - 1).push(src@[i - 1]));
        assert(dst@ =~= old(dst)@ + src@.take(i as int));
    }
    assert(src@.take(i as int) =~= src@);
}

pub fn filled<T: Copy>(value: T, n: usize) -> (r: Vec<T>)
    ensures
        r@ == Seq::new(n as nat, |i: int| value),
{
    let mut r: Vec<T> = Vec::with_capacity(n);
    let mut i: usize = 0;
    while i < n
        invariant
            i <= n,
            r@ == Seq::new(i as nat, |j: int| value),
        decreases n - i,
    {
        r.push(value);
        i += 1;
        assert(r@ =~= Seq::new(i as nat, |j: int| value));
    }
    r
}

pub fn elements_equal<F: Field>(a: &Vec<F>, b: &Vec<F>) -> (r: bool)
    ensures
        r == (a@ == b@),
{
    if a.len() != b.len() {
        return false;
    }
    let mut i: usize = 0;
    while i < a.len()
        invariant
            i <= a@.len(),
            a@.len() == b@.len(),
            forall|j: int| 0 <= j < i ==> a@[j] == b@[j],
        decreases a@.len() - i,
    {
        if !a[i].equals(b[i]) {
            return false;
        }
        i += 1;
    }
    assert(a@ =~= b@);
    true
}

pub fn rows_equal<F: Field>(a: &Vec<Vec<F>>, b: &Vec<Vec<F>>) -> (r: bool)
    ensures
        r == (rows(a@) == rows(b@)),
{
    if a.len() != b.len() {
        assert(rows(a@).len() != rows(b@).len());
        return false;
    }
    let mut i: usize = 0;
    while i < a.len()
        invariant
            i <= a@.len(),
            a@.len() == b@.len(),
            forall|j: int| 0 <= j < i ==> a@[j]@ == b@[j]@,
        decreases a@.len() - i,
    {
        if !elements_equal(&a[i], &b[i]) {
            assert(rows(a@)[i as int] != rows(b@)[i as int]);
            return false;
        }
        i += 1;
    }
    assert(rows(a@) =~= rows(b@));
    true
}

} // verus!
