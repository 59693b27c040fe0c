//! Rows and keys of the streaming operator: fixed-width integer columns.
//!
//! A row is a vector of 64-bit column values; a group key is the projection
//! of a row onto the group-by columns.

use vstd::prelude::*;

verus! {

/// Whether two keys (or rows) hold the same values.
pub fn keys_equal(a: &Vec<i64>, b: &Vec<i64>) -> (r: bool)
    ensures
        r == (a@ == b@),
{
    if a.len() != b.len() {
        return false;
    }
    let n = a.len();
    let mut i: usize = 0;
    while i < n
        invariant
            n == a@.len() == b@.len(),
            0 <= i <= n,
            forall|j: int| 0 <= j < i ==> a@[j] == b@[j],
        decreases n - i,
    {
        if a[i] != b[i] {
            return false;
        }
        i = i + 1;
    }
    proof {
        assert(a@ =~= b@);
    }
    true
}

pub fn copy_i64_vec(v: &Vec<i64>) -> (r: Vec<i64>)
    ensures
        r@ == v@,
{
    let n = v.len();
    let mut r: Vec<i64> = Vec::new();
    let mut i: usize = 0;
    while i < n
        invariant
            n == v@.len(),
            0 <= i <= n,
            r@ == v@.subrange(0, i as int),
        decreases n - i,
    {
        r.push(v[i]);
        proof {
            assert(r@ =~= v@.subrange(0, i + 1));
        }
        i = i + 1;
    }
    proof {
        assert(r@ =~= v@);
    }
    r
}

pub fn copy_bool_vec(v: &Vec<bool>) -> (r: Vec<bool>)
    ensures
        r@ == v@,
{
    let n = v.len();
    let mut r: Vec<bool> = Vec::new();
    let mut i: usize = 0;
    while i < n
        invariant
            n == v@.len(),
            0 <= i <= n,
            r@ == v@.subrange(0, i as int),
        decreases n - i,
    {
        r.push(v[i]);
        proof {
            assert(r@ =~= v@.subrange(0, i + 1));
        }
        i = i + 1;
    }
    proof {
        assert(r@ =~= v@);
    }
    r
}

/// The projection of a row onto the given column indices.
pub open spec fn spec_project(row: Seq<i64>, indices: Seq<usize>) -> Seq<i64> {
    indices.map_values(|i: usize| row[i as int])
}

pub fn project(row: &Vec<i64>, indices: &Vec<usize>) -> (r: Vec<i64>)
    requires
        forall|j: int| 0 <= j < indices@.len() ==> (#[trigger] indices@[j]) < row@.len(),
    ensures
        r@ == spec_project(row@, indices@),
{
    let n = indices.len();
    let mut r: Vec<i64> = Vec::new();
    let mut i: usize = 0;
    while i < n
        invariant
            n == indices@.len(),
            0 <= i <= n,
            forall|j: int| 0 <= j < n ==> (#[trigger] indices@[j]) < row@.len(),
            r@ == spec_project(row@, indices@).subrange(0, i as int),
        decreases n - i,
    {
        r.push(row[indices[i]]);
        proof {
            assert(r@ =~= spec_project(row@, indices@).subrange(0, i + 1));
        }
        i = i + 1;
    }
    proof {
        assert(r@ =~= spec_project(row@, indices@));
    }
    r
}

} // verus!
