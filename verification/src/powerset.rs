//! The powerset of a list of distinct integers, in the order a depth-first
//! walk of index subsequences produces: each subset is followed first by
//! its extensions with later elements.

use vstd::prelude::*;

verus! {

/// The input held the same number twice.
#[derive(Clone, Copy, Debug, PartialEq, Eq, Structural)]
pub enum PowersetError {
    DuplicateNumbers,
}

/// Some value occurs at two positions.
pub open spec fn has_duplicate(s: Seq<i32>) -> bool {
    exists|i: int, j: int| 0 <= i < j < s.len() && s[i] == s[j]
}

/// The subsets that extend `acc` with elements of `s` at indices `start`
/// and beyond, in depth-first order; `acc` itself comes first.
pub open spec fn subsets_from(s: Seq<i32>, start: int, acc: Seq<i32>) -> Seq<Seq<i32>>
    decreases s.len() - start, 1int,
{
    seq![acc] + subset_branches(s, start, acc)
}

/// The subsets contributed by choosing each index `j >= start` as the next
/// element.
pub open spec fn subset_branches(s: Seq<i32>, j: int, acc: Seq<i32>) -> Seq<Seq<i32>>
    decreases s.len() - j, 0int,
{
    if j < 0 || j >= s.len() {
        Seq::empty()
    } else {
        subsets_from(s, j + 1, acc.push(s[j])) + subset_branches(s, j + 1, acc)
    }
}

/// A plain copy of an integer vector.
fn copy_vec(v: &Vec<i32>) -> (r: Vec<i32>)
    ensures
        r@ == v@,
{
    let mut r: Vec<i32> = Vec::new();
    let mut i: usize = 0;
    while i < v.len()
        invariant
            i <= v@.len(),
            r@ == v@.take(i as int),
        decreases v@.len() - i,
    {
        r.push(v[i]);
        proof {
            assert(r@ =~= v@.take(i + 1));
        }
        i = i + 1;
    }
    proof {
        assert(v@.take(v@.len() as int) =~= v@);
    }
    r
}

/// Record `tmp_set`, then extend it with every later element in turn,
/// recursing after each extension.
#[verifier::loop_isolation(false)]
pub fn fill_powerset(
    set: &Vec<i32>,
    ans: &mut Vec<Vec<i32>>,
    tmp_set: &mut Vec<i32>,
    start_index: usize,
)
    requires
        start_index <= set@.len(),
    ensures
        final(ans)@.map_values(|v: Vec<i32>| v@) == old(ans)@.map_values(|v: Vec<i32>| v@)
            + subsets_from(set@, start_index as int, old(tmp_set)@),
        final(tmp_set)@ == old(tmp_set)@,
    decreases set@.len() - start_index,
{
    let snapshot = copy_vec(tmp_set);
    ans.push(snapshot);
    proof {
        assert(ans@.map_values(|v: Vec<i32>| v@) =~= old(ans)@.map_values(|v: Vec<i32>| v@)
            + seq![old(tmp_set)@]);
    }
    let mut i = start_index;
    while i < set.len()
        invariant
            start_index <= i <= set@.len(),
            tmp_set@ == old(tmp_set)@,
            ans@.map_values(|v: Vec<i32>| v@) + subset_branches(set@, i as int, old(tmp_set)@)
                == old(ans)@.map_values(|v: Vec<i32>| v@) + subsets_from(
                set@,
                start_index as int,
                old(tmp_set)@,
            ),
        decreases set@.len() - i,
    {
        tmp_set.push(set[i]);
        let ghost before = ans@.map_values(|v: Vec<i32>| v@);
        fill_powerset(set, ans, tmp_set, i + 1);
        proof {
            assert(ans@.map_values(|v: Vec<i32>| v@) =~= before + subsets_from(
                set@,
                i + 1,
                old(tmp_set)@.push(set@[i as int]),
            ));
            assert(before + (subsets_from(set@, i + 1, old(tmp_set)@.push(set@[i as int]))
                + subset_branches(set@, i + 1, old(tmp_set)@)) =~= (before + subsets_from(
                set@,
                i + 1,
                old(tmp_set)@.push(set@[i as int]),
            )) + subset_branches(set@, i + 1, old(tmp_set)@));
        }
        tmp_set.pop();
        proof {
            assert(tmp_set@ =~= old(tmp_set)@);
        }
        i = i + 1;
    }
}

/// All subsets of a list of distinct integers, the empty set first, each
/// subset directly followed by its extensions with later elements.
pub fn powerset(set: Vec<i32>) -> (r: Result<Vec<Vec<i32>>, PowersetError>)
    ensures
        match r {
            Ok(ans) => {
                &&& !has_duplicate(set@)
                &&& ans@.map_values(|v: Vec<i32>| v@) == subsets_from(set@, 0, Seq::empty())
            },
            Err(_) => has_duplicate(set@),
        },
{
    // reject duplicated numbers
    let n = set.len();
    let mut i: usize = 0;
    while i < n
        invariant
            i <= n,
            n == set@.len(),
            forall|a: int, b: int| 0 <= a < b < i ==> (#[trigger] set@[a]) != (#[trigger] set@[b]),
        decreases n - i,
    {
        let mut j: usize = 0;
        while j < i
            invariant
                j <= i < n,
                n == set@.len(),
                forall|b: int| 0 <= b < j ==> (#[trigger] set@[b]) != set@[i as int],
            decreases i - j,
        {
            if set[j] == set[i] {
                return Err(PowersetError::DuplicateNumbers);
            }
            j = j + 1;
        }
        i = i + 1;
    }
    let mut ans: Vec<Vec<i32>> = Vec::new();
    let mut tmp_set: Vec<i32> = Vec::new();
    fill_powerset(&set, &mut ans, &mut tmp_set, 0);
    proof {
        assert(Seq::<Seq<i32>>::empty() + subsets_from(set@, 0, Seq::empty()) =~= subsets_from(
            set@,
            0,
            Seq::empty(),
        ));
        assert(Seq::<Vec<i32>>::empty().map_values(|v: Vec<i32>| v@)
            =~= Seq::<Seq<i32>>::empty());
    }
    Ok(ans)
}

} // verus!
