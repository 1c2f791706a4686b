use vstd::prelude::*;

verus! {

/// Two exclusive handles to the distinct elements `i` and `k` of `vec`,
/// or `None` when the indices are equal or out of bounds.
pub fn get_two_mut<'a, T>(i: usize, k: usize, vec: &'a mut Vec<T>) -> (r: Option<(&'a mut T, &'a mut T)>)
    ensures
        (i == k || i >= old(vec).len() || k >= old(vec).len()) <==> r.is_none(),
        r.is_none() ==> final(vec)@ == old(vec)@,
        r matches Some((a, b)) ==> {
            &&& *a == old(vec)@[i as int]
            &&& *b == old(vec)@[k as int]
            &&& final(vec)@ == old(vec)@.update(i as int, *final(a)).update(k as int, *final(b))
        },
{
    let vec_length = vec.len();
    if i == k {
        return None;
    } else if i >= vec_length || k >= vec_length {
        return None;
    }
    if i < k {
        let (left, right) = vec.split_at_mut(i + 1);
        let a = left.last_mut().unwrap();
        let b = &mut right[k - i - 1];
        Some((a, b))
    } else {
        let (left, right) = vec.split_at_mut(i);
        let a = right.first_mut().unwrap();
        let b = &mut left[k];
        Some((a, b))
    }
}

} // verus!
