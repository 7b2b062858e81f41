use vstd::prelude::*;

verus! {

/// Select a program among preference-ordered candidates.
///
/// Each candidate is the value a configuration source yielded, if any; the
/// chosen one is the first that is defined. `None` when no source yielded a
/// value, in which case the caller reports the program as unavailable.
pub fn first_defined(values: &Vec<Option<String>>) -> (r: Option<usize>)
    ensures
        match r {
            Some(i) => i < values@.len() && values@[i as int] is Some && forall|j: int|
                0 <= j < i ==> values@[j] is None,
            None => forall|j: int| 0 <= j < values@.len() ==> values@[j] is None,
        },
{
    let n = values.len();
    let mut i: usize = 0;
    while i < n
        invariant
            i <= n,
            n == values@.len(),
            forall|j: int| 0 <= j < i ==> values@[j] is None,
        decreases n - i,
    {
        if values[i].is_some() {
            return Some(i);
        }
        i += 1;
    }
    None
}

} // verus!
