use vstd::prelude::*;

verus! {

/// Position of the first element of `input` equal to `item`, if any.
pub fn find_item_index<T: PartialEq + vstd::std_specs::cmp::PartialEqSpec>(input: &[T], item: &T) -> (r: Option<usize>)
    requires
        T::obeys_eq_spec(),
    ensures
        match r {
            Some(i) => i < input@.len() && input@[i as int].eq_spec(item)
                && forall|j: int| 0 <= j < i ==> !input@[j].eq_spec(item),
            None => forall|j: int| 0 <= j < input@.len() ==> !input@[j].eq_spec(item),
        },
{
    let mut i: usize = 0;
    while i < input.len()
        invariant
            i <= input@.len(),
            T::obeys_eq_spec(),
            forall|j: int| 0 <= j < i ==> !input@[j].eq_spec(item),
        decreases input@.len() - i,
    {
        if input[i] == *item {
            return Some(i);
        }
        i = i + 1;
    }
    None
}

} // verus!
