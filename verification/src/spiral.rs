use vstd::prelude::*;

verus! {

/// Spiral steps laid per child below `index` in the overview layout: the
/// node's subtree count plus one, at most 40, and 40 at the root.
pub fn dive_extending_factor(index: usize, num_of_all_children: i32) -> (f: i32)
    requires
        num_of_all_children < i32::MAX,
    ensures
        f == if index == 0 {
            40int
        } else if num_of_all_children + 1 > 40 {
            40int
        } else {
            num_of_all_children + 1
        },
{
    let mut f = num_of_all_children + 1;
    if f > 40 {
        f = 40;
    }
    if index == 0 {
        f = 40;
    }
    f
}

/// Spiral steps laid per child in the parametrised layout: 1000 at the root,
/// 40 everywhere else.
pub fn param_extending_factor(index: usize) -> (f: i32)
    ensures
        f == if index == 0 {
            1000i32
        } else {
            40i32
        },
{
    if index == 0 {
        1000
    } else {
        40
    }
}

/// Spiral steps below a node: one run of `factor` steps per listed child.
pub fn vertex_iterations(children_len: usize, factor: i32) -> (n: i32)
    requires
        children_len <= i32::MAX,
        i32::MIN <= children_len * factor <= i32::MAX,
    ensures
        n == children_len * factor,
{
    let len = children_len as i32;
    len * factor
}

/// Whether spiral step `i` places the next child: the last step of every run
/// of `factor` steps.
pub fn places_child(i: i32, factor: i32) -> (b: bool)
    requires
        0 <= i,
        0 < factor,
    ensures
        b == (i % factor == factor - 1),
{
    i % factor == factor - 1
}

} // verus!
