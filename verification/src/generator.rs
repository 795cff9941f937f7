use vstd::prelude::*;

verus! {

/// Angle step of a path character: letters count from 1 (`a`) to 22 (`v`),
/// then `x`, `y`, `z` give 23 to 25 (`w` has none), case ignored; digits `0`
/// to `9` give 26 to 35; anything else 0.
pub open spec fn angle_of(c: char) -> u32 {
    let u = c as u32;
    if 'a' as u32 <= u <= 'v' as u32 {
        (u - 'a' as u32 + 1) as u32
    } else if 'A' as u32 <= u <= 'V' as u32 {
        (u - 'A' as u32 + 1) as u32
    } else if 'x' as u32 <= u <= 'z' as u32 {
        (u - 'a' as u32) as u32
    } else if 'X' as u32 <= u <= 'Z' as u32 {
        (u - 'A' as u32) as u32
    } else if '0' as u32 <= u <= '9' as u32 {
        (u - '0' as u32 + 26) as u32
    } else {
        0
    }
}

/// Letters get the same angle step in either case.
pub proof fn lemma_angle_ignores_case(c: char)
    requires
        'a' <= c <= 'z',
    ensures
        angle_of(c) == angle_of(((c as u32) - 32) as char),
{
}

/// The letters get the steps 1 to 25 in alphabetical order, `w` left out with
/// step 0, the same in either case; the digits follow with 26 to 35; every
/// other character gets 0.
pub proof fn lemma_angle_order()
    ensures
        angle_of('a') == 1,
        angle_of('w') == 0 && angle_of('W') == 0,
        angle_of('x') == angle_of('v') + 1,
        angle_of('0') == angle_of('z') + 1,
        forall|c: char|
            'a' <= c < 'z' && c != 'v' && c != 'w' ==> #[trigger] angle_of(((c as u32) + 1) as char)
                == angle_of(c) + 1,
        forall|c: char|
            '0' <= c < '9' ==> #[trigger] angle_of(((c as u32) + 1) as char) == angle_of(c) + 1,
        forall|c: char|
            'a' <= c <= 'z' ==> #[trigger] angle_of(((c as u32) - 32) as char) == angle_of(c),
        forall|c: char|
            'a' <= c <= 'z' && c != 'w' ==> 0 < #[trigger] angle_of(c) <= 25,
        forall|c: char|
            !('a' as u32 <= c as u32 <= 'z' as u32 || 'A' as u32 <= c as u32 <= 'Z' as u32 || '0' as u32
                <= c as u32 <= '9' as u32) ==> #[trigger] angle_of(c) == 0,
{
}

/// The angle step of a path character (see `angle_of`).
pub fn get_angle(c: char) -> (angle: u32)
    ensures
        angle == angle_of(c),
{
    match c {
        'a' | 'A' => 1,
        'b' | 'B' => 2,
        'c' | 'C' => 3,
        'd' | 'D' => 4,
        'e' | 'E' => 5,
        'f' | 'F' => 6,
        'g' | 'G' => 7,
        'h' | 'H' => 8,
        'i' | 'I' => 9,
        'j' | 'J' => 10,
        'k' | 'K' => 11,
        'l' | 'L' => 12,
        'm' | 'M' => 13,
        'n' | 'N' => 14,
        'o' | 'O' => 15,
        'p' | 'P' => 16,
        'q' | 'Q' => 17,
        'r' | 'R' => 18,
        's' | 'S' => 19,
        't' | 'T' => 20,
        'u' | 'U' => 21,
        'v' | 'V' => 22,
        'x' | 'X' => 23,
        'y' | 'Y' => 24,
        'z' | 'Z' => 25,
        '0' => 26,
        '1' => 27,
        '2' => 28,
        '3' => 29,
        '4' => 30,
        '5' => 31,
        '6' => 32,
        '7' => 33,
        '8' => 34,
        '9' => 35,
        _ => 0,
    }
}

/// Vertex indices of the twelve pentagonal faces of the node dodecahedron,
/// three triangles per face, over its twenty corners.
pub const DODECA_FACES: [u32; 108] = [
    0, 1, 2, 0, 2, 3, 0, 3, 4,
    6, 5, 3, 6, 3, 2, 6, 2, 7,
    2, 1, 9, 2, 9, 8, 2, 8, 7,
    3, 5, 11, 3, 11, 10, 3, 10, 4,
    5, 6, 13, 5, 13, 12, 5, 12, 11,
    1, 0, 16, 1, 16, 15, 1, 15, 9,
    7, 8, 14, 7, 14, 13, 7, 13, 6,
    4, 10, 17, 4, 17, 16, 4, 16, 0,
    13, 14, 19, 13, 19, 18, 13, 18, 12,
    16, 17, 18, 16, 18, 19, 16, 19, 15,
    18, 17, 10, 18, 10, 11, 18, 11, 12,
    19, 14, 8, 19, 8, 9, 19, 9, 15,
];

/// Vertex indices of the four triangles of a ground marker over its twelve corners.
pub const GROUND_TRIANGLES: [u32; 12] = [0, 2, 1, 3, 4, 5, 6, 7, 8, 9, 11, 10];

/// `pattern` with `offset` added to every index.
pub open spec fn shifted(pattern: Seq<u32>, offset: u32) -> Seq<u32> {
    pattern.map_values(|i: u32| (i + offset) as u32)
}

/// Appends `pattern`, shifted by `offset`, to `indices`.
pub fn push_shifted(indices: &mut Vec<u32>, pattern: &[u32], offset: u32)
    requires
        forall|i: int| 0 <= i < pattern@.len() ==> #[trigger] pattern@[i] + offset <= u32::MAX,
    ensures
        final(indices)@ == old(indices)@ + shifted(pattern@, offset),
{
    let ghost start = indices@;
    let mut i: usize = 0;
    while i < pattern.len()
        invariant
            0 <= i <= pattern@.len(),
            forall|t: int| 0 <= t < pattern@.len() ==> #[trigger] pattern@[t] + offset <= u32::MAX,
            indices@ == start + shifted(pattern@.take(i as int), offset),
        decreases pattern@.len() - i,
    {
        proof {
            assert(shifted(pattern@.take(i + 1), offset) =~= shifted(pattern@.take(i as int), offset).push(
                (pattern@[i as int] + offset) as u32,
            ));
        }
        indices.push(pattern[i] + offset);
        i += 1;
    }
    proof {
        assert(pattern@.take(i as int) =~= pattern@);
    }
}

/// Appends the triangle indices of the dodecahedron of node `cnt`, whose
/// twenty corners are stored from index `20 * cnt` on.
pub fn extend_space_indices(space_indices: &mut Vec<u32>, cnt: u32)
    requires
        20 * cnt + 19 <= u32::MAX,
    ensures
        final(space_indices)@ == old(space_indices)@ + shifted(DODECA_FACES@, (20 * cnt) as u32),
        final(space_indices)@.len() == old(space_indices)@.len() + 108,
        forall|i: int|
            old(space_indices)@.len() <= i < final(space_indices)@.len()
            ==> 20 * cnt <= #[trigger] final(space_indices)@[i] <= 20 * cnt + 19,
{
    let add_indi = 20 * cnt;
    let faces = DODECA_FACES;
    proof {
        assert forall|i: int| 0 <= i < faces@.len() implies #[trigger] faces@[i] <= 19 by {
        }
    }
    push_shifted(space_indices, &faces, add_indi);
}

} // verus!
