//! Building board contents from a drawing: `.` an empty point, `X` a black
//! stone, `O` a white stone, `#` an offline point; anything else (whitespace)
//! is ignored. The first drawn row is the top of the board, which lives at
//! the high end of the row-major index space.

use vstd::prelude::*;
use vstd::string::StringSliceAdditionalSpecFns;
use crate::board::PointState;

verus! {

/// The point a drawing byte stands for, if any.
pub open spec fn byte_point(b: u8) -> Option<PointState> {
    if b == 46 {  // '.'
        Some(PointState::Empty)
    } else if b == 88 {  // 'X'
        Some(PointState::Black)
    } else if b == 79 {  // 'O'
        Some(PointState::White)
    } else if b == 35 {  // '#'
        Some(PointState::Offline)
    } else {
        None
    }
}

/// The points a drawing describes, in drawing order: its recognized bytes,
/// mapped.
pub open spec fn parsed_points(bytes: Seq<u8>) -> Seq<PointState>
    decreases bytes.len(),
{
    if bytes.len() == 0 {
        Seq::empty()
    } else {
        let rest = parsed_points(bytes.drop_last());
        match byte_point(bytes.last()) {
            Some(st) => rest.push(st),
            None => rest,
        }
    }
}

/// The board index of the `n`-th drawn point: drawn rows run top-down, board
/// rows bottom-up.
pub open spec fn loc_of(n: int, size: int) -> int {
    (size * size - n - 1) / size * size + n % size
}

/// Builds a board of `board_size * board_size` points from a drawing. The
/// `n`-th recognized character lands on `loc_of(n, board_size)`; points the
/// drawing does not reach stay offline; recognized characters beyond the
/// board's capacity are dropped.
pub fn board_from_string(board_str: &str, board_size: usize) -> (r: Vec<PointState>)
    requires
        1 <= board_size <= 8,
    ensures
        r@.len() == board_size * board_size,
        forall|n: int|
            0 <= n < parsed_points(board_str.spec_bytes()).len() && n < board_size * board_size
                ==> r@[loc_of(n, board_size as int)] == parsed_points(board_str.spec_bytes())[n],
        forall|i: int|
            0 <= i < board_size * board_size && !(exists|n: int|
                0 <= n < parsed_points(board_str.spec_bytes()).len() && n < board_size * board_size
                    && loc_of(n, board_size as int) == i) ==> r@[i] == PointState::Offline,
{
    let ghost sz = board_size as int;
    proof {
        assert(sz * sz <= 64) by (nonlinear_arith)
            requires
                1 <= sz <= 8,
        ;
    }
    let number_of_points: usize = board_size * board_size;
    proof {
        assert(number_of_points == sz * sz);
    }
    let mut result: Vec<PointState> = Vec::new();
    let mut i: usize = 0;
    while i < number_of_points
        invariant
            i <= number_of_points,
            result@.len() == i,
            forall|k: int| 0 <= k < i ==> result@[k] == PointState::Offline,
        decreases number_of_points - i,
    {
        result.push(PointState::Offline);
        i = i + 1;
    }
    let bytes = board_str.as_bytes();
    let ghost all = board_str.spec_bytes();
    let mut n: usize = 0;
    let mut bi: usize = 0;
    while bi < bytes.len()
        invariant
            1 <= board_size <= 8,
            sz == board_size as int,
            number_of_points == sz * sz,
            bytes@ == all,
            bi <= all.len(),
            result@.len() == number_of_points,
            n <= number_of_points,
            n <= parsed_points(all.subrange(0, bi as int)).len(),
            n == parsed_points(all.subrange(0, bi as int)).len() || n == number_of_points,
            forall|m: int|
                0 <= m < n ==> result@[loc_of(m, sz)] == parsed_points(
                    all.subrange(0, bi as int),
                )[m],
            forall|k: int|
                0 <= k < number_of_points && !(exists|m: int| 0 <= m < n && loc_of(m, sz) == k)
                    ==> result@[k] == PointState::Offline,
        decreases all.len() - bi,
    {
        let ghost prefix = all.subrange(0, bi as int);
        let ghost prefix2 = all.subrange(0, bi as int + 1);
        proof {
            assert(prefix2.drop_last() =~= prefix);
            assert(prefix2.last() == all[bi as int]);
        }
        let letter = bytes[bi];
        let parsed: Option<PointState> = if letter == 46 {
            Some(PointState::Empty)
        } else if letter == 88 {
            Some(PointState::Black)
        } else if letter == 79 {
            Some(PointState::White)
        } else if letter == 35 {
            Some(PointState::Offline)
        } else {
            None
        };
        match parsed {
            Some(st) => {
                if n < number_of_points {
                    let column: usize = n % board_size;
                    let row: usize = (number_of_points - n - 1) / board_size;
                    proof {
                        let gn = n as int;
                        assert(0 <= (sz * sz - gn - 1) / sz < sz && 0 <= gn % sz < sz) by (
                        nonlinear_arith)
                            requires
                                1 <= sz,
                                0 <= gn < sz * sz,
                        ;
                        assert((sz * sz - gn - 1) / sz * sz + gn % sz < sz * sz) by (
                        nonlinear_arith)
                            requires
                                1 <= sz,
                                0 <= (sz * sz - gn - 1) / sz < sz,
                                0 <= gn % sz < sz,
                        ;
                    }
                    let location: usize = row * board_size + column;
                    let ghost rprev = result@;
                    result[location] = st;
                    proof {
                        assert forall|m: int| 0 <= m <= n implies 0 <= #[trigger] loc_of(m, sz)
                            < sz * sz by {
                            assert(0 <= (sz * sz - m - 1) / sz * sz + m % sz < sz * sz) by (
                            nonlinear_arith)
                                requires
                                    1 <= sz,
                                    0 <= m < sz * sz,
                            ;
                        }
                        assert(result@ == rprev.update(loc_of(n as int, sz), st));
                        assert(parsed_points(prefix2) == parsed_points(prefix).push(st));
                        assert forall|m: int, m2: int|
                            0 <= m < m2 <= n implies loc_of(m, sz) != loc_of(m2, sz) by {
                            assert((sz * sz - m - 1) / sz * sz + m % sz != (sz * sz - m2 - 1) / sz
                                * sz + m2 % sz) by (nonlinear_arith)
                                requires
                                    1 <= sz,
                                    0 <= m < m2 < sz * sz,
                            ;
                        }
                    }
                    n = n + 1;
                } else {
                    proof {
                        assert(parsed_points(prefix2) == parsed_points(prefix).push(st));
                    }
                }
            },
            None => {
                proof {
                    assert(parsed_points(prefix2) == parsed_points(prefix));
                }
            },
        }
        bi = bi + 1;
    }
    proof {
        assert(all.subrange(0, all.len() as int) =~= all);
    }
    result
}

} // verus!
