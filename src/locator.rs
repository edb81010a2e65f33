//! Finding the table by binary search over the trail.
use vstd::prelude::*;
use crate::error::StfsError;
use crate::layout::METADATA_SPACE_SIZE;
use crate::trail::{region, footer, trail_ok, trail_value, read_footer};

verus! {

/// The sector after `i` in circular order over the metadata region.
pub open spec fn next_sector(i: int) -> int {
    if i + 1 == region() { 0 } else { i + 1 }
}

/// Along a well-formed trail the value goes down exactly once in circular
/// order: right after the table's sector. Everywhere else it goes up by one.
pub proof fn lemma_single_descent(m: Seq<u8>, t: int, h: int)
    requires
        trail_ok(m, t, h),
    ensures
        forall|i: int| 0 <= i < region() ==> (footer(m, next_sector(i)) < footer(m, i) <==> i == t),
        forall|i: int| 0 <= i < region() && i != t ==> footer(m, next_sector(i)) == footer(m, i) + 1,
{
    assert forall|i: int| 0 <= i < region() implies (footer(m, next_sector(i)) < footer(m, i) <==> i == t)
        && (i != t ==> footer(m, next_sector(i)) == footer(m, i) + 1) by {
        assert(footer(m, i) == trail_value(t, h, i));
        assert(footer(m, next_sector(i)) == trail_value(t, h, next_sector(i)));
    }
}

/// On a well-formed trail the table's sector holds the largest value, and no
/// other sector holds it.
pub proof fn lemma_head_is_max(m: Seq<u8>, t: int, h: int)
    requires
        trail_ok(m, t, h),
    ensures
        forall|i: int| 0 <= i < region() && i != t ==> footer(m, i) < footer(m, t),
{
    assert forall|i: int| 0 <= i < region() && i != t implies footer(m, i) < footer(m, t) by {
        assert(footer(m, i) == trail_value(t, h, i));
        assert(footer(m, t) == trail_value(t, h, t));
    }
}

/// The sector that holds the table: where the trail goes down, found by
/// binary search in a logarithmic number of footer reads.
/// Fails only where the medium is shorter than the metadata region.
pub fn search(medium: &Vec<u8>) -> (r: Result<u64, StfsError>)
    ensures
        r is Err <==> medium@.len() < region() * 512,
        r is Err ==> r == Err::<u64, StfsError>(StfsError::IoFailure),
        r matches Ok(s) ==> s < METADATA_SPACE_SIZE,
        r matches Ok(s) ==> forall|t: int, h: int| #[trigger] trail_ok(medium@, t, h) ==> s == t,
        r matches Ok(s) ==> forall|t: int, h: int| #[trigger] trail_ok(medium@, t, h)
            ==> forall|i: int| 0 <= i < region() && i != s ==> footer(medium@, i) < footer(medium@, s as int),
{
    if medium.len() < (METADATA_SPACE_SIZE * 512) as usize {
        return Err(StfsError::IoFailure);
    }
    let ghost m = medium@;
    let mut start: u64 = 0;
    let mut end: u64 = METADATA_SPACE_SIZE - 1;
    while end - start > 1
        invariant
            m == medium@,
            m.len() >= region() * 512,
            start < end < METADATA_SPACE_SIZE,
            forall|t: int, h: int| #[trigger] trail_ok(m, t, h) ==> start <= t <= end,
        decreases end - start,
    {
        let middle = start + (end - start) / 2;
        let start_step = read_footer(medium, start);
        let middle_step = read_footer(medium, middle);
        if start_step > middle_step {
            proof {
                assert forall|t: int, h: int| #[trigger] trail_ok(m, t, h) implies start <= t <= middle by {
                    assert(footer(m, start as int) == trail_value(t, h, start as int));
                    assert(footer(m, middle as int) == trail_value(t, h, middle as int));
                }
            }
            end = middle;
        } else if start_step < middle_step {
            proof {
                assert forall|t: int, h: int| #[trigger] trail_ok(m, t, h) implies middle <= t <= end by {
                    assert(footer(m, start as int) == trail_value(t, h, start as int));
                    assert(footer(m, middle as int) == trail_value(t, h, middle as int));
                }
            }
            start = middle;
        } else {
            proof {
                assert forall|t: int, h: int| #[trigger] trail_ok(m, t, h) implies start == t by {
                    assert(footer(m, start as int) == trail_value(t, h, start as int));
                    assert(footer(m, middle as int) == trail_value(t, h, middle as int));
                }
                assert forall|t: int, h: int| #[trigger] trail_ok(m, t, h) implies
                    forall|i: int| 0 <= i < region() && i != start ==> footer(m, i) < footer(m, start as int) by {
                    lemma_head_is_max(m, t, h);
                }
            }
            return Ok(start);
        }
    }
    let start_step = read_footer(medium, start);
    let end_step = read_footer(medium, end);
    let found = if start_step > end_step { start } else { end };
    proof {
        assert forall|t: int, h: int| #[trigger] trail_ok(m, t, h) implies found == t by {
            assert(footer(m, start as int) == trail_value(t, h, start as int));
            assert(footer(m, end as int) == trail_value(t, h, end as int));
        }
        assert forall|t: int, h: int| #[trigger] trail_ok(m, t, h) implies
            forall|i: int| 0 <= i < region() && i != found ==> footer(m, i) < footer(m, found as int) by {
            lemma_head_is_max(m, t, h);
        }
    }
    Ok(found)
}

} // verus!
