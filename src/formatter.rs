//! Laying down the initial trail and an empty table on a blank medium.
use vstd::prelude::*;
use crate::error::StfsError;
use crate::layout::{is_footer, in_view, logical, phys, lemma_logical, METADATA_SPACE_SIZE};
use crate::table::{ShiftingTable, write_table, table_at, fresh_table, encoded_len, lemma_table_round_trip, lemma_table_bytes_len};
use crate::trail::{region, footer, trail_ok, trail_value, write_footer, lemma_footer_stamped, lemma_footer_view_write};
use crate::metadata_space::view_write;

verus! {

proof fn lemma_in_footer(j: int, x: int)
    requires
        j * 512 + 496 <= x < j * 512 + 512,
    ensures
        is_footer(x),
{
    assert(is_footer(x)) by (nonlinear_arith)
        requires j * 512 + 496 <= x < j * 512 + 512, is_footer(x) == (x % 512 >= 496);
}

/// Formats the medium: the footers of the metadata region read
/// `[METADATA_SPACE_SIZE, 1, 2, ..., METADATA_SPACE_SIZE - 1]` and a fresh table
/// is written at sector 0. Fails, changing nothing, where the medium has no
/// more whole sectors than the metadata region.
pub fn format(medium: &mut Vec<u8>) -> (r: Result<(), StfsError>)
    ensures
        r is Err <==> old(medium)@.len() / 512 <= region(),
        r is Err ==> r == Err::<(), StfsError>(StfsError::MediumTooSmall) && final(medium)@ == old(medium)@,
        r is Ok ==> final(medium)@.len() == old(medium)@.len(),
        r is Ok ==> trail_ok(final(medium)@, 0, region()),
        r is Ok ==> forall|i: int| 0 <= i < region() ==> footer(final(medium)@, i) == if i == 0 { region() } else { i },
        r is Ok ==> table_at(final(medium)@, 0) == Some(fresh_table()),
        r is Ok ==> forall|x: int| 0 <= x < old(medium)@.len() && (x >= region() * 512 || (!is_footer(x) && x >= encoded_len(0)))
            ==> #[trigger] final(medium)@[x] == old(medium)@[x],
{
    let sector_count = medium.len() / 512;
    if sector_count <= METADATA_SPACE_SIZE as usize {
        return Err(StfsError::MediumTooSmall);
    }
    let ghost m0 = medium@;
    let mut i: u64 = 0;
    while i < METADATA_SPACE_SIZE
        invariant
            m0.len() >= region() * 512,
            medium@.len() == m0.len(),
            i <= METADATA_SPACE_SIZE,
            forall|j: int| 0 <= j < i ==> #[trigger] footer(medium@, j) == j,
            forall|x: int| 0 <= x < m0.len() && (x >= i * 512 || !is_footer(x)) ==> #[trigger] medium@[x] == m0[x],
        decreases METADATA_SPACE_SIZE - i,
    {
        let ghost before = medium@;
        write_footer(medium, i, i as u128);
        proof {
            assert forall|j: int| 0 <= j < i + 1 implies #[trigger] footer(medium@, j) == j by {
                lemma_footer_stamped(before, i as int, i as nat, j);
            }
            assert forall|x: int| 0 <= x < m0.len() && (x >= (i + 1) * 512 || !is_footer(x)) implies #[trigger] medium@[x] == m0[x] by {
                if i * 512 + 496 <= x < i * 512 + 512 {
                    lemma_in_footer(i as int, x);
                } else {
                    assert(medium@[x] == before[x]);
                    assert(x >= i * 512 || !is_footer(x));
                    assert(before[x] == m0[x]);
                }
            }
        }
        i = i + 1;
    }
    let ghost before = medium@;
    write_footer(medium, 0, METADATA_SPACE_SIZE as u128);
    let ghost stamped_trail = medium@;
    proof {
        assert forall|j: int| 0 <= j < region() implies #[trigger] footer(stamped_trail, j) == trail_value(0, region(), j) by {
            lemma_footer_stamped(before, 0, region() as nat, j);
        }
        assert forall|x: int| 0 <= x < m0.len() && (x >= region() * 512 || !is_footer(x)) implies #[trigger] stamped_trail[x] == m0[x] by {
            if 496 <= x < 512 {
                lemma_in_footer(0, x);
            }
        }
    }
    let table = ShiftingTable::new();
    let written = write_table(medium, 0, &table);
    proof {
        assert(phys(0, 39) == 39);
        lemma_table_bytes_len(table@);
        lemma_table_round_trip(stamped_trail, 0, table@);
        assert forall|j: int| 0 <= j < region() implies #[trigger] footer(medium@, j) == trail_value(0, region(), j) by {
            lemma_footer_view_write(stamped_trail, 0, 0, crate::table::table_bytes(table@), j);
        }
        assert forall|x: int| 0 <= x < m0.len() && (x >= region() * 512 || (!is_footer(x) && x >= encoded_len(0)))
            implies #[trigger] medium@[x] == m0[x] by {
            if in_view(0, x) && logical(0, x) < 40 {
                lemma_logical(0, x);
                assert(logical(0, x) / 496 == 0);
                assert(logical(0, x) % 496 == logical(0, x));
                assert(x < 40);
            }
            assert(medium@[x] == stamped_trail[x]);
        }
    }
    match written {
        Ok(()) => Ok(()),
        Err(e) => Err(e),
    }
}

} // verus!
