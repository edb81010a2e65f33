//! A mounted medium: the table's sector is kept in memory, every access of the
//! table is counted, and the table moves one sector on when its budget runs out.
use vstd::prelude::*;
use crate::error::StfsError;
use crate::layout::{lemma_fits_in_units, METADATA_SPACE_SIZE, MAGIC_IDENTIFIER};
use crate::locator::search;
use crate::metadata_space::view_write;
use crate::table::{ShiftingTable, TableModel, read_table, write_table, table_at, table_bytes, encoded_len,
    sectors_for, lemma_table_round_trip, lemma_table_bytes_len};
use crate::trail::{region, footer, trail_ok, trail_value, zeroed, stamped, read_footer, write_footer, zero_payload,
    lemma_footer_zeroed, lemma_footer_stamped, lemma_footer_view_write};

verus! {

/// Whether a record read from sector `t` may be accessed and shifted: the
/// sentinel is in place, the access count lies in `[1, accesses_per_shift]`,
/// `table_size` is the number of payload units of the encoding, and the
/// table ends inside the metadata region.
pub open spec fn table_ok(tb: TableModel, t: int) -> bool {
    &&& tb.magic == MAGIC_IDENTIFIER as nat
    &&& 1 <= tb.accesses_left <= tb.accesses_per_shift
    &&& tb.table_size == sectors_for(encoded_len(tb.files_data.len()))
    &&& t + tb.table_size <= region()
}

/// Whether shifting the table at sector `t` wraps it round to sector 0.
pub open spec fn is_wrap(t: int, table_size: int) -> bool {
    t + table_size >= region()
}

/// The table's sector after a shift from sector `t`.
pub open spec fn new_location(t: int, table_size: int) -> int {
    if is_wrap(t, table_size) { 0 } else { t + 1 }
}

/// The trail value stamped on the new head by a shift from sector `t` whose footer held `cur`.
pub open spec fn new_head(t: int, table_size: int, cur: int) -> int {
    if is_wrap(t, table_size) { cur + region() - t } else { cur + 1 }
}

/// The medium after the sectors `t + 1 .. j` have had their payload zeroed and
/// their footers continue the trail from `cur` at sector `t`.
pub open spec fn wrap_filled(m: Seq<u8>, t: int, cur: int, j: int) -> Seq<u8>
    decreases j - t,
{
    if j <= t + 1 {
        m
    } else {
        stamped(zeroed(wrap_filled(m, t, cur, j - 1), j - 1), j - 1, (cur + (j - 1) - t) as nat)
    }
}

/// The medium after the table `tb` at sector `t` has been shifted.
pub open spec fn shifted(m: Seq<u8>, t: int, tb: TableModel) -> Seq<u8> {
    let ts = tb.table_size as int;
    let cur = footer(m, t) as int;
    let cleared = zeroed(m, t);
    let filled = if is_wrap(t, ts) { wrap_filled(cleared, t, cur, region()) } else { cleared };
    let nl = new_location(t, ts);
    stamped(view_write(filled, nl, 0, table_bytes(tb)), nl, new_head(t, ts, cur) as nat)
}

/// The record with `accesses_left` replaced.
pub open spec fn with_accesses_left(tb: TableModel, n: nat) -> TableModel {
    TableModel { accesses_left: n, ..tb }
}

pub proof fn lemma_wrap_filled(m: Seq<u8>, t: int, cur: int, j: int)
    requires
        0 <= t < j <= region(),
        m.len() >= region() * 512,
        cur + region() <= u128::MAX,
        cur >= 0,
    ensures
        wrap_filled(m, t, cur, j).len() == m.len(),
        forall|i: int| 0 <= i < region() ==> #[trigger] footer(wrap_filled(m, t, cur, j), i)
            == if t < i < j { cur + i - t } else { footer(m, i) as int },
    decreases j - t,
{
    if j > t + 1 {
        lemma_wrap_filled(m, t, cur, j - 1);
        let prev = wrap_filled(m, t, cur, j - 1);
        assert forall|i: int| 0 <= i < region() implies #[trigger] footer(wrap_filled(m, t, cur, j), i)
            == if t < i < j { cur + i - t } else { footer(m, i) as int } by {
            lemma_footer_zeroed(prev, j - 1, i);
            lemma_footer_stamped(zeroed(prev, j - 1), j - 1, (cur + (j - 1) - t) as nat, i);
        }
    }
}

/// A shift keeps the trail well formed: its head moves to the table's new
/// sector and carries the largest value.
pub proof fn lemma_shift_keeps_trail(m: Seq<u8>, t: int, h: int, tb: TableModel)
    requires
        trail_ok(m, t, h),
        table_ok(tb, t),
        h + region() <= u128::MAX,
    ensures
        shifted(m, t, tb).len() == m.len(),
        trail_ok(shifted(m, t, tb), new_location(t, tb.table_size as int), new_head(t, tb.table_size as int, h)),
{
    let ts = tb.table_size as int;
    let cur = footer(m, t) as int;
    assert(cur == h) by {
        assert(footer(m, t) == trail_value(t, h, t));
    }
    let cleared = zeroed(m, t);
    let filled = if is_wrap(t, ts) { wrap_filled(cleared, t, cur, region()) } else { cleared };
    let nl = new_location(t, ts);
    let nh = new_head(t, ts, cur);
    let written = view_write(filled, nl, 0, table_bytes(tb));
    lemma_wrap_filled(cleared, t, cur, region());
    let r = shifted(m, t, tb);
    assert forall|i: int| 0 <= i < region() implies #[trigger] footer(r, i) == trail_value(nl, nh, i) by {
        lemma_footer_zeroed(m, t, i);
        lemma_footer_view_write(filled, nl, 0, table_bytes(tb), i);
        lemma_footer_stamped(written, nl, nh as nat, i);
        assert(footer(m, i) == trail_value(t, h, i));
    }
}

/// A mounted medium and the sector that holds its table.
pub struct Stfs {
    pub medium: Vec<u8>,
    pub table_location: u64,
}

impl Stfs {
    /// Whether the medium covers the metadata region and the cached sector lies in it.
    pub open spec fn wf(&self) -> bool {
        &&& self.table_location < METADATA_SPACE_SIZE
        &&& self.medium@.len() >= region() * 512
    }

    /// The sector that holds the table.
    pub fn get_table_location(&self) -> (r: u64)
        ensures
            r == self.table_location,
    {
        self.table_location
    }

    /// Records `location` as the sector that holds the table.
    pub fn set_table_location(&mut self, location: u64)
        requires
            location < METADATA_SPACE_SIZE,
        ensures
            final(self).table_location == location,
            final(self).medium@ == old(self).medium@,
    {
        self.table_location = location;
    }

    /// Moves the table one sector on, wrapping round to sector 0 where the
    /// table would otherwise pass the end of the metadata region, and extends
    /// the trail so that the new head carries the largest value.
    /// Fails, changing nothing, where the table cannot be read, is not well
    /// formed, or the trail would pass the largest 128-bit value.
    pub fn shift_table(&mut self) -> (r: Result<(), StfsError>)
        requires
            old(self).wf(),
        ensures
            final(self).wf(),
            ({
                let m = old(self).medium@;
                let t = old(self).table_location as int;
                match table_at(m, t) {
                    None => r == Err::<(), StfsError>(StfsError::IoFailure) && *final(self) == *old(self),
                    Some(tb) => if !table_ok(tb, t) || footer(m, t) + region() > u128::MAX {
                        r == Err::<(), StfsError>(StfsError::Corruption) && *final(self) == *old(self)
                    } else {
                        &&& r is Ok
                        &&& final(self).medium@ == shifted(m, t, tb)
                        &&& final(self).table_location == new_location(t, tb.table_size as int)
                    },
                }
            }),
    {
        let t = self.table_location;
        let table = match read_table(&self.medium, t) {
            Ok(tb) => tb,
            Err(e) => return Err(e),
        };
        if !table_well_formed(&table, t) {
            return Err(StfsError::Corruption);
        }
        let current_trail = read_footer(&self.medium, t);
        if current_trail > u128::MAX - (METADATA_SPACE_SIZE as u128) {
            return Err(StfsError::Corruption);
        }
        let ghost m = self.medium@;
        let ghost tb = table@;
        proof {
            lemma_table_bytes_len(tb);
            lemma_units_cover(tb);
        }
        zero_payload(&mut self.medium, t);
        let ghost cleared = self.medium@;
        let wrap = table.table_size >= METADATA_SPACE_SIZE - t;
        let new_loc: u64;
        let last_trail: u128;
        if wrap {
            let mut i: u64 = t + 1;
            while i < METADATA_SPACE_SIZE
                invariant
                    t < i <= METADATA_SPACE_SIZE,
                    cleared.len() >= region() * 512,
                    current_trail + METADATA_SPACE_SIZE <= u128::MAX,
                    self.medium@ == wrap_filled(cleared, t as int, current_trail as int, i as int),
                    self.medium@.len() == cleared.len(),
                decreases METADATA_SPACE_SIZE - i,
            {
                let ghost before = self.medium@;
                zero_payload(&mut self.medium, i);
                write_footer(&mut self.medium, i, current_trail + (i - t) as u128);
                proof {
                    assert(self.medium@ == stamped(zeroed(before, i as int), i as int, (current_trail + i - t) as nat));
                }
                i = i + 1;
            }
            new_loc = 0;
            last_trail = current_trail + (METADATA_SPACE_SIZE - t) as u128;
        } else {
            new_loc = t + 1;
            last_trail = current_trail + 1;
        }
        let ghost filled = self.medium@;
        proof {
            lemma_fits_in_units(new_loc as int, tb.table_size as int, encoded_len(tb.files_data.len()) as int, filled.len() as int);
        }
        let written = write_table(&mut self.medium, new_loc, &table);
        if written.is_err() {
            return Err(StfsError::IoFailure);
        }
        write_footer(&mut self.medium, new_loc, last_trail);
        self.table_location = new_loc;
        Ok(())
    }

    /// Counts one access of the table: reads it, takes one from its access
    /// count, shifts the table and restores the count where it reaches zero,
    /// and writes the table back at its (possibly new) sector.
    /// Fails, changing nothing, where the table cannot be read or is not well
    /// formed, or the shift fails.
    pub fn access(&mut self) -> (r: Result<(), StfsError>)
        requires
            old(self).wf(),
        ensures
            final(self).wf(),
            ({
                let m = old(self).medium@;
                let t = old(self).table_location as int;
                match table_at(m, t) {
                    None => r == Err::<(), StfsError>(StfsError::IoFailure) && *final(self) == *old(self),
                    Some(tb) => if !table_ok(tb, t) || (tb.accesses_left == 1 && footer(m, t) + region() > u128::MAX) {
                        r == Err::<(), StfsError>(StfsError::Corruption) && *final(self) == *old(self)
                    } else if tb.accesses_left == 1 {
                        let nl = new_location(t, tb.table_size as int);
                        let after = with_accesses_left(tb, tb.accesses_per_shift);
                        &&& r is Ok
                        &&& final(self).table_location == nl
                        &&& final(self).medium@ == view_write(shifted(m, t, tb), nl, 0, table_bytes(after))
                        &&& table_at(final(self).medium@, nl) == Some(after)
                        &&& forall|h: int| trail_ok(m, t, h) ==> #[trigger] trail_ok(final(self).medium@, nl, new_head(t, tb.table_size as int, h))
                    } else {
                        let after = with_accesses_left(tb, (tb.accesses_left - 1) as nat);
                        &&& r is Ok
                        &&& final(self).table_location == t
                        &&& final(self).medium@ == view_write(m, t, 0, table_bytes(after))
                        &&& table_at(final(self).medium@, t) == Some(after)
                        &&& forall|h: int| #[trigger] trail_ok(m, t, h) ==> trail_ok(final(self).medium@, t, h)
                    },
                }
            }),
            r is Ok ==> (table_at(final(self).medium@, final(self).table_location as int) matches Some(tb)
                && 0 < tb.accesses_left <= tb.accesses_per_shift),
    {
        let t = self.table_location;
        let ghost m = self.medium@;
        let mut table = match read_table(&self.medium, t) {
            Ok(tb) => tb,
            Err(e) => return Err(e),
        };
        let ghost tb = table@;
        if !table_well_formed(&table, t) {
            return Err(StfsError::Corruption);
        }
        table.accesses_left = table.accesses_left - 1;
        if table.accesses_left == 0 {
            match self.shift_table() {
                Ok(()) => {},
                Err(e) => return Err(e),
            }
            table.accesses_left = table.accesses_per_shift;
        }
        let nl = self.table_location;
        let ghost before = self.medium@;
        proof {
            lemma_table_bytes_len(table@);
            lemma_units_cover(tb);
            lemma_fits_in_units(nl as int, tb.table_size as int, encoded_len(tb.files_data.len()) as int, before.len() as int);
            lemma_table_round_trip(before, nl as int, table@);
            assert forall|h: int| #[trigger] trail_ok(m, t as int, h) implies trail_ok(
                view_write(before, nl as int, 0, table_bytes(table@)),
                nl as int,
                if tb.accesses_left == 1 { new_head(t as int, tb.table_size as int, h) } else { h },
            ) by {
                let h2 = if tb.accesses_left == 1 { new_head(t as int, tb.table_size as int, h) } else { h };
                if tb.accesses_left == 1 {
                    assert(footer(m, t as int) == trail_value(t as int, h, t as int));
                    lemma_shift_keeps_trail(m, t as int, h, tb);
                }
                assert forall|i: int| 0 <= i < region() implies #[trigger] footer(view_write(before, nl as int, 0, table_bytes(table@)), i)
                    == trail_value(nl as int, h2, i) by {
                    lemma_footer_view_write(before, nl as int, 0, table_bytes(table@), i);
                }
            }
        }
        let written = write_table(&mut self.medium, nl, &table);
        if written.is_err() {
            return Err(StfsError::IoFailure);
        }
        Ok(())
    }
}

/// Whether `table`, read from sector `t`, satisfies [`table_ok`].
fn table_well_formed(table: &ShiftingTable, t: u64) -> (r: bool)
    requires
        t < METADATA_SPACE_SIZE,
    ensures
        r == table_ok(table@, t as int),
{
    let n = table.files_data.len();
    if n > usize::MAX - 40 {
        return false;
    }
    let len = 40 + n;
    let units: usize = len / 496 + if len % 496 == 0 { 0 } else { 1 };
    table.magic == MAGIC_IDENTIFIER
        && 1 <= table.accesses_left
        && table.accesses_left <= table.accesses_per_shift
        && table.table_size == units as u64
        && table.table_size <= METADATA_SPACE_SIZE - t
}

/// The payload units that `table_size` counts hold the whole encoding.
proof fn lemma_units_cover(tb: TableModel)
    ensures
        tb.table_size == sectors_for(encoded_len(tb.files_data.len())) ==> encoded_len(tb.files_data.len()) <= tb.table_size * 496,
{
    let n = encoded_len(tb.files_data.len()) as int;
    vstd::arithmetic::div_mod::lemma_fundamental_div_mod(n, 496);
}

/// Mounts a medium: finds the table's sector by searching the trail.
/// Fails only where the medium is shorter than the metadata region.
pub fn initialise(medium: Vec<u8>) -> (r: Result<Stfs, StfsError>)
    ensures
        r is Err <==> medium@.len() < region() * 512,
        r is Err ==> r == Err::<Stfs, StfsError>(StfsError::IoFailure),
        r matches Ok(st) ==> st.wf() && st.medium@ == medium@
            && forall|t: int, h: int| #[trigger] trail_ok(medium@, t, h) ==> st.table_location == t,
{
    match search(&medium) {
        Ok(location) => Ok(Stfs { medium, table_location: location }),
        Err(e) => Err(e),
    }
}

} // verus!
