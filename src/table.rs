//! The shifting table record and its encoding through a sector view.
use vstd::prelude::*;
use crate::codec::{le_value, le_bytes, lemma_le_bytes_len, lemma_le_unique, lemma_le_round_trip, lemma_pow256_8, encode_u64, decode_u64};
use crate::error::StfsError;
use crate::layout::{fits, lemma_phys, lemma_phys_monotone, DEFAULT_ACCESSES_PER_SHIFT, MAGIC_IDENTIFIER};
use crate::metadata_space::{MetadataSpace, view_read, view_write, lemma_read_after_write};

verus! {

/// Mathematical value of a table record.
pub struct TableModel {
    pub accesses_left: nat,
    pub accesses_per_shift: nat,
    pub table_size: nat,
    pub magic: nat,
    pub files_data: Seq<u8>,
}

/// The table record kept in the metadata region. `files_data` holds the
/// already encoded per-file metadata records, which this layer does not read.
pub struct ShiftingTable {
    /// Accesses still allowed before the table is shifted.
    pub accesses_left: u64,
    /// Value `accesses_left` is reset to after a shift.
    pub accesses_per_shift: u64,
    /// Number of 496-byte payload units that the encoded record spans.
    pub table_size: u64,
    /// Integrity sentinel.
    pub magic: u64,
    /// Encoded per-file metadata records.
    pub files_data: Vec<u8>,
}

impl View for ShiftingTable {
    type V = TableModel;

    open spec fn view(&self) -> TableModel {
        TableModel {
            accesses_left: self.accesses_left as nat,
            accesses_per_shift: self.accesses_per_shift as nat,
            table_size: self.table_size as nat,
            magic: self.magic as nat,
            files_data: self.files_data@,
        }
    }
}

/// Whether every number of the record fits the eight bytes it is stored in.
pub open spec fn model_fits(t: TableModel) -> bool {
    t.accesses_left <= u64::MAX && t.accesses_per_shift <= u64::MAX && t.table_size <= u64::MAX
        && t.magic <= u64::MAX && t.files_data.len() <= u64::MAX
}

/// The bytes of an encoded record: five little-endian 64-bit integers (the four
/// counters, then the length of `files_data`), followed by `files_data`.
pub open spec fn table_bytes(t: TableModel) -> Seq<u8> {
    le_bytes(t.accesses_left, 8) + le_bytes(t.accesses_per_shift, 8) + le_bytes(t.table_size, 8)
        + le_bytes(t.magic, 8) + le_bytes(t.files_data.len(), 8) + t.files_data
}

/// Length of the encoding of a record whose `files_data` has `files_len` bytes.
pub open spec fn encoded_len(files_len: nat) -> nat {
    40 + files_len
}

pub proof fn lemma_table_bytes_len(t: TableModel)
    ensures
        table_bytes(t).len() == encoded_len(t.files_data.len()),
{
    lemma_le_bytes_len(t.accesses_left, 8);
    lemma_le_bytes_len(t.accesses_per_shift, 8);
    lemma_le_bytes_len(t.table_size, 8);
    lemma_le_bytes_len(t.magic, 8);
    lemma_le_bytes_len(t.files_data.len(), 8);
}

/// Number of 496-byte payload units needed for `n` bytes.
pub open spec fn sectors_for(n: nat) -> nat {
    n / 496 + if n % 496 == 0 { 0nat } else { 1nat }
}

/// The `k`-th 64-bit header field of the record stored from sector `s`.
pub open spec fn field_at(m: Seq<u8>, s: int, k: int) -> nat {
    le_value(view_read(m, s, 8 * k, 8))
}

/// The record stored from sector `s`, where its bytes lie inside the medium.
pub open spec fn table_at(m: Seq<u8>, s: int) -> Option<TableModel> {
    if !fits(m.len() as int, s, 0, 40) {
        None
    } else if !fits(m.len() as int, s, 40, field_at(m, s, 4) as int) {
        None
    } else {
        Some(
            TableModel {
                accesses_left: field_at(m, s, 0),
                accesses_per_shift: field_at(m, s, 1),
                table_size: field_at(m, s, 2),
                magic: field_at(m, s, 3),
                files_data: view_read(m, s, 40, field_at(m, s, 4) as int),
            },
        )
    }
}

/// The record of a freshly formatted medium.
pub open spec fn fresh_table() -> TableModel {
    TableModel {
        accesses_left: DEFAULT_ACCESSES_PER_SHIFT as nat,
        accesses_per_shift: DEFAULT_ACCESSES_PER_SHIFT as nat,
        table_size: 1,
        magic: MAGIC_IDENTIFIER as nat,
        files_data: Seq::empty(),
    }
}

impl ShiftingTable {
    /// A fresh table: the default access budget, the magic sentinel, no files.
    pub fn new() -> (r: ShiftingTable)
        ensures
            r@ == fresh_table(),
    {
        let mut s = ShiftingTable {
            accesses_left: DEFAULT_ACCESSES_PER_SHIFT,
            accesses_per_shift: DEFAULT_ACCESSES_PER_SHIFT,
            table_size: 0,
            magic: MAGIC_IDENTIFIER,
            files_data: Vec::new(),
        };
        s.set_table_size();
        s
    }

    /// Sets `table_size` to the number of payload units the encoded record spans.
    pub fn set_table_size(&mut self)
        ensures
            final(self)@ == (TableModel { table_size: sectors_for(encoded_len(old(self)@.files_data.len())), ..old(self)@ }),
    {
        let n = self.encode().len();
        let units: usize = n / 496 + if n % 496 == 0 { 0 } else { 1 };
        self.table_size = units as u64;
    }

    /// The encoded record.
    pub fn encode(&self) -> (r: Vec<u8>)
        ensures
            r@ == table_bytes(self@),
            r@.len() == encoded_len(self@.files_data.len()),
    {
        let mut out = encode_u64(self.accesses_left);
        let mut b1 = encode_u64(self.accesses_per_shift);
        let mut b2 = encode_u64(self.table_size);
        let mut b3 = encode_u64(self.magic);
        let mut b4 = encode_u64(self.files_data.len() as u64);
        proof {
            lemma_le_unique(out@);
            lemma_le_unique(b1@);
            lemma_le_unique(b2@);
            lemma_le_unique(b3@);
            lemma_le_unique(b4@);
        }
        out.append(&mut b1);
        out.append(&mut b2);
        out.append(&mut b3);
        out.append(&mut b4);
        out.extend_from_slice(self.files_data.as_slice());
        proof {
            assert(out@ =~= table_bytes(self@));
        }
        out
    }
}

/// Reads one 64-bit field at the view's position.
fn read_field(view: &mut MetadataSpace, medium: &Vec<u8>) -> (r: Result<u64, StfsError>)
    ensures
        final(view).sector == old(view).sector,
        r is Ok <==> fits(medium@.len() as int, old(view).sector as int, old(view).offset as int, 8),
        r matches Ok(v) ==> v as nat == le_value(view_read(medium@, old(view).sector as int, old(view).offset as int, 8))
            && final(view).offset == old(view).offset + 8,
        r is Err ==> r == Err::<u64, StfsError>(StfsError::IoFailure),
{
    let mut buf: Vec<u8> = vec![0u8; 8];
    match view.read(medium, &mut buf) {
        Ok(_) => Ok(decode_u64(buf.as_slice())),
        Err(e) => Err(e),
    }
}

/// Writes `table` through a view anchored at sector `location`.
/// Fails, changing nothing, where the encoded record would reach past the medium.
pub fn write_table(medium: &mut Vec<u8>, location: u64, table: &ShiftingTable) -> (r: Result<(), StfsError>)
    ensures
        r is Ok <==> fits(old(medium)@.len() as int, location as int, 0, encoded_len(table@.files_data.len()) as int),
        r is Ok ==> final(medium)@ == view_write(old(medium)@, location as int, 0, table_bytes(table@)),
        r is Err ==> r == Err::<(), StfsError>(StfsError::IoFailure) && final(medium)@ == old(medium)@,
{
    let bytes = table.encode();
    let mut view = MetadataSpace::new(location);
    match view.write(medium, bytes.as_slice()) {
        Ok(_) => Ok(()),
        Err(e) => Err(e),
    }
}

/// Reads the table record stored from sector `location`.
/// Fails exactly where its bytes would reach past the medium.
pub fn read_table(medium: &Vec<u8>, location: u64) -> (r: Result<ShiftingTable, StfsError>)
    ensures
        r is Ok <==> table_at(medium@, location as int) is Some,
        r matches Ok(t) ==> table_at(medium@, location as int) == Some(t@),
        r is Err ==> r == Err::<ShiftingTable, StfsError>(StfsError::IoFailure),
{
    let ghost m = medium@;
    let ghost s = location as int;
    let mut view = MetadataSpace::new(location);
    proof {
        lemma_phys_monotone(s, 7, 39);
        lemma_phys_monotone(s, 15, 39);
        lemma_phys_monotone(s, 23, 39);
        lemma_phys_monotone(s, 31, 39);
    }
    let accesses_left = match read_field(&mut view, medium) {
        Ok(v) => v,
        Err(e) => return Err(e),
    };
    let accesses_per_shift = match read_field(&mut view, medium) {
        Ok(v) => v,
        Err(e) => return Err(e),
    };
    let table_size = match read_field(&mut view, medium) {
        Ok(v) => v,
        Err(e) => return Err(e),
    };
    let magic = match read_field(&mut view, medium) {
        Ok(v) => v,
        Err(e) => return Err(e),
    };
    let n = match read_field(&mut view, medium) {
        Ok(v) => v,
        Err(e) => return Err(e),
    };
    if n > medium.len() as u64 {
        proof {
            lemma_phys(s, 40 + n - 1);
        }
        return Err(StfsError::IoFailure);
    }
    let mut files_data: Vec<u8> = vec![0u8; n as usize];
    match view.read(medium, &mut files_data) {
        Ok(_) => {},
        Err(e) => return Err(e),
    }
    let t = ShiftingTable { accesses_left, accesses_per_shift, table_size, magic, files_data };
    Ok(t)
}

/// Reading a record back from where it was written gives the record itself.
pub proof fn lemma_table_round_trip(m: Seq<u8>, s: int, t: TableModel)
    requires
        s >= 0,
        model_fits(t),
        fits(m.len() as int, s, 0, encoded_len(t.files_data.len()) as int),
    ensures
        table_at(view_write(m, s, 0, table_bytes(t)), s) == Some(t),
{
    let b = table_bytes(t);
    let w = view_write(m, s, 0, b);
    lemma_pow256_8();
    lemma_le_round_trip(t.accesses_left, 8);
    lemma_le_round_trip(t.accesses_per_shift, 8);
    lemma_le_round_trip(t.table_size, 8);
    lemma_le_round_trip(t.magic, 8);
    lemma_le_round_trip(t.files_data.len(), 8);
    lemma_read_after_write(m, s, 0, b);
    let all = view_read(w, s, 0, b.len() as int);
    assert forall|o: int, len: int| 0 <= o && 0 <= len && o + len <= b.len() implies #[trigger] view_read(w, s, o, len) == b.subrange(o, o + len) by {
        assert forall|j: int| 0 <= j < len implies view_read(w, s, o, len)[j] == b.subrange(o, o + len)[j] by {
            assert(all[o + j] == b[o + j]);
        }
        assert(view_read(w, s, o, len) =~= b.subrange(o, o + len));
    }
    lemma_phys_monotone(s, 39, b.len() - 1);
    assert(b.subrange(0, 8) =~= le_bytes(t.accesses_left, 8));
    assert(b.subrange(8, 16) =~= le_bytes(t.accesses_per_shift, 8));
    assert(b.subrange(16, 24) =~= le_bytes(t.table_size, 8));
    assert(b.subrange(24, 32) =~= le_bytes(t.magic, 8));
    assert(b.subrange(32, 40) =~= le_bytes(t.files_data.len(), 8));
    assert(b.subrange(40, 40 + t.files_data.len() as int) =~= t.files_data);
    assert(view_read(w, s, 0, 8) == b.subrange(0, 8));
    assert(view_read(w, s, (8 * 1) as int, 8) == b.subrange(8, 16));
    assert(view_read(w, s, (8 * 2) as int, 8) == b.subrange(16, 24));
    assert(view_read(w, s, (8 * 3) as int, 8) == b.subrange(24, 32));
    assert(view_read(w, s, (8 * 4) as int, 8) == b.subrange(32, 40));
    assert(view_read(w, s, 40, t.files_data.len() as int) == b.subrange(40, 40 + t.files_data.len() as int));
}

} // verus!
