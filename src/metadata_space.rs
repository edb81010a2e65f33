//! A view over the metadata region that hides the trail footer of every
//! sector: its payload bytes form one contiguous logical stream.
use vstd::prelude::*;
use crate::error::StfsError;
use crate::layout::{phys, in_view, logical, fits, is_footer, lemma_phys, lemma_logical, lemma_phys_next, lemma_phys_monotone};

verus! {

/// The medium after writing `b` at logical offset `o` of the view that starts at sector `s`.
pub open spec fn view_write(m: Seq<u8>, s: int, o: int, b: Seq<u8>) -> Seq<u8> {
    Seq::new(
        m.len(),
        |x: int|
            if in_view(s, x) && o <= logical(s, x) < o + b.len() {
                b[logical(s, x) - o]
            } else {
                m[x]
            },
    )
}

/// The `len` payload bytes at logical offset `o` of the view that starts at sector `s`.
pub open spec fn view_read(m: Seq<u8>, s: int, o: int, len: int) -> Seq<u8> {
    Seq::new(len as nat, |j: int| m[phys(s, o + j)])
}

/// Reading back through a view at the sector and offset of a write returns
/// exactly the bytes written, however many footers lie between them.
pub proof fn lemma_read_after_write(m: Seq<u8>, s: int, o: int, b: Seq<u8>)
    requires
        s >= 0,
        o >= 0,
        fits(m.len() as int, s, o, b.len() as int),
    ensures
        view_read(view_write(m, s, o, b), s, o, b.len() as int) == b,
{
    let w = view_write(m, s, o, b);
    assert forall|j: int| 0 <= j < b.len() implies #[trigger] w[phys(s, o + j)] == b[j] by {
        lemma_phys(s, o + j);
        lemma_phys_monotone(s, o + j, o + b.len() - 1);
    }
    assert(view_read(w, s, o, b.len() as int) =~= b);
}

/// A write through a view leaves every footer byte of the medium as it was.
pub proof fn lemma_write_keeps_footers(m: Seq<u8>, s: int, o: int, b: Seq<u8>)
    ensures
        view_write(m, s, o, b).len() == m.len(),
        forall|x: int| 0 <= x < m.len() && is_footer(x) ==> #[trigger] view_write(m, s, o, b)[x] == m[x],
{
}

/// A cursor over the payload bytes of the medium from sector `sector` on.
/// `offset` counts the payload bytes already transferred.
pub struct MetadataSpace {
    pub sector: u64,
    pub offset: u64,
}

/// Physical offset of payload byte `k` counted from sector `s`, or `None`
/// where it lies at or past `mlen`.
fn phys_within(s: u64, k: u64, mlen: usize) -> (r: Option<usize>)
    ensures
        r matches Some(p) ==> p as int == phys(s as int, k as int) && p < mlen,
        r is None ==> phys(s as int, k as int) >= mlen,
{
    let p: u128 = s as u128 * 512 + (k as u128 / 496) * 512 + k as u128 % 496;
    if p < mlen as u128 {
        Some(p as usize)
    } else {
        None
    }
}

impl MetadataSpace {
    /// A view whose logical position 0 is byte 0 of sector `location`.
    pub fn new(location: u64) -> (r: MetadataSpace)
        ensures
            r.sector == location,
            r.offset == 0,
    {
        MetadataSpace { sector: location, offset: 0 }
    }

    /// Writes all of `buf` at the view's position, skipping every footer.
    /// Fails, changing nothing, where the payload bytes would reach past the medium.
    pub fn write(&mut self, medium: &mut Vec<u8>, buf: &[u8]) -> (r: Result<usize, StfsError>)
        ensures
            final(self).sector == old(self).sector,
            r is Ok <==> fits(old(medium)@.len() as int, old(self).sector as int, old(self).offset as int, buf@.len() as int),
            r matches Ok(n) ==> n == buf@.len()
                && final(self).offset == old(self).offset + buf@.len()
                && final(medium)@ == view_write(old(medium)@, old(self).sector as int, old(self).offset as int, buf@),
            r is Err ==> r == Err::<usize, StfsError>(StfsError::IoFailure) && *final(self) == *old(self) && final(medium)@ == old(medium)@,
    {
        let s = self.sector;
        let o = self.offset;
        let n = buf.len();
        let mlen = medium.len();
        if n == 0 {
            proof {
                assert(view_write(medium@, s as int, o as int, buf@) =~= medium@);
            }
            return Ok(0);
        }
        let last = (o as u128) + (n as u128) - 1;
        if last > u64::MAX as u128 {
            proof {
                lemma_phys(s as int, last as int);
            }
            return Err(StfsError::IoFailure);
        }
        if phys_within(s, last as u64, mlen).is_none() {
            return Err(StfsError::IoFailure);
        }
        let ghost m0 = medium@;
        let mut p: usize = match phys_within(s, o, mlen) {
            Some(p) => p,
            None => {
                proof {
                    lemma_phys_monotone(s as int, o as int, last as int);
                }
                return Err(StfsError::IoFailure);
            },
        };
        let mut j: usize = 0;
        while j < n
            invariant
                n == buf@.len(),
                n > 0,
                o + n - 1 <= u64::MAX,
                phys(s as int, o + n - 1) < m0.len(),
                medium@.len() == m0.len(),
                m0.len() == mlen,
                j <= n,
                j < n ==> p == phys(s as int, o + j),
                forall|x: int|
                    0 <= x < m0.len() ==> medium@[x] == (if in_view(s as int, x) && o <= logical(s as int, x) < o + j {
                        buf@[logical(s as int, x) - o]
                    } else {
                        m0[x]
                    }),
            decreases n - j,
        {
            proof {
                lemma_phys_monotone(s as int, o + j, o + n - 1);
                lemma_phys(s as int, o + j);
            }
            let ghost pj = p as int;
            let ghost old_m = medium@;
            medium[p] = buf[j];
            j = j + 1;
            proof {
                assert(medium@ == old_m.update(pj, buf@[j - 1]));
                assert forall|x: int| 0 <= x < m0.len() implies medium@[x] == (if in_view(s as int, x) && o <= logical(s as int, x) < o + j {
                    buf@[logical(s as int, x) - o]
                } else {
                    m0[x]
                }) by {
                    if in_view(s as int, x) {
                        lemma_logical(s as int, x);
                    }
                }
            }
            if j < n {
                proof {
                    lemma_phys_next(s as int, o + j - 1);
                    lemma_phys_monotone(s as int, o + j, o + n - 1);
                }
                p = p + 1;
                assert(p == pj + 1);
                if p % 512 == 496 {
                    p = p + 16;
                }
            }
        }
        proof {
            lemma_phys(s as int, o + n - 1);
            assert(medium@ =~= view_write(m0, s as int, o as int, buf@));
        }
        self.offset = o + n as u64;
        Ok(n)
    }
    /// Fills `buf` from the view's position, skipping every footer.
    /// Fails, changing nothing, where the payload bytes would reach past the medium.
    pub fn read(&mut self, medium: &Vec<u8>, buf: &mut Vec<u8>) -> (r: Result<usize, StfsError>)
        ensures
            final(self).sector == old(self).sector,
            final(buf)@.len() == old(buf)@.len(),
            r is Ok <==> fits(medium@.len() as int, old(self).sector as int, old(self).offset as int, old(buf)@.len() as int),
            r matches Ok(n) ==> n == old(buf)@.len()
                && final(self).offset == old(self).offset + old(buf)@.len()
                && final(buf)@ == view_read(medium@, old(self).sector as int, old(self).offset as int, old(buf)@.len() as int),
            r is Err ==> r == Err::<usize, StfsError>(StfsError::IoFailure) && *final(self) == *old(self) && final(buf)@ == old(buf)@,
    {
        let s = self.sector;
        let o = self.offset;
        let n = buf.len();
        let mlen = medium.len();
        if n == 0 {
            proof {
                assert(view_read(medium@, s as int, o as int, 0) =~= buf@);
            }
            return Ok(0);
        }
        let last = (o as u128) + (n as u128) - 1;
        if last > u64::MAX as u128 {
            proof {
                lemma_phys(s as int, last as int);
            }
            return Err(StfsError::IoFailure);
        }
        if phys_within(s, last as u64, mlen).is_none() {
            return Err(StfsError::IoFailure);
        }
        let mut p: usize = match phys_within(s, o, mlen) {
            Some(p) => p,
            None => {
                proof {
                    lemma_phys_monotone(s as int, o as int, last as int);
                }
                return Err(StfsError::IoFailure);
            },
        };
        let mut j: usize = 0;
        while j < n
            invariant
                n == buf@.len(),
                n > 0,
                o + n - 1 <= u64::MAX,
                phys(s as int, o + n - 1) < mlen,
                medium@.len() == mlen,
                j <= n,
                j < n ==> p == phys(s as int, o + j),
                forall|i: int| 0 <= i < j ==> buf@[i] == medium@[phys(s as int, o + i)],
            decreases n - j,
        {
            proof {
                lemma_phys_monotone(s as int, o + j, o + n - 1);
                lemma_phys(s as int, o + j);
            }
            let ghost pj = p as int;
            buf[j] = medium[p];
            j = j + 1;
            if j < n {
                proof {
                    lemma_phys_next(s as int, o + j - 1);
                    lemma_phys_monotone(s as int, o + j, o + n - 1);
                }
                p = p + 1;
                if p % 512 == 496 {
                    p = p + 16;
                }
            }
        }
        proof {
            lemma_phys(s as int, o + n - 1);
            assert(buf@ =~= view_read(medium@, s as int, o as int, n as int));
        }
        self.offset = o + n as u64;
        Ok(n)
    }
}

} // verus!
