//! The cursor reader: an owned byte buffer, a read position, and typed
//! decode operations under a selectable byte order.

use vstd::prelude::*;

use crate::endian::Endian;
use crate::endian::as_signed;
use crate::endian::be_i16;
use crate::endian::be_i32;
use crate::endian::be_i64;
use crate::endian::be_u16;
use crate::endian::be_u32;
use crate::endian::be_u64;
use crate::endian::lemma_le_is_be_reversed;
use crate::endian::lemma_pow256_values;
use crate::endian::sint_of;
use crate::endian::uint_of;

verus! {

/// The smallest multiple of `b` that is at least `p`, by the rounding formula
/// the reader's `align` uses.
pub open spec fn align_up(p: int, b: int) -> int
    recommends
        0 <= p,
        0 < b,
{
    ((p + b - 1) / b) * b
}

/// What `align_up` yields: a multiple of the boundary, at least the starting
/// position, the smallest such multiple, and a fixed point of another
/// `align_up` by the same boundary.
pub proof fn lemma_align_up(p: int, b: int)
    requires
        0 <= p,
        0 < b,
    ensures
        align_up(p, b) % b == 0,
        p <= align_up(p, b) < p + b,
        forall|m: int| #[trigger] (m % b) == 0 && p <= m ==> align_up(p, b) <= m,
        align_up(align_up(p, b), b) == align_up(p, b),
{
    let q = (p + b - 1) / b;
    vstd::arithmetic::div_mod::lemma_fundamental_div_mod(p + b - 1, b);
    vstd::arithmetic::div_mod::lemma_mod_division_less_than_divisor(p + b - 1, b);
    assert(q * b == b * q) by (nonlinear_arith);
    assert(p <= q * b < p + b);
    vstd::arithmetic::div_mod::lemma_mod_multiples_basic(q, b);
    vstd::arithmetic::div_mod::lemma_fundamental_div_mod_converse_div(q * b + b - 1, b, q, b - 1);
    assert(align_up(align_up(p, b), b) == align_up(p, b));
    assert forall|m: int| #[trigger] (m % b) == 0 && p <= m implies align_up(p, b) <= m by {
        let k = m / b;
        vstd::arithmetic::div_mod::lemma_fundamental_div_mod(m, b);
        assert(q <= k) by (nonlinear_arith)
            requires
                m == b * k,
                p <= m,
                b * q <= p + b - 1,
                p + b - 1 < b * q + b,
                0 < b,
        ;
        assert(b * q <= b * k) by (nonlinear_arith)
            requires
                q <= k,
                0 < b,
        ;
    }
}

/// The index of the first 0x00 byte of `d` at or after `p`, or `d.len()` if
/// there is none.
pub open spec fn first_zero(d: Seq<u8>, p: int) -> int
    recommends
        0 <= p,
    decreases d.len() - p,
{
    if p >= d.len() {
        d.len() as int
    } else if d[p] == 0 {
        p
    } else {
        first_zero(d, p + 1)
    }
}

/// What `first_zero` yields: an in-range index of a 0x00 byte preceded by no
/// other from `p` on, or the buffer's length when every byte from `p` on is
/// nonzero.
pub proof fn lemma_first_zero(d: Seq<u8>, p: int)
    requires
        0 <= p,
    ensures
        first_zero(d, p) <= d.len(),
        p <= d.len() ==> p <= first_zero(d, p),
        first_zero(d, p) < d.len() ==> d[first_zero(d, p)] == 0,
        forall|j: int| p <= j < first_zero(d, p) ==> d[j] != 0,
    decreases d.len() - p,
{
    if p < d.len() && d[p] != 0 {
        lemma_first_zero(d, p + 1);
    }
}

/// The characters of `b` decoded as UTF-8, or `None` where `b` is not valid
/// UTF-8. They are a function of the bytes alone.
pub uninterp spec fn utf8_decoded(b: Seq<u8>) -> Option<Seq<char>>;

/// Relies on std's String::from_utf8: it returns the text decoded from the
/// bytes if and only if they are valid UTF-8, and both the validity and the
/// characters depend on the bytes alone.
#[verifier::external_body]
fn bytes_to_string(v: Vec<u8>) -> (r: Option<String>)
    ensures
        (match r {
            Some(s) => utf8_decoded(v@) == Some(s@),
            None => utf8_decoded(v@) is None,
        }),
{
    match String::from_utf8(v) {
        Ok(s) => Some(s),
        Err(_) => None,
    }
}

/// Why a decode operation failed.
#[derive(Clone, Copy, PartialEq, Eq, Structural, Debug)]
pub enum ReadError {
    /// The requested read extends past the end of the buffer.
    OutOfRange,
    /// No 0x00 terminator was found between the current position and the end
    /// of the buffer.
    Unterminated,
    /// The bytes before the terminator are not valid UTF-8.
    InvalidUtf8,
}

/// A sequential reader over an in-memory byte buffer.
///
/// The buffer is fixed at construction; `pos` is the offset the next read
/// starts from, and is advanced by every read by exactly the number of bytes
/// requested, whether or not the read was in bounds. `length` caches the
/// buffer's byte count and always equals it.
pub struct BinaryReader {
    /// The bytes being read.
    pub data: Vec<u8>,
    /// The offset the next read starts from.
    pub pos: usize,
    /// The total byte count of `data`.
    pub length: usize,
    /// The byte order used by the multi-byte integer reads.
    pub endian: Endian,
}

impl BinaryReader {
    /// The reader's invariant: the cached `length` equals the buffer's length.
    pub open spec fn wf(&self) -> bool {
        self.length == self.data@.len()
    }

    fn initialize() -> (r: BinaryReader)
        ensures
            r.data@ == Seq::<u8>::empty(),
            r.pos == 0,
            r.length == 0,
            r.endian == Endian::Big,
    {
        BinaryReader { data: Vec::new(), pos: 0, length: 0, endian: Endian::Big }
    }

    /// Builds a reader over a copy of the slice, positioned at 0, big-endian.
    pub fn from_u8(get: &[u8]) -> (r: BinaryReader)
        ensures
            r.data@ == get@,
            r.pos == 0,
            r.length == get@.len(),
            r.endian == Endian::Big,
            r.wf(),
    {
        let mut a = BinaryReader::initialize();
        a.data = vstd::slice::slice_to_vec(get);
        a.length = get.len();
        a
    }

    /// Builds a reader over a copy of the vector, positioned at 0, big-endian.
    pub fn from_vec(vec: &Vec<u8>) -> (r: BinaryReader)
        ensures
            r.data@ == vec@,
            r.pos == 0,
            r.length == vec@.len(),
            r.endian == Endian::Big,
            r.wf(),
    {
        let mut a = BinaryReader::initialize();
        a.data = vstd::slice::slice_to_vec(vec.as_slice());
        a.length = vec.len();
        a
    }

    /// Selects the byte order for all subsequent multi-byte integer reads.
    pub fn set_endian(&mut self, endian: Endian)
        ensures
            final(self).data == old(self).data,
            final(self).pos == old(self).pos,
            final(self).length == old(self).length,
            final(self).endian == endian,
    {
        self.endian = endian
    }

    /// Sets the position unconditionally; no bounds check is made, so a
    /// subsequent read may fail.
    pub fn jmp(&mut self, pos: usize)
        ensures
            final(self).data == old(self).data,
            final(self).pos == pos,
            final(self).length == old(self).length,
            final(self).endian == old(self).endian,
    {
        self.pos = pos
    }

    /// Adds `size` to the position unconditionally, without clamping.
    pub fn adv(&mut self, size: usize)
        requires
            old(self).pos + size <= usize::MAX,
        ensures
            final(self).data == old(self).data,
            final(self).pos == old(self).pos + size,
            final(self).length == old(self).length,
            final(self).endian == old(self).endian,
    {
        self.pos += size
    }

    /// Rounds the position up to the next multiple of `size`. A zero boundary
    /// would divide by zero, so the caller must rule it out.
    pub fn align(&mut self, size: usize)
        requires
            size > 0,
            old(self).pos + size - 1 <= usize::MAX,
        ensures
            final(self).data == old(self).data,
            final(self).pos == align_up(old(self).pos as int, size as int),
            final(self).length == old(self).length,
            final(self).endian == old(self).endian,
    {
        proof {
            lemma_align_up(self.pos as int, size as int);
        }
        self.pos = (self.pos + (size - 1)) / size * size;
    }

    /// Returns a copy of the `size` bytes starting at the current position,
    /// or `None` if they extend past the end of the buffer. The position
    /// advances by `size` either way.
    pub fn read(&mut self, size: usize) -> (r: Option<Vec<u8>>)
        requires
            old(self).pos + size <= usize::MAX,
        ensures
            final(self).data == old(self).data,
            final(self).pos == old(self).pos + size,
            final(self).length == old(self).length,
            final(self).endian == old(self).endian,
            old(self).pos + size <= old(self).data@.len() ==> (r matches Some(v) && v@
                == old(self).data@.subrange(
                old(self).pos as int,
                old(self).pos + size as int,
            )),
            old(self).pos + size > old(self).data@.len() ==> r is None,
    {
        let p = self.pos;
        self.pos = p + size;
        if p + size <= self.data.len() {
            let bytes = vstd::slice::slice_subrange(self.data.as_slice(), p, p + size);
            Some(vstd::slice::slice_to_vec(bytes))
        } else {
            None
        }
    }

    /// Reads a null-terminated string: scans from the current position to the
    /// first 0x00 byte, decodes the bytes before it as UTF-8, and leaves the
    /// position just past the terminator. Without a terminator between the
    /// position and the end of the buffer it fails and the position stays;
    /// with one but invalid UTF-8 before it, it fails with the position moved
    /// past the terminator.
    pub fn cstr(&mut self) -> (r: Result<String, ReadError>)
        ensures
            final(self).data == old(self).data,
            final(self).length == old(self).length,
            final(self).endian == old(self).endian,
            ({
                let d = old(self).data@;
                let p = old(self).pos as int;
                let z = first_zero(d, p);
                &&& (z == d.len() ==> r == Err::<String, ReadError>(ReadError::Unterminated)
                    && final(self).pos == old(self).pos)
                &&& (z < d.len() ==> final(self).pos == z + 1 && (match utf8_decoded(
                    d.subrange(p, z),
                ) {
                    Some(cs) => r matches Ok(s) && s@ == cs,
                    None => r == Err::<String, ReadError>(ReadError::InvalidUtf8),
                }))
            }),
    {
        let ghost d = self.data@;
        let ghost p0 = self.pos as int;
        proof {
            lemma_first_zero(d, p0);
        }
        let len = self.data.len();
        let mut i = self.pos;
        while i < len && *vstd::slice::slice_index_get(self.data.as_slice(), i) != 0
            invariant
                len == d.len(),
                d == self.data@,
                self.pos == old(self).pos,
                self.length == old(self).length,
                self.endian == old(self).endian,
                self.data == old(self).data,
                p0 <= i,
                i <= len || i == old(self).pos,
                forall|j: int| p0 <= j < i ==> d[j] != 0,
            decreases d.len() - i,
        {
            i = i + 1;
        }
        proof {
            assert(first_zero(d, p0) == if i < len {
                i as int
            } else {
                d.len() as int
            });
        }
        if i < len {
            let bytes = vstd::slice::slice_to_vec(
                vstd::slice::slice_subrange(self.data.as_slice(), self.pos, i),
            );
            self.pos = i + 1;
            match bytes_to_string(bytes) {
                Some(s) => Ok(s),
                None => Err(ReadError::InvalidUtf8),
            }
        } else {
            Err(ReadError::Unterminated)
        }
    }

    /// Reads one byte unsigned. The position advances by 1 either way.
    pub fn u8(&mut self) -> (r: Result<u8, ReadError>)
        requires
            old(self).pos + 1 <= usize::MAX,
        ensures
            final(self).data == old(self).data,
            final(self).pos == old(self).pos + 1,
            final(self).length == old(self).length,
            final(self).endian == old(self).endian,
            old(self).pos + 1 <= old(self).data@.len() ==> (r matches Ok(v) && v == old(
                self,
            ).data@[old(self).pos as int]),
            old(self).pos + 1 > old(self).data@.len() ==> r == Err::<u8, ReadError>(
                ReadError::OutOfRange,
            ),
    {
        let p = self.pos;
        self.pos = p + 1;
        if p < self.data.len() {
            Ok(self.data[p])
        } else {
            Err(ReadError::OutOfRange)
        }
    }

    /// Reads one byte as a two's-complement signed integer. The position
    /// advances by 1 either way.
    pub fn i8(&mut self) -> (r: Result<i8, ReadError>)
        requires
            old(self).pos + 1 <= usize::MAX,
        ensures
            final(self).data == old(self).data,
            final(self).pos == old(self).pos + 1,
            final(self).length == old(self).length,
            final(self).endian == old(self).endian,
            old(self).pos + 1 <= old(self).data@.len() ==> (r matches Ok(v) && v as int
                == as_signed(old(self).data@[old(self).pos as int] as nat, 1)),
            old(self).pos + 1 > old(self).data@.len() ==> r == Err::<i8, ReadError>(
                ReadError::OutOfRange,
            ),
    {
        proof {
            lemma_pow256_values();
        }
        let p = self.pos;
        self.pos = p + 1;
        if p < self.data.len() {
            let b = self.data[p];
            let v: i16 = if b >= 0x80 {
                b as i16 - 0x100
            } else {
                b as i16
            };
            proof {
                assert(-0x80 <= v <= 0x7f);
            }
            Ok(v as i8)
        } else {
            Err(ReadError::OutOfRange)
        }
    }

    /// Reads two bytes as an unsigned integer under the current byte order.
    /// The position advances by 2 either way.
    pub fn u16(&mut self) -> (r: Result<u16, ReadError>)
        requires
            old(self).pos + 2 <= usize::MAX,
        ensures
            final(self).data == old(self).data,
            final(self).pos == old(self).pos + 2,
            final(self).length == old(self).length,
            final(self).endian == old(self).endian,
            old(self).pos + 2 <= old(self).data@.len() ==> (r matches Ok(v) && v == uint_of(
                old(self).endian,
                old(self).data@.subrange(old(self).pos as int, old(self).pos + 2),
            )),
            old(self).pos + 2 > old(self).data@.len() ==> r == Err::<u16, ReadError>(
                ReadError::OutOfRange,
            ),
    {
        let p = self.pos;
        self.pos = p + 2;
        if p + 2 <= self.data.len() {
            let b0 = self.data[p];
            let b1 = self.data[p + 1];
            let ghost s = self.data@.subrange(p as int, p as int + 2);
            match self.endian {
                Endian::Big => {
                    proof {
                        assert(s =~= seq![b0, b1]);
                    }
                    Ok(be_u16(b0, b1))
                },
                Endian::Little => {
                    proof {
                        lemma_le_is_be_reversed(s);
                        assert(s.reverse() =~= seq![b1, b0]);
                    }
                    Ok(be_u16(b1, b0))
                },
            }
        } else {
            Err(ReadError::OutOfRange)
        }
    }

    /// Reads two bytes as a two's-complement signed integer under the current
    /// byte order. The position advances by 2 either way.
    pub fn i16(&mut self) -> (r: Result<i16, ReadError>)
        requires
            old(self).pos + 2 <= usize::MAX,
        ensures
            final(self).data == old(self).data,
            final(self).pos == old(self).pos + 2,
            final(self).length == old(self).length,
            final(self).endian == old(self).endian,
            old(self).pos + 2 <= old(self).data@.len() ==> (r matches Ok(v) && v as int == sint_of(
                old(self).endian,
                old(self).data@.subrange(old(self).pos as int, old(self).pos + 2),
            )),
            old(self).pos + 2 > old(self).data@.len() ==> r == Err::<i16, ReadError>(
                ReadError::OutOfRange,
            ),
    {
        let p = self.pos;
        self.pos = p + 2;
        if p + 2 <= self.data.len() {
            let b0 = self.data[p];
            let b1 = self.data[p + 1];
            let ghost s = self.data@.subrange(p as int, p as int + 2);
            match self.endian {
                Endian::Big => {
                    proof {
                        assert(s =~= seq![b0, b1]);
                    }
                    Ok(be_i16(b0, b1))
                },
                Endian::Little => {
                    proof {
                        lemma_le_is_be_reversed(s);
                        assert(s.reverse() =~= seq![b1, b0]);
                    }
                    Ok(be_i16(b1, b0))
                },
            }
        } else {
            Err(ReadError::OutOfRange)
        }
    }

    /// Reads four bytes as an unsigned integer under the current byte order.
    /// The position advances by 4 either way.
    pub fn u32(&mut self) -> (r: Result<u32, ReadError>)
        requires
            old(self).pos + 4 <= usize::MAX,
        ensures
            final(self).data == old(self).data,
            final(self).pos == old(self).pos + 4,
            final(self).length == old(self).length,
            final(self).endian == old(self).endian,
            old(self).pos + 4 <= old(self).data@.len() ==> (r matches Ok(v) && v == uint_of(
                old(self).endian,
                old(self).data@.subrange(old(self).pos as int, old(self).pos + 4),
            )),
            old(self).pos + 4 > old(self).data@.len() ==> r == Err::<u32, ReadError>(
                ReadError::OutOfRange,
            ),
    {
        let p = self.pos;
        self.pos = p + 4;
        if p + 4 <= self.data.len() {
            let b0 = self.data[p];
            let b1 = self.data[p + 1];
            let b2 = self.data[p + 2];
            let b3 = self.data[p + 3];
            let ghost s = self.data@.subrange(p as int, p as int + 4);
            match self.endian {
                Endian::Big => {
                    proof {
                        assert(s =~= seq![b0, b1, b2, b3]);
                    }
                    Ok(be_u32(b0, b1, b2, b3))
                },
                Endian::Little => {
                    proof {
                        lemma_le_is_be_reversed(s);
                        assert(s.reverse() =~= seq![b3, b2, b1, b0]);
                    }
                    Ok(be_u32(b3, b2, b1, b0))
                },
            }
        } else {
            Err(ReadError::OutOfRange)
        }
    }

    /// Reads four bytes as a two's-complement signed integer under the current
    /// byte order. The position advances by 4 either way.
    pub fn i32(&mut self) -> (r: Result<i32, ReadError>)
        requires
            old(self).pos + 4 <= usize::MAX,
        ensures
            final(self).data == old(self).data,
            final(self).pos == old(self).pos + 4,
            final(self).length == old(self).length,
            final(self).endian == old(self).endian,
            old(self).pos + 4 <= old(self).data@.len() ==> (r matches Ok(v) && v as int == sint_of(
                old(self).endian,
                old(self).data@.subrange(old(self).pos as int, old(self).pos + 4),
            )),
            old(self).pos + 4 > old(self).data@.len() ==> r == Err::<i32, ReadError>(
                ReadError::OutOfRange,
            ),
    {
        let p = self.pos;
        self.pos = p + 4;
        if p + 4 <= self.data.len() {
            let b0 = self.data[p];
            let b1 = self.data[p + 1];
            let b2 = self.data[p + 2];
            let b3 = self.data[p + 3];
            let ghost s = self.data@.subrange(p as int, p as int + 4);
            match self.endian {
                Endian::Big => {
                    proof {
                        assert(s =~= seq![b0, b1, b2, b3]);
                    }
                    Ok(be_i32(b0, b1, b2, b3))
                },
                Endian::Little => {
                    proof {
                        lemma_le_is_be_reversed(s);
                        assert(s.reverse() =~= seq![b3, b2, b1, b0]);
                    }
                    Ok(be_i32(b3, b2, b1, b0))
                },
            }
        } else {
            Err(ReadError::OutOfRange)
        }
    }

    /// Reads eight bytes as an unsigned integer under the current byte order.
    /// The position advances by 8 either way.
    pub fn u64(&mut self) -> (r: Result<u64, ReadError>)
        requires
            old(self).pos + 8 <= usize::MAX,
        ensures
            final(self).data == old(self).data,
            final(self).pos == old(self).pos + 8,
            final(self).length == old(self).length,
            final(self).endian == old(self).endian,
            old(self).pos + 8 <= old(self).data@.len() ==> (r matches Ok(v) && v == uint_of(
                old(self).endian,
                old(self).data@.subrange(old(self).pos as int, old(self).pos + 8),
            )),
            old(self).pos + 8 > old(self).data@.len() ==> r == Err::<u64, ReadError>(
                ReadError::OutOfRange,
            ),
    {
        let p = self.pos;
        self.pos = p + 8;
        if p + 8 <= self.data.len() {
            let b0 = self.data[p];
            let b1 = self.data[p + 1];
            let b2 = self.data[p + 2];
            let b3 = self.data[p + 3];
            let b4 = self.data[p + 4];
            let b5 = self.data[p + 5];
            let b6 = self.data[p + 6];
            let b7 = self.data[p + 7];
            let ghost s = self.data@.subrange(p as int, p as int + 8);
            match self.endian {
                Endian::Big => {
                    proof {
                        assert(s =~= seq![b0, b1, b2, b3, b4, b5, b6, b7]);
                    }
                    Ok(be_u64(b0, b1, b2, b3, b4, b5, b6, b7))
                },
                Endian::Little => {
                    proof {
                        lemma_le_is_be_reversed(s);
                        assert(s.reverse() =~= seq![b7, b6, b5, b4, b3, b2, b1, b0]);
                    }
                    Ok(be_u64(b7, b6, b5, b4, b3, b2, b1, b0))
                },
            }
        } else {
            Err(ReadError::OutOfRange)
        }
    }

    /// Reads eight bytes as a two's-complement signed integer under the
    /// current byte order. The position advances by 8 either way.
    pub fn i64(&mut self) -> (r: Result<i64, ReadError>)
        requires
            old(self).pos + 8 <= usize::MAX,
        ensures
            final(self).data == old(self).data,
            final(self).pos == old(self).pos + 8,
            final(self).length == old(self).length,
            final(self).endian == old(self).endian,
            old(self).pos + 8 <= old(self).data@.len() ==> (r matches Ok(v) && v as int == sint_of(
                old(self).endian,
                old(self).data@.subrange(old(self).pos as int, old(self).pos + 8),
            )),
            old(self).pos + 8 > old(self).data@.len() ==> r == Err::<i64, ReadError>(
                ReadError::OutOfRange,
            ),
    {
        let p = self.pos;
        self.pos = p + 8;
        if p + 8 <= self.data.len() {
            let b0 = self.data[p];
            let b1 = self.data[p + 1];
            let b2 = self.data[p + 2];
            let b3 = self.data[p + 3];
            let b4 = self.data[p + 4];
            let b5 = self.data[p + 5];
            let b6 = self.data[p + 6];
            let b7 = self.data[p + 7];
            let ghost s = self.data@.subrange(p as int, p as int + 8);
            match self.endian {
                Endian::Big => {
                    proof {
                        assert(s =~= seq![b0, b1, b2, b3, b4, b5, b6, b7]);
                    }
                    Ok(be_i64(b0, b1, b2, b3, b4, b5, b6, b7))
                },
                Endian::Little => {
                    proof {
                        lemma_le_is_be_reversed(s);
                        assert(s.reverse() =~= seq![b7, b6, b5, b4, b3, b2, b1, b0]);
                    }
                    Ok(be_i64(b7, b6, b5, b4, b3, b2, b1, b0))
                },
            }
        } else {
            Err(ReadError::OutOfRange)
        }
    }
}

} // verus!
