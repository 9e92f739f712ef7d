//! Trusted boundary to the bit cursor of the `bitbuffer` crate.
//!
//! The cursor is the only piece of machinery this library does not implement
//! itself: sequential little-endian bit-addressed reads and writes.  Each
//! wrapper below holds exactly one cursor operation and states, over the
//! abstract bit-sequence views `rbits`/`rpos`/`wbits`, what the crate's source
//! shows that operation to do.  Everything else in the library is verified
//! against these contracts.

use vstd::prelude::*;

verus! {

use bitbuffer::BitReadStream;
use bitbuffer::BitWriteStream;
use bitbuffer::LittleEndian;
use vstd::arithmetic::power2::pow2;
use crate::bits::le_bits;
use crate::bits::bytes_bits;
use crate::bits::str_bits;
use crate::bits::str_ok;
use crate::bits::bits_at;

/// Failure of a low-level cursor operation, passed through to callers.
#[derive(Clone, Copy, Debug, PartialEq, Eq, Structural)]
pub enum CodecError {
    /// The read would run past the end of the region.
    OutOfData,
    /// The bytes at the cursor are not a valid text encoding.
    BadText,
}

/// A little-endian bit-addressed read cursor over a borrowed byte region.
///
/// Holds the `bitbuffer` read stream, whose generic endianness parameter
/// Verus cannot declare directly.
#[verifier::external_body]
pub struct Reader<'a>(BitReadStream<'a, LittleEndian>);

/// A little-endian bit-addressed write cursor appending to a borrowed buffer.
#[verifier::external_body]
pub struct Writer<'a>(BitWriteStream<'a, LittleEndian>);

/// The bits of the region a read cursor ranges over, from the region's start.
pub uninterp spec fn rbits(s: Reader) -> Seq<bool>;

/// How many bits of the region the read cursor has consumed.
pub uninterp spec fn rpos(s: Reader) -> nat;

/// The bits a write cursor has emitted since its creation.
pub uninterp spec fn wbits(s: Writer) -> Seq<bool>;

/// Relies on `BitReadStream::read_bool`: returns the bit at the cursor and
/// advances by one; fails without moving when no bit is left.
#[verifier::external_body]
pub fn c_read_bool(s: &mut Reader<'_>) -> (r: Result<bool, CodecError>)
    ensures
        rbits(*final(s)) == rbits(*old(s)),
        rpos(*final(s)) <= rbits(*final(s)).len(),
        rpos(*old(s)) < rbits(*old(s)).len() ==> {
            &&& r is Ok
            &&& r->Ok_0 == rbits(*old(s))[rpos(*old(s)) as int]
            &&& rpos(*final(s)) == rpos(*old(s)) + 1
        },
        rpos(*old(s)) >= rbits(*old(s)).len() ==> r is Err && rpos(*final(s)) == rpos(*old(s)),
{
    s.0.read_bool().map_err(|_e| CodecError::OutOfData)
}

/// Relies on `BitReadStream::read_int::<u32>`: reads `n` bits as an integer,
/// least significant bit first, advancing by `n`; fails without moving when
/// fewer than `n` bits are left.
#[verifier::external_body]
pub fn c_read_int(s: &mut Reader<'_>, n: usize) -> (r: Result<
    u32,
    CodecError,
>)
    requires
        n <= 32,
    ensures
        rbits(*final(s)) == rbits(*old(s)),
        rpos(*final(s)) <= rbits(*final(s)).len(),
        rpos(*old(s)) + n <= rbits(*old(s)).len() ==> {
            &&& r is Ok
            &&& (r->Ok_0 as nat) < pow2(n as nat)
            &&& le_bits(r->Ok_0 as nat, n as nat) == rbits(*old(s)).subrange(
                rpos(*old(s)) as int,
                rpos(*old(s)) + n,
            )
            &&& rpos(*final(s)) == rpos(*old(s)) + n
        },
        rpos(*old(s)) + n > rbits(*old(s)).len() ==> r is Err && rpos(*final(s)) == rpos(
            *old(s),
        ),
{
    s.0.read_int::<u32>(n).map_err(|_e| CodecError::OutOfData)
}

/// Relies on `BitReadStream::read_string(None)`: reads a zero-terminated
/// UTF-8 string.  When the wire form of a terminator-free string lies at the
/// cursor, exactly that string comes back and exactly its bits are consumed.
#[verifier::external_body]
pub fn c_read_string(s: &mut Reader<'_>) -> (r: Result<String, CodecError>)
    ensures
        rbits(*final(s)) == rbits(*old(s)),
        rpos(*final(s)) <= rbits(*final(s)).len(),
        rpos(*old(s)) <= rpos(*final(s)),
        forall|w: Seq<char>|
            str_ok(w) && bits_at(rbits(*old(s)), rpos(*old(s)) as int, #[trigger] str_bits(w))
                ==> {
                &&& r is Ok
                &&& r->Ok_0@ == w
                &&& rpos(*final(s)) == rpos(*old(s)) + str_bits(w).len()
            },
{
    match s.0.read_string(None) {
        Ok(text) => Ok(text.into_owned()),
        Err(bitbuffer::BitError::Utf8Error(_, _)) => Err(CodecError::BadText),
        Err(_e) => Err(CodecError::OutOfData),
    }
}

/// The text a fixed-size region of bits decodes to: its bytes as UTF-8 with
/// trailing zero bytes trimmed, a function of the region alone.
pub uninterp spec fn sized_text(region: Seq<bool>) -> Seq<char>;

/// Relies on `BitReadStream::read_string(Some(n))`: reads a fixed region of
/// `n` bytes as text with trailing zero bytes trimmed — `sized_text` of the
/// region — advancing `8 * n` bits.  A region of invalid text fails after
/// advancing past it; a region beyond the end fails without moving.
#[verifier::external_body]
pub fn c_read_string_sized(s: &mut Reader<'_>, n: usize) -> (r: Result<
    String,
    CodecError,
>)
    ensures
        rbits(*final(s)) == rbits(*old(s)),
        rpos(*final(s)) <= rbits(*final(s)).len(),
        r is Ok ==> rpos(*final(s)) == rpos(*old(s)) + 8 * n && rpos(*old(s)) + 8 * n <= rbits(
            *old(s),
        ).len() && r->Ok_0@ == sized_text(
            rbits(*old(s)).subrange(rpos(*old(s)) as int, rpos(*old(s)) + 8 * n),
        ),
        r == Err::<String, CodecError>(CodecError::BadText) ==> rpos(*final(s)) == rpos(*old(s))
            + 8 * n && rpos(*old(s)) + 8 * n <= rbits(*old(s)).len(),
        r == Err::<String, CodecError>(CodecError::OutOfData) ==> rpos(*final(s)) == rpos(*old(s))
            && rpos(*old(s)) + 8 * n > rbits(*old(s)).len(),
{
    match s.0.read_string(Some(n)) {
        Ok(text) => Ok(text.into_owned()),
        Err(bitbuffer::BitError::Utf8Error(_, _)) => Err(CodecError::BadText),
        Err(_e) => Err(CodecError::OutOfData),
    }
}

/// Relies on `BitReadStream::read_bits`: carves the next `n` bits into an
/// isolated cursor of its own and advances the outer cursor past them; fails
/// without moving when fewer than `n` bits are left.
#[verifier::external_body]
pub fn c_read_bits<'a>(s: &mut Reader<'a>, n: usize) -> (r: Result<
    Reader<'a>,
    CodecError,
>)
    ensures
        rbits(*final(s)) == rbits(*old(s)),
        rpos(*final(s)) <= rbits(*final(s)).len(),
        rpos(*old(s)) + n <= rbits(*old(s)).len() ==> {
            &&& r is Ok
            &&& rbits(r->Ok_0) == rbits(*old(s)).subrange(rpos(*old(s)) as int, rpos(*old(s)) + n)
            &&& rpos(r->Ok_0) == 0
            &&& rpos(*final(s)) == rpos(*old(s)) + n
        },
        rpos(*old(s)) + n > rbits(*old(s)).len() ==> r is Err && rpos(*final(s)) == rpos(
            *old(s),
        ),
{
    s.0.read_bits(n).map(Reader).map_err(|_e| CodecError::OutOfData)
}

/// Relies on `BitReadStream::bits_left`: the number of unread bits.
#[verifier::external_body]
pub fn c_bits_left(s: &Reader<'_>) -> (r: usize)
    ensures
        rpos(*s) <= rbits(*s).len() ==> r == rbits(*s).len() - rpos(*s),
{
    s.0.bits_left()
}

/// Relies on `BitReadStream::pos`: how many bits have been consumed.
#[verifier::external_body]
pub fn c_pos(s: &Reader<'_>) -> (r: usize)
    ensures
        r == rpos(*s),
{
    s.0.pos()
}

/// Relies on `BitReadBuffer::new_owned` and `BitReadStream::new`: a fresh
/// cursor over the given bytes, positioned at their first bit.
#[verifier::external_body]
pub fn c_stream_from_bytes(bytes: Vec<u8>) -> (r: Reader<'static>)
    ensures
        rbits(r) == bytes_bits(bytes@),
        rpos(r) == 0,
{
    Reader(BitReadStream::new(bitbuffer::BitReadBuffer::new_owned(bytes, LittleEndian)))
}

/// Relies on `BitWriteStream::new`: a fresh write cursor that appends to the
/// given byte buffer; nothing has been emitted through it yet.
#[verifier::external_body]
pub fn c_writer_new<'a>(data: &'a mut Vec<u8>) -> (r: Writer<'a>)
    ensures
        wbits(r) == Seq::<bool>::empty(),
{
    Writer(BitWriteStream::new(data, LittleEndian))
}

/// Relies on `BitWriteStream::bit_len`: how many bits have been emitted.
#[verifier::external_body]
pub fn c_written_len(w: &Writer<'_>) -> (r: usize)
    ensures
        r == wbits(*w).len(),
{
    w.0.bit_len()
}

/// Relies on `BitWriteStream::write_bool`: appends exactly one bit.
#[verifier::external_body]
pub fn c_write_bool(w: &mut Writer<'_>, b: bool)
    ensures
        wbits(*final(w)) == wbits(*old(w)) + seq![b],
{
    let _ = w.0.write_bool(b);
}

/// Emit every bit of `bits`, in order.
pub fn flush_bits(w: &mut Writer<'_>, bits: &Vec<bool>)
    ensures
        wbits(*final(w)) =~= wbits(*old(w)) + bits@,
{
    let ghost start = wbits(*w);
    let mut i: usize = 0;
    proof {
        assert(wbits(*w) =~= start + bits@.take(0));
    }
    while i < bits.len()
        invariant
            i <= bits@.len(),
            wbits(*w) =~= start + bits@.take(i as int),
        decreases bits@.len() - i,
    {
        c_write_bool(w, bits[i]);
        proof {
            assert(bits@.take(i + 1) =~= bits@.take(i as int).push(bits@[i as int]));
            assert(start + bits@.take(i as int) + seq![bits@[i as int]] =~= start + bits@.take(
                i + 1,
            ));
        }
        i = i + 1;
    }
    proof {
        assert(bits@.take(bits@.len() as int) =~= bits@);
    }
}

/// Read the next `n` bits into an owned payload.
pub fn read_bit_vec(s: &mut Reader<'_>, n: usize) -> (r: Result<Vec<bool>, CodecError>)
    ensures
        rbits(*final(s)) == rbits(*old(s)),
        rpos(*old(s)) <= rpos(*final(s)),
        rpos(*old(s)) <= rbits(*old(s)).len() ==> rpos(*final(s)) <= rbits(*final(s)).len(),
        rpos(*old(s)) + n <= rbits(*old(s)).len() ==> {
            &&& r is Ok
            &&& r->Ok_0@ == rbits(*old(s)).subrange(rpos(*old(s)) as int, rpos(*old(s)) + n)
            &&& rpos(*final(s)) == rpos(*old(s)) + n
        },
{
    let ghost b = rbits(*s);
    let ghost p0 = rpos(*s) as int;
    let mut out: Vec<bool> = Vec::new();
    let mut i: usize = 0;
    while i < n
        invariant
            i <= n,
            b == rbits(*old(s)),
            p0 == rpos(*old(s)) as int,
            rbits(*s) == b,
            rpos(*s) == p0 + i,
            out@.len() == i,
            i > 0 ==> rpos(*s) <= b.len(),
            p0 + n <= b.len() ==> out@ =~= b.subrange(p0, p0 + i),
        decreases n - i,
    {
        let bit = match c_read_bool(s) {
            Ok(v) => v,
            Err(e) => {
                return Err(e);
            },
        };
        out.push(bit);
        proof {
            if p0 + n <= b.len() {
                assert(out@ =~= b.subrange(p0, p0 + i + 1));
            }
        }
        i = i + 1;
    }
    Ok(out)
}

} // verus!
