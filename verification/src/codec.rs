//! The on-disk codec: a registry is a version tag, a record count and
//! length-prefixed records, all little-endian.
//!
//! Layout of a buffer:
//! version `u32`, count `u32`, then per record: path length `u32`,
//! that many UTF-8 path bytes, rank `u32` (fixed point, thousandths)
//! and last-accessed `u64`. No trailing bytes are allowed.

use crate::dir::{dirs_view, Dir, DirV};
use vstd::bytes::*;
use vstd::prelude::*;
use vstd::slice::*;
use vstd::utf8::*;

verus! {

/// The format version this reader and writer speak. A buffer with any
/// other tag is refused, never silently upgraded.
pub const VERSION: u32 = 3;

/// Why a buffer failed to decode.
#[derive(Clone, Copy, Debug, PartialEq, Eq, Structural)]
pub enum DecodeError {
    /// The version tag is not [`VERSION`].
    UnsupportedVersion,
    /// A length prefix or a fixed field runs past the end of the
    /// buffer, or bytes are left over after the last record.
    Truncated,
    /// A path is not valid UTF-8.
    BadUtf8,
}

/// Why a registry failed to encode: a record count or a path length
/// does not fit the 32-bit prefix.
#[derive(Clone, Copy, Debug, PartialEq, Eq, Structural)]
pub enum EncodeError {
    TooLarge,
}

/// The bytes of one record.
pub open spec fn spec_encode_record(d: DirV) -> Seq<u8> {
    spec_u32_to_le_bytes(encode_utf8(d.path).len() as u32) + encode_utf8(d.path)
        + spec_u32_to_le_bytes(d.rank) + spec_u64_to_le_bytes(d.last_accessed)
}

/// The concatenated bytes of a record list.
pub open spec fn spec_encode_records(s: Seq<DirV>) -> Seq<u8>
    decreases s.len(),
{
    if s.len() == 0 {
        Seq::empty()
    } else {
        spec_encode_record(s[0]) + spec_encode_records(s.drop_first())
    }
}

/// A record fits the format: its path's UTF-8 form fits the 32-bit
/// length prefix.
pub open spec fn record_encodable(d: DirV) -> bool {
    encode_utf8(d.path).len() <= u32::MAX
}

/// A registry fits the format.
pub open spec fn encodable(s: Seq<DirV>) -> bool {
    s.len() <= u32::MAX && forall|i: int| 0 <= i < s.len() ==> record_encodable(#[trigger] s[i])
}

/// The bytes of a whole registry: version, count, records.
pub open spec fn spec_encode(s: Seq<DirV>) -> Seq<u8> {
    spec_u32_to_le_bytes(VERSION) + spec_u32_to_le_bytes(s.len() as u32) + spec_encode_records(s)
}

/// What decoding `n` records from `bytes` yields; the whole buffer
/// must be consumed.
pub open spec fn spec_decode_records(bytes: Seq<u8>, n: nat) -> Result<Seq<DirV>, DecodeError>
    decreases n,
{
    if n == 0 {
        if bytes.len() == 0 {
            Ok(Seq::empty())
        } else {
            Err(DecodeError::Truncated)
        }
    } else if bytes.len() < 4 {
        Err(DecodeError::Truncated)
    } else {
        let plen = spec_u32_from_le_bytes(bytes.take(4)) as int;
        if bytes.len() < 4 + plen {
            Err(DecodeError::Truncated)
        } else {
            let pbytes = bytes.subrange(4, 4 + plen);
            if !valid_utf8(pbytes) {
                Err(DecodeError::BadUtf8)
            } else if bytes.len() < 16 + plen {
                Err(DecodeError::Truncated)
            } else {
                let rank = spec_u32_from_le_bytes(bytes.subrange(4 + plen, 8 + plen));
                let last = spec_u64_from_le_bytes(bytes.subrange(8 + plen, 16 + plen));
                match spec_decode_records(bytes.skip(16 + plen), (n - 1) as nat) {
                    Ok(rest) => Ok(
                        seq![DirV { path: decode_utf8(pbytes), rank, last_accessed: last }] + rest,
                    ),
                    Err(e) => Err(e),
                }
            }
        }
    }
}

/// What decoding a whole buffer yields.
pub open spec fn spec_decode(bytes: Seq<u8>) -> Result<Seq<DirV>, DecodeError> {
    if bytes.len() < 4 {
        Err(DecodeError::Truncated)
    } else if spec_u32_from_le_bytes(bytes.take(4)) != VERSION {
        Err(DecodeError::UnsupportedVersion)
    } else if bytes.len() < 8 {
        Err(DecodeError::Truncated)
    } else {
        spec_decode_records(bytes.skip(8), spec_u32_from_le_bytes(bytes.subrange(4, 8)) as nat)
    }
}

/// Relies on `String::from_utf8`: it succeeds exactly on valid UTF-8
/// input and returns the string those bytes spell.
#[verifier::external_body]
fn bytes_to_string(v: Vec<u8>) -> (r: Option<String>)
    ensures
        r is Some <==> valid_utf8(v@),
        r is Some ==> r->0@ == decode_utf8(v@),
{
    String::from_utf8(v).ok()
}

/// Encodes a registry. Fails exactly when the record count or a
/// path's byte length overflows its 32-bit prefix; on success the
/// output is byte-for-byte [`spec_encode`] of the input.
pub fn encode(dirs: &Vec<Dir>) -> (r: Result<Vec<u8>, EncodeError>)
    ensures
        r is Ok <==> encodable(dirs_view(dirs@)),
        r matches Ok(bytes) ==> bytes@ == spec_encode(dirs_view(dirs@)),
{
    let ghost view = dirs_view(dirs@);
    if dirs.len() as u64 > u32::MAX as u64 {
        return Err(EncodeError::TooLarge);
    }
    let count: u32 = dirs.len() as u32;
    let mut out: Vec<u8> = u32_to_le_bytes(VERSION);
    let mut count_bytes = u32_to_le_bytes(count);
    out.append(&mut count_bytes);
    assert(out@ =~= spec_u32_to_le_bytes(VERSION) + spec_u32_to_le_bytes(count)
        + spec_encode_records(view.take(0)));
    let mut i: usize = 0;
    while i < dirs.len()
        invariant
            view == dirs_view(dirs@),
            dirs@.len() <= u32::MAX,
            count == dirs@.len(),
            0 <= i <= dirs@.len(),
            forall|j: int| 0 <= j < i ==> record_encodable(#[trigger] view[j]),
            out@ == spec_u32_to_le_bytes(VERSION) + spec_u32_to_le_bytes(count)
                + spec_encode_records(view.take(i as int)),
        decreases dirs@.len() - i,
    {
        let d = &dirs[i];
        let path_bytes = d.path.as_str().as_bytes_vec();
        assert(path_bytes@ == encode_utf8(view[i as int].path));
        if path_bytes.len() as u64 > u32::MAX as u64 {
            assert(!record_encodable(view[i as int]));
            return Err(EncodeError::TooLarge);
        }
        let mut len_bytes = u32_to_le_bytes(path_bytes.len() as u32);
        out.append(&mut len_bytes);
        let mut path_bytes = path_bytes;
        out.append(&mut path_bytes);
        let mut rank_bytes = u32_to_le_bytes(d.rank);
        out.append(&mut rank_bytes);
        let mut last_bytes = u64_to_le_bytes(d.last_accessed);
        out.append(&mut last_bytes);
        proof {
            lemma_encode_records_push(view.take(i as int), view[i as int]);
            assert(view.take(i as int).push(view[i as int]) =~= view.take(i + 1));
            assert(out@ =~= spec_u32_to_le_bytes(VERSION) + spec_u32_to_le_bytes(count)
                + spec_encode_records(view.take(i + 1)));
        }
        i = i + 1;
    }
    assert(view.take(i as int) =~= view);
    Ok(out)
}

/// Appending one record to a list appends its bytes to the encoding.
pub proof fn lemma_encode_records_push(s: Seq<DirV>, d: DirV)
    ensures
        spec_encode_records(s.push(d)) == spec_encode_records(s) + spec_encode_record(d),
    decreases s.len(),
{
    if s.len() == 0 {
        assert(s.push(d)[0] == d);
        assert(s.push(d).drop_first() =~= Seq::<DirV>::empty());
        assert(spec_encode_records(Seq::<DirV>::empty()) == Seq::<u8>::empty());
        assert(spec_encode_record(d) + Seq::<u8>::empty() =~= spec_encode_record(d));
        assert(Seq::<u8>::empty() + spec_encode_record(d) =~= spec_encode_record(d));
    } else {
        assert(s.push(d)[0] == s[0]);
        assert(s.push(d).drop_first() =~= s.drop_first().push(d));
        lemma_encode_records_push(s.drop_first(), d);
        assert(spec_encode_record(s[0]) + (spec_encode_records(s.drop_first())
            + spec_encode_record(d)) =~= (spec_encode_record(s[0]) + spec_encode_records(
            s.drop_first(),
        )) + spec_encode_record(d));
    }
}

/// Decodes a buffer; the result is exactly what [`spec_decode`] says,
/// both on success and for each failure.
pub fn decode(bytes: &[u8]) -> (r: Result<Vec<Dir>, DecodeError>)
    ensures
        r matches Ok(dirs) ==> spec_decode(bytes@) == Ok::<Seq<DirV>, DecodeError>(
            dirs_view(dirs@),
        ),
        r matches Err(e) ==> spec_decode(bytes@) == Err::<Seq<DirV>, DecodeError>(e),
{
    if bytes.len() < 4 {
        return Err(DecodeError::Truncated);
    }
    let version = u32_from_le_bytes(slice_subrange(bytes, 0, 4));
    assert(bytes@.subrange(0, 4) =~= bytes@.take(4));
    if version != VERSION {
        return Err(DecodeError::UnsupportedVersion);
    }
    if bytes.len() < 8 {
        return Err(DecodeError::Truncated);
    }
    let count = u32_from_le_bytes(slice_subrange(bytes, 4, 8));
    let mut out: Vec<Dir> = Vec::new();
    let mut pos: usize = 8;
    let mut k: u32 = 0;
    proof {
        assert(bytes@.skip(8) =~= bytes@.skip(pos as int));
        assert(dirs_view(out@) =~= Seq::<DirV>::empty());
        assert(forall|rest: Seq<DirV>| Seq::<DirV>::empty() + rest =~= rest);
    }
    while k < count
        invariant
            8 <= pos <= bytes@.len(),
            0 <= k <= count,
            out@.len() == k,
            spec_decode(bytes@) == match spec_decode_records(
                bytes@.skip(pos as int),
                (count - k) as nat,
            ) {
                Ok(rest) => Ok::<Seq<DirV>, DecodeError>(dirs_view(out@) + rest),
                Err(e) => Err::<Seq<DirV>, DecodeError>(e),
            },
        decreases count - k,
    {
        let ghost tail = bytes@.skip(pos as int);
        let ghost n = (count - k) as nat;
        assert(n > 0);
        assert(tail.len() == bytes@.len() - pos);
        let remaining = bytes.len() - pos;
        if remaining < 4 {
            assert(spec_decode_records(tail, n) == Err::<Seq<DirV>, DecodeError>(
                DecodeError::Truncated,
            ));
            return Err(DecodeError::Truncated);
        }
        let plen32 = u32_from_le_bytes(slice_subrange(bytes, pos, pos + 4));
        assert(bytes@.subrange(pos as int, pos as int + 4) =~= tail.take(4));
        let plen = plen32 as usize;
        assert(plen == spec_u32_from_le_bytes(tail.take(4)) as int);
        if remaining - 4 < plen {
            assert(tail.len() < 4 + plen);
            assert(spec_decode_records(tail, n) == Err::<Seq<DirV>, DecodeError>(
                DecodeError::Truncated,
            ));
            return Err(DecodeError::Truncated);
        }
        let path_slice = slice_subrange(bytes, pos + 4, pos + 4 + plen);
        let ghost pbytes = tail.subrange(4, 4 + plen as int);
        assert(path_slice@ =~= pbytes);
        let path_vec = slice_to_vec(path_slice);
        let path = match bytes_to_string(path_vec) {
            Some(p) => p,
            None => {
                assert(!valid_utf8(pbytes));
                assert(spec_decode_records(tail, n) == Err::<Seq<DirV>, DecodeError>(
                    DecodeError::BadUtf8,
                ));
                return Err(DecodeError::BadUtf8);
            },
        };
        assert(valid_utf8(pbytes) && path@ == decode_utf8(pbytes));
        if remaining - 4 - plen < 12 {
            assert(tail.len() < 16 + plen);
            assert(spec_decode_records(tail, n) == Err::<Seq<DirV>, DecodeError>(
                DecodeError::Truncated,
            ));
            return Err(DecodeError::Truncated);
        }
        assert(pos + 16 + plen <= bytes@.len());
        let rank = u32_from_le_bytes(slice_subrange(bytes, pos + 4 + plen, pos + 8 + plen));
        assert(bytes@.subrange(pos as int + 4 + plen as int, pos as int + 8 + plen as int)
            =~= tail.subrange(4 + plen as int, 8 + plen as int));
        let last_accessed = u64_from_le_bytes(
            slice_subrange(bytes, pos + 8 + plen, pos + 16 + plen),
        );
        assert(bytes@.subrange(pos as int + 8 + plen as int, pos as int + 16 + plen as int)
            =~= tail.subrange(8 + plen as int, 16 + plen as int));
        let ghost d = DirV { path: decode_utf8(pbytes), rank, last_accessed };
        let ghost old_out_view = dirs_view(out@);
        out.push(Dir { path, rank, last_accessed });
        proof {
            assert(dirs_view(out@) =~= old_out_view.push(d));
            assert(bytes@.skip(pos as int + 16 + plen as int) =~= tail.skip(16 + plen as int));
            let rec = spec_decode_records(tail.skip(16 + plen as int), (n - 1) as nat);
            assert(spec_decode_records(tail, n) == match rec {
                Ok(rest) => Ok::<Seq<DirV>, DecodeError>(seq![d] + rest),
                Err(e) => Err::<Seq<DirV>, DecodeError>(e),
            });
            if rec is Ok {
                let rest = rec->Ok_0;
                assert(old_out_view + (seq![d] + rest) =~= dirs_view(out@) + rest);
            }
        }
        pos = pos + 16 + plen;
        k = k + 1;
    }
    if pos != bytes.len() {
        assert(bytes@.skip(pos as int).len() != 0);
        assert(spec_decode_records(bytes@.skip(pos as int), 0) == Err::<Seq<DirV>, DecodeError>(
            DecodeError::Truncated,
        ));
        return Err(DecodeError::Truncated);
    }
    assert(bytes@.skip(pos as int).len() == 0);
    assert(spec_decode_records(bytes@.skip(pos as int), 0) == Ok::<Seq<DirV>, DecodeError>(
        Seq::empty(),
    ));
    assert(dirs_view(out@) + Seq::<DirV>::empty() =~= dirs_view(out@));
    Ok(out)
}

/// Decoding inverts encoding, record by record.
proof fn lemma_decode_encode_records(s: Seq<DirV>)
    requires
        forall|i: int| 0 <= i < s.len() ==> record_encodable(#[trigger] s[i]),
    ensures
        spec_decode_records(spec_encode_records(s), s.len() as nat) == Ok::<
            Seq<DirV>,
            DecodeError,
        >(s),
    decreases s.len(),
{
    lemma_auto_spec_u32_to_from_le_bytes();
    lemma_auto_spec_u64_to_from_le_bytes();
    if s.len() == 0 {
        assert(spec_encode_records(s).len() == 0);
        assert(s =~= Seq::<DirV>::empty());
    } else {
        let d = s[0];
        assert(record_encodable(d));
        let pb = encode_utf8(d.path);
        let plen = pb.len() as int;
        let rec = spec_encode_record(d);
        let bytes = spec_encode_records(s);
        let rest_bytes = spec_encode_records(s.drop_first());
        assert(bytes == rec + rest_bytes);
        assert(rec.len() == 16 + plen);
        assert(bytes.len() == 16 + plen + rest_bytes.len());
        assert(bytes.take(4) =~= spec_u32_to_le_bytes(plen as u32));
        assert(spec_u32_from_le_bytes(bytes.take(4)) as int == plen);
        assert(bytes.subrange(4, 4 + plen) =~= pb);
        encode_utf8_valid_utf8(d.path);
        encode_utf8_decode_utf8(d.path);
        assert(valid_utf8(bytes.subrange(4, 4 + plen)));
        assert(decode_utf8(bytes.subrange(4, 4 + plen)) == d.path);
        assert(bytes.subrange(4 + plen, 8 + plen) =~= spec_u32_to_le_bytes(d.rank));
        assert(spec_u32_from_le_bytes(bytes.subrange(4 + plen, 8 + plen)) == d.rank);
        assert(bytes.subrange(8 + plen, 16 + plen) =~= spec_u64_to_le_bytes(d.last_accessed));
        assert(spec_u64_from_le_bytes(bytes.subrange(8 + plen, 16 + plen)) == d.last_accessed);
        assert(bytes.skip(16 + plen) =~= rest_bytes);
        assert(forall|i: int|
            0 <= i < s.drop_first().len() ==> record_encodable(#[trigger] s.drop_first()[i]));
        lemma_decode_encode_records(s.drop_first());
        assert(spec_decode_records(bytes, s.len() as nat) == Ok::<Seq<DirV>, DecodeError>(
            seq![d] + s.drop_first(),
        ));
        assert(seq![d] + s.drop_first() =~= s);
    }
}

/// Round trip: decoding an encoded registry yields that registry,
/// field for field.
pub proof fn lemma_decode_encode(s: Seq<DirV>)
    requires
        encodable(s),
    ensures
        spec_decode(spec_encode(s)) == Ok::<Seq<DirV>, DecodeError>(s),
{
    lemma_auto_spec_u32_to_from_le_bytes();
    let bytes = spec_encode(s);
    assert(bytes.take(4) =~= spec_u32_to_le_bytes(VERSION));
    assert(bytes.subrange(4, 8) =~= spec_u32_to_le_bytes(s.len() as u32));
    assert(bytes.skip(8) =~= spec_encode_records(s));
    lemma_decode_encode_records(s);
}

/// Version gate: any buffer of at least four bytes whose tag is not
/// [`VERSION`] is refused as unsupported.
pub proof fn lemma_version_gate(bytes: Seq<u8>)
    requires
        bytes.len() >= 4,
        bytes.take(4) != spec_u32_to_le_bytes(VERSION),
    ensures
        spec_decode(bytes) == Err::<Seq<DirV>, DecodeError>(DecodeError::UnsupportedVersion),
{
    lemma_auto_spec_u32_to_from_le_bytes();
    assert(bytes.take(4).len() == 4);
    if spec_u32_from_le_bytes(bytes.take(4)) == VERSION {
        assert(spec_u32_to_le_bytes(spec_u32_from_le_bytes(bytes.take(4))) == bytes.take(4));
    }
}

} // verus!
