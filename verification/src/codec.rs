use vstd::prelude::*;
use vstd::slice::{slice_subrange, slice_to_vec};
use vstd::string::StrSliceExecFns;
use vstd::utf8::{
    decode_utf8, encode_utf8, encode_utf8_decode_utf8, encode_utf8_valid_utf8, valid_utf8,
};
use crate::note::{Note, NoteView};
use crate::owner::Owner;

verus! {

// The byte format of a stored note record. All fields are little-endian:
//
//   [0, 8)                      display id
//   [8, 10)                     owner length `ol`
//   [10, 10+ol)                 owner bytes
//   [10+ol, 12+ol)              title length `tl`
//   [12+ol, 12+ol+tl)           title, UTF-8
//   [12+ol+tl, end)             content, UTF-8

pub open spec fn u16_le(v: u16) -> Seq<u8> {
    seq![(v & 0xff) as u8, ((v >> 8) & 0xff) as u8]
}

pub open spec fn u64_le(v: u64) -> Seq<u8> {
    seq![
        (v & 0xff) as u8,
        ((v >> 8) & 0xff) as u8,
        ((v >> 16) & 0xff) as u8,
        ((v >> 24) & 0xff) as u8,
        ((v >> 32) & 0xff) as u8,
        ((v >> 40) & 0xff) as u8,
        ((v >> 48) & 0xff) as u8,
        ((v >> 56) & 0xff) as u8,
    ]
}

pub open spec fn u16_of_le(b0: u8, b1: u8) -> u16 {
    (b0 as u16) | ((b1 as u16) << 8)
}

pub open spec fn u64_of_le(b0: u8, b1: u8, b2: u8, b3: u8, b4: u8, b5: u8, b6: u8, b7: u8) -> u64 {
    (b0 as u64) | ((b1 as u64) << 8) | ((b2 as u64) << 16) | ((b3 as u64) << 24) | ((b4 as u64)
        << 32) | ((b5 as u64) << 40) | ((b6 as u64) << 48) | ((b7 as u64) << 56)
}

pub proof fn lemma_u16_le_roundtrip(v: u16)
    ensures
        u16_of_le(u16_le(v)[0], u16_le(v)[1]) == v,
{
    assert(((v & 0xff) as u8 as u16) | ((((v >> 8) & 0xff) as u8 as u16) << 8) == v)
        by (bit_vector);
}

pub proof fn lemma_u64_le_roundtrip(v: u64)
    ensures
        u64_of_le(
            u64_le(v)[0],
            u64_le(v)[1],
            u64_le(v)[2],
            u64_le(v)[3],
            u64_le(v)[4],
            u64_le(v)[5],
            u64_le(v)[6],
            u64_le(v)[7],
        ) == v,
{
    assert(((v & 0xff) as u8 as u64) | ((((v >> 8) & 0xff) as u8 as u64) << 8) | ((((v >> 16)
        & 0xff) as u8 as u64) << 16) | ((((v >> 24) & 0xff) as u8 as u64) << 24) | ((((v >> 32)
        & 0xff) as u8 as u64) << 32) | ((((v >> 40) & 0xff) as u8 as u64) << 40) | ((((v >> 48)
        & 0xff) as u8 as u64) << 48) | ((((v >> 56) & 0xff) as u8 as u64) << 56) == v)
        by (bit_vector);
}

/// The serialized record of a note.
pub open spec fn encoding_of(n: NoteView) -> Seq<u8> {
    u64_le(n.display_id) + u16_le(n.owner.len() as u16) + n.owner + u16_le(
        encode_utf8(n.title).len() as u16,
    ) + encode_utf8(n.title) + encode_utf8(n.content)
}

fn push_u16_le(out: &mut Vec<u8>, v: u16)
    ensures
        final(out)@ == old(out)@ + u16_le(v),
{
    proof {
        assert(v & 0xff < 256 && (v >> 8) & 0xff < 256) by (bit_vector);
    }
    out.push((v & 0xff) as u8);
    out.push(((v >> 8) & 0xff) as u8);
    proof {
        assert(out@ =~= old(out)@ + u16_le(v));
    }
}

fn push_u64_le(out: &mut Vec<u8>, v: u64)
    ensures
        final(out)@ == old(out)@ + u64_le(v),
{
    proof {
        assert(v & 0xff < 256 && (v >> 8) & 0xff < 256 && (v >> 16) & 0xff < 256 && (v >> 24)
            & 0xff < 256 && (v >> 32) & 0xff < 256 && (v >> 40) & 0xff < 256 && (v >> 48) & 0xff
            < 256 && (v >> 56) & 0xff < 256) by (bit_vector);
    }
    out.push((v & 0xff) as u8);
    out.push(((v >> 8) & 0xff) as u8);
    out.push(((v >> 16) & 0xff) as u8);
    out.push(((v >> 24) & 0xff) as u8);
    out.push(((v >> 32) & 0xff) as u8);
    out.push(((v >> 40) & 0xff) as u8);
    out.push(((v >> 48) & 0xff) as u8);
    out.push(((v >> 56) & 0xff) as u8);
    proof {
        assert(out@ =~= old(out)@ + u64_le(v));
    }
}

fn push_bytes(out: &mut Vec<u8>, src: &[u8])
    ensures
        final(out)@ == old(out)@ + src@,
{
    let n = src.len();
    let mut i: usize = 0;
    while i < n
        invariant
            n == src@.len(),
            i <= n,
            out@ == old(out)@ + src@.subrange(0, i as int),
        decreases n - i,
    {
        out.push(*vstd::slice::slice_index_get(src, i));
        proof {
            assert(out@ =~= old(out)@ + src@.subrange(0, i + 1));
        }
        i += 1;
    }
    proof {
        assert(out@ =~= old(out)@ + src@);
    }
}

fn read_u16_le(b: &Vec<u8>, off: usize) -> (r: u16)
    requires
        off + 2 <= b@.len(),
    ensures
        r == u16_of_le(b@[off as int], b@[off as int + 1]),
{
    (*b.get(off).unwrap() as u16) | ((*b.get(off + 1).unwrap() as u16) << 8)
}

fn read_u64_le(b: &Vec<u8>, off: usize) -> (r: u64)
    requires
        off + 8 <= b@.len(),
    ensures
        r == u64_of_le(
            b@[off as int],
            b@[off as int + 1],
            b@[off as int + 2],
            b@[off as int + 3],
            b@[off as int + 4],
            b@[off as int + 5],
            b@[off as int + 6],
            b@[off as int + 7],
        ),
{
    (*b.get(off).unwrap() as u64) | ((*b.get(off + 1).unwrap() as u64) << 8) | ((*b.get(off + 2)
        .unwrap() as u64) << 16) | ((*b.get(off + 3).unwrap() as u64) << 24) | ((*b.get(off + 4)
        .unwrap() as u64) << 32) | ((*b.get(off + 5).unwrap() as u64) << 40) | ((*b.get(off + 6)
        .unwrap() as u64) << 48) | ((*b.get(off + 7).unwrap() as u64) << 56)
}

/// Relies on `String::from_utf8`: it succeeds exactly on valid UTF-8 input
/// and returns the character sequence that the bytes encode.
#[verifier::external_body]
fn bytes_to_string(v: Vec<u8>) -> (r: Option<String>)
    ensures
        r is Some <==> valid_utf8(v@),
        r matches Some(s) ==> s@ == decode_utf8(v@),
{
    match String::from_utf8(v) {
        Ok(s) => Some(s),
        Err(_) => None,
    }
}

/// Serializes a note into the byte format above.
pub fn encode_note(n: &Note) -> (r: Vec<u8>)
    requires
        n@.fits(),
    ensures
        r@ == encoding_of(n@),
        r@.len() == n@.encoded_len(),
{
    let mut out: Vec<u8> = Vec::new();
    push_u64_le(&mut out, n.display_id);
    push_u16_le(&mut out, n.owner.bytes.len() as u16);
    push_bytes(&mut out, n.owner.bytes.as_slice());
    let tb = n.title.as_str().as_bytes_vec();
    push_u16_le(&mut out, tb.len() as u16);
    push_bytes(&mut out, tb.as_slice());
    let cb = n.content.as_str().as_bytes_vec();
    push_bytes(&mut out, cb.as_slice());
    proof {
        assert(out@ =~= encoding_of(n@));
    }
    out
}

/// How a serialized record splits into its fields: what each offset of
/// `encoding_of(nv)` holds.
proof fn lemma_encoding_segments(nv: NoteView, b: Seq<u8>)
    requires
        nv.fits(),
        b == encoding_of(nv),
    ensures
        b.len() == nv.encoded_len(),
        u64_of_le(b[0], b[1], b[2], b[3], b[4], b[5], b[6], b[7]) == nv.display_id,
        u16_of_le(b[8], b[9]) == nv.owner.len(),
        b.subrange(10, 10 + nv.owner.len() as int) == nv.owner,
        u16_of_le(b[10 + nv.owner.len() as int], b[11 + nv.owner.len() as int]) == encode_utf8(
            nv.title,
        ).len(),
        b.subrange(
            12 + nv.owner.len() as int,
            12 + nv.owner.len() as int + encode_utf8(nv.title).len() as int,
        ) == encode_utf8(nv.title),
        b.subrange(
            12 + nv.owner.len() as int + encode_utf8(nv.title).len() as int,
            b.len() as int,
        ) == encode_utf8(nv.content),
{
    let ol = nv.owner.len() as int;
    let tl = encode_utf8(nv.title).len() as int;
    lemma_u64_le_roundtrip(nv.display_id);
    lemma_u16_le_roundtrip(nv.owner.len() as u16);
    lemma_u16_le_roundtrip(encode_utf8(nv.title).len() as u16);
    assert(b.subrange(10, 10 + ol) =~= nv.owner);
    assert(b.subrange(12 + ol, 12 + ol + tl) =~= encode_utf8(nv.title));
    assert(b.subrange(12 + ol + tl, b.len() as int) =~= encode_utf8(nv.content));
}

/// Parses a serialized record back into a note: on any byte vector that is
/// the serialized form of a storable note, it returns exactly that note.
pub fn decode_note(b: &Vec<u8>) -> (r: Option<Note>)
    ensures
        forall|nv: NoteView|
            #[trigger] encoding_of(nv) == b@ && nv.fits() ==> (r matches Some(n) && n@ == nv),
{
    if b.len() < 12 {
        proof {
            assert forall|nv: NoteView| encoding_of(nv) == b@ && nv.fits() implies false by {
                lemma_encoding_segments(nv, b@);
            }
        }
        return None;
    }
    let did = read_u64_le(b, 0);
    let ol = read_u16_le(b, 8) as usize;
    if b.len() < 12 + ol {
        proof {
            assert forall|nv: NoteView| encoding_of(nv) == b@ && nv.fits() implies false by {
                lemma_encoding_segments(nv, b@);
            }
        }
        return None;
    }
    let ob = slice_to_vec(slice_subrange(b.as_slice(), 10, 10 + ol));
    let tl = read_u16_le(b, 10 + ol) as usize;
    if b.len() < 12 + ol + tl {
        proof {
            assert forall|nv: NoteView| encoding_of(nv) == b@ && nv.fits() implies false by {
                lemma_encoding_segments(nv, b@);
            }
        }
        return None;
    }
    let tb = slice_to_vec(slice_subrange(b.as_slice(), 12 + ol, 12 + ol + tl));
    let cb = slice_to_vec(slice_subrange(b.as_slice(), 12 + ol + tl, b.len()));
    let title = match bytes_to_string(tb) {
        Some(t) => t,
        None => {
            proof {
                assert forall|nv: NoteView| encoding_of(nv) == b@ && nv.fits() implies false by {
                    lemma_encoding_segments(nv, b@);
                    encode_utf8_valid_utf8(nv.title);
                }
            }
            return None;
        },
    };
    let content = match bytes_to_string(cb) {
        Some(c) => c,
        None => {
            proof {
                assert forall|nv: NoteView| encoding_of(nv) == b@ && nv.fits() implies false by {
                    lemma_encoding_segments(nv, b@);
                    encode_utf8_valid_utf8(nv.content);
                }
            }
            return None;
        },
    };
    let r = Note { display_id: did, title, content, owner: Owner::new(ob) };
    proof {
        assert forall|nv: NoteView| encoding_of(nv) == b@ && nv.fits() implies r@ == nv by {
            lemma_encoding_segments(nv, b@);
            encode_utf8_valid_utf8(nv.title);
            encode_utf8_valid_utf8(nv.content);
            encode_utf8_decode_utf8(nv.title);
            encode_utf8_decode_utf8(nv.content);
        }
    }
    Some(r)
}

} // verus!
