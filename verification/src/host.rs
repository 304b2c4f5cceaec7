//! The pure steps of the proving service: image ids, proof file names, and the chunks
//! a proof is streamed in.
use vstd::prelude::*;

use sha2::Digest;

verus! {

/// An image id from the words of a message, which must be exactly eight.
pub fn image_id_from_words(words: &Vec<u32>) -> (id: Option<[u32; 8]>)
    ensures
        id is Some <==> words@.len() == 8,
        id matches Some(id) ==> id@ == words@,
{
    if words.len() != 8 {
        return None;
    }
    let id: [u32; 8] = [
        words[0],
        words[1],
        words[2],
        words[3],
        words[4],
        words[5],
        words[6],
        words[7],
    ];
    assert(id@ =~= words@);
    Some(id)
}

/// The size of the chunks a proof file is streamed in.
pub const CHUNK_SIZE: usize = 4096;

/// The `i`-th chunk of `buffer`: bytes from `CHUNK_SIZE * i`, at most `CHUNK_SIZE` of them.
pub open spec fn chunk_of(buffer: Seq<u8>, i: int) -> Seq<u8> {
    let start = CHUNK_SIZE * i;
    let end = if CHUNK_SIZE * (i + 1) <= buffer.len() {
        CHUNK_SIZE * (i + 1)
    } else {
        buffer.len() as int
    };
    buffer.subrange(start, end)
}

/// Splits a buffer into the chunks it is streamed in: consecutive pieces of
/// `CHUNK_SIZE` bytes, the last one possibly shorter, none empty.
pub fn split_into_chunks(buffer: &Vec<u8>) -> (chunks: Vec<Vec<u8>>)
    ensures
        buffer@.len() == 0 <==> chunks@.len() == 0,
        chunks@.len() > 0 ==> CHUNK_SIZE * (chunks@.len() - 1) < buffer@.len() <= CHUNK_SIZE
            * chunks@.len(),
        forall|i: int| 0 <= i < chunks@.len() ==> (#[trigger] chunks@[i])@ == chunk_of(buffer@, i),
{
    let mut chunks: Vec<Vec<u8>> = Vec::new();
    let mut offset: usize = 0;
    while offset < buffer.len()
        invariant
            offset <= buffer@.len(),
            CHUNK_SIZE * chunks@.len() <= buffer@.len() ==> offset == CHUNK_SIZE * chunks@.len(),
            CHUNK_SIZE * chunks@.len() > buffer@.len() ==> offset == buffer@.len(),
            chunks@.len() > 0 ==> CHUNK_SIZE * (chunks@.len() - 1) < buffer@.len(),
            forall|i: int| 0 <= i < chunks@.len() ==> (#[trigger] chunks@[i])@ == chunk_of(buffer@, i),
        decreases buffer@.len() - offset,
    {
        let end = if buffer.len() - offset >= CHUNK_SIZE {
            offset + CHUNK_SIZE
        } else {
            buffer.len()
        };
        let mut chunk: Vec<u8> = Vec::new();
        let mut k: usize = offset;
        while k < end
            invariant
                offset <= k <= end <= buffer@.len(),
                chunk@ == buffer@.subrange(offset as int, k as int),
            decreases end - k,
        {
            chunk.push(buffer[k]);
            k = k + 1;
            assert(chunk@ =~= buffer@.subrange(offset as int, k as int));
        }
        assert(chunk@ == chunk_of(buffer@, chunks@.len() as int));
        chunks.push(chunk);
        offset = end;
    }
    chunks
}

/// The lower-case hexadecimal digit of a value below sixteen.
pub open spec fn hex_digit(n: u8) -> char {
    if n < 10 {
        ((48 + n) as u8) as char
    } else {
        ((87 + n) as u8) as char
    }
}

/// Bytes in lower-case hexadecimal, two digits each, high half first.
pub open spec fn lower_hex(bytes: Seq<u8>) -> Seq<char> {
    Seq::new(
        2 * bytes.len(),
        |k: int|
            if k % 2 == 0 {
                hex_digit(bytes[k / 2] >> 4u8)
            } else {
                hex_digit(bytes[k / 2] & 15u8)
            },
    )
}

fn hex_digit_of(n: u8) -> (c: char)
    requires
        n < 16,
    ensures
        c == hex_digit(n),
{
    if n < 10 {
        (48 + n) as char
    } else {
        (87 + n) as char
    }
}

/// `String::push`: appends one character.
#[verifier::external_body]
fn push_char(s: &mut String, c: char)
    ensures
        final(s)@ == old(s)@.push(c),
{
    s.push(c)
}

/// Writes bytes in lower-case hexadecimal, two digits per byte.
pub fn to_lower_hex(bytes: &[u8]) -> (s: String)
    ensures
        s@ == lower_hex(bytes@),
{
    let mut s = String::new();
    let mut i: usize = 0;
    while i < bytes.len()
        invariant
            0 <= i <= bytes@.len(),
            s@ =~= lower_hex(bytes@.subrange(0, i as int)),
        decreases bytes@.len() - i,
    {
        let b = bytes[i];
        assert(b >> 4u8 < 16 && b & 15u8 < 16) by (bit_vector);
        let ghost before = s@;
        push_char(&mut s, hex_digit_of(b >> 4));
        push_char(&mut s, hex_digit_of(b & 15));
        i = i + 1;
        assert(s@ =~= lower_hex(bytes@.subrange(0, i as int))) by {
            let prefix = bytes@.subrange(0, i as int);
            assert forall|k: int| 0 <= k < s@.len() implies s@[k] == lower_hex(prefix)[k] by {
                if k < before.len() {
                    assert(k / 2 < i - 1);
                    assert(prefix[k / 2] == bytes@.subrange(0, i - 1)[k / 2]);
                }
            }
        }
    }
    assert(bytes@.subrange(0, bytes@.len() as int) =~= bytes@);
    s
}

/// The SHA-256 digest of some bytes.
pub uninterp spec fn sha256_of(data: Seq<u8>) -> Seq<u8>;

/// `Sha256::digest` (sha2): the SHA-256 digest of the data, 32 bytes long.
#[verifier::external_body]
fn sha256_digest(data: &[u8]) -> (digest: Vec<u8>)
    ensures
        digest@ == sha256_of(data@),
        digest@.len() == 32,
{
    let mut hasher = sha2::Sha256::new();
    hasher.update(data);
    hasher.finalize().to_vec()
}

/// The name a proof file is stored under: its SHA-256 digest in lower-case
/// hexadecimal, then `.receipt`.
pub fn receipt_file_name(buffer: &[u8]) -> (name: String)
    ensures
        name@ == lower_hex(sha256_of(buffer@)) + ".receipt"@,
        name@.len() == 72,
{
    let digest = sha256_digest(buffer);
    let mut name = to_lower_hex(digest.as_slice());
    name.append(".receipt");
    proof {
        reveal_strlit(".receipt");
    }
    name
}

/// Where a proof file of the given name is stored: in the `proofs/` directory.
pub fn proof_path(file_name: &str) -> (path: String)
    ensures
        path@ == "proofs/"@ + file_name@,
{
    let mut path = String::from_str("proofs/");
    path.append(file_name);
    path
}

} // verus!
