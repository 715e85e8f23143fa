//! Writing and reading back a picture as a PNG without compression.
//!
//! PNG wants its image data as a zlib stream, but zlib permits blocks that are
//! stored verbatim. Those make a valid file with nothing to go wrong, and the
//! pixels in it are the pixels that were handed over.
use vstd::prelude::*;

use crate::bytes;

verus! {

/// The longest stretch that one stored block holds.
pub const BLOCK: usize = 65_535;

/// The bytes that every PNG begins with.
pub open spec fn signature() -> Seq<u8> {
    seq![0x89u8, 0x50u8, 0x4Eu8, 0x47u8, 0x0Du8, 0x0Au8, 0x1Au8, 0x0Au8]
}

/// The name of the chunk that holds the size of the picture.
pub open spec fn header_kind() -> Seq<u8> {
    seq![0x49u8, 0x48u8, 0x44u8, 0x52u8]
}

/// The name of the chunk that holds the pixels.
pub open spec fn data_kind() -> Seq<u8> {
    seq![0x49u8, 0x44u8, 0x41u8, 0x54u8]
}

/// The name of the chunk that ends the file.
pub open spec fn end_kind() -> Seq<u8> {
    seq![0x49u8, 0x45u8, 0x4Eu8, 0x44u8]
}

/// Eight bits per sample, truecolour, nothing filtered or interlaced.
pub open spec fn format_bytes() -> Seq<u8> {
    seq![8u8, 2u8, 0u8, 0u8, 0u8]
}

/// The sum of bytes.
pub open spec fn total(data: Seq<u8>) -> int
    decreases data.len(),
{
    if data.len() == 0 {
        0
    } else {
        total(data.drop_last()) + data.last()
    }
}

/// One more than the sum of the bytes, modulo the largest prime below 65536.
pub open spec fn adler_low(data: Seq<u8>) -> int {
    (1 + total(data)) % 65521
}

/// The sum of that over every stretch from the start, modulo the same prime.
pub open spec fn adler_high(data: Seq<u8>) -> int
    decreases data.len(),
{
    if data.len() == 0 {
        0
    } else {
        (adler_high(data.drop_last()) + adler_low(data)) % 65521
    }
}

/// The checksum that ends a zlib stream.
pub open spec fn adler(data: Seq<u8>) -> int {
    adler_high(data) * 65536 + adler_low(data)
}

/// One step of the shift register that divides by the CRC's polynomial.
pub open spec fn shifted(register: u32) -> u32 {
    if register & 1 != 0 {
        (register >> 1u32) ^ 0xEDB8_8320
    } else {
        register >> 1u32
    }
}

/// The register after `count` steps.
pub open spec fn shifted_by(register: u32, count: nat) -> u32
    decreases count,
{
    if count == 0 {
        register
    } else {
        shifted(shifted_by(register, (count - 1) as nat))
    }
}

/// The register after it has taken in all of `data`, eight steps a byte.
pub open spec fn divided(register: u32, data: Seq<u8>) -> u32
    decreases data.len(),
{
    if data.len() == 0 {
        register
    } else {
        shifted_by(divided(register, data.drop_last()) ^ (data.last() as u32), 8)
    }
}

/// The CRC of more bytes after those whose finished CRC is `running`.
pub open spec fn crc(running: u32, data: Seq<u8>) -> u32 {
    !divided(!running, data)
}

/// A chunk: its length, its name, its body and the CRC of the last two.
pub open spec fn chunk_bytes(kind: Seq<u8>, body: Seq<u8>) -> Seq<u8> {
    bytes::big(body.len() as int) + kind + body + bytes::big(crc(crc(0, kind), body) as int)
}

/// A stored block.
pub open spec fn block(last: bool, data: Seq<u8>) -> Seq<u8> {
    seq![
        if last {
            1u8
        } else {
            0u8
        },
    ] + bytes::little(data.len() as int, 2) + bytes::little(65535 - data.len(), 2) + data
}

/// Bytes as stored blocks, as full as can be.
pub open spec fn blocks(data: Seq<u8>) -> Seq<u8>
    decreases data.len(),
{
    if data.len() <= BLOCK {
        block(true, data)
    } else {
        block(false, data.take(BLOCK as int)) + blocks(data.skip(BLOCK as int))
    }
}

/// Bytes as a zlib stream of stored blocks.
pub open spec fn zlib(data: Seq<u8>) -> Seq<u8> {
    seq![0x78u8, 0x01u8] + blocks(data) + bytes::big(adler(data))
}

/// The first `rows` rows of pixels, each behind a byte that says it is not
/// filtered.
pub open spec fn scanlines(stride: int, rows: int, rgb: Seq<u8>) -> Seq<u8>
    decreases rows,
{
    if rows <= 0 {
        Seq::empty()
    } else {
        scanlines(stride, rows - 1, rgb) + seq![0u8] + rgb.subrange(
            (rows - 1) * stride,
            rows * stride,
        )
    }
}

/// The header of a picture.
pub open spec fn header(width: int, height: int) -> Seq<u8> {
    bytes::big(width) + bytes::big(height) + format_bytes()
}

/// A picture as a file.
pub open spec fn png(width: int, height: int, rgb: Seq<u8>) -> Seq<u8> {
    signature() + chunk_bytes(header_kind(), header(width, height)) + chunk_bytes(
        data_kind(),
        zlib(scanlines(3 * width, height, rgb)),
    ) + chunk_bytes(end_kind(), Seq::empty())
}

/// The checksum that ends a zlib stream.
pub fn adler32(data: &[u8]) -> (sum: u32)
    ensures
        sum == adler(data@),
{
    let mut low: u32 = 1;
    let mut high: u32 = 0;
    let mut at: usize = 0;
    assert(data@.take(0) =~= Seq::empty());
    while at < data.len()
        invariant
            at <= data@.len(),
            low == adler_low(data@.take(at as int)),
            high == adler_high(data@.take(at as int)),
            low < 65521,
            high < 65521,
        decreases data@.len() - at,
    {
        let ghost before = data@.take(at as int);
        let ghost after = data@.take(at + 1);
        assert(after.drop_last() =~= before);
        assert(after.last() == data@[at as int]);
        low = (low + data[at] as u32) % 65_521;
        proof {
            let (sum, more) = (1 + total(before), data@[at as int] as int);
            assert((sum % 65521 + more) % 65521 == (sum + more) % 65521);
        }
        high = (high + low) % 65_521;
        at = at + 1;
    }
    assert(data@.take(at as int) =~= data@);
    high * 65_536 + low
}

/// Takes one byte into the shift register.
fn take_in(register: u32, byte: u8) -> (next: u32)
    ensures
        next == shifted_by(register ^ (byte as u32), 8),
{
    let start: u32 = register ^ (byte as u32);
    let mut held: u32 = start;
    let mut count: usize = 0;
    while count < 8
        invariant
            count <= 8,
            held == shifted_by(start, count as nat),
        decreases 8 - count,
    {
        let carry: u32 = held & 1;
        held = held >> 1u32;
        if carry != 0 {
            held = held ^ 0xEDB8_8320;
        }
        count = count + 1;
    }
    held
}

/// Continues a CRC over more bytes. `running` is the finished value so far.
pub fn crc32_from(running: u32, data: &[u8]) -> (sum: u32)
    ensures
        sum == crc(running, data@),
{
    let mut register: u32 = !running;
    let mut at: usize = 0;
    assert(data@.take(0) =~= Seq::empty());
    while at < data.len()
        invariant
            at <= data@.len(),
            register == divided(!running, data@.take(at as int)),
        decreases data@.len() - at,
    {
        assert(data@.take(at + 1).drop_last() =~= data@.take(at as int));
        register = take_in(register, data[at]);
        at = at + 1;
    }
    assert(data@.take(at as int) =~= data@);
    !register
}

/// The CRC of bytes.
pub fn crc32(data: &[u8]) -> (sum: u32)
    ensures
        sum == crc(0, data@),
{
    crc32_from(0, data)
}

/// Appends a chunk.
pub fn chunk(out: &mut Vec<u8>, kind: &[u8; 4], body: &[u8])
    ensures
        final(out)@ == old(out)@ + chunk_bytes(kind@, body@),
{
    let ghost start = out@;
    bytes::put_big(out, body.len() as u64);
    bytes::put_all(out, kind);
    bytes::put_all(out, body);
    let sum: u32 = crc32_from(crc32(kind), body);
    bytes::put_big(out, sum as u64);
    assert(out@ =~= start + chunk_bytes(kind@, body@));
}

/// Appends a stored block.
fn put_block(out: &mut Vec<u8>, last: bool, data: &[u8], from: usize, to: usize)
    requires
        from <= to <= data@.len(),
        to - from <= BLOCK,
    ensures
        final(out)@ == old(out)@ + block(last, data@.subrange(from as int, to as int)),
{
    let ghost start = out@;
    if last {
        out.push(1);
    } else {
        out.push(0);
    }
    let len: usize = to - from;
    bytes::put_little(out, len as u64, 2);
    bytes::put_little(out, (BLOCK - len) as u64, 2);
    bytes::put_range(out, data, from, to);
    assert(out@ =~= start + block(last, data@.subrange(from as int, to as int)));
}

/// Wraps bytes as a zlib stream of stored blocks.
pub fn zlib_stored(data: &[u8]) -> (out: Vec<u8>)
    ensures
        out@ == zlib(data@),
{
    let mut out: Vec<u8> = Vec::new();
    out.push(0x78);
    out.push(0x01);
    let ghost head = seq![0x78u8, 0x01u8];
    assert(out@ =~= head);
    let size: usize = data.len();
    let mut at: usize = 0;
    assert(data@.skip(0) =~= data@);
    assert(head + blocks(data@) =~= out@ + blocks(data@.skip(0)));
    while size - at > BLOCK
        invariant
            size == data@.len(),
            at <= size,
            head + blocks(data@) == out@ + blocks(data@.skip(at as int)),
        decreases size - at,
    {
        let ghost before = out@;
        let ghost rest = data@.skip(at as int);
        put_block(&mut out, false, data, at, at + BLOCK);
        proof {
            assert(rest.take(BLOCK as int) =~= data@.subrange(at as int, at + BLOCK));
            assert(rest.skip(BLOCK as int) =~= data@.skip(at + BLOCK));
            assert(before + blocks(rest) =~= out@ + blocks(data@.skip(at + BLOCK)));
        }
        at = at + BLOCK;
    }
    put_block(&mut out, true, data, at, size);
    assert(data@.skip(at as int) =~= data@.subrange(at as int, size as int));
    assert(out@ == head + blocks(data@));
    let sum: u32 = adler32(data);
    bytes::put_big(&mut out, sum as u64);
    assert(out@ =~= zlib(data@));
    out
}

/// The rows of a picture, each behind a byte that says it is not filtered.
fn unfiltered(width: usize, height: usize, rgb: &[u8]) -> (raw: Vec<u8>)
    requires
        rgb@.len() == width * height * 3,
    ensures
        raw@ == scanlines(3 * width, height as int, rgb@),
{
    let size: usize = rgb.len();
    let mut raw: Vec<u8> = Vec::new();
    let mut row: usize = 0;
    let mut at: usize = 0;
    while row < height
        invariant
            row <= height,
            size == rgb@.len(),
            size == width * height * 3,
            at == row * (3 * width),
            raw@ == scanlines(3 * width, row as int, rgb@),
        decreases height - row,
    {
        assert((row + 1) * (3 * width) == row * (3 * width) + 3 * width) by (nonlinear_arith);
        assert((row + 1) * (3 * width) <= width * height * 3) by (nonlinear_arith)
            requires
                row + 1 <= height,
        ;
        let end: usize = at + width + width + width;
        let ghost before = raw@;
        raw.push(0);
        bytes::put_range(&mut raw, rgb, at, end);
        assert(raw@ =~= before + seq![0u8] + rgb@.subrange(at as int, end as int));
        at = end;
        row = row + 1;
    }
    raw
}

/// Encodes 24-bit pixels, row by row from the top, as a PNG.
pub fn encode(width: usize, height: usize, rgb: &[u8]) -> (out: Vec<u8>)
    requires
        rgb@.len() == width * height * 3,
    ensures
        out@ == png(width as int, height as int, rgb@),
{
    let mut out: Vec<u8> = Vec::new();
    let mark: [u8; 8] = [0x89, 0x50, 0x4E, 0x47, 0x0D, 0x0A, 0x1A, 0x0A];
    bytes::put_all(&mut out, &mark);
    assert(out@ =~= signature());
    let mut sizes: Vec<u8> = Vec::new();
    bytes::put_big(&mut sizes, width as u64);
    bytes::put_big(&mut sizes, height as u64);
    let format: [u8; 5] = [8, 2, 0, 0, 0];
    bytes::put_all(&mut sizes, &format);
    assert(format@ =~= format_bytes());
    assert(sizes@ =~= header(width as int, height as int));
    let head: [u8; 4] = [0x49, 0x48, 0x44, 0x52];
    assert(head@ =~= header_kind());
    chunk(&mut out, &head, &sizes);
    let raw: Vec<u8> = unfiltered(width, height, rgb);
    let stream: Vec<u8> = zlib_stored(&raw);
    let data: [u8; 4] = [0x49, 0x44, 0x41, 0x54];
    assert(data@ =~= data_kind());
    chunk(&mut out, &data, &stream);
    let end: [u8; 4] = [0x49, 0x45, 0x4E, 0x44];
    assert(end@ =~= end_kind());
    let nothing: [u8; 0] = [];
    assert(nothing@ =~= Seq::empty());
    chunk(&mut out, &end, &nothing);
    out
}

/// What the chunks of a file say: a width, a height and a stream of data.
pub struct Found {
    pub width: int,
    pub height: int,
    pub stream: Seq<u8>,
}

/// What the chunks from `at` on add to what was found before them, or nothing
/// where one is cut off or describes another kind of picture.
pub open spec fn walked(file: Seq<u8>, at: int, found: Found) -> Option<Found>
    decreases file.len() + 8 - at,
{
    if at < 0 || at + 8 > file.len() {
        Some(found)
    } else {
        let len = bytes::read_big(file.subrange(at, at + 4));
        let kind = file.subrange(at + 4, at + 8);
        if at + 8 + len > file.len() || len < 0 {
            None
        } else {
            let body = file.subrange(at + 8, at + 8 + len);
            if kind == header_kind() {
                if len < 13 || body.subrange(8, 13) != format_bytes() {
                    None
                } else {
                    walked(
                        file,
                        at + 12 + len,
                        Found {
                            width: bytes::read_big(body.subrange(0, 4)),
                            height: bytes::read_big(body.subrange(4, 8)),
                            ..found
                        },
                    )
                }
            } else if kind == data_kind() {
                walked(file, at + 12 + len, Found { stream: found.stream + body, ..found })
            } else if kind == end_kind() {
                Some(found)
            } else {
                walked(file, at + 12 + len, found)
            }
        }
    }
}

/// What the stored blocks from `at` on hold, up to the last of them.
pub open spec fn unblocked(stream: Seq<u8>, at: int) -> Option<Seq<u8>>
    decreases stream.len() - at,
{
    if at < 0 || at + 3 > stream.len() {
        None
    } else {
        let len = bytes::read_little(stream.subrange(at + 1, at + 3));
        if at + 5 + len > stream.len() || len < 0 {
            None
        } else {
            let data = stream.subrange(at + 5, at + 5 + len);
            if stream[at] % 2 == 1 {
                Some(data)
            } else {
                match unblocked(stream, at + 5 + len) {
                    Some(rest) => Some(data + rest),
                    None => None,
                }
            }
        }
    }
}

/// The pixels of the first `rows` rows, or nothing where one is filtered.
pub open spec fn unfiltered_rows(stride: int, rows: int, raw: Seq<u8>) -> Option<Seq<u8>>
    decreases rows,
{
    if rows <= 0 {
        Some(Seq::empty())
    } else {
        let at = (rows - 1) * (1 + stride);
        match unfiltered_rows(stride, rows - 1, raw) {
            Some(before) => if raw[at] == 0 {
                Some(before + raw.subrange(at + 1, at + 1 + stride))
            } else {
                None
            },
            None => None,
        }
    }
}

/// The picture that a file holds: its width, its height and its pixels.
pub open spec fn picture(file: Seq<u8>) -> Option<(int, int, Seq<u8>)> {
    if file.len() < 8 || file.subrange(0, 8) != signature() {
        None
    } else {
        match walked(file, 8, (Found { width: 0, height: 0, stream: Seq::empty() })) {
            None => None,
            Some(found) => if found.width == 0 || found.height == 0 || found.stream.len() < 6 {
                None
            } else {
                match unblocked(found.stream, 2) {
                    None => None,
                    Some(raw) => if raw.len() < found.height * (1 + 3 * found.width) {
                        None
                    } else {
                        match unfiltered_rows(3 * found.width, found.height, raw) {
                            None => None,
                            Some(rgb) => Some((found.width, found.height, rgb)),
                        }
                    },
                }
            },
        }
    }
}

/// Whether the bytes from `at` on are the ones expected.
fn matches_at(file: &[u8], at: usize, expected: &[u8]) -> (same: bool)
    requires
        at + expected@.len() <= file@.len(),
    ensures
        same == (file@.subrange(at as int, at + expected@.len()) == expected@),
{
    let size: usize = file.len();
    let mut i: usize = 0;
    while i < expected.len()
        invariant
            i <= expected@.len(),
            size == file@.len(),
            at + expected@.len() <= size,
            forall|j: int| 0 <= j < i ==> file@[at + j] == #[trigger] expected@[j],
        decreases expected@.len() - i,
    {
        if file[at + i] != expected[i] {
            assert(file@.subrange(at as int, at + expected@.len())[i as int] != expected@[i as int]);
            return false;
        }
        i = i + 1;
    }
    assert(file@.subrange(at as int, at + expected@.len()) =~= expected@);
    true
}

/// Collects what the chunks of a file say.
fn walk(file: &[u8]) -> (found: Option<(u32, u32, Vec<u8>)>)
    requires
        file@.len() >= 8,
    ensures
        match found {
            Some((width, height, stream)) => walked(
                file@,
                8,
                (Found { width: 0, height: 0, stream: Seq::empty() }),
            ) == Some(
                (Found { width: width as int, height: height as int, stream: stream@ }),
            ),
            None => walked(file@, 8, (Found { width: 0, height: 0, stream: Seq::empty() })) is None,
        },
{
    let size: usize = file.len();
    let head: [u8; 4] = [0x49, 0x48, 0x44, 0x52];
    let data: [u8; 4] = [0x49, 0x44, 0x41, 0x54];
    let end: [u8; 4] = [0x49, 0x45, 0x4E, 0x44];
    let format: [u8; 5] = [8, 2, 0, 0, 0];
    assert(head@ =~= header_kind());
    assert(data@ =~= data_kind());
    assert(end@ =~= end_kind());
    assert(format@ =~= format_bytes());
    let mut width: u32 = 0;
    let mut height: u32 = 0;
    let mut stream: Vec<u8> = Vec::new();
    let mut at: usize = 8;
    let mut over: bool = size < 16;
    let ghost whole = walked(file@, 8, Found { width: 0, height: 0, stream: Seq::empty() });
    assert(stream@ =~= Seq::empty());
    while !over
        invariant
            size == file@.len(),
            head@ == header_kind(),
            data@ == data_kind(),
            end@ == end_kind(),
            format@ == format_bytes(),
            !over ==> at + 8 <= size,
            !over ==> whole == walked(
                file@,
                at as int,
                (Found { width: width as int, height: height as int, stream: stream@ }),
            ),
            over ==> whole == Some(
                (Found { width: width as int, height: height as int, stream: stream@ }),
            ),
            whole == walked(file@, 8, (Found { width: 0, height: 0, stream: Seq::empty() })),
        decreases size - at + (if over {
            0int
        } else {
            1
        }),
    {
        let len: u32 = bytes::get_big(file, at);
        let room: usize = size - (at + 8);
        if len as u64 > room as u64 {
            return None;
        }
        let body: usize = at + 8;
        let stop: usize = body + len as usize;
        let mut last: bool = size - stop < 12;
        let ghost found = Found { width: width as int, height: height as int, stream: stream@ };
        if matches_at(file, at + 4, &head) {
            if len < 13 {
                return None;
            }
            assert(file@.subrange(body as int, stop as int).subrange(8, 13) =~= file@.subrange(
                body + 8,
                body + 13,
            ));
            if !matches_at(file, body + 8, &format) {
                return None;
            }
            assert(file@.subrange(body as int, stop as int).subrange(0, 4) =~= file@.subrange(
                body as int,
                body + 4,
            ));
            assert(file@.subrange(body as int, stop as int).subrange(4, 8) =~= file@.subrange(
                body + 4,
                body + 8,
            ));
            width = bytes::get_big(file, body);
            height = bytes::get_big(file, body + 4);
        } else if matches_at(file, at + 4, &data) {
            bytes::put_range(&mut stream, file, body, stop);
        } else if matches_at(file, at + 4, &end) {
            last = true;
        }
        proof {
            let added = Found { width: width as int, height: height as int, stream: stream@ };
            if size - stop < 12 {
                assert(walked(file@, stop + 4, added) == Some(added));
            }
            assert(added.stream =~= found.stream || added.stream =~= found.stream + file@.subrange(
                body as int,
                stop as int,
            ));
        }
        if last {
            over = true;
        } else {
            at = stop + 4;
        }
    }
    Some((width, height, stream))
}

/// Collects what the stored blocks of a stream hold.
fn unstored(stream: &[u8]) -> (raw: Option<Vec<u8>>)
    requires
        stream@.len() >= 2,
    ensures
        match raw {
            Some(raw) => unblocked(stream@, 2) == Some(raw@),
            None => unblocked(stream@, 2) is None,
        },
{
    let size: usize = stream.len();
    let mut raw: Vec<u8> = Vec::new();
    let mut at: usize = 2;
    let mut over: bool = false;
    let ghost whole = unblocked(stream@, 2);
    while !over
        invariant
            size == stream@.len(),
            at <= size,
            whole == unblocked(stream@, 2),
            over ==> whole == Some(raw@),
            !over ==> match unblocked(stream@, at as int) {
                Some(rest) => whole == Some(raw@ + rest),
                None => whole is None,
            },
        decreases size - at + (if over {
            0int
        } else {
            1
        }),
    {
        if size - at < 5 {
            if size - at >= 3 {
                proof {
                    bytes::lemma_read_little_bound(stream@.subrange(at + 1, at + 3));
                }
            }
            return None;
        }
        let len: usize = bytes::get_little(stream, at + 1, 2) as usize;
        proof {
            bytes::lemma_limits();
        }
        if len > size - (at + 5) {
            return None;
        }
        let ghost before = raw@;
        let last: bool = stream[at] % 2 == 1;
        bytes::put_range(&mut raw, stream, at + 5, at + 5 + len);
        let ghost data = stream@.subrange(at + 5, at + 5 + len);
        if last {
            over = true;
        } else {
            proof {
                if let Some(rest) = unblocked(stream@, at + 5 + len) {
                    assert(before + (data + rest) =~= raw@ + rest);
                }
            }
            at = at + 5 + len;
        }
    }
    Some(raw)
}

/// Strips the filter bytes of the rows.
fn pixels(width: u32, height: u32, raw: &[u8]) -> (rgb: Option<Vec<u8>>)
    requires
        height * (1 + 3 * width) <= raw@.len(),
    ensures
        match rgb {
            Some(rgb) => unfiltered_rows(3 * width, height as int, raw@) == Some(rgb@),
            None => unfiltered_rows(3 * width, height as int, raw@) is None,
        },
{
    let size: usize = raw.len();
    let mut rgb: Vec<u8> = Vec::new();
    let mut row: u32 = 0;
    let mut at: usize = 0;
    assert(rgb@ =~= Seq::empty());
    while row < height
        invariant
            row <= height,
            size == raw@.len(),
            height * (1 + 3 * width) <= size,
            at == row * (1 + 3 * width),
            unfiltered_rows(3 * width, row as int, raw@) == Some(rgb@),
        decreases height - row,
    {
        let ghost stride = 3 * width;
        assert((row + 1) * (1 + stride) == row * (1 + stride) + (1 + stride)) by (nonlinear_arith);
        assert((row + 1) * (1 + stride) <= height * (1 + stride)) by (nonlinear_arith)
            requires
                row + 1 <= height,
                stride >= 0,
        ;
        let step: usize = width as usize;
        let end: usize = at + 1 + step + step + step;
        if raw[at] != 0 {
            proof {
                lemma_filtered(stride, row + 1, height as int, raw@);
            }
            return None;
        }
        let ghost before = rgb@;
        bytes::put_range(&mut rgb, raw, at + 1, end);
        assert((row + 1 - 1) * (1 + stride) == at);
        row = row + 1;
        at = end;
    }
    Some(rgb)
}

/// A filtered row is refused however many follow it.
proof fn lemma_filtered(stride: int, rows: int, all: int, raw: Seq<u8>)
    requires
        1 <= rows <= all,
        unfiltered_rows(stride, rows, raw) is None,
    ensures
        unfiltered_rows(stride, all, raw) is None,
    decreases all,
{
    if rows < all {
        lemma_filtered(stride, rows, all - 1, raw);
    }
}

/// Reads back a picture that [`encode`] wrote.
///
/// It handles what that writes and nothing else: truecolour of eight bits, no
/// interlacing, no filters and stored blocks. A file from anywhere else is
/// refused.
pub fn decode(file: &[u8]) -> (found: Option<(usize, usize, Vec<u8>)>)
    ensures
        match found {
            Some((width, height, rgb)) => picture(file@) == Some(
                (width as int, height as int, rgb@),
            ),
            None => picture(file@) is None,
        },
{
    let mark: [u8; 8] = [0x89, 0x50, 0x4E, 0x47, 0x0D, 0x0A, 0x1A, 0x0A];
    assert(mark@ =~= signature());
    if file.len() < 8 || !matches_at(file, 0, &mark) {
        return None;
    }
    let (width, height, stream): (u32, u32, Vec<u8>) = match walk(file) {
        Some(found) => found,
        None => {
            return None;
        },
    };
    if width == 0 || height == 0 || stream.len() < 6 {
        return None;
    }
    let raw: Vec<u8> = match unstored(&stream) {
        Some(raw) => raw,
        None => {
            return None;
        },
    };
    let stride: u64 = 1 + 3 * width as u64;
    assert(height * stride <= 0x1_0000_0000 * 0x4_0000_0000) by (nonlinear_arith)
        requires
            0 <= height <= 0x1_0000_0000,
            0 <= stride <= 0x4_0000_0000,
    ;
    let needed: u128 = height as u128 * stride as u128;
    if (raw.len() as u128) < needed {
        return None;
    }
    match pixels(width, height, &raw) {
        Some(rgb) => Some((width as usize, height as usize, rgb)),
        None => None,
    }
}

proof fn lemma_chunk_reads_back(file: Seq<u8>, at: int, kind: Seq<u8>, body: Seq<u8>)
    requires
        kind.len() == 4,
        body.len() <= u32::MAX,
        0 <= at,
        at + 12 + body.len() <= file.len(),
        file.subrange(at, at + 12 + body.len()) == chunk_bytes(kind, body),
    ensures
        bytes::read_big(file.subrange(at, at + 4)) == body.len(),
        file.subrange(at + 4, at + 8) == kind,
        file.subrange(at + 8, at + 8 + body.len()) == body,
{
    let whole = chunk_bytes(kind, body);
    let part = file.subrange(at, at + 12 + body.len());
    bytes::lemma_big_reads_back(body.len() as int);
    assert(file.subrange(at, at + 4) =~= part.subrange(0, 4));
    assert(whole.subrange(0, 4) =~= bytes::big(body.len() as int));
    assert(file.subrange(at + 4, at + 8) =~= part.subrange(4, 8));
    assert(whole.subrange(4, 8) =~= kind);
    assert(file.subrange(at + 8, at + 8 + body.len()) =~= part.subrange(8, 8 + body.len() as int));
    assert(whole.subrange(8, 8 + body.len() as int) =~= body);
}

proof fn lemma_block_reads_back(stream: Seq<u8>, at: int, last: bool, data: Seq<u8>)
    requires
        data.len() <= BLOCK,
        0 <= at,
        at + 5 + data.len() <= stream.len(),
        stream.subrange(at, at + 5 + data.len()) == block(last, data),
    ensures
        stream[at] % 2 == 1 <==> last,
        bytes::read_little(stream.subrange(at + 1, at + 3)) == data.len(),
        stream.subrange(at + 5, at + 5 + data.len()) == data,
{
    let whole = block(last, data);
    let part = stream.subrange(at, at + 5 + data.len());
    bytes::lemma_limits();
    bytes::lemma_little_len(data.len() as int, 2);
    bytes::lemma_little_len(65535 - data.len(), 2);
    bytes::lemma_little_reads_back(data.len() as int, 2);
    assert(stream[at] == part[0]);
    assert(stream.subrange(at + 1, at + 3) =~= part.subrange(1, 3));
    assert(whole.subrange(1, 3) =~= bytes::little(data.len() as int, 2));
    assert(stream.subrange(at + 5, at + 5 + data.len()) =~= part.subrange(5, 5 + data.len() as int));
    assert(whole.subrange(5, 5 + data.len() as int) =~= data);
}

proof fn lemma_block_len(last: bool, data: Seq<u8>)
    ensures
        block(last, data).len() == 5 + data.len(),
{
    bytes::lemma_little_len(data.len() as int, 2);
    bytes::lemma_little_len(65535 - data.len(), 2);
}

proof fn lemma_blocks_read_back(stream: Seq<u8>, at: int, data: Seq<u8>)
    requires
        0 <= at,
        at + blocks(data).len() <= stream.len(),
        stream.subrange(at, at + blocks(data).len()) == blocks(data),
    ensures
        unblocked(stream, at) == Some(data),
    decreases data.len(),
{
    let whole = blocks(data);
    let part = stream.subrange(at, at + whole.len());
    if data.len() <= BLOCK {
        lemma_block_len(true, data);
        lemma_block_reads_back(stream, at, true, data);
    } else {
        let (first, rest) = (data.take(BLOCK as int), data.skip(BLOCK as int));
        let next = at + 5 + BLOCK;
        lemma_block_len(false, first);
        assert(stream.subrange(at, next) =~= part.take(5 + BLOCK as int));
        assert(whole.take(5 + BLOCK as int) =~= block(false, first));
        lemma_block_reads_back(stream, at, false, first);
        assert(stream.subrange(next, next + blocks(rest).len()) =~= part.skip(5 + BLOCK as int));
        assert(whole.skip(5 + BLOCK as int) =~= blocks(rest));
        lemma_blocks_read_back(stream, next, rest);
        assert(first + rest =~= data);
    }
}

proof fn lemma_blocks_nonempty(data: Seq<u8>)
    ensures
        blocks(data).len() >= 5,
    decreases data.len(),
{
    if data.len() <= BLOCK {
        lemma_block_len(true, data);
    } else {
        lemma_block_len(false, data.take(BLOCK as int));
    }
}

proof fn lemma_rows_read_back(stride: int, rows: int, rgb: Seq<u8>, raw: Seq<u8>)
    requires
        0 <= stride,
        0 <= rows,
        rows * stride <= rgb.len(),
        scanlines(stride, rows, rgb).len() <= raw.len(),
        raw.take(scanlines(stride, rows, rgb).len() as int) == scanlines(stride, rows, rgb),
    ensures
        scanlines(stride, rows, rgb).len() == rows * (1 + stride),
        unfiltered_rows(stride, rows, raw) == Some(rgb.take(rows * stride)),
    decreases rows,
{
    if rows > 0 {
        let before = scanlines(stride, rows - 1, rgb);
        let line = rgb.subrange((rows - 1) * stride, rows * stride);
        let whole = scanlines(stride, rows, rgb);
        assert(rows * stride == (rows - 1) * stride + stride) by (nonlinear_arith);
        assert(0 <= (rows - 1) * stride) by (nonlinear_arith)
            requires
                rows >= 1,
                stride >= 0,
        ;
        assert(rows * (1 + stride) == (rows - 1) * (1 + stride) + 1 + stride) by (nonlinear_arith);
        assert(line.len() == stride);
        assert(whole.take(before.len() as int) =~= before);
        assert(raw.take(before.len() as int) =~= raw.take(whole.len() as int).take(
            before.len() as int,
        ));
        lemma_rows_read_back(stride, rows - 1, rgb, raw);
        let at = (rows - 1) * (1 + stride);
        assert(raw[at] == raw.take(whole.len() as int)[at]);
        assert(whole[at] == 0);
        assert(raw.subrange(at + 1, at + 1 + stride) =~= raw.take(whole.len() as int).subrange(
            at + 1,
            at + 1 + stride,
        ));
        assert(whole.subrange(at + 1, at + 1 + stride) =~= line);
        assert(rgb.take((rows - 1) * stride) + line =~= rgb.take(rows * stride));
    } else {
        assert(0 * stride == 0);
        assert(0 * (1 + stride) == 0);
        assert(rgb.take(0) =~= Seq::empty());
    }
}

proof fn lemma_kinds_differ()
    ensures
        data_kind() != header_kind(),
        end_kind() != header_kind(),
        end_kind() != data_kind(),
{
    assert(data_kind()[1] != header_kind()[1]);
    assert(end_kind()[1] != header_kind()[1]);
    assert(end_kind()[1] != data_kind()[1]);
}

proof fn lemma_walk_header(file: Seq<u8>, at: int, width: int, height: int, found: Found)
    requires
        0 <= width <= u32::MAX,
        0 <= height <= u32::MAX,
        0 <= at,
        at + 25 <= file.len(),
        file.subrange(at, at + 25) == chunk_bytes(header_kind(), header(width, height)),
    ensures
        walked(file, at, found) == walked(file, at + 25, (Found { width, height, ..found })),
{
    let head = header(width, height);
    assert(head.len() == 13);
    lemma_chunk_reads_back(file, at, header_kind(), head);
    bytes::lemma_big_reads_back(width);
    bytes::lemma_big_reads_back(height);
    assert(head.subrange(0, 4) =~= bytes::big(width));
    assert(head.subrange(4, 8) =~= bytes::big(height));
    assert(head.subrange(8, 13) =~= format_bytes());
}

proof fn lemma_walk_data(file: Seq<u8>, at: int, stream: Seq<u8>, found: Found)
    requires
        stream.len() <= u32::MAX,
        0 <= at,
        at + 12 + stream.len() <= file.len(),
        file.subrange(at, at + 12 + stream.len()) == chunk_bytes(data_kind(), stream),
    ensures
        walked(file, at, found) == walked(
            file,
            at + 12 + stream.len(),
            (Found { stream: found.stream + stream, ..found }),
        ),
{
    lemma_chunk_reads_back(file, at, data_kind(), stream);
    lemma_kinds_differ();
}

proof fn lemma_walk_end(file: Seq<u8>, at: int, found: Found)
    requires
        0 <= at,
        at + 12 <= file.len(),
        file.subrange(at, at + 12) == chunk_bytes(end_kind(), Seq::empty()),
    ensures
        walked(file, at, found) == Some(found),
{
    lemma_chunk_reads_back(file, at, end_kind(), Seq::empty());
    lemma_kinds_differ();
}

proof fn lemma_chunks_read_back(width: int, height: int, stream: Seq<u8>)
    requires
        0 <= width <= u32::MAX,
        0 <= height <= u32::MAX,
        stream.len() <= u32::MAX,
    ensures
        ({
            let file = signature() + chunk_bytes(header_kind(), header(width, height)) + chunk_bytes(
                data_kind(),
                stream,
            ) + chunk_bytes(end_kind(), Seq::empty());
            &&& file.len() >= 8
            &&& file.subrange(0, 8) == signature()
            &&& walked(file, 8, (Found { width: 0, height: 0, stream: Seq::empty() })) == Some(
                (Found { width, height, stream }),
            )
        }),
{
    let first = chunk_bytes(header_kind(), header(width, height));
    let second = chunk_bytes(data_kind(), stream);
    let third = chunk_bytes(end_kind(), Seq::empty());
    let file = signature() + first + second + third;
    let empty = Found { width: 0, height: 0, stream: Seq::empty() };
    let sized = Found { width, height, stream: Seq::empty() };
    let c: int = 45 + stream.len() as int;
    assert(first.len() == 25 && second.len() == 12 + stream.len() && third.len() == 12);
    assert(file.subrange(0, 8) =~= signature());
    assert(file.subrange(8, 33) =~= first);
    assert(file.subrange(33, c) =~= second);
    assert(file.subrange(c, c + 12) =~= third);
    lemma_walk_header(file, 8, width, height, empty);
    lemma_walk_data(file, 33, stream, sized);
    assert(Seq::empty() + stream =~= stream);
    lemma_walk_end(file, c, Found { width, height, stream });
}

/// A picture that was written reads back pixel for pixel, wherever its size
/// and its data fit the four bytes that the format gives them.
pub proof fn law_a_written_picture_reads_back(width: int, height: int, rgb: Seq<u8>)
    requires
        0 < width <= u32::MAX,
        0 < height <= u32::MAX,
        rgb.len() == width * height * 3,
        zlib(scanlines(3 * width, height, rgb)).len() <= u32::MAX,
    ensures
        picture(png(width, height, rgb)) == Some((width, height, rgb)),
{
    let raw = scanlines(3 * width, height, rgb);
    let stream = zlib(raw);
    lemma_chunks_read_back(width, height, stream);
    lemma_blocks_nonempty(raw);
    assert(stream.subrange(2, 2 + blocks(raw).len() as int) =~= blocks(raw));
    lemma_blocks_read_back(stream, 2, raw);
    assert(height * (3 * width) == width * height * 3) by (nonlinear_arith);
    assert(raw.take(raw.len() as int) =~= raw);
    lemma_rows_read_back(3 * width, height, rgb, raw);
    assert(rgb.take(height * (3 * width)) =~= rgb);
}

/// Where the pixels of a picture stand: every row begins with a nought, and
/// behind it come the bytes of the row in order.
pub proof fn law_rows_stand_behind_a_nought(stride: int, rows: int, rgb: Seq<u8>, row: int)
    requires
        0 <= stride,
        0 <= row < rows,
        rgb.len() == rows * stride,
    ensures
        scanlines(stride, rows, rgb).len() == rows * (1 + stride),
        scanlines(stride, rows, rgb)[row * (1 + stride)] == 0,
        forall|k: int|
            0 <= k < stride ==> scanlines(stride, rows, rgb)[row * (1 + stride) + 1 + k] == #[trigger] rgb[row * stride
                + k],
{
    lemma_row_in_order(stride, rows, rows, rgb, row);
}

/// The first rows stand in order, whatever follows them.
proof fn lemma_row_in_order(stride: int, rows: int, all: int, rgb: Seq<u8>, row: int)
    requires
        0 <= stride,
        0 <= row < rows <= all,
        rgb.len() == all * stride,
    ensures
        scanlines(stride, rows, rgb).len() == rows * (1 + stride),
        scanlines(stride, rows, rgb)[row * (1 + stride)] == 0,
        forall|k: int|
            0 <= k < stride ==> scanlines(stride, rows, rgb)[row * (1 + stride) + 1 + k] == #[trigger] rgb[row * stride
                + k],
    decreases rows,
{
    let before = scanlines(stride, rows - 1, rgb);
    let whole = scanlines(stride, rows, rgb);
    let (from, to) = ((rows - 1) * stride, rows * stride);
    assert(0 <= from && from + stride == to && to <= all * stride) by (nonlinear_arith)
        requires
            0 <= stride,
            1 <= rows <= all,
            from == (rows - 1) * stride,
            to == rows * stride,
    ;
    let end = (rows - 1) * (1 + stride);
    assert(end + 1 + stride == rows * (1 + stride)) by (nonlinear_arith)
        requires
            end == (rows - 1) * (1 + stride),
    ;
    if rows > 1 {
        lemma_row_in_order(stride, rows - 1, all, rgb, if row < rows - 1 {
            row
        } else {
            0
        });
    } else {
        assert(before.len() == 0);
        assert(end == 0) by (nonlinear_arith)
            requires
                rows == 1,
                end == (rows - 1) * (1 + stride),
        ;
    }
    let line = rgb.subrange(from, to);
    assert(whole =~= before + seq![0u8] + line);
    if row < rows - 1 {
        assert(0 <= row * (1 + stride) && row * (1 + stride) + 1 + stride <= end) by (nonlinear_arith)
            requires
                0 <= row < rows - 1,
                0 <= stride,
                end == (rows - 1) * (1 + stride),
        ;
    } else {
        assert forall|k: int| 0 <= k < stride implies whole[row * (1 + stride) + 1 + k] == #[trigger] rgb[row * stride
            + k] by {
            assert(whole[end + 1 + k] == line[k]);
        }
    }
}

/// A checksum goes on where it stopped: over two stretches, one after the
/// other, it is the checksum of both together.
pub proof fn law_a_checksum_goes_on(running: u32, first: Seq<u8>, second: Seq<u8>)
    ensures
        crc(running, first + second) == crc(crc(running, first), second),
        crc(running, Seq::empty()) == running,
{
    let held = divided(!running, first);
    assert(!!held == held) by (bit_vector);
    assert(!!running == running) by (bit_vector);
    lemma_divided_goes_on(!running, first, second);
}

/// The register takes in one stretch after another.
proof fn lemma_divided_goes_on(register: u32, first: Seq<u8>, second: Seq<u8>)
    ensures
        divided(register, first + second) == divided(divided(register, first), second),
    decreases second.len(),
{
    if second.len() == 0 {
        assert(first + second =~= first);
    } else {
        lemma_divided_goes_on(register, first, second.drop_last());
        assert((first + second).drop_last() =~= first + second.drop_last());
    }
}

/// How a chunk is framed: the length of its body, its name, its body and the
/// checksum of name and body together.
pub proof fn law_chunks_are_framed(kind: Seq<u8>, body: Seq<u8>)
    requires
        kind.len() == 4,
        body.len() <= u32::MAX,
    ensures
        ({
            let all = chunk_bytes(kind, body);
            &&& all.len() == 12 + body.len()
            &&& all[0] * 0x100_0000 + all[1] * 0x1_0000 + all[2] * 0x100 + all[3] == body.len()
            &&& all.subrange(4, 8int + body.len()) == kind + body
            &&& all.skip(8int + body.len()) == bytes::big(crc(0, kind + body) as int)
        }),
{
    law_a_checksum_goes_on(0, kind, body);
    bytes::law_the_highest_byte_is_first(body.len() as int);
    let all = chunk_bytes(kind, body);
    assert(all.subrange(4, 8int + body.len()) =~= kind + body);
    assert(all.skip(8int + body.len()) =~= bytes::big(crc(0, kind + body) as int));
    assert(all[0] == bytes::big(body.len() as int)[0]);
    assert(all[1] == bytes::big(body.len() as int)[1]);
    assert(all[2] == bytes::big(body.len() as int)[2]);
    assert(all[3] == bytes::big(body.len() as int)[3]);
}

/// How a file of a picture is laid out: the mark of the format, then a chunk
/// that says how wide and how high the picture is, eight bits to each of three
/// samples and nothing interlaced, then the data, then an empty chunk.
pub proof fn law_a_picture_file_is_laid_out(width: int, height: int, rgb: Seq<u8>)
    requires
        0 <= width <= u32::MAX,
        0 <= height <= u32::MAX,
    ensures
        ({
            let file = png(width, height, rgb);
            let data = chunk_bytes(
                seq![0x49u8, 0x44u8, 0x41u8, 0x54u8],
                zlib(scanlines(3 * width, height, rgb)),
            );
            &&& file.subrange(0, 16) == seq![
                0x89u8,
                0x50u8,
                0x4Eu8,
                0x47u8,
                0x0Du8,
                0x0Au8,
                0x1Au8,
                0x0Au8,
                0u8,
                0u8,
                0u8,
                13u8,
                0x49u8,
                0x48u8,
                0x44u8,
                0x52u8,
            ]
            &&& file[16] * 0x100_0000 + file[17] * 0x1_0000 + file[18] * 0x100 + file[19] == width
            &&& file[20] * 0x100_0000 + file[21] * 0x1_0000 + file[22] * 0x100 + file[23] == height
            &&& file.subrange(24, 29) == seq![8u8, 2u8, 0u8, 0u8, 0u8]
            &&& file.subrange(33, 33int + data.len()) == data
            &&& file.skip(33int + data.len()) == chunk_bytes(
                seq![0x49u8, 0x45u8, 0x4Eu8, 0x44u8],
                Seq::empty(),
            )
        }),
{
    let file = png(width, height, rgb);
    let data = chunk_bytes(data_kind(), zlib(scanlines(3 * width, height, rgb)));
    let first = chunk_bytes(header_kind(), header(width, height));
    assert(first.len() == 25);
    assert(file =~= signature() + first + data + chunk_bytes(end_kind(), Seq::empty()));
    assert(file.subrange(33, 33int + data.len()) =~= data);
    assert(file.skip(33int + data.len()) =~= chunk_bytes(end_kind(), Seq::empty()));
    assert(bytes::big(13) =~= seq![0u8, 0u8, 0u8, 13u8]);
    assert(file.subrange(0, 8) =~= signature());
    assert(file.subrange(0, 16) =~= signature() + bytes::big(13) + header_kind());
    bytes::law_the_highest_byte_is_first(width);
    bytes::law_the_highest_byte_is_first(height);
    assert(file[16] == bytes::big(width)[0] && file[17] == bytes::big(width)[1] && file[18] == bytes::big(width)[2]
        && file[19] == bytes::big(width)[3]);
    assert(file[20] == bytes::big(height)[0] && file[21] == bytes::big(height)[1] && file[22] == bytes::big(height)[2]
        && file[23] == bytes::big(height)[3]);
    assert(file.subrange(24, 29) =~= format_bytes());
}

/// How bytes are stored in blocks: as many as a block can hold to each but the
/// last, which alone is marked so. A block says how many bytes it holds, and the
/// same with every bit turned over.
pub proof fn law_blocks_are_filled_in_turn(data: Seq<u8>)
    ensures
        ({
            let all = blocks(data);
            let held = if data.len() <= 65535 {
                data.len() as int
            } else {
                65535
            };
            &&& all.len() >= 5 + held
            &&& all[0] == (if data.len() <= 65535 {
                1int
            } else {
                0
            })
            &&& all[1] + 256 * all[2] == held
            &&& all[3] + 256 * all[4] == 65535 - held
            &&& all.subrange(5, 5 + held) == data.take(held)
            &&& data.len() <= 65535 ==> all.len() == 5 + held
            &&& data.len() > 65535 ==> all.skip(5 + held) == blocks(data.skip(held))
        }),
{
    let last = data.len() <= 65535;
    let held = if last {
        data.len() as int
    } else {
        65535
    };
    let part = data.take(held);
    let head = block(last, part);
    bytes::lemma_little_len(held, 2);
    bytes::lemma_little_len(65535 - held, 2);
    reveal_with_fuel(bytes::little, 3);
    assert(head.len() == 5 + held);
    assert(head.subrange(5, 5 + held) =~= part);
    assert(head[1] == bytes::little(held, 2)[0] && head[2] == bytes::little(held, 2)[1]);
    assert(head[3] == bytes::little(65535 - held, 2)[0] && head[4] == bytes::little(65535 - held, 2)[1]);
    let all = blocks(data);
    if last {
        assert(part =~= data);
    } else {
        assert(all =~= head + blocks(data.skip(held)));
        assert(all.skip(5 + held) =~= blocks(data.skip(held)));
    }
    assert(all.subrange(5, 5 + held) =~= part);
}

/// How the sum that ends a stream moves on with a byte: the low half by the byte
/// and the high half by the low one, both modulo 65521. It begins with one.
pub proof fn law_the_sum_moves_on_with_a_byte(data: Seq<u8>, byte: u8)
    ensures
        adler(Seq::empty()) == 1,
        adler(data.push(byte)) % 65536 == (adler(data) % 65536 + byte) % 65521,
        adler(data.push(byte)) / 65536 == (adler(data) / 65536 + adler(data.push(byte)) % 65536) % 65521,
{
    let more = data.push(byte);
    assert(more.drop_last() =~= data);
    lemma_halves(data);
    lemma_halves(more);
    lemma_halves(Seq::empty());
}

/// Both halves of a sum fit their places.
proof fn lemma_halves(data: Seq<u8>)
    ensures
        0 <= adler_low(data) < 65521,
        0 <= adler_high(data) < 65521,
        adler(data) % 65536 == adler_low(data),
        adler(data) / 65536 == adler_high(data),
{
}

/// What a file must be to hold a picture: it begins with the mark of the format,
/// its picture has some width and some height, and three bytes for every pixel.
pub proof fn law_only_pictures_are_read(file: Seq<u8>)
    requires
        picture(file) is Some,
    ensures
        file.len() >= 8,
        file.subrange(0, 8) == seq![0x89u8, 0x50u8, 0x4Eu8, 0x47u8, 0x0Du8, 0x0Au8, 0x1Au8, 0x0Au8],
        ({
            let (width, height, rgb) = picture(file)->0;
            &&& width != 0
            &&& height != 0
            &&& width >= 0 && height >= 0 ==> rgb.len() == height * (3 * width)
        }),
{
    let found = walked(file, 8, (Found { width: 0, height: 0, stream: Seq::empty() }))->0;
    let raw = unblocked(found.stream, 2)->0;
    if found.width >= 0 && found.height >= 0 {
        assert(1 + 3 * found.width == 3 * found.width + 1);
        lemma_rows_read(3 * found.width, found.height, found.height, raw);
    }
}

/// Rows that are read are as long as they should be, and were not filtered.
proof fn lemma_rows_read(stride: int, rows: int, all: int, raw: Seq<u8>)
    requires
        0 <= stride,
        0 <= rows <= all,
        raw.len() >= all * (1 + stride),
        unfiltered_rows(stride, rows, raw) is Some,
    ensures
        unfiltered_rows(stride, rows, raw)->0.len() == rows * stride,
    decreases rows,
{
    if rows == 0 {
        assert(rows * stride == 0) by (nonlinear_arith)
            requires
                rows == 0,
        ;
    } else {
        lemma_rows_read(stride, rows - 1, all, raw);
        let at = (rows - 1) * (1 + stride);
        assert(0 <= at && at + 1 + stride <= all * (1 + stride) && (rows - 1) * stride + stride == rows * stride)
            by (nonlinear_arith)
            requires
                0 <= stride,
                1 <= rows <= all,
                at == (rows - 1) * (1 + stride),
        ;
    }
}

/// A picture is read only from rows that are not filtered, and then each pixel
/// comes from its place.
pub proof fn law_rows_are_read_in_order(stride: int, rows: int, raw: Seq<u8>, row: int)
    requires
        0 <= stride,
        0 <= row < rows,
        raw.len() >= rows * (1 + stride),
    ensures
        raw[row * (1 + stride)] != 0 ==> unfiltered_rows(stride, rows, raw) is None,
        unfiltered_rows(stride, rows, raw) matches Some(rgb) ==> forall|k: int|
            0 <= k < stride ==> #[trigger] rgb[row * stride + k] == raw[row * (1 + stride) + 1 + k],
{
    lemma_row_read(stride, rows, rows, raw, row);
}

/// One of the rows that are read.
proof fn lemma_row_read(stride: int, rows: int, all: int, raw: Seq<u8>, row: int)
    requires
        0 <= stride,
        0 <= row < rows <= all,
        raw.len() >= all * (1 + stride),
    ensures
        raw[row * (1 + stride)] != 0 ==> unfiltered_rows(stride, rows, raw) is None,
        unfiltered_rows(stride, rows, raw) matches Some(rgb) ==> forall|k: int|
            0 <= k < stride ==> #[trigger] rgb[row * stride + k] == raw[row * (1 + stride) + 1 + k],
    decreases rows,
{
    if row < rows - 1 {
        lemma_row_read(stride, rows - 1, all, raw, row);
    }
    if let Some(rgb) = unfiltered_rows(stride, rows, raw) {
        let before = unfiltered_rows(stride, rows - 1, raw)->0;
        lemma_rows_read(stride, rows - 1, all, raw);
        let at = (rows - 1) * (1 + stride);
        assert(0 <= at && at + 1 + stride <= all * (1 + stride)) by (nonlinear_arith)
            requires
                0 <= stride,
                1 <= rows <= all,
                at == (rows - 1) * (1 + stride),
        ;
        assert forall|k: int| 0 <= k < stride implies #[trigger] rgb[row * stride + k] == raw[row * (1 + stride) + 1
            + k] by {
            if row < rows - 1 {
                assert(0 <= row * stride && row * stride + stride <= (rows - 1) * stride) by (nonlinear_arith)
                    requires
                        0 <= row < rows - 1,
                        0 <= stride,
                ;
                assert(rgb[row * stride + k] == before[row * stride + k]);
            } else {
                assert(rgb[row * stride + k] == raw.subrange(at + 1, at + 1 + stride)[k]);
            }
        }
    }
}

} // verus!
