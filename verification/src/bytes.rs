//! Numbers as bytes, lowest or highest byte first.
use vstd::prelude::*;

verus! {

/// The `width` lowest bytes of a number, lowest first.
pub open spec fn little(value: int, width: nat) -> Seq<u8>
    decreases width,
{
    if width == 0 {
        Seq::empty()
    } else {
        seq![(value % 256) as u8] + little(value / 256, (width - 1) as nat)
    }
}

/// The number that bytes stand for, lowest first.
pub open spec fn read_little(bytes: Seq<u8>) -> int
    decreases bytes.len(),
{
    if bytes.len() == 0 {
        0
    } else {
        bytes[0] + 256 * read_little(bytes.skip(1))
    }
}

/// How many numbers `width` bytes tell apart.
pub open spec fn limit(width: nat) -> int
    decreases width,
{
    if width == 0 {
        1
    } else {
        256 * limit((width - 1) as nat)
    }
}

/// The four lowest bytes of a number, highest first.
pub open spec fn big(value: int) -> Seq<u8> {
    seq![
        (value / 16777216 % 256) as u8,
        (value / 65536 % 256) as u8,
        (value / 256 % 256) as u8,
        (value % 256) as u8,
    ]
}

/// The number that four bytes stand for, highest first.
pub open spec fn read_big(bytes: Seq<u8>) -> int {
    bytes[0] * 16777216 + bytes[1] * 65536 + bytes[2] * 256 + bytes[3]
}

pub proof fn lemma_little_len(value: int, width: nat)
    ensures
        little(value, width).len() == width,
    decreases width,
{
    if width > 0 {
        lemma_little_len(value / 256, (width - 1) as nat);
    }
}

/// A number that fits in its bytes reads back.
pub proof fn lemma_little_reads_back(value: int, width: nat)
    requires
        0 <= value < limit(width),
    ensures
        read_little(little(value, width)) == value,
    decreases width,
{
    lemma_little_len(value, width);
    if width > 0 {
        let rest = little(value / 256, (width - 1) as nat);
        lemma_little_len(value / 256, (width - 1) as nat);
        lemma_little_reads_back(value / 256, (width - 1) as nat);
        assert(little(value, width).skip(1) =~= rest);
    }
}

pub proof fn lemma_read_little_bound(bytes: Seq<u8>)
    ensures
        0 <= read_little(bytes) < limit(bytes.len()),
    decreases bytes.len(),
{
    if bytes.len() > 0 {
        lemma_read_little_bound(bytes.skip(1));
    }
}

/// Any bytes are those of the number they stand for.
pub proof fn lemma_bytes_read_back(bytes: Seq<u8>)
    ensures
        little(read_little(bytes), bytes.len()) == bytes,
    decreases bytes.len(),
{
    if bytes.len() > 0 {
        lemma_bytes_read_back(bytes.skip(1));
        let rest = read_little(bytes.skip(1));
        assert((bytes[0] + 256 * rest) % 256 == bytes[0]);
        assert((bytes[0] + 256 * rest) / 256 == rest);
        assert(bytes =~= seq![bytes[0]] + bytes.skip(1));
    }
}

pub proof fn lemma_limits()
    ensures
        limit(1) == 256,
        limit(2) == 65536,
        limit(4) == 4294967296,
        limit(8) == 18446744073709551616,
{
    reveal_with_fuel(limit, 9);
}

/// Appends the `width` lowest bytes of a number, lowest first.
pub fn put_little(out: &mut Vec<u8>, value: u64, width: usize)
    ensures
        final(out)@ == old(out)@ + little(value as int, width as nat),
{
    let ghost start = out@;
    let mut rest: u64 = value;
    let mut done: usize = 0;
    while done < width
        invariant
            done <= width,
            start + little(value as int, width as nat) == out@ + little(
                rest as int,
                (width - done) as nat,
            ),
        decreases width - done,
    {
        let ghost before = out@;
        let ghost held = rest as int;
        out.push((rest % 256) as u8);
        rest = rest / 256;
        assert(before + little(held, (width - done) as nat) =~= out@ + little(
            held / 256,
            (width - done - 1) as nat,
        ));
        done = done + 1;
    }
    assert(out@ + Seq::<u8>::empty() =~= out@);
}

/// Appends the four lowest bytes of a number, highest first.
pub fn put_big(out: &mut Vec<u8>, value: u64)
    ensures
        final(out)@ == old(out)@ + big(value as int),
{
    let ghost start = out@;
    out.push((value / 16777216 % 256) as u8);
    out.push((value / 65536 % 256) as u8);
    out.push((value / 256 % 256) as u8);
    out.push((value % 256) as u8);
    assert(out@ =~= start + big(value as int));
}

/// Appends bytes.
pub fn put_all(out: &mut Vec<u8>, bytes: &[u8])
    ensures
        final(out)@ == old(out)@ + bytes@,
{
    put_range(out, bytes, 0, bytes.len());
    assert(bytes@.subrange(0, bytes@.len() as int) =~= bytes@);
}

/// Appends the bytes from `from` up to `to`.
pub fn put_range(out: &mut Vec<u8>, bytes: &[u8], from: usize, to: usize)
    requires
        from <= to <= bytes@.len(),
    ensures
        final(out)@ == old(out)@ + bytes@.subrange(from as int, to as int),
{
    let ghost start = out@;
    let mut at: usize = from;
    while at < to
        invariant
            from <= at <= to <= bytes@.len(),
            out@ == start + bytes@.subrange(from as int, at as int),
        decreases to - at,
    {
        out.push(bytes[at]);
        assert(bytes@.subrange(from as int, at + 1) =~= bytes@.subrange(from as int, at as int).push(
            bytes@[at as int],
        ));
        assert(out@ =~= start + bytes@.subrange(from as int, at + 1));
        at = at + 1;
    }
}

/// The number that the `width` bytes from `at` on stand for, lowest first.
pub fn get_little(bytes: &[u8], at: usize, width: usize) -> (value: u64)
    requires
        width <= 8,
        at + width <= bytes@.len(),
    ensures
        value == read_little(bytes@.subrange(at as int, at + width)),
        value < limit(width as nat),
{
    let total: usize = bytes.len();
    let mut value: u64 = 0;
    let mut left: usize = width;
    assert(bytes@.subrange(at + width, at + width) =~= Seq::empty());
    while left > 0
        invariant
            left <= width <= 8,
            total == bytes@.len(),
            at + width <= total,
            value == read_little(bytes@.subrange(at + left, at + width)),
        decreases left,
    {
        let ghost tail = bytes@.subrange(at + left, at + width);
        let ghost longer = bytes@.subrange(at + left - 1, at + width);
        proof {
            lemma_limits();
            lemma_read_little_bound(longer);
            lemma_limit_grows((width - left + 1) as nat, 8);
            assert(longer.skip(1) =~= tail);
        }
        value = bytes[at + left - 1] as u64 + 256 * value;
        left = left - 1;
    }
    proof {
        lemma_read_little_bound(bytes@.subrange(at as int, at + width));
    }
    value
}

proof fn lemma_limit_grows(small: nat, large: nat)
    requires
        small <= large,
    ensures
        1 <= limit(small) <= limit(large),
    decreases large,
{
    if small < large {
        lemma_limit_grows(small, (large - 1) as nat);
    } else if small > 0 {
        lemma_limit_grows((small - 1) as nat, (small - 1) as nat);
    }
}

/// The number that the four bytes from `at` on stand for, highest first.
pub fn get_big(bytes: &[u8], at: usize) -> (value: u32)
    requires
        at + 4 <= bytes@.len(),
    ensures
        value == read_big(bytes@.subrange(at as int, at + 4)),
{
    let total: usize = bytes.len();
    assert(at + 4 <= total);
    bytes[at] as u32 * 16777216 + bytes[at + 1] as u32 * 65536 + bytes[at + 2] as u32 * 256
        + bytes[at + 3] as u32
}

/// A number of four bytes reads back, highest byte first.
pub proof fn lemma_big_reads_back(value: int)
    requires
        0 <= value <= u32::MAX,
    ensures
        big(value).len() == 4,
        read_big(big(value)) == value,
{
}

/// Bytes are written lowest first: the first is what is left over 256, and the
/// others are of what goes into it.
pub proof fn law_the_lowest_byte_is_first(value: int, width: nat)
    requires
        0 <= value,
        0 < width,
    ensures
        little(value, width).len() == width,
        little(value, width)[0] == value % 256,
        little(value, width).skip(1) =~= little(value / 256, (width - 1) as nat),
{
    lemma_little_len(value, width);
    lemma_little_len(value / 256, (width - 1) as nat);
}

/// Four bytes highest first: the last is what is left over 256.
pub proof fn law_the_highest_byte_is_first(value: int)
    requires
        0 <= value < 0x1_0000_0000,
    ensures
        big(value).len() == 4,
        big(value)[0] * 0x100_0000 + big(value)[1] * 0x1_0000 + big(value)[2] * 0x100 + big(value)[3] == value,
{
    lemma_big_reads_back(value);
}

} // verus!
