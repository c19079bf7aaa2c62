//! CRC-32 checksums for log records.
use vstd::prelude::*;

verus! {

/// One bit of the reflected CRC-32 (IEEE) division, polynomial 0xedb88320.
pub open spec fn crc_shift(c: u32) -> u32 {
    if c & 1 == 1 {
        (c >> 1) ^ 0xedb88320u32
    } else {
        c >> 1
    }
}

/// The CRC-32 register after taking in the byte `b`: eight division steps.
pub open spec fn crc_byte(c: u32, b: u8) -> u32 {
    let x = c ^ (b as u32);
    crc_shift(crc_shift(crc_shift(crc_shift(crc_shift(crc_shift(crc_shift(crc_shift(x))))))))
}

/// The CRC-32 register after taking in `data`, from the register `c`.
pub open spec fn crc_register(c: u32, data: Seq<u8>) -> u32
    decreases data.len(),
{
    if data.len() == 0 {
        c
    } else {
        crc_byte(crc_register(c, data.drop_last()), data.last())
    }
}

/// The CRC-32 (IEEE) checksum that continues from the running checksum
/// `init` over the bytes `data` (with `init == 0`, the checksum of `data`):
/// the register starts as the complement of `init`, and the checksum is the
/// complement of the register at the end.
pub open spec fn crc32_ieee(init: u32, data: Seq<u8>) -> u32 {
    !crc_register(!init, data)
}

/// One division step loses nothing: different registers stay different.
proof fn lemma_crc_shift_injective(x: u32, y: u32)
    requires
        crc_shift(x) == crc_shift(y),
    ensures
        x == y,
{
    assert(x & 1 == 1 && y & 1 == 1 && ((x >> 1) ^ 0xedb88320u32) == ((y >> 1) ^ 0xedb88320u32)
        ==> x == y) by (bit_vector);
    assert(x & 1 == 1 && y & 1 != 1 ==> ((x >> 1) ^ 0xedb88320u32) != (y >> 1)) by (bit_vector);
    assert(x & 1 != 1 && y & 1 == 1 ==> (x >> 1) != ((y >> 1) ^ 0xedb88320u32)) by (bit_vector);
    assert(x & 1 != 1 && y & 1 != 1 && (x >> 1) == (y >> 1) ==> x == y) by (bit_vector);
}

/// Taking in a byte tells registers apart, and tells bytes apart.
proof fn lemma_crc_byte_injective(c1: u32, b1: u8, c2: u32, b2: u8)
    requires
        crc_byte(c1, b1) == crc_byte(c2, b2),
    ensures
        c1 == c2 ==> b1 == b2,
        b1 == b2 ==> c1 == c2,
{
    let x1 = c1 ^ (b1 as u32);
    let x2 = c2 ^ (b2 as u32);
    lemma_crc_shift_injective(
        crc_shift(crc_shift(crc_shift(crc_shift(crc_shift(crc_shift(crc_shift(x1))))))),
        crc_shift(crc_shift(crc_shift(crc_shift(crc_shift(crc_shift(crc_shift(x2))))))),
    );
    lemma_crc_shift_injective(
        crc_shift(crc_shift(crc_shift(crc_shift(crc_shift(crc_shift(x1)))))),
        crc_shift(crc_shift(crc_shift(crc_shift(crc_shift(crc_shift(x2)))))),
    );
    lemma_crc_shift_injective(
        crc_shift(crc_shift(crc_shift(crc_shift(crc_shift(x1))))),
        crc_shift(crc_shift(crc_shift(crc_shift(crc_shift(x2))))),
    );
    lemma_crc_shift_injective(
        crc_shift(crc_shift(crc_shift(crc_shift(x1)))),
        crc_shift(crc_shift(crc_shift(crc_shift(x2)))),
    );
    lemma_crc_shift_injective(crc_shift(crc_shift(crc_shift(x1))), crc_shift(crc_shift(crc_shift(x2))));
    lemma_crc_shift_injective(crc_shift(crc_shift(x1)), crc_shift(crc_shift(x2)));
    lemma_crc_shift_injective(crc_shift(x1), crc_shift(x2));
    lemma_crc_shift_injective(x1, x2);
    let p1 = b1 as u32;
    let p2 = b2 as u32;
    assert((c1 ^ p1) == (c2 ^ p2) && c1 == c2 ==> p1 == p2) by (bit_vector);
    assert((c1 ^ p1) == (c2 ^ p2) && p1 == p2 ==> c1 == c2) by (bit_vector);
}

/// Taking in `a` then `b` is taking in `a + b`.
proof fn lemma_crc_register_concat(c: u32, a: Seq<u8>, b: Seq<u8>)
    ensures
        crc_register(c, a + b) == crc_register(crc_register(c, a), b),
    decreases b.len(),
{
    if b.len() == 0 {
        assert(a + b =~= a);
    } else {
        assert((a + b).drop_last() =~= a + b.drop_last());
        assert((a + b).last() == b.last());
        lemma_crc_register_concat(c, a, b.drop_last());
    }
}

/// Registers that differ still differ after taking in the same bytes.
proof fn lemma_crc_register_keeps_difference(c1: u32, c2: u32, d: Seq<u8>)
    requires
        c1 != c2,
    ensures
        crc_register(c1, d) != crc_register(c2, d),
    decreases d.len(),
{
    if d.len() > 0 {
        lemma_crc_register_keeps_difference(c1, c2, d.drop_last());
        if crc_register(c1, d) == crc_register(c2, d) {
            lemma_crc_byte_injective(
                crc_register(c1, d.drop_last()),
                d.last(),
                crc_register(c2, d.drop_last()),
                d.last(),
            );
        }
    }
}

/// The checksum takes in every byte, one after another: the checksum of
/// `a` followed by `b` is the register of the checksum of `a` taking in `b`,
/// whatever the length of `a`.
pub proof fn lemma_crc32_push(init: u32, a: Seq<u8>, b: u8)
    ensures
        crc32_ieee(init, a.push(b)) == !crc_byte(!crc32_ieee(init, a), b),
{
    let r = crc_register(!init, a);
    assert(a.push(b).drop_last() =~= a);
    assert(!(!r) == r) by (bit_vector);
}

/// A checksum can be continued: the checksum of `a + b` from `init` is the
/// checksum of `b` continued from the checksum of `a`.
pub proof fn lemma_crc32_concat(init: u32, a: Seq<u8>, b: Seq<u8>)
    ensures
        crc32_ieee(init, a + b) == crc32_ieee(crc32_ieee(init, a), b),
{
    let r = crc_register(!init, a);
    lemma_crc_register_concat(!init, a, b);
    assert(!(!r) == r) by (bit_vector);
}

/// The checksum covers every byte: two inputs of one length that differ in
/// exactly one byte, wherever it stands, have different checksums.
pub proof fn lemma_crc32_detects_one_byte_change(init: u32, a: Seq<u8>, b: Seq<u8>, k: int)
    requires
        a.len() == b.len(),
        0 <= k < a.len(),
        a[k] != b[k],
        forall|j: int| 0 <= j < a.len() && j != k ==> a[j] == b[j],
    ensures
        crc32_ieee(init, a) != crc32_ieee(init, b),
{
    let c = !init;
    let head_a = a.subrange(0, k + 1);
    let head_b = b.subrange(0, k + 1);
    let tail = a.subrange(k + 1, a.len() as int);
    assert(b.subrange(k + 1, b.len() as int) =~= tail);
    assert(head_a + tail =~= a);
    assert(head_b + tail =~= b);
    assert(head_a.drop_last() =~= head_b.drop_last());
    let r = crc_register(c, head_a.drop_last());
    let ra = crc_register(c, head_a);
    let rb = crc_register(c, head_b);
    assert(ra == crc_byte(r, a[k]));
    assert(rb == crc_byte(r, b[k]));
    if ra == rb {
        lemma_crc_byte_injective(r, a[k], r, b[k]);
    }
    lemma_crc_register_concat(c, head_a, tail);
    lemma_crc_register_concat(c, head_b, tail);
    lemma_crc_register_keeps_difference(ra, rb, tail);
    let xa = crc_register(c, a);
    let xb = crc_register(c, b);
    assert(xa != xb ==> !xa != !xb) by (bit_vector);
}

fn shift_register(c: u32) -> (r: u32)
    ensures
        r == crc_shift(c),
{
    if c & 1 == 1 {
        (c >> 1) ^ 0xedb88320u32
    } else {
        c >> 1
    }
}

/// Continues the running CRC-32 checksum `init` over `data`, a bit at a
/// time.
pub fn crc32(init: u32, data: &[u8]) -> (r: u32)
    ensures
        r == crc32_ieee(init, data@),
{
    let mut c: u32 = !init;
    let mut i: usize = 0;
    assert(data@.subrange(0, 0) =~= Seq::<u8>::empty());
    while i < data.len()
        invariant
            i <= data@.len(),
            c == crc_register(!init, data@.subrange(0, i as int)),
        decreases data@.len() - i,
    {
        let x = c ^ (data[i] as u32);
        let x = shift_register(x);
        let x = shift_register(x);
        let x = shift_register(x);
        let x = shift_register(x);
        let x = shift_register(x);
        let x = shift_register(x);
        let x = shift_register(x);
        let x = shift_register(x);
        proof {
            let next = data@.subrange(0, i + 1);
            assert(next.drop_last() =~= data@.subrange(0, i as int));
            assert(next.last() == data@[i as int]);
        }
        c = x;
        i = i + 1;
    }
    assert(data@.subrange(0, data@.len() as int) =~= data@);
    !c
}

} // verus!
