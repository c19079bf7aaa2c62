//! Printable renderings of byte strings.
use vstd::prelude::*;
use vstd::utf8::{valid_utf8, decode_utf8, valid_first_scalar, pop_first_scalar};

verus! {

/// The rendering of one byte: `\n`, `\r`, `\t`, `\"` and `\\` for those
/// characters, printable ASCII as itself, and any other byte as a backslash
/// and three octal digits.
pub open spec fn escape_byte(c: u8) -> Seq<u8> {
    if c == 10 {
        seq![92u8, 110u8]
    } else if c == 13 {
        seq![92u8, 114u8]
    } else if c == 9 {
        seq![92u8, 116u8]
    } else if c == 34 {
        seq![92u8, 34u8]
    } else if c == 92 {
        seq![92u8, 92u8]
    } else if 0x20 <= c < 0x7f {
        seq![c]
    } else {
        seq![92u8, (48 + c / 64) as u8, (48 + (c / 8) % 8) as u8, (48 + c % 8) as u8]
    }
}

/// The rendering of `data`: the renderings of its bytes, in order.
pub open spec fn escape_bytes(data: Seq<u8>) -> Seq<u8>
    decreases data.len(),
{
    if data.len() == 0 {
        Seq::empty()
    } else {
        escape_bytes(data.drop_last()) + escape_byte(data.last())
    }
}

/// Rendering a concatenation renders each part in turn.
pub proof fn lemma_escape_concat(a: Seq<u8>, b: Seq<u8>)
    ensures
        escape_bytes(a + b) == escape_bytes(a) + escape_bytes(b),
    decreases b.len(),
{
    if b.len() == 0 {
        assert(a + b =~= a);
        assert(escape_bytes(a) + escape_bytes(b) =~= escape_bytes(a));
    } else {
        assert((a + b).drop_last() =~= a + b.drop_last());
        assert((a + b).last() == b.last());
        lemma_escape_concat(a, b.drop_last());
        assert(escape_bytes(a) + escape_bytes(b.drop_last()) + escape_byte(b.last()) =~= escape_bytes(
            a,
        ) + escape_bytes(b));
    }
}

proof fn lemma_escape_front(a: Seq<u8>)
    requires
        a.len() > 0,
    ensures
        escape_bytes(a) == escape_byte(a[0]) + escape_bytes(a.drop_first()),
{
    let one = seq![a[0]];
    assert(one + a.drop_first() =~= a);
    lemma_escape_concat(one, a.drop_first());
    assert(one.drop_last() =~= Seq::<u8>::empty());
    assert(escape_bytes(one.drop_last()) == Seq::<u8>::empty());
    assert(one.last() == a[0]);
    assert(escape_bytes(one) =~= escape_bytes(one.drop_last()) + escape_byte(one.last()));
    assert(escape_bytes(one) =~= escape_byte(a[0]));
}

proof fn lemma_escape_byte_prefix(x: u8, y: u8, ra: Seq<u8>, rb: Seq<u8>)
    requires
        escape_byte(x) + ra == escape_byte(y) + rb,
    ensures
        x == y,
{
    let e = escape_byte(x) + ra;
    let ex = escape_byte(x);
    let ey = escape_byte(y);
    assert(ex.len() >= 1 && ey.len() >= 1);
    assert(e[0] == ex[0] && e[0] == ey[0]);
    if ex.len() >= 2 && ey.len() >= 2 {
        assert(e[1] == ex[1] && e[1] == ey[1]);
    }
    if ex.len() == 4 && ey.len() == 4 {
        assert(e[2] == ex[2] && e[2] == ey[2]);
        assert(e[3] == ex[3] && e[3] == ey[3]);
        assert(x == (x / 64) * 64 + ((x / 8) % 8) * 8 + x % 8) by (nonlinear_arith);
        assert(y == (y / 64) * 64 + ((y / 8) % 8) * 8 + y % 8) by (nonlinear_arith);
    }
    if ex.len() == 4 {
        assert(x / 64 < 4) by (nonlinear_arith);
    }
    if ey.len() == 4 {
        assert(y / 64 < 4) by (nonlinear_arith);
    }
}

/// Different byte strings render differently: the rendering can be read
/// back.
pub proof fn lemma_escape_injective(a: Seq<u8>, b: Seq<u8>)
    requires
        escape_bytes(a) == escape_bytes(b),
    ensures
        a == b,
    decreases a.len(),
{
    if a.len() == 0 && b.len() == 0 {
        assert(a =~= b);
    } else if a.len() == 0 {
        lemma_escape_front(b);
    } else if b.len() == 0 {
        lemma_escape_front(a);
    } else {
        lemma_escape_front(a);
        lemma_escape_front(b);
        lemma_escape_byte_prefix(a[0], b[0], escape_bytes(a.drop_first()), escape_bytes(b.drop_first()));
        let e = escape_bytes(a);
        let n = escape_byte(a[0]).len() as int;
        assert(escape_bytes(a.drop_first()) =~= e.subrange(n, e.len() as int));
        assert(escape_bytes(b.drop_first()) =~= e.subrange(n, e.len() as int));
        lemma_escape_injective(a.drop_first(), b.drop_first());
        assert(a =~= seq![a[0]] + a.drop_first());
        assert(b =~= seq![b[0]] + b.drop_first());
    }
}

/// Whether every byte is ASCII.
pub open spec fn all_ascii(b: Seq<u8>) -> bool {
    forall|i: int| 0 <= i < b.len() ==> #[trigger] b[i] < 0x80
}

proof fn lemma_ascii_valid_utf8(b: Seq<u8>)
    requires
        all_ascii(b),
    ensures
        valid_utf8(b),
    decreases b.len(),
{
    if b.len() > 0 {
        assert(b[0] < 0x80);
        assert(valid_first_scalar(b));
        let rest = pop_first_scalar(b);
        assert(rest =~= b.subrange(1, b.len() as int));
        lemma_ascii_valid_utf8(rest);
    }
}

proof fn lemma_escape_byte_ascii(c: u8)
    ensures
        all_ascii(escape_byte(c)),
{
    assert((c / 64) < 4 && (c / 8) % 8 < 8 && c % 8 < 8) by (nonlinear_arith);
}

proof fn lemma_escape_ascii(d: Seq<u8>)
    ensures
        all_ascii(escape_bytes(d)),
    decreases d.len(),
{
    if d.len() > 0 {
        lemma_escape_ascii(d.drop_last());
        lemma_escape_byte_ascii(d.last());
        let x = escape_bytes(d.drop_last());
        let y = escape_byte(d.last());
        assert forall|i: int| 0 <= i < (x + y).len() implies #[trigger] (x + y)[i] < 0x80 by {
            if i < x.len() {
                assert((x + y)[i] == x[i]);
            } else {
                assert((x + y)[i] == y[i - x.len()]);
            }
        }
    }
}

/// The text of a concatenation, rendered (what `escape` returns), is the
/// rendered text of each part in turn.
pub proof fn lemma_escape_text_concat(a: Seq<u8>, b: Seq<u8>)
    ensures
        decode_utf8(escape_bytes(a + b)) == decode_utf8(escape_bytes(a)) + decode_utf8(
            escape_bytes(b),
        ),
{
    let ea = escape_bytes(a);
    let eb = escape_bytes(b);
    let e = ea + eb;
    lemma_escape_concat(a, b);
    lemma_escape_ascii(a);
    lemma_escape_ascii(b);
    lemma_escape_ascii(a + b);
    lemma_ascii_valid_utf8(ea);
    lemma_ascii_valid_utf8(eb);
    lemma_ascii_valid_utf8(e);
    if eb.len() == 0 {
        assert(e =~= ea);
        assert(eb =~= Seq::<u8>::empty());
        assert(decode_utf8(eb) =~= Seq::<char>::empty());
        assert(decode_utf8(ea) + decode_utf8(eb) =~= decode_utf8(ea));
    } else {
        let idx = ea.len() as int;
        assert(e[idx] == eb[0]);
        assert(eb[0] < 0x80);
        vstd::utf8::is_char_boundary_iff_not_is_continuation_byte(e, idx);
        vstd::utf8::decode_utf8_split(e, idx);
        assert(e.subrange(0, idx) =~= ea);
        assert(e.subrange(idx, e.len() as int) =~= eb);
    }
}

/// Different byte strings are rendered (by `escape`) as different texts.
pub proof fn lemma_escape_text_injective(a: Seq<u8>, b: Seq<u8>)
    requires
        decode_utf8(escape_bytes(a)) == decode_utf8(escape_bytes(b)),
    ensures
        a == b,
{
    lemma_escape_ascii(a);
    lemma_escape_ascii(b);
    lemma_ascii_valid_utf8(escape_bytes(a));
    lemma_ascii_valid_utf8(escape_bytes(b));
    vstd::utf8::decode_utf8_encode_utf8(escape_bytes(a));
    vstd::utf8::decode_utf8_encode_utf8(escape_bytes(b));
    lemma_escape_injective(a, b);
}

/// The error `String::from_utf8` gives for bytes that are not UTF-8,
/// carried through opaque.
#[verifier::external_type_specification]
#[verifier::external_body]
pub struct ExFromUtf8Error(std::string::FromUtf8Error);

/// Makes a string of UTF-8 bytes; an error when they are not valid UTF-8.
///
/// Trusted: calls `String::from_utf8`, which the standard library documents
/// as failing exactly on bytes that are not valid UTF-8 and otherwise giving
/// the string those bytes encode.
#[verifier::external_body]
fn string_from_utf8(bytes: Vec<u8>) -> (r: Result<String, std::string::FromUtf8Error>)
    ensures
        r is Ok <==> valid_utf8(bytes@),
        r matches Ok(s) ==> s@ == decode_utf8(bytes@),
{
    String::from_utf8(bytes)
}

fn escape_one(c: u8, out: &mut Vec<u8>)
    ensures
        final(out)@ == old(out)@ + escape_byte(c),
{
    let ghost before = out@;
    if c == 10u8 {
        out.push(92u8);
        out.push(110u8);
    } else if c == 13u8 {
        out.push(92u8);
        out.push(114u8);
    } else if c == 9u8 {
        out.push(92u8);
        out.push(116u8);
    } else if c == 34u8 {
        out.push(92u8);
        out.push(34u8);
    } else if c == 92u8 {
        out.push(92u8);
        out.push(92u8);
    } else if c >= 0x20 && c < 0x7f {
        out.push(c);
    } else {
        assert((c >> 6) == c / 64 && ((c >> 3) & 7) == (c / 8) % 8 && (c & 7) == c % 8)
            by (bit_vector);
        assert(c / 64 < 4 && (c / 8) % 8 < 8 && c % 8 < 8) by (nonlinear_arith);
        out.push(92u8);
        out.push(48u8 + (c >> 6));
        out.push(48u8 + ((c >> 3) & 7));
        out.push(48u8 + (c & 7));
    }
    assert(out@ =~= before + escape_byte(c));
}

/// Renders `data` printably (see `escape_byte`).
pub fn escape(data: &[u8]) -> (r: String)
    ensures
        r@ == decode_utf8(escape_bytes(data@)),
{
    let mut escaped: Vec<u8> = Vec::new();
    let mut i: usize = 0;
    while i < data.len()
        invariant
            i <= data@.len(),
            escaped@ == escape_bytes(data@.subrange(0, i as int)),
            all_ascii(escaped@),
        decreases data@.len() - i,
    {
        let ghost before = escaped@;
        escape_one(data[i], &mut escaped);
        proof {
            assert(data@.subrange(0, i + 1).drop_last() =~= data@.subrange(0, i as int));
            assert(data@.subrange(0, i + 1).last() == data@[i as int]);
            let e = escape_byte(data@[i as int]);
            assert(forall|k: int| 0 <= k < e.len() ==> #[trigger] e[k] < 0x80) by {
                let c = data@[i as int];
                assert((c / 64) < 4 && (c / 8) % 8 < 8 && c % 8 < 8) by (nonlinear_arith);
            }
            assert forall|k: int| 0 <= k < escaped@.len() implies #[trigger] escaped@[k] < 0x80 by {
                if k >= before.len() {
                    assert(escaped@[k] == e[k - before.len()]);
                }
            }
        }
        i = i + 1;
    }
    assert(data@.subrange(0, data@.len() as int) =~= data@);
    proof {
        lemma_ascii_valid_utf8(escaped@);
    }
    let ghost bytes = escaped@;
    match string_from_utf8(escaped) {
        Ok(s) => s,
        Err(_) => {
            assert(false);
            String::new()
        },
    }
}

} // verus!
