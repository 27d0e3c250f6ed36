//! Base64, through the `base64` crate (standard alphabet, with padding).
use vstd::prelude::*;

verus! {

/// `=`, the padding byte.
pub const PAD: u8 = 61;

/// The symbol of the standard alphabet for a six-bit value.
pub open spec fn symbol(v: int) -> u8 {
    if v < 26 {
        (65 + v) as u8
    } else if v < 52 {
        (71 + v) as u8
    } else if v < 62 {
        (v - 4) as u8
    } else if v == 62 {
        43
    } else {
        47
    }
}

/// The standard padded base64 text of `b`: each group of three bytes gives
/// four symbols of six bits each; a last group of one or two bytes is
/// filled with zero bits and padded with `=` to four.
pub open spec fn base64_of(b: Seq<u8>) -> Seq<u8>
    decreases b.len(),
{
    if b.len() == 0 {
        Seq::empty()
    } else if b.len() == 1 {
        seq![symbol(b[0] as int / 4), symbol((b[0] as int % 4) * 16), PAD, PAD]
    } else if b.len() == 2 {
        seq![
            symbol(b[0] as int / 4),
            symbol((b[0] as int % 4) * 16 + b[1] as int / 16),
            symbol((b[1] as int % 16) * 4),
            PAD,
        ]
    } else {
        seq![
            symbol(b[0] as int / 4),
            symbol((b[0] as int % 4) * 16 + b[1] as int / 16),
            symbol((b[1] as int % 16) * 4 + b[2] as int / 64),
            symbol(b[2] as int % 64),
        ] + base64_of(b.skip(3))
    }
}

/// A byte of the standard base64 alphabet, or the padding `=`.
pub open spec fn base64_byte(c: u8) -> bool {
    (65 <= c <= 90) || (97 <= c <= 122) || (48 <= c <= 57) || c == 43 || c == 47 || c == PAD
}

proof fn lemma_symbol(v: int)
    requires
        0 <= v < 64,
    ensures
        base64_byte(symbol(v)),
{
}

/// Four symbols for each started group of three bytes, all of them from
/// the alphabet or padding.
pub proof fn lemma_base64_shape(b: Seq<u8>)
    ensures
        base64_of(b).len() == 4 * ((b.len() + 2) / 3),
        forall|k: int| 0 <= k < base64_of(b).len() ==> base64_byte(#[trigger] base64_of(b)[k]),
    decreases b.len(),
{
    if b.len() == 0 {
    } else if b.len() <= 2 {
        lemma_symbol(b[0] as int / 4);
        lemma_symbol((b[0] as int % 4) * 16);
        if b.len() == 2 {
            lemma_symbol((b[0] as int % 4) * 16 + b[1] as int / 16);
            lemma_symbol((b[1] as int % 16) * 4);
        }
    } else {
        let r = b.skip(3);
        lemma_base64_shape(r);
        let head = seq![
            symbol(b[0] as int / 4),
            symbol((b[0] as int % 4) * 16 + b[1] as int / 16),
            symbol((b[1] as int % 16) * 4 + b[2] as int / 64),
            symbol(b[2] as int % 64),
        ];
        lemma_symbol(b[0] as int / 4);
        lemma_symbol((b[0] as int % 4) * 16 + b[1] as int / 16);
        lemma_symbol((b[1] as int % 16) * 4 + b[2] as int / 64);
        lemma_symbol(b[2] as int % 64);
        assert(base64_of(b) == head + base64_of(r));
        assert forall|k: int| 0 <= k < base64_of(b).len() implies base64_byte(#[trigger] base64_of(b)[k]) by {
            if k >= 4 {
                assert(base64_of(b)[k] == base64_of(r)[k - 4]);
            }
        }
    }
}

proof fn lemma_symbol_inj(u: int, v: int)
    requires
        0 <= u < 64,
        0 <= v < 64,
        symbol(u) == symbol(v),
    ensures
        u == v,
        symbol(u) != PAD,
{
}

proof fn lemma_bytes_from_symbols(x: u8, y: u8, a: u8, b: u8)
    requires
        x as int / 4 == a as int / 4,
        (x as int % 4) * 16 + y as int / 16 == (a as int % 4) * 16 + b as int / 16,
    ensures
        x == a,
        y as int / 16 == b as int / 16,
{
}

proof fn lemma_last_bytes(y: u8, z: u8, b: u8, c: u8)
    requires
        y as int / 16 == b as int / 16,
        (y as int % 16) * 4 + z as int / 64 == (b as int % 16) * 4 + c as int / 64,
        z as int % 64 == c as int % 64,
    ensures
        y == b,
        z == c,
{
}

/// The value of the second symbol of the first group of `x`.
spec fn second(x: Seq<u8>) -> int {
    if x.len() == 1 {
        (x[0] as int % 4) * 16
    } else {
        (x[0] as int % 4) * 16 + x[1] as int / 16
    }
}

/// The value of the third symbol of the first group of `x` (two bytes or more).
spec fn third(x: Seq<u8>) -> int {
    if x.len() == 2 {
        (x[1] as int % 16) * 4
    } else {
        (x[1] as int % 16) * 4 + x[2] as int / 64
    }
}

proof fn lemma_head(x: Seq<u8>)
    requires
        x.len() > 0,
    ensures
        base64_of(x).len() >= 4,
        base64_of(x)[0] == symbol(x[0] as int / 4),
        base64_of(x)[1] == symbol(second(x)),
        base64_of(x)[2] == (if x.len() == 1 { PAD } else { symbol(third(x)) }),
        base64_of(x)[3] == (if x.len() <= 2 { PAD } else { symbol(x[2] as int % 64) }),
        x.len() >= 3 ==> base64_of(x).skip(4) == base64_of(x.skip(3)),
{
    if x.len() >= 3 {
        let head = seq![
            symbol(x[0] as int / 4),
            symbol((x[0] as int % 4) * 16 + x[1] as int / 16),
            symbol((x[1] as int % 16) * 4 + x[2] as int / 64),
            symbol(x[2] as int % 64),
        ];
        assert(base64_of(x) == head + base64_of(x.skip(3)));
        assert((head + base64_of(x.skip(3))).skip(4) =~= base64_of(x.skip(3)));
    }
}

/// Different bytes have different encodings.
pub proof fn lemma_base64_injective(x: Seq<u8>, y: Seq<u8>)
    requires
        base64_of(x) == base64_of(y),
    ensures
        x == y,
    decreases x.len(),
{
    lemma_base64_shape(x);
    lemma_base64_shape(y);
    let ex = base64_of(x);
    if x.len() == 0 || y.len() == 0 {
        if x.len() > 0 || y.len() > 0 {
            assert(ex.len() == 0);
        }
        assert(x =~= y);
    } else {
        lemma_head(x);
        lemma_head(y);
        lemma_symbol_inj(x[0] as int / 4, y[0] as int / 4);
        lemma_symbol_inj(second(x), second(y));
        if x.len() >= 2 {
            lemma_symbol_inj(third(x), third(x));
        }
        if y.len() >= 2 {
            lemma_symbol_inj(third(y), third(y));
        }
        if x.len() >= 3 {
            lemma_symbol_inj(x[2] as int % 64, x[2] as int % 64);
        }
        if y.len() >= 3 {
            lemma_symbol_inj(y[2] as int % 64, y[2] as int % 64);
        }
        if x.len() == 1 {
            assert(y.len() == 1);
            assert(x =~= y);
        } else if x.len() == 2 {
            assert(y.len() == 2);
            lemma_symbol_inj(third(x), third(y));
            lemma_bytes_from_symbols(x[0], x[1], y[0], y[1]);
            assert(x =~= y);
        } else {
            assert(y.len() >= 3);
            lemma_symbol_inj(third(x), third(y));
            lemma_symbol_inj(x[2] as int % 64, y[2] as int % 64);
            lemma_bytes_from_symbols(x[0], x[1], y[0], y[1]);
            lemma_last_bytes(x[1], x[2], y[1], y[2]);
            lemma_base64_injective(x.skip(3), y.skip(3));
            assert(x =~= seq![x[0], x[1], x[2]] + x.skip(3));
            assert(y =~= seq![y[0], y[1], y[2]] + y.skip(3));
        }
    }
}

#[verifier::external_type_specification]
#[verifier::external_body]
pub struct ExBase64DecodeError(base64::DecodeError);

/// Relies on base64::encode: the padded standard encoding.
#[verifier::external_body]
#[allow(deprecated)]
pub(crate) fn encode_base64(b: &[u8]) -> (r: Vec<u8>)
    ensures
        r@ == base64_of(b@),
{
    base64::encode(b).into_bytes()
}

/// Relies on base64::decode with the standard engine, which takes only
/// canonical input (padding required, unused bits zero): it succeeds exactly
/// on the padded standard encodings and gives back the bytes encoded.
#[verifier::external_body]
#[allow(deprecated)]
pub(crate) fn decode_base64(s: &[u8]) -> (r: Result<Vec<u8>, base64::DecodeError>)
    ensures
        forall|b: Seq<u8>| #[trigger] base64_of(b) == s@ ==> (r is Ok && r->Ok_0@ == b),
        r is Ok ==> base64_of(r->Ok_0@) == s@,
{
    base64::decode(s)
}

} // verus!
