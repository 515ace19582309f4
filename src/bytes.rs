//! Little-endian integers over byte sequences.
use vstd::prelude::*;

verus! {

/// The four little-endian bytes of `x`.
pub open spec fn le_u32_bytes(x: u32) -> Seq<u8> {
    seq![
        (x % 256) as u8,
        ((x / 256) % 256) as u8,
        ((x / 65536) % 256) as u8,
        (x / 16777216) as u8,
    ]
}

/// The integer that the first four bytes of `b` hold in little-endian order.
pub open spec fn le_u32_value(b: Seq<u8>) -> nat
    recommends
        b.len() >= 4,
{
    b[0] as nat + 256 * (b[1] as nat) + 65536 * (b[2] as nat) + 16777216 * (b[3] as nat)
}

/// Reading back the four bytes of `x` gives `x`.
pub proof fn lemma_le_u32_round_trip(x: u32)
    ensures
        le_u32_value(le_u32_bytes(x)) == x as nat,
{
    let b = le_u32_bytes(x);
    assert(b[0] as nat == x % 256);
    assert(b[1] as nat == (x / 256) % 256);
    assert(b[2] as nat == (x / 65536) % 256);
    assert(b[3] as nat == x / 16777216);
    let xi = x as int;
    assert(xi == xi % 256 + 256 * ((xi / 256) % 256) + 65536 * ((xi / 65536) % 256) + 16777216
        * (xi / 16777216)) by (nonlinear_arith)
        requires
            0 <= xi < 0x1_0000_0000,
    ;
}

/// The value of four little-endian bytes fits in a `u32`.
pub proof fn lemma_le_u32_value_bound(b: Seq<u8>)
    requires
        b.len() >= 4,
    ensures
        le_u32_value(b) <= u32::MAX,
{
}

/// Reads the `u32` that the first four bytes of `b` hold in little-endian order.
pub fn read_le_u32(b: &[u8]) -> (r: u32)
    requires
        b@.len() >= 4,
    ensures
        r as nat == le_u32_value(b@),
{
    (b[0] as u32) + 256 * (b[1] as u32) + 65536 * (b[2] as u32) + 16777216 * (b[3] as u32)
}

/// The four little-endian bytes of `x`.
pub fn write_le_u32(x: u32) -> (r: Vec<u8>)
    ensures
        r@ == le_u32_bytes(x),
{
    let mut r: Vec<u8> = Vec::with_capacity(4);
    r.push((x % 256) as u8);
    r.push(((x / 256) % 256) as u8);
    r.push(((x / 65536) % 256) as u8);
    r.push((x / 16777216) as u8);
    assert(r@ =~= le_u32_bytes(x));
    r
}

/// The eight little-endian bytes of `x`.
pub open spec fn le_u64_bytes(x: nat) -> Seq<u8> {
    le_u32_bytes((x % 0x1_0000_0000) as u32) + le_u32_bytes(((x / 0x1_0000_0000) % 0x1_0000_0000) as u32)
}

/// The integer that the first eight bytes of `b` hold in little-endian order.
pub open spec fn le_u64_value(b: Seq<u8>) -> nat
    recommends
        b.len() >= 8,
{
    le_u32_value(b) + 0x1_0000_0000 * le_u32_value(b.subrange(4, 8))
}

/// Reading back the eight bytes of `x` gives `x`.
pub proof fn lemma_le_u64_round_trip(x: nat)
    requires
        x <= u64::MAX,
    ensures
        le_u64_value(le_u64_bytes(x)) == x,
{
    let lo = (x % 0x1_0000_0000) as u32;
    let hi = ((x / 0x1_0000_0000) % 0x1_0000_0000) as u32;
    lemma_le_u32_round_trip(lo);
    lemma_le_u32_round_trip(hi);
    let b = le_u64_bytes(x);
    assert(b.subrange(4, 8) =~= le_u32_bytes(hi));
    assert(le_u32_value(b) == le_u32_value(le_u32_bytes(lo)));
    let xi = x as int;
    assert(xi == xi % 0x1_0000_0000 + 0x1_0000_0000 * ((xi / 0x1_0000_0000) % 0x1_0000_0000))
        by (nonlinear_arith)
        requires
            0 <= xi <= 0xffff_ffff_ffff_ffff,
    ;
}

/// The little-endian bytes of each word of `ws`, one word after another.
pub open spec fn words_bytes(ws: Seq<u32>) -> Seq<u8>
    decreases ws.len(),
{
    if ws.len() == 0 {
        seq![]
    } else {
        words_bytes(ws.drop_last()) + le_u32_bytes(ws.last())
    }
}

/// The first `n` little-endian words of `b`.
pub open spec fn words_of(b: Seq<u8>, n: nat) -> Seq<u32> {
    Seq::new(n, |i: int| le_u32_value(b.subrange(4 * i, 4 * i + 4)) as u32)
}

/// Word `i` of `ws` stands at bytes `4 i .. 4 i + 4`.
pub proof fn lemma_words_bytes_index(ws: Seq<u32>, i: int)
    requires
        0 <= i < ws.len(),
    ensures
        words_bytes(ws).len() == 4 * ws.len(),
        words_bytes(ws).subrange(4 * i, 4 * i + 4) == le_u32_bytes(ws[i]),
    decreases ws.len(),
{
    lemma_words_bytes_len(ws);
    let n = ws.len() as int;
    let init = ws.drop_last();
    lemma_words_bytes_len(init);
    if i < n - 1 {
        lemma_words_bytes_index(init, i);
        assert(words_bytes(ws).subrange(4 * i, 4 * i + 4) =~= words_bytes(init).subrange(
            4 * i,
            4 * i + 4,
        ));
    } else {
        assert(words_bytes(ws).subrange(4 * i, 4 * i + 4) =~= le_u32_bytes(ws.last()));
    }
}

/// The bytes of `ws` are four for each word.
pub proof fn lemma_words_bytes_len(ws: Seq<u32>)
    ensures
        words_bytes(ws).len() == 4 * ws.len(),
    decreases ws.len(),
{
    if ws.len() > 0 {
        lemma_words_bytes_len(ws.drop_last());
    }
}

/// Reading back the bytes of `ws`, and any bytes after them, gives `ws`.
pub proof fn lemma_words_round_trip(ws: Seq<u32>, rest: Seq<u8>)
    ensures
        words_of(words_bytes(ws) + rest, ws.len()) == ws,
{
    lemma_words_bytes_len(ws);
    let b = words_bytes(ws) + rest;
    assert forall|i: int| 0 <= i < ws.len() implies #[trigger] words_of(b, ws.len())[i] == ws[i] by {
        lemma_words_bytes_index(ws, i);
        assert(b.subrange(4 * i, 4 * i + 4) =~= words_bytes(ws).subrange(4 * i, 4 * i + 4));
        lemma_le_u32_round_trip(ws[i]);
    }
    assert(words_of(b, ws.len()) =~= ws);
}

} // verus!
