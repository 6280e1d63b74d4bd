//! Quantized embeddings: their byte form and their dot product.

use vstd::prelude::*;

verus! {

/// Why an embedding model could not be used.
#[derive(Debug)]
pub enum EmbedError {
    /// Loading the model failed; the reason is given.
    ModelLoad(String),
    /// The model files were not found; the path is given.
    ModelNotFound(String),
    /// No text was given.
    EmptyInput,
}

/// The byte that holds an `i8` (its two's-complement bits).
pub open spec fn i8_byte(x: i8) -> u8 {
    (if x < 0 { x + 256 } else { x as int }) as u8
}

/// The `i8` that a byte holds.
pub open spec fn byte_i8(b: u8) -> i8 {
    (if b >= 128 { b - 256 } else { b as int }) as i8
}

/// A quantized embedding as bytes, bit for bit.
pub fn i8_to_bytes(v: &[i8]) -> (r: Vec<u8>)
    ensures
        r@ == v@.map_values(|x: i8| i8_byte(x)),
{
    let mut out: Vec<u8> = Vec::new();
    let mut k: usize = 0;
    while k < v.len()
        invariant
            k <= v.len(),
            out@ == v@.take(k as int).map_values(|x: i8| i8_byte(x)),
        decreases v.len() - k,
    {
        let x = v[k];
        let b: u8 = if x < 0 {
            (x as i16 + 256) as u8
        } else {
            x as u8
        };
        out.push(b);
        assert(out@ =~= v@.take(k + 1).map_values(|x: i8| i8_byte(x)));
        k = k + 1;
    }
    assert(v@.take(v.len() as int) =~= v@);
    out
}

/// Bytes as a quantized embedding, bit for bit.
pub fn bytes_to_i8(v: &[u8]) -> (r: Vec<i8>)
    ensures
        r@ == v@.map_values(|b: u8| byte_i8(b)),
{
    let mut out: Vec<i8> = Vec::new();
    let mut k: usize = 0;
    while k < v.len()
        invariant
            k <= v.len(),
            out@ == v@.take(k as int).map_values(|b: u8| byte_i8(b)),
        decreases v.len() - k,
    {
        let b = v[k];
        let x: i8 = if b >= 128 {
            (b as i16 - 256) as i8
        } else {
            b as i8
        };
        out.push(x);
        assert(out@ =~= v@.take(k + 1).map_values(|b: u8| byte_i8(b)));
        k = k + 1;
    }
    assert(v@.take(v.len() as int) =~= v@);
    out
}

/// Turning an embedding into bytes and back gives it again.
pub proof fn lemma_bytes_roundtrip(v: Seq<i8>)
    ensures
        v.map_values(|x: i8| i8_byte(x)).map_values(|b: u8| byte_i8(b)) == v,
{
    assert(v.map_values(|x: i8| i8_byte(x)).map_values(|b: u8| byte_i8(b)) =~= v);
}

/// The dot product of two embeddings, over their common length.
pub open spec fn dot(a: Seq<i8>, b: Seq<i8>, n: int) -> int
    decreases n,
{
    if n <= 0 {
        0
    } else {
        dot(a, b, n - 1) + (a[n - 1] as int) * (b[n - 1] as int)
    }
}

proof fn lemma_dot_bound(a: Seq<i8>, b: Seq<i8>, n: int)
    requires
        n >= 0,
    ensures
        -16384 * n <= dot(a, b, n) <= 16384 * n,
    decreases n,
{
    if n > 0 {
        lemma_dot_bound(a, b, n - 1);
        let x = a[n - 1] as int;
        let y = b[n - 1] as int;
        assert(-16384 <= x * y <= 16384) by (nonlinear_arith)
            requires -128 <= x <= 127, -128 <= y <= 127;
    }
}

/// The integer dot product of two quantized embeddings of equal length: the
/// numerator of their cosine similarity, whose denominator is 127 squared.
pub fn dot_i8(a: &[i8], b: &[i8]) -> (r: i128)
    requires
        a.len() == b.len(),
    ensures
        r == dot(a@, b@, a.len() as int),
{
    let mut acc: i128 = 0;
    let mut k: usize = 0;
    while k < a.len()
        invariant
            k <= a.len() == b.len(),
            acc == dot(a@, b@, k as int),
        decreases a.len() - k,
    {
        proof {
            lemma_dot_bound(a@, b@, k as int);
        }
        let x = a[k] as i32;
        let y = b[k] as i32;
        assert(-16384 <= x * y <= 16384) by (nonlinear_arith)
            requires -128 <= x <= 127, -128 <= y <= 127;
        let p = x * y;
        acc = acc + p as i128;
        k = k + 1;
    }
    acc
}

} // verus!
