//! The folder-embedding matrix and its file format (little-endian):
//!
//! ```text
//! [u32: dim][u32: n]
//! [embeddings: i8 * dim * n]   one contiguous block
//! [paths: (u32 len, UTF-8 bytes) * n]
//! ```

use crate::embedding::{byte_i8, bytes_to_i8, i8_byte, i8_to_bytes};
use crate::text::sviews;
use vstd::prelude::*;
use vstd::utf8::{decode_utf8, encode_utf8, valid_utf8};

verus! {

/// Why an index operation failed.
#[derive(Debug)]
pub enum IndexError {
    /// The database failed; its message is given.
    Sqlite(String),
    /// Reading or writing a file failed; its message is given.
    Io(String),
    /// An embedding does not have the matrix's dimension.
    DimMismatch { expected: usize, actual: usize },
}

/// The outcome of indexing folders.
#[derive(Debug, Default, Clone, Copy)]
pub struct FolderIndexStats {
    /// Folders whose embedding was computed anew.
    pub updated: usize,
    /// Folders skipped because they had not changed.
    pub skipped: usize,
    /// Folders scanned.
    pub scanned: usize,
    /// Folders removed because they no longer exist.
    pub removed: usize,
}

/// The outcome of indexing folders, with the size of the rebuilt matrix.
#[derive(Debug, Clone)]
pub struct FolderIndexResult {
    pub updated: usize,
    pub skipped: usize,
    pub scanned: usize,
    pub removed: usize,
    pub matrix_len: usize,
}

/// The length of the header: two `u32`.
pub const HEADER_LEN: usize = 8;

/// The four little-endian bytes of a `u32`.
pub open spec fn u32_le(x: nat) -> Seq<u8> {
    seq![(x % 256) as u8, ((x / 256) % 256) as u8, ((x / 65536) % 256) as u8, ((x / 16777216) % 256) as u8]
}

/// The `u32` in the four little-endian bytes at `at`.
pub open spec fn le_u32(b: Seq<u8>, at: int) -> nat {
    (b[at] + 256 * b[at + 1] + 65536 * b[at + 2] + 16777216 * b[at + 3]) as nat
}

proof fn lemma_u32_le(x: nat)
    requires
        x < 0x1_0000_0000,
    ensures
        le_u32(u32_le(x), 0) == x,
{
    let b = u32_le(x);
    let b0 = x % 256;
    let b1 = (x / 256) % 256;
    let b2 = (x / 65536) % 256;
    let b3 = (x / 16777216) % 256;
    assert(b0 + 256 * b1 + 65536 * b2 + 16777216 * b3 == x) by (nonlinear_arith)
        requires
            x < 0x1_0000_0000,
            b0 == x % 256,
            b1 == (x / 256) % 256,
            b2 == (x / 65536) % 256,
            b3 == (x / 16777216) % 256,
    {
        assert(x == 256 * (x / 256) + x % 256);
        assert(x / 256 == 256 * ((x / 256) / 256) + (x / 256) % 256);
        assert((x / 256) / 256 == x / 65536);
        assert(x / 65536 == 256 * ((x / 65536) / 256) + (x / 65536) % 256);
        assert((x / 65536) / 256 == x / 16777216);
        assert(x / 16777216 < 256);
    }
}

fn push_u32_le(out: &mut Vec<u8>, x: u32)
    ensures
        final(out)@ == old(out)@ + u32_le(x as nat),
{
    out.push((x % 256) as u8);
    out.push(((x / 256) % 256) as u8);
    out.push(((x / 65536) % 256) as u8);
    out.push(((x / 16777216) % 256) as u8);
    assert(final(out)@ =~= old(out)@ + u32_le(x as nat));
}

fn read_u32_le(b: &Vec<u8>, at: usize) -> (r: u64)
    requires
        at + 4 <= b.len(),
    ensures
        r == le_u32(b@, at as int),
{
    b[at] as u64 + 256 * (b[at + 1] as u64) + 65536 * (b[at + 2] as u64) + 16777216 * (b[at + 3] as u64)
}

/// The bytes of the embeddings, one after another.
pub open spec fn embedding_block(embs: Seq<Seq<i8>>) -> Seq<u8>
    decreases embs.len(),
{
    if embs.len() == 0 {
        Seq::empty()
    } else {
        embedding_block(embs.drop_last()) + embs.last().map_values(|x: i8| i8_byte(x))
    }
}

/// The path table: each path's UTF-8 length and bytes.
pub open spec fn path_table(paths: Seq<Seq<char>>) -> Seq<u8>
    decreases paths.len(),
{
    if paths.len() == 0 {
        Seq::empty()
    } else {
        u32_le(encode_utf8(paths[0]).len() % 0x1_0000_0000) + encode_utf8(paths[0]) + path_table(paths.drop_first())
    }
}

/// The file that holds the entries, `dim` bytes per embedding.
pub open spec fn encode_matrix(paths: Seq<Seq<char>>, embs: Seq<Seq<i8>>, dim: nat) -> Seq<u8> {
    u32_le(dim % 0x1_0000_0000) + u32_le(paths.len() % 0x1_0000_0000) + embedding_block(embs) + path_table(paths)
}

/// The `k` paths of the table at `off`; nothing when the table runs past the
/// end of the file or a path is not UTF-8.
pub open spec fn parse_paths(b: Seq<u8>, off: int, k: nat) -> Option<Seq<Seq<char>>>
    decreases k,
{
    if k == 0 {
        Some(Seq::empty())
    } else if off < 0 || off + 4 > b.len() {
        None
    } else {
        let start = off + 4;
        let len = le_u32(b, off) as int;
        if start + len > b.len() || !valid_utf8(b.subrange(start, start + len)) {
            None
        } else {
            match parse_paths(b, start + len, (k - 1) as nat) {
                Some(rest) => Some(seq![decode_utf8(b.subrange(start, start + len))] + rest),
                None => None,
            }
        }
    }
}

proof fn lemma_parse_paths_len(b: Seq<u8>, off: int, k: nat)
    ensures
        parse_paths(b, off, k) matches Some(ps) ==> ps.len() == k,
    decreases k,
{
    if k > 0 && off >= 0 && off + 4 <= b.len() {
        let start = off + 4;
        let len = le_u32(b, off) as int;
        lemma_parse_paths_len(b, start + len, (k - 1) as nat);
    }
}

/// What a matrix file holds: its dimension and its paths; nothing when it is
/// too short for its header or its path table.
pub open spec fn parse_matrix(b: Seq<u8>) -> Option<(nat, Seq<Seq<char>>)> {
    if b.len() < 8 {
        None
    } else {
        let dim = le_u32(b, 0);
        let n = le_u32(b, 4);
        match parse_paths(b, (8 + n * dim) as int, n) {
            Some(paths) => Some((dim, paths)),
            None => None,
        }
    }
}

/// The embedding of the `i`-th row of a matrix file.
pub open spec fn row_of(b: Seq<u8>, dim: nat, i: int) -> Seq<i8> {
    b.subrange(8 + i * dim, 8 + (i + 1) * dim).map_values(|x: u8| byte_i8(x))
}

/// Calls `std::str::from_utf8` and copies the result into a `String`. The
/// contract claims what its documentation says: it succeeds exactly on valid
/// UTF-8, and then gives the characters that the bytes encode.
#[verifier::external_body]
fn utf8_string(bytes: &[u8]) -> (r: Option<String>)
    ensures
        match r {
            Some(s) => valid_utf8(bytes@) && s@ == decode_utf8(bytes@),
            None => !valid_utf8(bytes@),
        },
{
    match std::str::from_utf8(bytes) {
        Ok(s) => Some(s.to_string()),
        Err(_) => None,
    }
}


/// Every path's UTF-8 form has a length that fits in `u32`.
pub open spec fn paths_fit(paths: Seq<Seq<char>>) -> bool {
    forall|i: int| 0 <= i < paths.len() ==> #[trigger] encode_utf8(paths[i]).len() < 0x1_0000_0000
}

/// A path table is read back as the paths it was written from.
proof fn lemma_parse_table(b: Seq<u8>, off: int, ps: Seq<Seq<char>>)
    requires
        0 <= off,
        off + path_table(ps).len() <= b.len(),
        b.subrange(off, off + path_table(ps).len()) == path_table(ps),
        paths_fit(ps),
    ensures
        parse_paths(b, off, ps.len()) == Some(ps),
    decreases ps.len(),
{
    broadcast use vstd::utf8::encode_utf8_valid_utf8, vstd::utf8::encode_utf8_decode_utf8;

    if ps.len() > 0 {
        let e = encode_utf8(ps[0]);
        let len = e.len();
        assert(len < 0x1_0000_0000);
        let t = path_table(ps);
        let rest = path_table(ps.drop_first());
        assert(t == u32_le(len % 0x1_0000_0000) + e + rest);
        assert(len % 0x1_0000_0000 == len);
        lemma_u32_le(len);
        assert(b.subrange(off, off + 4) =~= u32_le(len));
        assert(le_u32(b, off) == le_u32(u32_le(len), 0)) by {
            assert(b[off] == u32_le(len)[0]);
            assert(b[off + 1] == u32_le(len)[1]);
            assert(b[off + 2] == u32_le(len)[2]);
            assert(b[off + 3] == u32_le(len)[3]);
        }
        let start = off + 4;
        assert(b.subrange(start, start + len) =~= e) by {
            assert forall|k: int| 0 <= k < len implies b.subrange(start, start + len)[k] == e[k] by {
                assert(b[start + k] == t[4 + k]);
            }
        }
        assert(b.subrange(start + len, start + len + rest.len()) =~= rest) by {
            assert forall|k: int| 0 <= k < rest.len() implies b.subrange(start + len, start + len + rest.len())[k] == rest[k] by {
                assert(b[start + len + k] == t[4 + len + k]);
            }
        }
        assert(paths_fit(ps.drop_first())) by {
            assert forall|i: int| 0 <= i < ps.drop_first().len() implies #[trigger] encode_utf8(ps.drop_first()[i]).len() < 0x1_0000_0000 by {
                assert(ps.drop_first()[i] == ps[i + 1]);
            }
        }
        lemma_parse_table(b, start + len, ps.drop_first());
        assert(seq![ps[0]] + ps.drop_first() =~= ps);
    }
}

/// The embedding block holds `dim` bytes per embedding, in order.
proof fn lemma_block(embs: Seq<Seq<i8>>, dim: nat, i: int)
    requires
        forall|k: int| 0 <= k < embs.len() ==> (#[trigger] embs[k]).len() == dim,
        0 <= i < embs.len(),
    ensures
        embedding_block(embs).len() == embs.len() * dim,
        embedding_block(embs).subrange(i * dim, (i + 1) * dim) == embs[i].map_values(|x: i8| i8_byte(x)),
    decreases embs.len(),
{
    let n = embs.len();
    let init = embs.drop_last();
    assert forall|k: int| 0 <= k < init.len() implies (#[trigger] init[k]).len() == dim by {
        assert(init[k] == embs[k]);
    }
    lemma_block_len(init, dim);
    let blk = embedding_block(embs);
    let b0 = embedding_block(init);
    let last = embs.last().map_values(|x: i8| i8_byte(x));
    assert(blk == b0 + last);
    assert(b0.len() == (n - 1) * dim);
    assert((n - 1) * dim + dim == n * dim) by (nonlinear_arith);
    assert((i + 1) * dim == i * dim + dim) by (nonlinear_arith);
    assert(0 <= i * dim) by (nonlinear_arith)
        requires 0 <= i;
    if i < n - 1 {
        lemma_block(init, dim, i);
        assert(init[i] == embs[i]);
        assert((i + 1) * dim <= (n - 1) * dim) by (nonlinear_arith)
            requires i + 1 <= n - 1;
        let lo = i * dim;
        assert(blk.subrange(lo, lo + dim) =~= b0.subrange(lo, lo + dim)) by {
            assert forall|k: int| 0 <= k < dim implies #[trigger] blk.subrange(lo, lo + dim)[k] == b0.subrange(lo, lo + dim)[k] by {
                assert(blk[lo + k] == b0[lo + k]);
            }
        }
    } else {
        assert(i * dim == (n - 1) * dim);
        assert((i + 1) * dim == n * dim) by (nonlinear_arith)
            requires i == n - 1;
        assert(blk.subrange(i * dim, (i + 1) * dim) =~= last);
    }
}

proof fn lemma_block_len(embs: Seq<Seq<i8>>, dim: nat)
    requires
        forall|k: int| 0 <= k < embs.len() ==> (#[trigger] embs[k]).len() == dim,
    ensures
        embedding_block(embs).len() == embs.len() * dim,
    decreases embs.len(),
{
    if embs.len() > 0 {
        let init = embs.drop_last();
        assert forall|k: int| 0 <= k < init.len() implies (#[trigger] init[k]).len() == dim by {
            assert(init[k] == embs[k]);
        }
        lemma_block_len(init, dim);
        assert((embs.len() - 1) * dim + dim == embs.len() * dim) by (nonlinear_arith);
    }
}

/// Writing a matrix and reading it back gives its dimension, its paths in
/// order, and each row's embedding, provided that the numbers fit the
/// format's `u32` fields.
pub proof fn lemma_matrix_roundtrip(paths: Seq<Seq<char>>, embs: Seq<Seq<i8>>, dim: nat)
    requires
        paths.len() == embs.len(),
        forall|k: int| 0 <= k < embs.len() ==> (#[trigger] embs[k]).len() == dim,
        dim < 0x1_0000_0000,
        paths.len() < 0x1_0000_0000,
        paths_fit(paths),
    ensures
        parse_matrix(encode_matrix(paths, embs, dim)) == Some((dim, paths)),
        forall|i: int| 0 <= i < embs.len() ==> #[trigger] row_of(encode_matrix(paths, embs, dim), dim, i) == embs[i],
{
    let n = paths.len();
    let b = encode_matrix(paths, embs, dim);
    let blk = embedding_block(embs);
    let tbl = path_table(paths);
    lemma_block_len(embs, dim);
    assert(dim % 0x1_0000_0000 == dim);
    assert(n % 0x1_0000_0000 == n);
    assert(b == u32_le(dim) + u32_le(n) + blk + tbl);
    lemma_u32_le(dim);
    lemma_u32_le(n as nat);
    assert(le_u32(b, 0) == le_u32(u32_le(dim), 0)) by {
        assert(b[0] == u32_le(dim)[0]);
        assert(b[1] == u32_le(dim)[1]);
        assert(b[2] == u32_le(dim)[2]);
        assert(b[3] == u32_le(dim)[3]);
    }
    assert(le_u32(b, 4) == le_u32(u32_le(n as nat), 0)) by {
        assert(b[4] == u32_le(n as nat)[0]);
        assert(b[5] == u32_le(n as nat)[1]);
        assert(b[6] == u32_le(n as nat)[2]);
        assert(b[7] == u32_le(n as nat)[3]);
    }
    let off: int = (8 + n * dim) as int;
    assert(b.subrange(off, off + tbl.len()) =~= tbl) by {
        assert forall|k: int| 0 <= k < tbl.len() implies b.subrange(off, off + tbl.len())[k] == tbl[k] by {
            assert(b[off + k] == tbl[k]);
        }
    }
    lemma_parse_table(b, off, paths);
    assert forall|i: int| 0 <= i < embs.len() implies #[trigger] row_of(b, dim, i) == embs[i] by {
        lemma_block(embs, dim, i);
        assert((i + 1) * dim <= n * dim) by (nonlinear_arith)
            requires i + 1 <= n;
        assert(0 <= i * dim) by (nonlinear_arith)
            requires 0 <= i;
        assert((i + 1) * dim == i * dim + dim) by (nonlinear_arith);
        let lo = i * dim;
        let seg = b.subrange(8 + lo, 8 + lo + dim);
        let bseg = blk.subrange(lo, lo + dim);
        assert(seg =~= bseg) by {
            assert forall|k: int| 0 <= k < dim implies #[trigger] seg[k] == bseg[k] by {
                assert(b[8 + lo + k] == blk[lo + k]);
            }
        }
        assert(row_of(b, dim, i) =~= embs[i]);
    }
}


/// The paths of the entries.
pub open spec fn entry_paths(entries: Seq<(String, Vec<i8>)>) -> Seq<Seq<char>> {
    entries.map_values(|e: (String, Vec<i8>)| e.0@)
}

/// The embeddings of the entries.
pub open spec fn entry_embs(entries: Seq<(String, Vec<i8>)>) -> Seq<Seq<i8>> {
    entries.map_values(|e: (String, Vec<i8>)| e.1@)
}

/// The position of the first entry whose embedding does not have `dim` values.
pub open spec fn first_bad_dim(entries: Seq<(String, Vec<i8>)>, dim: nat) -> Option<int> {
    if exists|k: int| 0 <= k < entries.len() && (#[trigger] entries[k]).1.len() != dim {
        Some(choose|k: int| 0 <= k < entries.len() && entries[k].1.len() != dim
            && forall|j: int| 0 <= j < k ==> (#[trigger] entries[j]).1.len() == dim)
    } else {
        None
    }
}

/// The bytes of the matrix file for the entries, `dim` values per embedding;
/// an entry of another dimension is refused (the first such one is named).
pub fn encode(entries: &Vec<(String, Vec<i8>)>, dim: usize) -> (r: Result<Vec<u8>, IndexError>)
    ensures
        match r {
            Ok(b) => first_bad_dim(entries@, dim as nat) is None
                && b@ == encode_matrix(entry_paths(entries@), entry_embs(entries@), dim as nat),
            Err(IndexError::DimMismatch { expected, actual }) => first_bad_dim(entries@, dim as nat) matches Some(k)
                && expected == dim && actual == entries@[k].1.len(),
            Err(_) => false,
        },
{
    let mut k: usize = 0;
    while k < entries.len()
        invariant
            k <= entries.len(),
            forall|j: int| 0 <= j < k ==> (#[trigger] entries@[j]).1.len() == dim,
        decreases entries.len() - k,
    {
        if entries[k].1.len() != dim {
            proof {
                let w = choose|w: int| 0 <= w < entries@.len() && entries@[w].1.len() != dim as nat
                    && forall|j: int| 0 <= j < w ==> (#[trigger] entries@[j]).1.len() == dim;
                assert(entries@[k as int].1.len() != dim as nat);
                if w < k {
                } else if w > k {
                    assert(entries@[k as int].1.len() == dim);
                }
            }
            return Err(IndexError::DimMismatch { expected: dim, actual: entries[k].1.len() });
        }
        k = k + 1;
    }
    let ghost paths = entry_paths(entries@);
    let ghost embs = entry_embs(entries@);
    let mut out: Vec<u8> = Vec::new();
    push_u32_le(&mut out, (dim as u64 % 0x1_0000_0000) as u32);
    push_u32_le(&mut out, (entries.len() as u64 % 0x1_0000_0000) as u32);
    let mut i: usize = 0;
    while i < entries.len()
        invariant
            i <= entries.len(),
            embs == entry_embs(entries@),
            out@ == u32_le(dim as nat % 0x1_0000_0000) + u32_le(entries.len() as nat % 0x1_0000_0000)
                + embedding_block(embs.take(i as int)),
        decreases entries.len() - i,
    {
        let bytes = i8_to_bytes(entries[i].1.as_slice());
        let ghost o0 = out@;
        let mut j: usize = 0;
        while j < bytes.len()
            invariant
                j <= bytes.len(),
                out@ == o0 + bytes@.take(j as int),
            decreases bytes.len() - j,
        {
            out.push(bytes[j]);
            assert(bytes@.take(j + 1) =~= bytes@.take(j as int).push(bytes@[j as int]));
            assert(out@ =~= o0 + bytes@.take(j + 1));
            j = j + 1;
        }
        proof {
            assert(bytes@.take(bytes.len() as int) =~= bytes@);
            assert(embs.take(i + 1).drop_last() =~= embs.take(i as int));
            assert(embs.take(i + 1).last() == entries@[i as int].1@);
            assert(out@ =~= u32_le(dim as nat % 0x1_0000_0000) + u32_le(entries.len() as nat % 0x1_0000_0000)
                + embedding_block(embs.take(i + 1)));
        }
        i = i + 1;
    }
    proof {
        assert(embs.take(entries.len() as int) =~= embs);
    }
    let ghost head = out@;
    let mut i: usize = 0;
    proof {
        assert(paths.skip(0) =~= paths);
    }
    // the path table, written so that the part still to write is the table of the rest
    let ghost mut written: Seq<u8> = Seq::empty();
    while i < entries.len()
        invariant
            i <= entries.len(),
            paths == entry_paths(entries@),
            out@ == head + written,
            written + path_table(paths.skip(i as int)) == path_table(paths),
        decreases entries.len() - i,
    {
        let pb = entries[i].0.as_str().as_bytes();
        let ghost w0 = out@;
        push_u32_le(&mut out, (pb.len() as u64 % 0x1_0000_0000) as u32);
        let mut j: usize = 0;
        let ghost w1 = out@;
        while j < pb.len()
            invariant
                j <= pb.len(),
                out@ == w1 + pb@.take(j as int),
            decreases pb.len() - j,
        {
            out.push(pb[j]);
            assert(pb@.take(j + 1) =~= pb@.take(j as int).push(pb@[j as int]));
            assert(out@ =~= w1 + pb@.take(j + 1));
            j = j + 1;
        }
        proof {
            assert(pb@.take(pb.len() as int) =~= pb@);
            let rest = paths.skip(i as int);
            assert(rest[0] == entries@[i as int].0@);
            assert(rest.drop_first() =~= paths.skip(i + 1));
            assert(pb@ == encode_utf8(rest[0]));
            let piece = u32_le(pb@.len() % 0x1_0000_0000) + pb@;
            assert(path_table(rest) == piece + path_table(paths.skip(i + 1)));
            written = written + piece;
            assert(out@ =~= head + written);
            assert(written + path_table(paths.skip(i + 1)) =~= (written.subrange(0, written.len() - piece.len())
                + piece) + path_table(paths.skip(i + 1)));
        }
        i = i + 1;
    }
    proof {
        assert(paths.skip(entries.len() as int) =~= Seq::<Seq<char>>::empty());
        assert(written =~= path_table(paths));
    }
    Ok(out)
}


/// Reads the dimension and paths of a matrix file; nothing when the file is
/// too short for its header or path table, or a path is not UTF-8.
pub fn parse(b: &Vec<u8>) -> (r: Option<(usize, Vec<String>)>)
    ensures
        match r {
            Some((dim, paths)) => parse_matrix(b@) == Some((dim as nat, sviews(paths@))),
            None => parse_matrix(b@) is None,
        },
{
    if b.len() < 8 {
        return None;
    }
    let dim = read_u32_le(b, 0);
    let n = read_u32_le(b, 4);
    proof {
        assert(n * dim < 0x1_0000_0000_0000_0000 - 8) by (nonlinear_arith)
            requires n < 0x1_0000_0000, dim < 0x1_0000_0000;
    }
    let ghost off0: int = (8 + n * dim) as int;
    let mut off: u64 = 8 + n * dim;
    let mut paths: Vec<String> = Vec::new();
    let mut k: u64 = 0;
    while k < n
        invariant
            k <= n,
            b@.len() >= 8,
            n == le_u32(b@, 4),
            dim == le_u32(b@, 0),
            off0 == 8 + n * dim,
            parse_paths(b@, off0, n as nat) == match parse_paths(b@, off as int, (n - k) as nat) {
                Some(rest) => Some(sviews(paths@) + rest),
                None => None,
            },
        decreases n - k,
    {
        if off > b.len() as u64 || 4 > b.len() as u64 - off {
            return None;
        }
        let at = off as usize;
        let len = read_u32_le(b, at);
        let start = at + 4;
        if len > (b.len() - start) as u64 {
            return None;
        }
        let end = start + len as usize;
        let mut piece: Vec<u8> = Vec::new();
        let mut j: usize = start;
        while j < end
            invariant
                start <= j <= end <= b.len(),
                piece@ == b@.subrange(start as int, j as int),
            decreases end - j,
        {
            piece.push(b[j]);
            assert(piece@ =~= b@.subrange(start as int, j + 1));
            j = j + 1;
        }
        match utf8_string(piece.as_slice()) {
            Some(s) => {
                let ghost p0 = sviews(paths@);
                paths.push(s);
                proof {
                    assert(sviews(paths@) =~= p0.push(s@));
                    let rest_k = (n - k) as nat;
                    assert(parse_paths(b@, off as int, rest_k) == match parse_paths(b@, end as int, (rest_k - 1) as nat) {
                        Some(rest) => Some(seq![s@] + rest),
                        None => None,
                    });
                    match parse_paths(b@, end as int, (rest_k - 1) as nat) {
                        Some(rest) => {
                            assert(p0 + (seq![s@] + rest) =~= p0.push(s@) + rest);
                        },
                        None => {},
                    }
                }
                off = end as u64;
            },
            None => {
                return None;
            },
        }
        k = k + 1;
    }
    proof {
        assert(sviews(paths@) + Seq::<Seq<char>>::empty() =~= sviews(paths@));
    }
    Some((dim as usize, paths))
}

/// The folder-embedding matrix: the bytes of its file, its dimension, and
/// its paths in row order.
#[derive(Debug)]
pub struct FolderEmbeddingMatrix {
    data: Vec<u8>,
    dim: usize,
    paths: Vec<String>,
}

impl FolderEmbeddingMatrix {
    /// The matrix is read from its bytes.
    pub closed spec fn wf(&self) -> bool {
        parse_matrix(self.data@) == Some((self.dim as nat, sviews(self.paths@)))
    }

    /// The bytes of the matrix file.
    pub closed spec fn bytes(&self) -> Seq<u8> {
        self.data@
    }

    /// The paths, in row order.
    pub closed spec fn path_list(&self) -> Seq<Seq<char>> {
        sviews(self.paths@)
    }

    /// The dimension.
    pub closed spec fn dimension(&self) -> nat {
        self.dim as nat
    }

    /// A well-formed matrix is what its bytes read as: its dimension and paths.
    pub proof fn lemma_read_back(&self)
        requires
            self.wf(),
        ensures
            parse_matrix(self.bytes()) == Some((self.dimension(), self.path_list())),
    {
    }

    /// Writes the entries in the matrix format and reads them back.
    pub fn build(entries: &Vec<(String, Vec<i8>)>, dim: usize) -> (r: Result<Self, IndexError>)
        ensures
            match r {
                Ok(m) => m.wf() && first_bad_dim(entries@, dim as nat) is None
                    && m.bytes() == encode_matrix(entry_paths(entries@), entry_embs(entries@), dim as nat)
                    && ((dim < 0x1_0000_0000 && entries@.len() < 0x1_0000_0000 && paths_fit(entry_paths(entries@))) ==> {
                        &&& m.dimension() == dim
                        &&& m.path_list() == entry_paths(entries@)
                        &&& forall|i: int| 0 <= i < entries@.len() ==> #[trigger] row_of(m.bytes(), dim as nat, i)
                            == entry_embs(entries@)[i]
                    }),
                Err(IndexError::DimMismatch { expected, actual }) => first_bad_dim(entries@, dim as nat) matches Some(k)
                    && expected == dim && actual == entries@[k].1.len(),
                Err(IndexError::Io(_)) => first_bad_dim(entries@, dim as nat) is None
                    && parse_matrix(encode_matrix(entry_paths(entries@), entry_embs(entries@), dim as nat)) is None,
                Err(_) => false,
            },
    {
        let data = match encode(entries, dim) {
            Ok(b) => b,
            Err(e) => {
                return Err(e);
            },
        };
        let ghost b = data@;
        match Self::open(data) {
            Some(m) => {
                proof {
                    let ps = entry_paths(entries@);
                    let es = entry_embs(entries@);
                    if dim < 0x1_0000_0000 && entries@.len() < 0x1_0000_0000 && paths_fit(ps) {
                        assert forall|k: int| 0 <= k < es.len() implies (#[trigger] es[k]).len() == dim by {
                            assert(first_bad_dim(entries@, dim as nat) is None);
                            assert(es[k] == entries@[k].1@);
                        }
                        lemma_matrix_roundtrip(ps, es, dim as nat);
                    }
                }
                Ok(m)
            },
            None => Err(IndexError::Io("malformed matrix file".to_owned())),
        }
    }

    /// Reads a matrix from the bytes of its file; nothing when they are not
    /// a matrix file.
    pub fn open(data: Vec<u8>) -> (r: Option<Self>)
        ensures
            match r {
                Some(m) => m.wf() && m.bytes() == data@ && parse_matrix(data@) == Some((m.dimension(), m.path_list())),
                None => parse_matrix(data@) is None,
            },
    {
        match parse(&data) {
            Some((dim, paths)) => Some(FolderEmbeddingMatrix { data, dim, paths }),
            None => None,
        }
    }

    /// The dimension of the embeddings.
    pub fn dim(&self) -> (r: usize)
        ensures
            r == self.dimension(),
    {
        self.dim
    }

    /// The number of rows.
    pub fn len(&self) -> (r: usize)
        ensures
            r == self.path_list().len(),
    {
        self.paths.len()
    }

    pub fn is_empty(&self) -> (r: bool)
        ensures
            r == (self.path_list().len() == 0),
    {
        self.paths.len() == 0
    }

    /// The paths, in row order.
    pub fn paths(&self) -> (r: &Vec<String>)
        ensures
            sviews(r@) == self.path_list(),
    {
        &self.paths
    }

    /// The embedding of row `index`.
    pub fn embedding(&self, index: usize) -> (r: Vec<i8>)
        requires
            self.wf(),
            index < self.path_list().len(),
        ensures
            r@ == row_of(self.bytes(), self.dimension(), index as int),
    {
        proof {
            let b = self.data@;
            let n = self.paths.len();
            assert(b.len() >= 8);
            lemma_parse_paths_len(b, (8 + le_u32(b, 4) * le_u32(b, 0)) as int, le_u32(b, 4));
            assert(le_u32(b, 4) == n);
            let off = 8 + n * self.dim;
            assert(parse_paths(b, off as int, n as nat) is Some);
            assert(off + 4 <= b.len());
            let d = self.dim as int;
            let i = index as int;
            assert((i + 1) * d <= n * d) by (nonlinear_arith)
                requires i + 1 <= n, 0 <= d;
            assert(i * d + d == (i + 1) * d) by (nonlinear_arith);
            assert(0 <= i * d) by (nonlinear_arith)
                requires 0 <= i, 0 <= d;
            assert(self.dimension() == d);
            assert(self.bytes().len() == self.data.len());
            assert(8 + i * d + d <= self.data.len());
        }
        let start = 8 + index * self.dim;
        let end = start + self.dim;
        let mut raw: Vec<u8> = Vec::new();
        let mut j: usize = start;
        while j < end
            invariant
                start <= j <= end <= self.data.len(),
                raw@ == self.data@.subrange(start as int, j as int),
            decreases end - j,
        {
            raw.push(self.data[j]);
            assert(raw@ =~= self.data@.subrange(start as int, j + 1));
            j = j + 1;
        }
        bytes_to_i8(raw.as_slice())
    }

    /// The embeddings of all rows, in row order.
    pub fn iter_embeddings(&self) -> (r: Vec<Vec<i8>>)
        requires
            self.wf(),
        ensures
            r.len() == self.path_list().len(),
            forall|i: int| 0 <= i < r.len() ==> (#[trigger] r[i])@ == row_of(self.bytes(), self.dimension(), i),
    {
        let n = self.paths.len();
        proof {
            let b = self.data@;
            assert(b.len() >= 8);
            lemma_parse_paths_len(b, (8 + le_u32(b, 4) * le_u32(b, 0)) as int, le_u32(b, 4));
            assert(le_u32(b, 4) == n);
            if n > 0 {
                let off = 8 + n * self.dim;
                assert(parse_paths(b, off as int, n as nat) is Some);
                assert(off + 4 <= b.len());
            }
        }
        let mut out: Vec<Vec<i8>> = Vec::new();
        let mut i: usize = 0;
        while i < n
            invariant
                self.wf(),
                n == self.paths.len(),
                i <= n,
                n > 0 ==> 8 + n * self.dim <= self.data.len(),
                out.len() == i,
                forall|j: int| 0 <= j < i ==> (#[trigger] out[j])@ == row_of(self.bytes(), self.dimension(), j),
            decreases n - i,
        {
            proof {
                let d = self.dim as int;
                let ii = i as int;
                assert((ii + 1) * d <= n * d) by (nonlinear_arith)
                    requires ii + 1 <= n, 0 <= d;
            }
            let e = self.embedding(i);
            out.push(e);
            i = i + 1;
        }
        out
    }
}

} // verus!
