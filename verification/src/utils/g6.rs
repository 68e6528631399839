//! Reading and writing graphs in the graph6 format: one byte (or four) for the number of
//! vertices (the eight-byte form for very large graphs, which starts `~~`, is not supported), then the upper triangle of the adjacency matrix, six bits per byte, each byte
//! offset by 63.

use vstd::prelude::*;

verus! {

/// Why a graph6 string could not be read.
#[derive(Debug, Clone, Copy, PartialEq, Eq, Structural)]
pub enum Error {
    /// The input has no byte.
    Empty,
    /// The format for very large graphs is not supported.
    UnsupportedLargeGraph,
    /// A byte lies outside the range the format allows.
    InvalidFormat,
}

/// The number of vertices that a four-byte size field gives.
pub open spec fn long_size(b1: u8, b2: u8, b3: u8) -> usize {
    (((b1 - 63) as usize) << 12usize) | (((b2 - 63) as usize) << 6usize) | ((b3 - 63) as usize)
}

/// What reading the size field of `bytes` gives.
pub open spec fn spec_get_size(bytes: Seq<u8>) -> Result<usize, Error> {
    if bytes.len() == 0 {
        Err(Error::Empty)
    } else if 63 <= bytes[0] <= 125 {
        Ok((bytes[0] - 63) as usize)
    } else if bytes[0] == 126 {
        if bytes.len() < 4 {
            Err(Error::InvalidFormat)
        } else if bytes[1] == 126 {
            Err(Error::UnsupportedLargeGraph)
        } else {
            Ok(long_size(bytes[1], bytes[2], bytes[3]))
        }
    } else {
        Err(Error::InvalidFormat)
    }
}

/// The inputs on which reading the size field does not underflow: a four-byte size field has
/// no byte below 63.
pub open spec fn size_readable(bytes: Seq<u8>) -> bool {
    bytes.len() >= 4 && bytes[0] == 126 ==> (bytes[1] >= 63 && bytes[2] >= 63 && bytes[3] >= 63)
}

/// Reads the number of vertices from the size field at the start of `bytes`.
pub fn get_size(bytes: &[u8]) -> (r: Result<usize, Error>)
    requires
        size_readable(bytes@),
    ensures
        r == spec_get_size(bytes@),
{
    if bytes.len() == 0 {
        return Err(Error::Empty);
    }
    let first_byte = bytes[0];
    if 63 <= first_byte && first_byte <= 125 {
        Ok((first_byte - 63) as usize)
    } else if first_byte == 126 {
        if bytes.len() < 4 {
            return Err(Error::InvalidFormat);
        }
        if bytes[1] == 126 {
            return Err(Error::UnsupportedLargeGraph);
        }
        Ok((((bytes[1] - 63) as usize) << 12usize) | (((bytes[2] - 63) as usize) << 6usize) | ((
        bytes[3] - 63) as usize))
    } else {
        Err(Error::InvalidFormat)
    }
}

/// The size field for a graph of `n` vertices.
pub open spec fn spec_to_size(n: usize) -> Seq<u8> {
    if n <= 62 {
        seq![(n + 63) as u8]
    } else {
        seq![
            126u8,
            (((n >> 12usize) & 0x3f) + 63) as u8,
            (((n >> 6usize) & 0x3f) + 63) as u8,
            ((n & 0x3f) + 63) as u8,
        ]
    }
}

pub proof fn lemma_low6(n: usize)
    by (bit_vector)
    ensures
        (n >> 12usize) & 0x3f < 64,
        (n >> 6usize) & 0x3f < 64,
        n & 0x3f < 64,
{
}

/// Writes the size field for a graph of `n` vertices.
pub fn to_size(n: usize) -> (r: Vec<u8>)
    requires
        n <= 258047,
    ensures
        r@ == spec_to_size(n),
        r@.len() <= 4,
        forall|k: int| 0 <= k < r@.len() ==> 63 <= #[trigger] r@[k] < 127,
{
    if n <= 62 {
        let r = vec![n as u8 + 63];
        assert(r@ =~= spec_to_size(n));
        r
    } else {
        proof {
            lemma_low6(n);
        }
        let r = vec![
            126u8,
            ((n >> 12usize) & 0x3f) as u8 + 63,
            ((n >> 6usize) & 0x3f) as u8 + 63,
            (n & 0x3f) as u8 + 63,
        ];
        assert(r@ =~= spec_to_size(n));
        r
    }
}

/// The position after `(row, col)` in the column-by-column walk through the upper triangle.
pub open spec fn next_cell(row: int, col: int) -> (int, int) {
    if row == col - 1 {
        (0, col + 1)
    } else {
        (row + 1, col)
    }
}

/// Where reading a sequence of bits has got to: the edges found, and the next cell.
pub struct ScanState {
    pub edges: Seq<(usize, usize)>,
    pub row: int,
    pub col: int,
}

/// Reads the bits of the data byte `b` (already offset by 63) from bit `i` on, most significant
/// first, stopping early once the column reaches `n`.
pub open spec fn scan_byte(b: u8, n: int, i: int, st: ScanState) -> ScanState
    decreases 6 - i,
{
    if i >= 6 || i < 0 {
        st
    } else {
        let edges = if (b >> ((5 - i) as u8)) & 1u8 == 1u8 {
            st.edges.push((st.row as usize, st.col as usize))
        } else {
            st.edges
        };
        let (r2, c2) = next_cell(st.row, st.col);
        let st2 = ScanState { edges, row: r2, col: c2 };
        if c2 >= n {
            st2
        } else {
            scan_byte(b, n, i + 1, st2)
        }
    }
}

/// Reads the data bytes of a graph6 string for a graph of `n` vertices; `None` when a byte lies
/// below 63.
pub open spec fn scan_bytes(bytes: Seq<u8>, n: int) -> Option<ScanState>
    decreases bytes.len(),
{
    if bytes.len() == 0 {
        Some(ScanState { edges: seq![], row: 0, col: 1 })
    } else {
        match scan_bytes(bytes.drop_last(), n) {
            None => None,
            Some(st) => if bytes.last() < 63 {
                None
            } else {
                Some(scan_byte((bytes.last() - 63) as u8, n, 0, st))
            },
        }
    }
}

/// The number of cells before `(row, col)` in the walk.
pub open spec fn cell_index(row: int, col: int) -> int {
    col * (col - 1) / 2 + row
}

proof fn lemma_next_cell(row: int, col: int)
    requires
        0 <= row < col,
    ensures
        cell_index(next_cell(row, col).0, next_cell(row, col).1) == cell_index(row, col) + 1,
        0 <= next_cell(row, col).0 < next_cell(row, col).1,
        next_cell(row, col).1 >= col,
{
    if row == col - 1 {
        assert((col + 1) * col / 2 == col * (col - 1) / 2 + col) by (nonlinear_arith)
            requires
                col >= 1,
        ;
    }
}

proof fn lemma_col_small(col: int, m: int)
    requires
        col >= 1,
        m >= 15,
        col * (col - 1) / 2 <= 6 * m + 6,
    ensures
        col < m,
{
    if col >= m {
        assert(col * (col - 1) >= m * (m - 1)) by (nonlinear_arith)
            requires
                col >= m,
                m >= 15,
        ;
        assert(m * (m - 1) >= 14 * m) by (nonlinear_arith)
            requires
                m >= 15,
        ;
    }
}

/// Reads the edge list from the data bytes of a graph6 string for a graph of `n` vertices.
///
/// Each data byte gives six cells of the upper triangle, column by column; reading a byte stops
/// once the column reaches `n`, so the first bit of each further byte is still read.
pub fn get_edges(bytes: &[u8], n: usize) -> (r: Result<Vec<(usize, usize)>, Error>)
    ensures
        match r {
            Ok(edges) => scan_bytes(bytes@, n as int) matches Some(st) && edges@ == st.edges
                && forall|i: int| 0 <= i < edges@.len() ==> #[trigger] edges@[i].0 < edges@[i].1,
            Err(e) => e == Error::InvalidFormat && scan_bytes(bytes@, n as int) is None,
        },
{
    let mut edges: Vec<(usize, usize)> = Vec::new();
    let mut row: usize = 0;
    let mut col: usize = 1;
    let mut k: usize = 0;
    proof {
        assert(bytes@.take(0) =~= Seq::<u8>::empty());
    }
    while k < bytes.len()
        invariant
            k <= bytes.len(),
            scan_bytes(bytes@.take(k as int), n as int) == Some(
                ScanState { edges: edges@, row: row as int, col: col as int },
            ),
            0 <= row < col,
            cell_index(row as int, col as int) <= 6 * k,
            forall|e: int| 0 <= e < edges@.len() ==> #[trigger] edges@[e].0 < edges@[e].1,
        decreases bytes.len() - k,
    {
        proof {
            assert(bytes@.take(k + 1).drop_last() =~= bytes@.take(k as int));
        }
        let byte = bytes[k];
        if byte < 63 {
            proof {
                assert(scan_bytes(bytes@.take(k + 1), n as int) is None);
                lemma_scan_none_extends(bytes@, n as int, k + 1);
            }
            return Err(Error::InvalidFormat);
        }
        let b = byte - 63;
        let ghost st0 = ScanState { edges: edges@, row: row as int, col: col as int };
        let mut i: u8 = 0;
        while i < 6
            invariant_except_break
                scan_byte(b, n as int, 0, st0) == scan_byte(
                    b,
                    n as int,
                    i as int,
                    ScanState { edges: edges@, row: row as int, col: col as int },
                ),
            invariant
                i <= 6,
                0 <= row < col,
                forall|e: int| 0 <= e < edges@.len() ==> #[trigger] edges@[e].0 < edges@[e].1,
                cell_index(row as int, col as int) <= 6 * k + i,
                k < bytes.len(),
            ensures
                scan_byte(b, n as int, 0, st0) == (ScanState {
                    edges: edges@,
                    row: row as int,
                    col: col as int,
                }),
            decreases 6 - i,
        {
            let ghost st = ScanState { edges: edges@, row: row as int, col: col as int };
            let bit = (b >> (5 - i)) & 1;
            if bit == 1 {
                edges.push((row, col));
            }
            proof {
                lemma_next_cell(row as int, col as int);
                lemma_col_small(col as int, usize::MAX as int);
            }
            if row == col - 1 {
                row = 0;
                col = col + 1;
            } else {
                row = row + 1;
            }
            i = i + 1;
            if col >= n {
                break;
            }
        }
        k = k + 1;
    }
    proof {
        assert(bytes@.take(bytes.len() as int) =~= bytes@);
    }
    Ok(edges)
}

proof fn lemma_scan_none_extends(bytes: Seq<u8>, n: int, k: int)
    requires
        0 <= k <= bytes.len(),
        scan_bytes(bytes.take(k), n) is None,
    ensures
        scan_bytes(bytes, n) is None,
    decreases bytes.len() - k,
{
    if k < bytes.len() {
        assert(bytes.take(k + 1).drop_last() =~= bytes.take(k));
        lemma_scan_none_extends(bytes, n, k + 1);
    } else {
        assert(bytes.take(k) =~= bytes);
    }
}

/// Bit `q` of a byte.
pub open spec fn bit8(x: u8, q: u8) -> bool {
    (x >> q) & 1u8 == 1u8
}

proof fn lemma_bit8_or(x: u8, p: u8, q: u8)
    by (bit_vector)
    requires
        p < 8,
        q < 8,
    ensures
        bit8(x | (1u8 << p), q) == (bit8(x, q) || q == p),
{
}

proof fn lemma_bit8_small(x: u8)
    by (bit_vector)
    requires
        !bit8(x, 6),
        !bit8(x, 7),
    ensures
        x < 64,
        ((x + 63) as u8 - 63) as u8 == x,
{
}

proof fn lemma_bit8_zero(q: u8)
    by (bit_vector)
    ensures
        !bit8(0, q),
{
}

/// The cell of the upper triangle that an edge `(row, col)` occupies.
pub open spec fn edge_cell(e: (usize, usize)) -> int {
    cell_index(e.0 as int, e.1 as int)
}

/// Whether some edge of `edges` occupies cell `c`.
pub open spec fn covers(edges: Seq<(usize, usize)>, c: int) -> bool {
    exists|i: int| 0 <= i < edges.len() && edge_cell(edges[i]) == c
}

/// The number of data bytes needed to hold the cells of `edges`: up to the byte of the last
/// occupied cell.
pub open spec fn encoded_len(edges: Seq<(usize, usize)>) -> int
    decreases edges.len(),
{
    if edges.len() == 0 {
        0
    } else {
        let rest = encoded_len(edges.drop_last());
        let here = edge_cell(edges.last()) / 6 + 1;
        if rest < here {
            here
        } else {
            rest
        }
    }
}

/// Whether every edge joins a lower-numbered to a higher-numbered vertex of a graph of `n`
/// vertices.
pub open spec fn edges_in_triangle(edges: Seq<(usize, usize)>, n: int) -> bool {
    forall|i: int| 0 <= i < edges.len() ==> #[trigger] edges[i].0 < edges[i].1 < n
}

/// The number of data bytes of a graph6 string for a graph of `n` vertices: six cells of the
/// upper triangle per byte, the last byte padded.
pub open spec fn g6_data_len(n: int) -> int {
    (n * (n - 1) / 2 + 5) / 6
}

/// Whether the data bytes `data` of a graph of `n` vertices mark exactly the cells that `edges`
/// occupies.
pub open spec fn encodes(data: Seq<u8>, edges: Seq<(usize, usize)>, n: int) -> bool {
    &&& data.len() == g6_data_len(n)
    &&& forall|j: int| 0 <= j < data.len() ==> 63 <= #[trigger] data[j] < 127
    &&& forall|j: int, q: u8|
        0 <= j < data.len() && q < 6 ==> #[trigger] bit8(unshift(data[j]), q) == covers(
            edges,
            6 * j + (5 - q),
        )
}

/// A data byte without its offset of 63.
pub open spec fn unshift(x: u8) -> u8 {
    (x - 63) as u8
}

proof fn lemma_cell_bound(row: int, col: int, n: int)
    requires
        0 <= row < col < n,
        n * n <= usize::MAX,
    ensures
        0 <= cell_index(row, col) < n * n,
        col * (col - 1) <= usize::MAX,
{
    assert(col * (col - 1) / 2 + row < n * n) by (nonlinear_arith)
        requires
            0 <= row < col < n,
    ;
    assert(col * (col - 1) <= n * n) by (nonlinear_arith)
        requires
            0 <= row < col < n,
    ;
    assert(col * (col - 1) >= 0) by (nonlinear_arith)
        requires
            col >= 1,
    ;
}

proof fn lemma_encoded_len_bound(edges: Seq<(usize, usize)>, k: int)
    requires
        0 <= k < edges.len(),
    ensures
        encoded_len(edges.take(k + 1)) == if encoded_len(edges.take(k)) < edge_cell(edges[k]) / 6
            + 1 {
            edge_cell(edges[k]) / 6 + 1
        } else {
            encoded_len(edges.take(k))
        },
        encoded_len(edges.take(k)) >= 0,
{
    assert(edges.take(k + 1).drop_last() =~= edges.take(k));
    lemma_encoded_len_nonneg(edges.take(k));
}

proof fn lemma_encoded_len_nonneg(edges: Seq<(usize, usize)>)
    ensures
        encoded_len(edges) >= 0,
    decreases edges.len(),
{
    if edges.len() > 0 {
        lemma_encoded_len_nonneg(edges.drop_last());
    }
}

/// The data bytes of a graph of `n` vertices fit in `n * n` bytes, and the cells of the last one
/// start inside the triangle.
pub proof fn lemma_data_len_bound(n: int)
    requires
        n >= 0,
    ensures
        0 <= g6_data_len(n) <= n * n,
        g6_data_len(n) == 0 || 6 * (g6_data_len(n) - 1) < n * (n - 1) / 2,
        n * (n - 1) / 2 >= 0,
        n * (n - 1) / 2 <= 6 * g6_data_len(n),
{
    assert(n * (n - 1) >= 0) by (nonlinear_arith)
        requires
            n >= 0,
    ;
    let t = n * (n - 1) / 2;
    assert(t <= n * n) by (nonlinear_arith)
        requires
            n >= 0,
            t == n * (n - 1) / 2,
    ;
    assert((t + 5) / 6 <= n * n) by (nonlinear_arith)
        requires
            t <= n * n,
            t >= 0,
            n >= 0,
            t == n * (n - 1) / 2,
    ;
    assert(t <= 6 * ((t + 5) / 6)) by (nonlinear_arith)
        requires
            t >= 0,
    ;
    assert((t + 5) / 6 == 0 || 6 * ((t + 5) / 6 - 1) < t) by (nonlinear_arith)
        requires
            t >= 0,
    ;
}

/// The bytes up to the last occupied cell fit in the data bytes of the graph.
proof fn lemma_encoded_fits(edges: Seq<(usize, usize)>, n: int)
    requires
        edges_in_triangle(edges, n),
        n >= 0,
    ensures
        encoded_len(edges) <= g6_data_len(n),
{
    lemma_encoded_len_nonneg(edges);
    lemma_data_len_bound(n);
    if edges.len() > 0 {
        let i: int = 0;
        assert(edges[i].0 < edges[i].1 < n);
        lemma_encoded_within(edges, n);
        lemma_cell_range(0, n - 1);
        let e = encoded_len(edges);
        let t = cell_index(0, n);
        assert(t == n * (n - 1) / 2);
        assert(e == 0 || 6 * (e - 1) < t);
        lemma_data_len_bound(n);
        if e >= 1 {
            assert(e <= (t + 5) / 6) by (nonlinear_arith)
                requires
                    e >= 1,
                    6 * (e - 1) < t,
            ;
        }
    }
}

/// Writes the data bytes that mark the cells of `edges` at the end of `buf`.
pub fn to_edges(edges: &[(usize, usize)], n: usize, buf: &mut Vec<u8>)
    requires
        edges_in_triangle(edges@, n as int),
        n * n <= usize::MAX,
        old(buf).len() + n * n <= usize::MAX,
    ensures
        final(buf)@.len() >= old(buf)@.len(),
        final(buf)@.take(old(buf).len() as int) == old(buf)@,
        encodes(final(buf)@.skip(old(buf).len() as int), edges@, n as int),
{
    let start_index = buf.len();
    let ghost start = start_index as int;
    let mut k: usize = 0;
    proof {
        assert(edges@.take(0) =~= Seq::<(usize, usize)>::empty());
    }
    while k < edges.len()
        invariant
            k <= edges.len(),
            start == start_index == old(buf).len(),
            edges_in_triangle(edges@, n as int),
            n * n <= usize::MAX,
            old(buf).len() + n * n <= usize::MAX,
            buf.len() == start + encoded_len(edges@.take(k as int)),
            buf.len() <= start + n * n,
            buf@.take(start) == old(buf)@,
            forall|c: int|
                #[trigger] covers(edges@.take(k as int), c) ==> 0 <= c < 6 * encoded_len(
                    edges@.take(k as int),
                ),
            forall|j: int, q: u8|
                start <= j < buf.len() && q < 8 ==> #[trigger] bit8(buf@[j], q) == (q < 6
                    && covers(edges@.take(k as int), 6 * (j - start) + (5 - q))),
        decreases edges.len() - k,
    {
        let (row, col) = edges[k];
        proof {
            assert(edges@[k as int].0 < edges@[k as int].1 < n);
            lemma_cell_bound(row as int, col as int, n as int);
            lemma_encoded_len_bound(edges@, k as int);
        }
        let edge_index = (col * (col - 1)) / 2 + row;
        let byte_index = edge_index / 6 + start_index;
        let bit_position = edge_index % 6;
        assert(edge_index == 6 * (byte_index - start_index) + bit_position);
        let ghost before = buf@;
        while byte_index >= buf.len()
            invariant
                buf.len() == before.len() || buf.len() <= byte_index + 1,
                byte_index < start + n * n,
                buf@.take(buf.len() as int) == buf@,
                before.len() <= buf.len(),
                forall|j: int| 0 <= j < before.len() ==> buf@[j] == before[j],
                forall|j: int| before.len() <= j < buf.len() ==> buf@[j] == 0,
            decreases byte_index + 1 - buf.len(),
        {
            buf.push(0);
        }
        let old_byte = buf[byte_index];
        let ghost mid = buf@;
        let shift: u8 = 5 - bit_position as u8;
        buf.set(byte_index, old_byte | (1u8 << shift));
        proof {
            let ek = edges@[k as int];
            assert(edge_cell(ek) == edge_index);
            let t1 = edges@.take(k + 1);
            let t0 = edges@.take(k as int);
            assert forall|c: int| #[trigger] covers(t1, c) == (covers(t0, c) || c == edge_index) by {
                if covers(t1, c) && c != edge_index {
                    let i = choose|i: int| 0 <= i < t1.len() && edge_cell(t1[i]) == c;
                    assert(t0[i] == t1[i]);
                }
                if covers(t0, c) {
                    let i = choose|i: int| 0 <= i < t0.len() && edge_cell(t0[i]) == c;
                    assert(t1[i] == t0[i]);
                }
                if c == edge_index {
                    assert(t1[k as int] == ek);
                }
            }
            assert forall|c: int| #[trigger] covers(t1, c) implies 0 <= c < 6 * encoded_len(t1) by {
                assert(covers(t1, c) == (covers(t0, c) || c == edge_index));
            }
            assert forall|j: int, q: u8| start <= j < buf.len() && q < 8 implies #[trigger] bit8(
                buf@[j],
                q,
            ) == (q < 6 && covers(edges@.take(k + 1), 6 * (j - start) + (5 - q))) by {
                if j < before.len() {
                    assert(mid[j] == before[j]);
                    assert(bit8(before[j], q) == (q < 6 && covers(t0, 6 * (j - start) + (5 - q))));
                } else {
                    assert(mid[j] == 0);
                    lemma_bit8_zero(q);
                    if q < 6 {
                        let c = 6 * (j - start) + (5 - q);
                        if covers(t0, c) {
                            assert(c < 6 * encoded_len(t0));
                        }
                    }
                }
                let c = 6 * (j - start) + (5 - q);
                assert(covers(t1, c) == (covers(t0, c) || c == edge_index));
                if j == byte_index {
                    lemma_bit8_or(old_byte, shift, q);
                    if q < 6 {
                        assert(c == edge_index <==> q == shift);
                    }
                } else if q < 6 {
                    assert(edge_index == 6 * (byte_index - start) + bit_position);
                    assert(6 * (j - start) + (5 - q) != edge_index);
                }
            }
            assert(buf@.take(start) =~= old(buf)@) by {
                assert(before.take(start) =~= old(buf)@);
            }
        }
        k = k + 1;
    }
    proof {
        assert(edges@.take(edges.len() as int) =~= edges@);
        lemma_encoded_fits(edges@, n as int);
    }
    proof {
        lemma_data_len_bound(n as int);
        if n >= 1 {
            assert(n * (n - 1) <= n * n) by (nonlinear_arith)
                requires
                    n >= 1,
            ;
        }
    }
    let target = if n == 0 {
        start_index
    } else {
        start_index + (n * (n - 1) / 2 + 5) / 6
    };
    proof {
        if n == 0 {
            lemma_data_len_bound(0);
        }
    }
    proof {
        lemma_data_len_bound(n as int);
    }
    while buf.len() < target
        invariant
            start == start_index,
            target == start + g6_data_len(n as int),
            start + encoded_len(edges@) <= buf.len() <= target,
            buf@.take(start) == old(buf)@,
            forall|c: int| #[trigger] covers(edges@, c) ==> 0 <= c < 6 * encoded_len(edges@),
            forall|j: int, q: u8|
                start <= j < buf.len() && q < 8 ==> #[trigger] bit8(buf@[j], q) == (q < 6 && covers(
                    edges@,
                    6 * (j - start) + (5 - q),
                )),
        decreases target - buf.len(),
    {
        let ghost before = buf@;
        buf.push(0);
        proof {
            assert(buf@.take(start) =~= before.take(start));
            assert forall|j: int, q: u8| start <= j < buf.len() && q < 8 implies #[trigger] bit8(buf@[j], q) == (q < 6
                && covers(edges@, 6 * (j - start) + (5 - q))) by {
                if j < before.len() {
                    assert(buf@[j] == before[j]);
                } else {
                    lemma_bit8_zero(q);
                    if q < 6 && covers(edges@, 6 * (j - start) + (5 - q)) {
                        assert(6 * (j - start) + (5 - q) < 6 * encoded_len(edges@));
                    }
                }
            }
        }
    }
    let mut j = start_index;
    let ghost raw = buf@;
    while j < buf.len()
        invariant
            start == start_index,
            start_index <= j <= buf.len() == raw.len(),
            forall|i: int| 0 <= i < j ==> buf@[i] == if i < start {
                raw[i]
            } else {
                (raw[i] + 63) as u8
            },
            forall|i: int| j <= i < buf.len() ==> buf@[i] == raw[i],
            forall|i: int, q: u8| start <= i < raw.len() && q < 8 ==> #[trigger] bit8(raw[i], q) == (q < 6
                && covers(edges@, 6 * (i - start) + (5 - q))),
        decreases buf.len() - j,
    {
        let x = buf[j];
        proof {
            assert(!bit8(raw[j as int], 6) && !bit8(raw[j as int], 7));
            lemma_bit8_small(x);
        }
        buf.set(j, x + 63);
        j = j + 1;
    }
    proof {
        let data = buf@.skip(start);
        assert(buf@.take(start) =~= old(buf)@);
        assert forall|i: int| 0 <= i < data.len() implies 63 <= #[trigger] data[i] < 127 by {
            assert(!bit8(raw[start + i], 6) && !bit8(raw[start + i], 7));
            lemma_bit8_small(raw[start + i]);
        }
        assert forall|i: int, q: u8| 0 <= i < data.len() && q < 6 implies #[trigger] bit8(
            unshift(data[i]),
            q,
        ) == covers(edges@, 6 * i + (5 - q)) by {
            assert(!bit8(raw[start + i], 6) && !bit8(raw[start + i], 7));
            lemma_bit8_small(raw[start + i]);
            assert(bit8(raw[start + i], q) == covers(edges@, 6 * i + (5 - q)));
        }
    }
}

/// Where the data bytes start in a graph6 string for a graph of `n` vertices: after one size
/// byte for up to 62 vertices, after four otherwise.
pub open spec fn data_start(n: usize) -> int {
    if n <= 62 {
        1
    } else {
        4
    }
}

/// Whether every edge that reading `data` for a graph of `n` vertices finds joins two of its
/// vertices.
pub open spec fn edges_within(data: Seq<u8>, n: int) -> bool {
    scan_bytes(data, n) matches Some(st) ==> forall|i: int|
        0 <= i < st.edges.len() ==> #[trigger] st.edges[i].1 < n
}

/// The characters of a string of ASCII bytes.
pub open spec fn ascii_chars(bytes: Seq<u8>) -> Seq<char> {
    bytes.map_values(|b: u8| b as char)
}

/// The error `String::from_utf8` gives on bytes that are not UTF-8.
#[verifier::external_type_specification]
#[verifier::external_body]
pub struct ExFromUtf8Error(std::string::FromUtf8Error);

/// `String::from_utf8` on bytes that are all ASCII: such bytes are valid UTF-8, each one
/// character, so the result is `Ok` with the string whose characters are these bytes.
#[verifier::external_body]
pub(crate) fn ascii_string(bytes: Vec<u8>) -> (r: Result<String, std::string::FromUtf8Error>)
    requires
        forall|i: int| 0 <= i < bytes@.len() ==> #[trigger] bytes@[i] < 128,
    ensures
        r is Ok,
        r is Ok ==> r->Ok_0@ == ascii_chars(bytes@),
{
    String::from_utf8(bytes)
}

/// The cells of column `col` come after those of the earlier columns and before those of the
/// later ones.
proof fn lemma_cell_range(row: int, col: int)
    requires
        0 <= row < col,
    ensures
        col * (col - 1) / 2 <= cell_index(row, col) < cell_index(0, col + 1),
        cell_index(0, col + 1) == col * (col - 1) / 2 + col,
{
    assert((col + 1) * col / 2 == col * (col - 1) / 2 + col) by (nonlinear_arith)
        requires
            col >= 1,
    ;
}

/// The first cells of the columns grow with the column.
proof fn lemma_cell_mono(c1: int, c2: int)
    requires
        1 <= c1 <= c2,
    ensures
        cell_index(0, c1) <= cell_index(0, c2),
    decreases c2 - c1,
{
    if c1 < c2 {
        lemma_cell_mono(c1, c2 - 1);
        lemma_cell_range(0, c2 - 1);
    }
}

/// A cell of the upper triangle lies below the number of cells exactly when its column is a
/// vertex.
proof fn lemma_cell_in_triangle(row: int, col: int, n: int)
    requires
        0 <= row < col,
        n >= 1,
    ensures
        (col < n) == (cell_index(row, col) < cell_index(0, n)),
{
    lemma_cell_range(row, col);
    if col < n {
        lemma_cell_mono(col + 1, n);
    } else {
        lemma_cell_mono(n, col);
    }
}

/// Different cells of the upper triangle have different numbers.
proof fn lemma_cell_injective(r1: int, c1: int, r2: int, c2: int)
    requires
        0 <= r1 < c1,
        0 <= r2 < c2,
        cell_index(r1, c1) == cell_index(r2, c2),
    ensures
        r1 == r2,
        c1 == c2,
{
    lemma_cell_range(r1, c1);
    lemma_cell_range(r2, c2);
    if c1 < c2 {
        lemma_cell_mono(c1 + 1, c2);
    } else if c2 < c1 {
        lemma_cell_mono(c2 + 1, c1);
    }
}

/// Whether the cells of the edges strictly increase along the list: the order in which reading
/// walks the triangle, column by column.
pub open spec fn cells_increasing(es: Seq<(usize, usize)>) -> bool {
    forall|i: int, j: int| 0 <= i < j < es.len() ==> edge_cell(#[trigger] es[i]) < edge_cell(#[trigger] es[j])
}

/// Two lists of upper-triangle edges, each in increasing cell order, that hold the same edges
/// are the same list.
proof fn lemma_increasing_same(a: Seq<(usize, usize)>, b: Seq<(usize, usize)>)
    requires
        cells_increasing(a),
        cells_increasing(b),
        forall|i: int| 0 <= i < a.len() ==> (#[trigger] a[i]).0 < a[i].1,
        forall|i: int| 0 <= i < b.len() ==> (#[trigger] b[i]).0 < b[i].1,
        forall|e: (usize, usize)| #[trigger] a.contains(e) == b.contains(e),
    ensures
        a == b,
    decreases a.len() + b.len(),
{
    if a.len() == 0 {
        if b.len() > 0 {
            assert(b.contains(b[0]));
            assert(a.contains(b[0]) == b.contains(b[0]));
        }
        assert(a =~= b);
    } else if b.len() == 0 {
        assert(a.contains(a[0]));
        assert(a.contains(a[0]) == b.contains(a[0]));
    } else {
        let x = a.last();
        let y = b.last();
        assert(a[a.len() - 1] == x && b[b.len() - 1] == y);
        assert(a.contains(x) && b.contains(y));
        assert(a.contains(x) == b.contains(x));
        assert(a.contains(y) == b.contains(y));
        let ib = choose|i: int| 0 <= i < b.len() && b[i] == x;
        let ia = choose|i: int| 0 <= i < a.len() && a[i] == y;
        assert(edge_cell(x) <= edge_cell(y)) by {
            if ib < b.len() - 1 {
                assert(edge_cell(b[ib]) < edge_cell(b[b.len() - 1]));
            }
        }
        assert(edge_cell(y) <= edge_cell(x)) by {
            if ia < a.len() - 1 {
                assert(edge_cell(a[ia]) < edge_cell(a[a.len() - 1]));
            }
        }
        lemma_cell_injective(x.0 as int, x.1 as int, y.0 as int, y.1 as int);
        assert(x == y);
        let a2 = a.drop_last();
        let b2 = b.drop_last();
        assert forall|e: (usize, usize)| #[trigger] a2.contains(e) == b2.contains(e) by {
            if a2.contains(e) {
                let i = choose|i: int| 0 <= i < a2.len() && a2[i] == e;
                assert(a[i] == e);
                assert(edge_cell(a[i]) < edge_cell(a[a.len() - 1]));
                assert(a.contains(e));
                assert(a.contains(e) == b.contains(e));
                let j = choose|j: int| 0 <= j < b.len() && b[j] == e;
                assert(j != b.len() - 1);
                assert(b2[j] == e);
            }
            if b2.contains(e) {
                let j = choose|j: int| 0 <= j < b2.len() && b2[j] == e;
                assert(b[j] == e);
                assert(edge_cell(b[j]) < edge_cell(b[b.len() - 1]));
                assert(b.contains(e));
                assert(a.contains(e) == b.contains(e));
                let i = choose|i: int| 0 <= i < a.len() && a[i] == e;
                assert(i != a.len() - 1);
                assert(a2[i] == e);
            }
        }
        assert(cells_increasing(a2));
        assert(cells_increasing(b2));
        assert forall|i: int| 0 <= i < a2.len() implies (#[trigger] a2[i]).0 < a2[i].1 by {
            assert(a2[i] == a[i]);
        }
        assert forall|i: int| 0 <= i < b2.len() implies (#[trigger] b2[i]).0 < b2[i].1 by {
            assert(b2[i] == b[i]);
        }
        lemma_increasing_same(a2, b2);
        assert(a =~= a2.push(x));
        assert(b =~= b2.push(y));
    }
}

/// Where reading has got to after cell `m`: the next cell is cell `m`, and the edges found are
/// those at the cells below `m` that `es` occupies.
pub open spec fn scan_inv(es: Seq<(usize, usize)>, st: ScanState, m: int) -> bool {
    &&& 0 <= st.row < st.col
    &&& cells_increasing(st.edges)
    &&& cell_index(st.row, st.col) == m
    &&& forall|i: int|
        0 <= i < st.edges.len() ==> (#[trigger] st.edges[i]).0 < st.edges[i].1 && edge_cell(st.edges[i]) < m
            && covers(es, edge_cell(st.edges[i]))
    &&& forall|c: int|
        0 <= c < m && #[trigger] covers(es, c) ==> exists|i: int|
            0 <= i < st.edges.len() && edge_cell(st.edges[i]) == c
}

/// Reading the rest of a data byte from bit `i` on finds the occupied cells among its cells.
#[verifier::spinoff_prover]
proof fn lemma_scan_byte(es: Seq<(usize, usize)>, n: int, b: u8, j: int, i: int, st: ScanState)
    requires
        0 <= i < 6,
        0 <= j,
        1 <= n <= 258047,
        scan_inv(es, st, 6 * j + i),
        st.col < n,
        forall|q: u8| q < 6 ==> ((b >> q) & 1u8 == 1u8) == #[trigger] covers(es, 6 * j + 5 - q),
    ensures
        scan_inv(
            es,
            scan_byte(b, n, i, st),
            if 6 * j + 6 < cell_index(0, n) {
                6 * j + 6
            } else {
                cell_index(0, n)
            },
        ),
    decreases 6 - i,
{
    let m = 6 * j + i;
    let q = (5 - i) as u8;
    assert(covers(es, 6 * j + 5 - q) == covers(es, m));
    let bit = (b >> q) & 1u8 == 1u8;
    let edges = if bit {
        st.edges.push((st.row as usize, st.col as usize))
    } else {
        st.edges
    };
    let (r2, c2) = next_cell(st.row, st.col);
    lemma_next_cell(st.row, st.col);
    let st2 = ScanState { edges, row: r2, col: c2 };
    let pair = (st.row as usize, st.col as usize);
    assert(pair.0 as int == st.row && pair.1 as int == st.col);
    assert(edge_cell(pair) == m);
    assert(bit == covers(es, m));
    assert(scan_byte(b, n, i, st) == if c2 >= n {
        st2
    } else {
        scan_byte(b, n, i + 1, st2)
    });
    assert(scan_inv(es, st2, m + 1)) by {
        assert forall|a: int, c: int| 0 <= a < c < edges.len() implies edge_cell(#[trigger] edges[a]) < edge_cell(
            #[trigger] edges[c],
        ) by {
            assert(edges[a] == st.edges[a]);
            if c < st.edges.len() {
                assert(edges[c] == st.edges[c]);
            } else {
                assert(edge_cell(edges[c]) == m);
            }
        }
        assert forall|k: int| 0 <= k < edges.len() implies (#[trigger] edges[k]).0 < edges[k].1 && edge_cell(edges[k])
            < m + 1 && covers(es, edge_cell(edges[k])) by {
            if k < st.edges.len() {
                assert(edges[k] == st.edges[k]);
            } else {
                assert(edge_cell(edges[k]) == m);
            }
        }
        assert forall|c: int| 0 <= c < m + 1 && #[trigger] covers(es, c) implies exists|k: int|
            0 <= k < edges.len() && edge_cell(edges[k]) == c by {
            if c < m {
                let k = choose|k: int| 0 <= k < st.edges.len() && edge_cell(st.edges[k]) == c;
                assert(edges[k] == st.edges[k]);
            } else {
                assert(edge_cell(edges[st.edges.len() as int]) == c);
            }
        }
    }
    lemma_cell_in_triangle(r2, c2, n);
    lemma_cell_in_triangle(st.row, st.col, n);
    if c2 >= n {
        assert(c2 == n && r2 == 0);
    } else if i + 1 < 6 {
        lemma_scan_byte(es, n, b, j, i + 1, st2);
    } else {
        assert(scan_byte(b, n, i + 1, st2) == st2);
    }
}

/// The data bytes hold cells only up to the last cell of the triangle, and each listed edge's
/// cell lies in them.
proof fn lemma_encoded_within(es: Seq<(usize, usize)>, n: int)
    requires
        edges_in_triangle(es, n),
        n >= 1,
    ensures
        encoded_len(es) == 0 || 6 * (encoded_len(es) - 1) < cell_index(0, n),
        forall|k: int| 0 <= k < es.len() ==> edge_cell(#[trigger] es[k]) < 6 * encoded_len(es),
        forall|k: int| 0 <= k < es.len() ==> edge_cell(#[trigger] es[k]) < cell_index(0, n),
        encoded_len(es) >= 0,
    decreases es.len(),
{
    lemma_encoded_len_nonneg(es);
    if es.len() > 0 {
        let rest = es.drop_last();
        assert(edges_in_triangle(rest, n)) by {
            assert forall|k: int| 0 <= k < rest.len() implies #[trigger] rest[k].0 < rest[k].1 < n by {
                assert(rest[k] == es[k]);
            }
        }
        lemma_encoded_within(rest, n);
        let e = es.last();
        assert(es[es.len() - 1] == e);
        lemma_cell_in_triangle(e.0 as int, e.1 as int, n);
        assert forall|k: int| 0 <= k < es.len() implies edge_cell(#[trigger] es[k]) < 6 * encoded_len(es) && edge_cell(
            es[k],
        ) < cell_index(0, n) by {
            if k < rest.len() {
                assert(es[k] == rest[k]);
            } else {
                assert(es[k] == e);
            }
            lemma_cell_in_triangle(es[k].0 as int, es[k].1 as int, n);
        }
    }
}

/// Reading the first `k` data bytes that mark the cells of `es` finds the occupied cells among
/// their cells.
#[verifier::spinoff_prover]
proof fn lemma_scan_prefix(es: Seq<(usize, usize)>, n: int, data: Seq<u8>, k: int)
    requires
        edges_in_triangle(es, n),
        1 <= n <= 258047,
        encodes(data, es, n),
        0 <= k <= data.len(),
    ensures
        scan_bytes(data.take(k), n) matches Some(st) && scan_inv(
            es,
            st,
            if 6 * k < cell_index(0, n) {
                6 * k
            } else {
                cell_index(0, n)
            },
        ),
    decreases k,
{
    if k == 0 {
        assert(data.take(0) =~= Seq::<u8>::empty());
        lemma_cell_range(0, 1);
        let st = ScanState { edges: seq![], row: 0, col: 1 };
        assert(scan_inv(es, st, 0));
        lemma_cell_mono(1, n);
    } else {
        lemma_scan_prefix(es, n, data, k - 1);
        lemma_encoded_within(es, n);
        lemma_data_len_bound(n);
        assert(data.take(k).drop_last() =~= data.take(k - 1));
        assert(data.take(k).last() == data[k - 1]);
        let st = scan_bytes(data.take(k - 1), n)->Some_0;
        assert(6 * (k - 1) < cell_index(0, n));
        lemma_cell_in_triangle(st.row, st.col, n);
        let b = unshift(data[k - 1]);
        assert forall|q: u8| q < 6 implies ((b >> q) & 1u8 == 1u8) == #[trigger] covers(es, 6 * (k - 1) + 5 - q) by {
            assert(bit8(unshift(data[k - 1]), q) == covers(es, 6 * (k - 1) + (5 - q)));
        }
        lemma_scan_byte(es, n, b, k - 1, 0, st);
    }
}

/// Reading the data bytes that mark the cells of `es` finds exactly the edges of `es`.
#[verifier::spinoff_prover]
pub proof fn lemma_scan_encoded(es: Seq<(usize, usize)>, n: int, data: Seq<u8>)
    requires
        edges_in_triangle(es, n),
        1 <= n <= 258047,
        encodes(data, es, n),
    ensures
        scan_bytes(data, n) is Some,
        edges_in_triangle(scan_bytes(data, n)->Some_0.edges, n),
        forall|e: (usize, usize)| #[trigger] scan_bytes(data, n)->Some_0.edges.contains(e) == es.contains(e),
{
    lemma_scan_prefix(es, n, data, data.len() as int);
    lemma_encoded_within(es, n);
    lemma_data_len_bound(n);
    assert(data.take(data.len() as int) =~= data);
    let st = scan_bytes(data, n)->Some_0;
    let m: int = if 6 * data.len() < cell_index(0, n) {
        6 * data.len() as int
    } else {
        cell_index(0, n)
    };
    assert forall|i: int| 0 <= i < st.edges.len() implies #[trigger] st.edges[i].0 < st.edges[i].1 < n by {
        lemma_cell_in_triangle(st.edges[i].0 as int, st.edges[i].1 as int, n);
    }
    assert forall|e: (usize, usize)| #[trigger] st.edges.contains(e) == es.contains(e) by {
        if st.edges.contains(e) {
            let i = choose|i: int| 0 <= i < st.edges.len() && st.edges[i] == e;
            assert(covers(es, edge_cell(st.edges[i])));
            let k = choose|k: int| 0 <= k < es.len() && edge_cell(es[k]) == edge_cell(st.edges[i]);
            lemma_cell_injective(es[k].0 as int, es[k].1 as int, e.0 as int, e.1 as int);
            assert(es[k] == e);
        }
        if es.contains(e) {
            let k = choose|k: int| 0 <= k < es.len() && es[k] == e;
            assert(covers(es, edge_cell(es[k])));
            assert(edge_cell(es[k]) < m);
            let i = choose|i: int| 0 <= i < st.edges.len() && edge_cell(st.edges[i]) == edge_cell(es[k]);
            lemma_cell_injective(es[k].0 as int, es[k].1 as int, st.edges[i].0 as int, st.edges[i].1 as int);
            assert(st.edges[i] == e);
        }
    }
}

/// Reading the data bytes that mark the cells of `es`, listed in the order reading walks the
/// triangle (by column, then row), gives back `es` itself.
pub proof fn lemma_scan_encoded_in_order(es: Seq<(usize, usize)>, n: int, data: Seq<u8>)
    requires
        edges_in_triangle(es, n),
        cells_increasing(es),
        1 <= n <= 258047,
        encodes(data, es, n),
    ensures
        scan_bytes(data, n) matches Some(st) && st.edges == es,
{
    lemma_scan_encoded(es, n, data);
    lemma_scan_prefix(es, n, data, data.len() as int);
    assert(data.take(data.len() as int) =~= data);
    let st = scan_bytes(data, n)->Some_0;
    assert forall|i: int| 0 <= i < es.len() implies (#[trigger] es[i]).0 < es[i].1 by {}
    assert forall|i: int| 0 <= i < st.edges.len() implies (#[trigger] st.edges[i]).0 < st.edges[i].1 by {}
    lemma_increasing_same(st.edges, es);
}

proof fn lemma_long_size_back(n: usize)
    by (bit_vector)
    requires
        n <= 258047,
    ensures
        (((n >> 12usize) & 0x3f) << 12usize) | (((n >> 6usize) & 0x3f) << 6usize) | (n & 0x3f) == n,
        (n >> 12usize) & 0x3f < 63,
{
}

/// The size field that `to_size` writes reads back as the number of vertices, and the data
/// bytes start right after it.
pub proof fn lemma_size_back(n: usize, data: Seq<u8>)
    requires
        n <= 258047,
        forall|j: int| 0 <= j < data.len() ==> 63 <= #[trigger] data[j],
    ensures
        spec_get_size(spec_to_size(n) + data) == Ok::<usize, Error>(n),
        size_readable(spec_to_size(n) + data),
        (spec_to_size(n) + data).skip(data_start(n)) == data,
{
    let bytes = spec_to_size(n) + data;
    lemma_low6(n);
    if n > 62 {
        lemma_long_size_back(n);
        assert(bytes[1] == spec_to_size(n)[1]);
        assert(bytes[2] == spec_to_size(n)[2]);
        assert(bytes[3] == spec_to_size(n)[3]);
    }
    assert(bytes.skip(data_start(n)) =~= data);
}

} // verus!
