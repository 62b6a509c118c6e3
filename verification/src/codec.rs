//! The wire format: a compact byte encoding of a board for a remote
//! viewer.  It carries the dimensions, the apples-eaten counter and the
//! cell grid; the random stream is deliberately not part of the format and
//! is freshly seeded on decoding.
//!
//! Layout: three 8-byte little-endian words (width, height, apples eaten),
//! then four bytes per cell in row-major order.

use vstd::prelude::*;

use crate::board::{Board, BoardModel};
use crate::cell::Cell;

verus! {

/// The eight little-endian bytes of a 64-bit word.
pub open spec fn u64_le(v: u64) -> Seq<u8> {
    seq![
        (v & 0xff) as u8,
        ((v >> 8) & 0xff) as u8,
        ((v >> 16) & 0xff) as u8,
        ((v >> 24) & 0xff) as u8,
        ((v >> 32) & 0xff) as u8,
        ((v >> 40) & 0xff) as u8,
        ((v >> 48) & 0xff) as u8,
        ((v >> 56) & 0xff) as u8,
    ]
}

/// The 64-bit word read from eight little-endian bytes.
pub open spec fn decode_u64(b: Seq<u8>) -> u64 {
    (b[0] as u64) | ((b[1] as u64) << 8) | ((b[2] as u64) << 16) | ((b[3] as u64) << 24) | ((
    b[4] as u64) << 32) | ((b[5] as u64) << 40) | ((b[6] as u64) << 48) | ((b[7] as u64) << 56)
}

pub proof fn lemma_u64_le_round(v: u64)
    ensures
        u64_le(v).len() == 8,
        decode_u64(u64_le(v)) == v,
{
    assert(((v & 0xff) as u8 as u64) | ((((v >> 8) & 0xff) as u8 as u64) << 8) | ((((v >> 16)
        & 0xff) as u8 as u64) << 16) | ((((v >> 24) & 0xff) as u8 as u64) << 24) | ((((v >> 32)
        & 0xff) as u8 as u64) << 32) | ((((v >> 40) & 0xff) as u8 as u64) << 40) | ((((v >> 48)
        & 0xff) as u8 as u64) << 48) | ((((v >> 56) & 0xff) as u8 as u64) << 56) == v)
        by (bit_vector);
}

/// The four bytes of one cell.
pub open spec fn cell_bytes(c: Cell) -> Seq<u8> {
    match c {
        Cell::Empty => seq![0u8, 0u8, 0u8, 0u8],
        Cell::Wall => seq![1u8, 0u8, 0u8, 0u8],
        Cell::Snake { id, part } => seq![
            2u8,
            id,
            (part & 0xff) as u8,
            ((part >> 8) & 0xff) as u8,
        ],
        Cell::Apple { natural } => seq![
            3u8,
            if natural {
                1u8
            } else {
                0u8
            },
            0u8,
            0u8,
        ],
    }
}

/// The cell read from four bytes, if they are a valid encoding.
pub open spec fn decode_cell(b0: u8, b1: u8, b2: u8, b3: u8) -> Option<Cell> {
    if b0 == 0 && b1 == 0 && b2 == 0 && b3 == 0 {
        Some(Cell::Empty)
    } else if b0 == 1 && b1 == 0 && b2 == 0 && b3 == 0 {
        Some(Cell::Wall)
    } else if b0 == 2 {
        Some(Cell::Snake { id: b1, part: (b2 as u16) | ((b3 as u16) << 8) })
    } else if b0 == 3 && (b1 == 0 || b1 == 1) && b2 == 0 && b3 == 0 {
        Some(Cell::Apple { natural: b1 == 1 })
    } else {
        None
    }
}

pub proof fn lemma_cell_round(c: Cell)
    ensures
        cell_bytes(c).len() == 4,
        decode_cell(cell_bytes(c)[0], cell_bytes(c)[1], cell_bytes(c)[2], cell_bytes(c)[3])
            == Some(c),
{
    match c {
        Cell::Snake { id, part } => {
            assert((((part & 0xff) as u8 as u16) | ((((part >> 8) & 0xff) as u8 as u16) << 8))
                == part) by (bit_vector);
        },
        _ => {},
    }
}

/// The bytes of the first `k` cells.
pub open spec fn encode_cells(cells: Seq<Cell>, k: int) -> Seq<u8>
    decreases k,
{
    if k <= 0 {
        Seq::empty()
    } else {
        encode_cells(cells, k - 1) + cell_bytes(cells[k - 1])
    }
}

pub proof fn lemma_encode_cells_len(cells: Seq<Cell>, k: int)
    requires
        0 <= k,
    ensures
        encode_cells(cells, k).len() == 4 * k,
    decreases k,
{
    if k > 0 {
        lemma_encode_cells_len(cells, k - 1);
        lemma_cell_round(cells[k - 1]);
    }
}

/// The cells read back from a byte section, if all records are valid.
pub open spec fn decode_cells(b: Seq<u8>, k: int) -> Option<Seq<Cell>>
    decreases k,
{
    if k <= 0 {
        Some(Seq::empty())
    } else {
        match decode_cells(b, k - 1) {
            None => None,
            Some(s) => match decode_cell(
                b[4 * (k - 1)],
                b[4 * (k - 1) + 1],
                b[4 * (k - 1) + 2],
                b[4 * (k - 1) + 3],
            ) {
                None => None,
                Some(c) => Some(s.push(c)),
            },
        }
    }
}

/// Within the encoding of `k` cells, cell `j`'s bytes sit at offset `4 j`.
pub proof fn lemma_encode_cells_index(cells: Seq<Cell>, k: int, j: int)
    requires
        0 <= j < k,
    ensures
        forall|o: int|
            0 <= o < 4 ==> encode_cells(cells, k)[4 * j + o] == cell_bytes(cells[j])[o],
    decreases k,
{
    lemma_encode_cells_len(cells, k - 1);
    lemma_cell_round(cells[k - 1]);
    if j == k - 1 {
        assert forall|o: int|
            0 <= o < 4 implies encode_cells(cells, k)[4 * j + o] == cell_bytes(cells[j])[o] by {
            assert(encode_cells(cells, k)[4 * (k - 1) + o] == cell_bytes(cells[k - 1])[o]);
        }
    } else {
        lemma_encode_cells_index(cells, k - 1, j);
        assert forall|o: int|
            0 <= o < 4 implies encode_cells(cells, k)[4 * j + o] == cell_bytes(cells[j])[o] by {
            assert(4 * j + o < 4 * (k - 1));
            assert(encode_cells(cells, k)[4 * j + o] == encode_cells(cells, k - 1)[4 * j + o]);
        }
    }
}

pub proof fn lemma_decode_encode_cells(cells: Seq<Cell>, k: int)
    requires
        0 <= k <= cells.len(),
    ensures
        decode_cells(encode_cells(cells, cells.len() as int), k) == Some(cells.take(k)),
    decreases k,
{
    let b = encode_cells(cells, cells.len() as int);
    if k == 0 {
        assert(cells.take(0) =~= Seq::<Cell>::empty());
    } else {
        lemma_decode_encode_cells(cells, k - 1);
        lemma_encode_cells_index(cells, cells.len() as int, k - 1);
        lemma_cell_round(cells[k - 1]);
        assert(decode_cell(b[4 * (k - 1)], b[4 * (k - 1) + 1], b[4 * (k - 1) + 2], b[4 * (k - 1)
            + 3]) == Some(cells[k - 1]));
        assert(cells.take(k) =~= cells.take(k - 1).push(cells[k - 1]));
    }
}

/// The whole wire image of a board model.
pub open spec fn wire_encode(m: BoardModel) -> Seq<u8> {
    u64_le(m.width as u64) + u64_le(m.height as u64) + u64_le(m.apples_eaten as u64)
        + encode_cells(m.cells, m.cells.len() as int)
}

/// The board model read back from a wire image, if it is valid.
pub open spec fn wire_decode(b: Seq<u8>) -> Option<BoardModel> {
    if b.len() < 24 {
        None
    } else {
        let w = decode_u64(b.subrange(0, 8));
        let h = decode_u64(b.subrange(8, 16));
        let a = decode_u64(b.subrange(16, 24));
        if w > i32::MAX || h > i32::MAX || a > usize::MAX || (w * h) * 4 != b.len() - 24 {
            None
        } else {
            match decode_cells(b.skip(24), (w * h) as int) {
                None => None,
                Some(cells) => Some(
                    BoardModel {
                        cells,
                        width: w as nat,
                        height: h as nat,
                        apples_eaten: a as nat,
                    },
                ),
            }
        }
    }
}

/// Round trip: the wire image of a board decodes back to exactly the same
/// cell grid, dimensions and apple counter.  The random stream is not part
/// of the format.
pub proof fn lemma_wire_round_trip(m: BoardModel)
    requires
        m.dims_ok(),
        m.apples_eaten <= usize::MAX,
    ensures
        wire_decode(wire_encode(m)) == Some(m),
{
    let b = wire_encode(m);
    lemma_u64_le_round(m.width as u64);
    lemma_u64_le_round(m.height as u64);
    lemma_u64_le_round(m.apples_eaten as u64);
    lemma_encode_cells_len(m.cells, m.cells.len() as int);
    assert(b.subrange(0, 8) =~= u64_le(m.width as u64));
    assert(b.subrange(8, 16) =~= u64_le(m.height as u64));
    assert(b.subrange(16, 24) =~= u64_le(m.apples_eaten as u64));
    let w = decode_u64(b.subrange(0, 8));
    let h = decode_u64(b.subrange(8, 16));
    let a = decode_u64(b.subrange(16, 24));
    assert(w == m.width && h == m.height && a == m.apples_eaten);
    assert(b.len() - 24 == 4 * m.cells.len());
    assert((w * h) * 4 == b.len() - 24);
    assert(b.skip(24) =~= encode_cells(m.cells, m.cells.len() as int));
    lemma_decode_encode_cells(m.cells, m.cells.len() as int);
    assert(m.cells.take(m.cells.len() as int) =~= m.cells);
    assert(wire_decode(b) == Some(m));
}

fn push_u64(out: &mut Vec<u8>, v: u64)
    ensures
        final(out)@ == old(out)@ + u64_le(v),
{
    out.push((v & 0xff) as u8);
    out.push(((v >> 8) & 0xff) as u8);
    out.push(((v >> 16) & 0xff) as u8);
    out.push(((v >> 24) & 0xff) as u8);
    out.push(((v >> 32) & 0xff) as u8);
    out.push(((v >> 40) & 0xff) as u8);
    out.push(((v >> 48) & 0xff) as u8);
    out.push(((v >> 56) & 0xff) as u8);
    proof {
        assert(out@ =~= old(out)@ + u64_le(v));
    }
}

fn read_u64(bytes: &Vec<u8>, off: usize) -> (r: u64)
    requires
        off + 8 <= bytes@.len(),
    ensures
        r == decode_u64(bytes@.subrange(off as int, off as int + 8)),
{
    let n = bytes.len();
    let r = (bytes[off] as u64) | ((bytes[off + 1] as u64) << 8u64) | ((bytes[off + 2] as u64)
        << 16u64) | ((bytes[off + 3] as u64) << 24u64) | ((bytes[off + 4] as u64) << 32u64) | ((
    bytes[off + 5] as u64) << 40u64) | ((bytes[off + 6] as u64) << 48u64) | ((bytes[off
        + 7] as u64) << 56u64);
    proof {
        let s = bytes@.subrange(off as int, off as int + 8);
        assert(s[0] == bytes@[off as int] && s[1] == bytes@[off as int + 1] && s[2]
            == bytes@[off as int + 2] && s[3] == bytes@[off as int + 3] && s[4] == bytes@[off as int
            + 4] && s[5] == bytes@[off as int + 5] && s[6] == bytes@[off as int + 6] && s[7]
            == bytes@[off as int + 7]);
    }
    r
}

impl Board {
    /// The wire image of this board.
    pub fn encode_board(&self) -> (r: Vec<u8>)
        requires
            self@.dims_ok(),
            24 + 4 * self@.cells.len() <= usize::MAX,
        ensures
            r@ == wire_encode(self@),
    {
        let mut out: Vec<u8> = Vec::new();
        push_u64(&mut out, self.width() as u64);
        push_u64(&mut out, self.height() as u64);
        push_u64(&mut out, self.apples_eaten() as u64);
        let total = self.cell_count();
        let mut i: usize = 0;
        while i < total
            invariant
                self@.dims_ok(),
                total == self@.cells.len(),
                24 + 4 * total <= usize::MAX,
                0 <= i <= total,
                out@ == u64_le(self@.width as u64) + u64_le(self@.height as u64) + u64_le(
                    self@.apples_eaten as u64,
                ) + encode_cells(self@.cells, i as int),
            decreases total - i,
        {
            match self.cell_at(i) {
                Cell::Empty => {
                    out.push(0);
                    out.push(0);
                    out.push(0);
                    out.push(0);
                },
                Cell::Wall => {
                    out.push(1);
                    out.push(0);
                    out.push(0);
                    out.push(0);
                },
                Cell::Snake { id, part } => {
                    out.push(2);
                    out.push(id);
                    out.push((part & 0xff) as u8);
                    out.push(((part >> 8u16) & 0xff) as u8);
                },
                Cell::Apple { natural } => {
                    out.push(3);
                    out.push(if natural {
                        1
                    } else {
                        0
                    });
                    out.push(0);
                    out.push(0);
                },
            }
            proof {
                assert(out@ =~= u64_le(self@.width as u64) + u64_le(self@.height as u64) + u64_le(
                    self@.apples_eaten as u64,
                ) + (encode_cells(self@.cells, i as int) + cell_bytes(self@.cells[i as int])));
            }
            i = i + 1;
        }
        out
    }

    /// Read a board back from a wire image.  Returns nothing exactly when
    /// the bytes are not a valid image; the decoded board carries a freshly
    /// seeded random stream.
    pub fn decode_board(bytes: &Vec<u8>) -> (r: Option<Board>)
        ensures
            match wire_decode(bytes@) {
                Some(md) => r matches Some(b) && b@ == md && b@.dims_ok(),
                None => r is None,
            },
    {
        let n = bytes.len();
        if n < 24 {
            return None;
        }
        let w64 = read_u64(bytes, 0);
        let h64 = read_u64(bytes, 8);
        let a64 = read_u64(bytes, 16);
        if w64 > i32::MAX as u64 || h64 > i32::MAX as u64 || a64 > usize::MAX as u64 {
            return None;
        }
        proof {
            assert(w64 * h64 < 0x4000000000000000) by (nonlinear_arith)
                requires
                    w64 <= 0x7fffffffu64,
                    h64 <= 0x7fffffffu64,
            ;
        }
        let prod = (w64 * h64) * 4;
        if prod != (n as u64) - 24 {
            proof {
                assert((w64 * h64) * 4 != bytes@.len() - 24);
            }
            return None;
        }
        proof {
            assert(4 * (w64 * h64) == n - 24);
            assert(w64 * h64 <= usize::MAX as u64);
        }
        let count = (w64 * h64) as usize;
        let mut cells: Vec<Cell> = Vec::new();
        let ghost section = bytes@.skip(24);
        let mut j: usize = 0;
        while j < count
            invariant
                bytes@.len() == n,
                n >= 24,
                section == bytes@.skip(24),
                count == w64 * h64,
                4 * count == n - 24,
                0 <= j <= count,
                cells@.len() == j,
                decode_cells(section, j as int) == Some(cells@),
            decreases count - j,
        {
            let off = 24 + 4 * j;
            let b0 = bytes[off];
            let b1 = bytes[off + 1];
            let b2 = bytes[off + 2];
            let b3 = bytes[off + 3];
            proof {
                assert(section[4 * (j as int)] == b0 && section[4 * (j as int) + 1] == b1
                    && section[4 * (j as int) + 2] == b2 && section[4 * (j as int) + 3] == b3);
            }
            let c: Cell;
            if b0 == 0 && b1 == 0 && b2 == 0 && b3 == 0 {
                c = Cell::Empty;
            } else if b0 == 1 && b1 == 0 && b2 == 0 && b3 == 0 {
                c = Cell::Wall;
            } else if b0 == 2 {
                c = Cell::Snake { id: b1, part: (b2 as u16) | ((b3 as u16) << 8u16) };
            } else if b0 == 3 && (b1 == 0 || b1 == 1) && b2 == 0 && b3 == 0 {
                c = Cell::Apple { natural: b1 == 1 };
            } else {
                proof {
                    assert(decode_cell(b0, b1, b2, b3) is None);
                    assert(decode_cells(section, (w64 * h64) as int) is None) by {
                        lemma_decode_cells_fail(section, j as int, (w64 * h64) as int);
                    }
                }
                return None;
            }
            proof {
                assert(decode_cell(b0, b1, b2, b3) == Some(c));
            }
            cells.push(c);
            j = j + 1;
        }
        let width = w64 as usize;
        let height = h64 as usize;
        let apples = a64 as usize;
        proof {
            assert(cells@.len() == w64 * h64);
            assert(width * height == w64 * h64) by (nonlinear_arith)
                requires
                    width == w64,
                    height == h64,
            ;
        }
        Some(Board::from_parts(cells, width, height, apples))
    }
}

/// If record `j` of a section fails to decode, the whole section fails.
proof fn lemma_decode_cells_fail(b: Seq<u8>, j: int, k: int)
    requires
        0 <= j < k,
        decode_cell(b[4 * j], b[4 * j + 1], b[4 * j + 2], b[4 * j + 3]) is None,
    ensures
        decode_cells(b, k) is None,
    decreases k,
{
    if j < k - 1 {
        lemma_decode_cells_fail(b, j, k - 1);
    }
}

} // verus!
