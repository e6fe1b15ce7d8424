//! Qubicle Binary (`.qb`) files: the first matrix is read, plain or
//! run-length encoded. All integers are little-endian; `.qb` is Y-up like
//! the grid.

use crate::geom::{Color8, IVec3};
use crate::grid::{changes_marked, grid_set, lemma_no_change_marked, lemma_write_marks, VoxelGrid};
use crate::history::lemma_grid_set_len;
use crate::reader::{le_u32, LeReader, ReadError};
use vstd::prelude::*;

verus! {

/// Run marker of the compressed encoding: a count and a color follow.
pub const CODEFLAG: u32 = 2;

/// End-of-slice marker of the compressed encoding.
pub const NEXTSLICE: u32 = 6;

/// Why reading a `.qb` file stopped.
#[derive(Clone, Copy, Debug, PartialEq, Eq, Structural)]
pub enum QbError {
    Read(ReadError),
    /// The file declares no matrix.
    NoMatrices,
    /// A compressed matrix of width zero holds a voxel.
    ZeroWidth,
    /// The grid cannot take that many more cells.
    Full,
}

/// The matrix header: color format, encoding, size and position.
#[derive(Clone, Copy, Debug)]
pub struct QbHeader {
    /// `0` is RGBA; anything else is BGRA.
    pub color_format: u32,
    pub compressed: bool,
    pub size: (u32, u32, u32),
    pub pos: (i32, i32, i32),
}

/// The little-endian `u32` at offset `o`.
pub open spec fn u32_at(d: Seq<u8>, o: int) -> u32 {
    le_u32(d.subrange(o, o + 4))
}

pub open spec fn eof(o: int) -> QbError {
    QbError::Read(ReadError::UnexpectedEof { offset: o as usize })
}

/// The color a raw voxel word stands for (opaque), in the file's channel
/// order.
pub open spec fn word_color(h: QbHeader, raw: u32) -> Color8 {
    let b0 = (raw % 0x100) as u8;
    let b1 = ((raw / 0x100) % 0x100) as u8;
    let b2 = ((raw / 0x1_0000) % 0x100) as u8;
    if h.color_format == 0 {
        [b0, b1, b2, 255u8]
    } else {
        [b2, b1, b0, 255u8]
    }
}

/// A raw voxel word is drawn when its alpha byte is not zero.
pub open spec fn word_drawn(raw: u32) -> bool {
    raw / 0x100_0000 != 0
}

/// Grid cell of matrix voxel `(x, y, z)`, coordinates wrapping at the `i32`
/// range.
pub open spec fn matrix_cell(h: QbHeader, x: int, y: int, z: int) -> IVec3 {
    IVec3 {
        x: h.pos.0.wrapping_add(x as i32),
        y: h.pos.1.wrapping_add(y as i32),
        z: h.pos.2.wrapping_add(z as i32),
    }
}

/// The header of the first matrix and the offset of its voxel data.
pub open spec fn qb_header(d: Seq<u8>) -> Result<(QbHeader, int), QbError> {
    if d.len() < 24 {
        Err(eof((4 * (d.len() / 4)) as int))
    } else if u32_at(d, 20) == 0 {
        Err(QbError::NoMatrices)
    } else if d.len() < 25 {
        Err(eof(24))
    } else {
        let n = d[24] as int;
        if 25 + n > d.len() {
            Err(eof(25))
        } else {
            let o = 25 + n;
            if o + 24 > d.len() {
                Err(eof(o + 4 * ((d.len() - o) / 4)))
            } else {
                Ok(
                    (
                        QbHeader {
                            color_format: u32_at(d, 4),
                            compressed: u32_at(d, 12) != 0,
                            size: (u32_at(d, o), u32_at(d, o + 4), u32_at(d, o + 8)),
                            pos: (u32_at(d, o + 12) as i32, u32_at(d, o + 16) as i32, u32_at(d, o + 20) as i32),
                        },
                        o + 24,
                    ),
                )
            }
        }
    }
}

/// The cells written by the plain encoding from voxel `k` on: the words run
/// z-major, then y, then x. Returns the cells written and the error that
/// stopped reading, if any.
pub open spec fn plain_cells(d: Seq<u8>, h: QbHeader, o: int, k: int) -> (Seq<(IVec3, Color8)>, Option<QbError>)
    decreases h.size.0 * h.size.1 * h.size.2 - k,
{
    let (sx, sy, sz) = (h.size.0 as int, h.size.1 as int, h.size.2 as int);
    if k < 0 || k >= sx * sy * sz {
        (Seq::empty(), None)
    } else if o + 4 * k + 4 > d.len() {
        (Seq::empty(), Some(eof(o + 4 * k)))
    } else {
        let raw = u32_at(d, o + 4 * k);
        let rest = plain_cells(d, h, o, k + 1);
        if word_drawn(raw) {
            (seq![(matrix_cell(h, k % sx, (k / sx) % sy, k / (sx * sy)), word_color(h, raw))] + rest.0, rest.1)
        } else {
            rest
        }
    }
}

/// The cells of a run of `count` voxels of word `raw` starting at slice
/// index `i` of slice `z`.
pub open spec fn run_cells(h: QbHeader, z: int, i: int, count: int, raw: u32) -> Seq<(IVec3, Color8)> {
    if word_drawn(raw) {
        Seq::new(count as nat, |t: int| (matrix_cell(h, (i + t) % (h.size.0 as int), (i + t) / (h.size.0 as int), z), word_color(h, raw)))
    } else {
        Seq::empty()
    }
}

/// One token of the compressed encoding.
#[derive(Clone, Copy, Debug, PartialEq, Eq, Structural)]
pub enum RleToken {
    /// End of the current slice.
    NextSlice,
    /// `count` voxels of word `raw`.
    Run { count: u32, raw: u32 },
    /// One voxel of word `raw`.
    Voxel { raw: u32 },
}

/// Bytes a token takes.
pub open spec fn token_len(t: RleToken) -> int {
    match t {
        RleToken::Run { .. } => 12,
        _ => 4,
    }
}

/// The token at offset `pos`.
pub open spec fn token_at(d: Seq<u8>, pos: int) -> Result<RleToken, QbError> {
    if pos + 4 > d.len() {
        Err(eof(pos))
    } else {
        let w = u32_at(d, pos);
        if w == NEXTSLICE {
            Ok(RleToken::NextSlice)
        } else if w == CODEFLAG {
            if pos + 8 > d.len() {
                Err(eof(pos + 4))
            } else if pos + 12 > d.len() {
                Err(eof(pos + 8))
            } else {
                Ok(RleToken::Run { count: u32_at(d, pos + 4), raw: u32_at(d, pos + 8) })
            }
        } else {
            Ok(RleToken::Voxel { raw: w })
        }
    }
}

/// The cells written by the compressed encoding from offset `pos`, in slice
/// `z` at slice index `i`: slices end at a `NEXTSLICE` token, and voxel
/// `i` of a slice lies at `(i % width, i / width)`. Returns the cells
/// written and the error that stopped reading, if any.
pub open spec fn rle_cells(d: Seq<u8>, h: QbHeader, pos: int, z: int, i: int) -> (Seq<(IVec3, Color8)>, Option<QbError>)
    decreases d.len() - pos,
{
    if z >= h.size.2 || pos < 0 {
        (Seq::empty(), None)
    } else {
        match token_at(d, pos) {
            Err(e) => (Seq::empty(), Some(e)),
            Ok(t) => match t {
                RleToken::NextSlice => rle_cells(d, h, pos + token_len(t), z + 1, 0),
                RleToken::Run { count, raw } => if count > 0 && h.size.0 == 0 {
                    (Seq::empty(), Some(QbError::ZeroWidth))
                } else {
                    let rest = rle_cells(d, h, pos + token_len(t), z, i + count);
                    (run_cells(h, z, i, count as int, raw) + rest.0, rest.1)
                },
                RleToken::Voxel { raw } => if h.size.0 == 0 {
                    (Seq::empty(), Some(QbError::ZeroWidth))
                } else {
                    let rest = rle_cells(d, h, pos + token_len(t), z, i + 1);
                    (run_cells(h, z, i, 1, raw) + rest.0, rest.1)
                },
            },
        }
    }
}

/// What reading a `.qb` file writes: the cells of its first matrix in file
/// order, and the error that stopped reading, if any (cells read before an
/// error are still written).
pub open spec fn qb_cells(d: Seq<u8>) -> (Seq<(IVec3, Color8)>, Option<QbError>) {
    match qb_header(d) {
        Err(e) => (Seq::empty(), Some(e)),
        Ok((h, o)) => if h.compressed {
            rle_cells(d, h, o, 0, 0)
        } else {
            plain_cells(d, h, o, 0)
        },
    }
}

fn read_u32(r: &mut LeReader) -> (v: Result<u32, QbError>)
    requires
        old(r).wf(),
    ensures
        final(r).wf(),
        final(r).data() == old(r).data(),
        match v {
            Ok(x) => {
                &&& old(r).pos() + 4 <= old(r).data().len()
                &&& x == u32_at(old(r).data(), old(r).pos())
                &&& final(r).pos() == old(r).pos() + 4
            },
            Err(e) => old(r).pos() + 4 > old(r).data().len() && e == eof(old(r).pos()),
        },
{
    match r.u32() {
        Ok(x) => Ok(x),
        Err(e) => Err(QbError::Read(e)),
    }
}

/// Reads the header of the first matrix, leaving the reader at its voxel
/// data.
fn read_header(r: &mut LeReader) -> (h: Result<QbHeader, QbError>)
    requires
        old(r).wf(),
        old(r).pos() == 0,
    ensures
        final(r).wf(),
        final(r).data() == old(r).data(),
        match h {
            Ok(h) => qb_header(old(r).data()) == Ok::<(QbHeader, int), QbError>((h, final(r).pos())),
            Err(e) => qb_header(old(r).data()) == Err::<(QbHeader, int), QbError>(e),
        },
{
    let ghost d = r.data();
    proof {
        assert(d.len() < 24 ==> 4 * (d.len() / 4) <= d.len() < 4 * (d.len() / 4) + 4);
    }
    let _version = read_u32(r)?;
    let color_format = read_u32(r)?;
    let _z_orient = read_u32(r)?;
    let compressed = read_u32(r)? != 0;
    let _vis_mask = read_u32(r)?;
    let num_matrices = read_u32(r)?;
    if num_matrices == 0 {
        return Err(QbError::NoMatrices);
    }
    let name_len = match r.u8() {
        Ok(v) => v as usize,
        Err(e) => return Err(QbError::Read(e)),
    };
    match r.bytes(name_len) {
        Ok(_) => {},
        Err(e) => return Err(QbError::Read(e)),
    }
    let ghost o = r.pos();
    proof {
        assert(o + 24 > d.len() ==> o + 4 * ((d.len() - o) / 4) <= d.len() < o + 4 * ((d.len() - o) / 4) + 4);
    }
    let sx = read_u32(r)?;
    let sy = read_u32(r)?;
    let sz = read_u32(r)?;
    let px = read_u32(r)? as i32;
    let py = read_u32(r)? as i32;
    let pz = read_u32(r)? as i32;
    Ok(QbHeader { color_format, compressed, size: (sx, sy, sz), pos: (px, py, pz) })
}

fn word_color_exec(h: &QbHeader, raw: u32) -> (c: Color8)
    ensures
        c == word_color(*h, raw),
{
    let b0 = (raw % 0x100) as u8;
    let b1 = ((raw / 0x100) % 0x100) as u8;
    let b2 = ((raw / 0x1_0000) % 0x100) as u8;
    if h.color_format == 0 {
        [b0, b1, b2, 255u8]
    } else {
        [b2, b1, b0, 255u8]
    }
}

fn matrix_cell_exec(h: &QbHeader, x: u128, y: u128, z: u128) -> (c: IVec3)
    ensures
        c == matrix_cell(*h, x as int, y as int, z as int),
{
    IVec3 {
        x: h.pos.0.wrapping_add(x as i32),
        y: h.pos.1.wrapping_add(y as i32),
        z: h.pos.2.wrapping_add(z as i32),
    }
}

/// Appends the cells of a run (see `run_cells`).
fn push_run(out: &mut Vec<(IVec3, Color8)>, h: &QbHeader, z: u32, i: u128, count: u32, raw: u32)
    requires
        count > 0 ==> h.size.0 > 0,
        i + count <= u128::MAX,
    ensures
        final(out)@ == old(out)@ + run_cells(*h, z as int, i as int, count as int, raw),
{
    let ghost before = out@;
    if raw / 0x100_0000 != 0 {
        let col = word_color_exec(h, raw);
        let sx = h.size.0;
        let mut t: u32 = 0;
        while t < count
            invariant
                t <= count,
                count > 0 ==> sx > 0,
                sx == h.size.0,
                i + count <= u128::MAX,
                word_drawn(raw),
                col == word_color(*h, raw),
                out@ == before + run_cells(*h, z as int, i as int, t as int, raw),
            decreases count - t,
        {
            let j = i + t as u128;
            let cell = matrix_cell_exec(h, j % (sx as u128), j / (sx as u128), z as u128);
            out.push((cell, col));
            proof {
                assert(out@ =~= before + run_cells(*h, z as int, i as int, t + 1, raw));
            }
            t = t + 1;
        }
    } else {
        proof {
            assert(out@ =~= before + run_cells(*h, z as int, i as int, count as int, raw));
        }
    }
}

/// Reads the cells of a `.qb` file's first matrix (see `qb_cells`): the
/// cells in file order, and the error that stopped reading, if any.
pub fn read_cells(bytes: &[u8]) -> (r: (Vec<(IVec3, Color8)>, Option<QbError>))
    ensures
        (r.0@, r.1) == qb_cells(bytes@),
        r.1 != Some(QbError::Full),
{
    let ghost d = bytes@;
    let mut rd = LeReader::new(bytes);
    let h = match read_header(&mut rd) {
        Ok(h) => h,
        Err(e) => return (Vec::new(), Some(e)),
    };
    let ghost o = rd.pos();
    let mut out: Vec<(IVec3, Color8)> = Vec::new();
    let (sx, sy, sz) = h.size;
    if !h.compressed {
        proof {
            assert(sx * sy <= 0xFFFF_FFFF * 0xFFFF_FFFF) by (nonlinear_arith)
                requires
                    sx <= 0xFFFF_FFFF,
                    sy <= 0xFFFF_FFFF,
            ;
            assert(sx * sy * sz <= 0xFFFF_FFFF * 0xFFFF_FFFF * 0xFFFF_FFFF) by (nonlinear_arith)
                requires
                    sx * sy <= 0xFFFF_FFFF * 0xFFFF_FFFF,
                    sz <= 0xFFFF_FFFF,
            ;
        }
        let n: u128 = sx as u128 * sy as u128 * sz as u128;
        let sxy: u128 = sx as u128 * sy as u128;
        let mut k: u128 = 0;
        while k < n
            invariant
                rd.wf(),
                rd.data() == d,
                d == bytes@,
                qb_header(d) == Ok::<(QbHeader, int), QbError>((h, o)),
                !h.compressed,
                (sx, sy, sz) == h.size,
                n == sx * sy * sz,
                sxy == sx * sy,
                0 <= k <= n,
                rd.pos() == o + 4 * k,
                qb_cells(d) == (out@ + plain_cells(d, h, o, k as int).0, plain_cells(d, h, o, k as int).1),
            decreases n - k,
        {
            let raw = match read_u32(&mut rd) {
                Ok(v) => v,
                Err(e) => {
                    proof {
                        assert(plain_cells(d, h, o, k as int) == (Seq::<(IVec3, Color8)>::empty(), Some(eof(o + 4 * k))));
                        assert(out@ + Seq::<(IVec3, Color8)>::empty() =~= out@);
                    }
                    return (out, Some(e));
                },
            };
            proof {
                assert(sx > 0 && sy > 0) by (nonlinear_arith)
                    requires
                        0 <= k < sx * sy * sz,
                        sx >= 0,
                        sy >= 0,
                        sz >= 0,
                ;
            }
            let ghost rest = plain_cells(d, h, o, k + 1);
            if raw / 0x100_0000 != 0 {
                let x = k % (sx as u128);
                let y = (k / (sx as u128)) % (sy as u128);
                let z = k / sxy;
                let cell = matrix_cell_exec(&h, x, y, z);
                let col = word_color_exec(&h, raw);
                let ghost before = out@;
                out.push((cell, col));
                proof {
                    assert(before + (seq![(cell, col)] + rest.0) =~= out@ + rest.0);
                }
            }
            k = k + 1;
        }
        proof {
            assert(plain_cells(d, h, o, k as int) == (Seq::<(IVec3, Color8)>::empty(), None::<QbError>));
            assert(out@ + Seq::<(IVec3, Color8)>::empty() =~= out@);
        }
        (out, None)
    } else {
        read_rle(&mut rd, h, Ghost(o), Ghost(d), out)
    }
}

/// Reads the next token of the compressed encoding.
fn read_token(rd: &mut LeReader) -> (r: Result<RleToken, QbError>)
    requires
        old(rd).wf(),
    ensures
        final(rd).wf(),
        final(rd).data() == old(rd).data(),
        match r {
            Ok(t) => token_at(old(rd).data(), old(rd).pos()) == Ok::<RleToken, QbError>(t) && final(rd).pos()
                == old(rd).pos() + token_len(t),
            Err(e) => token_at(old(rd).data(), old(rd).pos()) == Err::<RleToken, QbError>(e),
        },
{
    let w = read_u32(rd)?;
    if w == NEXTSLICE {
        Ok(RleToken::NextSlice)
    } else if w == CODEFLAG {
        let count = read_u32(rd)?;
        let raw = read_u32(rd)?;
        Ok(RleToken::Run { count, raw })
    } else {
        Ok(RleToken::Voxel { raw: w })
    }
}

/// Reads a compressed matrix from the reader's position `o` on.
fn read_rle(rd: &mut LeReader, h: QbHeader, Ghost(o): Ghost<int>, Ghost(d): Ghost<Seq<u8>>, out: Vec<(IVec3, Color8)>) -> (r: (Vec<(IVec3, Color8)>, Option<QbError>))
    requires
        old(rd).wf(),
        old(rd).data() == d,
        old(rd).pos() == o,
        0 <= o,
        h.compressed,
        out@.len() == 0,
    ensures
        (r.0@, r.1) == rle_cells(d, h, o, 0, 0),
        r.1 != Some(QbError::Full),
{
    let mut out = out;
    let (sx, sy, sz) = h.size;
    let mut z: u32 = 0;
    let mut i: u128 = 0;
    proof {
        assert(out@ + rle_cells(d, h, o, 0, 0).0 =~= rle_cells(d, h, o, 0, 0).0);
    }
    while z < sz
        invariant
            rd.wf(),
            rd.data() == d,
            (sx, sy, sz) == h.size,
            z <= sz,
            0 <= o <= rd.pos(),
            i <= (rd.pos() as int) * 0x1_0000_0000,
            rd.pos() <= usize::MAX,
            rle_cells(d, h, o, 0, 0) == (out@ + rle_cells(d, h, rd.pos(), z as int, i as int).0, rle_cells(d, h, rd.pos(), z as int, i as int).1),
        decreases sz - z, d.len() - rd.pos(),
    {
        let ghost pos = rd.pos();
        let ghost before = out@;
        let tok = match read_token(rd) {
            Ok(t) => t,
            Err(e) => {
                proof {
                    assert(token_at(d, pos) == Err::<RleToken, QbError>(e));
                    assert(rle_cells(d, h, pos, z as int, i as int) == (Seq::<(IVec3, Color8)>::empty(), Some(e)));
                    assert(out@ + Seq::<(IVec3, Color8)>::empty() =~= out@);
                }
                return (out, Some(e));
            },
        };
        proof {
            assert(token_at(d, pos) == Ok::<RleToken, QbError>(tok));
        }
        match tok {
            RleToken::NextSlice => {
                z = z + 1;
                i = 0;
            },
            RleToken::Run { count, raw } => {
                if count > 0 && sx == 0 {
                    proof {
                        assert(rle_cells(d, h, pos, z as int, i as int) == (Seq::<(IVec3, Color8)>::empty(), Some(QbError::ZeroWidth)));
                        assert(out@ + Seq::<(IVec3, Color8)>::empty() =~= out@);
                    }
                    return (out, Some(QbError::ZeroWidth));
                }
                let ghost rest = rle_cells(d, h, pos + 12, z as int, i + count);
                push_run(&mut out, &h, z, i, count, raw);
                proof {
                    assert(before + (run_cells(h, z as int, i as int, count as int, raw) + rest.0) =~= out@ + rest.0);
                }
                i = i + count as u128;
            },
            RleToken::Voxel { raw } => {
                if sx == 0 {
                    proof {
                        assert(rle_cells(d, h, pos, z as int, i as int) == (Seq::<(IVec3, Color8)>::empty(), Some(QbError::ZeroWidth)));
                        assert(out@ + Seq::<(IVec3, Color8)>::empty() =~= out@);
                    }
                    return (out, Some(QbError::ZeroWidth));
                }
                let ghost rest = rle_cells(d, h, pos + 4, z as int, i + 1);
                push_run(&mut out, &h, z, i, 1, raw);
                proof {
                    assert(before + (run_cells(h, z as int, i as int, 1, raw) + rest.0) =~= out@ + rest.0);
                }
                i = i + 1;
            },
        }
    }
    proof {
        assert(out@ + Seq::<(IVec3, Color8)>::empty() =~= out@);
    }
    (out, None)
}

/// `m` after writing the cells of `cs` in order.
pub open spec fn write_cells(m: Map<IVec3, Color8>, cs: Seq<(IVec3, Color8)>) -> Map<IVec3, Color8>
    decreases cs.len(),
{
    if cs.len() == 0 {
        m
    } else {
        grid_set(write_cells(m, cs.drop_last()), cs.last().0, Some(cs.last().1))
    }
}

/// How many of the cells lie below the floor.
pub open spec fn below_floor(cs: Seq<(IVec3, Color8)>) -> nat
    decreases cs.len(),
{
    if cs.len() == 0 {
        0
    } else {
        below_floor(cs.drop_last()) + if cs.last().0.y < 0 {
            1nat
        } else {
            0nat
        }
    }
}

/// Reads a `.qb` file's first matrix into `grid`, cell by cell in file
/// order; cells below the floor are dropped. Returns how many were dropped,
/// or the error that stopped reading, in which case the cells read before
/// it have been written. When the grid cannot take all the cells, nothing
/// is written.
pub fn import(bytes: &[u8], grid: &mut VoxelGrid) -> (r: Result<usize, QbError>)
    requires
        old(grid).wf(),
    ensures
        final(grid).wf(),
        old(grid).dirty_view().subset_of(final(grid).dirty_view()),
        changes_marked(old(grid)@, final(grid)@, final(grid).dirty_view()),
        r == Err::<usize, QbError>(QbError::Full) <==> old(grid)@.dom().len() + qb_cells(bytes@).0.len() >= u32::MAX,
        r != Err::<usize, QbError>(QbError::Full) ==> final(grid)@ == write_cells(old(grid)@, qb_cells(bytes@).0),
        r == Err::<usize, QbError>(QbError::Full) ==> final(grid)@ == old(grid)@,
        r matches Ok(dropped) ==> qb_cells(bytes@).1 is None && dropped == below_floor(qb_cells(bytes@).0),
        r matches Err(e) ==> (e == QbError::Full || qb_cells(bytes@).1 == Some(e)),
{
    proof {
        lemma_no_change_marked(grid@, grid.dirty_view());
    }
    let (cells, err) = read_cells(bytes);
    let ghost cs = cells@;
    proof {
        grid.lemma_finite();
    }
    let c = grid.count();
    if cells.len() >= u32::MAX as usize || c >= u32::MAX as usize - cells.len() {
        return Err(QbError::Full);
    }
    let ghost m0 = grid@;
    let ghost d0_marks = grid.dirty_view();
    let mut dropped: usize = 0;
    let mut k: usize = 0;
    while k < cells.len()
        invariant
            d0_marks.subset_of(grid.dirty_view()),
            changes_marked(m0, grid@, grid.dirty_view()),
            k <= cs.len(),
            cs == cells@,
            grid.wf(),
            m0.dom().finite(),
            m0.dom().len() + cs.len() < u32::MAX,
            grid@ == write_cells(m0, cs.take(k as int)),
            grid@.dom().len() <= m0.dom().len() + k,
            dropped == below_floor(cs.take(k as int)),
            dropped <= k,
        decreases cs.len() - k,
    {
        let (p, col) = cells[k];
        proof {
            grid.lemma_finite();
            lemma_grid_set_len(grid@, p, Some(col));
            let t = cs.take(k + 1);
            assert(t.drop_last() =~= cs.take(k as int));
        }
        if p.y < 0 {
            dropped = dropped + 1;
        }
        let ghost mb_marks = grid@;
        let ghost db_marks = grid.dirty_view();
        grid.set(p, Some(col));
        proof {
            lemma_write_marks(m0, mb_marks, db_marks, p, Some(col), grid.dirty_view());
        }
        k = k + 1;
    }
    proof {
        assert(cs.take(cs.len() as int) =~= cs);
    }
    match err {
        Some(e) => Err(e),
        None => Ok(dropped),
    }
}

} // verus!
