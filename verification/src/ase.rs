//! Adobe Swatch Exchange (`.ase`) palettes.
//!
//! Layout: the signature `ASEF`, the version (big-endian `u16` major and
//! minor), the block count (`u32`), then the blocks. Each block is a type
//! (`u16`: `0xC001` group start, `0xC002` group end, `0x0001` color), a
//! length (`u32`) and a payload. A color payload is the name (a `u16` count
//! of UTF-16 units including a terminating zero, then the big-endian
//! units), a 4-byte color model (`RGB `, `GRAY`/`Gray`, `CMYK`, ...), one
//! big-endian `f32` per channel, and a `u16` color type.
//!
//! Channel values are `f32`; this module carries them as their IEEE-754
//! bit patterns and leaves the arithmetic on them to the caller.

use crate::bytes::{be_bytes, be_bytes16, push_all, push_u16_be, push_u32_be};
use crate::color::{nat_digits, push_nat};
use vstd::prelude::*;
use vstd::string::StrSliceExecFns;

verus! {

/// `ASEF`
pub open spec fn ase_signature() -> Seq<u8> {
    seq![0x41u8, 0x53, 0x45, 0x46]
}

/// `RGB `
pub open spec fn model_rgb() -> Seq<u8> {
    seq![0x52u8, 0x47, 0x42, 0x20]
}

/// `GRAY`
pub open spec fn model_gray_upper() -> Seq<u8> {
    seq![0x47u8, 0x52, 0x41, 0x59]
}

/// `Gray`
pub open spec fn model_gray() -> Seq<u8> {
    seq![0x47u8, 0x72, 0x61, 0x79]
}

/// `CMYK`
pub open spec fn model_cmyk() -> Seq<u8> {
    seq![0x43u8, 0x4D, 0x59, 0x4B]
}

// ---------------------------------------------------------------------------
// UTF-16
// ---------------------------------------------------------------------------

/// The UTF-16 code units of one character.
pub open spec fn utf16_units(c: char) -> Seq<u16> {
    let v = c as int;
    if v < 0x1_0000 {
        seq![v as u16]
    } else {
        seq![(0xD800 + (v - 0x1_0000) / 0x400) as u16, (0xDC00 + (v - 0x1_0000) % 0x400) as u16]
    }
}

/// The UTF-16 code units of a string.
pub open spec fn utf16_of(s: Seq<char>) -> Seq<u16>
    decreases s.len(),
{
    if s.len() == 0 {
        Seq::empty()
    } else {
        utf16_of(s.drop_last()) + utf16_units(s.last())
    }
}

/// Code units as big-endian bytes.
pub open spec fn be_units(us: Seq<u16>) -> Seq<u8>
    decreases us.len(),
{
    if us.len() == 0 {
        Seq::empty()
    } else {
        be_units(us.drop_last()) + be_bytes16(us.last())
    }
}

/// A leading (high) surrogate code unit.
pub open spec fn is_high_surrogate(u: u16) -> bool {
    0xD800 <= u < 0xDC00
}

/// A trailing (low) surrogate code unit.
pub open spec fn is_low_surrogate(u: u16) -> bool {
    0xDC00 <= u < 0xE000
}

/// The character a surrogate pair encodes.
pub open spec fn surrogate_pair(hi: u16, lo: u16) -> char {
    (0x1_0000 + (hi - 0xD800) * 0x400 + (lo - 0xDC00)) as char
}

/// UTF-16 decoding with replacement: each high surrogate directly followed
/// by a low one is the character the pair encodes, any other surrogate is
/// U+FFFD, and every other unit is the character of that value. Written from
/// the end; a pair is always a high unit just before a low one, so this pairs
/// the same units as decoding from the front.
pub open spec fn utf16_lossy(us: Seq<u16>) -> Seq<char>
    decreases us.len(),
{
    if us.len() == 0 {
        Seq::empty()
    } else if us.len() >= 2 && is_low_surrogate(us.last()) && is_high_surrogate(us[us.len() - 2]) {
        utf16_lossy(us.take(us.len() - 2)).push(surrogate_pair(us[us.len() - 2], us.last()))
    } else if is_high_surrogate(us.last()) || is_low_surrogate(us.last()) {
        utf16_lossy(us.drop_last()).push('\u{FFFD}')
    } else {
        utf16_lossy(us.drop_last()).push(us.last() as char)
    }
}

/// `String::from_utf16_lossy`: std documents it as decoding UTF-16 and
/// replacing invalid data (unpaired surrogates) with U+FFFD, which is what
/// `utf16_lossy` states.
#[verifier::external_body]
fn string_from_utf16_lossy(units: &[u16]) -> (s: String)
    ensures
        s@ == utf16_lossy(units@),
{
    String::from_utf16_lossy(units)
}

/// Decoding a string's own UTF-16 gives the string back.
pub proof fn lemma_utf16_roundtrip(s: Seq<char>)
    ensures
        utf16_lossy(utf16_of(s)) == s,
    decreases s.len(),
{
    if s.len() > 0 {
        let t = s.drop_last();
        let c = s.last();
        lemma_utf16_roundtrip(t);
        let a = utf16_of(t);
        let us = utf16_of(s);
        assert(us == a + utf16_units(c));
        let v = c as int;
        vstd::utf8::char_is_scalar(c);
        vstd::utf8::char_u32_cast(c, c as u32);
        assert(v == (c as u32) as int);
        assert(0 <= v <= 0x10FFFF);
        assert(!(0xD800 <= v < 0xE000));
        if v < 0x1_0000 {
            assert(us.last() == v as u16);
            assert(us.drop_last() =~= a);
            assert((v as u16) as int == v);
            assert((us.last() as char) == c);
        } else {
            let hi = (0xD800 + (v - 0x1_0000) / 0x400) as u16;
            let lo = (0xDC00 + (v - 0x1_0000) % 0x400) as u16;
            assert((v - 0x1_0000) / 0x400 < 0x400);
            assert(us.last() == lo);
            assert(us[us.len() - 2] == hi);
            assert(us.take(us.len() - 2) =~= a);
            assert(0x1_0000 + (hi - 0xD800) * 0x400 + (lo - 0xDC00) == v) by {
                assert(hi - 0xD800 == (v - 0x1_0000) / 0x400);
                assert(lo - 0xDC00 == (v - 0x1_0000) % 0x400);
                vstd::arithmetic::div_mod::lemma_fundamental_div_mod(v - 0x1_0000, 0x400);
            }
            assert(surrogate_pair(hi, lo) == c);
        }
        assert(utf16_lossy(us) =~= s);
    }
}

/// The big-endian UTF-16 encoding of `s`, then a zero unit.
pub fn utf16be_with_null(s: &str) -> (r: Vec<u8>)
    ensures
        r@ == be_units(utf16_of(s@)) + seq![0u8, 0u8],
{
    let n = s.unicode_len();
    let mut out: Vec<u8> = Vec::new();
    let mut i: usize = 0;
    while i < n
        invariant
            i <= n,
            n == s@.len(),
            out@ == be_units(utf16_of(s@.take(i as int))),
        decreases n - i,
    {
        let c = s.get_char(i);
        let v = c as u32;
        let ghost before = utf16_of(s@.take(i as int));
        proof {
            assert(s@.take(i + 1).drop_last() =~= s@.take(i as int));
            assert(s@.take(i + 1).last() == c);
        }
        if v < 0x1_0000 {
            push_u16_be(&mut out, v as u16);
            proof {
                assert(utf16_units(c) == seq![v as u16]);
                assert(before + utf16_units(c) == before.push(v as u16));
                assert(before.push(v as u16).drop_last() =~= before);
                assert(utf16_of(s@.take(i + 1)) == before.push(v as u16));
                assert(be_units(before.push(v as u16)) == be_units(before) + be_bytes16(v as u16));
            }
        } else {
            let w = v - 0x1_0000;
            let hi = (0xD800 + w / 0x400) as u16;
            let lo = (0xDC00 + w % 0x400) as u16;
            push_u16_be(&mut out, hi);
            push_u16_be(&mut out, lo);
            proof {
                assert(utf16_units(c) == seq![hi, lo]);
                let a = before.push(hi);
                assert(before + utf16_units(c) =~= a.push(lo));
                assert(a.push(lo).drop_last() =~= a);
                assert(a.drop_last() =~= before);
                assert(utf16_of(s@.take(i + 1)) == a.push(lo));
                assert(be_units(a) == be_units(before) + be_bytes16(hi));
                assert(be_units(a.push(lo)) == be_units(a) + be_bytes16(lo));
                assert(out@ =~= be_units(before) + be_bytes16(hi) + be_bytes16(lo));
            }
        }
        i = i + 1;
    }
    out.push(0u8);
    out.push(0u8);
    proof {
        assert(s@.take(n as int) =~= s@);
        assert(out@ =~= be_units(utf16_of(s@)) + seq![0u8, 0u8]);
    }
    out
}

// ---------------------------------------------------------------------------
// Writing
// ---------------------------------------------------------------------------

/// A block: type, payload length, payload.
pub open spec fn block_bytes(typ: u16, payload: Seq<u8>) -> Seq<u8> {
    be_bytes16(typ) + be_bytes(payload.len() as u32) + payload
}

/// A name field: unit count (with the terminator), then the units.
pub open spec fn name_field(name: Seq<char>) -> Seq<u8> {
    let enc = be_units(utf16_of(name)) + seq![0u8, 0u8];
    be_bytes16((enc.len() / 2) as u16) + enc
}

/// The group-start block named `name`.
pub open spec fn group_start_bytes(name: Seq<char>) -> Seq<u8> {
    block_bytes(0xC001, name_field(name))
}

/// The group-end block.
pub open spec fn group_end_bytes() -> Seq<u8> {
    block_bytes(0xC002, Seq::empty())
}

/// An RGB color block: name, model, the three channel bit patterns, and the
/// "normal" color type.
pub open spec fn color_rgb_bytes(name: Seq<char>, bits: [u32; 3]) -> Seq<u8> {
    block_bytes(
        0x0001,
        name_field(name) + model_rgb() + be_bytes(bits[0]) + be_bytes(bits[1]) + be_bytes(bits[2]) + be_bytes16(2),
    )
}

/// Appends a block of type `typ` holding `payload`.
fn write_block(buf: &mut Vec<u8>, typ: u16, payload: &[u8])
    ensures
        final(buf)@ == old(buf)@ + block_bytes(typ, payload@),
{
    let ghost start = buf@;
    push_u16_be(buf, typ);
    push_u32_be(buf, payload.len() as u32);
    push_all(buf, payload);
    proof {
        assert(buf@ =~= start + block_bytes(typ, payload@));
    }
}

/// Appends a name field for `name` to a payload.
fn write_name(block: &mut Vec<u8>, name: &str)
    ensures
        final(block)@ == old(block)@ + name_field(name@),
{
    let ghost start = block@;
    let utf16 = utf16be_with_null(name);
    let name_chars = (utf16.len() / 2) as u16;
    push_u16_be(block, name_chars);
    push_all(block, utf16.as_slice());
    proof {
        assert(block@ =~= start + name_field(name@));
    }
}

/// Appends the group-start block named `name`.
pub fn write_group_start(buf: &mut Vec<u8>, name: &str)
    ensures
        final(buf)@ == old(buf)@ + group_start_bytes(name@),
{
    let mut block: Vec<u8> = Vec::new();
    write_name(&mut block, name);
    proof {
        assert(block@ =~= name_field(name@));
    }
    write_block(buf, 0xC001, block.as_slice());
}

/// Appends the group-end block.
pub fn write_group_end(buf: &mut Vec<u8>)
    ensures
        final(buf)@ == old(buf)@ + group_end_bytes(),
{
    let ghost start = buf@;
    push_u16_be(buf, 0xC002);
    push_u32_be(buf, 0);
    proof {
        assert(buf@ =~= start + group_end_bytes());
    }
}

/// Appends an RGB color block named `name` whose channels are the `f32`
/// values with bit patterns `bits`.
pub fn write_color_rgb(buf: &mut Vec<u8>, name: &str, bits: [u32; 3])
    ensures
        final(buf)@ == old(buf)@ + color_rgb_bytes(name@, bits),
{
    let mut block: Vec<u8> = Vec::new();
    write_name(&mut block, name);
    push_all(&mut block, &[0x52u8, 0x47, 0x42, 0x20]);
    push_u32_be(&mut block, bits[0]);
    push_u32_be(&mut block, bits[1]);
    push_u32_be(&mut block, bits[2]);
    push_u16_be(&mut block, 2);
    proof {
        assert(block@ =~= name_field(name@) + model_rgb() + be_bytes(bits[0]) + be_bytes(bits[1]) + be_bytes(
            bits[2],
        ) + be_bytes16(2));
    }
    write_block(buf, 0x0001, block.as_slice());
}

/// Swatch `n`'s name: `n` in decimal, zero-padded to three digits.
pub open spec fn swatch_name(n: nat) -> Seq<char> {
    if n < 10 {
        seq!['0', '0'] + nat_digits(n)
    } else if n < 100 {
        seq!['0'] + nat_digits(n)
    } else {
        nat_digits(n)
    }
}

fn swatch_name_string(n: u32) -> (s: String)
    ensures
        s@ == swatch_name(n as nat),
{
    let mut s = String::new();
    if n < 10 {
        proof {
            reveal_strlit("00");
        }
        s.append("00");
    } else if n < 100 {
        proof {
            reveal_strlit("0");
        }
        s.append("0");
    }
    push_nat(&mut s, n);
    s
}

/// The color blocks for the first `n` swatches, named from `001`.
pub open spec fn color_blocks(bits: Seq<[u32; 3]>, n: int) -> Seq<u8>
    decreases n,
{
    if n <= 0 {
        Seq::empty()
    } else {
        color_blocks(bits, n - 1) + color_rgb_bytes(swatch_name(n as nat), bits[n - 1])
    }
}

/// A whole `.ase` file: one group named `name` holding one RGB swatch per
/// entry of `bits`, named `001`, `002`, ...
pub open spec fn ase_file(name: Seq<char>, bits: Seq<[u32; 3]>) -> Seq<u8> {
    ase_signature() + be_bytes16(1) + be_bytes16(0) + be_bytes((bits.len() + 2) as u32) + group_start_bytes(name)
        + color_blocks(bits, bits.len() as int) + group_end_bytes()
}

/// The `.ase` file for a palette named `name` whose swatches have the
/// channel bit patterns `bits` (red, green, blue as `f32` in `0..=1`).
pub fn export(name: &str, bits: &[[u32; 3]]) -> (r: Vec<u8>)
    requires
        bits@.len() + 2 <= u32::MAX,
    ensures
        r@ == ase_file(name@, bits@),
{
    let mut buf: Vec<u8> = Vec::new();
    push_all(&mut buf, &[0x41u8, 0x53, 0x45, 0x46]);
    push_u16_be(&mut buf, 1);
    push_u16_be(&mut buf, 0);
    push_u32_be(&mut buf, bits.len() as u32 + 2);
    write_group_start(&mut buf, name);
    let ghost head = buf@;
    let mut i: usize = 0;
    while i < bits.len()
        invariant
            i <= bits@.len(),
            bits@.len() + 2 <= u32::MAX,
            buf@ == head + color_blocks(bits@, i as int),
        decreases bits.len() - i,
    {
        let sname = swatch_name_string((i + 1) as u32);
        write_color_rgb(&mut buf, sname.as_str(), bits[i]);
        proof {
            assert(buf@ =~= head + color_blocks(bits@, i + 1));
        }
        i = i + 1;
    }
    write_group_end(&mut buf);
    proof {
        assert(buf@ =~= ase_file(name@, bits@));
    }
    buf
}

// ---------------------------------------------------------------------------
// Reading
// ---------------------------------------------------------------------------

/// Why an `.ase` file was refused.
#[derive(Clone, Copy, Debug, PartialEq, Eq, Structural)]
pub enum AseError {
    /// A read ran past the end of the data.
    UnexpectedEof,
    /// The file does not start with `ASEF`.
    BadSignature,
}

/// A swatch's channels as stored: the bit patterns of its `f32` values.
#[derive(Clone, Copy, Debug, PartialEq, Eq, Structural)]
pub enum AseColor {
    Rgb { r: u32, g: u32, b: u32 },
    Gray { v: u32 },
    Cmyk { c: u32, m: u32, y: u32, k: u32 },
}

/// What an `.ase` file holds: the name of its first named group, and its
/// RGB, gray and CMYK swatches in order (swatches in other models are
/// skipped).
pub struct AsePalette {
    pub group_name: Option<String>,
    pub colors: Vec<AseColor>,
}

/// An optional string as text.
pub open spec fn opt_text(o: Option<String>) -> Option<Seq<char>> {
    match o {
        Some(s) => Some(s@),
        None => None,
    }
}

/// Big-endian `u16` at offset `o`.
pub open spec fn be_u16_at(d: Seq<u8>, o: int) -> u16 {
    (d[o] * 0x100 + d[o + 1]) as u16
}

/// Big-endian `u32` at offset `o`.
pub open spec fn be_u32_at(d: Seq<u8>, o: int) -> u32 {
    (d[o] * 0x100_0000 + d[o + 1] * 0x1_0000 + d[o + 2] * 0x100 + d[o + 3]) as u32
}

/// The name field at `o`: its code units without a trailing zero, and the
/// offset after it; `None` when it runs past the end.
pub open spec fn name_at(d: Seq<u8>, o: int) -> Option<(Seq<u16>, int)> {
    if o + 2 > d.len() {
        None
    } else {
        let n = be_u16_at(d, o) as int;
        if o + 2 + 2 * n > d.len() {
            None
        } else {
            let us = Seq::new(n as nat, |i: int| be_u16_at(d, o + 2 + 2 * i));
            Some((if n > 0 && us.last() == 0 { us.drop_last() } else { us }, o + 2 + 2 * n))
        }
    }
}

/// The swatch channels after a color model tag at `p`: `Some(Some(c))` for
/// a supported model, `Some(None)` for an unsupported one, `None` when the
/// values run past the end.
pub open spec fn color_at(d: Seq<u8>, p: int) -> Option<Option<AseColor>> {
    let tag = d.subrange(p, p + 4);
    if tag == model_rgb() {
        if p + 16 > d.len() {
            None
        } else {
            Some(Some(AseColor::Rgb { r: be_u32_at(d, p + 4), g: be_u32_at(d, p + 8), b: be_u32_at(d, p + 12) }))
        }
    } else if tag == model_gray_upper() || tag == model_gray() {
        if p + 8 > d.len() {
            None
        } else {
            Some(Some(AseColor::Gray { v: be_u32_at(d, p + 4) }))
        }
    } else if tag == model_cmyk() {
        if p + 20 > d.len() {
            None
        } else {
            Some(Some(AseColor::Cmyk { c: be_u32_at(d, p + 4), m: be_u32_at(d, p + 8), y: be_u32_at(d, p + 12), k: be_u32_at(d, p + 16) }))
        }
    } else {
        Some(None)
    }
}

/// The group name and swatches read from `k` blocks starting at `pos`,
/// after `name` and `colors` were read before. Each block is left at its
/// stated end (the end of the data at most, past which every read fails).
pub open spec fn scan_blocks(d: Seq<u8>, pos: int, k: int, name: Option<Seq<char>>, colors: Seq<AseColor>) -> Result<(Option<Seq<char>>, Seq<AseColor>), AseError>
    decreases k,
{
    if k <= 0 {
        Ok((name, colors))
    } else if pos + 6 > d.len() {
        Err(AseError::UnexpectedEof)
    } else {
        let typ = be_u16_at(d, pos);
        let end = pos + 6 + be_u32_at(d, pos + 2);
        let next = if end > d.len() { d.len() as int } else { end };
        if typ == 0xC001 {
            match name_at(d, pos + 6) {
                None => Err(AseError::UnexpectedEof),
                Some((us, _)) => {
                    let s = utf16_lossy(us);
                    scan_blocks(d, next, k - 1, if name is None && s.len() > 0 { Some(s) } else { name }, colors)
                },
            }
        } else if typ == 0x0001 {
            match name_at(d, pos + 6) {
                None => Err(AseError::UnexpectedEof),
                Some((_, p)) => {
                    if p + 4 > d.len() {
                        Err(AseError::UnexpectedEof)
                    } else {
                        match color_at(d, p) {
                            None => Err(AseError::UnexpectedEof),
                            Some(None) => scan_blocks(d, next, k - 1, name, colors),
                            Some(Some(c)) => scan_blocks(d, next, k - 1, name, colors.push(c)),
                        }
                    }
                },
            }
        } else {
            scan_blocks(d, next, k - 1, name, colors)
        }
    }
}

/// What an `.ase` file holds: the name of its first group whose name is not
/// empty, and its supported swatches in order. The version is not checked.
pub open spec fn ase_parse(d: Seq<u8>) -> Result<(Option<Seq<char>>, Seq<AseColor>), AseError> {
    if d.len() < 4 {
        Err(AseError::UnexpectedEof)
    } else if d.subrange(0, 4) != ase_signature() {
        Err(AseError::BadSignature)
    } else if d.len() < 12 {
        Err(AseError::UnexpectedEof)
    } else {
        scan_blocks(d, 12, be_u32_at(d, 8) as int, None, Seq::empty())
    }
}

/// Bounds-checked big-endian reader over a borrowed byte slice.
pub struct Reader<'a> {
    data: &'a [u8],
    pos: usize,
}

impl<'a> Reader<'a> {
    pub closed spec fn data(&self) -> Seq<u8> {
        self.data@
    }

    pub closed spec fn pos(&self) -> int {
        self.pos as int
    }

    pub open spec fn wf(&self) -> bool {
        0 <= self.pos() <= self.data().len()
    }

    pub fn new(data: &'a [u8]) -> (r: Self)
        ensures
            r.wf(),
            r.data() == data@,
            r.pos() == 0,
    {
        Reader { data, pos: 0 }
    }

    /// The next `n` bytes.
    pub fn read_bytes(&mut self, n: usize) -> (r: Result<&'a [u8], AseError>)
        requires
            old(self).wf(),
        ensures
            final(self).wf(),
            final(self).data() == old(self).data(),
            match r {
                Ok(s) => {
                    &&& old(self).pos() + n <= old(self).data().len()
                    &&& s@ == old(self).data().subrange(old(self).pos(), old(self).pos() + n)
                    &&& final(self).pos() == old(self).pos() + n
                },
                Err(e) => {
                    &&& old(self).pos() + n > old(self).data().len()
                    &&& e == AseError::UnexpectedEof
                    &&& final(self).pos() == old(self).pos()
                },
            },
    {
        if n > self.data.len() - self.pos {
            return Err(AseError::UnexpectedEof);
        }
        let s = &self.data[self.pos..self.pos + n];
        self.pos = self.pos + n;
        Ok(s)
    }

    /// The next big-endian `u16`.
    pub fn read_u16(&mut self) -> (r: Result<u16, AseError>)
        requires
            old(self).wf(),
        ensures
            final(self).wf(),
            final(self).data() == old(self).data(),
            match r {
                Ok(v) => {
                    &&& old(self).pos() + 2 <= old(self).data().len()
                    &&& v == be_u16_at(old(self).data(), old(self).pos())
                    &&& final(self).pos() == old(self).pos() + 2
                },
                Err(e) => {
                    &&& old(self).pos() + 2 > old(self).data().len()
                    &&& e == AseError::UnexpectedEof
                    &&& final(self).pos() == old(self).pos()
                },
            },
    {
        let b = self.read_bytes(2)?;
        Ok(b[0] as u16 * 0x100 + b[1] as u16)
    }

    /// The next big-endian `u32`.
    pub fn read_u32(&mut self) -> (r: Result<u32, AseError>)
        requires
            old(self).wf(),
        ensures
            final(self).wf(),
            final(self).data() == old(self).data(),
            match r {
                Ok(v) => {
                    &&& old(self).pos() + 4 <= old(self).data().len()
                    &&& v == be_u32_at(old(self).data(), old(self).pos())
                    &&& final(self).pos() == old(self).pos() + 4
                },
                Err(e) => {
                    &&& old(self).pos() + 4 > old(self).data().len()
                    &&& e == AseError::UnexpectedEof
                    &&& final(self).pos() == old(self).pos()
                },
            },
    {
        let b = self.read_bytes(4)?;
        Ok(b[0] as u32 * 0x100_0000 + b[1] as u32 * 0x1_0000 + b[2] as u32 * 0x100 + b[3] as u32)
    }

    /// The code units of the next name field, without a trailing zero.
    fn read_name_units(&mut self) -> (r: Result<Vec<u16>, AseError>)
        requires
            old(self).wf(),
        ensures
            final(self).wf(),
            final(self).data() == old(self).data(),
            match r {
                Ok(us) => name_at(old(self).data(), old(self).pos()) == Some((us@, final(self).pos())),
                Err(e) => e == AseError::UnexpectedEof && name_at(old(self).data(), old(self).pos()) is None,
            },
    {
        let ghost d = self.data();
        let ghost o = self.pos();
        let len = self.read_u16()? as usize;
        let bytes = match self.read_bytes(len * 2) {
            Ok(b) => b,
            Err(e) => return Err(e),
        };
        let mut units: Vec<u16> = Vec::new();
        let mut i: usize = 0;
        while i < len
            invariant
                i <= len,
                len < 0x1_0000,
                0 <= o,
                o + 2 + 2 * len <= d.len(),
                bytes@.len() == 2 * len,
                bytes@ == d.subrange(o + 2, o + 2 + 2 * len),
                units@ == Seq::new(i as nat, |j: int| be_u16_at(d, o + 2 + 2 * j)),
            decreases len - i,
        {
            let u = bytes[2 * i] as u16 * 0x100 + bytes[2 * i + 1] as u16;
            units.push(u);
            proof {
                assert(bytes@[2 * i as int] == d[o + 2 + 2 * i]);
                assert(units@ =~= Seq::new((i + 1) as nat, |j: int| be_u16_at(d, o + 2 + 2 * j)));
            }
            i = i + 1;
        }
        if units.len() > 0 && units[units.len() - 1] == 0 {
            units.pop();
        }
        Ok(units)
    }

    /// The next name field as text (invalid UTF-16 becomes U+FFFD).
    pub fn read_utf16be_name(&mut self) -> (r: Result<String, AseError>)
        requires
            old(self).wf(),
        ensures
            final(self).wf(),
            final(self).data() == old(self).data(),
            match r {
                Ok(s) => name_at(old(self).data(), old(self).pos()) matches Some((us, end)) && s@ == utf16_lossy(us)
                    && final(self).pos() == end,
                Err(e) => e == AseError::UnexpectedEof && name_at(old(self).data(), old(self).pos()) is None,
            },
    {
        let units = self.read_name_units()?;
        Ok(string_from_utf16_lossy(units.as_slice()))
    }
}

/// Reads an `.ase` file: the name of its first group with a non-empty name,
/// and its RGB, gray and CMYK swatches as stored, in order. Fails on a bad
/// signature or a truncated file.
#[verifier::rlimit(40)]
#[verifier::spinoff_prover]
pub fn import(bytes: &[u8]) -> (r: Result<AsePalette, AseError>)
    ensures
        match r {
            Ok(p) => ase_parse(bytes@) == Ok::<(Option<Seq<char>>, Seq<AseColor>), AseError>(
                (opt_text(p.group_name), p.colors@),
            ),
            Err(e) => ase_parse(bytes@) == Err::<(Option<Seq<char>>, Seq<AseColor>), AseError>(e),
        },
{
    let ghost d = bytes@;
    let mut r = Reader::new(bytes);
    let sig = r.read_bytes(4)?;
    if !(sig[0] == 0x41 && sig[1] == 0x53 && sig[2] == 0x45 && sig[3] == 0x46) {
        proof {
            if d.subrange(0, 4) == ase_signature() {
                assert(sig@[0] == d.subrange(0, 4)[0]);
            }
        }
        return Err(AseError::BadSignature);
    }
    proof {
        assert(d.subrange(0, 4) =~= ase_signature());
    }
    let _major = r.read_u16()?;
    let _minor = r.read_u16()?;
    let block_count = r.read_u32()?;
    let mut group_name: Option<String> = None;
    let mut colors: Vec<AseColor> = Vec::new();
    let mut k: u32 = 0;
    while k < block_count
        invariant
            r.wf(),
            r.data() == d,
            d == bytes@,
            d.len() >= 12,
            d.subrange(0, 4) == ase_signature(),
            block_count == be_u32_at(d, 8),
            k <= block_count,
            scan_blocks(d, r.pos(), block_count - k, opt_text(group_name), colors@) == ase_parse(d),
        decreases block_count - k,
    {
        let ghost pos = r.pos();
        let ghost gv = opt_text(group_name);
        let block_type = match r.read_u16() {
            Ok(v) => v,
            Err(e) => return Err(e),
        };
        let block_len = match r.read_u32() {
            Ok(v) => v,
            Err(e) => return Err(e),
        };
        let len = bytes.len();
        let here = r.pos;
        let block_end: usize = if block_len as usize > len - here {
            len
        } else {
            here + block_len as usize
        };
        if block_type == 0xC001 {
            let name = match r.read_utf16be_name() {
                Ok(n) => n,
                Err(e) => return Err(e),
            };
            if group_name.is_none() && name.unicode_len() > 0 {
                group_name = Some(name);
            }
        } else if block_type == 0x0001 {
            match r.read_name_units() {
                Ok(_) => {},
                Err(e) => return Err(e),
            }
            let ghost p = r.pos();
            let model = match r.read_bytes(4) {
                Ok(m) => m,
                Err(e) => return Err(e),
            };
            let is_rgb = model[0] == 0x52 && model[1] == 0x47 && model[2] == 0x42 && model[3] == 0x20;
            let is_gray = model[0] == 0x47 && model[1] == 0x52 && model[2] == 0x41 && model[3] == 0x59;
            let is_gray2 = model[0] == 0x47 && model[1] == 0x72 && model[2] == 0x61 && model[3] == 0x79;
            let is_cmyk = model[0] == 0x43 && model[1] == 0x4D && model[2] == 0x59 && model[3] == 0x4B;
            proof {
                let tag = d.subrange(p, p + 4);
                assert(model@ == tag);
                if is_rgb {
                    assert(tag =~= model_rgb());
                } else if tag == model_rgb() {
                    assert(model@[0] == tag[0] && model@[1] == tag[1] && model@[2] == tag[2] && model@[3] == tag[3]);
                }
                if is_gray {
                    assert(tag =~= model_gray_upper());
                } else if tag == model_gray_upper() {
                    assert(model@[0] == tag[0] && model@[1] == tag[1] && model@[2] == tag[2] && model@[3] == tag[3]);
                }
                if is_gray2 {
                    assert(tag =~= model_gray());
                } else if tag == model_gray() {
                    assert(model@[0] == tag[0] && model@[1] == tag[1] && model@[2] == tag[2] && model@[3] == tag[3]);
                }
                if is_cmyk {
                    assert(tag =~= model_cmyk());
                } else if tag == model_cmyk() {
                    assert(model@[0] == tag[0] && model@[1] == tag[1] && model@[2] == tag[2] && model@[3] == tag[3]);
                }
            }
            if is_rgb {
                let a = r.read_u32()?;
                let b = r.read_u32()?;
                let c = r.read_u32()?;
                colors.push(AseColor::Rgb { r: a, g: b, b: c });
            } else if is_gray || is_gray2 {
                let v = r.read_u32()?;
                colors.push(AseColor::Gray { v });
            } else if is_cmyk {
                let c = r.read_u32()?;
                let m = r.read_u32()?;
                let y = r.read_u32()?;
                let kk = r.read_u32()?;
                colors.push(AseColor::Cmyk { c, m, y, k: kk });
            }
        }
        r.pos = block_end;
        k = k + 1;
    }
    Ok(AsePalette { group_name, colors })
}


// ---------------------------------------------------------------------------
// Reading back what was written
// ---------------------------------------------------------------------------

/// `b` sits in `d` at offset `o`.
pub open spec fn at(d: Seq<u8>, o: int, b: Seq<u8>) -> bool {
    0 <= o && o + b.len() <= d.len() && d.subrange(o, o + b.len()) == b
}

proof fn lemma_at_split(d: Seq<u8>, o: int, a: Seq<u8>, b: Seq<u8>)
    requires
        at(d, o, a + b),
    ensures
        at(d, o, a),
        at(d, o + a.len(), b),
{
    let w = d.subrange(o, o + a.len() + b.len());
    assert(w == a + b);
    assert forall|k: int| 0 <= k < a.len() implies d.subrange(o, o + a.len())[k] == a[k] by {
        assert(w[k] == d[o + k]);
        assert((a + b)[k] == a[k]);
    }
    assert(d.subrange(o, o + a.len()) =~= a);
    assert forall|k: int| 0 <= k < b.len() implies d.subrange(o + a.len(), o + a.len() + b.len())[k] == b[k] by {
        assert(w[a.len() + k] == d[o + a.len() + k]);
        assert((a + b)[a.len() + k] == b[k]);
    }
    assert(d.subrange(o + a.len(), o + a.len() + b.len()) =~= b);
}

proof fn lemma_at_byte(d: Seq<u8>, o: int, b: Seq<u8>, k: int)
    requires
        at(d, o, b),
        0 <= k < b.len(),
    ensures
        d[o + k] == b[k],
{
    assert(d.subrange(o, o + b.len())[k] == d[o + k]);
}

proof fn lemma_at_u16(d: Seq<u8>, o: int, v: u16)
    requires
        at(d, o, be_bytes16(v)),
    ensures
        be_u16_at(d, o) == v,
{
    lemma_at_byte(d, o, be_bytes16(v), 0);
    lemma_at_byte(d, o, be_bytes16(v), 1);
    assert((v / 0x100) as u8 * 0x100 + (v % 0x100) as u8 == v);
}

proof fn lemma_at_u32(d: Seq<u8>, o: int, v: u32)
    requires
        at(d, o, be_bytes(v)),
    ensures
        be_u32_at(d, o) == v,
{
    let b = be_bytes(v);
    lemma_at_byte(d, o, b, 0);
    lemma_at_byte(d, o, b, 1);
    lemma_at_byte(d, o, b, 2);
    lemma_at_byte(d, o, b, 3);
    assert(b[0] * 0x100_0000 + b[1] * 0x1_0000 + b[2] * 0x100 + b[3] == v as int);
}

proof fn lemma_be_units(us: Seq<u16>)
    ensures
        be_units(us).len() == 2 * us.len(),
        forall|i: int|
            0 <= i < us.len() ==> be_units(us)[2 * i] == (us[i] / 0x100) as u8 && be_units(us)[2 * i + 1] == (
            us[i] % 0x100) as u8,
    decreases us.len(),
{
    if us.len() > 0 {
        lemma_be_units(us.drop_last());
        let n = us.len() - 1;
        assert forall|i: int| 0 <= i < us.len() implies be_units(us)[2 * i] == (us[i] / 0x100) as u8 && be_units(
            us,
        )[2 * i + 1] == (us[i] % 0x100) as u8 by {
            if i < n {
                assert(us.drop_last()[i] == us[i]);
            }
        }
    }
}

proof fn lemma_utf16_len(s: Seq<char>)
    ensures
        utf16_of(s).len() <= 2 * s.len(),
    decreases s.len(),
{
    if s.len() > 0 {
        lemma_utf16_len(s.drop_last());
    }
}

/// A name field sitting at `o` reads back as its code units.
proof fn lemma_at_name(d: Seq<u8>, o: int, nm: Seq<char>)
    requires
        at(d, o, name_field(nm)),
        utf16_of(nm).len() + 1 < 0x1_0000,
    ensures
        name_at(d, o) == Some((utf16_of(nm), o + name_field(nm).len())),
{
    let us = utf16_of(nm);
    let enc = be_units(us) + seq![0u8, 0u8];
    lemma_be_units(us);
    let cnt = (enc.len() / 2) as u16;
    assert(cnt == us.len() + 1);
    lemma_at_split(d, o, be_bytes16(cnt), enc);
    lemma_at_u16(d, o, cnt);
    let n = cnt as int;
    let read = Seq::new(n as nat, |i: int| be_u16_at(d, o + 2 + 2 * i));
    assert forall|i: int| 0 <= i < n implies #[trigger] read[i] == us.push(0u16)[i] by {
        lemma_at_byte(d, o + 2, enc, 2 * i);
        lemma_at_byte(d, o + 2, enc, 2 * i + 1);
        if i < us.len() {
            let u = us[i];
            assert((u / 0x100) as u8 * 0x100 + (u % 0x100) as u8 == u);
        }
    }
    assert(read =~= us.push(0u16));
    assert(read.drop_last() =~= us);
}


/// A color block at `pos` adds its swatch and moves to the next block.
proof fn lemma_scan_color_block(
    d: Seq<u8>,
    pos: int,
    nm: Seq<char>,
    b: [u32; 3],
    k: int,
    name: Option<Seq<char>>,
    cs: Seq<AseColor>,
)
    requires
        at(d, pos, color_rgb_bytes(nm, b)),
        utf16_of(nm).len() + 1 < 0x1_0000,
        k >= 1,
    ensures
        scan_blocks(d, pos, k, name, cs) == scan_blocks(
            d,
            pos + color_rgb_bytes(nm, b).len(),
            k - 1,
            name,
            cs.push(AseColor::Rgb { r: b[0], g: b[1], b: b[2] }),
        ),
{
    let nf = name_field(nm);
    let payload = nf + model_rgb() + be_bytes(b[0]) + be_bytes(b[1]) + be_bytes(b[2]) + be_bytes16(2);
    lemma_be_units(utf16_of(nm));
    assert(payload.len() < u32::MAX);
    lemma_at_split(d, pos, be_bytes16(0x0001) + be_bytes(payload.len() as u32), payload);
    lemma_at_split(d, pos, be_bytes16(0x0001), be_bytes(payload.len() as u32));
    lemma_at_u16(d, pos, 0x0001);
    lemma_at_u32(d, pos + 2, payload.len() as u32);
    let q = pos + 6;
    lemma_at_split(d, q, nf + model_rgb() + be_bytes(b[0]) + be_bytes(b[1]) + be_bytes(b[2]), be_bytes16(2));
    lemma_at_split(d, q, nf + model_rgb() + be_bytes(b[0]) + be_bytes(b[1]), be_bytes(b[2]));
    lemma_at_split(d, q, nf + model_rgb() + be_bytes(b[0]), be_bytes(b[1]));
    lemma_at_split(d, q, nf + model_rgb(), be_bytes(b[0]));
    lemma_at_split(d, q, nf, model_rgb());
    lemma_at_name(d, q, nm);
    let p = q + nf.len();
    lemma_at_u32(d, p + 4, b[0]);
    lemma_at_u32(d, p + 8, b[1]);
    lemma_at_u32(d, p + 12, b[2]);
    assert(d.subrange(p, p + 4) == model_rgb());
    assert(color_at(d, p) == Some(Some(AseColor::Rgb { r: b[0], g: b[1], b: b[2] })));
}

/// The group-start block at `pos` names the palette, if the name is not
/// empty and none was found before.
proof fn lemma_scan_group_start(d: Seq<u8>, pos: int, nm: Seq<char>, k: int, cs: Seq<AseColor>)
    requires
        at(d, pos, group_start_bytes(nm)),
        utf16_of(nm).len() + 1 < 0x1_0000,
        k >= 1,
    ensures
        scan_blocks(d, pos, k, None, cs) == scan_blocks(
            d,
            pos + group_start_bytes(nm).len(),
            k - 1,
            if utf16_lossy(utf16_of(nm)).len() > 0 {
                Some(utf16_lossy(utf16_of(nm)))
            } else {
                None
            },
            cs,
        ),
{
    let nf = name_field(nm);
    lemma_be_units(utf16_of(nm));
    assert(nf.len() < u32::MAX);
    lemma_at_split(d, pos, be_bytes16(0xC001) + be_bytes(nf.len() as u32), nf);
    lemma_at_split(d, pos, be_bytes16(0xC001), be_bytes(nf.len() as u32));
    lemma_at_u16(d, pos, 0xC001);
    lemma_at_u32(d, pos + 2, nf.len() as u32);
    lemma_at_name(d, pos + 6, nm);
}

/// The group-end block at `pos` is passed over.
proof fn lemma_scan_group_end(d: Seq<u8>, pos: int, k: int, name: Option<Seq<char>>, cs: Seq<AseColor>)
    requires
        at(d, pos, group_end_bytes()),
        k >= 1,
    ensures
        scan_blocks(d, pos, k, name, cs) == scan_blocks(d, pos + 6, k - 1, name, cs),
{
    lemma_at_split(d, pos, be_bytes16(0xC002), be_bytes(0));
    lemma_at_u16(d, pos, 0xC002);
    lemma_at_u32(d, pos + 2, 0);
    assert(group_end_bytes() =~= be_bytes16(0xC002) + be_bytes(0) + Seq::<u8>::empty());
}

/// The swatches of the bit patterns.
pub open spec fn rgb_swatches(bits: Seq<[u32; 3]>) -> Seq<AseColor> {
    bits.map_values(|b: [u32; 3]| AseColor::Rgb { r: b[0], g: b[1], b: b[2] })
}

/// `10^k`.
pub open spec fn pow10(k: nat) -> nat
    decreases k,
{
    if k == 0 {
        1
    } else {
        10 * pow10((k - 1) as nat)
    }
}

proof fn lemma_pow10_digits(n: nat, k: nat)
    requires
        k >= 1,
        n < pow10(k),
    ensures
        nat_digits(n).len() <= k,
    decreases k,
{
    if n >= 10 {
        if k == 1 {
            assert(pow10(1) == 10 * pow10(0));
        }
        let q = pow10((k - 1) as nat);
        assert(n / 10 < q) by (nonlinear_arith)
            requires
                n < 10 * q,
        ;
        lemma_pow10_digits(n / 10, (k - 1) as nat);
    }
}

/// Swatch names are short enough for a name field.
proof fn lemma_swatch_name_fits(n: nat)
    requires
        n <= u32::MAX,
    ensures
        utf16_of(swatch_name(n)).len() + 1 < 0x1_0000,
{
    assert(pow10(10) == 10_000_000_000) by {
        reveal_with_fuel(pow10, 11);
    }
    lemma_pow10_digits(n, 10);
    lemma_utf16_len(swatch_name(n));
}

/// The color blocks of the first `i` swatches come first, then that of the
/// next one.
proof fn lemma_at_color_blocks(d: Seq<u8>, base: int, bits: Seq<[u32; 3]>, n: int, i: int)
    requires
        at(d, base, color_blocks(bits, n)),
        0 <= i < n,
    ensures
        at(d, base, color_blocks(bits, i)),
        at(d, base + color_blocks(bits, i).len(), color_rgb_bytes(swatch_name((i + 1) as nat), bits[i])),
    decreases n - i,
{
    lemma_at_split(d, base, color_blocks(bits, n - 1), color_rgb_bytes(swatch_name(n as nat), bits[n - 1]));
    if i < n - 1 {
        lemma_at_color_blocks(d, base, bits, n - 1, i);
    }
}

/// Scanning the color blocks from swatch `i` on adds their swatches in order.
#[verifier::spinoff_prover]
#[verifier::rlimit(60)]
proof fn lemma_scan_colors(
    d: Seq<u8>,
    base: int,
    bits: Seq<[u32; 3]>,
    n: int,
    i: int,
    e: int,
    name: Option<Seq<char>>,
    cs: Seq<AseColor>,
)
    requires
        at(d, base, color_blocks(bits, n)),
        n == bits.len(),
        n <= u32::MAX,
        0 <= i <= n,
        e >= 0,
    ensures
        scan_blocks(d, base + color_blocks(bits, i).len(), n - i + e, name, cs) == scan_blocks(
            d,
            base + color_blocks(bits, n).len(),
            e,
            name,
            cs + rgb_swatches(bits.subrange(i, n)),
        ),
    decreases n - i,
{
    if i == n {
        assert(cs + rgb_swatches(bits.subrange(i, n)) =~= cs);
    } else {
        lemma_at_color_blocks(d, base, bits, n, i);
        lemma_swatch_name_fits((i + 1) as nat);
        let b = bits[i];
        lemma_scan_color_block(
            d,
            base + color_blocks(bits, i).len(),
            swatch_name((i + 1) as nat),
            b,
            n - i + e,
            name,
            cs,
        );
        let c = AseColor::Rgb { r: b[0], g: b[1], b: b[2] };
        lemma_scan_colors(d, base, bits, n, i + 1, e, name, cs.push(c));
        assert(cs.push(c) + rgb_swatches(bits.subrange(i + 1, n)) =~= cs + rgb_swatches(bits.subrange(i, n)));
    }
}

/// Where the parts of an exported file sit.
#[verifier::spinoff_prover]
proof fn lemma_ase_layout(name: Seq<char>, bits: Seq<[u32; 3]>)
    requires
        bits.len() + 2 <= u32::MAX,
    ensures
        ({
            let d = ase_file(name, bits);
            let n = bits.len() as int;
            let g = group_start_bytes(name);
            let c = color_blocks(bits, n);
            &&& d.len() >= 12
            &&& d.subrange(0, 4) == ase_signature()
            &&& be_u32_at(d, 8) == n + 2
            &&& at(d, 12, g)
            &&& at(d, 12 + g.len() as int, c)
            &&& at(d, 12 + g.len() as int + c.len() as int, group_end_bytes())
        }),
{
    let d = ase_file(name, bits);
    let n = bits.len() as int;
    let h = ase_signature() + be_bytes16(1) + be_bytes16(0) + be_bytes((n + 2) as u32);
    let g = group_start_bytes(name);
    let c = color_blocks(bits, n);
    let e = group_end_bytes();
    assert(d == h + g + c + e);
    assert(d.subrange(0, d.len() as int) =~= d);
    lemma_at_split(d, 0, h + g + c, e);
    lemma_at_split(d, 0, h + g, c);
    lemma_at_split(d, 0, h, g);
    lemma_at_split(d, 0, ase_signature() + be_bytes16(1) + be_bytes16(0), be_bytes((n + 2) as u32));
    lemma_at_split(d, 0, ase_signature() + be_bytes16(1), be_bytes16(0));
    lemma_at_split(d, 0, ase_signature(), be_bytes16(1));
    lemma_at_u32(d, 8, (n + 2) as u32);
}

/// A file laid out as an export reads back as its name and swatches.
#[verifier::spinoff_prover]
proof fn lemma_parse_layout(d: Seq<u8>, name: Seq<char>, bits: Seq<[u32; 3]>)
    requires
        bits.len() + 2 <= u32::MAX,
        utf16_of(name).len() + 1 < 0x1_0000,
        d.len() >= 12,
        d.subrange(0, 4) == ase_signature(),
        be_u32_at(d, 8) == bits.len() + 2,
        at(d, 12, group_start_bytes(name)),
        at(d, 12 + group_start_bytes(name).len() as int, color_blocks(bits, bits.len() as int)),
        at(
            d,
            12 + group_start_bytes(name).len() as int + color_blocks(bits, bits.len() as int).len() as int,
            group_end_bytes(),
        ),
    ensures
        ase_parse(d) == Ok::<(Option<Seq<char>>, Seq<AseColor>), AseError>(
            (
                if utf16_lossy(utf16_of(name)).len() > 0 {
                    Some(utf16_lossy(utf16_of(name)))
                } else {
                    None
                },
                rgb_swatches(bits),
            ),
        ),
{
    let n = bits.len() as int;
    let g = group_start_bytes(name);
    let c = color_blocks(bits, n);
    let nm = if utf16_lossy(utf16_of(name)).len() > 0 {
        Some(utf16_lossy(utf16_of(name)))
    } else {
        None
    };
    assert(ase_parse(d) == scan_blocks(d, 12, n + 2, None, Seq::empty()));
    lemma_scan_group_start(d, 12, name, n + 2, Seq::empty());
    let base = (12 + g.len()) as int;
    assert(color_blocks(bits, 0) =~= Seq::<u8>::empty());
    lemma_scan_colors(d, base, bits, n, 0, 1, nm, Seq::empty());
    lemma_scan_group_end(d, base + c.len() as int, 1, nm, rgb_swatches(bits.subrange(0, n)));
    assert(bits.subrange(0, n) =~= bits);
    assert(Seq::<AseColor>::empty() + rgb_swatches(bits) =~= rgb_swatches(bits));
}

/// Reading an exported palette gives back its name (when not empty) and
/// every swatch's channel bit patterns, in order.
pub proof fn law_ase_roundtrip(name: Seq<char>, bits: Seq<[u32; 3]>)
    requires
        bits.len() + 2 <= u32::MAX,
        utf16_of(name).len() + 1 < 0x1_0000,
    ensures
        ase_parse(ase_file(name, bits)) == Ok::<(Option<Seq<char>>, Seq<AseColor>), AseError>(
            (
                if name.len() > 0 {
                    Some(name)
                } else {
                    None
                },
                rgb_swatches(bits),
            ),
        ),
{
    lemma_utf16_roundtrip(name);
    lemma_ase_layout(name, bits);
    lemma_parse_layout(ase_file(name, bits), name, bits);
}

// ---------------------------------------------------------------------------
// Which group names the palette
// ---------------------------------------------------------------------------

/// Offset of the block after the one at `pos`: its stated end, or the end
/// of the data when that lies beyond it.
pub open spec fn block_next(d: Seq<u8>, pos: int) -> int {
    let end = pos + 6 + be_u32_at(d, pos + 2);
    if end > d.len() {
        d.len() as int
    } else {
        end
    }
}

/// Offset of the `i`-th block of the chain that starts at `pos`.
pub open spec fn nth_block(d: Seq<u8>, pos: int, i: nat) -> int
    decreases i,
{
    if i == 0 {
        pos
    } else {
        nth_block(d, block_next(d, pos), (i - 1) as nat)
    }
}

/// The name the block at `p` gives its group: the decoded name of a
/// group-start block when it is not empty, `None` for any other block.
pub open spec fn group_label(d: Seq<u8>, p: int) -> Option<Seq<char>> {
    if p + 6 <= d.len() && be_u16_at(d, p) == 0xC001 {
        match name_at(d, p + 6) {
            Some((us, _)) => if utf16_lossy(us).len() > 0 {
                Some(utf16_lossy(us))
            } else {
                None
            },
            None => None,
        }
    } else {
        None
    }
}

/// A name already found is never replaced by a later block.
proof fn lemma_scan_name_kept(d: Seq<u8>, pos: int, k: int, n: Seq<char>, cs: Seq<AseColor>)
    ensures
        scan_blocks(d, pos, k, Some(n), cs) matches Ok((m, _)) ==> m == Some(n),
    decreases k,
{
    if k > 0 && pos + 6 <= d.len() {
        let next = block_next(d, pos);
        let typ = be_u16_at(d, pos);
        if typ == 0x0001 {
            match name_at(d, pos + 6) {
                Some((_, p)) => {
                    if p + 4 <= d.len() {
                        match color_at(d, p) {
                            Some(Some(c)) => lemma_scan_name_kept(d, next, k - 1, n, cs.push(c)),
                            _ => lemma_scan_name_kept(d, next, k - 1, n, cs),
                        }
                    }
                },
                None => {},
            }
        } else {
            lemma_scan_name_kept(d, next, k - 1, n, cs);
        }
    }
}

/// Blocks that give no group a name leave the name as it was.
proof fn lemma_scan_no_label(d: Seq<u8>, pos: int, k: int, name: Option<Seq<char>>, cs: Seq<AseColor>)
    requires
        forall|j: nat| j < k ==> group_label(d, #[trigger] nth_block(d, pos, j)) is None,
    ensures
        scan_blocks(d, pos, k, name, cs) matches Ok((m, _)) ==> m == name,
    decreases k,
{
    if k > 0 && pos + 6 <= d.len() {
        let next = block_next(d, pos);
        let typ = be_u16_at(d, pos);
        assert(nth_block(d, pos, 0) == pos);
        assert(group_label(d, pos) is None);
        assert forall|j: nat| j < k - 1 implies group_label(d, #[trigger] nth_block(d, next, j)) is None by {
            assert(nth_block(d, pos, j + 1) == nth_block(d, next, j));
        }
        if typ == 0x0001 {
            match name_at(d, pos + 6) {
                Some((_, p)) => {
                    if p + 4 <= d.len() {
                        match color_at(d, p) {
                            Some(Some(c)) => lemma_scan_no_label(d, next, k - 1, name, cs.push(c)),
                            _ => lemma_scan_no_label(d, next, k - 1, name, cs),
                        }
                    }
                },
                None => {},
            }
        } else {
            lemma_scan_no_label(d, next, k - 1, name, cs);
        }
    }
}

/// With no name found yet, the `i`-th block names the palette when it is
/// the first block that gives a group a name.
proof fn lemma_scan_first_label(d: Seq<u8>, pos: int, k: int, cs: Seq<AseColor>, i: nat)
    requires
        i < k,
        group_label(d, nth_block(d, pos, i)) is Some,
        forall|j: nat| j < i ==> group_label(d, #[trigger] nth_block(d, pos, j)) is None,
    ensures
        scan_blocks(d, pos, k, None, cs) matches Ok((m, _)) ==> m == group_label(d, nth_block(d, pos, i)),
    decreases i,
{
    let next = block_next(d, pos);
    let typ = be_u16_at(d, pos);
    if i == 0 {
        assert(nth_block(d, pos, 0) == pos);
        match name_at(d, pos + 6) {
            Some((us, _)) => lemma_scan_name_kept(d, next, k - 1, utf16_lossy(us), cs),
            None => {},
        }
    } else {
        assert(nth_block(d, pos, 0) == pos);
        assert(group_label(d, pos) is None);
        assert(nth_block(d, pos, i) == nth_block(d, next, (i - 1) as nat));
        assert forall|j: nat| j < i - 1 implies group_label(d, #[trigger] nth_block(d, next, j)) is None by {
            assert(nth_block(d, pos, j + 1) == nth_block(d, next, j));
        }
        if pos + 6 <= d.len() {
            if typ == 0x0001 {
                match name_at(d, pos + 6) {
                    Some((_, p)) => {
                        if p + 4 <= d.len() {
                            match color_at(d, p) {
                                Some(Some(c)) => lemma_scan_first_label(d, next, k - 1, cs.push(c), (i - 1) as nat),
                                _ => lemma_scan_first_label(d, next, k - 1, cs, (i - 1) as nat),
                            }
                        }
                    },
                    None => {},
                }
            } else {
                lemma_scan_first_label(d, next, k - 1, cs, (i - 1) as nat);
            }
        }
    }
}

/// The palette's name is that of the first group whose name is not empty:
/// when block `i` of the file is a group start with a non-empty name and no
/// block before it is, a successful read names the palette after block `i`,
/// whatever later groups are called.
pub proof fn law_ase_first_group_name(d: Seq<u8>, i: nat)
    requires
        i < be_u32_at(d, 8),
        group_label(d, nth_block(d, 12, i)) is Some,
        forall|j: nat| j < i ==> group_label(d, #[trigger] nth_block(d, 12, j)) is None,
    ensures
        ase_parse(d) matches Ok((name, _)) ==> name == group_label(d, nth_block(d, 12, i)),
{
    lemma_scan_first_label(d, 12, be_u32_at(d, 8) as int, Seq::empty(), i);
}

/// A file none of whose groups has a non-empty name reads with no name.
pub proof fn law_ase_no_group_name(d: Seq<u8>)
    requires
        forall|j: nat| j < be_u32_at(d, 8) ==> group_label(d, #[trigger] nth_block(d, 12, j)) is None,
    ensures
        ase_parse(d) matches Ok((name, _)) ==> name is None,
{
    lemma_scan_no_label(d, 12, be_u32_at(d, 8) as int, None, Seq::empty());
}

} // verus!
