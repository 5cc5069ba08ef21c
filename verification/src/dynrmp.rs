//! Byte-level readers and writers for the tagged-record format used by the
//! stats datagrams and the on-disk frame logs.
//!
//! Every value is a marker byte followed by big-endian payload bytes.  The
//! writers emit the shortest form for a value; the readers accept every form
//! of the right kind.  The spec functions `enc_*` give the written bytes and
//! the `parse_*` functions give the reading relation; the `lemma_parse_*_enc`
//! lemmas show that reading inverts writing.

use vstd::prelude::*;

verus! {

use vstd::string::StringSliceAdditionalSpecFns;

/// Error from a reader: the input ended inside a value, the marker was of the
/// wrong kind, an integer did not fit the requested width, or a string
/// payload was not decodable text.
#[derive(Debug, Clone, Copy, PartialEq, Eq, Structural)]
pub enum DError {
    Eof,
    TypeMismatch,
    IntOutOfRange,
    StringData,
}

// ---- big-endian payloads ----

pub open spec fn be16(v: u16) -> Seq<u8> {
    seq![(v / 256) as u8, (v % 256) as u8]
}

pub open spec fn be32(v: u32) -> Seq<u8> {
    be16((v / 0x10000) as u16) + be16((v % 0x10000) as u16)
}

pub open spec fn be64(v: u64) -> Seq<u8> {
    be32((v / 0x100000000) as u32) + be32((v % 0x100000000) as u32)
}

/// Value of the 2 bytes at `pos` read big-endian.
pub open spec fn sval16(s: Seq<u8>, pos: int) -> int {
    s[pos] * 256 + s[pos + 1]
}

/// Value of the 4 bytes at `pos` read big-endian.
pub open spec fn sval32(s: Seq<u8>, pos: int) -> int {
    sval16(s, pos) * 0x10000 + sval16(s, pos + 2)
}

/// Value of the 8 bytes at `pos` read big-endian.
pub open spec fn sval64(s: Seq<u8>, pos: int) -> int {
    sval32(s, pos) * 0x100000000 + sval32(s, pos + 4)
}

// ---- encodings (what the writers emit) ----

/// Shortest unsigned-integer form: positive fixint, u8, u16, u32 or u64.
pub open spec fn enc_uint(v: u64) -> Seq<u8> {
    if v < 0x80 {
        seq![v as u8]
    } else if v < 0x100 {
        seq![0xcc_u8, v as u8]
    } else if v < 0x10000 {
        seq![0xcd_u8] + be16(v as u16)
    } else if v < 0x100000000 {
        seq![0xce_u8] + be32(v as u32)
    } else {
        seq![0xcf_u8] + be64(v)
    }
}

/// Shortest signed-integer form: the unsigned forms for `v >= 0`, negative
/// fixint, i8, i16, i32 or i64 below zero.
pub open spec fn enc_sint(v: i64) -> Seq<u8> {
    if v >= 0 {
        enc_uint(v as u64)
    } else if v >= -32 {
        seq![(v + 256) as u8]
    } else if v >= -0x80 {
        seq![0xd0_u8, (v + 256) as u8]
    } else if v >= -0x8000 {
        seq![0xd1_u8] + be16((v + 0x10000) as u16)
    } else if v >= -0x80000000 {
        seq![0xd2_u8] + be32((v + 0x100000000) as u32)
    } else {
        seq![0xd3_u8] + be64((v + 0x8000000000000000 + 0x8000000000000000) as u64)
    }
}

/// Fixed-width u16 form, marker 0xcd.
pub open spec fn enc_u16(v: u16) -> Seq<u8> {
    seq![0xcd_u8] + be16(v)
}

/// Fixed-width u32 form, marker 0xce.
pub open spec fn enc_u32(v: u32) -> Seq<u8> {
    seq![0xce_u8] + be32(v)
}

pub open spec fn enc_nil() -> Seq<u8> {
    seq![0xc0_u8]
}

pub open spec fn enc_bool(b: bool) -> Seq<u8> {
    if b {
        seq![0xc3_u8]
    } else {
        seq![0xc2_u8]
    }
}

/// A 64-bit float, carried as its raw bit pattern.
pub open spec fn enc_f64bits(bits: u64) -> Seq<u8> {
    seq![0xcb_u8] + be64(bits)
}

/// String header (shortest form) followed by the payload bytes.
pub open spec fn enc_strbytes(b: Seq<u8>) -> Seq<u8> {
    if b.len() < 32 {
        seq![(0xa0 + b.len()) as u8] + b
    } else if b.len() < 0x100 {
        seq![0xd9_u8, b.len() as u8] + b
    } else if b.len() < 0x10000 {
        seq![0xda_u8] + be16(b.len() as u16) + b
    } else {
        seq![0xdb_u8] + be32(b.len() as u32) + b
    }
}

/// Array header (shortest form); the elements follow it.
pub open spec fn enc_array_len(n: u32) -> Seq<u8> {
    if n < 16 {
        seq![(0x90 + n) as u8]
    } else if n < 0x10000 {
        seq![0xdc_u8] + be16(n as u16)
    } else {
        seq![0xdd_u8] + be32(n)
    }
}

/// Map header (shortest form); the pairs follow it.
pub open spec fn enc_map_len(n: u32) -> Seq<u8> {
    if n < 16 {
        seq![(0x80 + n) as u8]
    } else if n < 0x10000 {
        seq![0xde_u8] + be16(n as u16)
    } else {
        seq![0xdf_u8] + be32(n)
    }
}

// ---- reading relations ----

/// Reads any integer form at `pos`; the value must fit an i64.
pub open spec fn parse_int(s: Seq<u8>, pos: int) -> Option<(i64, int)> {
    if pos < 0 || pos >= s.len() {
        None
    } else {
        let m = s[pos];
        if m < 0x80 {
            Some((m as i64, pos + 1))
        } else if m >= 0xe0 {
            Some(((m - 256) as i64, pos + 1))
        } else if m == 0xcc {
            if pos + 2 <= s.len() {
                Some((s[pos + 1] as i64, pos + 2))
            } else {
                None
            }
        } else if m == 0xcd {
            if pos + 3 <= s.len() {
                Some((sval16(s, pos + 1) as i64, pos + 3))
            } else {
                None
            }
        } else if m == 0xce {
            if pos + 5 <= s.len() {
                Some((sval32(s, pos + 1) as i64, pos + 5))
            } else {
                None
            }
        } else if m == 0xcf {
            if pos + 9 <= s.len() && sval64(s, pos + 1) <= i64::MAX {
                Some((sval64(s, pos + 1) as i64, pos + 9))
            } else {
                None
            }
        } else if m == 0xd0 {
            if pos + 2 <= s.len() {
                let b = s[pos + 1];
                Some((if b < 0x80 { b as i64 } else { (b - 256) as i64 }, pos + 2))
            } else {
                None
            }
        } else if m == 0xd1 {
            if pos + 3 <= s.len() {
                let v = sval16(s, pos + 1);
                Some((if v < 0x8000 { v as i64 } else { (v - 0x10000) as i64 }, pos + 3))
            } else {
                None
            }
        } else if m == 0xd2 {
            if pos + 5 <= s.len() {
                let v = sval32(s, pos + 1);
                Some((if v < 0x80000000 { v as i64 } else { (v - 0x100000000) as i64 }, pos + 5))
            } else {
                None
            }
        } else if m == 0xd3 {
            if pos + 9 <= s.len() {
                let v = sval64(s, pos + 1);
                Some((
                    if v <= i64::MAX { v as i64 } else { (v - 0x8000000000000000 - 0x8000000000000000) as i64 },
                    pos + 9,
                ))
            } else {
                None
            }
        } else {
            None
        }
    }
}

/// Reads exactly the fixed-width u16 form.
pub open spec fn parse_u16(s: Seq<u8>, pos: int) -> Option<(u16, int)> {
    if 0 <= pos && pos + 3 <= s.len() && s[pos] == 0xcd {
        Some((sval16(s, pos + 1) as u16, pos + 3))
    } else {
        None
    }
}

/// Reads exactly the fixed-width u32 form.
pub open spec fn parse_u32(s: Seq<u8>, pos: int) -> Option<(u32, int)> {
    if 0 <= pos && pos + 5 <= s.len() && s[pos] == 0xce {
        Some((sval32(s, pos + 1) as u32, pos + 5))
    } else {
        None
    }
}

pub open spec fn parse_nil(s: Seq<u8>, pos: int) -> Option<int> {
    if 0 <= pos && pos < s.len() && s[pos] == 0xc0 {
        Some(pos + 1)
    } else {
        None
    }
}

pub open spec fn parse_bool(s: Seq<u8>, pos: int) -> Option<(bool, int)> {
    if 0 <= pos && pos < s.len() && (s[pos] == 0xc2 || s[pos] == 0xc3) {
        Some((s[pos] == 0xc3, pos + 1))
    } else {
        None
    }
}

pub open spec fn parse_f64bits(s: Seq<u8>, pos: int) -> Option<(u64, int)> {
    if 0 <= pos && pos + 9 <= s.len() && s[pos] == 0xcb {
        Some((sval64(s, pos + 1) as u64, pos + 9))
    } else {
        None
    }
}

/// Reads a string header of any width and returns the payload bytes.
pub open spec fn parse_strbytes(s: Seq<u8>, pos: int) -> Option<(Seq<u8>, int)> {
    if pos < 0 || pos >= s.len() {
        None
    } else {
        let m = s[pos];
        if 0xa0 <= m && m < 0xc0 {
            let n = m - 0xa0;
            if pos + 1 + n <= s.len() {
                Some((s.subrange(pos + 1, pos + 1 + n), pos + 1 + n))
            } else {
                None
            }
        } else if m == 0xd9 {
            if pos + 2 <= s.len() {
                let n = s[pos + 1] as int;
                if pos + 2 + n <= s.len() {
                    Some((s.subrange(pos + 2, pos + 2 + n), pos + 2 + n))
                } else {
                    None
                }
            } else {
                None
            }
        } else if m == 0xda {
            if pos + 3 <= s.len() {
                let n = sval16(s, pos + 1);
                if pos + 3 + n <= s.len() {
                    Some((s.subrange(pos + 3, pos + 3 + n), pos + 3 + n))
                } else {
                    None
                }
            } else {
                None
            }
        } else if m == 0xdb {
            if pos + 5 <= s.len() {
                let n = sval32(s, pos + 1);
                if pos + 5 + n <= s.len() {
                    Some((s.subrange(pos + 5, pos + 5 + n), pos + 5 + n))
                } else {
                    None
                }
            } else {
                None
            }
        } else {
            None
        }
    }
}

/// Reads a binary header of any width and returns the payload bytes.
pub open spec fn parse_bin(s: Seq<u8>, pos: int) -> Option<(Seq<u8>, int)> {
    match parse_bin_len(s, pos) {
        Some((n, p1)) => if p1 + n <= s.len() {
            Some((s.subrange(p1, p1 + n), p1 + n))
        } else {
            None
        },
        None => None,
    }
}

/// Reads a binary header of any width.
pub open spec fn parse_bin_len(s: Seq<u8>, pos: int) -> Option<(int, int)> {
    if pos < 0 || pos >= s.len() {
        None
    } else {
        let m = s[pos];
        if m == 0xc4 {
            if pos + 2 <= s.len() {
                Some((s[pos + 1] as int, pos + 2))
            } else {
                None
            }
        } else if m == 0xc5 {
            if pos + 3 <= s.len() {
                Some((sval16(s, pos + 1), pos + 3))
            } else {
                None
            }
        } else if m == 0xc6 {
            if pos + 5 <= s.len() {
                Some((sval32(s, pos + 1), pos + 5))
            } else {
                None
            }
        } else {
            None
        }
    }
}

/// Reads an array header of any width.
pub open spec fn parse_array_len(s: Seq<u8>, pos: int) -> Option<(u32, int)> {
    if pos < 0 || pos >= s.len() {
        None
    } else {
        let m = s[pos];
        if 0x90 <= m && m < 0xa0 {
            Some(((m - 0x90) as u32, pos + 1))
        } else if m == 0xdc {
            if pos + 3 <= s.len() {
                Some((sval16(s, pos + 1) as u32, pos + 3))
            } else {
                None
            }
        } else if m == 0xdd {
            if pos + 5 <= s.len() {
                Some((sval32(s, pos + 1) as u32, pos + 5))
            } else {
                None
            }
        } else {
            None
        }
    }
}

/// Reads a map header of any width.
pub open spec fn parse_map_len(s: Seq<u8>, pos: int) -> Option<(u32, int)> {
    if pos < 0 || pos >= s.len() {
        None
    } else {
        let m = s[pos];
        if 0x80 <= m && m < 0x90 {
            Some(((m - 0x80) as u32, pos + 1))
        } else if m == 0xde {
            if pos + 3 <= s.len() {
                Some((sval16(s, pos + 1) as u32, pos + 3))
            } else {
                None
            }
        } else if m == 0xdf {
            if pos + 5 <= s.len() {
                Some((sval32(s, pos + 1) as u32, pos + 5))
            } else {
                None
            }
        } else {
            None
        }
    }
}

// ---- ascii text ----

pub open spec fn is_ascii_bytes(b: Seq<u8>) -> bool {
    forall|i: int| 0 <= i < b.len() ==> b[i] < 0x80
}

pub open spec fn ascii_seq(b: Seq<u8>) -> Seq<char> {
    Seq::new(b.len(), |i: int| b[i] as char)
}

/// Relies on String::from_utf8: it returns the string of exactly the given
/// bytes when they are valid UTF-8, and ASCII bytes are the ASCII characters.
#[verifier::external_body]
pub fn bytes_to_string(v: Vec<u8>) -> (r: Option<String>)
    ensures
        r matches Some(s) ==> (is_ascii_bytes(v@) ==> s@ == ascii_seq(v@)),
        r is None ==> !is_ascii_bytes(v@),
{
    String::from_utf8(v).ok()
}

// ---- writers ----

pub fn write_uint(out: &mut Vec<u8>, v: u64)
    ensures
        final(out)@ == old(out)@ + enc_uint(v),
{
    if v < 0x80 {
        out.push(v as u8);
    } else if v < 0x100 {
        out.push(0xcc);
        out.push(v as u8);
    } else if v < 0x10000 {
        out.push(0xcd);
        push_be16(out, v as u16);
    } else if v < 0x100000000 {
        out.push(0xce);
        push_be32(out, v as u32);
    } else {
        out.push(0xcf);
        push_be64(out, v);
    }
    assert(final(out)@ =~= old(out)@ + enc_uint(v));
}

pub fn write_sint(out: &mut Vec<u8>, v: i64)
    ensures
        final(out)@ == old(out)@ + enc_sint(v),
{
    if v >= 0 {
        write_uint(out, v as u64);
    } else if v >= -32 {
        out.push((v + 256) as u8);
    } else if v >= -0x80 {
        out.push(0xd0);
        out.push((v + 256) as u8);
    } else if v >= -0x8000 {
        out.push(0xd1);
        push_be16(out, (v + 0x10000) as u16);
    } else if v >= -0x80000000 {
        out.push(0xd2);
        push_be32(out, (v + 0x100000000) as u32);
    } else {
        out.push(0xd3);
        let w: u64 = ((v as i128) + 0x10000000000000000_i128) as u64;
        push_be64(out, w);
    }
    assert(final(out)@ =~= old(out)@ + enc_sint(v));
}

pub fn write_u16(out: &mut Vec<u8>, v: u16)
    ensures
        final(out)@ == old(out)@ + enc_u16(v),
{
    out.push(0xcd);
    push_be16(out, v);
    assert(final(out)@ =~= old(out)@ + enc_u16(v));
}

pub fn write_u32(out: &mut Vec<u8>, v: u32)
    ensures
        final(out)@ == old(out)@ + enc_u32(v),
{
    out.push(0xce);
    push_be32(out, v);
    assert(final(out)@ =~= old(out)@ + enc_u32(v));
}

pub fn write_nil(out: &mut Vec<u8>)
    ensures
        final(out)@ == old(out)@ + enc_nil(),
{
    out.push(0xc0);
    assert(final(out)@ =~= old(out)@ + enc_nil());
}

pub fn write_bool(out: &mut Vec<u8>, b: bool)
    ensures
        final(out)@ == old(out)@ + enc_bool(b),
{
    if b {
        out.push(0xc3);
    } else {
        out.push(0xc2);
    }
    assert(final(out)@ =~= old(out)@ + enc_bool(b));
}

pub fn write_f64bits(out: &mut Vec<u8>, bits: u64)
    ensures
        final(out)@ == old(out)@ + enc_f64bits(bits),
{
    out.push(0xcb);
    push_be64(out, bits);
    assert(final(out)@ =~= old(out)@ + enc_f64bits(bits));
}

pub fn write_str(out: &mut Vec<u8>, s: &str)
    requires
        s.spec_bytes().len() < 0x100000000,
    ensures
        final(out)@ == old(out)@ + enc_strbytes(s.spec_bytes()),
{
    let b = s.as_bytes();
    let n = b.len();
    if n < 32 {
        out.push((0xa0 + n) as u8);
    } else if n < 0x100 {
        out.push(0xd9);
        out.push(n as u8);
    } else if n < 0x10000 {
        out.push(0xda);
        push_be16(out, n as u16);
    } else {
        out.push(0xdb);
        push_be32(out, n as u32);
    }
    let mut i: usize = 0;
    while i < n
        invariant
            i <= n,
            n == b@.len(),
            b@ == s.spec_bytes(),
            out@ == old(out)@ + enc_strbytes(s.spec_bytes()).take(
                enc_strbytes(s.spec_bytes()).len() - n + i,
            ),
        decreases n - i,
    {
        out.push(b[i]);
        proof {
            let e = enc_strbytes(s.spec_bytes());
            assert(e.take(e.len() - n + i + 1) =~= e.take(e.len() - n + i).push(b@[i as int]));
        }
        i += 1;
    }
    proof {
        let e = enc_strbytes(s.spec_bytes());
        assert(e.take(e.len() as int) =~= e);
    }
}

/// Writes a string header and payload from raw bytes.
pub fn write_strbytes(out: &mut Vec<u8>, b: &[u8])
    requires
        b@.len() < 0x100000000,
    ensures
        final(out)@ == old(out)@ + enc_strbytes(b@),
{
    let n = b.len();
    if n < 32 {
        out.push((0xa0 + n) as u8);
    } else if n < 0x100 {
        out.push(0xd9);
        out.push(n as u8);
    } else if n < 0x10000 {
        out.push(0xda);
        push_be16(out, n as u16);
    } else {
        out.push(0xdb);
        push_be32(out, n as u32);
    }
    let mut i: usize = 0;
    while i < n
        invariant
            i <= n,
            n == b@.len(),
            out@ == old(out)@ + enc_strbytes(b@).take(enc_strbytes(b@).len() - n + i),
        decreases n - i,
    {
        out.push(b[i]);
        proof {
            let e = enc_strbytes(b@);
            assert(e.take(e.len() - n + i + 1) =~= e.take(e.len() - n + i).push(b@[i as int]));
        }
        i += 1;
    }
    proof {
        let e = enc_strbytes(b@);
        assert(e.take(e.len() as int) =~= e);
    }
}

/// True exactly when the two byte strings are equal.
pub fn bytes_eq(a: &[u8], b: &[u8]) -> (r: bool)
    ensures
        r <==> a@ == b@,
{
    if a.len() != b.len() {
        proof {
            assert(a@.len() != b@.len());
        }
        return false;
    }
    let n = a.len();
    let mut i: usize = 0;
    while i < n
        invariant
            i <= n,
            n == a@.len() && n == b@.len(),
            forall|k: int| 0 <= k < i ==> a@[k] == b@[k],
        decreases n - i,
    {
        if a[i] != b[i] {
            return false;
        }
        i += 1;
    }
    proof {
        assert(a@ =~= b@);
    }
    true
}

pub fn write_array_len(out: &mut Vec<u8>, n: u32)
    ensures
        final(out)@ == old(out)@ + enc_array_len(n),
{
    if n < 16 {
        out.push((0x90 + n) as u8);
    } else if n < 0x10000 {
        out.push(0xdc);
        push_be16(out, n as u16);
    } else {
        out.push(0xdd);
        push_be32(out, n);
    }
    assert(final(out)@ =~= old(out)@ + enc_array_len(n));
}

pub fn write_map_len(out: &mut Vec<u8>, n: u32)
    ensures
        final(out)@ == old(out)@ + enc_map_len(n),
{
    if n < 16 {
        out.push((0x80 + n) as u8);
    } else if n < 0x10000 {
        out.push(0xde);
        push_be16(out, n as u16);
    } else {
        out.push(0xdf);
        push_be32(out, n);
    }
    assert(final(out)@ =~= old(out)@ + enc_map_len(n));
}

fn push_be16(out: &mut Vec<u8>, v: u16)
    ensures
        final(out)@ == old(out)@ + be16(v),
{
    out.push((v / 256) as u8);
    out.push((v % 256) as u8);
    assert(final(out)@ =~= old(out)@ + be16(v));
}

fn push_be32(out: &mut Vec<u8>, v: u32)
    ensures
        final(out)@ == old(out)@ + be32(v),
{
    push_be16(out, (v / 0x10000) as u16);
    push_be16(out, (v % 0x10000) as u16);
    assert(final(out)@ =~= old(out)@ + be32(v));
}

fn push_be64(out: &mut Vec<u8>, v: u64)
    ensures
        final(out)@ == old(out)@ + be64(v),
{
    push_be32(out, (v / 0x100000000) as u32);
    push_be32(out, (v % 0x100000000) as u32);
    assert(final(out)@ =~= old(out)@ + be64(v));
}

// ---- readers ----

fn get_be16(buf: &[u8], pos: usize) -> (v: u16)
    requires
        pos + 2 <= buf@.len(),
        buf@.len() <= usize::MAX,
    ensures
        v == sval16(buf@, pos as int),
{
    (buf[pos] as u16) * 256 + (buf[pos + 1] as u16)
}

fn get_be32(buf: &[u8], pos: usize) -> (v: u32)
    requires
        pos + 4 <= buf@.len(),
        buf@.len() <= usize::MAX,
    ensures
        v == sval32(buf@, pos as int),
{
    (get_be16(buf, pos) as u32) * 0x10000 + (get_be16(buf, pos + 2) as u32)
}

fn get_be64(buf: &[u8], pos: usize) -> (v: u64)
    requires
        pos + 8 <= buf@.len(),
        buf@.len() <= usize::MAX,
    ensures
        v == sval64(buf@, pos as int),
{
    let hi = get_be32(buf, pos);
    let lo = get_be32(buf, pos + 4);
    (hi as u64) * 0x100000000 + (lo as u64)
}

pub fn read_int(buf: &[u8], pos: usize) -> (r: Result<(i64, usize), DError>)
    ensures
        match r {
            Ok((v, p2)) => parse_int(buf@, pos as int) == Some((v, p2 as int)),
            Err(_) => parse_int(buf@, pos as int) is None,
        },
{
    if pos >= buf.len() {
        return Err(DError::Eof);
    }
    let m = buf[pos];
    if m < 0x80 {
        Ok((m as i64, pos + 1))
    } else if m >= 0xe0 {
        Ok((m as i64 - 256, pos + 1))
    } else if m == 0xcc {
        if buf.len() - pos >= 2 {
            Ok((buf[pos + 1] as i64, pos + 2))
        } else {
            Err(DError::Eof)
        }
    } else if m == 0xcd {
        if buf.len() - pos >= 3 {
            Ok((get_be16(buf, pos + 1) as i64, pos + 3))
        } else {
            Err(DError::Eof)
        }
    } else if m == 0xce {
        if buf.len() - pos >= 5 {
            Ok((get_be32(buf, pos + 1) as i64, pos + 5))
        } else {
            Err(DError::Eof)
        }
    } else if m == 0xcf {
        if buf.len() - pos >= 9 {
            let v = get_be64(buf, pos + 1);
            if v <= i64::MAX as u64 {
                Ok((v as i64, pos + 9))
            } else {
                Err(DError::IntOutOfRange)
            }
        } else {
            Err(DError::Eof)
        }
    } else if m == 0xd0 {
        if buf.len() - pos >= 2 {
            let b = buf[pos + 1];
            Ok((if b < 0x80 { b as i64 } else { b as i64 - 256 }, pos + 2))
        } else {
            Err(DError::Eof)
        }
    } else if m == 0xd1 {
        if buf.len() - pos >= 3 {
            let v = get_be16(buf, pos + 1);
            Ok((if v < 0x8000 { v as i64 } else { v as i64 - 0x10000 }, pos + 3))
        } else {
            Err(DError::Eof)
        }
    } else if m == 0xd2 {
        if buf.len() - pos >= 5 {
            let v = get_be32(buf, pos + 1);
            Ok((if v < 0x80000000 { v as i64 } else { v as i64 - 0x100000000 }, pos + 5))
        } else {
            Err(DError::Eof)
        }
    } else if m == 0xd3 {
        if buf.len() - pos >= 9 {
            let v = get_be64(buf, pos + 1);
            if v <= i64::MAX as u64 {
                Ok((v as i64, pos + 9))
            } else {
                let w: i64 = ((v as i128) - 0x10000000000000000_i128) as i64;
                Ok((w, pos + 9))
            }
        } else {
            Err(DError::Eof)
        }
    } else {
        Err(DError::TypeMismatch)
    }
}

pub fn read_u16(buf: &[u8], pos: usize) -> (r: Result<(u16, usize), DError>)
    ensures
        match r {
            Ok((v, p2)) => parse_u16(buf@, pos as int) == Some((v, p2 as int)),
            Err(_) => parse_u16(buf@, pos as int) is None,
        },
{
    if pos < buf.len() && buf[pos] == 0xcd {
        if buf.len() - pos >= 3 {
            Ok((get_be16(buf, pos + 1), pos + 3))
        } else {
            Err(DError::Eof)
        }
    } else if pos >= buf.len() {
        Err(DError::Eof)
    } else {
        Err(DError::TypeMismatch)
    }
}

pub fn read_u32(buf: &[u8], pos: usize) -> (r: Result<(u32, usize), DError>)
    ensures
        match r {
            Ok((v, p2)) => parse_u32(buf@, pos as int) == Some((v, p2 as int)),
            Err(_) => parse_u32(buf@, pos as int) is None,
        },
{
    if pos < buf.len() && buf[pos] == 0xce {
        if buf.len() - pos >= 5 {
            Ok((get_be32(buf, pos + 1), pos + 5))
        } else {
            Err(DError::Eof)
        }
    } else if pos >= buf.len() {
        Err(DError::Eof)
    } else {
        Err(DError::TypeMismatch)
    }
}

pub fn read_nil(buf: &[u8], pos: usize) -> (r: Result<usize, DError>)
    ensures
        match r {
            Ok(p2) => parse_nil(buf@, pos as int) == Some(p2 as int),
            Err(_) => parse_nil(buf@, pos as int) is None,
        },
{
    if pos < buf.len() && buf[pos] == 0xc0 {
        Ok(pos + 1)
    } else if pos >= buf.len() {
        Err(DError::Eof)
    } else {
        Err(DError::TypeMismatch)
    }
}

pub fn read_bool(buf: &[u8], pos: usize) -> (r: Result<(bool, usize), DError>)
    ensures
        match r {
            Ok((v, p2)) => parse_bool(buf@, pos as int) == Some((v, p2 as int)),
            Err(_) => parse_bool(buf@, pos as int) is None,
        },
{
    if pos < buf.len() && (buf[pos] == 0xc2 || buf[pos] == 0xc3) {
        Ok((buf[pos] == 0xc3, pos + 1))
    } else if pos >= buf.len() {
        Err(DError::Eof)
    } else {
        Err(DError::TypeMismatch)
    }
}

pub fn read_f64bits(buf: &[u8], pos: usize) -> (r: Result<(u64, usize), DError>)
    ensures
        match r {
            Ok((v, p2)) => parse_f64bits(buf@, pos as int) == Some((v, p2 as int)),
            Err(_) => parse_f64bits(buf@, pos as int) is None,
        },
{
    if pos < buf.len() && buf[pos] == 0xcb {
        if buf.len() - pos >= 9 {
            Ok((get_be64(buf, pos + 1), pos + 9))
        } else {
            Err(DError::Eof)
        }
    } else if pos >= buf.len() {
        Err(DError::Eof)
    } else {
        Err(DError::TypeMismatch)
    }
}

/// Reads a string header and its payload bytes.
pub fn read_strbytes(buf: &[u8], pos: usize) -> (r: Result<(Vec<u8>, usize), DError>)
    ensures
        match r {
            Ok((v, p2)) => parse_strbytes(buf@, pos as int) == Some((v@, p2 as int)),
            Err(_) => parse_strbytes(buf@, pos as int) is None,
        },
{
    if pos >= buf.len() {
        return Err(DError::Eof);
    }
    let m = buf[pos];
    let (n, dstart): (usize, usize) = if 0xa0 <= m && m < 0xc0 {
        ((m - 0xa0) as usize, pos + 1)
    } else if m == 0xd9 {
        if buf.len() - pos >= 2 {
            (buf[pos + 1] as usize, pos + 2)
        } else {
            return Err(DError::Eof);
        }
    } else if m == 0xda {
        if buf.len() - pos >= 3 {
            (get_be16(buf, pos + 1) as usize, pos + 3)
        } else {
            return Err(DError::Eof);
        }
    } else if m == 0xdb {
        if buf.len() - pos >= 5 {
            (get_be32(buf, pos + 1) as usize, pos + 5)
        } else {
            return Err(DError::Eof);
        }
    } else {
        return Err(DError::TypeMismatch);
    };
    if dstart > buf.len() || n > buf.len() - dstart {
        return Err(DError::Eof);
    }
    let mut v: Vec<u8> = Vec::new();
    let mut i: usize = 0;
    while i < n
        invariant
            i <= n,
            dstart + n <= buf@.len(),
            buf@.len() <= usize::MAX,
            v@ == buf@.subrange(dstart as int, dstart + i),
        decreases n - i,
    {
        v.push(buf[dstart + i]);
        proof {
            assert(buf@.subrange(dstart as int, dstart + i + 1) =~= buf@.subrange(
                dstart as int,
                dstart + i,
            ).push(buf@[dstart + i]));
        }
        i += 1;
    }
    Ok((v, dstart + n))
}

/// Reads a string of text; non-text payloads are refused.
pub fn read_str(buf: &[u8], pos: usize) -> (r: Result<(String, usize), DError>)
    ensures
        r matches Ok((st, p2)) ==> (parse_strbytes(buf@, pos as int) matches Some(pb) && pb.1
            == p2 as int && (is_ascii_bytes(pb.0) ==> st@ == ascii_seq(pb.0))),
        parse_strbytes(buf@, pos as int) is None ==> r is Err,
        (parse_strbytes(buf@, pos as int) matches Some(pb) && is_ascii_bytes(pb.0)) ==> r is Ok,
{
    let (v, p2) = match read_strbytes(buf, pos) {
        Ok(x) => x,
        Err(e) => {
            return Err(e);
        },
    };
    match bytes_to_string(v) {
        Some(s) => Ok((s, p2)),
        None => Err(DError::StringData),
    }
}

/// Reads a binary header of any width.
pub fn read_bin_len(buf: &[u8], pos: usize) -> (r: Result<(usize, usize), DError>)
    ensures
        match r {
            Ok((v, p2)) => parse_bin_len(buf@, pos as int) == Some((v as int, p2 as int)),
            Err(_) => parse_bin_len(buf@, pos as int) is None,
        },
{
    if pos >= buf.len() {
        return Err(DError::Eof);
    }
    let m = buf[pos];
    if m == 0xc4 {
        if buf.len() - pos >= 2 {
            Ok((buf[pos + 1] as usize, pos + 2))
        } else {
            Err(DError::Eof)
        }
    } else if m == 0xc5 {
        if buf.len() - pos >= 3 {
            Ok((get_be16(buf, pos + 1) as usize, pos + 3))
        } else {
            Err(DError::Eof)
        }
    } else if m == 0xc6 {
        if buf.len() - pos >= 5 {
            Ok((get_be32(buf, pos + 1) as usize, pos + 5))
        } else {
            Err(DError::Eof)
        }
    } else {
        Err(DError::TypeMismatch)
    }
}

/// Reads a binary header and its payload bytes.
pub fn read_bin(buf: &[u8], pos: usize) -> (r: Result<(Vec<u8>, usize), DError>)
    ensures
        match r {
            Ok((v, p2)) => parse_bin(buf@, pos as int) == Some((v@, p2 as int)),
            Err(_) => parse_bin(buf@, pos as int) is None,
        },
{
    let (n, dstart) = match read_bin_len(buf, pos) {
        Ok(x) => x,
        Err(e) => {
            return Err(e);
        },
    };
    if dstart > buf.len() || n > buf.len() - dstart {
        return Err(DError::Eof);
    }
    let mut v: Vec<u8> = Vec::new();
    let mut i: usize = 0;
    while i < n
        invariant
            i <= n,
            dstart + n <= buf@.len(),
            buf@.len() <= usize::MAX,
            v@ == buf@.subrange(dstart as int, dstart + i),
        decreases n - i,
    {
        v.push(buf[dstart + i]);
        proof {
            assert(buf@.subrange(dstart as int, dstart + i + 1) =~= buf@.subrange(
                dstart as int,
                dstart + i,
            ).push(buf@[dstart + i]));
        }
        i += 1;
    }
    Ok((v, dstart + n))
}

pub fn read_array_len(buf: &[u8], pos: usize) -> (r: Result<(u32, usize), DError>)
    ensures
        match r {
            Ok((v, p2)) => parse_array_len(buf@, pos as int) == Some((v, p2 as int)),
            Err(_) => parse_array_len(buf@, pos as int) is None,
        },
{
    if pos >= buf.len() {
        return Err(DError::Eof);
    }
    let m = buf[pos];
    if 0x90 <= m && m < 0xa0 {
        Ok(((m - 0x90) as u32, pos + 1))
    } else if m == 0xdc {
        if buf.len() - pos >= 3 {
            Ok((get_be16(buf, pos + 1) as u32, pos + 3))
        } else {
            Err(DError::Eof)
        }
    } else if m == 0xdd {
        if buf.len() - pos >= 5 {
            Ok((get_be32(buf, pos + 1), pos + 5))
        } else {
            Err(DError::Eof)
        }
    } else {
        Err(DError::TypeMismatch)
    }
}

pub fn read_map_len(buf: &[u8], pos: usize) -> (r: Result<(u32, usize), DError>)
    ensures
        match r {
            Ok((v, p2)) => parse_map_len(buf@, pos as int) == Some((v, p2 as int)),
            Err(_) => parse_map_len(buf@, pos as int) is None,
        },
{
    if pos >= buf.len() {
        return Err(DError::Eof);
    }
    let m = buf[pos];
    if 0x80 <= m && m < 0x90 {
        Ok(((m - 0x80) as u32, pos + 1))
    } else if m == 0xde {
        if buf.len() - pos >= 3 {
            Ok((get_be16(buf, pos + 1) as u32, pos + 3))
        } else {
            Err(DError::Eof)
        }
    } else if m == 0xdf {
        if buf.len() - pos >= 5 {
            Ok((get_be32(buf, pos + 1), pos + 5))
        } else {
            Err(DError::Eof)
        }
    } else {
        Err(DError::TypeMismatch)
    }
}

// ---- reading inverts writing ----

/// A subrange equal to a concatenation splits at the seam.
pub proof fn lemma_split2(s: Seq<u8>, pos: int, a: Seq<u8>, b: Seq<u8>)
    requires
        0 <= pos,
        pos + a.len() + b.len() <= s.len(),
        s.subrange(pos, pos + a.len() + b.len()) == a + b,
    ensures
        s.subrange(pos, pos + a.len() as int) =~= a,
        s.subrange(pos + a.len(), pos + a.len() + b.len()) =~= b,
{
    assert forall|k: int| 0 <= k < a.len() implies s.subrange(pos, pos + a.len() as int)[k]
        == a[k] by {
        assert(s.subrange(pos, pos + a.len() + b.len())[k] == (a + b)[k]);
    }
    assert forall|k: int| 0 <= k < b.len() implies s.subrange(
        pos + a.len(),
        pos + a.len() + b.len(),
    )[k] == b[k] by {
        assert(s.subrange(pos, pos + a.len() + b.len())[a.len() + k] == (a + b)[a.len() + k]);
        assert(s.subrange(pos, pos + a.len() + b.len())[a.len() + k] == s[pos + a.len() + k]);
        assert(s.subrange(pos + a.len(), pos + a.len() + b.len())[k] == s[pos + a.len() + k]);
    }
}

/// The bytes of a subrange known equal to `e` are the bytes of `e`.
pub proof fn lemma_bytes_at(s: Seq<u8>, pos: int, e: Seq<u8>)
    requires
        0 <= pos,
        pos + e.len() <= s.len(),
        s.subrange(pos, pos + e.len() as int) == e,
    ensures
        forall|i: int| 0 <= i < e.len() ==> s[pos + i] == #[trigger] e[i],
{
    assert forall|i: int| 0 <= i < e.len() implies s[pos + i] == #[trigger] e[i] by {
        assert(s.subrange(pos, pos + e.len() as int)[i] == e[i]);
    }
}

proof fn lemma_sval16_val(s: Seq<u8>, pos: int, v: u16)
    requires
        0 <= pos,
        pos + 2 <= s.len(),
        s[pos] == be16(v)[0],
        s[pos + 1] == be16(v)[1],
    ensures
        sval16(s, pos) == v,
{
    assert(s[pos] == (v / 256) as u8);
    assert(s[pos + 1] == (v % 256) as u8);
}

#[verifier::rlimit(60)]
proof fn lemma_sval32_val(s: Seq<u8>, pos: int, v: u32)
    requires
        0 <= pos,
        pos + 4 <= s.len(),
        s[pos] == be32(v)[0],
        s[pos + 1] == be32(v)[1],
        s[pos + 2] == be32(v)[2],
        s[pos + 3] == be32(v)[3],
    ensures
        sval32(s, pos) == v,
{
    let hi = (v / 0x10000) as u16;
    let lo = (v % 0x10000) as u16;
    assert(be32(v)[0] == be16(hi)[0]);
    assert(be32(v)[1] == be16(hi)[1]);
    assert(be32(v)[2] == be16(lo)[0]);
    assert(be32(v)[3] == be16(lo)[1]);
    lemma_sval16_val(s, pos, hi);
    lemma_sval16_val(s, pos + 2, lo);
}

#[verifier::rlimit(100)]
proof fn lemma_sval64_val(s: Seq<u8>, pos: int, v: u64)
    requires
        0 <= pos,
        pos + 8 <= s.len(),
        s[pos] == be64(v)[0],
        s[pos + 1] == be64(v)[1],
        s[pos + 2] == be64(v)[2],
        s[pos + 3] == be64(v)[3],
        s[pos + 4] == be64(v)[4],
        s[pos + 5] == be64(v)[5],
        s[pos + 6] == be64(v)[6],
        s[pos + 7] == be64(v)[7],
    ensures
        sval64(s, pos) == v,
{
    let hi = (v / 0x100000000) as u32;
    let lo = (v % 0x100000000) as u32;
    assert(be64(v)[0] == be32(hi)[0]);
    assert(be64(v)[1] == be32(hi)[1]);
    assert(be64(v)[2] == be32(hi)[2]);
    assert(be64(v)[3] == be32(hi)[3]);
    assert(be64(v)[4] == be32(lo)[0]);
    assert(be64(v)[5] == be32(lo)[1]);
    assert(be64(v)[6] == be32(lo)[2]);
    assert(be64(v)[7] == be32(lo)[3]);
    lemma_sval32_val(s, pos, hi);
    lemma_sval32_val(s, pos + 4, lo);
}

/// An unsigned value written with `write_uint` reads back as itself.
#[verifier::rlimit(60)]
pub proof fn lemma_parse_int_enc_uint(s: Seq<u8>, pos: int, v: u64)
    requires
        0 <= pos,
        pos + enc_uint(v).len() <= s.len(),
        s.subrange(pos, pos + enc_uint(v).len() as int) == enc_uint(v),
        v <= i64::MAX as u64,
    ensures
        parse_int(s, pos) == Some((v as i64, pos + enc_uint(v).len())),
{
    let e = enc_uint(v);
    lemma_bytes_at(s, pos, e);
    if v < 0x80 {
        assert(s[pos] == e[0]);
    } else if v < 0x100 {
        assert(s[pos] == e[0]);
        assert(s[pos + 1] == e[1]);
    } else if v < 0x10000 {
        assert(s[pos] == e[0]);
        assert(s[pos + 1] == e[1] && e[1] == be16(v as u16)[0]);
        assert(s[pos + 2] == e[2] && e[2] == be16(v as u16)[1]);
        lemma_sval16_val(s, pos + 1, v as u16);
    } else if v < 0x100000000 {
        assert(s[pos] == e[0]);
        assert(s[pos + 1] == e[1] && e[1] == be32(v as u32)[0]);
        assert(s[pos + 2] == e[2] && e[2] == be32(v as u32)[1]);
        assert(s[pos + 3] == e[3] && e[3] == be32(v as u32)[2]);
        assert(s[pos + 4] == e[4] && e[4] == be32(v as u32)[3]);
        lemma_sval32_val(s, pos + 1, v as u32);
    } else {
        assert(s[pos] == e[0]);
        assert forall|i: int| 0 <= i < 8 implies s[pos + 1 + i] == #[trigger] be64(v)[i] by {
            assert(s[pos + (1 + i)] == e[1 + i]);
        }
        assert(s[pos + 1] == be64(v)[0]);
        assert(s[pos + 2] == be64(v)[1]);
        assert(s[pos + 3] == be64(v)[2]);
        assert(s[pos + 4] == be64(v)[3]);
        assert(s[pos + 5] == be64(v)[4]);
        assert(s[pos + 6] == be64(v)[5]);
        assert(s[pos + 7] == be64(v)[6]);
        assert(s[pos + 8] == be64(v)[7]);
        lemma_sval64_val(s, pos + 1, v);
        assert(sval64(s, pos + 1) <= i64::MAX);
    }
}

/// A signed value written with `write_sint` reads back as itself.
#[verifier::rlimit(60)]
pub proof fn lemma_parse_int_enc_sint(s: Seq<u8>, pos: int, v: i64)
    requires
        0 <= pos,
        pos + enc_sint(v).len() <= s.len(),
        s.subrange(pos, pos + enc_sint(v).len() as int) == enc_sint(v),
    ensures
        parse_int(s, pos) == Some((v, pos + enc_sint(v).len())),
{
    let e = enc_sint(v);
    lemma_bytes_at(s, pos, e);
    if v >= 0 {
        lemma_parse_int_enc_uint(s, pos, v as u64);
    } else if v >= -32 {
        assert(s[pos] == e[0]);
    } else if v >= -0x80 {
        assert(s[pos] == e[0]);
        assert(s[pos + 1] == e[1]);
    } else if v >= -0x8000 {
        let w = (v + 0x10000) as u16;
        assert(s[pos] == e[0]);
        assert(s[pos + 1] == e[1] && e[1] == be16(w)[0]);
        assert(s[pos + 2] == e[2] && e[2] == be16(w)[1]);
        lemma_sval16_val(s, pos + 1, w);
    } else if v >= -0x80000000 {
        let w = (v + 0x100000000) as u32;
        assert(s[pos] == e[0]);
        assert(s[pos + 1] == e[1] && e[1] == be32(w)[0]);
        assert(s[pos + 2] == e[2] && e[2] == be32(w)[1]);
        assert(s[pos + 3] == e[3] && e[3] == be32(w)[2]);
        assert(s[pos + 4] == e[4] && e[4] == be32(w)[3]);
        lemma_sval32_val(s, pos + 1, w);
    } else {
        let w = (v + 0x8000000000000000 + 0x8000000000000000) as u64;
        assert(s[pos] == e[0]);
        assert forall|i: int| 0 <= i < 8 implies s[pos + 1 + i] == #[trigger] be64(w)[i] by {
            assert(s[pos + (1 + i)] == e[1 + i]);
        }
        assert(s[pos + 1] == be64(w)[0]);
        assert(s[pos + 2] == be64(w)[1]);
        assert(s[pos + 3] == be64(w)[2]);
        assert(s[pos + 4] == be64(w)[3]);
        assert(s[pos + 5] == be64(w)[4]);
        assert(s[pos + 6] == be64(w)[5]);
        assert(s[pos + 7] == be64(w)[6]);
        assert(s[pos + 8] == be64(w)[7]);
        lemma_sval64_val(s, pos + 1, w);
        assert(w > i64::MAX);
        assert(w - 0x8000000000000000 - 0x8000000000000000 == v);
    }
}

/// A fixed-width u16 reads back as itself.
#[verifier::rlimit(60)]
pub proof fn lemma_parse_u16_enc(s: Seq<u8>, pos: int, v: u16)
    requires
        0 <= pos,
        pos + 3 <= s.len(),
        s.subrange(pos, pos + 3) == enc_u16(v),
    ensures
        parse_u16(s, pos) == Some((v, pos + 3)),
{
    let e = enc_u16(v);
    lemma_bytes_at(s, pos, e);
    assert(s[pos] == e[0]);
    assert(s[pos + 1] == e[1] && e[1] == be16(v)[0]);
    assert(s[pos + 2] == e[2] && e[2] == be16(v)[1]);
    lemma_sval16_val(s, pos + 1, v);
}

/// A fixed-width u32 reads back as itself.
#[verifier::rlimit(60)]
pub proof fn lemma_parse_u32_enc(s: Seq<u8>, pos: int, v: u32)
    requires
        0 <= pos,
        pos + 5 <= s.len(),
        s.subrange(pos, pos + 5) == enc_u32(v),
    ensures
        parse_u32(s, pos) == Some((v, pos + 5)),
{
    let e = enc_u32(v);
    lemma_bytes_at(s, pos, e);
    assert(s[pos] == e[0]);
    assert(s[pos + 1] == e[1] && e[1] == be32(v)[0]);
    assert(s[pos + 2] == e[2] && e[2] == be32(v)[1]);
    assert(s[pos + 3] == e[3] && e[3] == be32(v)[2]);
    assert(s[pos + 4] == e[4] && e[4] == be32(v)[3]);
    lemma_sval32_val(s, pos + 1, v);
}

/// A float's bit pattern reads back as itself.
#[verifier::rlimit(60)]
pub proof fn lemma_parse_f64bits_enc(s: Seq<u8>, pos: int, v: u64)
    requires
        0 <= pos,
        pos + 9 <= s.len(),
        s.subrange(pos, pos + 9) == enc_f64bits(v),
    ensures
        parse_f64bits(s, pos) == Some((v, pos + 9)),
{
    let e = enc_f64bits(v);
    lemma_bytes_at(s, pos, e);
    assert(s[pos] == e[0]);
    assert forall|i: int| 0 <= i < 8 implies s[pos + 1 + i] == #[trigger] be64(v)[i] by {
        assert(s[pos + (1 + i)] == e[1 + i]);
    }
    assert(s[pos + 1] == be64(v)[0]);
    assert(s[pos + 2] == be64(v)[1]);
    assert(s[pos + 3] == be64(v)[2]);
    assert(s[pos + 4] == be64(v)[3]);
    assert(s[pos + 5] == be64(v)[4]);
    assert(s[pos + 6] == be64(v)[5]);
    assert(s[pos + 7] == be64(v)[6]);
    assert(s[pos + 8] == be64(v)[7]);
    lemma_sval64_val(s, pos + 1, v);
}

/// A written string header and payload read back as the same payload.
#[verifier::rlimit(60)]
pub proof fn lemma_parse_strbytes_enc(s: Seq<u8>, pos: int, b: Seq<u8>)
    requires
        0 <= pos,
        pos + enc_strbytes(b).len() <= s.len(),
        s.subrange(pos, pos + enc_strbytes(b).len() as int) == enc_strbytes(b),
        b.len() < 0x100000000,
    ensures
        parse_strbytes(s, pos) == Some((b, pos + enc_strbytes(b).len())),
{
    let e = enc_strbytes(b);
    lemma_bytes_at(s, pos, e);
    let hl = e.len() - b.len();
    assert forall|i: int| 0 <= i < b.len() implies s[pos + hl + i] == #[trigger] b[i] by {
        assert(s[pos + (hl + i)] == e[hl + i]);
        assert(e[hl + i] == b[i]);
    }
    assert(s[pos] == e[0]);
    if b.len() < 32 {
        assert(s.subrange(pos + 1, pos + 1 + b.len() as int) =~= b);
    } else if b.len() < 0x100 {
        assert(s[pos + 1] == e[1]);
        assert(s.subrange(pos + 2, pos + 2 + b.len() as int) =~= b);
    } else if b.len() < 0x10000 {
        let w = b.len() as u16;
        assert(s[pos + 1] == e[1] && e[1] == be16(w)[0]);
        assert(s[pos + 2] == e[2] && e[2] == be16(w)[1]);
        lemma_sval16_val(s, pos + 1, w);
        assert(s.subrange(pos + 3, pos + 3 + b.len() as int) =~= b);
    } else {
        let w = b.len() as u32;
        assert(s[pos + 1] == e[1] && e[1] == be32(w)[0]);
        assert(s[pos + 2] == e[2] && e[2] == be32(w)[1]);
        assert(s[pos + 3] == e[3] && e[3] == be32(w)[2]);
        assert(s[pos + 4] == e[4] && e[4] == be32(w)[3]);
        lemma_sval32_val(s, pos + 1, w);
        assert(s.subrange(pos + 5, pos + 5 + b.len() as int) =~= b);
    }
}

/// A written array header reads back as the same length.
#[verifier::rlimit(60)]
pub proof fn lemma_parse_array_len_enc(s: Seq<u8>, pos: int, n: u32)
    requires
        0 <= pos,
        pos + enc_array_len(n).len() <= s.len(),
        s.subrange(pos, pos + enc_array_len(n).len() as int) == enc_array_len(n),
    ensures
        parse_array_len(s, pos) == Some((n, pos + enc_array_len(n).len())),
{
    let e = enc_array_len(n);
    lemma_bytes_at(s, pos, e);
    assert(s[pos] == e[0]);
    if n < 16 {
    } else if n < 0x10000 {
        let w = n as u16;
        assert(s[pos + 1] == e[1] && e[1] == be16(w)[0]);
        assert(s[pos + 2] == e[2] && e[2] == be16(w)[1]);
        lemma_sval16_val(s, pos + 1, w);
    } else {
        assert(s[pos + 1] == e[1] && e[1] == be32(n)[0]);
        assert(s[pos + 2] == e[2] && e[2] == be32(n)[1]);
        assert(s[pos + 3] == e[3] && e[3] == be32(n)[2]);
        assert(s[pos + 4] == e[4] && e[4] == be32(n)[3]);
        lemma_sval32_val(s, pos + 1, n);
    }
}

/// A written map header reads back as the same length.
#[verifier::rlimit(100)]
pub proof fn lemma_parse_map_len_enc(s: Seq<u8>, pos: int, n: u32)
    requires
        0 <= pos,
        pos + enc_map_len(n).len() <= s.len(),
        s.subrange(pos, pos + enc_map_len(n).len() as int) == enc_map_len(n),
    ensures
        parse_map_len(s, pos) == Some((n, pos + enc_map_len(n).len())),
{
    let e = enc_map_len(n);
    lemma_bytes_at(s, pos, e);
    assert(s[pos] == e[0]);
    if n < 16 {
    } else if n < 0x10000 {
        let w = n as u16;
        assert(s[pos + 1] == e[1] && e[1] == be16(w)[0]);
        assert(s[pos + 2] == e[2] && e[2] == be16(w)[1]);
        lemma_sval16_val(s, pos + 1, w);
    } else {
        assert(s[pos + 1] == e[1] && e[1] == be32(n)[0]);
        assert(s[pos + 2] == e[2] && e[2] == be32(n)[1]);
        assert(s[pos + 3] == e[3] && e[3] == be32(n)[2]);
        assert(s[pos + 4] == e[4] && e[4] == be32(n)[3]);
        lemma_sval32_val(s, pos + 1, n);
    }
}

/// A written nil reads back.
pub proof fn lemma_parse_nil_enc(s: Seq<u8>, pos: int)
    requires
        0 <= pos,
        pos + 1 <= s.len(),
        s.subrange(pos, pos + 1) == enc_nil(),
    ensures
        parse_nil(s, pos) == Some(pos + 1),
{
    assert(s[pos] == enc_nil()[0]) by {
        assert(s.subrange(pos, pos + 1)[0] == enc_nil()[0]);
    }
}

/// A written bool reads back as itself.
pub proof fn lemma_parse_bool_enc(s: Seq<u8>, pos: int, b: bool)
    requires
        0 <= pos,
        pos + 1 <= s.len(),
        s.subrange(pos, pos + 1) == enc_bool(b),
    ensures
        parse_bool(s, pos) == Some((b, pos + 1)),
{
    assert(s[pos] == enc_bool(b)[0]) by {
        assert(s.subrange(pos, pos + 1)[0] == enc_bool(b)[0]);
    }
}

} // verus!
