//! The per-refresh log record: a timestamp or elapsed tag, the in-flight and
//! lost counts, and the sorted RTT samples of the window.
//!
//! A keyframe's time goes to disk as its RFC 3339 text with microsecond
//! precision; a delta record carries the elapsed microseconds instead.

use vstd::prelude::*;
use crate::dynrmp::{
    enc_strbytes, enc_u16, enc_u32, enc_array_len, parse_strbytes, parse_u16, parse_u32,
    parse_array_len, write_str, write_u16, write_u32, write_array_len, read_u16, read_u32,
    read_array_len, read_strbytes, bytes_to_string, DError, is_ascii_bytes, ascii_seq,
};

verus! {

use vstd::utf8::{encode_utf8, is_ascii_chars, is_ascii_chars_encode_utf8};

/// The RFC 3339 text, with microseconds, of the UTC instant the given whole
/// seconds and microseconds name.
pub uninterp spec fn rfc3339_utc(secs: int, micros: int) -> Seq<char>;

/// The last second of year 9999, the latest instant whose RFC 3339 text
/// keeps a four-digit year that the parser reads back.
pub open spec fn max_keyframe_secs() -> int {
    253402300799
}

/// Relies on chrono's DateTime::from_timestamp and to_rfc3339_opts with
/// microsecond precision: the text depends on the numbers alone, and within
/// year 9999 it is short ASCII with a four-digit year.
#[verifier::external_body]
fn format_rfc3339_micros(secs: i64, micros: u32) -> (r: String)
    requires
        0 <= secs <= max_keyframe_secs(),
        micros < 1000000,
    ensures
        r@ == rfc3339_utc(secs as int, micros as int),
        r@.len() <= 64,
        is_ascii_chars(r@),
{
    let dt = chrono::DateTime::<chrono::Utc>::from_timestamp(secs, micros * 1000).unwrap();
    dt.to_rfc3339_opts(chrono::SecondsFormat::Micros, false)
}

/// Relies on chrono's DateTime::parse_from_rfc3339 and
/// timestamp_subsec_micros: the text that `to_rfc3339_opts` produced for an
/// instant within year 9999 reads back as the same instant; other text gives
/// back nothing or some instant.  Leap-second text carries a sub-second part
/// of a million microseconds or more and is refused here, keeping the
/// sub-second result below one second.
#[verifier::external_body]
fn parse_rfc3339_micros(s: &str) -> (r: Option<(i64, u32)>)
    ensures
        forall|secs: int, micros: int|
            0 <= secs <= max_keyframe_secs() && 0 <= micros < 1000000 && s@ == rfc3339_utc(
                secs,
                micros,
            ) ==> r == Some((secs as i64, micros as u32)),
        r matches Some(p) ==> (0 <= p.0 && p.1 < 1000000),
{
    let dt = chrono::DateTime::parse_from_rfc3339(s).ok()?;
    let utc = dt.with_timezone(&chrono::Utc);
    let secs = utc.timestamp();
    if secs < 0 {
        return None;
    }
    let micros = utc.timestamp_subsec_micros();
    if micros >= 1_000_000 {
        // a leap second: chrono reports it as an overflowing sub-second part
        return None;
    }
    Some((secs, micros))
}

/// When the frame was taken: a full wall-clock stamp (keyframe) as seconds
/// since the epoch plus microseconds within the second, or the microseconds
/// elapsed since the last keyframe.
#[derive(Debug, Clone, Copy, PartialEq, Eq, Structural)]
pub enum FrameTime {
    Timestamp(i64, u32),
    Elapsed(u64),
}

/// One destination's frame for one refresh.
#[derive(Debug, Clone)]
pub struct FrameData {
    pub time: FrameTime,
    pub inflight: usize,
    pub lost_packets: usize,
    /// Observed RTTs in microseconds, sorted ascending.
    pub recv_us: Vec<u128>,
}

pub open spec fn sat16(v: int) -> u16 {
    if v > 0xffff {
        0xffff_u16
    } else {
        v as u16
    }
}

/// The sample values encoded one by one.
pub open spec fn enc_samples(a: Seq<u128>, n: int) -> Seq<u8>
    decreases n,
{
    if n <= 0 {
        Seq::empty()
    } else {
        enc_samples(a, n - 1) + enc_u32(a[n - 1] as u32)
    }
}

/// The bytes of one frame: the time tag, the counts, and the samples.
pub open spec fn enc_framedata(fd: FrameData) -> Seq<u8> {
    (match fd.time {
        FrameTime::Timestamp(s, us) => enc_strbytes(encode_utf8(rfc3339_utc(s as int, us as int)))
            + enc_u32(0),
        FrameTime::Elapsed(e) => enc_u32(e as u32),
    }) + enc_u16(sat16(fd.inflight as int)) + enc_u16(sat16(fd.lost_packets as int))
        + enc_array_len(fd.recv_us@.len() as u32) + enc_samples(
        fd.recv_us@,
        fd.recv_us@.len() as int,
    )
}

/// A frame the writer accepts: a bounded time and samples that fit their
/// fixed-width fields.
pub open spec fn wr_frame_ok(fd: FrameData) -> bool {
    &&& (fd.time matches FrameTime::Timestamp(s, us) ==> 0 <= s <= max_keyframe_secs() && us
        < 1000000)
    &&& (fd.time matches FrameTime::Elapsed(e) ==> e <= u32::MAX)
    &&& fd.recv_us@.len() <= u32::MAX
    &&& forall|i: int| 0 <= i < fd.recv_us@.len() ==> #[trigger] fd.recv_us@[i] <= u32::MAX
}

/// The time tag as it sits in the bytes: keyframe text or elapsed
/// microseconds.
pub enum FrameRawTime {
    Text(Seq<u8>),
    Elapsed(u32),
}

/// The sample values, read one by one.
pub open spec fn parse_samples(s: Seq<u8>, pos: int, n: int) -> Option<(Seq<u128>, int)>
    decreases n,
{
    if n <= 0 {
        Some((Seq::empty(), pos))
    } else {
        match parse_samples(s, pos, n - 1) {
            Some((acc, p)) => match parse_u32(s, p) {
                Some((v, p2)) => Some((acc.push(v as u128), p2)),
                None => None,
            },
            None => None,
        }
    }
}

/// Reads one frame: the time tag (keyframe text followed by a zero u32, or
/// elapsed microseconds), the two counts, and the samples.
pub open spec fn parse_framedata(s: Seq<u8>, pos: int) -> Option<
    (FrameRawTime, u16, u16, Seq<u128>, int),
> {
    let time_step: Option<(FrameRawTime, int)> = match parse_strbytes(s, pos) {
        Some((b, p1)) => match parse_u32(s, p1) {
            Some((z, p2)) => if z == 0 {
                Some((FrameRawTime::Text(b), p2))
            } else {
                None
            },
            None => None,
        },
        None => match parse_u32(s, pos) {
            Some((e, p1)) => Some((FrameRawTime::Elapsed(e), p1)),
            None => None,
        },
    };
    match time_step {
        Some((traw, pt)) => match parse_u16(s, pt) {
            Some((infl, p3)) => match parse_u16(s, p3) {
                Some((lost, p4)) => match parse_array_len(s, p4) {
                    Some((alen, p5)) => match parse_samples(s, p5, alen as int) {
                        Some((vals, p6)) => Some((traw, infl, lost, vals, p6)),
                        None => None,
                    },
                    None => None,
                },
                None => None,
            },
            None => None,
        },
        None => None,
    }
}

/// Text this library writes as a keyframe time: the RFC 3339 form of an
/// in-range instant.
pub open spec fn rfc_text(b: Seq<u8>) -> bool {
    exists|s: int, us: int|
        0 <= s <= max_keyframe_secs() && 0 <= us < 1000000 && #[trigger] is_ascii_chars(
            rfc3339_utc(s, us),
        ) && b == encode_utf8(rfc3339_utc(s, us))
}

/// ASCII timestamp text decodes byte for byte back to its characters.
proof fn lemma_ascii_text_chars(b: Seq<u8>, s: int, us: int)
    requires
        is_ascii_chars(rfc3339_utc(s, us)),
        b == encode_utf8(rfc3339_utc(s, us)),
    ensures
        is_ascii_bytes(b),
        ascii_seq(b) == rfc3339_utc(s, us),
{
    let chars = rfc3339_utc(s, us);
    is_ascii_chars_encode_utf8(chars);
    assert forall|i: int| 0 <= i < b.len() implies b[i] < 0x80 by {
        assert(b[i] == chars[i] as u8);
        assert('\0' <= chars[i] <= '\u{7f}');
    }
    assert forall|i: int| 0 <= i < chars.len() implies ascii_seq(b)[i] == chars[i] by {
        assert(b[i] == chars[i] as u8);
        assert('\0' <= chars[i] <= '\u{7f}');
    }
    assert(ascii_seq(b) =~= chars);
}

/// When the next sample cannot be read, the whole list cannot.
proof fn lemma_parse_samples_step_none(s: Seq<u8>, pos: int, i: int, n: int)
    requires
        0 <= i < n,
        parse_samples(s, pos, i) matches Some(st) && parse_u32(s, st.1) is None,
    ensures
        parse_samples(s, pos, n) is None,
    decreases n,
{
    if n - 1 > i {
        lemma_parse_samples_step_none(s, pos, i, n - 1);
    }
}

/// The tail of one frame read: once the time, counts and length are fixed,
/// the whole read follows the sample list.
pub open spec fn frame_milestone(
    s: Seq<u8>,
    pos: int,
    traw: FrameRawTime,
    infl: u16,
    lost: u16,
    alen: u32,
    p5: int,
) -> bool {
    match parse_samples(s, p5, alen as int) {
        Some((vals, pend)) => parse_framedata(s, pos) == Some((traw, infl, lost, vals, pend)),
        None => parse_framedata(s, pos) is None,
    }
}

impl FrameData {
    /// Appends the frame's byte form.
    pub fn encode(&self, out: &mut Vec<u8>)
        requires
            wr_frame_ok(*self),
        ensures
            final(out)@ == old(out)@ + enc_framedata(*self),
    {
        match self.time {
            FrameTime::Timestamp(s, us) => {
                let strnow = format_rfc3339_micros(s, us);
                proof {
                    broadcast use is_ascii_chars_encode_utf8;

                }
                write_str(out, strnow.as_str());
                write_u32(out, 0);
            },
            FrameTime::Elapsed(e) => {
                write_u32(out, e as u32);
            },
        }
        let infl: u16 = if self.inflight > 0xffff {
            0xffff
        } else {
            self.inflight as u16
        };
        write_u16(out, infl);
        let lost: u16 = if self.lost_packets > 0xffff {
            0xffff
        } else {
            self.lost_packets as u16
        };
        write_u16(out, lost);
        write_array_len(out, self.recv_us.len() as u32);
        let ghost mid = out@;
        let n = self.recv_us.len();
        let mut i: usize = 0;
        while i < n
            invariant
                i <= n,
                n == self.recv_us@.len(),
                wr_frame_ok(*self),
                out@ == mid + enc_samples(self.recv_us@, i as int),
            decreases n - i,
        {
            proof {
                assert(self.recv_us@[i as int] <= u32::MAX);
            }
            write_u32(out, self.recv_us[i] as u32);
            proof {
                assert(out@ =~= mid + enc_samples(self.recv_us@, i + 1));
            }
            i += 1;
        }
        proof {
            assert(out@ =~= old(out)@ + enc_framedata(*self));
        }
    }

    /// Reads one frame back.  The counts and samples read exactly; a
    /// keyframe's time comes back through the timestamp text, which must
    /// name an instant this library writes.
    pub fn decode(buf: &[u8], pos: usize) -> (r: Result<(Self, usize), DError>)
        ensures
            parse_framedata(buf@, pos as int) is None ==> r is Err,
            r matches Ok((fd, p2)) ==> (parse_framedata(buf@, pos as int) matches Some(pf) && ({
                let (traw, infl, lost, vals, pend) = pf;
                &&& fd.inflight == infl
                &&& fd.lost_packets == lost
                &&& fd.recv_us@ == vals
                &&& p2 == pend
                &&& (traw matches FrameRawTime::Elapsed(e) ==> fd.time == FrameTime::Elapsed(
                    e as u64,
                ))
                &&& (traw matches FrameRawTime::Text(b) ==> (fd.time matches
                    FrameTime::Timestamp(s2, us2) && 0 <= s2 <= max_keyframe_secs() && us2
                    < 1000000 && (forall|s: int, us: int|
                    0 <= s <= max_keyframe_secs() && 0 <= us < 1000000 && is_ascii_chars(
                        rfc3339_utc(s, us),
                    ) && b == encode_utf8(rfc3339_utc(s, us)) ==> fd.time
                        == FrameTime::Timestamp(s as i64, us as u32))))
            })),
            (parse_framedata(buf@, pos as int) matches Some(pf) && pf.0 is Elapsed) ==> r is Ok,
            (parse_framedata(buf@, pos as int) matches Some(pf) && (pf.0 matches
                FrameRawTime::Text(b) && rfc_text(b))) ==> r is Ok,
    {
        let tstep = match read_strbytes(buf, pos) {
            Ok(x) => Some(x),
            Err(_) => None,
        };
        let ghost mut traw: FrameRawTime;
        let (time, pt): (FrameTime, usize) = match tstep {
            Some((bvec, p1)) => {
                let ghost braw = bvec@;
                proof {
                    traw = FrameRawTime::Text(braw);
                }
                let (z, p2) = match read_u32(buf, p1) {
                    Ok(x) => x,
                    Err(_) => {
                        return Err(DError::Eof);
                    },
                };
                if z != 0 {
                    return Err(DError::TypeMismatch);
                }
                let st = match bytes_to_string(bvec) {
                    Some(st) => st,
                    None => {
                        proof {
                            if rfc_text(braw) {
                                let (s, us) = choose|s: int, us: int|
                                    0 <= s <= max_keyframe_secs() && 0 <= us < 1000000
                                        && #[trigger] is_ascii_chars(rfc3339_utc(s, us)) && braw
                                        == encode_utf8(rfc3339_utc(s, us));
                                lemma_ascii_text_chars(braw, s, us);
                            }
                        }
                        return Err(DError::StringData);
                    },
                };
                match parse_rfc3339_micros(st.as_str()) {
                    Some((secs, us2)) => {
                        if !(0 <= secs && secs <= 253402300799) {
                            proof {
                                if rfc_text(braw) {
                                    let (s, us) = choose|s: int, us: int|
                                        0 <= s <= max_keyframe_secs() && 0 <= us < 1000000
                                            && #[trigger] is_ascii_chars(rfc3339_utc(s, us))
                                            && braw == encode_utf8(rfc3339_utc(s, us));
                                    lemma_ascii_text_chars(braw, s, us);
                                }
                            }
                            return Err(DError::IntOutOfRange);
                        }
                        proof {
                            assert forall|s: int, us: int|
                                0 <= s <= max_keyframe_secs() && 0 <= us < 1000000
                                    && #[trigger] is_ascii_chars(rfc3339_utc(s, us)) && braw
                                    == encode_utf8(rfc3339_utc(s, us)) implies secs == s && us2
                                == us by {
                                lemma_ascii_text_chars(braw, s, us);
                                assert(st@ == rfc3339_utc(s, us));
                            }
                        }
                        (FrameTime::Timestamp(secs, us2), p2)
                    },
                    None => {
                        proof {
                            if rfc_text(braw) {
                                let (s, us) = choose|s: int, us: int|
                                    0 <= s <= max_keyframe_secs() && 0 <= us < 1000000
                                        && #[trigger] is_ascii_chars(rfc3339_utc(s, us)) && braw
                                        == encode_utf8(rfc3339_utc(s, us));
                                lemma_ascii_text_chars(braw, s, us);
                                assert(st@ == rfc3339_utc(s, us));
                            }
                        }
                        return Err(DError::StringData);
                    },
                }
            },
            None => {
                let (e, p1) = match read_u32(buf, pos) {
                    Ok(x) => x,
                    Err(_) => {
                        return Err(DError::Eof);
                    },
                };
                proof {
                    traw = FrameRawTime::Elapsed(e);
                }
                (FrameTime::Elapsed(e as u64), p1)
            },
        };
        let (infl, p3) = match read_u16(buf, pt) {
            Ok(x) => x,
            Err(_) => {
                return Err(DError::Eof);
            },
        };
        let (lost, p4) = match read_u16(buf, p3) {
            Ok(x) => x,
            Err(_) => {
                return Err(DError::Eof);
            },
        };
        let (alen, p5) = match read_array_len(buf, p4) {
            Ok(x) => x,
            Err(_) => {
                return Err(DError::Eof);
            },
        };
        proof {
            assert(frame_milestone(buf@, pos as int, traw, infl, lost, alen, p5 as int));
        }
        let mut recv_us: Vec<u128> = Vec::new();
        let mut p: usize = p5;
        let mut i: u32 = 0;
        while i < alen
            invariant
                i <= alen,
                recv_us@.len() == i,
                parse_samples(buf@, p5 as int, i as int) == Some((recv_us@, p as int)),
                frame_milestone(buf@, pos as int, traw, infl, lost, alen, p5 as int),
                traw matches FrameRawTime::Elapsed(e) ==> time == FrameTime::Elapsed(e as u64),
                traw matches FrameRawTime::Text(b) ==> (time matches FrameTime::Timestamp(
                    s2,
                    us2,
                ) && 0 <= s2 <= max_keyframe_secs() && us2 < 1000000 && (forall|s: int, us: int|
                    0 <= s <= max_keyframe_secs() && 0 <= us < 1000000 && #[trigger] is_ascii_chars(
                        rfc3339_utc(s, us),
                    ) && b == encode_utf8(rfc3339_utc(s, us)) ==> time == FrameTime::Timestamp(
                        s as i64,
                        us as u32,
                    ))),
            decreases alen - i,
        {
            let (v, pn) = match read_u32(buf, p) {
                Ok(x) => x,
                Err(_) => {
                    proof {
                        lemma_parse_samples_step_none(buf@, p5 as int, i as int, alen as int);
                    }
                    return Err(DError::Eof);
                },
            };
            recv_us.push(v as u128);
            p = pn;
            i += 1;
        }
        Ok(
            (
                Self {
                    time,
                    inflight: infl as usize,
                    lost_packets: lost as usize,
                    recv_us,
                },
                p,
            ),
        )
    }
}

/// One frame read at `p0` and resolved against the keyframe `kf0`: a
/// keyframe passes through and becomes the new reference; an elapsed tag
/// turns into the keyframe plus the elapsed microseconds.
pub open spec fn read_step(
    s: Seq<u8>,
    p0: int,
    p1: int,
    kf0: Option<(i64, u32)>,
    kf1: Option<(i64, u32)>,
    fd: FrameData,
) -> bool {
    exists|pf: (FrameRawTime, u16, u16, Seq<u128>, int)|
        #[trigger] parse_framedata(s, p0) == Some(pf) && ({
            &&& fd.inflight == pf.1
            &&& fd.lost_packets == pf.2
            &&& fd.recv_us@ == pf.3
            &&& p1 == pf.4
            &&& (match pf.0 {
                FrameRawTime::Elapsed(e) => kf0 matches Some((ks, kus)) && kf1 == kf0 && fd.time
                    == FrameTime::Timestamp(
                    (ks + (kus + e) as int / 1000000) as i64,
                    ((kus + e) as int % 1000000) as u32,
                ),
                FrameRawTime::Text(b) => fd.time matches FrameTime::Timestamp(s2, us2) && 0 <= s2
                    <= max_keyframe_secs() && us2 < 1000000 && kf1 == Some((s2, us2)),
            })
        })
}

/// A run of frame reads, each resolved against the keyframe the one before
/// it left behind.
pub open spec fn read_chain(
    s: Seq<u8>,
    p0: int,
    p1: int,
    kf0: Option<(i64, u32)>,
    kf1: Option<(i64, u32)>,
    frames: Seq<FrameData>,
) -> bool
    decreases frames.len(),
{
    if frames.len() == 0 {
        p1 == p0 && kf1 == kf0
    } else {
        exists|pm: int, kfm: Option<(i64, u32)>|
            #[trigger] read_step(s, p0, pm, kf0, kfm, frames[0]) && read_chain(
                s,
                pm,
                p1,
                kfm,
                kf1,
                frames.skip(1),
            )
    }
}

proof fn lemma_read_chain_extend(
    s: Seq<u8>,
    p0: int,
    pm: int,
    p1: int,
    kf0: Option<(i64, u32)>,
    kfm: Option<(i64, u32)>,
    kf1: Option<(i64, u32)>,
    frames: Seq<FrameData>,
    fd: FrameData,
)
    requires
        read_chain(s, p0, pm, kf0, kfm, frames),
        read_step(s, pm, p1, kfm, kf1, fd),
    ensures
        read_chain(s, p0, p1, kf0, kf1, frames.push(fd)),
    decreases frames.len(),
{
    if frames.len() == 0 {
        assert(frames.push(fd)[0] == fd);
        assert(frames.push(fd).skip(1) =~= Seq::<FrameData>::empty());
        assert(read_step(s, p0, p1, kf0, kf1, frames.push(fd)[0]) && read_chain(
            s,
            p1,
            p1,
            kf1,
            kf1,
            frames.push(fd).skip(1),
        ));
    } else {
        let (pm0, kfm0) = choose|pm0: int, kfm0: Option<(i64, u32)>|
            #[trigger] read_step(s, p0, pm0, kf0, kfm0, frames[0]) && read_chain(
                s,
                pm0,
                pm,
                kfm0,
                kfm,
                frames.skip(1),
            );
        lemma_read_chain_extend(s, pm0, pm, p1, kfm0, kfm, kf1, frames.skip(1), fd);
        assert(frames.skip(1).push(fd) =~= frames.push(fd).skip(1));
        assert(frames.push(fd)[0] == frames[0]);
        assert(read_step(s, p0, pm0, kf0, kfm0, frames.push(fd)[0]) && read_chain(
            s,
            pm0,
            p1,
            kfm0,
            kf1,
            frames.push(fd).skip(1),
        ));
    }
}

/// Frames read back from a log, with delta times resolved against the last
/// keyframe.
pub struct FrameDataVec {
    pub last_keyframe: Option<(i64, u32)>,
    pub v: Vec<FrameData>,
}

impl FrameDataVec {
    pub fn new() -> (r: Self)
        ensures
            r.last_keyframe is None,
            r.v@.len() == 0,
    {
        Self { last_keyframe: None, v: Vec::new() }
    }

    /// Reads `count` frames, turning elapsed tags into absolute times
    /// against the last keyframe; fails when a delta arrives before any
    /// keyframe or the resolved time overflows.
    pub fn read(&mut self, buf: &[u8], pos: usize, count: u64) -> (r: Result<usize, DError>)
        ensures
            r matches Ok(p2) ==> ({
                &&& final(self).v@.len() == old(self).v@.len() + count
                &&& final(self).v@.take(old(self).v@.len() as int) == old(self).v@
                &&& read_chain(
                    buf@,
                    pos as int,
                    p2 as int,
                    old(self).last_keyframe,
                    final(self).last_keyframe,
                    final(self).v@.skip(old(self).v@.len() as int),
                )
            }),
    {
        let mut p = pos;
        let mut n: u64 = 0;
        let ghost base = self.v@.len() as int;
        while n < count
            invariant
                n <= count,
                self.v@.len() == old(self).v@.len() + n,
                self.v@.take(base) == old(self).v@,
                base == old(self).v@.len(),
                read_chain(
                    buf@,
                    pos as int,
                    p as int,
                    old(self).last_keyframe,
                    self.last_keyframe,
                    self.v@.skip(base),
                ),
            decreases count - n,
        {
            let ghost kfm = self.last_keyframe;
            let ghost frames_mid = self.v@.skip(base);
            let ghost pm = p as int;
            let (mut fd, pn) = match FrameData::decode(buf, p) {
                Ok(x) => x,
                Err(e) => {
                    return Err(e);
                },
            };
            match fd.time {
                FrameTime::Timestamp(s, us) => {
                    self.last_keyframe = Some((s, us));
                },
                FrameTime::Elapsed(e) => {
                    match self.last_keyframe {
                        Some((ks, kus)) => {
                            if !(0 <= ks && ks <= 253402300799 && kus < 1000000 && e
                                <= u32::MAX as u64) {
                                return Err(DError::IntOutOfRange);
                            }
                            let total_us: u64 = kus as u64 + e;
                            let add_s = total_us / 1000000;
                            let us2 = (total_us % 1000000) as u32;
                            fd.time = FrameTime::Timestamp(ks + add_s as i64, us2);
                        },
                        None => {
                            return Err(DError::TypeMismatch);
                        },
                    }
                },
            }
            self.v.push(fd);
            p = pn;
            n += 1;
            proof {
                assert(read_step(buf@, pm, p as int, kfm, self.last_keyframe, fd));
                lemma_read_chain_extend(
                    buf@,
                    pos as int,
                    pm,
                    p as int,
                    old(self).last_keyframe,
                    kfm,
                    self.last_keyframe,
                    frames_mid,
                    fd,
                );
                assert(self.v@.skip(base) =~= frames_mid.push(fd));
                assert(self.v@.take(base) =~= old(self).v@);
            }
        }
        Ok(p)
    }
}

} // verus!
