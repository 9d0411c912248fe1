//! The wire protocol between clients and the server: a big-endian token
//! handshake, and textual events `SPWN token|name|XxY|color` and
//! `UPDP token|XxY`, each ended by CRLF. Coordinates travel in pixels with
//! up to three decimals and are held in world units (1/1000 pixel).
use vstd::prelude::*;
use byteorder::ByteOrder;
use crate::geometry::{Vec2, COORD_LIMIT};

verus! {

/// The kinds of event the server sends.
#[derive(Clone, Copy, Debug, PartialEq, Eq, Structural)]
pub enum EventType {
    Spawn,
    UpdatePos,
}

/// Why an event could not be read.
#[derive(Clone, Copy, Debug, PartialEq, Eq, Structural)]
pub enum ProtocolError {
    /// A field that the event needs is absent.
    MissingField,
    /// A field that should be a number is not one.
    BadNumber,
    /// A number does not fit the value it stands for.
    OutOfRange,
}

/// The event named by the first four bytes of `s`.
pub open spec fn event_type_of(s: Seq<u8>) -> Option<EventType> {
    if s.len() < 4 {
        None
    } else if s[0] == 83 && s[1] == 80 && s[2] == 87 && s[3] == 78 {
        Some(EventType::Spawn)
    } else if s[0] == 85 && s[1] == 80 && s[2] == 68 && s[3] == 80 {
        Some(EventType::UpdatePos)
    } else {
        None
    }
}

/// Reads the event tag (`SPWN` or `UPDP`) at the start of `buf`.
pub fn parse_event_type(buf: &[u8]) -> (r: Option<EventType>)
    ensures
        r == event_type_of(buf@),
{
    if buf.len() < 4 {
        return None;
    }
    if buf[0] == 83 && buf[1] == 80 && buf[2] == 87 && buf[3] == 78 {
        Some(EventType::Spawn)
    } else if buf[0] == 85 && buf[1] == 80 && buf[2] == 68 && buf[3] == 80 {
        Some(EventType::UpdatePos)
    } else {
        None
    }
}

/// Splits a received packet into its event type and the data after the
/// five-byte tag (`SPWN ` or `UPDP `); `None` for a short packet or an
/// unknown tag.
pub fn split_event(buf: &[u8]) -> (r: Option<(EventType, Vec<u8>)>)
    ensures
        buf@.len() < 5 ==> r is None,
        buf@.len() >= 5 ==> match event_type_of(buf@) {
            Some(e) => r is Some && r.unwrap().0 == e && r.unwrap().1@ == buf@.skip(5),
            None => r is None,
        },
{
    if buf.len() < 5 {
        return None;
    }
    match parse_event_type(buf) {
        Some(e) => {
            let data = copy_range(buf, 5, buf.len());
            assert(data@ =~= buf@.skip(5));
            Some((e, data))
        },
        None => None,
    }
}

/// A copy of `s[lo..hi]`.
pub fn copy_range(s: &[u8], lo: usize, hi: usize) -> (r: Vec<u8>)
    requires
        lo <= hi <= s@.len(),
    ensures
        r@ == s@.subrange(lo as int, hi as int),
{
    let mut r: Vec<u8> = Vec::new();
    let mut i = lo;
    while i < hi
        invariant
            lo <= i <= hi <= s@.len(),
            r@ == s@.subrange(lo as int, i as int),
        decreases hi - i,
    {
        r.push(s[i]);
        assert(s@.subrange(lo as int, i + 1) =~= s@.subrange(lo as int, i as int).push(s@[i as int]));
        i += 1;
    }
    r
}

/// The big-endian value of the bytes of `s`.
pub open spec fn be_value(s: Seq<u8>) -> nat
    decreases s.len(),
{
    if s.len() == 0 {
        0
    } else {
        be_value(s.drop_last()) * 256 + s.last() as nat
    }
}

/// Relies on byteorder's `BigEndian::read_u64`: the first eight bytes of
/// `buf` read most significant first; it panics on fewer than eight.
#[verifier::external_body]
fn read_be_u64(buf: &[u8]) -> (r: u64)
    requires
        buf@.len() >= 8,
    ensures
        r as nat == be_value(buf@.take(8)),
{
    byteorder::BigEndian::read_u64(buf)
}

/// The token in the server's eight-byte greeting; `None` if fewer than
/// eight bytes came.
pub fn handshake_token(buf: &[u8]) -> (r: Option<u64>)
    ensures
        buf@.len() < 8 ==> r is None,
        buf@.len() >= 8 ==> r is Some && r.unwrap() as nat == be_value(buf@.take(8)),
{
    if buf.len() < 8 {
        None
    } else {
        Some(read_be_u64(buf))
    }
}

/// ASCII white space, as `str::trim` removes it.
pub open spec fn is_ws(b: u8) -> bool {
    b == 32 || b == 9 || b == 10 || b == 11 || b == 12 || b == 13
}

pub open spec fn is_digit(b: u8) -> bool {
    48 <= b <= 57
}

/// Index of the first CRLF at or after `i`, or the length if none.
pub open spec fn crlf_from(s: Seq<u8>, i: int) -> int
    decreases s.len() - i,
{
    if i < 0 || i + 1 >= s.len() {
        s.len() as int
    } else if s[i] == 13 && s[i + 1] == 10 {
        i
    } else {
        crlf_from(s, i + 1)
    }
}

/// First index at or after `i` whose byte is not white space.
pub open spec fn skip_ws(s: Seq<u8>, i: int) -> int
    decreases s.len() - i,
{
    if 0 <= i < s.len() && is_ws(s[i]) {
        skip_ws(s, i + 1)
    } else {
        i
    }
}

/// End of `s[lo..j]` once trailing white space is dropped.
pub open spec fn back_ws(s: Seq<u8>, j: int, lo: int) -> int
    decreases j - lo,
{
    if lo < j <= s.len() && is_ws(s[j - 1]) {
        back_ws(s, j - 1, lo)
    } else {
        j
    }
}

/// The part of `data` before the first CRLF, without surrounding white
/// space.
pub open spec fn payload(data: Seq<u8>) -> Seq<u8> {
    let line = data.take(crlf_from(data, 0));
    let a = skip_ws(line, 0);
    line.subrange(a, back_ws(line, line.len() as int, a))
}

/// Index of the first `sep` at or after `i`, or the length if none.
pub open spec fn sep_from(s: Seq<u8>, i: int, sep: u8) -> int
    decreases s.len() - i,
{
    if i < 0 || i >= s.len() {
        s.len() as int
    } else if s[i] == sep {
        i
    } else {
        sep_from(s, i + 1, sep)
    }
}

/// Bounds of field `k` of `s[start..]` split on `sep`, if there are that
/// many fields.
pub open spec fn field_at(s: Seq<u8>, start: int, sep: u8, k: nat) -> Option<(int, int)>
    decreases k,
{
    let e = sep_from(s, start, sep);
    if k == 0 {
        Some((start, e))
    } else if e < s.len() {
        field_at(s, e + 1, sep, (k - 1) as nat)
    } else {
        None
    }
}

/// Field `k` of `s` split on `sep`.
pub open spec fn field(s: Seq<u8>, sep: u8, k: nat) -> Option<Seq<u8>> {
    match field_at(s, 0, sep, k) {
        Some((a, b)) => Some(s.subrange(a, b)),
        None => None,
    }
}

pub open spec fn all_digits(s: Seq<u8>) -> bool {
    forall|i: int| 0 <= i < s.len() ==> is_digit(#[trigger] s[i])
}

/// The decimal value of a string of digits.
pub open spec fn digits_val(s: Seq<u8>) -> nat
    decreases s.len(),
{
    if s.len() == 0 {
        0
    } else {
        digits_val(s.drop_last()) * 10 + (s.last() - 48) as nat
    }
}

/// An unsigned number: an optional `+`, then one or more digits, at most
/// `max`.
pub open spec fn unsigned_of(f: Seq<u8>, max: nat) -> Result<nat, ProtocolError> {
    let b = if f.len() > 0 && f[0] == 43 { f.drop_first() } else { f };
    if b.len() == 0 || !all_digits(b) {
        Err(ProtocolError::BadNumber)
    } else if digits_val(b) > max {
        Err(ProtocolError::OutOfRange)
    } else {
        Ok(digits_val(b))
    }
}

/// Digit `i` of a fraction, zero past its end.
pub open spec fn frac_digit(fp: Seq<u8>, i: int) -> int {
    if i < fp.len() {
        fp[i] - 48
    } else {
        0
    }
}

/// A coordinate in pixels (optional sign, digits, optional point and
/// decimals, at least one digit) as world units: thousandths of a pixel,
/// further decimals dropped.
pub open spec fn coord_of(f: Seq<u8>) -> Result<int, ProtocolError> {
    let neg = f.len() > 0 && f[0] == 45;
    let b = if f.len() > 0 && (f[0] == 45 || f[0] == 43) { f.drop_first() } else { f };
    let d = sep_from(b, 0, 46);
    let ip = b.take(d);
    let fp = if d < b.len() { b.skip(d + 1) } else { Seq::empty() };
    if ip.len() + fp.len() == 0 || !all_digits(ip) || !all_digits(fp) {
        Err(ProtocolError::BadNumber)
    } else {
        let m = digits_val(ip) * 1000 + 100 * frac_digit(fp, 0) + 10 * frac_digit(fp, 1) + frac_digit(fp, 2);
        if m > COORD_LIMIT {
            Err(ProtocolError::OutOfRange)
        } else {
            Ok(if neg { -m } else { m })
        }
    }
}

/// A position `XxY`.
pub open spec fn position_of(f: Seq<u8>) -> Result<Vec2, ProtocolError> {
    match coord_of(field(f, 120, 0).unwrap()) {
        Err(e) => Err(e),
        Ok(x) => match field(f, 120, 1) {
            None => Err(ProtocolError::MissingField),
            Some(fy) => match coord_of(fy) {
                Err(e) => Err(e),
                Ok(y) => Ok(Vec2 { x: x as i64, y: y as i64 }),
            },
        },
    }
}

/// The event data `token|XxY`.
pub open spec fn update_pos_of(data: Seq<u8>) -> Result<(usize, Vec2), ProtocolError> {
    let t = payload(data);
    match unsigned_of(field(t, 124, 0).unwrap(), usize::MAX as nat) {
        Err(e) => Err(e),
        Ok(token) => match field(t, 124, 1) {
            None => Err(ProtocolError::MissingField),
            Some(fp) => match position_of(fp) {
                Err(e) => Err(e),
                Ok(p) => Ok((token as usize, p)),
            },
        },
    }
}

/// The event data `token|name|XxY|color`.
pub open spec fn spawn_of(data: Seq<u8>) -> Result<(usize, Seq<u8>, Vec2, u32), ProtocolError> {
    let t = payload(data);
    match unsigned_of(field(t, 124, 0).unwrap(), usize::MAX as nat) {
        Err(e) => Err(e),
        Ok(token) => match field(t, 124, 1) {
            None => Err(ProtocolError::MissingField),
            Some(name) => match field(t, 124, 2) {
                None => Err(ProtocolError::MissingField),
                Some(fp) => match position_of(fp) {
                    Err(e) => Err(e),
                    Ok(p) => match field(t, 124, 3) {
                        None => Err(ProtocolError::MissingField),
                        Some(fc) => match unsigned_of(fc, u32::MAX as nat) {
                            Err(e) => Err(e),
                            Ok(c) => Ok((token as usize, name, p, c as u32)),
                        },
                    },
                },
            },
        },
    }
}

/// Index of the first CRLF at or after `i`.
fn find_crlf(s: &Vec<u8>) -> (r: usize)
    ensures
        r == crlf_from(s@, 0),
        r <= s@.len(),
{
    let mut i: usize = 0;
    while i < s.len() && s.len() - i > 1
        invariant
            i <= s@.len() || i == 0,
            crlf_from(s@, 0) == crlf_from(s@, i as int),
        decreases s@.len() - i,
    {
        if s[i] == 13 && s[i + 1] == 10 {
            return i;
        }
        i += 1;
    }
    s.len()
}

/// The trimmed first line of `data`.
pub fn payload_of(data: &[u8]) -> (r: Vec<u8>)
    ensures
        r@ == payload(data@),
{
    let all = copy_range(data, 0, data.len());
    assert(all@ =~= data@);
    let end = find_crlf(&all);
    let line = copy_range(data, 0, end);
    assert(line@ =~= data@.take(end as int));
    let mut a: usize = 0;
    while a < line.len() && is_space(line[a])
        invariant
            a <= line@.len(),
            skip_ws(line@, 0) == skip_ws(line@, a as int),
        decreases line@.len() - a,
    {
        a += 1;
    }
    let mut b: usize = line.len();
    while b > a && is_space(line[b - 1])
        invariant
            a <= b <= line@.len(),
            back_ws(line@, line@.len() as int, a as int) == back_ws(line@, b as int, a as int),
        decreases b - a,
    {
        b -= 1;
    }
    copy_range(line.as_slice(), a, b)
}

fn is_space(b: u8) -> (r: bool)
    ensures
        r == is_ws(b),
{
    b == 32 || b == 9 || b == 10 || b == 11 || b == 12 || b == 13
}

/// First index at or after `i` holding `sep`, or the length.
fn find_sep(s: &Vec<u8>, start: usize, sep: u8) -> (r: usize)
    requires
        start <= s@.len(),
    ensures
        r == sep_from(s@, start as int, sep),
        start <= r <= s@.len(),
{
    let mut i = start;
    while i < s.len() && s[i] != sep
        invariant
            start <= i <= s@.len(),
            sep_from(s@, start as int, sep) == sep_from(s@, i as int, sep),
        decreases s@.len() - i,
    {
        i += 1;
    }
    i
}

/// Field `k` of `s` split on `sep`, copied out.
pub fn nth_field(s: &Vec<u8>, sep: u8, k: usize) -> (r: Option<Vec<u8>>)
    ensures
        match field(s@, sep, k as nat) {
            Some(f) => r is Some && r.unwrap()@ == f,
            None => r is None,
        },
{
    let mut start: usize = 0;
    let mut step: usize = 0;
    while step < k
        invariant
            step <= k,
            start <= s@.len(),
            field_at(s@, 0, sep, k as nat) == field_at(s@, start as int, sep, (k - step) as nat),
        decreases k - step,
    {
        let e = find_sep(s, start, sep);
        if e >= s.len() {
            return None;
        }
        start = e + 1;
        step += 1;
    }
    let e = find_sep(s, start, sep);
    Some(copy_range(s.as_slice(), start, e))
}

/// A longer run of digits is worth at least as much as its prefix.
proof fn lemma_digits_grow(s: Seq<u8>, i: int, j: int)
    requires
        0 <= i <= j <= s.len(),
        all_digits(s),
    ensures
        digits_val(s.take(i)) <= digits_val(s.take(j)),
    decreases j - i,
{
    if i < j {
        lemma_digits_grow(s, i, j - 1);
        assert(s.take(j).drop_last() =~= s.take(j - 1));
    }
}

/// Whether `s[lo..hi]` is all digits.
fn digits_only(s: &Vec<u8>, lo: usize, hi: usize) -> (r: bool)
    requires
        lo <= hi <= s@.len(),
    ensures
        r == all_digits(s@.subrange(lo as int, hi as int)),
{
    let mut i = lo;
    while i < hi
        invariant
            lo <= i <= hi <= s@.len(),
            forall|j: int| lo <= j < i ==> is_digit(#[trigger] s@[j]),
        decreases hi - i,
    {
        if !(48 <= s[i] && s[i] <= 57) {
            assert(!is_digit(s@.subrange(lo as int, hi as int)[i - lo]));
            return false;
        }
        i += 1;
    }
    assert forall|j: int| 0 <= j < hi - lo implies is_digit(#[trigger] s@.subrange(lo as int, hi as int)[j]) by {
        assert(s@.subrange(lo as int, hi as int)[j] == s@[lo + j]);
    }
    true
}

/// The value of the digits `s[lo..hi]`, if it is at most `cap`.
fn digits_value(s: &Vec<u8>, lo: usize, hi: usize, cap: u64) -> (r: Option<u64>)
    requires
        lo <= hi <= s@.len(),
        all_digits(s@.subrange(lo as int, hi as int)),
    ensures
        r is Some <==> digits_val(s@.subrange(lo as int, hi as int)) <= cap,
        r is Some ==> r.unwrap() as nat == digits_val(s@.subrange(lo as int, hi as int)),
{
    let ghost whole = s@.subrange(lo as int, hi as int);
    let mut acc: u64 = 0;
    let mut i = lo;
    assert(whole.take(0) =~= Seq::<u8>::empty());
    while i < hi
        invariant
            lo <= i <= hi <= s@.len(),
            whole == s@.subrange(lo as int, hi as int),
            all_digits(whole),
            acc as nat == digits_val(whole.take(i - lo)),
            acc <= cap,
        decreases hi - i,
    {
        assert(whole.take(i - lo + 1).drop_last() =~= whole.take(i - lo));
        assert(whole[i - lo] == s@[i as int]);
        assert(is_digit(whole[i - lo]));
        let d = (s[i] - 48) as u128;
        let next: u128 = (acc as u128) * 10 + d;
        if next > cap as u128 {
            proof {
                lemma_digits_grow(whole, i - lo + 1, whole.len() as int);
                assert(whole.take(whole.len() as int) =~= whole);
            }
            return None;
        }
        acc = next as u64;
        i += 1;
    }
    assert(whole.take(hi - lo) =~= whole);
    Some(acc)
}

/// Executable `unsigned_of`.
fn unsigned_field(f: &Vec<u8>, max: u64) -> (r: Result<u64, ProtocolError>)
    ensures
        match unsigned_of(f@, max as nat) {
            Ok(v) => r == Ok::<u64, ProtocolError>(v as u64),
            Err(e) => r == Err::<u64, ProtocolError>(e),
        },
{
    let lo: usize = if f.len() > 0 && f[0] == 43 { 1 } else { 0 };
    let ghost b = f@.subrange(lo as int, f@.len() as int);
    assert(b =~= (if f@.len() > 0 && f@[0] == 43 { f@.drop_first() } else { f@ }));
    if lo == f.len() || !digits_only(f, lo, f.len()) {
        return Err(ProtocolError::BadNumber);
    }
    match digits_value(f, lo, f.len(), max) {
        Some(v) => Ok(v),
        None => Err(ProtocolError::OutOfRange),
    }
}

/// Executable `coord_of`.
fn coord_field(f: &Vec<u8>) -> (r: Result<i64, ProtocolError>)
    ensures
        match coord_of(f@) {
            Ok(v) => r == Ok::<i64, ProtocolError>(v as i64),
            Err(e) => r == Err::<i64, ProtocolError>(e),
        },
        r is Ok ==> -COORD_LIMIT <= r.unwrap() <= COORD_LIMIT,
{
    let neg = f.len() > 0 && f[0] == 45;
    let lo: usize = if f.len() > 0 && (f[0] == 45 || f[0] == 43) { 1 } else { 0 };
    let b = copy_range(f.as_slice(), lo, f.len());
    assert(b@ =~= (if f@.len() > 0 && (f@[0] == 45 || f@[0] == 43) { f@.drop_first() } else { f@ }));
    let d = find_sep(&b, 0, 46);
    let fs: usize = if d < b.len() { d + 1 } else { b.len() };
    let ghost ip = b@.take(d as int);
    let ghost fp = if d < b@.len() { b@.skip(d + 1) } else { Seq::<u8>::empty() };
    assert(ip =~= b@.subrange(0, d as int));
    assert(fp =~= b@.subrange(fs as int, b@.len() as int));
    if d + (b.len() - fs) == 0 || !digits_only(&b, 0, d) || !digits_only(&b, fs, b.len()) {
        return Err(ProtocolError::BadNumber);
    }
    let whole = match digits_value(&b, 0, d, (COORD_LIMIT / 1000) as u64) {
        Some(v) => v,
        None => {
            return Err(ProtocolError::OutOfRange);
        },
    };
    let mut frac: i64 = 0;
    let mut k: usize = 0;
    while k < 3
        invariant
            k <= 3,
            fs <= b@.len(),
            fp == b@.subrange(fs as int, b@.len() as int),
            all_digits(fp),
            frac == (if k == 0 {
                0
            } else if k == 1 {
                100 * frac_digit(fp, 0)
            } else if k == 2 {
                100 * frac_digit(fp, 0) + 10 * frac_digit(fp, 1)
            } else {
                100 * frac_digit(fp, 0) + 10 * frac_digit(fp, 1) + frac_digit(fp, 2)
            }),
            0 <= frac <= 999,
        decreases 3 - k,
    {
        let digit: i64 = if k < b.len() - fs {
            assert(fp[k as int] == b@[fs + k]);
            assert(is_digit(fp[k as int]));
            (b[fs + k] - 48) as i64
        } else {
            0
        };
        let weight: i64 = if k == 0 { 100 } else if k == 1 { 10 } else { 1 };
        frac = frac + weight * digit;
        k += 1;
    }
    let m: i64 = (whole as i64) * 1000 + frac;
    if m > COORD_LIMIT {
        return Err(ProtocolError::OutOfRange);
    }
    if neg {
        Ok(-m)
    } else {
        Ok(m)
    }
}

/// Executable `position_of`.
fn position_field(f: &Vec<u8>) -> (r: Result<Vec2, ProtocolError>)
    ensures
        r == position_of(f@),
        r is Ok ==> r.unwrap().wf(),
{
    let fx = nth_field(f, 120, 0);
    let fx = match fx {
        Some(v) => v,
        None => {
            assert(false);
            return Err(ProtocolError::MissingField);
        },
    };
    let x = match coord_field(&fx) {
        Ok(v) => v,
        Err(e) => {
            return Err(e);
        },
    };
    let fy = match nth_field(f, 120, 1) {
        Some(v) => v,
        None => {
            return Err(ProtocolError::MissingField);
        },
    };
    let y = match coord_field(&fy) {
        Ok(v) => v,
        Err(e) => {
            return Err(e);
        },
    };
    Ok(Vec2 { x, y })
}

/// Reads the data of an `UPDP` event: `token|XxY`.
pub fn parse_update_pos_event(data: &[u8]) -> (r: Result<(usize, Vec2), ProtocolError>)
    ensures
        r == update_pos_of(data@),
        r is Ok ==> r.unwrap().1.wf(),
{
    let t = payload_of(data);
    let ft = match nth_field(&t, 124, 0) {
        Some(v) => v,
        None => {
            assert(false);
            return Err(ProtocolError::MissingField);
        },
    };
    let token = match unsigned_field(&ft, usize::MAX as u64) {
        Ok(v) => v as usize,
        Err(e) => {
            return Err(e);
        },
    };
    let fp = match nth_field(&t, 124, 1) {
        Some(v) => v,
        None => {
            return Err(ProtocolError::MissingField);
        },
    };
    match position_field(&fp) {
        Ok(p) => Ok((token, p)),
        Err(e) => Err(e),
    }
}

/// Reads the data of a `SPWN` event: `token|name|XxY|color`, the colour a
/// packed RGBA value.
pub fn parse_spawn_event(data: &[u8]) -> (r: Result<(usize, Vec<u8>, Vec2, u32), ProtocolError>)
    ensures
        match spawn_of(data@) {
            Ok((t, n, p, c)) => r is Ok && r.unwrap().0 == t && r.unwrap().1@ == n && r.unwrap().2 == p
                && r.unwrap().3 == c,
            Err(e) => r is Err && r.unwrap_err() == e,
        },
        r is Ok ==> r.unwrap().2.wf(),
{
    let t = payload_of(data);
    let ft = match nth_field(&t, 124, 0) {
        Some(v) => v,
        None => {
            assert(false);
            return Err(ProtocolError::MissingField);
        },
    };
    let token = match unsigned_field(&ft, usize::MAX as u64) {
        Ok(v) => v as usize,
        Err(e) => {
            return Err(e);
        },
    };
    let name = match nth_field(&t, 124, 1) {
        Some(v) => v,
        None => {
            return Err(ProtocolError::MissingField);
        },
    };
    let fp = match nth_field(&t, 124, 2) {
        Some(v) => v,
        None => {
            return Err(ProtocolError::MissingField);
        },
    };
    let pos = match position_field(&fp) {
        Ok(p) => p,
        Err(e) => {
            return Err(e);
        },
    };
    let fc = match nth_field(&t, 124, 3) {
        Some(v) => v,
        None => {
            return Err(ProtocolError::MissingField);
        },
    };
    match unsigned_field(&fc, u32::MAX as u64) {
        Ok(c) => Ok((token, name, pos, c as u32)),
        Err(e) => Err(e),
    }
}

/// The decimal digits of `n`.
pub open spec fn dec(n: nat) -> Seq<u8>
    decreases n,
{
    if n < 10 {
        seq![(48 + n) as u8]
    } else {
        dec(n / 10).push((48 + n % 10) as u8)
    }
}

/// The thousandths `f` of a pixel written as a decimal part: nothing for
/// zero, else a point and the digits without trailing zeros.
pub open spec fn frac_text(f: int) -> Seq<u8> {
    if f == 0 {
        Seq::<u8>::empty()
    } else if f % 100 == 0 {
        seq![46u8, (48 + f / 100) as u8]
    } else if f % 10 == 0 {
        seq![46u8, (48 + f / 100) as u8, (48 + (f / 10) % 10) as u8]
    } else {
        seq![46u8, (48 + f / 100) as u8, (48 + (f / 10) % 10) as u8, (48 + f % 10) as u8]
    }
}

/// A coordinate in world units written in pixels: sign, whole pixels, and
/// the thousandths without trailing zeros.
pub open spec fn coord_text(m: int) -> Seq<u8> {
    let a = if m < 0 { -m } else { m };
    let sign = if m < 0 { seq![45u8] } else { Seq::<u8>::empty() };
    sign + dec((a / 1000) as nat) + frac_text(a % 1000)
}

/// A position written `XxY`.
pub open spec fn position_text(p: Vec2) -> Seq<u8> {
    coord_text(p.x as int) + seq![120u8] + coord_text(p.y as int)
}

/// The `UPDP` message for a position.
pub open spec fn update_pos_text(token: usize, pos: Vec2) -> Seq<u8> {
    seq![85u8, 80, 68, 80, 32] + dec(token as nat) + seq![124u8] + position_text(pos) + seq![13u8, 10]
}

/// The `SPWN` message for a spawn.
pub open spec fn spawn_text(token: usize, name: Seq<u8>, pos: Vec2, color: u32) -> Seq<u8> {
    seq![83u8, 80, 87, 78, 32] + dec(token as nat) + seq![124u8] + name + seq![124u8] + position_text(pos)
        + seq![124u8] + dec(color as nat) + seq![13u8, 10]
}

/// Appends the decimal digits of `n`.
fn push_decimal(out: &mut Vec<u8>, n: u64)
    ensures
        final(out)@ == old(out)@ + dec(n as nat),
    decreases n,
{
    if n >= 10 {
        push_decimal(out, n / 10);
    }
    out.push((48 + n % 10) as u8);
    assert(final(out)@ =~= old(out)@ + dec(n as nat));
}

/// Appends the bytes of `s`.
fn push_all(out: &mut Vec<u8>, s: &[u8])
    ensures
        final(out)@ == old(out)@ + s@,
{
    let ghost start = out@;
    let mut i: usize = 0;
    while i < s.len()
        invariant
            i <= s@.len(),
            out@ == start + s@.take(i as int),
        decreases s@.len() - i,
    {
        out.push(s[i]);
        assert(s@.take(i + 1) =~= s@.take(i as int).push(s@[i as int]));
        assert(out@ =~= start + s@.take(i + 1));
        i += 1;
    }
    assert(s@.take(s@.len() as int) =~= s@);
}

/// Appends a coordinate as `coord_text` writes it.
fn push_coord(out: &mut Vec<u8>, m: i64)
    requires
        -COORD_LIMIT <= m <= COORD_LIMIT,
    ensures
        final(out)@ == old(out)@ + coord_text(m as int),
{
    let ghost start = out@;
    let a: i64 = if m < 0 { -m } else { m };
    if m < 0 {
        out.push(45);
    }
    push_decimal(out, (a / 1000) as u64);
    let f = a % 1000;
    if f != 0 {
        out.push(46);
        out.push((48 + f / 100) as u8);
        if f % 100 != 0 {
            out.push((48 + (f / 10) % 10) as u8);
            if f % 10 != 0 {
                out.push((48 + f % 10) as u8);
            }
        }
    }
    assert(out@ =~= start + coord_text(m as int));
}

/// Appends a position as `position_text` writes it.
fn push_position(out: &mut Vec<u8>, p: &Vec2)
    requires
        p.wf(),
    ensures
        final(out)@ == old(out)@ + position_text(*p),
{
    let ghost start = out@;
    push_coord(out, p.x);
    out.push(120);
    push_coord(out, p.y);
    assert(out@ =~= start + position_text(*p));
}

/// The message that tells the server a player moved.
pub fn encode_update_pos_event(token: usize, pos: &Vec2) -> (r: Vec<u8>)
    requires
        pos.wf(),
    ensures
        r@ == update_pos_text(token, *pos),
{
    let mut out: Vec<u8> = Vec::new();
    out.push(85);
    out.push(80);
    out.push(68);
    out.push(80);
    out.push(32);
    push_decimal(&mut out, token as u64);
    out.push(124);
    push_position(&mut out, pos);
    out.push(13);
    out.push(10);
    assert(out@ =~= update_pos_text(token, *pos));
    out
}

/// The message that tells the server a player spawned.
pub fn encode_spawn_event(token: usize, name: &[u8], pos: &Vec2, color: u32) -> (r: Vec<u8>)
    requires
        pos.wf(),
    ensures
        r@ == spawn_text(token, name@, *pos, color),
{
    let mut out: Vec<u8> = Vec::new();
    out.push(83);
    out.push(80);
    out.push(87);
    out.push(78);
    out.push(32);
    push_decimal(&mut out, token as u64);
    out.push(124);
    push_all(&mut out, name);
    out.push(124);
    push_position(&mut out, pos);
    out.push(124);
    push_decimal(&mut out, color as u64);
    out.push(13);
    out.push(10);
    assert(out@ =~= spawn_text(token, name@, *pos, color));
    out
}

/// `s` has no byte `b` in `[i, j)`.
pub open spec fn free_of(s: Seq<u8>, b: u8, i: int, j: int) -> bool {
    forall|k: int| i <= k < j ==> #[trigger] s[k] != b
}

/// The first `sep` at or after `i` is at `j` (or there is none and `j` is
/// the length).
proof fn lemma_sep_at(s: Seq<u8>, i: int, j: int, sep: u8)
    requires
        0 <= i <= j <= s.len(),
        free_of(s, sep, i, j),
        j == s.len() || s[j] == sep,
    ensures
        sep_from(s, i, sep) == j,
    decreases j - i,
{
    if i < j {
        lemma_sep_at(s, i + 1, j, sep);
    }
}

/// The first CRLF at or after `i` starts at `j`.
proof fn lemma_crlf_at(s: Seq<u8>, i: int, j: int)
    requires
        0 <= i <= j,
        j + 1 < s.len(),
        s[j] == 13 && s[j + 1] == 10,
        free_of(s, 13, i, j),
    ensures
        crlf_from(s, i) == j,
    decreases j - i,
{
    if i < j {
        lemma_crlf_at(s, i + 1, j);
    }
}

/// What `dec` writes: at least one digit, worth `n`.
proof fn lemma_dec(n: nat)
    ensures
        dec(n).len() >= 1,
        all_digits(dec(n)),
        digits_val(dec(n)) == n,
    decreases n,
{
    if n >= 10 {
        lemma_dec(n / 10);
        let s = dec(n / 10);
        let d = (48 + n % 10) as u8;
        assert(s.push(d).drop_last() =~= s);
        assert forall|i: int| 0 <= i < s.push(d).len() implies is_digit(#[trigger] s.push(d)[i]) by {
            if i < s.len() {
                assert(s.push(d)[i] == s[i]);
            }
        }
        assert(dec(n) == s.push(d));
        assert(digits_val(s.push(d)) == digits_val(s) * 10 + (d - 48) as nat);
        assert((d - 48) as nat == n % 10);
        assert(n == (n / 10) * 10 + n % 10);
    } else {
        assert(seq![(48 + n) as u8].drop_last() =~= Seq::<u8>::empty());
        assert(dec(n)[0] == (48 + n) as u8);
        assert(is_digit(dec(n)[0]));
        assert(digits_val(Seq::<u8>::empty()) == 0);
        assert(digits_val(dec(n)) == digits_val(dec(n).drop_last()) * 10 + (dec(n).last() - 48) as nat);
    }
}

/// The decimal part written for `f` thousandths reads back as `f`.
proof fn lemma_frac(f: int)
    requires
        0 <= f < 1000,
    ensures
        f == 0 <==> frac_text(f).len() == 0,
        f != 0 ==> frac_text(f)[0] == 46 && is_digit(frac_text(f).last()),
        f != 0 ==> all_digits(frac_text(f).drop_first()),
        f != 0 ==> 100 * frac_digit(frac_text(f).drop_first(), 0) + 10 * frac_digit(frac_text(f).drop_first(), 1)
            + frac_digit(frac_text(f).drop_first(), 2) == f,
{
}

/// A coordinate written by `coord_text` reads back as itself; its bytes
/// are digits, a leading `-` and a `.`, and it ends with a digit.
#[verifier::rlimit(60)]
proof fn lemma_coord_round_trip(m: int)
    requires
        -COORD_LIMIT <= m <= COORD_LIMIT,
    ensures
        coord_of(coord_text(m)) == Ok::<int, ProtocolError>(m),
        coord_text(m).len() >= 1,
        is_digit(coord_text(m).last()),
        !is_ws(coord_text(m)[0]),
        forall|k: int| 0 <= k < coord_text(m).len() ==> {
            let c = #[trigger] coord_text(m)[k];
            is_digit(c) || c == 45 || c == 46
        },
{
    let a = if m < 0 { -m } else { m };
    let q = a / 1000;
    let f = a % 1000;
    lemma_dec(q as nat);
    lemma_frac(f);
    let dq = dec(q as nat);
    let sign = if m < 0 { seq![45u8] } else { Seq::<u8>::empty() };
    let frac = frac_text(f);
    let t = coord_text(m);
    assert(t == sign + dq + frac);
    let b = dq + frac;
    assert(t[0] == (if m < 0 { 45u8 } else { dq[0] }));
    if m < 0 {
        assert(t.drop_first() =~= b);
    } else {
        assert(t =~= b);
    }
    assert(free_of(b, 46, 0, dq.len() as int)) by {
        assert forall|k: int| 0 <= k < dq.len() implies #[trigger] b[k] != 46 by {
            assert(b[k] == dq[k]);
            assert(is_digit(dq[k]));
        }
    }
    if frac.len() > 0 {
        assert(b[dq.len() as int] == 46);
    }
    lemma_sep_at(b, 0, dq.len() as int, 46);
    let ip = b.take(dq.len() as int);
    assert(ip =~= dq);
    let fp = if (dq.len() as int) < b.len() { b.skip(dq.len() as int + 1) } else { Seq::<u8>::empty() };
    if frac.len() > 0 {
        assert(fp =~= frac.drop_first());
    } else {
        assert(fp =~= Seq::<u8>::empty());
    }
    assert(q * 1000 + f == a);
    assert forall|k: int| 0 <= k < t.len() implies {
        let c = #[trigger] t[k];
        is_digit(c) || c == 45 || c == 46
    } by {
        if k < sign.len() {
        } else if k < sign.len() + dq.len() {
            assert(t[k] == dq[k - sign.len()]);
        } else if k > sign.len() + dq.len() {
            assert(t[k] == frac[k - sign.len() - dq.len()]);
            assert(frac.drop_first()[k - sign.len() - dq.len() - 1] == frac[k - sign.len() - dq.len()]);
        } else {
            assert(t[k] == frac[0]);
        }
    }
    if frac.len() > 0 {
        assert(t.last() == frac.last());
    } else {
        assert(t.last() == dq.last());
        assert(is_digit(dq[dq.len() - 1]));
    }
}

/// The payload of `line + CRLF + rest`, when `line` has no CR and begins
/// and ends with bytes that are not white space, is `line`.
proof fn lemma_payload_of_line(line: Seq<u8>, data: Seq<u8>)
    requires
        line.len() as int >= 1,
        free_of(line, 13, 0, line.len() as int),
        !is_ws(line[0]),
        !is_ws(line.last()),
        data.len() as int >= line.len() as int + 2,
        data.take(line.len() as int) == line,
        data[line.len() as int] == 13,
        data[line.len() as int + 1] == 10,
    ensures
        payload(data) == line,
{
    assert forall|k: int| 0 <= k < line.len() as int implies #[trigger] data[k] != 13 by {
        assert(data[k] == data.take(line.len() as int)[k]);
    }
    lemma_crlf_at(data, 0, line.len() as int);
    let l = data.take(crlf_from(data, 0));
    assert(l == line);
    assert(skip_ws(l, 0) == 0);
    assert(back_ws(l, l.len() as int, 0) == l.len() as int);
    assert(l.subrange(0, l.len() as int) =~= l);
}

/// Every byte of `s` is a digit, `-`, `.` or `x`.
pub open spec fn numeric_text(s: Seq<u8>) -> bool {
    forall|k: int| 0 <= k < s.len() as int ==> {
        let c = #[trigger] s[k];
        is_digit(c) || c == 45 || c == 46 || c == 120
    }
}

/// Facts of the written number `dec(n)`.
proof fn lemma_dec_text(n: nat)
    ensures
        dec(n).len() as int >= 1,
        numeric_text(dec(n)),
        !is_ws(dec(n)[0]),
        is_digit(dec(n).last()),
        dec(n)[0] != 43,
        digits_val(dec(n)) == n,
        all_digits(dec(n)),
{
    lemma_dec(n);
    assert(is_digit(dec(n)[0]));
    assert(is_digit(dec(n)[dec(n).len() as int - 1]));
}

/// A written position reads back, and is numeric text ending in a digit.
proof fn lemma_position_round_trip(p: Vec2)
    requires
        p.wf(),
    ensures
        position_of(position_text(p)) == Ok::<Vec2, ProtocolError>(p),
        numeric_text(position_text(p)),
        !is_ws(position_text(p)[0]),
        is_digit(position_text(p).last()),
        position_text(p).len() as int >= 1,
{
    let cx = coord_text(p.x as int);
    let cy = coord_text(p.y as int);
    lemma_coord_round_trip(p.x as int);
    lemma_coord_round_trip(p.y as int);
    let t = position_text(p);
    assert(t == cx + seq![120u8] + cy);
    assert(free_of(t, 120, 0, cx.len() as int)) by {
        assert forall|k: int| 0 <= k < cx.len() as int implies #[trigger] t[k] != 120 by {
            assert(t[k] == cx[k]);
        }
    }
    lemma_sep_at(t, 0, cx.len() as int, 120);
    assert(free_of(t, 120, cx.len() as int + 1, t.len() as int)) by {
        assert forall|k: int| cx.len() as int + 1 <= k < t.len() as int implies #[trigger] t[k] != 120 by {
            assert(t[k] == cy[k - cx.len() as int - 1]);
        }
    }
    lemma_sep_at(t, cx.len() as int + 1, t.len() as int, 120);
    assert(field_at(t, 0, 120, 1) == field_at(t, cx.len() as int + 1, 120, 0));
    assert(t.subrange(0, cx.len() as int) =~= cx);
    assert(t.subrange(cx.len() as int + 1, t.len() as int) =~= cy);
    assert forall|k: int| 0 <= k < t.len() as int implies {
        let c = #[trigger] t[k];
        is_digit(c) || c == 45 || c == 46 || c == 120
    } by {
        if k < cx.len() as int {
            assert(t[k] == cx[k]);
        } else if k > cx.len() as int {
            assert(t[k] == cy[k - cx.len() as int - 1]);
        }
    }
    assert(t[0] == cx[0]);
    assert(t.last() == cy.last());
}

/// A position message that the library writes reads back as the token and
/// position written.
#[verifier::rlimit(40)]
pub proof fn lemma_update_pos_round_trip(token: usize, pos: Vec2)
    requires
        pos.wf(),
    ensures
        update_pos_of(update_pos_text(token, pos).skip(5)) == Ok::<(usize, Vec2), ProtocolError>((token, pos)),
{
    let dt = dec(token as nat);
    let pt = position_text(pos);
    lemma_dec_text(token as nat);
    lemma_position_round_trip(pos);
    let data = update_pos_text(token, pos).skip(5);
    let line = dt + seq![124u8] + pt;
    assert(data =~= line + seq![13u8, 10]);
    assert(data.take(line.len() as int) =~= line);
    assert forall|k: int| 0 <= k < line.len() as int implies #[trigger] line[k] != 13 by {
        if k < dt.len() as int {
            assert(line[k] == dt[k]);
        } else if k > dt.len() as int {
            assert(line[k] == pt[k - dt.len() as int - 1]);
        }
    }
    assert(line[0] == dt[0]);
    assert(line.last() == pt.last());
    lemma_payload_of_line(line, data);
    assert(free_of(line, 124, 0, dt.len() as int)) by {
        assert forall|k: int| 0 <= k < dt.len() as int implies #[trigger] line[k] != 124 by {
            assert(line[k] == dt[k]);
        }
    }
    lemma_sep_at(line, 0, dt.len() as int, 124);
    assert(free_of(line, 124, dt.len() as int + 1, line.len() as int)) by {
        assert forall|k: int| dt.len() as int + 1 <= k < line.len() as int implies #[trigger] line[k] != 124 by {
            assert(line[k] == pt[k - dt.len() as int - 1]);
        }
    }
    lemma_sep_at(line, dt.len() as int + 1, line.len() as int, 124);
    assert(field_at(line, 0, 124, 1) == field_at(line, dt.len() as int + 1, 124, 0));
    assert(line.subrange(0, dt.len() as int) =~= dt);
    assert(line.subrange(dt.len() as int + 1, line.len() as int) =~= pt);
}

/// A spawn message that the library writes reads back as the values
/// written, for a name without `|` or CR.
#[verifier::rlimit(100)]
pub proof fn lemma_spawn_round_trip(token: usize, name: Seq<u8>, pos: Vec2, color: u32)
    requires
        pos.wf(),
        free_of(name, 124, 0, name.len() as int),
        free_of(name, 13, 0, name.len() as int),
    ensures
        spawn_of(spawn_text(token, name, pos, color).skip(5)) == Ok::<(usize, Seq<u8>, Vec2, u32), ProtocolError>(
            (token, name, pos, color),
        ),
{
    let dt = dec(token as nat);
    let pt = position_text(pos);
    let dc = dec(color as nat);
    lemma_dec_text(token as nat);
    lemma_dec_text(color as nat);
    lemma_position_round_trip(pos);
    let data = spawn_text(token, name, pos, color).skip(5);
    let line = dt + seq![124u8] + name + seq![124u8] + pt + seq![124u8] + dc;
    assert(data =~= line + seq![13u8, 10]);
    assert(data.take(line.len() as int) =~= line);
    let s1 = dt.len() as int;
    let s2 = s1 + 1 + name.len() as int;
    let s3 = s2 + 1 + pt.len() as int;
    assert forall|k: int| 0 <= k < line.len() as int implies #[trigger] line[k] != 13 by {
        if k < s1 {
            assert(line[k] == dt[k]);
        } else if s1 < k < s2 {
            assert(line[k] == name[k - s1 - 1]);
        } else if s2 < k < s3 {
            assert(line[k] == pt[k - s2 - 1]);
        } else if k > s3 {
            assert(line[k] == dc[k - s3 - 1]);
        }
    }
    assert(line[0] == dt[0]);
    assert(line.last() == dc.last());
    lemma_payload_of_line(line, data);
    assert(free_of(line, 124, 0, s1)) by {
        assert forall|k: int| 0 <= k < s1 implies #[trigger] line[k] != 124 by {
            assert(line[k] == dt[k]);
        }
    }
    assert(free_of(line, 124, s1 + 1, s2)) by {
        assert forall|k: int| s1 + 1 <= k < s2 implies #[trigger] line[k] != 124 by {
            assert(line[k] == name[k - s1 - 1]);
        }
    }
    assert(free_of(line, 124, s2 + 1, s3)) by {
        assert forall|k: int| s2 + 1 <= k < s3 implies #[trigger] line[k] != 124 by {
            assert(line[k] == pt[k - s2 - 1]);
        }
    }
    assert(free_of(line, 124, s3 + 1, line.len() as int)) by {
        assert forall|k: int| s3 + 1 <= k < line.len() as int implies #[trigger] line[k] != 124 by {
            assert(line[k] == dc[k - s3 - 1]);
        }
    }
    lemma_sep_at(line, 0, s1, 124);
    lemma_sep_at(line, s1 + 1, s2, 124);
    lemma_sep_at(line, s2 + 1, s3, 124);
    lemma_sep_at(line, s3 + 1, line.len() as int, 124);
    assert(field_at(line, 0, 124, 1) == field_at(line, s1 + 1, 124, 0));
    assert(field_at(line, s1 + 1, 124, 1) == field_at(line, s2 + 1, 124, 0));
    assert(field_at(line, 0, 124, 2) == field_at(line, s1 + 1, 124, 1));
    assert(field_at(line, s2 + 1, 124, 1) == field_at(line, s3 + 1, 124, 0));
    assert(field_at(line, s1 + 1, 124, 2) == field_at(line, s2 + 1, 124, 1));
    assert(field_at(line, 0, 124, 3) == field_at(line, s1 + 1, 124, 2));
    assert(line.subrange(0, s1) =~= dt);
    assert(line.subrange(s1 + 1, s2) =~= name);
    assert(line.subrange(s2 + 1, s3) =~= pt);
    assert(line.subrange(s3 + 1, line.len() as int) =~= dc);
}

} // verus!
