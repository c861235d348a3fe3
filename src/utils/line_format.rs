//! The line encoding shared by every record file.
//!
//! A record is written as one line: six ASCII digits giving the byte length of
//! the key, the key's bytes, the value's bytes, and a newline. A file is its
//! lines followed by one blank line.
use vstd::prelude::*;
use vstd::string::StringSliceAdditionalSpecFns;
use vstd::utf8::*;

verus! {

broadcast use vstd::seq::group_seq_axioms;

/// Number of digits in the key-length prefix.
pub const PREFIX_DIGITS: usize = 6;

/// The longest key, in bytes, that the prefix can describe.
pub const MAX_KEY_BYTES: usize = 999999;

/// The byte that ends a line.
pub const NEWLINE: u8 = 10;

/// A key and a value, as they stand in a record file.
pub struct SimpleRecord {
    pub key: String,
    pub value: String,
}

/// What a record holds: its key's and its value's characters.
pub type RecordView = (Seq<char>, Seq<char>);

impl View for SimpleRecord {
    type V = RecordView;

    open spec fn view(&self) -> RecordView {
        (self.key@, self.value@)
    }
}

/// What each record of `s` holds.
pub open spec fn record_views(s: Seq<SimpleRecord>) -> Seq<RecordView> {
    s.map_values(|r: SimpleRecord| r@)
}

/// Why a record cannot be written as a line.
#[derive(Debug, Clone, Copy, PartialEq, Eq, Structural)]
pub enum EncodingError {
    /// The key's UTF-8 form is longer than the prefix can describe.
    KeyTooLong,
    /// The key or the value holds a line break.
    LineBreak,
}

pub open spec fn newline_free(b: Seq<u8>) -> bool {
    forall|i: int| 0 <= i < b.len() ==> b[i] != NEWLINE
}

/// A record can be written as a line, and read back as the same record.
pub open spec fn representable(r: RecordView) -> bool {
    &&& encode_utf8(r.0).len() <= MAX_KEY_BYTES
    &&& newline_free(encode_utf8(r.0))
    &&& newline_free(encode_utf8(r.1))
}

pub open spec fn digit_byte(d: int) -> u8 {
    (48 + d) as u8
}

/// The six-digit, zero-padded decimal form of `n`.
pub open spec fn length_prefix(n: nat) -> Seq<u8> {
    seq![
        digit_byte((n / 100000) as int % 10),
        digit_byte((n / 10000) as int % 10),
        digit_byte((n / 1000) as int % 10),
        digit_byte((n / 100) as int % 10),
        digit_byte((n / 10) as int % 10),
        digit_byte(n as int % 10),
    ]
}

/// The line that stands for one record.
#[verifier::opaque]
pub open spec fn encode_line(r: RecordView) -> Seq<u8> {
    length_prefix(encode_utf8(r.0).len()) + encode_utf8(r.0) + encode_utf8(r.1) + seq![NEWLINE]
}

/// The lines of a sequence of records, in order.
pub open spec fn encode_lines(rs: Seq<RecordView>) -> Seq<u8>
    decreases rs.len(),
{
    if rs.len() == 0 {
        Seq::empty()
    } else {
        encode_line(rs[0]) + encode_lines(rs.drop_first())
    }
}

/// A whole record file: the lines, then a blank line.
pub open spec fn encode_file(rs: Seq<RecordView>) -> Seq<u8> {
    encode_lines(rs) + seq![NEWLINE]
}

pub proof fn lemma_encode_lines_push(rs: Seq<RecordView>, r: RecordView)
    ensures
        encode_lines(rs.push(r)) == encode_lines(rs) + encode_line(r),
    decreases rs.len(),
{
    let l = encode_line(r);
    if rs.len() == 0 {
        assert(rs.push(r).drop_first() =~= Seq::<RecordView>::empty());
        assert(rs.push(r)[0] == r);
        assert(encode_lines(Seq::<RecordView>::empty()) == Seq::<u8>::empty());
        assert(encode_lines(rs.push(r)) == l + encode_lines(rs.push(r).drop_first()));
        assert(l + Seq::<u8>::empty() =~= Seq::<u8>::empty() + l);
    } else {
        let a = encode_line(rs[0]);
        let t = encode_lines(rs.drop_first());
        assert(rs.push(r).drop_first() =~= rs.drop_first().push(r));
        lemma_encode_lines_push(rs.drop_first(), r);
        assert(rs.push(r)[0] == rs[0]);
        assert(encode_lines(rs.push(r)) == a + encode_lines(rs.push(r).drop_first()));
        assert(a + (t + l) =~= (a + t) + l);
    }
}

/// Appends the bytes of `s` to `out`.
fn push_bytes(out: &mut Vec<u8>, s: &str)
    ensures
        final(out)@ == old(out)@ + s.spec_bytes(),
{
    let b = s.as_bytes();
    let mut i: usize = 0;
    while i < b.len()
        invariant
            b@ == s.spec_bytes(),
            i <= b@.len(),
            out@ == old(out)@ + b@.subrange(0, i as int),
        decreases b@.len() - i,
    {
        out.push(b[i]);
        i = i + 1;
        assert(out@ =~= old(out)@ + b@.subrange(0, i as int));
    }
    assert(b@.subrange(0, i as int) =~= b@);
}

/// Whether `s`'s bytes hold no newline.
fn has_no_newline(s: &str) -> (r: bool)
    ensures
        r == newline_free(s.spec_bytes()),
{
    let b = s.as_bytes();
    let mut i: usize = 0;
    while i < b.len()
        invariant
            b@ == s.spec_bytes(),
            i <= b@.len(),
            forall|j: int| 0 <= j < i ==> b@[j] != NEWLINE,
        decreases b@.len() - i,
    {
        if b[i] == NEWLINE {
            return false;
        }
        i = i + 1;
    }
    true
}

/// Appends the line for `r` to `out`, or says why `r` has no line.
pub fn encode_record_line(out: &mut Vec<u8>, r: &SimpleRecord) -> (res: Result<(), EncodingError>)
    ensures
        encode_utf8(r.key@).len() > MAX_KEY_BYTES ==> res == Err::<(), _>(EncodingError::KeyTooLong),
        encode_utf8(r.key@).len() <= MAX_KEY_BYTES && !representable(r@) ==> res == Err::<(), _>(
            EncodingError::LineBreak,
        ),
        representable(r@) ==> res is Ok,
        res is Ok ==> final(out)@ == old(out)@ + encode_line(r@),
        res is Err ==> final(out)@ == old(out)@,
{
    let key = r.key.as_str();
    let value = r.value.as_str();
    let n = key.as_bytes().len();
    if n > MAX_KEY_BYTES {
        return Err(EncodingError::KeyTooLong);
    }
    if !has_no_newline(key) || !has_no_newline(value) {
        return Err(EncodingError::LineBreak);
    }
    let ghost start = out@;
    out.push((48 + n / 100000 % 10) as u8);
    out.push((48 + n / 10000 % 10) as u8);
    out.push((48 + n / 1000 % 10) as u8);
    out.push((48 + n / 100 % 10) as u8);
    out.push((48 + n / 10 % 10) as u8);
    out.push((48 + n % 10) as u8);
    assert(out@ =~= start + length_prefix(encode_utf8(r.key@).len()));
    push_bytes(out, key);
    push_bytes(out, value);
    out.push(NEWLINE);
    reveal(encode_line);
    assert(out@ =~= start + encode_line(r@));
    Ok(())
}

/// The bytes of a record file holding `records`, in order.
pub fn encode_records(records: &Vec<SimpleRecord>) -> (res: Result<Vec<u8>, EncodingError>)
    ensures
        (forall|i: int| 0 <= i < records@.len() ==> representable(#[trigger] records@[i]@))
            <==> res is Ok,
        res matches Ok(bytes) ==> bytes@ == encode_file(record_views(records@)),
{
    let ghost views = record_views(records@);
    let mut out: Vec<u8> = Vec::new();
    let mut i: usize = 0;
    while i < records.len()
        invariant
            views == record_views(records@),
            i <= records@.len(),
            forall|j: int| 0 <= j < i ==> representable(#[trigger] records@[j]@),
            out@ == encode_lines(views.subrange(0, i as int)),
        decreases records@.len() - i,
    {
        match encode_record_line(&mut out, &records[i]) {
            Ok(()) => {},
            Err(e) => {
                return Err(e);
            },
        }
        proof {
            assert(views.subrange(0, i + 1) =~= views.subrange(0, i as int).push(views[i as int]));
            lemma_encode_lines_push(views.subrange(0, i as int), views[i as int]);
        }
        i = i + 1;
    }
    out.push(NEWLINE);
    assert(views.subrange(0, i as int) =~= views);
    Ok(out)
}

#[verifier::external_type_specification]
#[verifier::external_body]
pub struct ExFromUtf8Error(std::string::FromUtf8Error);

/// Relies on `String::from_utf8`: it accepts exactly the byte sequences that are
/// valid UTF-8, and the string it builds holds the characters those bytes encode.
pub assume_specification[ std::string::String::from_utf8 ](vec: Vec<u8>) -> (r: Result<
    String,
    std::string::FromUtf8Error,
>)
    ensures
        r is Ok <==> valid_utf8(vec@),
        r matches Ok(s) ==> s@ == decode_utf8(vec@),
;

/// How many bytes of `b` come before its first newline (all of them if it has none).
pub open spec fn line_end(b: Seq<u8>) -> nat
    decreases b.len(),
{
    if b.len() == 0 {
        0
    } else if b[0] == NEWLINE {
        0
    } else {
        1 + line_end(b.drop_first())
    }
}

pub open spec fn is_digit(c: u8) -> bool {
    48 <= c <= 57
}

pub open spec fn digit_value(c: u8) -> int {
    c - 48
}

/// The number that the first six bytes of `l` write in decimal.
pub open spec fn prefix_value(l: Seq<u8>) -> int {
    digit_value(l[0]) * 100000 + digit_value(l[1]) * 10000 + digit_value(l[2]) * 1000
        + digit_value(l[3]) * 100 + digit_value(l[4]) * 10 + digit_value(l[5])
}

pub open spec fn has_prefix(l: Seq<u8>) -> bool {
    l.len() >= PREFIX_DIGITS && forall|i: int| 0 <= i < PREFIX_DIGITS ==> is_digit(#[trigger] l[i])
}

/// The record that a line (without its newline) stands for, if it is well formed:
/// six digits, then that many bytes of key, then the value, both valid UTF-8.
pub open spec fn decode_line(l: Seq<u8>) -> Option<RecordView> {
    if !has_prefix(l) || l.len() < PREFIX_DIGITS + prefix_value(l) {
        None
    } else {
        let kb = l.subrange(PREFIX_DIGITS as int, PREFIX_DIGITS + prefix_value(l));
        let vb = l.subrange(PREFIX_DIGITS + prefix_value(l), l.len() as int);
        if valid_utf8(kb) && valid_utf8(vb) {
            Some((decode_utf8(kb), decode_utf8(vb)))
        } else {
            None
        }
    }
}

/// The records of the well-formed lines of `b`, in the order of the lines.
pub open spec fn decode_lines(b: Seq<u8>) -> Seq<RecordView>
    decreases b.len(),
{
    if b.len() == 0 {
        Seq::empty()
    } else {
        let n = line_end(b);
        let found = match decode_line(b.subrange(0, n as int)) {
            Some(r) => seq![r],
            None => Seq::empty(),
        };
        if n < b.len() {
            found + decode_lines(b.subrange(n + 1int, b.len() as int))
        } else {
            found
        }
    }
}

/// How many lines of `b` are neither blank nor well formed.
pub open spec fn malformed_lines(b: Seq<u8>) -> nat
    decreases b.len(),
{
    if b.len() == 0 {
        0
    } else {
        let n = line_end(b);
        let bad: nat = if n > 0 && decode_line(b.subrange(0, n as int)) is None {
            1
        } else {
            0
        };
        if n < b.len() {
            bad + malformed_lines(b.subrange(n + 1int, b.len() as int))
        } else {
            bad
        }
    }
}

proof fn lemma_line_end(b: Seq<u8>, j: int)
    requires
        0 <= j <= b.len(),
        forall|k: int| 0 <= k < j ==> b[k] != NEWLINE,
        j == b.len() || b[j] == NEWLINE,
    ensures
        line_end(b) == j,
    decreases b.len(),
{
    if b.len() > 0 && j > 0 {
        lemma_line_end(b.drop_first(), j - 1);
    }
}

/// The bytes `b[from..to]`.
fn copy_range(b: &Vec<u8>, from: usize, to: usize) -> (r: Vec<u8>)
    requires
        from <= to <= b@.len(),
    ensures
        r@ == b@.subrange(from as int, to as int),
{
    let mut r: Vec<u8> = Vec::new();
    let mut i: usize = from;
    while i < to
        invariant
            from <= i <= to <= b@.len(),
            r@ == b@.subrange(from as int, i as int),
        decreases to - i,
    {
        r.push(b[i]);
        i = i + 1;
        assert(r@ =~= b@.subrange(from as int, i as int));
    }
    r
}

/// The index of the first newline at or after `start`, or the length of `b`.
fn find_line_end(b: &Vec<u8>, start: usize) -> (e: usize)
    requires
        start <= b@.len(),
    ensures
        start <= e <= b@.len(),
        e - start == line_end(b@.subrange(start as int, b@.len() as int)),
{
    let mut e: usize = start;
    while e < b.len() && b[e] != NEWLINE
        invariant
            start <= e <= b@.len(),
            forall|k: int| start <= k < e ==> b@[k] != NEWLINE,
        decreases b@.len() - e,
    {
        e = e + 1;
    }
    proof {
        lemma_line_end(b@.subrange(start as int, b@.len() as int), e - start);
    }
    e
}

/// The record on the line `b[start..end]`, if that line is well formed.
fn decode_line_at(b: &Vec<u8>, start: usize, end: usize) -> (r: Option<SimpleRecord>)
    requires
        start <= end <= b@.len(),
    ensures
        r matches Some(x) ==> decode_line(b@.subrange(start as int, end as int)) == Some(x@),
        r is None ==> decode_line(b@.subrange(start as int, end as int)) is None,
{
    let ghost l = b@.subrange(start as int, end as int);
    if end - start < PREFIX_DIGITS {
        return None;
    }
    let mut i: usize = 0;
    while i < PREFIX_DIGITS
        invariant
            i <= PREFIX_DIGITS,
            start + PREFIX_DIGITS <= end <= b@.len(),
            l == b@.subrange(start as int, end as int),
            forall|k: int| 0 <= k < i ==> is_digit(#[trigger] l[k]),
        decreases PREFIX_DIGITS - i,
    {
        if b[start + i] < 48 || b[start + i] > 57 {
            return None;
        }
        i = i + 1;
    }
    let n: usize = (b[start] - 48) as usize * 100000 + (b[start + 1] - 48) as usize * 10000 + (b[
        start + 2] - 48) as usize * 1000 + (b[start + 3] - 48) as usize * 100 + (b[start + 4]
        - 48) as usize * 10 + (b[start + 5] - 48) as usize;
    assert(n == prefix_value(l));
    if end - start - PREFIX_DIGITS < n {
        return None;
    }
    let split = start + PREFIX_DIGITS + n;
    let kb = copy_range(b, start + PREFIX_DIGITS, split);
    let vb = copy_range(b, split, end);
    assert(kb@ =~= l.subrange(PREFIX_DIGITS as int, PREFIX_DIGITS + prefix_value(l)));
    assert(vb@ =~= l.subrange(PREFIX_DIGITS + prefix_value(l), l.len() as int));
    match String::from_utf8(kb) {
        Ok(key) => match String::from_utf8(vb) {
            Ok(value) => Some(SimpleRecord { key, value }),
            Err(_) => None,
        },
        Err(_) => None,
    }
}

/// The records of a record file's bytes, in the order of their lines, and the
/// number of lines that were skipped as malformed (blank lines are not counted).
pub fn decode_records(bytes: &Vec<u8>) -> (r: (Vec<SimpleRecord>, usize))
    ensures
        record_views(r.0@) == decode_lines(bytes@),
        r.1 == malformed_lines(bytes@),
{
    let ghost b = bytes@;
    let mut out: Vec<SimpleRecord> = Vec::new();
    let mut skipped: usize = 0;
    let mut pos: usize = 0;
    assert(b.subrange(0, b.len() as int) =~= b);
    assert(record_views(out@) + decode_lines(b) =~= decode_lines(b));
    while pos < bytes.len()
        invariant
            b == bytes@,
            skipped <= pos <= b.len(),
            record_views(out@) + decode_lines(b.subrange(pos as int, b.len() as int))
                == decode_lines(b),
            skipped + malformed_lines(b.subrange(pos as int, b.len() as int)) == malformed_lines(b),
        decreases b.len() - pos,
    {
        let ghost rest = b.subrange(pos as int, b.len() as int);
        let ghost before = record_views(out@);
        let e = find_line_end(bytes, pos);
        assert(rest.subrange(0, e - pos) =~= b.subrange(pos as int, e as int));
        let line = decode_line_at(bytes, pos, e);
        let next: usize = if e < bytes.len() { e + 1 } else { e };
        proof {
            if e < b.len() {
                assert(rest.subrange(e - pos + 1, rest.len() as int) =~= b.subrange(
                    e + 1,
                    b.len() as int,
                ));
            } else {
                assert(b.subrange(next as int, b.len() as int) =~= Seq::<u8>::empty());
            }
        }
        match line {
            Some(rec) => {
                out.push(rec);
                proof {
                    let found = seq![rec@];
                    assert(record_views(out@) =~= before + found);
                    assert(before + found + decode_lines(b.subrange(next as int, b.len() as int))
                        =~= before + (found + decode_lines(b.subrange(next as int, b.len() as int))));
                }
            },
            None => {
                if e > pos {
                    skipped = skipped + 1;
                }
                proof {
                    assert(before + Seq::<RecordView>::empty() =~= before);
                }
            },
        }
        pos = next;
    }
    assert(b.subrange(pos as int, b.len() as int) =~= Seq::<u8>::empty());
    assert(record_views(out@) + Seq::<RecordView>::empty() =~= record_views(out@));
    (out, skipped)
}

proof fn lemma_length_prefix(n: nat)
    requires
        n <= MAX_KEY_BYTES,
    ensures
        has_prefix(length_prefix(n)),
        prefix_value(length_prefix(n)) == n,
        newline_free(length_prefix(n)),
        length_prefix(n).len() == PREFIX_DIGITS,
{
    let p = length_prefix(n);
    let n1 = n / 10;
    let n2 = n1 / 10;
    let n3 = n2 / 10;
    let n4 = n3 / 10;
    let n5 = n4 / 10;
    assert(n2 == n / 100);
    assert(n3 == n / 1000);
    assert(n4 == n / 10000);
    assert(n5 == n / 100000);
    assert(n5 < 10);
    assert(n == n1 * 10 + n % 10);
    assert(n1 == n2 * 10 + n1 % 10);
    assert(n2 == n3 * 10 + n2 % 10);
    assert(n3 == n4 * 10 + n3 % 10);
    assert(n4 == n5 * 10 + n4 % 10);
    assert(forall|i: int| 0 <= i < PREFIX_DIGITS ==> is_digit(#[trigger] p[i]));
}

/// A line without its newline, for a representable record.
spec fn line_content(r: RecordView) -> Seq<u8> {
    length_prefix(encode_utf8(r.0).len()) + encode_utf8(r.0) + encode_utf8(r.1)
}

proof fn lemma_line_content(r: RecordView)
    requires
        representable(r),
    ensures
        encode_line(r) == line_content(r) + seq![NEWLINE],
        newline_free(line_content(r)),
        decode_line(line_content(r)) == Some(r),
{
    let kb = encode_utf8(r.0);
    let vb = encode_utf8(r.1);
    let p = length_prefix(kb.len());
    let c = line_content(r);
    lemma_length_prefix(kb.len());
    reveal(encode_line);
    assert(encode_line(r) =~= c + seq![NEWLINE]);
    assert forall|k: int| 0 <= k < c.len() implies c[k] != NEWLINE by {
        if k < p.len() {
            assert(c[k] == p[k]);
        } else if k < p.len() + kb.len() {
            assert(c[k] == kb[k - p.len()]);
        } else {
            assert(c[k] == vb[k - p.len() - kb.len()]);
        }
    }
    assert(has_prefix(c)) by {
        assert forall|i: int| 0 <= i < PREFIX_DIGITS implies is_digit(#[trigger] c[i]) by {
            assert(c[i] == p[i]);
        }
    }
    assert(prefix_value(c) == prefix_value(p));
    assert(c.subrange(PREFIX_DIGITS as int, PREFIX_DIGITS + kb.len()) =~= kb);
    assert(c.subrange(PREFIX_DIGITS + kb.len(), c.len() as int) =~= vb);
    encode_utf8_valid_utf8(r.0);
    encode_utf8_valid_utf8(r.1);
    encode_utf8_decode_utf8(r.0);
    encode_utf8_decode_utf8(r.1);
}

/// Reading a newline-free line followed by more bytes reads that line, then the rest.
proof fn lemma_decode_lines_step(c: Seq<u8>, tail: Seq<u8>)
    requires
        newline_free(c),
    ensures
        decode_lines(c + seq![NEWLINE] + tail) == (match decode_line(c) {
            Some(r) => seq![r],
            None => Seq::empty(),
        }) + decode_lines(tail),
        malformed_lines(c + seq![NEWLINE] + tail) == (if c.len() > 0 && decode_line(c) is None {
            1nat
        } else {
            0nat
        }) + malformed_lines(tail),
{
    let b = c + seq![NEWLINE] + tail;
    assert(forall|k: int| 0 <= k < c.len() ==> b[k] == c[k]);
    assert(b[c.len() as int] == NEWLINE);
    lemma_line_end(b, c.len() as int);
    assert(b.subrange(0, c.len() as int) =~= c);
    assert(b.subrange(c.len() + 1int, b.len() as int) =~= tail);
}

/// Reading back the file written for `rs` gives `rs` again, with no line skipped,
/// when every record of `rs` is representable.
pub proof fn lemma_decode_encode_file(rs: Seq<RecordView>)
    requires
        forall|i: int| 0 <= i < rs.len() ==> representable(#[trigger] rs[i]),
    ensures
        decode_lines(encode_file(rs)) == rs,
        malformed_lines(encode_file(rs)) == 0,
    decreases rs.len(),
{
    if rs.len() == 0 {
        lemma_decode_lines_step(Seq::empty(), Seq::empty());
        assert(encode_file(rs) =~= Seq::<u8>::empty() + seq![NEWLINE] + Seq::<u8>::empty());
        assert(decode_lines(encode_file(rs)) =~= rs);
    } else {
        let r = rs[0];
        let rest = rs.drop_first();
        assert forall|i: int| 0 <= i < rest.len() implies representable(#[trigger] rest[i]) by {
            assert(rest[i] == rs[i + 1]);
        }
        assert(representable(rs[0]));
        lemma_decode_encode_file(rest);
        lemma_line_content(r);
        let c = line_content(r);
        assert(encode_file(rs) =~= c + seq![NEWLINE] + encode_file(rest));
        lemma_decode_lines_step(c, encode_file(rest));
        assert(decode_lines(encode_file(rs)) =~= rs);
    }
}

} // verus!
