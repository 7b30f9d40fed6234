//! Record extraction.
//!
//! A block is a byte range holding zero or more complete records.  Each
//! record is `<key><delimiter><value>` terminated by the record
//! terminator (the terminator of the final record of the whole stream
//! may be missing).  The key is the part before the *last* delimiter of
//! the record, so keys themselves may contain the delimiter byte; the
//! value is a decimal numeral holding at most one fractional digit,
//! represented exactly as an integer count of tenths.

use vstd::prelude::*;

use crate::error::Error;

verus! {

/// The byte that separates the key from the value inside a record.
pub const DELIMITER: u8 = 59u8;

/// The byte that terminates a record.
pub const TERMINATOR: u8 = 10u8;

/// ASCII decimal digit.
pub open spec fn is_digit(b: u8) -> bool {
    48 <= b <= 57
}

/// The integer denoted by a most-significant-first sequence of ASCII
/// digits.
pub open spec fn digits_val(s: Seq<u8>) -> int
    decreases s.len(),
{
    if s.len() == 0 {
        0
    } else {
        digits_val(s.drop_last()) * 10 + (s.last() - 48)
    }
}

/// Every byte of the sequence is an ASCII digit.
pub open spec fn all_digits(s: Seq<u8>) -> bool {
    forall|i: int| 0 <= i < s.len() ==> is_digit(s[i])
}

/// Tenths denoted by an unsigned decimal numeral: one or more digits,
/// optionally followed by a point and exactly one fractional digit.
pub open spec fn unsigned_tenths(s: Seq<u8>) -> Option<int> {
    if s.len() >= 3 && s[s.len() - 2] == 46u8 && all_digits(s.take(s.len() - 2)) && is_digit(
        s.last(),
    ) {
        Some(digits_val(s.take(s.len() - 2)) * 10 + (s.last() - 48))
    } else if s.len() >= 1 && all_digits(s) {
        Some(digits_val(s) * 10)
    } else {
        None
    }
}

/// Tenths denoted by a decimal numeral with an optional leading sign.
pub open spec fn signed_tenths(s: Seq<u8>) -> Option<int> {
    if s.len() >= 1 && (s[0] == 43u8 || s[0] == 45u8) {
        match unsigned_tenths(s.skip(1)) {
            Some(v) => Some(if s[0] == 45u8 { -v } else { v }),
            None => None,
        }
    } else {
        unsigned_tenths(s)
    }
}

/// A value segment is valid when it denotes tenths whose magnitude fits
/// a signed machine word.
pub open spec fn valid_value(s: Seq<u8>) -> bool {
    match signed_tenths(s) {
        Some(v) => -i64::MAX <= v <= i64::MAX,
        None => false,
    }
}

/// A sequence of ASCII digits denotes a non-negative integer.
proof fn lemma_digits_val_nonneg(s: Seq<u8>)
    requires
        all_digits(s),
    ensures
        digits_val(s) >= 0,
    decreases s.len(),
{
    if s.len() > 0 {
        assert(forall|i: int| 0 <= i < s.len() - 1 ==> is_digit(s.drop_last()[i]));
        lemma_digits_val_nonneg(s.drop_last());
    }
}

/// Appending one digit multiplies the denoted value by ten and adds the
/// digit.
proof fn lemma_digits_val_snoc(s: Seq<u8>, b: u8)
    ensures
        digits_val(s.push(b)) == digits_val(s) * 10 + (b - 48),
{
    assert(s.push(b).drop_last() =~= s);
    assert(s.push(b).last() == b);
}

/// Parse a value segment into tenths.  Returns `Some` exactly when the
/// segment is a valid value, and then returns the denoted tenths.
#[verifier::loop_isolation(false)]
pub fn parse_tenths(s: &[u8]) -> (r: Option<i64>)
    ensures
        r is Some <==> valid_value(s@),
        r matches Some(v) ==> signed_tenths(s@) == Some(v as int),
{
    let n = s.len();
    if n == 0 {
        return None;
    }
    let neg = s[0] == 45u8;
    let start: usize = if s[0] == 45u8 || s[0] == 43u8 {
        1
    } else {
        0
    };
    let ghost body = s@.skip(start as int);
    assert(forall|j: int| 0 <= j < body.len() ==> body[j] == s@[start + j]);
    if n == start {
        return None;
    }
    let frac = n >= start + 3 && s[n - 2] == 46u8;
    let int_end = if frac {
        n - 2
    } else {
        n
    };
    if int_end <= start {
        return None;
    }
    let mut i: usize = start;
    let mut acc: u64 = 0;
    let mut big = false;
    while i < int_end
        invariant
            n == s@.len(),
            start <= i <= int_end <= n,
            start < int_end,
            start <= 1 <= n,
            frac ==> int_end == n - 2,
            !frac ==> int_end == n,
            forall|j: int| start <= j < i ==> is_digit(s@[j]),
            !big ==> acc == digits_val(s@.subrange(start as int, i as int)),
            big ==> digits_val(s@.subrange(start as int, i as int)) > 1844674407370955160,
            !big ==> acc <= 18446744073709551609,
        decreases int_end - i,
    {
        let b = s[i];
        if b < 48 || b > 57 {
            proof {
                assert(!is_digit(body[i - start]));
                if body.len() >= 3 && body[body.len() - 2] == 46u8 {
                    assert(i - start < body.len() - 2);
                    assert(body.take(body.len() - 2)[i - start] == body[i - start]);
                    assert(!all_digits(body.take(body.len() - 2)));
                } else {
                    assert(!all_digits(body));
                }
                assert(unsigned_tenths(body) is None);
            }
            return None;
        }
        proof {
            let pre = s@.subrange(start as int, i as int);
            assert(s@.subrange(start as int, i + 1 as int) =~= pre.push(s@[i as int]));
            lemma_digits_val_snoc(pre, s@[i as int]);
            assert(forall|j: int| 0 <= j < pre.len() ==> is_digit(pre[j]));
            lemma_digits_val_nonneg(pre);
        }
        if !big {
            if acc > 1844674407370955160 {
                big = true;
            } else {
                acc = acc * 10 + ((b - 48) as u64);
            }
        }
        i = i + 1;
    }
    let fd: u64;
    if frac {
        let b = s[n - 1];
        if b < 48 || b > 57 {
            proof {
                assert(body.len() >= 3 && body[body.len() - 2] == 46u8);
                assert(body.last() == s@[n - 1]);
                assert(!is_digit(body.last()));
                assert(!all_digits(body)) by {
                    assert(!is_digit(body[body.len() - 2]));
                }
                assert(unsigned_tenths(body) is None);
            }
            return None;
        }
        fd = (b - 48) as u64;
    } else {
        fd = 0;
    }
    let ghost intpart = s@.subrange(start as int, int_end as int);
    let ghost fdg: int = if frac {
        s@[n - 1] - 48
    } else {
        0
    };
    let ghost uval = digits_val(intpart) * 10 + fdg;
    let ghost sval: int = if neg {
        -uval
    } else {
        uval
    };
    proof {
        lemma_digits_val_nonneg(intpart);
        assert(0 <= fdg <= 9);
        if frac {
            assert(body.len() >= 3 && body[body.len() - 2] == 46u8);
            assert(body.take(body.len() - 2) =~= intpart);
            assert(body.last() == s@[n - 1]);
            assert(unsigned_tenths(body) == Some(uval));
        } else {
            assert(body =~= intpart);
            if body.len() >= 3 && body[body.len() - 2] == 46u8 {
                assert(is_digit(body[body.len() - 2]));
                assert(false);
            }
            assert(unsigned_tenths(body) == Some(uval));
        }
        if start == 1 {
            assert(signed_tenths(s@) == Some(sval));
        } else {
            assert(body =~= s@);
            assert(signed_tenths(s@) == Some(sval));
        }
    }
    if big || acc > 1844674407370955160 {
        proof {
            assert(digits_val(intpart) > 1844674407370955160);
            assert(uval > i64::MAX);
            assert(!valid_value(s@));
        }
        return None;
    }
    let mag: u64 = acc * 10 + fd;
    assert(mag as int == uval);
    if mag > 0x7fff_ffff_ffff_ffff {
        assert(!valid_value(s@));
        return None;
    }
    let v: i64 = if neg {
        -(mag as i64)
    } else {
        mag as i64
    };
    assert(v as int == sval);
    Some(v)
}

/// The record segments of a block: the terminator-separated ranges,
/// plus a final unterminated range when one is present.  The empty
/// range after a final terminator is not a segment; an intermediate
/// empty segment is an (empty, hence malformed) record.
pub open spec fn segments_of(b: Seq<u8>) -> Seq<Seq<u8>>
    decreases b.len() via segments_of_decreases
{
    match b.index_of_first(TERMINATOR) {
        Some(i) => seq![b.take(i)] + segments_of(b.skip(i + 1)),
        None => if b.len() == 0 {
            Seq::<Seq<u8>>::empty()
        } else {
            seq![b]
        },
    }
}

#[via_fn]
proof fn segments_of_decreases(b: Seq<u8>) {
    b.index_of_first_ensures(TERMINATOR);
}

/// The parse of one record segment: the key is the part before the
/// last delimiter, the value the tenths denoted by the part after it.
pub open spec fn parse_record(seg: Seq<u8>) -> Result<(Seq<u8>, int), Error> {
    match seg.index_of_last(DELIMITER) {
        None => Err(Error::MalformedRecord),
        Some(d) => if valid_value(seg.skip(d + 1)) {
            match signed_tenths(seg.skip(d + 1)) {
                Some(v) => Ok((seg.take(d), v)),
                None => Err(Error::InvalidNumber),
            }
        } else {
            Err(Error::InvalidNumber)
        },
    }
}

/// The records denoted by a sequence of segments; the first failing
/// segment decides the error.
pub open spec fn parse_segments(segs: Seq<Seq<u8>>) -> Result<Seq<(Seq<u8>, int)>, Error>
    decreases segs.len(),
{
    if segs.len() == 0 {
        Ok(Seq::<(Seq<u8>, int)>::empty())
    } else {
        match parse_record(segs[0]) {
            Err(e) => Err(e),
            Ok(p) => match parse_segments(segs.skip(1)) {
                Err(e) => Err(e),
                Ok(rest) => Ok(seq![p] + rest),
            },
        }
    }
}

/// The records of a block, or the first error its bytes hold.
pub open spec fn records_of(b: Seq<u8>) -> Result<Seq<(Seq<u8>, int)>, Error> {
    parse_segments(segments_of(b))
}

/// Record alignment: splitting a byte stream after a terminator splits
/// its segments without cutting any segment in two.  This is why a
/// record-aligned block boundary never splits a record.
pub proof fn lemma_segments_append(a: Seq<u8>, b: Seq<u8>)
    requires
        a.len() == 0 || a.last() == TERMINATOR,
    ensures
        segments_of(a + b) == segments_of(a) + segments_of(b),
    decreases a.len(),
{
    if a.len() == 0 {
        assert(a + b =~= b);
        a.index_of_first_ensures(TERMINATOR);
        if a.index_of_first(TERMINATOR) is Some {
            let j = a.index_of_first(TERMINATOR).unwrap();
            assert(a[j] == TERMINATOR);
        }
        assert(segments_of(a) == Seq::<Seq<u8>>::empty());
        assert(segments_of(a) + segments_of(b) =~= segments_of(b));
    } else {
        a.index_of_first_ensures(TERMINATOR);
        (a + b).index_of_first_ensures(TERMINATOR);
        assert(a.contains(TERMINATOR)) by {
            assert(a[a.len() - 1] == TERMINATOR);
        }
        let i = a.index_of_first(TERMINATOR).unwrap();
        assert((a + b)[i] == TERMINATOR);
        assert((a + b).contains(TERMINATOR)) by {
            assert((a + b)[i] == TERMINATOR);
        }
        let j = (a + b).index_of_first(TERMINATOR).unwrap();
        assert(j == i) by {
            if j < i {
                assert(a[j] == (a + b)[j]);
            }
            if i < j {
                assert((a + b)[i] == TERMINATOR);
            }
        }
        assert((a + b).take(i) =~= a.take(i));
        assert((a + b).skip(i + 1) =~= a.skip(i + 1) + b);
        if a.skip(i + 1).len() > 0 {
            assert(a.skip(i + 1).last() == a.last());
        }
        lemma_segments_append(a.skip(i + 1), b);
        assert(segments_of(a + b) =~= segments_of(a) + segments_of(b));
    }
}

/// Parsing distributes over appended segment sequences; the first
/// error wins.
pub proof fn lemma_parse_segments_append(s1: Seq<Seq<u8>>, s2: Seq<Seq<u8>>)
    ensures
        match parse_segments(s1) {
            Err(e) => parse_segments(s1 + s2) == Err::<Seq<(Seq<u8>, int)>, Error>(e),
            Ok(p1) => match parse_segments(s2) {
                Err(e) => parse_segments(s1 + s2) == Err::<Seq<(Seq<u8>, int)>, Error>(e),
                Ok(p2) => parse_segments(s1 + s2) == Ok::<Seq<(Seq<u8>, int)>, Error>(p1 + p2),
            },
        },
    decreases s1.len(),
{
    if s1.len() == 0 {
        assert(s1 + s2 =~= s2);
        if parse_segments(s2) is Ok {
            let p2 = parse_segments(s2)->Ok_0;
            assert(parse_segments(s1) == Ok::<Seq<(Seq<u8>, int)>, Error>(
                Seq::<(Seq<u8>, int)>::empty(),
            ));
            assert(Seq::<(Seq<u8>, int)>::empty() + p2 =~= p2);
        }
    } else {
        assert((s1 + s2)[0] == s1[0]);
        assert((s1 + s2).skip(1) =~= s1.skip(1) + s2);
        lemma_parse_segments_append(s1.skip(1), s2);
        if parse_segments(s1) is Ok && parse_segments(s2) is Ok {
            let p = parse_record(s1[0])->Ok_0;
            let r1 = parse_segments(s1.skip(1))->Ok_0;
            let p2 = parse_segments(s2)->Ok_0;
            assert(seq![p] + (r1 + p2) =~= (seq![p] + r1) + p2);
        }
    }
}

/// No record is split across a record-aligned boundary: for a stream
/// split anywhere after a terminator, the records of the whole stream
/// are the records of the first part followed by the records of the
/// second, and the earlier part decides the error.
pub proof fn lemma_records_append(a: Seq<u8>, b: Seq<u8>)
    requires
        a.len() == 0 || a.last() == TERMINATOR,
    ensures
        match records_of(a) {
            Err(e) => records_of(a + b) == Err::<Seq<(Seq<u8>, int)>, Error>(e),
            Ok(p1) => match records_of(b) {
                Err(e) => records_of(a + b) == Err::<Seq<(Seq<u8>, int)>, Error>(e),
                Ok(p2) => records_of(a + b) == Ok::<Seq<(Seq<u8>, int)>, Error>(p1 + p2),
            },
        },
{
    lemma_segments_append(a, b);
    lemma_parse_segments_append(segments_of(a), segments_of(b));
}

/// The segment structure of a range holding no terminator except
/// possibly as its final byte.
proof fn lemma_segments_head(c: Seq<u8>, k: int)
    requires
        0 <= k <= c.len(),
        forall|i: int| 0 <= i < k ==> c[i] != TERMINATOR,
        k < c.len() ==> c[k] == TERMINATOR,
    ensures
        k < c.len() ==> segments_of(c) == seq![c.take(k)] + segments_of(c.skip(k + 1)),
        k == c.len() && k > 0 ==> segments_of(c) == seq![c],
        k == c.len() && k == 0 ==> segments_of(c) == Seq::<Seq<u8>>::empty(),
{
    c.index_of_first_ensures(TERMINATOR);
    if k < c.len() {
        assert(c.contains(TERMINATOR)) by {
            assert(c[k] == TERMINATOR);
        }
        let j = c.index_of_first(TERMINATOR).unwrap();
        assert(j == k) by {
            if j < k {
                assert(c[j] != TERMINATOR);
            }
            if k < j {
                assert(c[k] == TERMINATOR);
            }
        }
    } else {
        if c.contains(TERMINATOR) {
            let j = c.index_of_first(TERMINATOR).unwrap();
            assert(c[j] != TERMINATOR);
        }
    }
}

/// Find the last occurrence of a byte inside `s[from..to]`, if any.
#[verifier::loop_isolation(false)]
pub(crate) fn find_last_byte(s: &[u8], from: usize, to: usize, needle: u8) -> (r: Option<usize>)
    requires
        from <= to <= s@.len(),
    ensures
        match r {
            Some(d) => from <= d < to && s@.subrange(from as int, to as int).index_of_last(
                needle,
            ) == Some(d - from),
            None => s@.subrange(from as int, to as int).index_of_last(needle) is None,
        },
{
    let ghost seg = s@.subrange(from as int, to as int);
    proof {
        seg.index_of_last_ensures(needle);
    }
    let mut k = to;
    while k > from
        invariant
            from <= k <= to,
            forall|j: int| k <= j < to ==> s@[j] != needle,
        decreases k,
    {
        if s[k - 1] == needle {
            proof {
                assert(seg[k - 1 - from] == needle);
                assert(seg.contains(needle));
                let j = seg.index_of_last(needle).unwrap();
                assert(j == k - 1 - from) by {
                    if j < k - 1 - from {
                        assert(seg[k - 1 - from] == needle);
                    }
                    if k - 1 - from < j {
                        assert(s@[from + j] == seg[j]);
                    }
                }
            }
            return Some(k - 1);
        }
        k = k - 1;
    }
    proof {
        if seg.index_of_last(needle) is Some {
            let j = seg.index_of_last(needle).unwrap();
            assert(s@[from + j] == seg[j]);
        }
    }
    None
}

/// Parse the record held in `s[from..to]`.
fn parse_record_range(s: &[u8], from: usize, to: usize) -> (r: Result<(Vec<u8>, i64), Error>)
    requires
        from <= to <= s@.len(),
    ensures
        match r {
            Ok(p) => parse_record(s@.subrange(from as int, to as int)) == Ok::<
                (Seq<u8>, int),
                Error,
            >((p.0@, p.1 as int)),
            Err(e) => parse_record(s@.subrange(from as int, to as int)) == Err::<
                (Seq<u8>, int),
                Error,
            >(e),
        },
{
    let ghost seg = s@.subrange(from as int, to as int);
    match find_last_byte(s, from, to, DELIMITER) {
        None => Err(Error::MalformedRecord),
        Some(d) => {
            let value = vstd::slice::slice_subrange(s, d + 1, to);
            assert(value@ =~= seg.skip(d + 1 - from));
            match parse_tenths(value) {
                None => Err(Error::InvalidNumber),
                Some(v) => {
                    let key = vstd::slice::slice_to_vec(vstd::slice::slice_subrange(s, from, d));
                    assert(key@ =~= seg.take(d - from));
                    Ok((key, v))
                },
            }
        },
    }
}

/// Extract every record of a record-aligned block, or report the first
/// error among its records.  At most one record can start per byte of
/// the block, so the number of records is bounded by the block length.
#[verifier::loop_isolation(false)]
#[verifier::rlimit(60)]
pub fn extract_records(block: &[u8]) -> (r: Result<Vec<(Vec<u8>, i64)>, Error>)
    ensures
        match r {
            Ok(pairs) => match records_of(block@) {
                Ok(ps) => {
                    &&& pairs@.len() == ps.len()
                    &&& pairs@.len() <= block@.len()
                    &&& forall|i: int|
                        0 <= i < ps.len() ==> pairs@[i].0@ == ps[i].0 && pairs@[i].1 as int
                            == ps[i].1
                },
                Err(_) => false,
            },
            Err(e) => records_of(block@) == Err::<Seq<(Seq<u8>, int)>, Error>(e),
        },
{
    let ghost b = block@;
    let n = block.len();
    let mut pos: usize = 0;
    let mut out: Vec<(Vec<u8>, i64)> = Vec::new();
    proof {
        assert(b.take(0) =~= Seq::<u8>::empty());
        lemma_segments_head(Seq::<u8>::empty(), 0);
    }
    while pos < n
        invariant
            0 <= pos <= n,
            pos == 0 || pos == n || b[pos - 1] == TERMINATOR,
            out@.len() <= pos,
            parse_segments(segments_of(b.take(pos as int))) matches Ok(ps) && out@.len()
                == ps.len() && forall|i: int|
                0 <= i < ps.len() ==> out@[i].0@ == ps[i].0 && out@[i].1 as int == ps[i].1,
        decreases n - pos,
    {
        let mut j = pos;
        while j < n && block[j] != TERMINATOR
            invariant
                pos <= j <= n,
                forall|t: int| pos <= t < j ==> b[t] != TERMINATOR,
            decreases n - j,
        {
            j = j + 1;
        }
        proof {
            lemma_segments_head(b.skip(pos as int), j - pos);
            assert(b.skip(pos as int).take(j - pos) =~= b.subrange(pos as int, j as int));
            if j < n {
                assert(b.skip(pos as int).skip(j - pos + 1) =~= b.skip(j + 1));
            } else {
                assert(b.skip(pos as int) =~= b.subrange(pos as int, j as int));
            }
            assert(b.take(pos as int) + b.skip(pos as int) =~= b);
            lemma_segments_append(b.take(pos as int), b.skip(pos as int));
        }
        let ghost seg = b.subrange(pos as int, j as int);
        match parse_record_range(block, pos, j) {
            Err(e) => {
                proof {
                    let s1 = segments_of(b.take(pos as int));
                    let s2 = segments_of(b.skip(pos as int));
                    lemma_parse_segments_append(s1, s2);
                    if j < n {
                        assert(s2 == seq![seg] + segments_of(b.skip(j + 1)));
                        assert(s2[0] == seg);
                    } else {
                        assert(s2 == seq![seg]);
                        assert(s2[0] == seg);
                    }
                    assert(parse_segments(s2) == Err::<Seq<(Seq<u8>, int)>, Error>(e));
                    assert(records_of(b) == Err::<Seq<(Seq<u8>, int)>, Error>(e));
                }
                return Err(e);
            },
            Ok(p) => {
                out.push(p);
            },
        }
        proof {
            let s1 = segments_of(b.take(pos as int));
            let newpos: int = if j < n {
                j + 1
            } else {
                n as int
            };
            assert(b.take(newpos) =~= b.take(pos as int) + b.subrange(pos as int, newpos));
            lemma_segments_append(b.take(pos as int), b.subrange(pos as int, newpos));
            lemma_segments_head(b.subrange(pos as int, newpos), j - pos);
            if j < n {
                assert(b.subrange(pos as int, newpos).take(j - pos) =~= seg);
                assert(b.subrange(pos as int, newpos).skip(j - pos + 1) =~= Seq::<u8>::empty());
                assert(segments_of(Seq::<u8>::empty()) =~= Seq::<Seq<u8>>::empty());
                assert(seq![seg] + Seq::<Seq<u8>>::empty() =~= seq![seg]);
                assert(segments_of(b.take(newpos)) == s1 + seq![seg]);
            } else {
                assert(b.subrange(pos as int, newpos) =~= seg);
                assert(segments_of(b.take(newpos)) == s1 + seq![seg]);
            }
            lemma_parse_segments_append(s1, seq![seg]);
            assert(seq![seg].skip(1) =~= Seq::<Seq<u8>>::empty());
            let p = parse_record(seg)->Ok_0;
            assert(parse_segments(seq![seg]) == Ok::<Seq<(Seq<u8>, int)>, Error>(seq![p]));
            let p1 = parse_segments(s1)->Ok_0;
            assert(parse_segments(segments_of(b.take(newpos))) == Ok::<
                Seq<(Seq<u8>, int)>,
                Error,
            >(p1 + seq![p]));
            assert((p1 + seq![p])[p1.len() as int] == p);
        }
        if j < n {
            pos = j + 1;
        } else {
            pos = n;
            proof {
                assert(b.take(n as int) =~= b);
            }
        }
    }
    proof {
        assert(b.take(pos as int) =~= b);
    }
    Ok(out)
}

} // verus!
