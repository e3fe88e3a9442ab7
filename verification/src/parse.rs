//! Parsing of the pipe-delimited BGP dump and relation records, and of
//! dotted-quad IPv4 addresses, over raw bytes.

use vstd::prelude::*;

verus! {

/// Why a record line was rejected. Malformed lines are fatal to loading;
/// the caller reports which line failed.
#[derive(Clone, Copy, Debug, PartialEq, Eq, Structural)]
pub enum LoadError {
    /// The line has fewer delimited fields than the format requires.
    MissingField,
    /// An ASN field is not a decimal number that fits 64 bits.
    BadAsn,
    /// The prefix field is not an IPv4 CIDR with a mask of at most 32.
    BadPrefix,
    /// The AS-path field holds a token that denotes no ASN.
    BadPath,
    /// The relation-code field is not a decimal integer.
    BadRelation,
}

/// The fields of `s` delimited by `sep`: splitting an empty sequence
/// yields one empty field, and every separator ends a field.
pub open spec fn seq_split(s: Seq<u8>, sep: u8) -> Seq<Seq<u8>>
    decreases s.len(),
{
    if s.len() == 0 {
        seq![Seq::<u8>::empty()]
    } else if s.last() == sep {
        seq_split(s.drop_last(), sep).push(Seq::<u8>::empty())
    } else {
        let p = seq_split(s.drop_last(), sep);
        p.update(p.len() - 1, p.last().push(s.last()))
    }
}

pub proof fn lemma_seq_split_len(s: Seq<u8>, sep: u8)
    ensures
        seq_split(s, sep).len() >= 1,
    decreases s.len(),
{
    if s.len() > 0 {
        lemma_seq_split_len(s.drop_last(), sep);
    }
}

/// Every byte is an ASCII decimal digit.
pub open spec fn is_digits(s: Seq<u8>) -> bool {
    forall|i: int| 0 <= i < s.len() ==> 48 <= #[trigger] s[i] <= 57
}

/// The number denoted by a sequence of decimal digits.
pub open spec fn digits_val(s: Seq<u8>) -> int
    recommends
        is_digits(s),
    decreases s.len(),
{
    if s.len() == 0 {
        0
    } else {
        digits_val(s.drop_last()) * 10 + (s.last() - 48)
    }
}

pub proof fn lemma_digits_val_nonneg(s: Seq<u8>)
    requires
        is_digits(s),
    ensures
        digits_val(s) >= 0,
    decreases s.len(),
{
    if s.len() > 0 {
        assert(is_digits(s.drop_last()));
        lemma_digits_val_nonneg(s.drop_last());
    }
}

/// The number denoted by a digit prefix never exceeds the number denoted
/// by a longer digit prefix.
pub proof fn lemma_digits_val_mono(s: Seq<u8>, i: int, j: int)
    requires
        0 <= i <= j <= s.len(),
        is_digits(s.take(j)),
    ensures
        digits_val(s.take(i)) <= digits_val(s.take(j)),
    decreases j - i,
{
    if i < j {
        lemma_digits_val_mono(s, i, j - 1);
        assert(is_digits(s.take(j - 1))) by {
            assert(forall|k: int| 0 <= k < j - 1 ==> s.take(j - 1)[k] == s.take(j)[k]);
        }
        assert(s.take(j).drop_last() =~= s.take(j - 1));
        lemma_digits_val_nonneg(s.take(j - 1));
        assert(digits_val(s.take(j)) == digits_val(s.take(j - 1)) * 10 + (s.take(j).last()
            - 48));
    }
}

/// The 64-bit number denoted by a nonempty all-digit field, if any.
pub open spec fn spec_parse_u64(s: Seq<u8>) -> Option<u64> {
    if s.len() >= 1 && is_digits(s) && digits_val(s) <= u64::MAX {
        Some(digits_val(s) as u64)
    } else {
        None
    }
}

/// A decimal integer with an optional leading minus sign, as used for
/// relation codes; a negative magnitude beyond 64 signed bits is
/// rejected.
pub open spec fn spec_parse_code(s: Seq<u8>) -> Option<i64> {
    if s.len() >= 1 && s[0] == 45 {
        match spec_parse_u64(s.drop_first()) {
            None => None,
            Some(v) => if v <= i64::MAX as u64 {
                Some((-(v as int)) as i64)
            } else {
                None
            },
        }
    } else {
        match spec_parse_u64(s) {
            None => None,
            Some(v) => if v <= i64::MAX as u64 {
                Some(v as i64)
            } else {
                None
            },
        }
    }
}

/// A valid dotted-quad octet: nonempty digits, at most 255, and no
/// leading zero unless the octet is exactly `0`.
pub open spec fn valid_octet(s: Seq<u8>) -> bool {
    match spec_parse_u64(s) {
        None => false,
        Some(v) => v <= 255 && (s[0] != 48 || s.len() == 1),
    }
}

/// The 32-bit value of a dotted-quad IPv4 address, if the field is one.
pub open spec fn spec_parse_ipv4(s: Seq<u8>) -> Option<u32> {
    let p = seq_split(s, 46);
    if p.len() == 4 && valid_octet(p[0]) && valid_octet(p[1]) && valid_octet(p[2])
        && valid_octet(p[3]) {
        Some(
            (spec_parse_u64(p[0]).unwrap() * 0x1000000 + spec_parse_u64(p[1]).unwrap() * 0x10000
                + spec_parse_u64(p[2]).unwrap() * 0x100 + spec_parse_u64(p[3]).unwrap()) as u32,
        )
    } else {
        None
    }
}

/// An IPv4 CIDR prefix `a.b.c.d/m` with `m` at most 32: the address and
/// the mask length.
pub open spec fn spec_parse_prefix(s: Seq<u8>) -> Option<(u32, u32)> {
    let p = seq_split(s, 47);
    if p.len() == 2 {
        match (spec_parse_ipv4(p[0]), spec_parse_u64(p[1])) {
            (Some(addr), Some(m)) => if m <= 32 {
                Some((addr, m as u32))
            } else {
                None
            },
            _ => None,
        }
    } else {
        None
    }
}

/// The ASN denoted by one AS-path token. A plain token is a decimal ASN.
/// A token opening with a brace is an AS-set: the braces are stripped and
/// the second comma-separated member is taken, or the only member when
/// the set has just one.
pub open spec fn spec_parse_token(t: Seq<u8>) -> Option<u64> {
    if t.len() >= 1 && t[0] == 123 {
        let inner0 = t.drop_first();
        let inner = if inner0.len() >= 1 && inner0.last() == 125 {
            inner0.drop_last()
        } else {
            inner0
        };
        let el = seq_split(inner, 44);
        if el.len() >= 2 {
            spec_parse_u64(el[1])
        } else {
            spec_parse_u64(el[0])
        }
    } else {
        spec_parse_u64(t)
    }
}

/// The AS path denoted by a space-separated token field, if every token
/// denotes an ASN.
pub open spec fn spec_parse_as_path(s: Seq<u8>) -> Option<Seq<u64>> {
    let toks = seq_split(s, 32);
    if forall|k: int| 0 <= k < toks.len() ==> (#[trigger] spec_parse_token(toks[k])) is Some {
        Some(toks.map_values(|t: Seq<u8>| spec_parse_token(t).unwrap()))
    } else {
        None
    }
}

/// A parsed dump record: notifier ASN, prefix address and mask length,
/// and the observed AS path.
pub open spec fn spec_parse_dump_line(line: Seq<u8>) -> Option<(u64, u32, u32, Seq<u64>)> {
    let f = seq_split(line, 124);
    if f.len() >= 7 {
        match (spec_parse_u64(f[4]), spec_parse_prefix(f[5]), spec_parse_as_path(f[6])) {
            (Some(n), Some(p), Some(path)) => Some((n, p.0, p.1, path)),
            _ => None,
        }
    } else {
        None
    }
}

/// The error reported for a dump line that parses to nothing: the first
/// failing field in order decides.
pub open spec fn spec_dump_error(line: Seq<u8>) -> LoadError {
    let f = seq_split(line, 124);
    if f.len() < 7 {
        LoadError::MissingField
    } else if spec_parse_u64(f[4]) is None {
        LoadError::BadAsn
    } else if spec_parse_prefix(f[5]) is None {
        LoadError::BadPrefix
    } else {
        LoadError::BadPath
    }
}

/// A parsed relation record: the two ASNs and the relation code.
pub open spec fn spec_parse_relation_line(line: Seq<u8>) -> Option<(u64, u64, i64)> {
    let f = seq_split(line, 124);
    if f.len() >= 3 {
        match (spec_parse_u64(f[0]), spec_parse_u64(f[1]), spec_parse_code(f[2])) {
            (Some(a), Some(b), Some(c)) => Some((a, b, c)),
            _ => None,
        }
    } else {
        None
    }
}

/// The error reported for a relation line that parses to nothing.
pub open spec fn spec_relation_error(line: Seq<u8>) -> LoadError {
    let f = seq_split(line, 124);
    if f.len() < 3 {
        LoadError::MissingField
    } else if spec_parse_u64(f[0]) is None || spec_parse_u64(f[1]) is None {
        LoadError::BadAsn
    } else {
        LoadError::BadRelation
    }
}

/// Splits `s` on the separator byte, as the line format requires: fields
/// may be empty, and an empty input yields one empty field.
pub fn split_bytes(s: &[u8], sep: u8) -> (r: Vec<Vec<u8>>)
    ensures
        r@.map_values(|v: Vec<u8>| v@) == seq_split(s@, sep),
        r@.len() >= 1,
{
    let n = s.len();
    let mut fields: Vec<Vec<u8>> = Vec::new();
    let mut cur: Vec<u8> = Vec::new();
    let mut i: usize = 0;
    while i < n
        invariant
            i <= n,
            n == s@.len(),
            fields@.map_values(|v: Vec<u8>| v@).push(cur@) == seq_split(s@.take(i as int), sep),
        decreases n - i,
    {
        let ghost pre_fields = fields@.map_values(|v: Vec<u8>| v@);
        let ghost pre_cur = cur@;
        let c = s[i];
        proof {
            assert(s@.take(i + 1).drop_last() =~= s@.take(i as int));
            assert(s@.take(i + 1).last() == s@[i as int]);
        }
        if c == sep {
            fields.push(cur);
            cur = Vec::new();
            proof {
                assert(fields@.map_values(|v: Vec<u8>| v@) =~= pre_fields.push(pre_cur));
                assert(fields@.map_values(|v: Vec<u8>| v@).push(cur@) =~= seq_split(
                    s@.take(i + 1),
                    sep,
                ));
            }
        } else {
            cur.push(c);
            proof {
                let p = seq_split(s@.take(i as int), sep);
                assert(p.len() >= 1) by {
                    lemma_seq_split_len(s@.take(i as int), sep);
                }
                assert(fields@.map_values(|v: Vec<u8>| v@).push(cur@) =~= p.update(
                    p.len() - 1,
                    p.last().push(s@[i as int]),
                ));
            }
        }
        i += 1;
    }
    fields.push(cur);
    proof {
        assert(s@.take(n as int) =~= s@);
        assert(fields@.map_values(|v: Vec<u8>| v@) =~= seq_split(s@, sep));
    }
    fields
}

/// Parses a nonempty all-digit field as a 64-bit number.
pub fn parse_u64(s: &[u8]) -> (r: Option<u64>)
    ensures
        r == spec_parse_u64(s@),
{
    let n = s.len();
    if n == 0 {
        return None;
    }
    let mut val: u64 = 0;
    let mut i: usize = 0;
    while i < n
        invariant
            i <= n,
            n == s@.len(),
            n >= 1,
            is_digits(s@.take(i as int)),
            val == digits_val(s@.take(i as int)),
        decreases n - i,
    {
        let c = s[i];
        proof {
            assert(s@.take(i + 1).drop_last() =~= s@.take(i as int));
            assert(s@.take(i + 1).last() == s@[i as int]);
        }
        if c < 48 || c > 57 {
            assert(!is_digits(s@));
            return None;
        }
        assert(is_digits(s@.take(i + 1)));
        let d = (c - 48) as u64;
        let ghost overflowed_val = digits_val(s@.take(i + 1));
        proof {
            if is_digits(s@) {
                assert(s@.take(n as int) =~= s@);
                lemma_digits_val_mono(s@, i + 1, n as int);
            }
        }
        let v10 = match val.checked_mul(10) {
            Some(v) => v,
            None => {
                proof {
                    lemma_digits_val_nonneg(s@.take(i as int));
                }
                return None;
            },
        };
        let v = match v10.checked_add(d) {
            Some(v) => v,
            None => {
                return None;
            },
        };
        val = v;
        i += 1;
    }
    proof {
        assert(s@.take(n as int) =~= s@);
    }
    Some(val)
}

/// Copies the byte range `[from, to)` of `s` into a fresh vector.
fn subvec(s: &[u8], from: usize, to: usize) -> (r: Vec<u8>)
    requires
        from <= to <= s@.len(),
    ensures
        r@ == s@.subrange(from as int, to as int),
{
    let mut r: Vec<u8> = Vec::new();
    let mut k: usize = from;
    while k < to
        invariant
            from <= k <= to <= s@.len(),
            r@ == s@.subrange(from as int, k as int),
        decreases to - k,
    {
        let ghost pre = r@;
        r.push(s[k]);
        proof {
            assert(pre.push(s@[k as int]) =~= s@.subrange(from as int, k + 1));
        }
        k += 1;
    }
    r
}

/// Parses a relation code: a decimal integer with an optional minus sign.
pub fn parse_code(s: &[u8]) -> (r: Option<i64>)
    ensures
        r == spec_parse_code(s@),
{
    let n = s.len();
    if n >= 1 && s[0] == 45 {
        let rest = subvec(s, 1, n);
        proof {
            assert(rest@ =~= s@.drop_first());
        }
        match parse_u64(rest.as_slice()) {
            None => None,
            Some(v) => {
                if v <= (i64::MAX as u64) {
                    Some(-(v as i64))
                } else {
                    None
                }
            },
        }
    } else {
        match parse_u64(s) {
            None => None,
            Some(v) => {
                if v <= (i64::MAX as u64) {
                    Some(v as i64)
                } else {
                    None
                }
            },
        }
    }
}

/// Parses one dotted-quad octet: decimal, at most 255, and with no
/// leading zero unless it is exactly `0`.
fn parse_octet(f: &[u8]) -> (r: Option<u32>)
    ensures
        r == (if valid_octet(f@) {
            Some(spec_parse_u64(f@).unwrap() as u32)
        } else {
            None::<u32>
        }),
{
    match parse_u64(f) {
        None => None,
        Some(v) => {
            if v > 255 {
                None
            } else if f.len() > 1 && f[0] == 48 {
                None
            } else {
                Some(v as u32)
            }
        },
    }
}

/// Parses a dotted-quad IPv4 address into its 32-bit value. Each octet
/// is decimal, at most 255, and carries no leading zero.
pub fn parse_ipv4(s: &[u8]) -> (r: Option<u32>)
    ensures
        r == spec_parse_ipv4(s@),
{
    let parts = split_bytes(s, 46);
    let ghost p = seq_split(s@, 46);
    if parts.len() != 4 {
        return None;
    }
    assert(parts@[0]@ == p[0] && parts@[1]@ == p[1] && parts@[2]@ == p[2] && parts@[3]@ == p[3]);
    let o0 = match parse_octet(parts[0].as_slice()) {
        Some(v) => v,
        None => {
            return None;
        },
    };
    let o1 = match parse_octet(parts[1].as_slice()) {
        Some(v) => v,
        None => {
            return None;
        },
    };
    let o2 = match parse_octet(parts[2].as_slice()) {
        Some(v) => v,
        None => {
            return None;
        },
    };
    let o3 = match parse_octet(parts[3].as_slice()) {
        Some(v) => v,
        None => {
            return None;
        },
    };
    assert(o0 <= 255 && o1 <= 255 && o2 <= 255 && o3 <= 255);
    let r: u32 = o0 * 0x1000000 + o1 * 0x10000 + o2 * 0x100 + o3;
    Some(r)
}

/// Parses an IPv4 CIDR prefix `a.b.c.d/m` with `m` at most 32.
pub fn parse_prefix(s: &[u8]) -> (r: Option<(u32, u32)>)
    ensures
        r == spec_parse_prefix(s@),
{
    let parts = split_bytes(s, 47);
    let ghost p = seq_split(s@, 47);
    if parts.len() != 2 {
        return None;
    }
    assert(parts@[0]@ == p[0] && parts@[1]@ == p[1]);
    let addr = match parse_ipv4(parts[0].as_slice()) {
        Some(a) => a,
        None => {
            return None;
        },
    };
    let m = match parse_u64(parts[1].as_slice()) {
        Some(m) => m,
        None => {
            return None;
        },
    };
    if m <= 32 {
        Some((addr, m as u32))
    } else {
        None
    }
}

/// Parses one AS-path token: a decimal ASN, or an AS-set in braces, from
/// which the second comma-separated member is taken (the only member
/// when the set has just one).
pub fn parse_token(t: &[u8]) -> (r: Option<u64>)
    ensures
        r == spec_parse_token(t@),
{
    let n = t.len();
    if n >= 1 && t[0] == 123 {
        let end = if n >= 2 && t[n - 1] == 125 {
            n - 1
        } else {
            n
        };
        let inner = subvec(t, 1, end);
        proof {
            let inner0 = t@.drop_first();
            if inner0.len() >= 1 && inner0.last() == 125 {
                assert(inner@ =~= inner0.drop_last());
            } else {
                assert(inner@ =~= inner0);
            }
        }
        let el = split_bytes(inner.as_slice(), 44);
        let ghost els = seq_split(inner@, 44);
        if el.len() >= 2 {
            assert(el@[1]@ == els[1]);
            parse_u64(el[1].as_slice())
        } else {
            assert(el@[0]@ == els[0]);
            parse_u64(el[0].as_slice())
        }
    } else {
        parse_u64(t)
    }
}

/// Parses the space-separated AS-path field; every token must denote an
/// ASN.
pub fn parse_as_path(s: &[u8]) -> (r: Option<Vec<u64>>)
    ensures
        match r {
            None => spec_parse_as_path(s@) is None,
            Some(v) => spec_parse_as_path(s@) == Some(v@),
        },
{
    let toks = split_bytes(s, 32);
    let ghost tv = seq_split(s@, 32);
    let n = toks.len();
    let mut out: Vec<u64> = Vec::new();
    let mut k: usize = 0;
    while k < n
        invariant
            k <= n,
            n == tv.len(),
            tv == seq_split(s@, 32),
            toks@.map_values(|v: Vec<u8>| v@) == tv,
            out@.len() == k,
            forall|m: int|
                0 <= m < k ==> (#[trigger] spec_parse_token(tv[m])) is Some && out@[m]
                    == spec_parse_token(tv[m]).unwrap(),
        decreases n - k,
    {
        assert(toks@[k as int]@ == tv[k as int]);
        match parse_token(toks[k].as_slice()) {
            None => {
                assert(spec_parse_as_path(s@) is None) by {
                    assert(spec_parse_token(seq_split(s@, 32)[k as int]) is None);
                }
                return None;
            },
            Some(a) => {
                out.push(a);
            },
        }
        k += 1;
    }
    proof {
        assert(out@ =~= tv.map_values(|t: Seq<u8>| spec_parse_token(t).unwrap()));
    }
    Some(out)
}

/// One parsed BGP dump record.
#[derive(Debug, PartialEq, Eq)]
pub struct DumpRecord {
    /// The vantage-point ASN that observed the announcement.
    pub notifier: u64,
    /// The announced prefix address.
    pub addr: u32,
    /// The announced prefix mask length, at most 32.
    pub masklen: u32,
    /// The observed AS path.
    pub path: Vec<u64>,
}

/// Parses one dump line: `|`-delimited, with the notifier ASN at field
/// 4, the CIDR prefix at field 5 and the AS path at field 6; other
/// fields are ignored. Malformed lines are rejected with the first
/// failing field's error.
pub fn parse_dump_line(line: &[u8]) -> (r: Result<DumpRecord, LoadError>)
    ensures
        match r {
            Ok(rec) => spec_parse_dump_line(line@) == Some(
                (rec.notifier, rec.addr, rec.masklen, rec.path@),
            ) && rec.masklen <= 32,
            Err(e) => spec_parse_dump_line(line@) is None && e == spec_dump_error(line@),
        },
{
    let fields = split_bytes(line, 124);
    let ghost fv = seq_split(line@, 124);
    if fields.len() < 7 {
        return Err(LoadError::MissingField);
    }
    assert(fields@[4]@ == fv[4] && fields@[5]@ == fv[5] && fields@[6]@ == fv[6]);
    let notifier = match parse_u64(fields[4].as_slice()) {
        Some(x) => x,
        None => {
            return Err(LoadError::BadAsn);
        },
    };
    let prefix = match parse_prefix(fields[5].as_slice()) {
        Some(p) => p,
        None => {
            return Err(LoadError::BadPrefix);
        },
    };
    let path = match parse_as_path(fields[6].as_slice()) {
        Some(p) => p,
        None => {
            return Err(LoadError::BadPath);
        },
    };
    Ok(DumpRecord { notifier, addr: prefix.0, masklen: prefix.1, path })
}

/// Parses one relation line: `|`-delimited, with the two ASNs at fields
/// 0 and 1 and the relation code at field 2; further fields are
/// ignored.
pub fn parse_relation_line(line: &[u8]) -> (r: Result<(u64, u64, i64), LoadError>)
    ensures
        match r {
            Ok(t) => spec_parse_relation_line(line@) == Some((t.0, t.1, t.2)),
            Err(e) => spec_parse_relation_line(line@) is None && e == spec_relation_error(line@),
        },
{
    let fields = split_bytes(line, 124);
    let ghost fv = seq_split(line@, 124);
    if fields.len() < 3 {
        return Err(LoadError::MissingField);
    }
    assert(fields@[0]@ == fv[0] && fields@[1]@ == fv[1] && fields@[2]@ == fv[2]);
    let a = match parse_u64(fields[0].as_slice()) {
        Some(x) => x,
        None => {
            return Err(LoadError::BadAsn);
        },
    };
    let b = match parse_u64(fields[1].as_slice()) {
        Some(x) => x,
        None => {
            return Err(LoadError::BadAsn);
        },
    };
    let code = match parse_code(fields[2].as_slice()) {
        Some(c) => c,
        None => {
            return Err(LoadError::BadRelation);
        },
    };
    Ok((a, b, code))
}

} // verus!
