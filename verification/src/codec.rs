//! The metadata document format: a single-line structured text document for
//! a snapshot record (`save.meta`) and for the persisted profile context
//! (`status.json`). Serialization is canonical; parsing accepts exactly the
//! canonical form and recovers the serialized value.

use vstd::prelude::*;

use crate::snapshot::{SnapShot, SnapShotView};
use crate::text::{
    dec, dval, esc, esc_char, extend_val, is_digit, lemma_dec_digits, lemma_extend_val_dec,
    lemma_extend_val_mono, push_char, push_decimal, push_escaped,
};
use crate::Error;

verus! {

/// The canonical document for a snapshot record.
pub open spec fn record_doc(r: SnapShotView) -> Seq<char> {
    "{\"index\":"@ + dec(r.index as int) + ",\"name\":\""@ + esc(r.name) + "\",\"date\":\""@
        + esc(r.date) + "\"}"@
}

/// The canonical document for a persisted profile context.
pub open spec fn context_doc(profile: Seq<char>) -> Seq<char> {
    "{\"profile\":\""@ + esc(profile) + "\"}"@
}

/// A fixed literal at position `i` of `s`; on a match, the position just
/// after it.
pub open spec fn spec_expect(s: Seq<char>, i: int, lit: Seq<char>) -> Option<int> {
    if 0 <= i && i + lit.len() <= s.len() && s.subrange(i, i + lit.len()) == lit {
        Some(i + lit.len())
    } else {
        None
    }
}

/// A quoted field body starting at `i` (just after the opening quote):
/// unescapes until the closing quote, which it consumes.
pub open spec fn spec_scan_string(s: Seq<char>, i: int, acc: Seq<char>) -> Option<(Seq<char>, int)>
    decreases s.len() - i,
{
    if i < 0 || i >= s.len() {
        None
    } else if s[i] == '"' {
        Some((acc, i + 1))
    } else if s[i] == '\\' {
        if i + 1 < s.len() && (s[i + 1] == '"' || s[i + 1] == '\\') {
            spec_scan_string(s, i + 2, acc.push(s[i + 1]))
        } else {
            None
        }
    } else {
        spec_scan_string(s, i + 1, acc.push(s[i]))
    }
}

/// A canonical decimal index starting at `i`: at least one digit, no
/// leading zero, value within `u32`.
pub open spec fn spec_scan_index(s: Seq<char>, i: int, acc: u32, any: bool) -> Option<(u32, int)>
    decreases s.len() - i,
{
    if 0 <= i < s.len() && is_digit(s[i]) {
        if any && acc == 0 {
            None
        } else if acc * 10 + dval(s[i]) <= u32::MAX {
            spec_scan_index(s, i + 1, (acc * 10 + dval(s[i])) as u32, true)
        } else {
            None
        }
    } else if any && 0 <= i <= s.len() {
        Some((acc, i))
    } else {
        None
    }
}

/// The canonical parse of a snapshot record document: `Some` exactly on
/// strings of the form `record_doc(r)`, and then yields that `r`.
pub open spec fn spec_parse_record(s: Seq<char>) -> Option<SnapShotView> {
    match spec_expect(s, 0, "{\"index\":"@) {
        None => None,
        Some(i1) => match spec_scan_index(s, i1, 0, false) {
            None => None,
            Some((index, i2)) => match spec_expect(s, i2, ",\"name\":\""@) {
                None => None,
                Some(i3) => match spec_scan_string(s, i3, Seq::empty()) {
                    None => None,
                    Some((name, i4)) => match spec_expect(s, i4, ",\"date\":\""@) {
                        None => None,
                        Some(i5) => match spec_scan_string(s, i5, Seq::empty()) {
                            None => None,
                            Some((date, i6)) => if spec_expect(s, i6, "}"@) == Some(s.len() as int) {
                                Some(SnapShotView { index, name, date })
                            } else {
                                None
                            },
                        },
                    },
                },
            },
        },
    }
}

/// The canonical parse of a profile context document.
pub open spec fn spec_parse_context(s: Seq<char>) -> Option<Seq<char>> {
    match spec_expect(s, 0, "{\"profile\":\""@) {
        None => None,
        Some(i1) => match spec_scan_string(s, i1, Seq::empty()) {
            None => None,
            Some((profile, i2)) => if spec_expect(s, i2, "}"@) == Some(s.len() as int) {
                Some(profile)
            } else {
                None
            },
        },
    }
}

/// Scanning an escaped field value followed by a closing quote recovers
/// the value and stops just after the quote.
proof fn lemma_scan_string_esc(s: Seq<char>, i: int, acc: Seq<char>, x: Seq<char>)
    requires
        0 <= i,
        i + esc(x).len() + 1 <= s.len(),
        s.subrange(i, i + esc(x).len() + 1) == esc(x) + seq!['"'],
    ensures
        spec_scan_string(s, i, acc) == Some((acc + x, i + esc(x).len() + 1)),
    decreases x.len(),
{
    let e = esc(x);
    let sub = s.subrange(i, i + e.len() + 1);
    assert forall|k: int| 0 <= k < e.len() + 1 implies s[i + k] == (e + seq!['"'])[k] by {
        assert(sub[k] == s[i + k]);
    }
    assert(s[i + 0] == (e + seq!['"'])[0]);
    if x.len() == 0 {
        assert(e =~= Seq::<char>::empty());
        assert(s[i] == '"');
        assert(acc + x =~= acc);
    } else {
        let c = x[0];
        let x2 = x.drop_first();
        let e2 = esc(x2);
        assert(e == esc_char(c) + e2);
        let step: int = esc_char(c).len() as int;
        assert forall|k: int| 0 <= k < e2.len() + 1 implies s[i + step + k] == (e2 + seq!['"'])[k]
            by {
            assert(s[i + (step + k)] == (e + seq!['"'])[step + k]);
            if k < e2.len() {
                assert((e + seq!['"'])[step + k] == e[step + k]);
                assert(e[step + k] == e2[k]);
            }
        }
        assert(s.subrange(i + step, i + step + e2.len() + 1) =~= e2 + seq!['"']);
        if c == '"' || c == '\\' {
            assert(s[i + 0] == e[0]);
            assert(e[0] == esc_char(c)[0]);
            assert(s[i] == '\\');
            assert(s[i + 1] == (e + seq!['"'])[1]);
            assert(e[1] == esc_char(c)[1]);
            assert(s[i + 1] == c);
            lemma_scan_string_esc(s, i + 2, acc.push(c), x2);
        } else {
            assert(e[0] == esc_char(c)[0]);
            assert(s[i] == c);
            lemma_scan_string_esc(s, i + 1, acc.push(c), x2);
        }
        assert(acc.push(c) + x2 =~= acc + x);
    }
}

/// Scanning a run of digit characters accumulates their value and stops at
/// the first non-digit.
proof fn lemma_scan_index_digits(s: Seq<char>, i: int, j: int, acc: u32)
    requires
        0 <= i <= j <= s.len(),
        forall|k: int| i <= k < j ==> is_digit(#[trigger] s[k]),
        j == s.len() || !is_digit(s[j]),
        acc == 0 ==> i == j,
        extend_val(acc as int, s.subrange(i, j)) <= u32::MAX,
    ensures
        spec_scan_index(s, i, acc, true) == Some(
            ((extend_val(acc as int, s.subrange(i, j)) as u32), j),
        ),
    decreases j - i,
{
    if i == j {
        assert(s.subrange(i, j) =~= Seq::<char>::empty());
    } else {
        assert(is_digit(s[i]));
        assert(acc != 0);
        let d = dval(s[i]);
        let acc1 = acc * 10 + d;
        assert(s.subrange(i, j).drop_first() =~= s.subrange(i + 1, j));
        assert(s.subrange(i, j)[0] == s[i]);
        assert(extend_val(acc as int, s.subrange(i, j)) == extend_val(acc1, s.subrange(i + 1, j)));
        assert forall|k: int| 0 <= k < s.subrange(i + 1, j).len() implies is_digit(
            #[trigger] s.subrange(i + 1, j)[k],
        ) by {
            assert(s.subrange(i + 1, j)[k] == s[i + 1 + k]);
        }
        lemma_extend_val_mono(acc1, s.subrange(i + 1, j));
        assert(acc1 <= u32::MAX);
        lemma_scan_index_digits(s, i + 1, j, acc1 as u32);
    }
}

/// Scanning the canonical decimal rendering of `n`, followed by a
/// non-digit, yields exactly `n`.
proof fn lemma_scan_index_dec(s: Seq<char>, i: int, n: u32)
    requires
        0 <= i,
        i + dec(n as int).len() < s.len(),
        s.subrange(i, i + dec(n as int).len()) == dec(n as int),
        !is_digit(s[i + dec(n as int).len()]),
    ensures
        spec_scan_index(s, i, 0, false) == Some((n, i + dec(n as int).len())),
{
    let ds = dec(n as int);
    lemma_dec_digits(n as int);
    lemma_extend_val_dec(n as int);
    let sub = s.subrange(i, i + ds.len());
    assert forall|k: int| i <= k < i + ds.len() implies is_digit(#[trigger] s[k]) by {
        assert(sub[k - i] == s[k]);
    }
    assert(sub[0] == s[i]);
    assert(s[i] == ds[0]);
    let d0 = dval(s[i]);
    assert(0 <= d0 <= 9);
    assert(s.subrange(i + 1, i + ds.len()) =~= ds.drop_first());
    assert(extend_val(0, ds) == extend_val(d0, ds.drop_first()));
    if d0 == 0 {
        assert(dval(ds[0]) == 0);
        assert(n == 0);
        assert(ds.len() == 1);
    }
    lemma_scan_index_digits(s, i + 1, i + ds.len(), d0 as u32);
    assert(spec_scan_index(s, i, 0, false) == spec_scan_index(s, i + 1, d0 as u32, true));
}

/// The record codec round-trips: parsing the canonical document of any
/// record yields that record.
pub proof fn lemma_record_roundtrip(r: SnapShotView)
    ensures
        spec_parse_record(record_doc(r)) == Some(r),
{
    let s = record_doc(r);
    reveal_strlit("{\"index\":");
    reveal_strlit(",\"name\":\"");
    reveal_strlit("\",\"date\":\"");
    reveal_strlit(",\"date\":\"");
    reveal_strlit("\"}");
    reveal_strlit("}");
    let h = "{\"index\":"@;
    let l2 = ",\"name\":\""@;
    let l3full = "\",\"date\":\""@;
    let l3 = ",\"date\":\""@;
    let l4 = "\"}"@;
    let d = dec(r.index as int);
    let e1 = esc(r.name);
    let e2 = esc(r.date);
    lemma_dec_digits(r.index as int);
    assert(l3full =~= seq!['"'] + l3);
    assert(l4 =~= seq!['"', '}']);
    let p1: int = h.len() as int;
    let p2: int = p1 + d.len();
    let p3: int = p2 + l2.len();
    let p4: int = p3 + e1.len() + 1;
    let p5: int = p4 + l3.len();
    let p6: int = p5 + e2.len() + 1;
    assert(s.len() == p6 + 1);
    assert(s.subrange(0, p1) =~= h);
    assert(spec_expect(s, 0, h) == Some(p1));
    assert(s.subrange(p1, p2) =~= d);
    assert(s[p2] == ',');
    assert(!is_digit(','));
    lemma_scan_index_dec(s, p1, r.index);
    assert(s.subrange(p2, p3) =~= l2);
    assert(spec_expect(s, p2, l2) == Some(p3));
    assert(s.subrange(p3, p4) =~= e1 + seq!['"']);
    lemma_scan_string_esc(s, p3, Seq::empty(), r.name);
    assert(Seq::empty() + r.name =~= r.name);
    assert(s.subrange(p4, p5) =~= l3);
    assert(spec_expect(s, p4, l3) == Some(p5));
    assert(s.subrange(p5, p6) =~= e2 + seq!['"']);
    lemma_scan_string_esc(s, p5, Seq::empty(), r.date);
    assert(Seq::empty() + r.date =~= r.date);
    assert(s.subrange(p6, p6 + 1) =~= "}"@);
    assert(spec_expect(s, p6, "}"@) == Some(s.len() as int));
    assert(spec_parse_record(s) == Some(SnapShotView { index: r.index, name: r.name, date: r.date }));
    assert(SnapShotView { index: r.index, name: r.name, date: r.date } == r);
}

/// The context codec round-trips: parsing the canonical document of any
/// profile name yields that name.
pub proof fn lemma_context_roundtrip(p: Seq<char>)
    ensures
        spec_parse_context(context_doc(p)) == Some(p),
{
    let s = context_doc(p);
    reveal_strlit("{\"profile\":\"");
    reveal_strlit("\"}");
    reveal_strlit("}");
    let h = "{\"profile\":\""@;
    let l4 = "\"}"@;
    let e = esc(p);
    assert(l4 =~= seq!['"', '}']);
    let p1: int = h.len() as int;
    let p2: int = p1 + e.len() + 1;
    assert(s.len() == p2 + 1);
    assert(s.subrange(0, p1) =~= h);
    assert(spec_expect(s, 0, h) == Some(p1));
    assert(s.subrange(p1, p2) =~= e + seq!['"']);
    lemma_scan_string_esc(s, p1, Seq::empty(), p);
    assert(Seq::empty() + p =~= p);
    assert(s.subrange(p2, p2 + 1) =~= "}"@);
    assert(spec_expect(s, p2, "}"@) == Some(s.len() as int));
}

/// Matches the literal `lit` at position `i` of `s`.
fn expect_lit(s: &str, slen: usize, i: usize, lit: &str) -> (r: Option<usize>)
    requires
        slen == s@.len(),
        i <= slen,
    ensures
        match r {
            Some(j) => spec_expect(s@, i as int, lit@) == Some(j as int) && i <= j <= slen,
            None => spec_expect(s@, i as int, lit@) is None,
        },
{
    let llen = lit.unicode_len();
    if llen > slen - i {
        return None;
    }
    let mut j: usize = 0;
    while j < llen
        invariant
            slen == s@.len(),
            llen == lit@.len(),
            i + llen <= slen,
            0 <= j <= llen,
            forall|k: int| 0 <= k < j ==> s@[i + k] == lit@[k],
        decreases llen - j,
    {
        if s.get_char(i + j) != lit.get_char(j) {
            proof {
                if spec_expect(s@, i as int, lit@) is Some {
                    assert(s@.subrange(i as int, i + lit@.len()) == lit@);
                    assert(s@.subrange(i as int, i + lit@.len())[j as int] == s@[i + j]);
                }
            }
            return None;
        }
        j = j + 1;
    }
    proof {
        assert(s@.subrange(i as int, i + lit@.len()) =~= lit@);
    }
    Some(i + llen)
}

/// Scans a quoted field body at `i` (after the opening quote), unescaping
/// it, and consumes the closing quote.
fn scan_string_exec(s: &str, slen: usize, i0: usize) -> (r: Option<(String, usize)>)
    requires
        slen == s@.len(),
        i0 <= slen,
    ensures
        match r {
            Some(p) => spec_scan_string(s@, i0 as int, Seq::empty()) == Some((p.0@, p.1 as int))
                && i0 <= p.1 <= slen,
            None => spec_scan_string(s@, i0 as int, Seq::empty()) is None,
        },
{
    let mut i: usize = i0;
    let mut acc = String::new();
    loop
        invariant
            slen == s@.len(),
            i0 <= i <= slen,
            spec_scan_string(s@, i0 as int, Seq::empty()) == spec_scan_string(s@, i as int, acc@),
        decreases slen - i,
    {
        if i >= slen {
            return None;
        }
        let c = s.get_char(i);
        if c == '"' {
            return Some((acc, i + 1));
        }
        if c == '\\' {
            if i + 1 >= slen {
                return None;
            }
            let c2 = s.get_char(i + 1);
            if c2 == '"' || c2 == '\\' {
                push_char(&mut acc, c2);
                i = i + 2;
            } else {
                return None;
            }
        } else {
            push_char(&mut acc, c);
            i = i + 1;
        }
    }
}

/// Scans a canonical decimal index at `i`.
fn scan_index_exec(s: &str, slen: usize, i0: usize) -> (r: Option<(u32, usize)>)
    requires
        slen == s@.len(),
        i0 <= slen,
    ensures
        match r {
            Some(p) => spec_scan_index(s@, i0 as int, 0, false) == Some((p.0, p.1 as int)) && i0
                <= p.1 <= slen,
            None => spec_scan_index(s@, i0 as int, 0, false) is None,
        },
{
    let mut i: usize = i0;
    let mut acc: u32 = 0;
    let mut any: bool = false;
    loop
        invariant
            slen == s@.len(),
            i0 <= i <= slen,
            spec_scan_index(s@, i0 as int, 0, false) == spec_scan_index(s@, i as int, acc, any),
        decreases slen - i,
    {
        if i >= slen {
            if any {
                return Some((acc, i));
            } else {
                return None;
            }
        }
        let c = s.get_char(i);
        let u = c as u32;
        if 48 <= u && u <= 57 {
            if any && acc == 0 {
                return None;
            }
            let d: u32 = u - 48;
            let big: u64 = (acc as u64) * 10 + (d as u64);
            if big > u32::MAX as u64 {
                return None;
            }
            acc = big as u32;
            any = true;
            i = i + 1;
        } else {
            if any {
                return Some((acc, i));
            } else {
                return None;
            }
        }
    }
}

/// Parses a snapshot record document; `Ok` exactly on the canonical form.
pub fn parse_record(s: &str) -> (r: Result<SnapShot, Error>)
    ensures
        match r {
            Ok(v) => spec_parse_record(s@) == Some(v@),
            Err(e) => spec_parse_record(s@) is None && e == Error::Parse,
        },
{
    let slen = s.unicode_len();
    let i1 = match expect_lit(s, slen, 0, "{\"index\":") {
        Some(j) => j,
        None => {
            return Err(Error::Parse);
        },
    };
    let (index, i2) = match scan_index_exec(s, slen, i1) {
        Some(p) => p,
        None => {
            return Err(Error::Parse);
        },
    };
    let i3 = match expect_lit(s, slen, i2, ",\"name\":\"") {
        Some(j) => j,
        None => {
            return Err(Error::Parse);
        },
    };
    let (name, i4) = match scan_string_exec(s, slen, i3) {
        Some(p) => p,
        None => {
            return Err(Error::Parse);
        },
    };
    let i5 = match expect_lit(s, slen, i4, ",\"date\":\"") {
        Some(j) => j,
        None => {
            return Err(Error::Parse);
        },
    };
    let (date, i6) = match scan_string_exec(s, slen, i5) {
        Some(p) => p,
        None => {
            return Err(Error::Parse);
        },
    };
    match expect_lit(s, slen, i6, "}") {
        Some(j) if j == slen => Ok(SnapShot { index, name, date }),
        _ => Err(Error::Parse),
    }
}

/// Parses a profile context document; `Ok` exactly on the canonical form.
pub fn parse_context(s: &str) -> (r: Result<String, Error>)
    ensures
        match r {
            Ok(p) => spec_parse_context(s@) == Some(p@),
            Err(e) => spec_parse_context(s@) is None && e == Error::Parse,
        },
{
    let slen = s.unicode_len();
    let i1 = match expect_lit(s, slen, 0, "{\"profile\":\"") {
        Some(j) => j,
        None => {
            return Err(Error::Parse);
        },
    };
    let (profile, i2) = match scan_string_exec(s, slen, i1) {
        Some(p) => p,
        None => {
            return Err(Error::Parse);
        },
    };
    match expect_lit(s, slen, i2, "}") {
        Some(j) if j == slen => Ok(profile),
        _ => Err(Error::Parse),
    }
}

/// Serializes a snapshot record as its canonical document.
pub fn record_to_document(r: &SnapShot) -> (out: String)
    ensures
        out@ == record_doc(r@),
{
    let mut out = String::new();
    out.append("{\"index\":");
    push_decimal(&mut out, r.index);
    out.append(",\"name\":\"");
    push_escaped(&mut out, r.name.as_str());
    out.append("\",\"date\":\"");
    push_escaped(&mut out, r.date.as_str());
    out.append("\"}");
    proof {
        assert(out@ =~= record_doc(r@));
    }
    out
}

/// Serializes a profile context document for the given active profile.
pub fn context_to_document(profile: &str) -> (out: String)
    ensures
        out@ == context_doc(profile@),
{
    let mut out = String::new();
    out.append("{\"profile\":\"");
    push_escaped(&mut out, profile);
    out.append("\"}");
    proof {
        assert(out@ =~= context_doc(profile@));
    }
    out
}

} // verus!
