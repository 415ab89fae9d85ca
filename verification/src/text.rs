//! Character-level helpers shared by the metadata codec: decimal digits for
//! the snapshot index and the escaping of string field values.

use vstd::prelude::*;

verus! {

/// A decimal digit character.
pub open spec fn is_digit(c: char) -> bool {
    ('0' as u32) <= (c as u32) && (c as u32) <= ('9' as u32)
}

/// The numeric value of a digit character.
pub open spec fn dval(c: char) -> int {
    (c as u32) - ('0' as u32)
}

/// The digit character for a value below ten.
pub open spec fn digit_char(d: int) -> char {
    if d == 0 {
        '0'
    } else if d == 1 {
        '1'
    } else if d == 2 {
        '2'
    } else if d == 3 {
        '3'
    } else if d == 4 {
        '4'
    } else if d == 5 {
        '5'
    } else if d == 6 {
        '6'
    } else if d == 7 {
        '7'
    } else if d == 8 {
        '8'
    } else {
        '9'
    }
}

/// The canonical decimal rendering of `n`: no sign, no leading zero.
pub open spec fn dec(n: int) -> Seq<char>
    decreases n,
{
    if n < 10 {
        seq![digit_char(n)]
    } else {
        dec(n / 10) + seq![digit_char(n % 10)]
    }
}

/// Every character of `dec(n)` is a digit, and the first one is `'0'`
/// only when `n` itself is zero.
pub proof fn lemma_dec_digits(n: int)
    requires
        0 <= n,
    ensures
        dec(n).len() >= 1,
        forall|i: int| 0 <= i < dec(n).len() ==> is_digit(#[trigger] dec(n)[i]),
        dval(dec(n)[0]) == 0 <==> n == 0,
        n == 0 ==> dec(n).len() == 1,
    decreases n,
{
    if n < 10 {
        assert(dec(n) =~= seq![digit_char(n)]);
    } else {
        lemma_dec_digits(n / 10);
        assert(dec(n)[0] == dec(n / 10)[0]);
        assert(forall|i: int|
            0 <= i < dec(n).len() ==> #[trigger] dec(n)[i] == if i < dec(n / 10).len() {
                dec(n / 10)[i]
            } else {
                digit_char(n % 10)
            });
    }
}

/// Left-to-right accumulation of digit characters, as a scanner consumes
/// them: each step multiplies by ten and adds the next digit.
pub open spec fn extend_val(acc: int, ds: Seq<char>) -> int
    decreases ds.len(),
{
    if ds.len() == 0 {
        acc
    } else {
        extend_val(acc * 10 + dval(ds[0]), ds.drop_first())
    }
}

/// Appending one digit on the right multiplies the accumulated value by ten.
pub proof fn lemma_extend_val_snoc(acc: int, ds: Seq<char>, c: char)
    ensures
        extend_val(acc, ds.push(c)) == extend_val(acc, ds) * 10 + dval(c),
    decreases ds.len(),
{
    assert(ds.push(c)[0] == if ds.len() == 0 {
        c
    } else {
        ds[0]
    });
    if ds.len() == 0 {
        assert(ds.push(c).drop_first() =~= Seq::<char>::empty());
        assert(extend_val(acc * 10 + dval(c), Seq::<char>::empty()) == acc * 10 + dval(c));
    } else {
        assert(ds.push(c).drop_first() =~= ds.drop_first().push(c));
        lemma_extend_val_snoc(acc * 10 + dval(ds[0]), ds.drop_first(), c);
    }
}

/// Accumulating digits never decreases a nonnegative accumulator.
pub proof fn lemma_extend_val_mono(acc: int, ds: Seq<char>)
    requires
        0 <= acc,
        forall|k: int| 0 <= k < ds.len() ==> is_digit(#[trigger] ds[k]),
    ensures
        acc <= extend_val(acc, ds),
    decreases ds.len(),
{
    if ds.len() > 0 {
        assert(is_digit(ds[0]));
        assert(forall|k: int|
            0 <= k < ds.drop_first().len() ==> is_digit(#[trigger] ds.drop_first()[k]));
        lemma_extend_val_mono(acc * 10 + dval(ds[0]), ds.drop_first());
    }
}

/// Scanning the canonical decimal rendering of `n` recovers `n`.
pub proof fn lemma_extend_val_dec(n: int)
    requires
        0 <= n,
    ensures
        extend_val(0, dec(n)) == n,
    decreases n,
{
    if n < 10 {
        assert(dec(n) =~= Seq::<char>::empty().push(digit_char(n)));
        lemma_extend_val_snoc(0, Seq::<char>::empty(), digit_char(n));
    } else {
        lemma_extend_val_dec(n / 10);
        assert(dec(n) =~= dec(n / 10).push(digit_char(n % 10)));
        lemma_extend_val_snoc(0, dec(n / 10), digit_char(n % 10));
    }
}

/// The escaped form of one character inside a quoted field: quotes and
/// backslashes take a leading backslash, everything else stands as itself.
pub open spec fn esc_char(c: char) -> Seq<char> {
    if c == '"' {
        seq!['\\', '"']
    } else if c == '\\' {
        seq!['\\', '\\']
    } else {
        seq![c]
    }
}

/// The escaped form of a whole field value.
pub open spec fn esc(s: Seq<char>) -> Seq<char>
    decreases s.len(),
{
    if s.len() == 0 {
        Seq::empty()
    } else {
        esc_char(s[0]) + esc(s.drop_first())
    }
}

/// Escaping distributes over appending one character on the right.
pub proof fn lemma_esc_snoc(s: Seq<char>, c: char)
    ensures
        esc(s.push(c)) == esc(s) + esc_char(c),
    decreases s.len(),
{
    assert(s.push(c)[0] == if s.len() == 0 {
        c
    } else {
        s[0]
    });
    if s.len() == 0 {
        assert(s.push(c).drop_first() =~= Seq::<char>::empty());
        assert(esc(s.push(c)) =~= esc_char(c) + esc(Seq::<char>::empty()));
        assert(esc(s.push(c)) =~= esc_char(c));
        assert(esc(s) + esc_char(c) =~= esc_char(c));
    } else {
        assert(s.push(c).drop_first() =~= s.drop_first().push(c));
        lemma_esc_snoc(s.drop_first(), c);
        assert(esc(s.push(c)) =~= esc(s) + esc_char(c));
    }
}

/// Relies on `String::push`: appends exactly the given character.
#[verifier::external_body]
pub(crate) fn push_char(out: &mut String, c: char)
    ensures
        final(out)@ == old(out)@.push(c),
{
    out.push(c);
}

/// The digit character for an index-digit value, executably.
pub(crate) fn digit_char_exec(d: u32) -> (c: char)
    requires
        d < 10,
    ensures
        c == digit_char(d as int),
{
    if d == 0 {
        '0'
    } else if d == 1 {
        '1'
    } else if d == 2 {
        '2'
    } else if d == 3 {
        '3'
    } else if d == 4 {
        '4'
    } else if d == 5 {
        '5'
    } else if d == 6 {
        '6'
    } else if d == 7 {
        '7'
    } else if d == 8 {
        '8'
    } else {
        '9'
    }
}

/// Appends the canonical decimal rendering of `n` to `out`.
pub(crate) fn push_decimal(out: &mut String, n: u32)
    ensures
        final(out)@ == old(out)@ + dec(n as int),
    decreases n,
{
    if n < 10 {
        push_char(out, digit_char_exec(n));
        assert(final(out)@ =~= old(out)@ + dec(n as int));
    } else {
        push_decimal(out, n / 10);
        push_char(out, digit_char_exec(n % 10));
        assert(final(out)@ =~= old(out)@ + dec(n as int));
    }
}

/// Appends the escaped form of `s` to `out`.
pub(crate) fn push_escaped(out: &mut String, s: &str)
    ensures
        final(out)@ == old(out)@ + esc(s@),
{
    let len: usize = s.unicode_len();
    let mut i: usize = 0;
    while i < len
        invariant
            len == s@.len(),
            0 <= i <= len,
            out@ == old(out)@ + esc(s@.subrange(0, i as int)),
        decreases len - i,
    {
        let c = s.get_char(i);
        if c == '"' {
            push_char(out, '\\');
            push_char(out, '"');
        } else if c == '\\' {
            push_char(out, '\\');
            push_char(out, '\\');
        } else {
            push_char(out, c);
        }
        proof {
            lemma_esc_snoc(s@.subrange(0, i as int), c);
            assert(s@.subrange(0, i + 1 as int) =~= s@.subrange(0, i as int).push(c));
            assert(out@ =~= old(out)@ + esc(s@.subrange(0, i + 1 as int)));
        }
        i = i + 1;
    }
    proof {
        assert(s@.subrange(0, len as int) =~= s@);
    }
}

} // verus!
