use vstd::prelude::*;
use vstd::string::StringExecFns;
use crate::record::{feature_in_range, wf, Record, RecordView};
use crate::parse::{
    all_digits, all_features_ok, digit_val, digits_val, feature_ok, frac_val, is_digit,
    lemma_first_at_is, numeric_val, pow10, unsigned_ok, unsigned_val,
};

verus! {

/// The character of one decimal digit.
pub open spec fn digit_char(d: int) -> char {
    if d == 0 {
        '0'
    } else if d == 1 {
        '1'
    } else if d == 2 {
        '2'
    } else if d == 3 {
        '3'
    } else if d == 4 {
        '4'
    } else if d == 5 {
        '5'
    } else if d == 6 {
        '6'
    } else if d == 7 {
        '7'
    } else if d == 8 {
        '8'
    } else {
        '9'
    }
}

/// `digit_char` yields a digit and `digit_val` reads it back.
pub proof fn lemma_digit_char_val(d: int)
    requires
        0 <= d <= 9,
    ensures
        is_digit(digit_char(d)),
        digit_val(digit_char(d)) == d,
{
}

/// The canonical decimal digits of a number, most significant first.
pub open spec fn dec_digits(n: nat) -> Seq<char>
    decreases n,
{
    if n < 10 {
        seq![digit_char(n as int)]
    } else {
        dec_digits(n / 10) + seq![digit_char((n % 10) as int)]
    }
}

/// The canonical digits are digits, read back as the number itself,
/// and there is at least one of them.
pub proof fn lemma_dec_digits(n: nat)
    ensures
        all_digits(dec_digits(n)),
        digits_val(dec_digits(n)) == n,
        dec_digits(n).len() >= 1,
    decreases n,
{
    if n < 10 {
        lemma_digit_char_val(n as int);
        let s = dec_digits(n);
        assert(s =~= seq![digit_char(n as int)]);
        assert(s.len() == 1);
        assert(s.last() == digit_char(n as int));
        assert(s.drop_last() =~= Seq::<char>::empty());
        assert(digits_val(s.drop_last()) == 0);
        assert(digits_val(s) == digits_val(s.drop_last()) * 10 + digit_val(s.last()));
    } else {
        lemma_dec_digits(n / 10);
        lemma_digit_char_val((n % 10) as int);
        let whole = dec_digits(n);
        assert(whole.drop_last() =~= dec_digits(n / 10));
        assert(whole.last() == digit_char((n % 10) as int));
        assert(all_digits(whole)) by {
            assert(forall|i: int| 0 <= i < whole.len() - 1 ==> whole[i] == dec_digits(n / 10)[i]);
        }
        assert(digits_val(whole) == (n / 10) * 10 + (n % 10));
        assert((n / 10) * 10 + (n % 10) == n) by (nonlinear_arith);
    }
}

/// The four digit characters of a fraction value, zero padded.
pub open spec fn frac4(f: int) -> Seq<char> {
    seq![
        digit_char(f / 1000),
        digit_char((f / 100) % 10),
        digit_char((f / 10) % 10),
        digit_char(f % 10),
    ]
}

/// Reading the four padded digits back yields the fraction value.
pub proof fn lemma_frac4_val(f: int)
    requires
        0 <= f < 10000,
    ensures
        all_digits(frac4(f)),
        digits_val(frac4(f)) == f,
{
    let a = f / 1000;
    let b = (f / 100) % 10;
    let c = (f / 10) % 10;
    let d = f % 10;
    lemma_digit_char_val(a);
    lemma_digit_char_val(b);
    lemma_digit_char_val(c);
    lemma_digit_char_val(d);
    let s = frac4(f);
    assert(all_digits(s)) by {
        assert(s[0] == digit_char(a) && s[1] == digit_char(b) && s[2] == digit_char(c) && s[3]
            == digit_char(d));
    }
    let e0 = Seq::<char>::empty();
    let s1 = seq![digit_char(a)];
    let s2 = seq![digit_char(a), digit_char(b)];
    let s3 = seq![digit_char(a), digit_char(b), digit_char(c)];
    assert(s.drop_last() =~= s3);
    assert(s.last() == digit_char(d));
    assert(s3.drop_last() =~= s2);
    assert(s3.last() == digit_char(c));
    assert(s2.drop_last() =~= s1);
    assert(s2.last() == digit_char(b));
    assert(s1.drop_last() =~= e0);
    assert(s1.last() == digit_char(a));
    assert(digits_val(e0) == 0);
    assert(digits_val(s1) == digits_val(s1.drop_last()) * 10 + digit_val(s1.last()));
    assert(digits_val(s1) == a);
    assert(digits_val(s2) == digits_val(s2.drop_last()) * 10 + digit_val(s2.last()));
    assert(digits_val(s2) == a * 10 + b);
    assert(digits_val(s3) == digits_val(s3.drop_last()) * 10 + digit_val(s3.last()));
    assert(digits_val(s3) == (a * 10 + b) * 10 + c);
    assert(digits_val(s) == digits_val(s.drop_last()) * 10 + digit_val(s.last()));
    assert(digits_val(s) == ((a * 10 + b) * 10 + c) * 10 + d);
    assert(((a * 10 + b) * 10 + c) * 10 + d == f) by (nonlinear_arith)
        requires
            0 <= f < 10000,
            a == f / 1000,
            b == (f / 100) % 10,
            c == (f / 10) % 10,
            d == f % 10,
    ;
}

/// The canonical text of a fixed-point feature value: an optional minus
/// sign, the integer part's digits, a decimal point, and exactly four
/// fraction digits.
pub open spec fn fmt_feature(v: int) -> Seq<char> {
    let m = if v < 0 {
        -v
    } else {
        v
    };
    let sign: Seq<char> = if v < 0 {
        seq!['-']
    } else {
        Seq::empty()
    };
    sign + dec_digits((m / 10000) as nat) + seq!['.'] + frac4(m % 10000)
}

/// Round trip of one feature value: its canonical text is an acceptable
/// feature column, and parsing that text yields the value back exactly.
pub proof fn lemma_feature_round_trip(v: int)
    requires
        feature_in_range(v),
    ensures
        feature_ok(fmt_feature(v)),
        numeric_val(fmt_feature(v)) == v,
{
    let m = if v < 0 {
        -v
    } else {
        v
    };
    let ip = dec_digits((m / 10000) as nat);
    let fr = frac4(m % 10000);
    let u = ip + seq!['.'] + fr;
    lemma_dec_digits((m / 10000) as nat);
    lemma_frac4_val(m % 10000);
    let p = ip.len() as int;
    assert(u[p] == '.');
    assert(forall|j: int| 0 <= j < p ==> u[j] == ip[j]);
    assert(forall|j: int| 0 <= j < p ==> is_digit(#[trigger] u[j]) && u[j] != '.');
    lemma_first_at_is(u, '.', p);
    assert(u.take(p) =~= ip);
    assert(u.skip(p + 1) =~= fr);
    assert(unsigned_ok(u));
    assert(fr.take(4) =~= fr);
    assert(frac_val(fr) == digits_val(fr) * pow10(0));
    assert(unsigned_val(u) == (m / 10000) * 10000 + (m % 10000));
    assert((m / 10000) * 10000 + (m % 10000) == m) by (nonlinear_arith);
    let s = fmt_feature(v);
    if v < 0 {
        assert(s =~= seq!['-'] + u);
        assert(s[0] == '-');
        assert(s.drop_first() =~= u);
        assert(numeric_val(s) == -m);
    } else {
        assert(s =~= u);
        assert(is_digit(u[0]));
        assert(u[0] != '-');
        assert(numeric_val(s) == m);
    }
}

/// Round trip of a whole serialized row: the columns a record
/// serializes to are all acceptable feature columns, they parse back to
/// exactly the record's feature values, and the last column is its
/// label. Together with the parser's contract this says that parsing a
/// serialized record reconstructs its features and label exactly.
pub proof fn lemma_row_round_trip(cols: Seq<Seq<char>>, r: RecordView)
    requires
        wf(r),
        cols.len() == r.features.len() + 1,
        forall|i: int| 0 <= i < r.features.len() ==> #[trigger] cols[i] == fmt_feature(
            r.features[i],
        ),
        cols.last() == r.label,
    ensures
        all_features_ok(cols),
        forall|i: int| 0 <= i < r.features.len() ==> numeric_val(#[trigger] cols[i])
            == r.features[i],
{
    assert forall|i: int| 0 <= i < r.features.len() implies feature_ok(#[trigger] cols[i])
        && numeric_val(cols[i]) == r.features[i] by {
        lemma_feature_round_trip(r.features[i]);
    }
}

/// The text of one decimal digit.
fn digit_str(d: u64) -> (r: &'static str)
    requires
        d < 10,
    ensures
        r@ == seq![digit_char(d as int)],
{
    proof {
        reveal_strlit("0");
        reveal_strlit("1");
        reveal_strlit("2");
        reveal_strlit("3");
        reveal_strlit("4");
        reveal_strlit("5");
        reveal_strlit("6");
        reveal_strlit("7");
        reveal_strlit("8");
        reveal_strlit("9");
    }
    if d == 0 {
        "0"
    } else if d == 1 {
        "1"
    } else if d == 2 {
        "2"
    } else if d == 3 {
        "3"
    } else if d == 4 {
        "4"
    } else if d == 5 {
        "5"
    } else if d == 6 {
        "6"
    } else if d == 7 {
        "7"
    } else if d == 8 {
        "8"
    } else {
        "9"
    }
}

/// Appends the canonical decimal digits of `n`.
fn push_dec_digits(n: u64, out: &mut String)
    ensures
        final(out)@ == old(out)@ + dec_digits(n as nat),
    decreases n,
{
    if n < 10 {
        out.append(digit_str(n));
    } else {
        push_dec_digits(n / 10, out);
        out.append(digit_str(n % 10));
        proof {
            assert(final(out)@ =~= old(out)@ + dec_digits(n as nat));
        }
    }
}

/// Formats one fixed-point feature value as its canonical text.
pub fn format_feature(v: i64) -> (r: String)
    requires
        feature_in_range(v as int),
    ensures
        r@ == fmt_feature(v as int),
{
    proof {
        reveal_strlit("-");
        reveal_strlit(".");
    }
    let mut out = String::new();
    let m: u64;
    if v < 0 {
        out.append("-");
        m = (-v) as u64;
    } else {
        m = v as u64;
    }
    push_dec_digits(m / 10000, &mut out);
    out.append(".");
    let f = m % 10000;
    out.append(digit_str(f / 1000));
    out.append(digit_str((f / 100) % 10));
    out.append(digit_str((f / 10) % 10));
    out.append(digit_str(f % 10));
    proof {
        assert(out@ =~= fmt_feature(v as int));
    }
    out
}

/// Serializes a record back to columns: each feature value formatted as
/// its canonical text, then the label appended as the last column.
///
/// By `lemma_row_round_trip` and the parser's contract, parsing the
/// returned columns yields the record's features and label back
/// exactly.
pub fn to_row(r: &Record) -> (cols: Vec<String>)
    requires
        wf(r@),
    ensures
        cols@.len() == r@.features.len() + 1,
        forall|i: int| 0 <= i < r@.features.len() ==> (#[trigger] cols@[i])@ == fmt_feature(
            r@.features[i],
        ),
        cols@.last()@ == r@.label,
{
    let n = r.features.len();
    let mut cols: Vec<String> = Vec::new();
    let mut i: usize = 0;
    while i < n
        invariant
            i <= n,
            n == r.features@.len(),
            wf(r@),
            cols@.len() == i as int,
            forall|j: int| 0 <= j < i ==> (#[trigger] cols@[j])@ == fmt_feature(r@.features[j]),
        decreases n - i,
    {
        proof {
            assert(r@.features[i as int] == r.features@[i as int] as int);
        }
        cols.push(format_feature(r.features[i]));
        i += 1;
    }
    cols.push(r.label.clone());
    cols
}

} // verus!
