use vstd::prelude::*;
use crate::record::{feature_in_range, wf, Record};

verus! {

/// The decimal digits.
pub open spec fn is_digit(c: char) -> bool {
    '0' as int <= c as int <= '9' as int
}

/// The value of one decimal digit.
pub open spec fn digit_val(c: char) -> int {
    c as int - '0' as int
}

/// Every character of the sequence is a decimal digit.
pub open spec fn all_digits(s: Seq<char>) -> bool {
    forall|i: int| 0 <= i < s.len() ==> is_digit(#[trigger] s[i])
}

/// The value of a sequence of decimal digits, most significant first.
pub open spec fn digits_val(s: Seq<char>) -> int
    decreases s.len(),
{
    if s.len() == 0 {
        0
    } else {
        digits_val(s.drop_last()) * 10 + digit_val(s.last())
    }
}

/// A digit sequence's value is never negative.
pub proof fn lemma_digits_val_nonneg(s: Seq<char>)
    requires
        all_digits(s),
    ensures
        digits_val(s) >= 0,
    decreases s.len(),
{
    if s.len() == 0 {
    } else {
        assert(all_digits(s.drop_last())) by {
            assert(forall|i: int| 0 <= i < s.len() - 1 ==> s.drop_last()[i] == s[i]);
        }
        lemma_digits_val_nonneg(s.drop_last());
        assert(is_digit(s.last()));
    }
}

/// Ten to the given power.
pub open spec fn pow10(n: nat) -> int
    decreases n,
{
    if n == 0 {
        1
    } else {
        10 * pow10((n - 1) as nat)
    }
}

/// A sequence of `n` digits has a value below ten to the `n`.
pub proof fn lemma_digits_val_upper(s: Seq<char>)
    requires
        all_digits(s),
    ensures
        digits_val(s) < pow10(s.len()),
    decreases s.len(),
{
    if s.len() == 0 {
    } else {
        assert(all_digits(s.drop_last())) by {
            assert(forall|i: int| 0 <= i < s.len() - 1 ==> s.drop_last()[i] == s[i]);
        }
        lemma_digits_val_upper(s.drop_last());
        assert(is_digit(s.last()));
        assert(digits_val(s.drop_last()) * 10 + 9 < pow10(s.len() as nat)) by {
            assert(pow10(s.len() as nat) == 10 * pow10((s.len() - 1) as nat));
        }
    }
}

/// Extending a digit sequence never shrinks its value.
pub proof fn lemma_digits_val_prefix_le(s: Seq<char>, m: int)
    requires
        all_digits(s),
        0 <= m <= s.len(),
    ensures
        digits_val(s.take(m)) <= digits_val(s),
    decreases s.len() - m,
{
    if m == s.len() {
        assert(s.take(m) =~= s);
    } else {
        lemma_digits_val_prefix_le(s, m + 1);
        let t = s.take(m + 1);
        assert(t.drop_last() =~= s.take(m));
        assert(t.last() == s[m]);
        assert(all_digits(s.take(m))) by {
            assert(forall|i: int| 0 <= i < m ==> s.take(m)[i] == s[i]);
        }
        lemma_digits_val_nonneg(s.take(m));
        assert(is_digit(s[m]));
        assert(digits_val(s.take(m)) * 10 >= digits_val(s.take(m)));
    }
}

/// Index of the first occurrence of `c` in `s`, or the length of `s`
/// when `c` does not occur.
pub open spec fn first_at(s: Seq<char>, c: char) -> int
    decreases s.len(),
{
    if s.len() == 0 {
        0
    } else if s[0] == c {
        0
    } else {
        1 + first_at(s.drop_first(), c)
    }
}

/// `first_at` is in range; it points at `c` when `c` occurs, and
/// nothing before it is `c`.
pub proof fn lemma_first_at_props(s: Seq<char>, c: char)
    ensures
        0 <= first_at(s, c) <= s.len(),
        first_at(s, c) < s.len() ==> s[first_at(s, c)] == c,
        forall|j: int| 0 <= j < first_at(s, c) ==> s[j] != c,
    decreases s.len(),
{
    if s.len() == 0 {
    } else if s[0] == c {
    } else {
        let rest = s.drop_first();
        lemma_first_at_props(rest, c);
        assert forall|j: int| 0 <= j < first_at(s, c) implies s[j] != c by {
            if j >= 1 {
                assert(s[j] == rest[j - 1]);
                assert(rest[j - 1] != c);
            }
        }
    }
}

/// The scaled value of a fraction part: the first four digits, padded
/// with zeros to four places; further digits are beyond the kept
/// precision and are ignored.
pub open spec fn frac_val(f: Seq<char>) -> int {
    let m = if f.len() <= 4 {
        f.len() as int
    } else {
        4
    };
    digits_val(f.take(m)) * pow10((4 - m) as nat)
}

/// An unsigned numeric literal: one or more digits, optionally followed
/// by a decimal point and one or more digits.
pub open spec fn unsigned_ok(s: Seq<char>) -> bool {
    let p = first_at(s, '.');
    if p == s.len() {
        s.len() > 0 && all_digits(s)
    } else {
        p >= 1 && all_digits(s.take(p)) && p + 1 < s.len() && all_digits(s.skip(p + 1))
    }
}

/// The scaled value of an unsigned numeric literal.
pub open spec fn unsigned_val(s: Seq<char>) -> int {
    let p = first_at(s, '.');
    if p == s.len() {
        digits_val(s) * 10000
    } else {
        digits_val(s.take(p)) * 10000 + frac_val(s.skip(p + 1))
    }
}

/// A numeric literal: an optional leading minus sign, then an unsigned
/// literal. This is the whole grammar the parser accepts.
pub open spec fn numeric_ok(s: Seq<char>) -> bool {
    if s.len() > 0 && s[0] == '-' {
        unsigned_ok(s.drop_first())
    } else {
        unsigned_ok(s)
    }
}

/// The scaled value a numeric literal denotes.
pub open spec fn numeric_val(s: Seq<char>) -> int {
    if s.len() > 0 && s[0] == '-' {
        -unsigned_val(s.drop_first())
    } else {
        unsigned_val(s)
    }
}

/// A feature column is acceptable when it is a numeric literal whose
/// scaled value is within the feature bounds.
pub open spec fn feature_ok(s: Seq<char>) -> bool {
    numeric_ok(s) && feature_in_range(numeric_val(s))
}

/// Why one feature column was rejected.
#[derive(Debug, Clone, Copy, PartialEq, Eq, Structural)]
pub enum ParseCause {
    /// The text is not a numeric literal.
    Malformed,
    /// The text is numeric but its value exceeds the feature bounds.
    OutOfRange,
}

/// First index at or after `from` holding a non-digit, or `n`.
fn scan_digits(s: &str, from: usize, n: usize) -> (end: usize)
    requires
        n == s@.len(),
        from <= n,
    ensures
        from <= end <= n,
        forall|j: int| from <= j < end ==> is_digit(#[trigger] s@[j]),
        end < n ==> !is_digit(s@[end as int]),
{
    let mut i = from;
    while i < n
        invariant
            from <= i <= n,
            n == s@.len(),
            forall|j: int| from <= j < i ==> is_digit(#[trigger] s@[j]),
        decreases n - i,
    {
        let c = s.get_char(i);
        let u = c as u32;
        if !(48 <= u && u <= 57) {
            return i;
        }
        i += 1;
    }
    i
}

/// The value of the digits in `s[from..to]`, unless it exceeds `cap`.
fn digits_value(s: &str, from: usize, to: usize, cap: u64) -> (r: Option<u64>)
    requires
        to <= s@.len(),
        from <= to,
        forall|j: int| from <= j < to ==> is_digit(#[trigger] s@[j]),
        cap <= 1000000000,
    ensures
        r matches Some(v) ==> v as int == digits_val(s@.subrange(from as int, to as int)) && v
            <= cap,
        r is None ==> digits_val(s@.subrange(from as int, to as int)) > cap,
{
    let ghost whole = s@.subrange(from as int, to as int);
    proof {
        assert(all_digits(whole));
    }
    let mut acc: u64 = 0;
    let mut j = from;
    while j < to
        invariant
            from <= j <= to,
            to <= s@.len(),
            forall|t: int| from <= t < to ==> is_digit(#[trigger] s@[t]),
            whole == s@.subrange(from as int, to as int),
            cap <= 1000000000,
            acc <= cap,
            acc as int == digits_val(s@.subrange(from as int, j as int)),
        decreases to - j,
    {
        let c = s.get_char(j);
        let d = (c as u32 - 48) as u64;
        proof {
            assert(is_digit(s@[j as int]));
            let pre = s@.subrange(from as int, j as int);
            let ext = s@.subrange(from as int, j + 1 as int);
            assert(ext.drop_last() =~= pre);
            assert(ext.last() == s@[j as int]);
        }
        let next = acc * 10 + d;
        if next > cap {
            proof {
                let ext = s@.subrange(from as int, j + 1 as int);
                assert(all_digits(ext)) by {
                    assert(forall|t: int| 0 <= t < ext.len() ==> ext[t] == s@[from + t]);
                }
                assert(ext =~= whole.take(j + 1 - from));
                lemma_digits_val_prefix_le(whole, j + 1 - from);
            }
            return None;
        }
        acc = next;
        j += 1;
    }
    Some(acc)
}

} // verus!

verus! {

/// When everything before `p` differs from `c`, and `p` (if in range)
/// holds `c`, then `p` is the first occurrence.
pub proof fn lemma_first_at_is(s: Seq<char>, c: char, p: int)
    requires
        0 <= p <= s.len(),
        forall|j: int| 0 <= j < p ==> s[j] != c,
        p < s.len() ==> s[p] == c,
    ensures
        first_at(s, c) == p,
{
    lemma_first_at_props(s, c);
    let f = first_at(s, c);
    if f < p {
        assert(s[f] == c);
    } else if f > p {
        assert(s[p] != c);
    }
}

/// Parses one feature column.
///
/// Accepts exactly the literals of `numeric_ok` — an optional minus
/// sign, digits, and optionally a decimal point followed by digits —
/// and returns the scaled fixed-point value, keeping four decimal
/// digits of the fraction. Rejects any other text as `Malformed`, and
/// a numeric literal whose value exceeds the feature bounds as
/// `OutOfRange`.
#[verifier::rlimit(100)]
pub fn parse_feature(s: &str) -> (r: Result<i64, ParseCause>)
    ensures
        r is Ok <==> feature_ok(s@),
        r matches Ok(v) ==> v as int == numeric_val(s@) && feature_in_range(v as int),
        r == Err::<i64, ParseCause>(ParseCause::Malformed) <==> !numeric_ok(s@),
        r == Err::<i64, ParseCause>(ParseCause::OutOfRange) <==> numeric_ok(s@)
            && !feature_in_range(numeric_val(s@)),
{
    let ghost sv = s@;
    let n = s.unicode_len();
    let neg = if n > 0 {
        s.get_char(0) == '-'
    } else {
        false
    };
    let off: usize = if neg {
        1
    } else {
        0
    };
    let ghost u: Seq<char> = if neg {
        sv.skip(1)
    } else {
        sv
    };
    proof {
        assert(u.len() == n - off);
        assert(forall|j: int| 0 <= j < u.len() ==> u[j] == sv[j + off]);
        assert(numeric_ok(sv) == unsigned_ok(u));
        assert(numeric_val(sv) == if neg {
            -unsigned_val(u)
        } else {
            unsigned_val(u)
        });
    }
    let iend = scan_digits(s, off, n);
    let ghost pd = iend - off;
    proof {
        assert(forall|j: int| 0 <= j < pd ==> is_digit(#[trigger] u[j]));
    }
    if iend == off {
        proof {
            lemma_first_at_props(u, '.');
            let p = first_at(u, '.');
            if u.len() > 0 {
                assert(u[0] == sv[off as int]);
                assert(!is_digit(u[0]));
                if p == u.len() {
                    assert(!all_digits(u));
                } else if p >= 1 {
                    assert(u.take(p)[0] == u[0]);
                    assert(!all_digits(u.take(p)));
                }
            }
            assert(!unsigned_ok(u));
        }
        return Err(ParseCause::Malformed);
    }
    let intval = digits_value(s, off, iend, 100000);
    let ghost ipart = sv.subrange(off as int, iend as int);
    proof {
        assert(ipart =~= u.take(pd));
    }
    if iend == n {
        proof {
            assert(forall|j: int| 0 <= j < u.len() ==> is_digit(#[trigger] u[j]));
            assert(forall|j: int| 0 <= j < u.len() ==> u[j] != '.');
            lemma_first_at_is(u, '.', u.len() as int);
            assert(unsigned_ok(u));
            assert(u.take(pd) =~= u);
            assert(unsigned_val(u) == digits_val(u) * 10000);
        }
        match intval {
            None => {
                proof {
                    assert(digits_val(u) > 100000);
                    assert(unsigned_val(u) > 1000000000);
                }
                return Err(ParseCause::OutOfRange);
            },
            Some(v) => {
                let scaled = v * 10000;
                let res: i64 = if neg {
                    -(scaled as i64)
                } else {
                    scaled as i64
                };
                return Ok(res);
            },
        }
    }
    let c = s.get_char(iend);
    if c != '.' {
        proof {
            lemma_first_at_props(u, '.');
            let p = first_at(u, '.');
            assert(u[pd] == sv[iend as int]);
            assert(!is_digit(u[pd]) && u[pd] != '.');
            if p == u.len() {
                assert(!all_digits(u));
            } else {
                if p < pd {
                    assert(is_digit(u[p]));
                    assert(u[p] == '.');
                    assert(false);
                }
                assert(p > pd);
                assert(u.take(p)[pd] == u[pd]);
                assert(!all_digits(u.take(p)));
            }
            assert(!unsigned_ok(u));
        }
        return Err(ParseCause::Malformed);
    }
    proof {
        assert(u[pd] == sv[iend as int]);
        assert(u[pd] == '.');
        assert(forall|j: int| 0 <= j < pd ==> u[j] != '.');
        lemma_first_at_is(u, '.', pd);
    }
    let fstart = iend + 1;
    let fend = scan_digits(s, fstart, n);
    let ghost fpart = u.skip(pd + 1);
    proof {
        assert(fpart.len() == n - fstart);
        assert(forall|t: int| 0 <= t < fpart.len() ==> fpart[t] == sv[fstart + t]);
    }
    if fend == fstart {
        proof {
            if fstart < n {
                assert(!is_digit(sv[fstart as int]));
                assert(fpart[0] == sv[fstart as int]);
                assert(!all_digits(fpart));
            }
            assert(!unsigned_ok(u));
        }
        return Err(ParseCause::Malformed);
    }
    if fend < n {
        proof {
            assert(!is_digit(sv[fend as int]));
            assert(fpart[fend - fstart] == sv[fend as int]);
            assert(!all_digits(fpart));
            assert(!unsigned_ok(u));
        }
        return Err(ParseCause::Malformed);
    }
    let flen = fend - fstart;
    let ghost m: int = if flen <= 4 {
        flen as int
    } else {
        4
    };
    proof {
        assert(all_digits(u.take(pd)));
        assert(forall|t: int| 0 <= t < fpart.len() ==> is_digit(#[trigger] fpart[t]));
        assert(all_digits(fpart));
        assert(unsigned_ok(u));
        assert(unsigned_val(u) == digits_val(u.take(pd)) * 10000 + frac_val(fpart));
        assert(pow10(0) == 1);
        assert(pow10(1) == 10);
        assert(pow10(2) == 100);
        assert(pow10(3) == 1000);
        assert(pow10(4) == 10000);
    }
    let ftake = if flen > 4 {
        fstart + 4
    } else {
        fend
    };
    let ghost kept = sv.subrange(fstart as int, ftake as int);
    proof {
        assert(kept =~= fpart.take(m));
        assert(all_digits(kept)) by {
            assert(forall|t: int| 0 <= t < kept.len() ==> kept[t] == fpart[t]);
        }
        lemma_digits_val_upper(kept);
        lemma_digits_val_nonneg(kept);
    }
    let fv = match digits_value(s, fstart, ftake, 9999) {
        Some(v) => v,
        None => {
            proof {
                assert(false);
            }
            0
        },
    };
    let pad: u64 = if flen >= 4 {
        1
    } else if flen == 3 {
        10
    } else if flen == 2 {
        100
    } else {
        1000
    };
    proof {
        assert(fv * pad <= 9999000) by (nonlinear_arith)
            requires
                0 <= fv <= 9999,
                0 <= pad <= 1000,
        ;
    }
    let frac = fv * pad;
    proof {
        if flen >= 4 {
            assert(m == 4 && pad == 1);
            assert(digits_val(kept) < pow10(4));
            assert(frac_val(fpart) == digits_val(kept) * pow10(0));
        } else if flen == 3 {
            assert(m == 3 && pad == 10);
            assert(digits_val(kept) < pow10(3));
            assert(frac_val(fpart) == digits_val(kept) * pow10(1));
        } else if flen == 2 {
            assert(m == 2 && pad == 100);
            assert(digits_val(kept) < pow10(2));
            assert(frac_val(fpart) == digits_val(kept) * pow10(2));
        } else {
            assert(m == 1 && pad == 1000);
            assert(digits_val(kept) < pow10(1));
            assert(frac_val(fpart) == digits_val(kept) * pow10(3));
        }
        assert(frac as int == frac_val(fpart));
        assert(0 <= frac_val(fpart) < 10000);
    }
    match intval {
        None => {
            proof {
                assert(digits_val(u.take(pd)) > 100000);
                assert(unsigned_val(u) > 1000000000);
            }
            return Err(ParseCause::OutOfRange);
        },
        Some(v) => {
            let total = v * 10000 + frac;
            if total > 1000000000 {
                return Err(ParseCause::OutOfRange);
            }
            let res: i64 = if neg {
                -(total as i64)
            } else {
                total as i64
            };
            Ok(res)
        },
    }
}

} // verus!

verus! {

/// Why a whole row was rejected.
#[derive(Debug, PartialEq, Eq)]
pub enum ParseError {
    /// The row has no feature columns: it is empty, or holds only the
    /// label column, and a record's feature vector must be non-empty.
    Empty,
    /// A feature column is not an acceptable numeric literal; the whole
    /// record is rejected, no partial record is produced.
    BadFeature { column_index: usize, raw_text: String, cause: ParseCause },
}

/// The views of a sequence of columns.
pub open spec fn col_views(cols: Seq<String>) -> Seq<Seq<char>> {
    cols.map_values(|c: String| c@)
}

/// Every feature column (all but the last) is acceptable.
pub open spec fn all_features_ok(cols: Seq<Seq<char>>) -> bool {
    forall|i: int| 0 <= i < cols.len() - 1 ==> feature_ok(#[trigger] cols[i])
}

/// Parses one row, given as its columns: every column but the last is a
/// feature, the last is the label (arbitrary text, kept byte for byte).
///
/// On success the record carries the placeholder id 0; the caller
/// assigns the real id from the 1-based line number of the source row.
/// A record's feature vector must be non-empty, so a row without
/// feature columns — no columns at all, or a lone label column — fails
/// with `Empty`; a row with an unacceptable feature column fails with
/// `BadFeature`, naming the first such column, its text, and whether it
/// was malformed or out of range.
pub fn parse(columns: &Vec<String>) -> (r: Result<Record, ParseError>)
    ensures
        r is Ok <==> columns@.len() > 1 && all_features_ok(col_views(columns@)),
        columns@.len() <= 1 ==> r == Err::<Record, ParseError>(ParseError::Empty),
        columns@.len() > 1 && all_features_ok(col_views(columns@)) ==> (r matches Ok(rec)
            && rec@.id == 0 && rec@.label == columns@.last()@ && rec@.features.len()
            == columns@.len() - 1 && (forall|i: int|
            0 <= i < columns@.len() - 1 ==> rec@.features[i] == numeric_val(
                (#[trigger] columns@[i])@,
            )) && wf(rec@)),
        columns@.len() > 1 && !all_features_ok(col_views(columns@)) ==> (r matches Err(e)
            && (e matches ParseError::BadFeature { column_index, raw_text, cause }
            && 0 <= column_index < columns@.len() - 1 && !feature_ok(
            columns@[column_index as int]@,
        ) && (forall|j: int| 0 <= j < column_index ==> feature_ok((#[trigger] columns@[j])@))
            && raw_text@ == columns@[column_index as int]@ && (cause == ParseCause::Malformed
            <==> !numeric_ok(columns@[column_index as int]@)))),
{
    let n = columns.len();
    if n <= 1 {
        return Err(ParseError::Empty);
    }
    let label = columns[n - 1].clone();
    let mut features: Vec<i64> = Vec::new();
    let mut i: usize = 0;
    while i < n - 1
        invariant
            i <= n - 1,
            n == columns@.len(),
            features@.len() == i as int,
            forall|j: int| 0 <= j < i ==> feature_ok((#[trigger] columns@[j])@),
            forall|j: int| 0 <= j < i ==> (#[trigger] features@[j]) as int == numeric_val(
                columns@[j]@,
            ),
            forall|j: int| 0 <= j < i ==> feature_in_range((#[trigger] features@[j]) as int),
        decreases n - 1 - i,
    {
        match parse_feature(columns[i].as_str()) {
            Ok(v) => {
                features.push(v);
            },
            Err(cause) => {
                proof {
                    assert(col_views(columns@)[i as int] == columns@[i as int]@);
                    assert(!all_features_ok(col_views(columns@)));
                }
                return Err(
                    ParseError::BadFeature {
                        column_index: i,
                        raw_text: columns[i].clone(),
                        cause,
                    },
                );
            },
        }
        i += 1;
    }
    proof {
        assert(forall|j: int| 0 <= j < col_views(columns@).len() - 1 ==> #[trigger] col_views(
            columns@,
        )[j] == columns@[j]@);
        assert(all_features_ok(col_views(columns@)));
    }
    let rec = Record { id: 0, label, features };
    proof {
        assert(forall|j: int| 0 <= j < rec@.features.len() ==> #[trigger] rec@.features[j]
            == rec.features@[j] as int);
    }
    Ok(rec)
}

} // verus!

verus! {

/// The columns of a line split on commas: splitting the empty text
/// gives one empty column, and each comma ends a column.
pub open spec fn split_commas(s: Seq<char>) -> Seq<Seq<char>>
    decreases s.len(),
{
    if s.len() == 0 {
        seq![Seq::<char>::empty()]
    } else if s[0] == ',' {
        seq![Seq::<char>::empty()] + split_commas(s.drop_first())
    } else {
        let rest = split_commas(s.drop_first());
        seq![seq![s[0]] + rest[0]] + rest.skip(1)
    }
}

/// Splitting never yields zero columns.
pub proof fn lemma_split_commas_len(s: Seq<char>)
    ensures
        split_commas(s).len() >= 1,
    decreases s.len(),
{
    if s.len() == 0 {
    } else {
        lemma_split_commas_len(s.drop_first());
    }
}

/// Splitting takes everything up to the first comma as the first
/// column and splits the remainder after it.
pub proof fn lemma_split_commas_first(s: Seq<char>)
    ensures
        first_at(s, ',') == s.len() ==> split_commas(s) == seq![s],
        first_at(s, ',') < s.len() ==> split_commas(s) == seq![s.take(first_at(s, ','))]
            + split_commas(s.skip(first_at(s, ',') + 1)),
    decreases s.len(),
{
    lemma_first_at_props(s, ',');
    if s.len() == 0 {
        assert(s =~= Seq::<char>::empty());
        assert(split_commas(s) =~= seq![s]);
    } else if s[0] == ',' {
        assert(s.take(0) =~= Seq::<char>::empty());
        assert(s.skip(1) =~= s.drop_first());
        assert(split_commas(s) =~= seq![s.take(0)] + split_commas(s.skip(1)));
    } else {
        let rest = s.drop_first();
        lemma_split_commas_first(rest);
        lemma_split_commas_len(rest);
        let q = first_at(rest, ',');
        let p = first_at(s, ',');
        assert(p == 1 + q);
        if q == rest.len() {
            assert(split_commas(rest) == seq![rest]);
            assert(seq![s[0]] + rest =~= s);
            assert(split_commas(s) =~= seq![s]);
        } else {
            let rsplit = split_commas(rest);
            assert(rsplit == seq![rest.take(q)] + split_commas(rest.skip(q + 1)));
            assert(seq![s[0]] + rsplit[0] =~= s.take(p)) by {
                assert(rsplit[0] == rest.take(q));
                assert(forall|t: int| 0 <= t < q ==> rest.take(q)[t] == s[t + 1]);
            }
            assert(rsplit.skip(1) =~= split_commas(rest.skip(q + 1)));
            assert(rest.skip(q + 1) =~= s.skip(p + 1));
            assert(split_commas(s) =~= seq![s.take(p)] + split_commas(s.skip(p + 1)));
        }
    }
}

/// Splits one raw line into its columns on commas. The comma itself
/// belongs to no column; empty columns are kept.
pub fn split_columns(line: &str) -> (cols: Vec<String>)
    ensures
        col_views(cols@) == split_commas(line@),
        cols@.len() >= 1,
{
    let n = line.unicode_len();
    let mut cols: Vec<String> = Vec::new();
    let mut start: usize = 0;
    let mut i: usize = 0;
    proof {
        assert(line@.skip(0) =~= line@);
        assert(col_views(cols@) =~= Seq::<Seq<char>>::empty());
        assert(col_views(cols@) + split_commas(line@.skip(0)) =~= split_commas(line@));
    }
    while i < n
        invariant
            start <= i <= n,
            n == line@.len(),
            split_commas(line@) =~= col_views(cols@) + split_commas(line@.skip(start as int)),
            forall|j: int| start <= j < i ==> line@[j] != ',',
        decreases n - i,
    {
        let c = line.get_char(i);
        if c == ',' {
            let ghost cur = line@.skip(start as int);
            proof {
                assert(forall|t: int| 0 <= t < cur.len() ==> cur[t] == line@[t + start]);
                assert(cur[i - start] == ',');
                assert(forall|j: int| 0 <= j < i - start ==> cur[j] != ',');
                lemma_first_at_is(cur, ',', i - start);
                lemma_split_commas_first(cur);
                assert(cur.take(i - start) =~= line@.subrange(start as int, i as int));
                assert(cur.skip(i - start + 1) =~= line@.skip(i + 1 as int));
            }
            let piece = line.substring_char(start, i).to_owned();
            proof {
                assert(col_views(cols@.push(piece)) =~= col_views(cols@) + seq![piece@]);
            }
            cols.push(piece);
            start = i + 1;
        }
        i += 1;
    }
    let ghost cur = line@.skip(start as int);
    proof {
        assert(forall|t: int| 0 <= t < cur.len() ==> cur[t] == line@[t + start]);
        assert(forall|j: int| 0 <= j < cur.len() ==> cur[j] != ',');
        lemma_first_at_is(cur, ',', cur.len() as int);
        lemma_split_commas_first(cur);
        assert(cur =~= line@.subrange(start as int, n as int));
    }
    let piece = line.substring_char(start, n).to_owned();
    proof {
        assert(col_views(cols@.push(piece)) =~= col_views(cols@) + seq![piece@]);
        assert(col_views(cols@) + seq![piece@] =~= col_views(cols@) + split_commas(cur));
    }
    cols.push(piece);
    proof {
        assert(col_views(cols@) =~= split_commas(line@));
    }
    cols
}

} // verus!
