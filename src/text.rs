use vstd::prelude::*;
use vstd::string::StrSliceExecFns;
use vstd::string::StringExecFns;

verus! {

/// Three-way lexicographic comparison of two texts by code point:
/// `-1` when `a` sorts first, `0` when they are equal, `1` otherwise.
pub open spec fn text_cmp(a: Seq<char>, b: Seq<char>) -> int
    decreases a.len(),
{
    if a.len() == 0 {
        if b.len() == 0 {
            0
        } else {
            -1
        }
    } else if b.len() == 0 {
        1
    } else if (a[0] as int) < (b[0] as int) {
        -1
    } else if (a[0] as int) > (b[0] as int) {
        1
    } else {
        text_cmp(a.drop_first(), b.drop_first())
    }
}

/// `a` sorts strictly before `b`.
pub open spec fn text_lt(a: Seq<char>, b: Seq<char>) -> bool {
    text_cmp(a, b) < 0
}

/// The comparison yields -1, 0 or 1.
pub proof fn lemma_text_cmp_range(a: Seq<char>, b: Seq<char>)
    ensures
        -1 <= text_cmp(a, b) <= 1,
    decreases a.len(),
{
    if a.len() > 0 && b.len() > 0 && a[0] == b[0] {
        lemma_text_cmp_range(a.drop_first(), b.drop_first());
    }
}

/// Two texts compare equal exactly when they are the same text.
pub proof fn lemma_text_cmp_zero(a: Seq<char>, b: Seq<char>)
    ensures
        text_cmp(a, b) == 0 <==> a == b,
    decreases a.len(),
{
    if a.len() > 0 && b.len() > 0 {
        if a[0] == b[0] {
            lemma_text_cmp_zero(a.drop_first(), b.drop_first());
            if a.drop_first() == b.drop_first() {
                assert(a =~= seq![a[0]] + a.drop_first());
                assert(b =~= seq![b[0]] + b.drop_first());
            }
        } else {
            assert((a[0] as int) != (b[0] as int));
        }
    } else if a.len() == 0 && b.len() != 0 {
        assert(a != b);
    } else if a.len() != 0 && b.len() == 0 {
        assert(a != b);
    } else {
        assert(a =~= b);
    }
}

/// Swapping the arguments flips the comparison.
pub proof fn lemma_text_cmp_flip(a: Seq<char>, b: Seq<char>)
    ensures
        text_cmp(a, b) == -text_cmp(b, a),
    decreases a.len(),
{
    if a.len() > 0 && b.len() > 0 && (a[0] as int) == (b[0] as int) {
        lemma_text_cmp_flip(a.drop_first(), b.drop_first());
    }
}

/// The order on texts is transitive, strictly and weakly.
pub proof fn lemma_text_cmp_trans(a: Seq<char>, b: Seq<char>, c: Seq<char>)
    ensures
        text_cmp(a, b) < 0 && text_cmp(b, c) <= 0 ==> text_cmp(a, c) < 0,
        text_cmp(a, b) <= 0 && text_cmp(b, c) < 0 ==> text_cmp(a, c) < 0,
        text_cmp(a, b) <= 0 && text_cmp(b, c) <= 0 ==> text_cmp(a, c) <= 0,
    decreases a.len(),
{
    lemma_text_cmp_zero(a, b);
    lemma_text_cmp_zero(b, c);
    if a.len() > 0 && b.len() > 0 && c.len() > 0 {
        lemma_text_cmp_trans(a.drop_first(), b.drop_first(), c.drop_first());
    }
}

/// Facts on the text order that callers use together.
pub proof fn lemma_text_order()
    ensures
        forall|a: Seq<char>, b: Seq<char>| #[trigger] text_cmp(a, b) == 0 <==> a == b,
        forall|a: Seq<char>, b: Seq<char>| #[trigger] text_cmp(a, b) == -text_cmp(b, a),
        forall|a: Seq<char>, b: Seq<char>| -1 <= #[trigger] text_cmp(a, b) <= 1,
        forall|a: Seq<char>, b: Seq<char>, c: Seq<char>|
            #[trigger] text_cmp(a, b) <= 0 && #[trigger] text_cmp(b, c) <= 0 ==> text_cmp(a, c)
                <= 0 && (text_cmp(a, b) < 0 || text_cmp(b, c) < 0 ==> text_cmp(a, c) < 0),
{
    assert forall|a: Seq<char>, b: Seq<char>| #[trigger] text_cmp(a, b) == 0 <==> a == b by {
        lemma_text_cmp_zero(a, b);
    }
    assert forall|a: Seq<char>, b: Seq<char>| #[trigger] text_cmp(a, b) == -text_cmp(b, a) by {
        lemma_text_cmp_flip(a, b);
    }
    assert forall|a: Seq<char>, b: Seq<char>| -1 <= #[trigger] text_cmp(a, b) <= 1 by {
        lemma_text_cmp_range(a, b);
    }
    assert forall|a: Seq<char>, b: Seq<char>, c: Seq<char>|
        #[trigger] text_cmp(a, b) <= 0 && #[trigger] text_cmp(b, c) <= 0 implies text_cmp(a, c)
        <= 0 && (text_cmp(a, b) < 0 || text_cmp(b, c) < 0 ==> text_cmp(a, c) < 0) by {
        lemma_text_cmp_trans(a, b, c);
    }
}

/// Compares two texts by code point, as `text_cmp` does.
pub fn compare_text(a: &str, b: &str) -> (r: i8)
    ensures
        r as int == text_cmp(a@, b@),
{
    let na = a.unicode_len();
    let nb = b.unicode_len();
    let mut i: usize = 0;
    assert(a@.skip(0) =~= a@);
    assert(b@.skip(0) =~= b@);
    while i < na && i < nb
        invariant
            na == a@.len(),
            nb == b@.len(),
            i <= na,
            i <= nb,
            text_cmp(a@, b@) == text_cmp(a@.skip(i as int), b@.skip(i as int)),
        decreases na - i,
    {
        let ca = a.get_char(i);
        let cb = b.get_char(i);
        proof {
            let sa = a@.skip(i as int);
            let sb = b@.skip(i as int);
            assert(sa[0] == ca);
            assert(sb[0] == cb);
            assert(sa.drop_first() =~= a@.skip(i + 1));
            assert(sb.drop_first() =~= b@.skip(i + 1));
        }
        if (ca as u32) < (cb as u32) {
            return -1;
        } else if (ca as u32) > (cb as u32) {
            return 1;
        }
        i = i + 1;
    }
    if i == na && i == nb {
        0
    } else if i == na {
        -1
    } else {
        1
    }
}

/// Whether two texts are the same.
pub fn same_text(a: &str, b: &str) -> (r: bool)
    ensures
        r == (a@ == b@),
{
    proof {
        lemma_text_cmp_zero(a@, b@);
    }
    compare_text(a, b) == 0
}

/// The text by which a date in `MM/DD/YYYY` form is ordered: its year,
/// month and day digits, then its two separators, so that comparing keys
/// compares dates in calendar order (for years 0 to 9999). Text of any other
/// length is its own key.
pub open spec fn date_key(d: Seq<char>) -> Seq<char> {
    if d.len() == 10 {
        d.subrange(6, 10) + d.subrange(0, 2) + d.subrange(3, 5) + d.subrange(2, 3) + d.subrange(
            5,
            6,
        )
    } else {
        d
    }
}

/// Different dates have different keys.
pub proof fn lemma_date_key_injective(a: Seq<char>, b: Seq<char>)
    ensures
        date_key(a) == date_key(b) ==> a == b,
{
    if date_key(a) == date_key(b) && a.len() == 10 && b.len() == 10 {
        let ka = date_key(a);
        let kb = date_key(b);
        assert forall|i: int| 0 <= i < 10 implies a[i] == b[i] by {
            if i >= 6 {
                assert(a[i] == ka[i - 6] && b[i] == kb[i - 6]);
            } else if i < 2 {
                assert(a[i] == ka[i + 4] && b[i] == kb[i + 4]);
            } else if 3 <= i < 5 {
                assert(a[i] == ka[i + 3] && b[i] == kb[i + 3]);
            } else if i == 2 {
                assert(a[i] == ka[8] && b[i] == kb[8]);
            } else {
                assert(a[i] == ka[9] && b[i] == kb[9]);
            }
        }
        assert(a =~= b);
    }
}

/// Ten to the power `n`.
pub open spec fn pow10(n: nat) -> int
    decreases n,
{
    if n == 0 {
        1
    } else {
        10 * pow10((n - 1) as nat)
    }
}

/// Every character is a decimal digit.
pub open spec fn all_digits(x: Seq<char>) -> bool {
    forall|i: int| 0 <= i < x.len() ==> 48 <= #[trigger] (x[i] as int) <= 57
}

/// The number that a text of decimal digits spells.
pub open spec fn digits_value(x: Seq<char>) -> int
    decreases x.len(),
{
    if x.len() == 0 {
        0
    } else {
        (x[0] as int - 48) * pow10((x.len() - 1) as nat) + digits_value(x.drop_first())
    }
}

/// A date text `MM/DD/YYYY`.
pub open spec fn is_mdy_date(d: Seq<char>) -> bool {
    &&& d.len() == 10
    &&& d[2] == '/' && d[5] == '/'
    &&& all_digits(d.subrange(0, 2)) && all_digits(d.subrange(3, 5)) && all_digits(
        d.subrange(6, 10),
    )
}

/// The year, month and day that a `MM/DD/YYYY` text spells.
pub open spec fn mdy_fields(d: Seq<char>) -> (int, int, int) {
    (digits_value(d.subrange(6, 10)), digits_value(d.subrange(0, 2)), digits_value(d.subrange(3, 5)))
}

/// `(year, month, day)` of `a` comes strictly before that of `b`.
pub open spec fn fields_lt(a: (int, int, int), b: (int, int, int)) -> bool {
    a.0 < b.0 || (a.0 == b.0 && (a.1 < b.1 || (a.1 == b.1 && a.2 < b.2)))
}

proof fn lemma_pow10_positive(n: nat)
    ensures
        pow10(n) >= 1,
    decreases n,
{
    if n > 0 {
        lemma_pow10_positive((n - 1) as nat);
    }
}

proof fn lemma_digits_value_bounds(x: Seq<char>)
    requires
        all_digits(x),
    ensures
        0 <= digits_value(x) < pow10(x.len()),
    decreases x.len(),
{
    if x.len() > 0 {
        let rest = x.drop_first();
        assert(all_digits(rest)) by {
            assert forall|i: int| 0 <= i < rest.len() implies 48 <= #[trigger] (rest[i] as int)
                <= 57 by {
                assert(rest[i] == x[i + 1]);
            }
        }
        lemma_digits_value_bounds(rest);
        lemma_pow10_positive(rest.len());
        let d = x[0] as int - 48;
        let p = pow10(rest.len());
        assert(0 <= d <= 9);
        assert(pow10(x.len()) == 10 * p);
        assert(0 <= d * p + digits_value(rest) < 10 * p) by (nonlinear_arith)
            requires
                0 <= d <= 9,
                0 <= digits_value(rest) < p,
        ;
    }
}

/// For digit texts of one length, the text order is the numeric order.
proof fn lemma_digits_order(x: Seq<char>, y: Seq<char>)
    requires
        x.len() == y.len(),
        all_digits(x),
        all_digits(y),
    ensures
        text_cmp(x, y) < 0 <==> digits_value(x) < digits_value(y),
        text_cmp(x, y) == 0 <==> digits_value(x) == digits_value(y),
    decreases x.len(),
{
    lemma_text_cmp_range(x, y);
    lemma_text_cmp_flip(x, y);
    if x.len() > 0 {
        let xr = x.drop_first();
        let yr = y.drop_first();
        assert(all_digits(xr)) by {
            assert forall|i: int| 0 <= i < xr.len() implies 48 <= #[trigger] (xr[i] as int)
                <= 57 by {
                assert(xr[i] == x[i + 1]);
            }
        }
        assert(all_digits(yr)) by {
            assert forall|i: int| 0 <= i < yr.len() implies 48 <= #[trigger] (yr[i] as int)
                <= 57 by {
                assert(yr[i] == y[i + 1]);
            }
        }
        lemma_digits_order(xr, yr);
        lemma_digits_value_bounds(xr);
        lemma_digits_value_bounds(yr);
        let p = pow10(xr.len());
        let dx = x[0] as int - 48;
        let dy = y[0] as int - 48;
        let vx = digits_value(xr);
        let vy = digits_value(yr);
        assert(digits_value(x) == dx * p + vx);
        assert(digits_value(y) == dy * p + vy);
        if dx < dy {
            assert(dx * p + vx < dy * p + vy) by (nonlinear_arith)
                requires
                    dx < dy,
                    0 <= vx < p,
                    0 <= vy,
            ;
        } else if dx > dy {
            assert(dx * p + vx > dy * p + vy) by (nonlinear_arith)
                requires
                    dx > dy,
                    0 <= vy < p,
                    0 <= vx,
            ;
        } else {
            assert((x[0] as int) == (y[0] as int));
        }
    }
}

/// With prefixes of one length, texts compare by their prefixes first.
proof fn lemma_text_cmp_concat(a: Seq<char>, c: Seq<char>, b: Seq<char>, d: Seq<char>)
    requires
        a.len() == b.len(),
    ensures
        text_cmp(a + c, b + d) == if text_cmp(a, b) != 0 {
            text_cmp(a, b)
        } else {
            text_cmp(c, d)
        },
    decreases a.len(),
{
    if a.len() > 0 {
        assert((a + c).drop_first() =~= a.drop_first() + c);
        assert((b + d).drop_first() =~= b.drop_first() + d);
        assert((a + c)[0] == a[0]);
        assert((b + d)[0] == b[0]);
        lemma_text_cmp_concat(a.drop_first(), c, b.drop_first(), d);
    } else {
        assert(a + c =~= c);
        assert(b + d =~= d);
    }
}

/// Calendar order: for two `MM/DD/YYYY` dates, the order of their keys is the
/// order of their (year, month, day).
pub proof fn lemma_date_key_is_calendar_order(a: Seq<char>, b: Seq<char>)
    requires
        is_mdy_date(a),
        is_mdy_date(b),
    ensures
        text_cmp(date_key(a), date_key(b)) < 0 <==> fields_lt(mdy_fields(a), mdy_fields(b)),
        text_cmp(date_key(a), date_key(b)) == 0 <==> mdy_fields(a) == mdy_fields(b),
{
    let (ya, ma, da) = (a.subrange(6, 10), a.subrange(0, 2), a.subrange(3, 5));
    let (yb, mb, db) = (b.subrange(6, 10), b.subrange(0, 2), b.subrange(3, 5));
    let sa = a.subrange(2, 3) + a.subrange(5, 6);
    let sb = b.subrange(2, 3) + b.subrange(5, 6);
    assert(sa =~= sb);
    lemma_text_cmp_zero(sa, sb);
    assert(date_key(a) =~= ya + (ma + (da + sa)));
    assert(date_key(b) =~= yb + (mb + (db + sb)));
    lemma_text_cmp_concat(ya, ma + (da + sa), yb, mb + (db + sb));
    lemma_text_cmp_concat(ma, da + sa, mb, db + sb);
    lemma_text_cmp_concat(da, sa, db, sb);
    lemma_digits_order(ya, yb);
    lemma_digits_order(ma, mb);
    lemma_digits_order(da, db);
}

/// The ordering key of a date text, as `date_key` gives it.
pub fn date_sort_key(d: &str) -> (r: String)
    ensures
        r@ == date_key(d@),
{
    let mut k = String::new();
    if d.unicode_len() == 10 {
        k.append(d.substring_char(6, 10));
        k.append(d.substring_char(0, 2));
        k.append(d.substring_char(3, 5));
        k.append(d.substring_char(2, 3));
        k.append(d.substring_char(5, 6));
    } else {
        k.append(d);
    }
    assert(k@ =~= date_key(d@));
    k
}

/// The character of a decimal digit.
pub open spec fn digit_char(d: nat) -> char {
    if d == 0 {
        '0'
    } else if d == 1 {
        '1'
    } else if d == 2 {
        '2'
    } else if d == 3 {
        '3'
    } else if d == 4 {
        '4'
    } else if d == 5 {
        '5'
    } else if d == 6 {
        '6'
    } else if d == 7 {
        '7'
    } else if d == 8 {
        '8'
    } else {
        '9'
    }
}

/// Decimal digits of a natural number, without leading zeros ("0" for zero).
pub open spec fn decimal_text(n: nat) -> Seq<char>
    decreases n,
{
    if n < 10 {
        seq![digit_char(n)]
    } else {
        decimal_text(n / 10).push(digit_char(n % 10))
    }
}

/// A count of minor units as a fixed-point amount with two decimal digits:
/// an optional `-`, the whole units, a `.` and the two-digit remainder.
#[verifier::opaque]
pub open spec fn money_text(cents: int) -> Seq<char> {
    let m = if cents < 0 {
        -cents
    } else {
        cents
    };
    let sign = if cents < 0 {
        seq!['-']
    } else {
        Seq::<char>::empty()
    };
    sign + decimal_text((m / 100) as nat) + seq!['.', digit_char(((m % 100) / 10) as nat),
        digit_char((m % 10) as nat)]
}

/// The one-character text of a decimal digit.
fn digit_str(d: u64) -> (s: &'static str)
    requires
        d < 10,
    ensures
        s@ == seq![digit_char(d as nat)],
{
    proof {
        reveal_strlit("0");
        reveal_strlit("1");
        reveal_strlit("2");
        reveal_strlit("3");
        reveal_strlit("4");
        reveal_strlit("5");
        reveal_strlit("6");
        reveal_strlit("7");
        reveal_strlit("8");
        reveal_strlit("9");
    }
    let s = if d == 0 {
        "0"
    } else if d == 1 {
        "1"
    } else if d == 2 {
        "2"
    } else if d == 3 {
        "3"
    } else if d == 4 {
        "4"
    } else if d == 5 {
        "5"
    } else if d == 6 {
        "6"
    } else if d == 7 {
        "7"
    } else if d == 8 {
        "8"
    } else {
        "9"
    };
    assert(s@ =~= seq![digit_char(d as nat)]);
    s
}

/// Appends the decimal digits of `n`.
pub fn push_decimal(out: &mut String, n: u128)
    ensures
        final(out)@ == old(out)@ + decimal_text(n as nat),
    decreases n,
{
    if n < 10 {
        out.append(digit_str(n as u64));
    } else {
        push_decimal(out, n / 10);
        out.append(digit_str((n % 10) as u64));
        assert(decimal_text(n as nat) == decimal_text((n / 10) as nat).push(
            digit_char((n % 10) as nat),
        ));
        assert(out@ =~= old(out)@ + decimal_text(n as nat));
    }
}

/// Appends `cents` as a fixed-point amount with two decimal digits.
pub fn push_money(out: &mut String, cents: i128)
    requires
        cents > i128::MIN,
    ensures
        final(out)@ == old(out)@ + money_text(cents as int),
{
    proof {
        reveal_strlit("-");
        reveal_strlit(".");
    }
    let m: u128 = if cents < 0 {
        out.append("-");
        (-cents) as u128
    } else {
        cents as u128
    };
    push_decimal(out, m / 100);
    out.append(".");
    out.append(digit_str(((m % 100) / 10) as u64));
    out.append(digit_str((m % 10) as u64));
    assert(out@ =~= old(out)@ + money_text(cents as int)) by {
        reveal(money_text);
    }
}

} // verus!
