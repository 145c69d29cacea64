//! Decimal text: the meaning of digit strings, rendering of integers, and the
//! canonical form of decimal (fractional) literals.
//!
//! Numeric literals travel through the pipeline as text. A `num` literal is
//! decoded to an `i64` exactly as `str::parse::<i64>` would, except that any
//! text it rejects (bad shape or out of range) decodes to 0 — the parser's
//! documented leniency. A `fl` literal keeps its decimal digits and is held in
//! the canonical form that the serializer emits: no leading zeros, no trailing
//! fractional zeros, no trailing dot.

use vstd::prelude::*;

use crate::chars::is_digit;

verus! {

/// The numeric value of an ASCII digit.
pub open spec fn dval(c: char) -> int {
    c as int - 48
}

/// The digit character for a value in `0..=9`.
pub open spec fn digit_char(d: int) -> char {
    ((d + 48) as u8) as char
}

pub open spec fn all_digits(s: Seq<char>) -> bool {
    forall|i: int| 0 <= i < s.len() ==> is_digit(#[trigger] s[i])
}

/// The value of a digit string, most significant digit first.
pub open spec fn digits_val(s: Seq<char>) -> int
    decreases s.len(),
{
    if s.len() == 0 {
        0
    } else {
        digits_val(s.drop_last()) * 10 + dval(s.last())
    }
}

/// The decimal digits of a nonnegative integer.
pub open spec fn udec(n: nat) -> Seq<char>
    decreases n,
{
    if n < 10 {
        seq![digit_char(n as int)]
    } else {
        udec(n / 10) + seq![digit_char((n % 10) as int)]
    }
}

/// The decimal rendering of an integer, with a leading `-` when negative.
pub open spec fn int_literal(n: int) -> Seq<char> {
    if n < 0 {
        seq!['-'] + udec((-n) as nat)
    } else {
        udec(n as nat)
    }
}

/// The texts accepted by `str::parse::<i64>`: an optional sign, then digits.
pub open spec fn is_int_text(s: Seq<char>) -> bool {
    if s.len() == 0 {
        false
    } else if s[0] == '-' || s[0] == '+' {
        s.len() > 1 && all_digits(s.skip(1))
    } else {
        all_digits(s)
    }
}

/// The signed value of an integer text (meaningful when `is_int_text` holds).
pub open spec fn int_text_val(s: Seq<char>) -> int {
    if s.len() == 0 {
        0
    } else if s[0] == '-' {
        -digits_val(s.skip(1))
    } else if s[0] == '+' {
        digits_val(s.skip(1))
    } else {
        digits_val(s)
    }
}

/// What a `num` literal decodes to: its value when it is a well-shaped,
/// in-range integer text, and 0 otherwise.
pub open spec fn i64_of_text(s: Seq<char>) -> i64 {
    if is_int_text(s) && i64::MIN <= int_text_val(s) <= i64::MAX {
        int_text_val(s) as i64
    } else {
        0
    }
}

proof fn lemma_digits_val_nonneg(s: Seq<char>)
    requires
        all_digits(s),
    ensures
        digits_val(s) >= 0,
    decreases s.len(),
{
    if s.len() > 0 {
        assert(all_digits(s.drop_last()));
        lemma_digits_val_nonneg(s.drop_last());
    }
}

proof fn lemma_digits_val_push(s: Seq<char>, c: char)
    ensures
        digits_val(s.push(c)) == digits_val(s) * 10 + dval(c),
{
    assert(s.push(c).drop_last() =~= s);
    assert(s.push(c).last() == c);
}

pub fn digit_to_char(d: u64) -> (c: char)
    requires
        d < 10,
    ensures
        c == digit_char(d as int),
{
    ((d as u8) + 48) as char
}

/// Renders a nonnegative integer in decimal.
pub fn u64_to_chars(n: u64) -> (v: Vec<char>)
    ensures
        v@ == udec(n as nat),
{
    let mut m: u64 = n;
    let ghost m0: nat = m as nat;
    let mut rev: Vec<char> = Vec::new();
    if m == 0 {
        rev.push('0');
        proof {
            assert(udec(m0) =~= rev@.reverse());
        }
    } else {
        while m > 0
            invariant
                m > 0 ==> udec(m0) == udec(m as nat) + rev@.reverse(),
                m == 0 ==> udec(m0) == rev@.reverse(),
            decreases m,
        {
            let d: u64 = m % 10;
            rev.push(digit_to_char(d));
            let ghost prev: nat = m as nat;
            let ghost prev_rev = rev@.drop_last();
            m = m / 10;
            proof {
                assert(rev@.drop_last() =~= prev_rev);
                assert(rev@.reverse() =~= seq![digit_char(d as int)] + prev_rev.reverse());
                if m > 0 {
                    assert(udec(prev) == udec(prev / 10) + seq![digit_char((prev % 10) as int)]);
                    assert(udec(m as nat) + rev@.reverse() =~= udec(prev) + prev_rev.reverse());
                } else {
                    assert(prev < 10);
                    assert(udec(prev) == seq![digit_char(prev as int)]);
                    assert(rev@.reverse() =~= udec(prev) + prev_rev.reverse());
                }
            }
        }
    }
    let mut v: Vec<char> = Vec::new();
    let mut j: usize = 0;
    while j < rev.len()
        invariant
            j <= rev.len(),
            udec(m0) == rev@.reverse(),
            v@ == rev@.reverse().take(j as int),
        decreases rev.len() - j,
    {
        v.push(rev[rev.len() - 1 - j]);
        j = j + 1;
        proof {
            assert(rev@.reverse()[j - 1] == rev@[rev@.len() - j]);
            assert(v@ =~= rev@.reverse().take(j as int));
        }
    }
    proof {
        assert(rev@.reverse().take(rev@.len() as int) =~= rev@.reverse());
        assert(v@ =~= udec(n as nat));
    }
    v
}

/// Renders an integer in decimal, as the serializer prints `num` values.
pub fn i64_to_chars(n: i64) -> (v: Vec<char>)
    ensures
        v@ == int_literal(n as int),
{
    let m: u64 = if n >= 0 {
        n as u64
    } else if n == i64::MIN {
        0x8000_0000_0000_0000u64
    } else {
        (-n) as u64
    };
    proof {
        assert(m == if n >= 0 { n as int } else { -(n as int) });
    }
    let digits = u64_to_chars(m);
    if n < 0 {
        let mut v: Vec<char> = Vec::new();
        v.push('-');
        let mut j: usize = 0;
        while j < digits.len()
            invariant
                j <= digits.len(),
                v@ == seq!['-'] + digits@.take(j as int),
            decreases digits.len() - j,
        {
            v.push(digits[j]);
            j = j + 1;
            proof {
                assert(v@ =~= seq!['-'] + digits@.take(j as int));
            }
        }
        proof {
            assert(digits@.take(digits@.len() as int) =~= digits@);
            assert(v@ =~= int_literal(n as int));
        }
        v
    } else {
        digits
    }
}

/// Decodes an integer text as the parser reads `num` literals: the value of a
/// well-shaped, in-range text, and 0 for anything else.
pub fn text_to_i64(s: &str) -> (r: i64)
    ensures
        r == i64_of_text(s@),
{
    let n = s.unicode_len();
    if n == 0 {
        return 0;
    }
    let c0 = s.get_char(0);
    let neg = c0 == '-';
    let start: usize = if neg || c0 == '+' {
        1
    } else {
        0
    };
    if n == start {
        return 0;
    }
    let ghost body: Seq<char> = s@.skip(start as int);
    let mut i: usize = start;
    let mut acc: u64 = 0;
    let mut over: bool = false;
    while i < n
        invariant
            start <= i <= n,
            start == 0 || start == 1,
            n == s@.len(),
            start == 1 ==> (s@[0] == '-' || s@[0] == '+'),
            start == 0 ==> !(s@[0] == '-' || s@[0] == '+'),
            body == s@.skip(start as int),
            all_digits(body.take(i - start)),
            !over ==> acc == digits_val(body.take(i - start)),
            over ==> digits_val(body.take(i - start)) > u64::MAX,
        decreases n - i,
    {
        let c = s.get_char(i);
        if !crate::chars::digit(c) {
            proof {
                assert(body[i - start] == c);
                assert(!all_digits(body));
                if start == 1 {
                    assert(!all_digits(s@.skip(1)));
                } else {
                    assert forall|k: int| 0 <= k < body.len() implies body[k] == s@[k] by {
                        assert(body[k] == s@[k + 0]);
                    }
                    assert(body =~= s@);
                    assert(!all_digits(s@));
                }
                assert(!is_int_text(s@));
            }
            return 0;
        }
        let d: u64 = ((c as u32) - 48) as u64;
        proof {
            assert(d == dval(c));
            let p = body.take(i - start);
            assert(p.push(c) =~= body.take(i + 1 - start));
            lemma_digits_val_push(p, c);
            lemma_digits_val_nonneg(p);
        }
        if over || acc > (u64::MAX - d) / 10 {
            proof {
                let p = body.take(i - start);
                if !over {
                    assert(acc * 10 + d > u64::MAX) by (nonlinear_arith)
                        requires
                            acc > (u64::MAX - d) / 10,
                            d < 10,
                            acc <= u64::MAX,
                            u64::MAX == 0xffff_ffff_ffff_ffffu64,
                    ;
                } else {
                    assert(digits_val(p) * 10 + d > u64::MAX) by (nonlinear_arith)
                        requires
                            digits_val(p) > u64::MAX,
                            d >= 0,
                    ;
                }
            }
            over = true;
        } else {
            acc = acc * 10 + d;
        }
        i = i + 1;
    }
    proof {
        assert(s@.skip(0) =~= s@);
        assert(body.take(n - start) =~= body);
        assert(is_int_text(s@));
        lemma_digits_val_nonneg(body);
        assert(int_text_val(s@) == if neg { -digits_val(body) } else { digits_val(body) });
    }
    if over {
        proof {
            assert(int_text_val(s@) > u64::MAX || int_text_val(s@) < -(u64::MAX as int));
        }
        return 0;
    }
    if neg {
        if acc > 0x8000_0000_0000_0000u64 {
            0
        } else if acc == 0x8000_0000_0000_0000u64 {
            i64::MIN
        } else {
            -(acc as i64)
        }
    } else {
        if acc > 0x7fff_ffff_ffff_ffffu64 {
            0
        } else {
            acc as i64
        }
    }
}

/// The decimal body of a possibly signed literal (the sign dropped).
pub open spec fn fl_body(s: Seq<char>) -> Seq<char> {
    if s.len() > 0 && (s[0] == '-' || s[0] == '+') {
        s.skip(1)
    } else {
        s
    }
}

/// The index of the first `.`, or the length when there is none.
pub open spec fn dot_pos(s: Seq<char>) -> int
    decreases s.len(),
{
    if s.len() == 0 {
        0
    } else if s[0] == '.' {
        0
    } else {
        1 + dot_pos(s.skip(1))
    }
}

/// Decimal literals: an optional sign, digits, and at most one `.`; at least
/// one digit on one side of the dot.
pub open spec fn is_fl_text(s: Seq<char>) -> bool {
    let b = fl_body(s);
    let d = dot_pos(b);
    let ip = b.take(d);
    let fp = if d < b.len() {
        b.skip(d + 1)
    } else {
        Seq::<char>::empty()
    };
    &&& all_digits(ip)
    &&& all_digits(fp)
    &&& ip.len() > 0 || fp.len() > 0
}

/// Drops trailing zeros.
pub open spec fn strip_tz(s: Seq<char>) -> Seq<char>
    decreases s.len(),
{
    if s.len() > 0 && s.last() == '0' {
        strip_tz(s.drop_last())
    } else {
        s
    }
}

/// Drops leading zeros, keeping at least one digit.
pub open spec fn strip_lz(s: Seq<char>) -> Seq<char>
    decreases s.len(),
{
    if s.len() > 1 && s[0] == '0' {
        strip_lz(s.skip(1))
    } else if s.len() == 0 {
        seq!['0']
    } else {
        s
    }
}

/// The canonical form of a decimal literal, as the serializer prints `fl`
/// values: no leading zeros, no trailing fractional zeros, no trailing dot,
/// and an all-zero fraction collapsed away. A text outside the literal shape
/// collapses to `0`, the number decoder's leniency.
pub open spec fn canon_dec(s: Seq<char>) -> Seq<char> {
    if !is_fl_text(s) {
        seq!['0']
    } else {
        let neg = s[0] == '-';
        let b = fl_body(s);
        let d = dot_pos(b);
        let ip = strip_lz(b.take(d));
        let fp = strip_tz(
            if d < b.len() {
                b.skip(d + 1)
            } else {
                Seq::<char>::empty()
            },
        );
        let sign: Seq<char> = if neg {
            seq!['-']
        } else {
            Seq::<char>::empty()
        };
        if fp.len() > 0 {
            sign + ip + seq!['.'] + fp
        } else {
            sign + ip
        }
    }
}

proof fn lemma_dot_pos_at(s: Seq<char>, k: int)
    requires
        0 <= k <= s.len(),
        forall|j: int| 0 <= j < k ==> s[j] != '.',
        k == s.len() || s[k] == '.',
    ensures
        dot_pos(s) == k,
    decreases k,
{
    if k == 0 {
        if s.len() > 0 {
            assert(s[0] == '.');
        }
    } else {
        assert(s[0] != '.');
        let t = s.skip(1);
        assert forall|j: int| 0 <= j < k - 1 implies t[j] != '.' by {
            assert(t[j] == s[j + 1]);
        }
        if k < s.len() {
            assert(t[k - 1] == s[k]);
        }
        lemma_dot_pos_at(t, k - 1);
    }
}

pub proof fn lemma_dot_pos_range(s: Seq<char>)
    ensures
        0 <= dot_pos(s) <= s.len(),
        forall|j: int| 0 <= j < dot_pos(s) ==> s[j] != '.',
        dot_pos(s) < s.len() ==> s[dot_pos(s)] == '.',
    decreases s.len(),
{
    if s.len() > 0 && s[0] != '.' {
        lemma_dot_pos_range(s.skip(1));
        assert forall|j: int| 0 <= j < dot_pos(s) implies s[j] != '.' by {
            if j > 0 {
                assert(s.skip(1)[j - 1] == s[j]);
            }
        }
        if dot_pos(s) < s.len() {
            assert(s.skip(1)[dot_pos(s) - 1] == s[dot_pos(s)]);
        }
    }
}

proof fn lemma_strip_tz_at(s: Seq<char>, e: int)
    requires
        0 <= e <= s.len(),
        forall|j: int| e <= j < s.len() ==> s[j] == '0',
        e == 0 || s[e - 1] != '0',
    ensures
        strip_tz(s) == s.take(e),
    decreases s.len(),
{
    if s.len() > e {
        assert(s.last() == '0');
        let t = s.drop_last();
        assert forall|j: int| e <= j < t.len() implies t[j] == '0' by {
            assert(t[j] == s[j]);
        }
        if e > 0 {
            assert(t[e - 1] == s[e - 1]);
        }
        lemma_strip_tz_at(t, e);
        assert(t.take(e) =~= s.take(e));
    } else {
        if s.len() > 0 {
            assert(s.last() == s[e - 1]);
        }
        assert(s.take(e) =~= s);
    }
}

proof fn lemma_strip_lz_at(s: Seq<char>, k: int)
    requires
        s.len() > 0,
        0 <= k < s.len(),
        forall|j: int| 0 <= j < k ==> s[j] == '0',
        k == s.len() - 1 || s[k] != '0',
    ensures
        strip_lz(s) == s.skip(k),
    decreases k,
{
    if k == 0 {
        if s.len() > 1 && s[0] == '0' {
            assert(false);
        }
        assert(s.skip(0) =~= s);
    } else {
        assert(s[0] == '0');
        assert(s.len() > 1);
        let t = s.skip(1);
        assert forall|j: int| 0 <= j < k - 1 implies t[j] == '0' by {
            assert(t[j] == s[j + 1]);
        }
        if k - 1 < t.len() - 1 {
            assert(t[k - 1] == s[k]);
        }
        lemma_strip_lz_at(t, k - 1);
        assert(t.skip(k - 1) =~= s.skip(k));
    }
}

/// Canonicalizes a decimal literal, as `canon_dec` describes.
#[verifier::rlimit(80)]
pub fn canon_text(s: &str) -> (v: Vec<char>)
    ensures
        v@ == canon_dec(s@),
{
    let n = s.unicode_len();
    let mut zero: Vec<char> = Vec::new();
    zero.push('0');
    proof {
        assert(zero@ =~= seq!['0']);
    }
    let signed = n > 0 && {
        let c0 = s.get_char(0);
        c0 == '-' || c0 == '+'
    };
    let neg = n > 0 && s.get_char(0) == '-';
    let bs: usize = if signed {
        1
    } else {
        0
    };
    let ghost b: Seq<char> = fl_body(s@);
    proof {
        if signed {
            assert(b =~= s@.skip(1));
        } else {
            assert(b =~= s@);
        }
    }
    // find the dot, checking that everything else is a digit
    let mut dot: usize = n;
    let mut i: usize = bs;
    while i < n
        invariant
            bs <= i <= n,
            bs == 0 || bs == 1,
            bs == 1 <==> (s@.len() > 0 && (s@[0] == '-' || s@[0] == '+')),
            n == s@.len(),
            b == fl_body(s@),
            b.len() == n - bs,
            zero@ == seq!['0'],
            forall|k: int| 0 <= k < b.len() ==> b[k] == s@[k + bs],
            dot == n || (bs <= dot < i && s@[dot as int] == '.'),
            forall|j: int| bs <= j < i && j != dot ==> is_digit(s@[j]),
            dot == n ==> forall|j: int| bs <= j < i ==> s@[j] != '.',
        decreases n - i,
    {
        let c = s.get_char(i);
        if c == '.' {
            if dot < n {
                // a second dot: not a decimal literal
                proof {
                    lemma_dot_pos_range(b);
                    let d = dot_pos(b);
                    assert(b[dot - bs] == '.');
                    assert(d <= dot - bs);
                    assert(b[i - bs] == '.');
                    if d < dot - bs {
                        assert(!is_digit(b[d]));
                        assert(!all_digits(b.take(d)) || !is_digit(b.skip(d + 1)[dot - bs - d
                            - 1]));
                        assert(!is_fl_text(s@));
                    } else {
                        assert(!is_digit(b.skip(d + 1)[i - bs - d - 1]));
                        assert(!is_fl_text(s@));
                    }
                }
                return zero;
            }
            dot = i;
        } else if !crate::chars::digit(c) {
            proof {
                lemma_dot_pos_range(b);
                let d = dot_pos(b);
                if i - bs < d {
                    assert(!is_digit(b.take(d)[i - bs]));
                } else if d < b.len() && i - bs > d {
                    assert(!is_digit(b.skip(d + 1)[i - bs - d - 1]));
                } else {
                    assert(d == i - bs || d == b.len());
                    if d == i - bs {
                        assert(b[d] == c && c != '.');
                        assert(d < b.len());
                        assert(false);
                    } else {
                        assert(!is_digit(b.take(d)[i - bs]));
                    }
                }
                assert(!is_fl_text(s@));
            }
            return zero;
        }
        i = i + 1;
    }
    proof {
        if dot == n {
            lemma_dot_pos_at(b, b.len() as int);
        } else {
            lemma_dot_pos_at(b, dot - bs);
        }
    }
    let ghost d: int = dot_pos(b);
    let ghost ip: Seq<char> = b.take(d);
    let ghost fp: Seq<char> = if d < b.len() {
        b.skip(d + 1)
    } else {
        Seq::<char>::empty()
    };
    proof {
        assert(all_digits(ip));
        assert(all_digits(fp)) by {
            assert forall|k: int| 0 <= k < fp.len() implies is_digit(fp[k]) by {
                assert(fp[k] == b[k + d + 1]);
            }
        }
    }
    if n == bs || (dot == bs && n == bs + 1) {
        // no digits at all: "", a bare sign, or a bare (signed) dot
        proof {
            assert(ip.len() == 0 && fp.len() == 0);
        }
        return zero;
    }
    proof {
        assert(is_fl_text(s@));
    }
    // trim the fraction's trailing zeros
    let mut fe: usize = n;
    while fe - dot > 1 && s.get_char(fe - 1) == '0'
        invariant
            fe <= n,
            dot <= fe,
            dot < n ==> dot + 1 <= fe,
            dot == n ==> fe == n,
            n == s@.len(),
            forall|j: int| fe <= j < n ==> s@[j] == '0',
        decreases fe,
    {
        fe = fe - 1;
    }
    proof {
        if dot < n {
            assert forall|j: int| fe - dot - 1 <= j < fp.len() implies fp[j] == '0' by {
                assert(fp[j] == s@[j + dot + 1]);
            }
            if fe > dot + 1 {
                assert(fp[fe - dot - 2] == s@[fe - 1]);
            }
            lemma_strip_tz_at(fp, fe - dot - 1);
        } else {
            lemma_strip_tz_at(fp, 0);
        }
    }
    // trim the integer part's leading zeros
    let ip_len: usize = dot - bs;
    let mut st: usize = 0;
    while st + 1 < ip_len && s.get_char(bs + st) == '0'
        invariant
            0 <= st,
            ip_len > 0 ==> st < ip_len,
            ip_len == 0 ==> st == 0,
            ip_len == dot - bs <= n - bs,
            bs + ip_len <= n == s@.len(),
            forall|j: int| 0 <= j < st ==> s@[#[trigger] (j + bs)] == '0',
        decreases ip_len - st,
    {
        st = st + 1;
    }
    let ghost ip2: Seq<char> = strip_lz(ip);
    proof {
        assert(ip =~= b.take(d));
        assert forall|k: int| 0 <= k < ip.len() implies ip[k] == s@[k + bs] by {
            assert(ip[k] == b[k]);
        }
        if ip_len == 0 {
            assert(ip.len() == 0);
            assert(ip2 =~= seq!['0']);
        } else {
            assert(st == ip_len - 1 || ip[st as int] != '0');
            lemma_strip_lz_at(ip, st as int);
        }
    }
    // build the canonical text
    let mut v: Vec<char> = Vec::new();
    if neg {
        v.push('-');
    }
    let ghost sign: Seq<char> = if neg { seq!['-'] } else { Seq::empty() };
    proof {
        assert(v@ =~= sign);
    }
    if ip_len == 0 {
        v.push('0');
        proof {
            assert(v@ =~= sign + ip2);
        }
    } else {
        let mut j: usize = bs + st;
        while j < dot
            invariant
                bs + st <= j <= dot,
                dot <= n == s@.len(),
                bs + st < dot,
                ip2 == strip_lz(ip),
                ip2 =~= ip.skip(st as int),
                ip.len() == dot - bs,
                forall|k: int| 0 <= k < ip.len() ==> ip[k] == s@[k + bs],
                v@ == sign + ip2.take(j - bs - st),
            decreases dot - j,
        {
            v.push(s.get_char(j));
            j = j + 1;
            proof {
                assert(ip2[j - 1 - bs - st] == ip[j - 1 - bs]);
                assert(v@ =~= sign + ip2.take(j - bs - st));
            }
        }
        proof {
            assert(ip2.take(ip2.len() as int) =~= ip2);
            assert(v@ =~= sign + ip2);
        }
    }
    let ghost fp2: Seq<char> = strip_tz(fp);
    if dot < n && fe > dot + 1 {
        v.push('.');
        let ghost head: Seq<char> = sign + ip2 + seq!['.'];
        proof {
            assert(v@ =~= head);
        }
        let mut j: usize = dot + 1;
        while j < fe
            invariant
                dot + 1 <= j <= fe <= n == s@.len(),
                dot < n,
                fp2 =~= fp.take(fe - dot - 1),
                forall|k: int| 0 <= k < fp.len() ==> fp[k] == s@[k + dot + 1],
                fp.len() == n - dot - 1,
                v@ == head + fp2.take(j - dot - 1),
            decreases fe - j,
        {
            v.push(s.get_char(j));
            j = j + 1;
            proof {
                assert(fp2[j - dot - 2] == fp[j - dot - 2]);
                assert(v@ =~= head + fp2.take(j - dot - 1));
            }
        }
        proof {
            assert(fp2.take(fp2.len() as int) =~= fp2);
            assert(v@ =~= sign + ip2 + seq!['.'] + fp2);
            assert(fp2.len() > 0);
        }
    } else {
        proof {
            assert(fp2.len() == 0);
        }
    }
    proof {
        assert(v@ =~= canon_dec(s@));
    }
    v
}

} // verus!
