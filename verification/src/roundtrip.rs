//! Round-trip facts: what the serializer writes, the lexer and parser read
//! back unchanged.
//!
//! The two laws here cover the literals whose round trip is not the
//! identity on text: integers, which are reprinted from their value, and
//! quoted strings, which are escaped on output and decoded on input.

use vstd::prelude::*;

use crate::chars::is_digit;
use crate::lexer::scan_qstring;
use crate::numbers::{
    all_digits, canon_dec, digit_char, digits_val, dot_pos, dval, fl_body, i64_of_text,
    int_literal, is_fl_text, is_int_text, strip_lz, strip_tz, udec,
};
use crate::serializer::{esc_c, esc_str};

verus! {

proof fn lemma_dot_pos_here(s: Seq<char>, k: int)
    requires
        0 <= k <= s.len(),
        forall|j: int| 0 <= j < k ==> s[j] != '.',
        k == s.len() || s[k] == '.',
    ensures
        dot_pos(s) == k,
    decreases k,
{
    if k == 0 {
    } else {
        let t = s.skip(1);
        assert forall|j: int| 0 <= j < k - 1 implies t[j] != '.' by {
            assert(t[j] == s[j + 1]);
        }
        if k < s.len() {
            assert(t[k - 1] == s[k]);
        }
        lemma_dot_pos_here(t, k - 1);
    }
}

proof fn lemma_strip_tz_shape(s: Seq<char>)
    ensures
        strip_tz(s).len() <= s.len(),
        forall|i: int| 0 <= i < strip_tz(s).len() ==> strip_tz(s)[i] == s[i],
        strip_tz(s).len() > 0 ==> strip_tz(s).last() != '0',
        strip_tz(strip_tz(s)) == strip_tz(s),
    decreases s.len(),
{
    if s.len() > 0 && s.last() == '0' {
        lemma_strip_tz_shape(s.drop_last());
        assert forall|i: int| 0 <= i < strip_tz(s).len() implies strip_tz(s)[i] == s[i] by {
            assert(s.drop_last()[i] == s[i]);
        }
    }
}

proof fn lemma_strip_lz_shape(s: Seq<char>)
    ensures
        strip_lz(s).len() >= 1,
        strip_lz(s).len() > 1 ==> strip_lz(s)[0] != '0',
        all_digits(s) ==> all_digits(strip_lz(s)),
        strip_lz(strip_lz(s)) == strip_lz(s),
    decreases s.len(),
{
    if s.len() > 1 && s[0] == '0' {
        lemma_strip_lz_shape(s.skip(1));
        if all_digits(s) {
            assert forall|i: int| 0 <= i < s.skip(1).len() implies is_digit(s.skip(1)[i]) by {
                assert(s.skip(1)[i] == s[i + 1]);
            }
        }
    } else if s.len() == 0 {
        let z = seq!['0'];
        assert(strip_lz(z) == z);
    }
}

/// Canonicalizing decimal text is idempotent: what the serializer prints
/// for an `fl` value is already in canonical form, so canonicalizing it
/// again changes nothing.
pub proof fn lemma_canon_dec_idempotent(s: Seq<char>)
    ensures
        canon_dec(canon_dec(s)) == canon_dec(s),
{
    if !is_fl_text(s) {
        let t = canon_dec(s);
        assert(t =~= seq!['0']);
        lemma_canon_zero();
    } else {
        let neg = s[0] == '-';
        let b = fl_body(s);
        let d = dot_pos(b);
        let ip = b.take(d);
        let fp = if d < b.len() {
            b.skip(d + 1)
        } else {
            Seq::<char>::empty()
        };
        crate::numbers::lemma_dot_pos_range(b);
        let ip2 = strip_lz(ip);
        let fp2 = strip_tz(fp);
        lemma_strip_lz_shape(ip);
        lemma_strip_tz_shape(fp);
        assert(all_digits(fp2)) by {
            assert forall|i: int| 0 <= i < fp2.len() implies is_digit(fp2[i]) by {
                assert(fp2[i] == fp[i]);
            }
        }
        let t = canon_dec(s);
        let sign: Seq<char> = if neg {
            seq!['-']
        } else {
            Seq::<char>::empty()
        };
        let b2 = fl_body(t);
        if fp2.len() > 0 {
            assert(t == sign + ip2 + seq!['.'] + fp2);
            assert(t[0] == '-' <==> neg) by {
                if !neg {
                    assert(t[0] == ip2[0]);
                }
                if neg {
                    assert(t[0] == '-');
                }
            }
            assert(t[0] != '+') by {
                if neg {
                    assert(t[0] == '-');
                } else {
                    assert(t[0] == ip2[0]);
                    if ip2.len() > 1 {
                    } else {
                        assert(is_digit(ip2[0]));
                    }
                }
            }
            assert(b2 =~= ip2 + seq!['.'] + fp2);
            assert forall|j: int| 0 <= j < ip2.len() implies b2[j] != '.' by {
                assert(b2[j] == ip2[j]);
            }
            assert(b2[ip2.len() as int] == '.');
            lemma_dot_pos_here(b2, ip2.len() as int);
            assert(b2.take(ip2.len() as int) =~= ip2);
            assert(b2.skip(ip2.len() as int + 1) =~= fp2);
            assert(is_fl_text(t));
            assert(canon_dec(t) == sign + strip_lz(ip2) + seq!['.'] + strip_tz(fp2));
        } else {
            assert(t == sign + ip2);
            assert(t[0] == '-' <==> neg) by {
                if !neg {
                    assert(t[0] == ip2[0]);
                }
            }
            assert(t[0] != '+') by {
                if !neg {
                    assert(t[0] == ip2[0]);
                }
            }
            assert(b2 =~= ip2);
            assert forall|j: int| 0 <= j < b2.len() implies b2[j] != '.' by {
                assert(is_digit(b2[j]));
            }
            lemma_dot_pos_here(b2, b2.len() as int);
            assert(b2.take(b2.len() as int) =~= ip2);
            assert(is_fl_text(t));
            assert(strip_tz(Seq::<char>::empty()) =~= Seq::<char>::empty());
            assert(canon_dec(t) == sign + strip_lz(ip2));
        }
    }
}

proof fn lemma_canon_zero()
    ensures
        canon_dec(seq!['0']) == seq!['0'],
{
    let t = seq!['0'];
    assert(is_digit('0'));
    assert(fl_body(t) == t);
    lemma_dot_pos_here(t, 1);
    assert(t.take(1) =~= t);
    assert(is_fl_text(t));
    assert(strip_lz(t) == t);
    assert(strip_tz(Seq::<char>::empty()) =~= Seq::<char>::empty());
    assert(canon_dec(t) =~= t);
}

proof fn lemma_udec_digits(m: nat)
    ensures
        udec(m).len() >= 1,
        all_digits(udec(m)),
        digits_val(udec(m)) == m,
    decreases m,
{
    if m < 10 {
        let s = udec(m);
        assert(s.drop_last() =~= Seq::<char>::empty());
        assert(digits_val(Seq::<char>::empty()) == 0);
        assert(s.last() == digit_char(m as int));
        assert(is_digit(digit_char(m as int)));
        assert(dval(digit_char(m as int)) == m);
    } else {
        lemma_udec_digits(m / 10);
        let a = udec(m / 10);
        let d = digit_char((m % 10) as int);
        let s = udec(m);
        assert(s =~= a.push(d));
        assert(s.drop_last() =~= a);
        assert(s.last() == d);
        assert(is_digit(d));
        assert(dval(d) == m % 10);
        assert forall|i: int| 0 <= i < s.len() implies is_digit(s[i]) by {
            if i < a.len() {
                assert(s[i] == a[i]);
            }
        }
        assert(digits_val(s) == (m / 10) * 10 + m % 10);
    }
}

/// An integer's decimal rendering decodes back to the same integer: reading
/// what the serializer prints for a `num` value yields that value.
pub proof fn lemma_int_literal_round_trip(n: i64)
    ensures
        i64_of_text(int_literal(n as int)) == n,
{
    let s = int_literal(n as int);
    if n < 0 {
        let m = (-(n as int)) as nat;
        lemma_udec_digits(m);
        assert(s =~= seq!['-'] + udec(m));
        assert(s[0] == '-');
        assert(s.skip(1) =~= udec(m));
        assert(is_int_text(s));
        assert(crate::numbers::int_text_val(s) == -(m as int));
    } else {
        let m = n as nat;
        lemma_udec_digits(m);
        assert(s == udec(m));
        assert(is_digit(s[0]));
        assert(s[0] != '-' && s[0] != '+');
        assert(is_int_text(s));
    }
}

/// An integer's decimal rendering read back as an `fl` literal denotes the
/// same decimal text: a whole-valued `fl` value keeps its rendering across
/// a round trip.
pub proof fn lemma_fl_literal_round_trip(n: i64)
    ensures
        crate::value::fl_of_text(int_literal(n as int)) == int_literal(n as int),
{
    let t = int_literal(n as int);
    if n < 0 {
        lemma_udec_digits((-(n as int)) as nat);
    } else {
        lemma_udec_digits(n as nat);
    }
    assert(!t.contains('.')) by {
        if t.contains('.') {
            let k = choose|k: int| 0 <= k < t.len() && t[k] == '.';
            if n < 0 {
                assert(t =~= seq!['-'] + udec((-(n as int)) as nat));
                if k > 0 {
                    assert(t[k] == udec((-(n as int)) as nat)[k - 1]);
                    assert(is_digit('.'));
                }
            } else {
                assert(is_digit('.'));
            }
        }
    }
    lemma_int_literal_round_trip(n);
}

/// A string body written with backslash and quote escaped, followed by the
/// closing quote, scans back to exactly the original text: reading what the
/// serializer prints for a `str` value yields that value.
pub proof fn lemma_escaped_string_round_trip(
    full: Seq<char>,
    pos: int,
    s: Seq<char>,
    line: int,
    col: int,
)
    requires
        0 <= pos,
        pos + esc_str(s).len() + 1 <= full.len(),
        full.subrange(pos, pos + esc_str(s).len()) == esc_str(s),
        full[pos + esc_str(s).len()] == '"',
    ensures
        scan_qstring(full, pos, line, col) matches Ok(x) && x.0 == s && x.1 == pos + esc_str(
            s,
        ).len() + 1,
    decreases s.len(),
{
    let es = esc_str(s);
    if s.len() == 0 {
        assert(es =~= Seq::<char>::empty());
        assert(full[pos] == '"');
        assert(scan_qstring(full, pos, line, col) matches Ok(x) && x.0 =~= s);
    } else {
        let c = s[0];
        let rest = s.drop_first();
        let er = esc_str(rest);
        assert(es == esc_c(c) + er);
        if c == '\\' || c == '"' {
            assert(es =~= seq!['\\', c] + er);
            assert(full[pos] == full.subrange(pos, pos + es.len())[0]);
            assert(full[pos] == '\\');
            assert(full[pos + 1] == full.subrange(pos, pos + es.len())[1]);
            assert(full[pos + 1] == c);
            assert(full.subrange(pos + 2, pos + 2 + er.len()) =~= er) by {
                assert forall|k: int| 0 <= k < er.len() implies full.subrange(
                    pos + 2,
                    pos + 2 + er.len(),
                )[k] == er[k] by {
                    assert(full.subrange(pos, pos + es.len())[k + 2] == es[k + 2]);
                }
            }
            assert(full[pos + 2 + er.len()] == '"');
            lemma_escaped_string_round_trip(full, pos + 2, rest, line, col + 2);
            assert(crate::lexer::esc_char(c) == c);
            match scan_qstring(full, pos + 2, line, col + 2) {
                Ok((t, e, l3, c3)) => {
                    assert(seq![c] + t =~= s);
                },
                Err(_) => {
                    assert(false);
                },
            }
        } else {
            assert(es =~= seq![c] + er);
            assert(full[pos] == full.subrange(pos, pos + es.len())[0]);
            assert(full[pos] == c);
            assert(c != '"' && c != '\\');
            assert(full.subrange(pos + 1, pos + 1 + er.len()) =~= er) by {
                assert forall|k: int| 0 <= k < er.len() implies full.subrange(
                    pos + 1,
                    pos + 1 + er.len(),
                )[k] == er[k] by {
                    assert(full.subrange(pos, pos + es.len())[k + 1] == es[k + 1]);
                }
            }
            assert(full[pos + 1 + er.len()] == '"');
            let l2: int = if c == '\n' {
                line + 1
            } else {
                line
            };
            let c2: int = if c == '\n' {
                1int
            } else {
                col + 1
            };
            lemma_escaped_string_round_trip(full, pos + 1, rest, l2, c2);
            match scan_qstring(full, pos + 1, l2, c2) {
                Ok((t, e, l3, c3)) => {
                    assert(seq![c] + t =~= s);
                },
                Err(_) => {
                    assert(false);
                },
            }
        }
    }
}

} // verus!
