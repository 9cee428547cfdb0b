//! Invalidation bus wire format and reconnect policy. The payload is the
//! UTF-8 text `TAG|VERSION` with a decimal version, split at the last `|`;
//! invalid payloads are dropped. Publishing versions rather than bare
//! invalidations lets a node that missed messages converge on the next one.

use vstd::prelude::*;
use vstd::string::StrSliceExecFns;
use vstd::string::StringExecFns;

verus! {

/// The decimal digit character for a value below ten.
pub open spec fn digit_char(d: int) -> char {
    if d == 0 {
        '0'
    } else if d == 1 {
        '1'
    } else if d == 2 {
        '2'
    } else if d == 3 {
        '3'
    } else if d == 4 {
        '4'
    } else if d == 5 {
        '5'
    } else if d == 6 {
        '6'
    } else if d == 7 {
        '7'
    } else if d == 8 {
        '8'
    } else {
        '9'
    }
}

/// The decimal digits of `v`, most significant first.
pub open spec fn dec_digits(v: int) -> Seq<char>
    decreases v,
{
    if v < 10 {
        seq![digit_char(v)]
    } else {
        dec_digits(v / 10).push(digit_char(v % 10))
    }
}

pub open spec fn is_dec_digit(c: char) -> bool {
    '0' <= c && c <= '9'
}

/// The numeric value of a digit string, most significant first.
pub open spec fn dec_val(s: Seq<char>) -> int
    decreases s.len(),
{
    if s.len() == 0 {
        0
    } else {
        dec_val(s.drop_last()) * 10 + (s.last() as int - 48)
    }
}

/// Formatting yields non-empty digit text whose value is the number back.
pub proof fn lemma_dec_digits(v: int)
    requires
        v >= 0,
    ensures
        dec_digits(v).len() >= 1,
        forall|i: int| 0 <= i < dec_digits(v).len() ==> is_dec_digit(#[trigger] dec_digits(v)[i]),
        dec_val(dec_digits(v)) == v,
    decreases v,
{
    if v < 10 {
        assert(dec_digits(v) == seq![digit_char(v)]);
        assert(dec_digits(v).drop_last() =~= Seq::<char>::empty());
        assert(digit_char(v) as int - 48 == v);
        assert(dec_val(dec_digits(v)) == dec_val(Seq::<char>::empty()) * 10 + (digit_char(v)
            as int - 48));
    } else {
        lemma_dec_digits(v / 10);
        let s = dec_digits(v);
        assert(s == dec_digits(v / 10).push(digit_char(v % 10)));
        assert(s.drop_last() =~= dec_digits(v / 10));
        assert(s.last() == digit_char(v % 10));
        assert(digit_char(v % 10) as int - 48 == v % 10);
        assert(dec_val(s) == dec_val(dec_digits(v / 10)) * 10 + (v % 10));
        assert((v / 10) * 10 + (v % 10) == v) by (nonlinear_arith);
        assert forall|i: int| 0 <= i < s.len() implies is_dec_digit(#[trigger] s[i]) by {
            if i < s.len() - 1 {
                assert(s[i] == dec_digits(v / 10)[i]);
            }
        }
    }
}

/// A prefix of a digit string is worth no more than the whole.
proof fn lemma_dec_val_mono(s: Seq<char>, j: int)
    requires
        0 <= j <= s.len(),
        forall|i: int| 0 <= i < s.len() ==> is_dec_digit(#[trigger] s[i]),
    ensures
        dec_val(s.take(j)) <= dec_val(s),
        dec_val(s) >= 0,
    decreases s.len() - j,
{
    if j == s.len() {
        assert(s.take(j) =~= s);
        lemma_dec_val_nonneg(s);
    } else {
        lemma_dec_val_mono(s, j + 1);
        assert(s.take(j + 1).drop_last() =~= s.take(j));
        assert(s.take(j + 1).last() == s[j]);
        lemma_dec_val_nonneg(s.take(j));
        assert(dec_val(s.take(j + 1)) == dec_val(s.take(j)) * 10 + (s[j] as int - 48));
        assert(s[j] as int - 48 >= 0);
    }
}

proof fn lemma_dec_val_nonneg(s: Seq<char>)
    requires
        forall|i: int| 0 <= i < s.len() ==> is_dec_digit(#[trigger] s[i]),
    ensures
        dec_val(s) >= 0,
    decreases s.len(),
{
    if s.len() > 0 {
        assert forall|i: int| 0 <= i < s.drop_last().len() implies is_dec_digit(
            #[trigger] s.drop_last()[i],
        ) by {
            assert(s.drop_last()[i] == s[i]);
        }
        lemma_dec_val_nonneg(s.drop_last());
    }
}

/// One digit as text.
fn digit_str(d: u64) -> (r: &'static str)
    requires
        d < 10,
    ensures
        r@ == seq![digit_char(d as int)],
{
    proof {
        reveal_strlit("0");
        reveal_strlit("1");
        reveal_strlit("2");
        reveal_strlit("3");
        reveal_strlit("4");
        reveal_strlit("5");
        reveal_strlit("6");
        reveal_strlit("7");
        reveal_strlit("8");
        reveal_strlit("9");
    }
    let r = if d == 0 {
        "0"
    } else if d == 1 {
        "1"
    } else if d == 2 {
        "2"
    } else if d == 3 {
        "3"
    } else if d == 4 {
        "4"
    } else if d == 5 {
        "5"
    } else if d == 6 {
        "6"
    } else if d == 7 {
        "7"
    } else if d == 8 {
        "8"
    } else {
        "9"
    };
    proof {
        assert(r@ =~= seq![digit_char(d as int)]);
    }
    r
}

/// Formats a number in decimal.
pub fn u64_to_dec(v: u64) -> (r: String)
    ensures
        r@ == dec_digits(v as int),
    decreases v,
{
    if v < 10 {
        digit_str(v).to_owned()
    } else {
        let mut s = u64_to_dec(v / 10);
        s.append(digit_str(v % 10));
        proof {
            assert(s@ =~= dec_digits(v as int));
        }
        s
    }
}

/// Parses a decimal number: accepts exactly the non-empty all-digit strings
/// whose value fits 64 bits.
pub fn parse_u64(s: &str) -> (r: Option<u64>)
    ensures
        match r {
            Some(x) => s@.len() > 0 && (forall|i: int|
                0 <= i < s@.len() ==> is_dec_digit(#[trigger] s@[i])) && dec_val(s@) == x,
            None => s@.len() == 0 || (exists|i: int|
                0 <= i < s@.len() && !is_dec_digit(#[trigger] s@[i])) || dec_val(s@)
                > u64::MAX,
        },
{
    let n = s.unicode_len();
    if n == 0 {
        return None;
    }
    let mut acc: u64 = 0;
    let mut i: usize = 0;
    while i < n
        invariant
            i <= n,
            n == s@.len(),
            forall|j: int| 0 <= j < i ==> is_dec_digit(#[trigger] s@[j]),
            acc == dec_val(s@.take(i as int)),
        decreases n - i,
    {
        let c = s.get_char(i);
        if !(c >= '0' && c <= '9') {
            proof {
                assert(!is_dec_digit(s@[i as int]));
            }
            return None;
        }
        let d: u64 = (c as u32 as u64) - 48;
        proof {
            assert(s@.take(i + 1).drop_last() =~= s@.take(i as int));
            assert(s@.take(i + 1).last() == s@[i as int]);
        }
        if acc > (u64::MAX - d) / 10 {
            proof {
                assert(dec_val(s@.take(i + 1)) == acc * 10 + d as int);
                assert(acc * 10 + d as int > u64::MAX) by (nonlinear_arith)
                    requires
                        acc > (u64::MAX - d) / 10,
                        d < 10,
                {}
                if forall|j: int| 0 <= j < s@.len() ==> is_dec_digit(#[trigger] s@[j]) {
                    lemma_dec_val_mono(s@, i + 1);
                }
            }
            return None;
        }
        acc = acc * 10 + d;
        i = i + 1;
    }
    proof {
        assert(s@.take(n as int) =~= s@);
    }
    Some(acc)
}

/// Index of the last `|` in `s`, or -1 if there is none.
pub open spec fn last_bar(s: Seq<char>) -> int
    decreases s.len(),
{
    if s.len() == 0 {
        -1
    } else if s.last() == '|' {
        s.len() - 1
    } else {
        last_bar(s.drop_last())
    }
}

pub proof fn lemma_last_bar(s: Seq<char>)
    ensures
        -1 <= last_bar(s) < s.len(),
        last_bar(s) >= 0 ==> s[last_bar(s)] == '|',
        forall|i: int| last_bar(s) < i < s.len() ==> s[i] != '|',
    decreases s.len(),
{
    if s.len() > 0 && s.last() != '|' {
        lemma_last_bar(s.drop_last());
        assert forall|i: int| last_bar(s) < i < s.len() implies s[i] != '|' by {
            if i < s.len() - 1 {
                assert(s.drop_last()[i] == s[i]);
            }
        }
    }
}

/// What the listener accepts: split at the last `|`, parse a decimal
/// version; anything else is dropped.
pub open spec fn spec_parse_invalidation(s: Seq<char>) -> Option<(Seq<char>, u64)> {
    let b = last_bar(s);
    if b < 0 {
        None
    } else {
        let tag = s.take(b);
        let rest = s.skip(b + 1);
        if rest.len() > 0 && (forall|i: int| 0 <= i < rest.len() ==> is_dec_digit(rest[i]))
            && dec_val(rest) <= u64::MAX {
            Some((tag, dec_val(rest) as u64))
        } else {
            None
        }
    }
}

/// Builds the wire payload `TAG|VERSION`.
pub fn encode_invalidation(tag: &str, version: u64) -> (r: String)
    ensures
        r@ == tag@ + seq!['|'] + dec_digits(version as int),
{
    let mut s = tag.to_owned();
    s.append("|");
    let digits = u64_to_dec(version);
    s.append(digits.as_str());
    proof {
        reveal_strlit("|");
        assert(s@ =~= tag@ + seq!['|'] + dec_digits(version as int));
    }
    s
}

/// Splits a payload at the last `|` and parses the version.
pub fn parse_invalidation(payload: &str) -> (r: Option<(String, u64)>)
    ensures
        match r {
            Some((tag, v)) => spec_parse_invalidation(payload@) == Some((tag@, v)),
            None => spec_parse_invalidation(payload@) is None,
        },
{
    proof {
        lemma_last_bar(payload@);
    }
    let n = payload.unicode_len();
    let mut bar: Option<usize> = None;
    let mut i: usize = n;
    while i > 0
        invariant
            i <= n,
            n == payload@.len(),
            bar is None ==> forall|j: int| i <= j < n ==> payload@[j] != '|',
            bar matches Some(b) ==> b < n && payload@[b as int] == '|' && (forall|j: int|
                b < j < n ==> payload@[j] != '|'),
        decreases i,
    {
        if bar.is_none() {
            let c = payload.get_char(i - 1);
            if c == '|' {
                bar = Some(i - 1);
            }
        }
        i = i - 1;
    }
    match bar {
        Some(b) => {
            proof {
                assert(last_bar(payload@) == b) by {
                    lemma_last_bar_at(payload@, b as int);
                }
            }
            let tag = payload.substring_char(0, b).to_owned();
            let rest = payload.substring_char(b + 1, n);
            proof {
                assert(tag@ =~= payload@.take(b as int));
                assert(rest@ =~= payload@.skip(b + 1));
            }
            match parse_u64(rest) {
                Some(v) => Some((tag, v)),
                None => {
                    proof {
                        if rest@.len() > 0 && (forall|j: int|
                            0 <= j < rest@.len() ==> is_dec_digit(#[trigger] rest@[j])) {
                            lemma_dec_val_nonneg(rest@);
                        }
                    }
                    None
                },
            }
        },
        None => {
            proof {
                if last_bar(payload@) >= 0 {
                    assert(payload@[last_bar(payload@)] == '|');
                }
            }
            None
        },
    }
}

/// The last bar is exactly the last position holding `|`.
proof fn lemma_last_bar_at(s: Seq<char>, b: int)
    requires
        0 <= b < s.len(),
        s[b] == '|',
        forall|j: int| b < j < s.len() ==> s[j] != '|',
    ensures
        last_bar(s) == b,
    decreases s.len(),
{
    if s.len() - 1 > b {
        lemma_last_bar_at(s.drop_last(), b);
    }
}

/// Encoded payloads parse back to what was published: a node that receives
/// `TAG|VERSION` merges exactly that version for exactly that tag.
pub proof fn lemma_invalidation_round_trip(tag: Seq<char>, v: u64)
    requires
        forall|i: int| 0 <= i < tag.len() ==> tag[i] != '|',
    ensures
        spec_parse_invalidation(tag + seq!['|'] + dec_digits(v as int)) == Some((tag, v)),
{
    let s = tag + seq!['|'] + dec_digits(v as int);
    lemma_dec_digits(v as int);
    assert forall|j: int| tag.len() < j < s.len() implies s[j] != '|' by {
        assert(s[j] == dec_digits(v as int)[j - tag.len() - 1]);
        assert(is_dec_digit(dec_digits(v as int)[j - tag.len() - 1]));
    }
    lemma_last_bar_at(s, tag.len() as int);
    assert(s.take(tag.len() as int) =~= tag);
    assert(s.skip(tag.len() as int + 1) =~= dec_digits(v as int));
}

/// The reconnect backoff: doubling, capped at five seconds.
pub fn next_backoff(cur_ms: u64) -> (r: u64)
    ensures
        r == if 2 * cur_ms > 5000 {
            5000u64
        } else {
            (2 * cur_ms) as u64
        },
{
    if cur_ms > 2500 {
        5000
    } else {
        2 * cur_ms
    }
}

/// The starting backoff, reset on the first successful message.
pub fn initial_backoff() -> (r: u64)
    ensures
        r == 100,
{
    100
}

} // verus!
