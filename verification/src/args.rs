//! Argument parsing for the `/claim` command.
//!
//! The raw message text starts with the fixed command token.  The remainder
//! is trimmed, commas are read as spaces, the text is split on single spaces,
//! each token is trimmed and read as a signed 32-bit integer, tokens that are
//! not integers are discarded, and the first two integers become the claimed
//! coordinates.  Fewer than two integers is an `InvalidArguments` error.

use vstd::prelude::*;
use vstd::string::*;

verus! {

/// Why a command invocation produced no acknowledgement.
#[derive(Clone, Copy, Debug, PartialEq, Eq, Structural)]
pub enum ClaimError {
    /// The text after the command token held fewer than two integers.
    InvalidArguments,
}

/// The length in characters of the fixed command token `/claim`.
pub open spec fn cmd_len() -> int {
    6
}

/// The whitespace characters that trimming removes.
pub open spec fn is_ws_char(c: char) -> bool {
    ||| c == ' '
    ||| c == '\t'
    ||| c == '\n'
    ||| c == '\u{b}'
    ||| c == '\u{c}'
    ||| c == '\r'
    ||| c == '\u{85}'
    ||| c == '\u{a0}'
    ||| c == '\u{1680}'
    ||| ('\u{2000}' as int <= c as int && c as int <= '\u{200a}' as int)
    ||| c == '\u{2028}'
    ||| c == '\u{2029}'
    ||| c == '\u{202f}'
    ||| c == '\u{205f}'
    ||| c == '\u{3000}'
}

/// A decimal digit.
pub open spec fn is_digit_char(c: char) -> bool {
    '0' as int <= c as int && c as int <= '9' as int
}

/// Commas are read as spaces.
pub open spec fn norm_char(c: char) -> char {
    if c == ',' {
        ' '
    } else {
        c
    }
}

/// The text with every comma read as a space.
pub open spec fn spec_normalize(s: Seq<char>) -> Seq<char>
    decreases s.len(),
{
    if s.len() == 0 {
        Seq::<char>::empty()
    } else {
        spec_normalize(s.drop_last()).push(norm_char(s.last()))
    }
}

/// The text split on single spaces.  Splitting never yields an empty list:
/// empty text gives one empty token, and every space ends one token and
/// starts the next.
pub open spec fn spec_split(s: Seq<char>) -> Seq<Seq<char>>
    decreases s.len(),
{
    if s.len() == 0 {
        seq![Seq::<char>::empty()]
    } else if s.last() == ' ' {
        spec_split(s.drop_last()).push(Seq::<char>::empty())
    } else {
        let t = spec_split(s.drop_last());
        t.update(t.len() - 1, t.last().push(s.last()))
    }
}

/// The text without leading whitespace.
pub open spec fn trim_front(s: Seq<char>) -> Seq<char>
    decreases s.len(),
{
    if s.len() > 0 && is_ws_char(s[0]) {
        trim_front(s.drop_first())
    } else {
        s
    }
}

/// The text without trailing whitespace.
pub open spec fn trim_back(s: Seq<char>) -> Seq<char>
    decreases s.len(),
{
    if s.len() > 0 && is_ws_char(s.last()) {
        trim_back(s.drop_last())
    } else {
        s
    }
}

/// The text without leading or trailing whitespace.
pub open spec fn spec_trim(s: Seq<char>) -> Seq<char> {
    trim_back(trim_front(s))
}

/// Every character is a decimal digit.
pub open spec fn all_digits(s: Seq<char>) -> bool {
    forall|i: int| 0 <= i < s.len() ==> is_digit_char(#[trigger] s[i])
}

/// The value of a string of decimal digits.
pub open spec fn digits_val(s: Seq<char>) -> int
    decreases s.len(),
{
    if s.len() == 0 {
        0
    } else {
        digits_val(s.drop_last()) * 10 + (s.last() as int - '0' as int)
    }
}

/// The value of an optional sign followed by digits, if it fits an `i32`.
pub open spec fn spec_parse_digits(ds: Seq<char>, neg: bool) -> Option<int> {
    if ds.len() > 0 && all_digits(ds) {
        let v = if neg {
            -digits_val(ds)
        } else {
            digits_val(ds)
        };
        if -0x8000_0000 <= v && v <= 0x7fff_ffff {
            Option::Some(v)
        } else {
            Option::None
        }
    } else {
        Option::None
    }
}

/// What reading one token as a signed 32-bit integer yields: the token is
/// trimmed; an optional single `-` or `+` sign is followed by at least one
/// decimal digit and nothing else; the value must fit an `i32`.
pub open spec fn spec_parse_i32(t: Seq<char>) -> Option<int> {
    let u = spec_trim(t);
    if u.len() > 0 && (u[0] == '-' || u[0] == '+') {
        spec_parse_digits(u.drop_first(), u[0] == '-')
    } else {
        spec_parse_digits(u, false)
    }
}

/// The integers among the tokens, in order, non-integers discarded.
pub open spec fn spec_ints(tokens: Seq<Seq<char>>) -> Seq<int>
    decreases tokens.len(),
{
    if tokens.len() == 0 {
        Seq::<int>::empty()
    } else {
        let rest = spec_ints(tokens.drop_last());
        match spec_parse_i32(tokens.last()) {
            Option::Some(v) => rest.push(v),
            Option::None => rest,
        }
    }
}

/// The sequence of machine integers, as mathematical integers.
pub open spec fn ints_view(s: Seq<i32>) -> Seq<int> {
    s.map_values(|v: i32| v as int)
}

/// What the whole command text claims: the text after the command token is
/// normalized, split and read as integers, and the first two are the
/// coordinates; `None` when fewer than two integers are present.
pub open spec fn spec_claim_args(content: Seq<char>) -> Option<(int, int)> {
    let ints = spec_ints(spec_split(spec_normalize(content.skip(cmd_len()))));
    if ints.len() >= 2 {
        Option::Some((ints[0], ints[1]))
    } else {
        Option::None
    }
}

/// Splitting always yields at least one token.
proof fn lemma_split_nonempty(s: Seq<char>)
    ensures
        spec_split(s).len() >= 1,
    decreases s.len(),
{
    if s.len() > 0 {
        lemma_split_nonempty(s.drop_last());
    }
}

/// Trimming the front ignores any known run of leading whitespace.
proof fn lemma_trim_front_skip(s: Seq<char>, k: int)
    requires
        0 <= k <= s.len(),
        forall|j: int| 0 <= j < k ==> is_ws_char(#[trigger] s[j]),
    ensures
        trim_front(s) == trim_front(s.skip(k)),
    decreases k,
{
    if k > 0 {
        assert(is_ws_char(s[0]));
        assert(s.drop_first() =~= s.skip(1));
        lemma_trim_front_skip(s.skip(1), k - 1);
        assert(s.skip(1).skip(k - 1) =~= s.skip(k));
    } else {
        assert(s.skip(0) =~= s);
    }
}

/// Trimming the back ignores any known run of trailing whitespace.
proof fn lemma_trim_back_take(s: Seq<char>, k: int)
    requires
        0 <= k <= s.len(),
        forall|j: int| k <= j < s.len() ==> is_ws_char(#[trigger] s[j]),
    ensures
        trim_back(s) == trim_back(s.take(k)),
    decreases s.len() - k,
{
    if k < s.len() {
        assert(is_ws_char(s.last()));
        assert(s.drop_last() =~= s.take(s.len() - 1));
        lemma_trim_back_take(s.take(s.len() - 1), k);
        assert(s.take(s.len() - 1).take(k) =~= s.take(k));
    } else {
        assert(s.take(k) =~= s);
    }
}

/// A string of digits has a non-negative value.
proof fn lemma_digits_val_nonneg(s: Seq<char>)
    requires
        all_digits(s),
    ensures
        digits_val(s) >= 0,
    decreases s.len(),
{
    if s.len() > 0 {
        assert(forall|i: int|
            0 <= i < s.drop_last().len() ==> is_digit_char(#[trigger] s.drop_last()[i])) by {
            assert(forall|i: int|
                0 <= i < s.drop_last().len() ==> s.drop_last()[i] == (#[trigger] s[i]));
        };
        lemma_digits_val_nonneg(s.drop_last());
        assert(is_digit_char(s.last()));
    }
}

/// The decimal value of a digit character, `None` for any other character.
fn digit_of(c: char) -> (r: Option<u8>)
    ensures
        match r {
            Option::Some(d) => is_digit_char(c) && d as int == c as int - '0' as int,
            Option::None => !is_digit_char(c),
        },
{
    let cu: u32 = c as u32;
    if 48 <= cu && cu <= 57 {
        Option::Some((cu - 48) as u8)
    } else {
        Option::None
    }
}

/// Whether this character is whitespace that trimming removes.
fn is_ws(c: char) -> (r: bool)
    ensures
        r == is_ws_char(c),
{
    let u: u32 = c as u32;
    u == 0x20 || (0x9 <= u && u <= 0xd) || u == 0x85 || u == 0xa0 || u == 0x1680 || (0x2000 <= u
        && u <= 0x200a) || u == 0x2028 || u == 0x2029 || u == 0x202f || u == 0x205f || u == 0x3000
}

/// The token without leading or trailing whitespace.
fn trim_token(t: &Vec<char>) -> (r: Vec<char>)
    ensures
        r@ == spec_trim(t@),
{
    let len: usize = t.len();
    let mut a: usize = 0;
    while a < len && is_ws(t[a])
        invariant
            0 <= a <= len,
            len == t@.len(),
            forall|j: int| 0 <= j < a ==> is_ws_char(#[trigger] t@[j]),
        decreases len - a,
    {
        a += 1;
    }
    proof {
        lemma_trim_front_skip(t@, a as int);
        assert(trim_front(t@.skip(a as int)) == t@.skip(a as int));
    }
    let mut b: usize = len;
    while b > a && is_ws(t[b - 1])
        invariant
            a <= b <= len,
            len == t@.len(),
            forall|j: int| b <= j < len ==> is_ws_char(#[trigger] t@[j]),
        decreases b,
    {
        b -= 1;
    }
    proof {
        let w = t@.skip(a as int);
        assert(forall|j: int|
            b - a <= j < w.len() ==> is_ws_char(#[trigger] w[j])) by {
            assert(forall|j: int| 0 <= j < w.len() ==> w[j] == (#[trigger] t@[j + a]));
        };
        lemma_trim_back_take(w, b - a as int);
        assert(trim_back(w.take(b - a as int)) == w.take(b - a as int));
        assert(w.take(b - a as int) =~= t@.subrange(a as int, b as int));
    }
    let mut r: Vec<char> = Vec::new();
    let mut j: usize = a;
    while j < b
        invariant
            a <= j <= b,
            b <= t@.len(),
            r@ == t@.subrange(a as int, j as int),
        decreases b - j,
    {
        let c: char = t[j];
        r.push(c);
        proof {
            assert(r@ =~= t@.subrange(a as int, j as int + 1));
        }
        j += 1;
    }
    r
}

/// Read one token as a signed 32-bit integer, exactly as
/// [`spec_parse_i32`] says: trimmed, an optional sign, all digits, in range.
fn parse_i32_token(t: &Vec<char>) -> (r: Option<i32>)
    ensures
        match r {
            Option::Some(v) => spec_parse_i32(t@) == Option::Some(v as int),
            Option::None => spec_parse_i32(t@) is None,
        },
{
    let u = trim_token(t);
    let ulen: usize = u.len();
    if ulen == 0 {
        return Option::None;
    }
    let first: char = u[0];
    let neg: bool = first == '-';
    let start: usize = if first == '-' || first == '+' {
        1
    } else {
        0
    };
    let ghost ds = if start == 1 {
        u@.drop_first()
    } else {
        u@
    };
    proof {
        if start == 1 {
            assert(ds =~= u@.skip(1int));
        } else {
            assert(ds =~= u@.skip(0int));
        }
        assert(ds =~= u@.subrange(start as int, ulen as int));
    }
    if start == ulen {
        return Option::None;
    }
    let mut val: u64 = 0;
    let mut k: usize = start;
    while k < ulen
        invariant
            start <= k <= ulen,
            ulen == u@.len(),
            start <= 1,
            ulen > 0,
            u@ == spec_trim(t@),
            first == u@[0],
            neg == (first == '-'),
            (start == 1) == (first == '-' || first == '+'),
            ds == if start == 1 {
                u@.drop_first()
            } else {
                u@
            },
            ds == u@.subrange(start as int, ulen as int),
            all_digits(u@.subrange(start as int, k as int)),
            val <= 0x8000_0001,
            val <= 0x8000_0000 ==> val == digits_val(u@.subrange(start as int, k as int)),
            val == 0x8000_0001 ==> digits_val(u@.subrange(start as int, k as int)) > 0x8000_0000,
        decreases ulen - k,
    {
        let c: char = u[k];
        let d8: u8 = match digit_of(c) {
            Option::Some(d) => d,
            Option::None => {
                proof {
                    assert(ds[k - start] == u@[k as int]);
                    assert(!all_digits(ds));
                }
                return Option::None;
            },
        };
        proof {
            let p = u@.subrange(start as int, k as int);
            let q = u@.subrange(start as int, k as int + 1);
            assert(q.drop_last() =~= p);
            assert(q.last() == u@[k as int]);
            assert(is_digit_char(c));
            assert(forall|i: int| 0 <= i < q.len() ==> is_digit_char(#[trigger] q[i])) by {
                assert(forall|i: int| 0 <= i < p.len() ==> q[i] == (#[trigger] p[i]));
            };
            lemma_digits_val_nonneg(p);
        }
        let d: u64 = d8 as u64;
        if val <= 0x8000_0000 {
            val = val * 10 + d;
            if val > 0x8000_0000 {
                val = 0x8000_0001;
            }
        }
        k += 1;
    }
    proof {
        assert(u@.subrange(start as int, ulen as int) == ds);
        if start == 1 {
            assert(u@[0] == '-' || u@[0] == '+');
        }
        lemma_digits_val_nonneg(ds);
    }
    if neg {
        if val <= 0x8000_0000 {
            Option::Some((-(val as i64)) as i32)
        } else {
            Option::None
        }
    } else {
        if val <= 0x7fff_ffff {
            Option::Some(val as i32)
        } else {
            Option::None
        }
    }
}

/// Read the claimed coordinates out of the full command text: the first two
/// integers after the command token, commas counting as separators, other
/// non-integer tokens discarded.  `InvalidArguments` exactly when fewer than
/// two integers are present.
pub fn parse_claim_args(content: &str) -> (r: Result<(i32, i32), ClaimError>)
    requires
        content@.len() >= cmd_len(),
    ensures
        match r {
            Ok(xy) => spec_claim_args(content@) == Option::Some((xy.0 as int, xy.1 as int)),
            Err(e) => e == ClaimError::InvalidArguments && spec_claim_args(content@) is None,
        },
{
    let n: usize = content.unicode_len();
    let rest: &str = content.substring_char(6, n);
    let m: usize = rest.unicode_len();
    proof {
        assert(rest@ =~= content@.skip(cmd_len()));
    }
    let mut ints: Vec<i32> = Vec::new();
    let mut cur: Vec<char> = Vec::new();
    let mut i: usize = 0;
    proof {
        assert(rest@.take(0int) =~= Seq::<char>::empty());
        lemma_split_nonempty(rest@.take(0int));
        let toks = spec_split(spec_normalize(rest@.take(0int)));
        assert(toks =~= seq![Seq::<char>::empty()]);
        assert(toks.drop_last() =~= Seq::<Seq<char>>::empty());
        assert(ints_view(ints@) =~= spec_ints(toks.drop_last()));
        assert(cur@ =~= toks.last());
    }
    while i < m
        invariant
            m == rest@.len(),
            0 <= i <= m,
            spec_split(spec_normalize(rest@.take(i as int))).len() >= 1,
            cur@ == spec_split(spec_normalize(rest@.take(i as int))).last(),
            ints_view(ints@) == spec_ints(
                spec_split(spec_normalize(rest@.take(i as int))).drop_last(),
            ),
        decreases m - i,
    {
        let ghost toks = spec_split(spec_normalize(rest@.take(i as int)));
        let c: char = rest.get_char(i);
        proof {
            assert(rest@.take(i as int + 1).drop_last() =~= rest@.take(i as int));
            assert(rest@.take(i as int + 1).last() == rest@[i as int]);
            assert(spec_normalize(rest@.take(i as int + 1)) == spec_normalize(
                rest@.take(i as int),
            ).push(norm_char(c)));
        }
        let rc: char = if c == ',' {
            ' '
        } else {
            c
        };
        let ghost norm1 = spec_normalize(rest@.take(i as int)).push(norm_char(c));
        proof {
            assert(norm1.len() > 0);
            assert(norm1.drop_last() =~= spec_normalize(rest@.take(i as int)));
            assert(norm1.last() == norm_char(c));
        }
        if rc == ' ' {
            proof {
                assert(norm_char(c) == ' ');
                assert(spec_split(norm1) == toks.push(Seq::<char>::empty()));
                assert(spec_split(norm1).drop_last() =~= toks);
                assert(spec_ints(toks) == match spec_parse_i32(toks.last()) {
                    Option::Some(v) => spec_ints(toks.drop_last()).push(v),
                    Option::None => spec_ints(toks.drop_last()),
                });
            }
            let parsed = parse_i32_token(&cur);
            match parsed {
                Option::Some(v) => {
                    ints.push(v);
                    proof {
                        assert(ints_view(ints@) =~= spec_ints(toks));
                    }
                },
                Option::None => {
                    proof {
                        assert(ints_view(ints@) == spec_ints(toks));
                    }
                },
            }
            cur = Vec::new();
            proof {
                assert(cur@ =~= spec_split(norm1).last());
            }
        } else {
            proof {
                assert(norm_char(c) == rc);
                assert(norm_char(c) != ' ');
                let t2 = spec_split(norm1);
                assert(t2 == toks.update(toks.len() - 1, toks.last().push(rc)));
                assert(t2.drop_last() =~= toks.drop_last());
                assert(t2.last() == toks.last().push(rc));
            }
            cur.push(rc);
        }
        i += 1;
    }
    proof {
        assert(rest@.take(m as int) =~= rest@);
    }
    let ghost toks = spec_split(spec_normalize(rest@));
    proof {
        assert(spec_ints(toks) == match spec_parse_i32(toks.last()) {
            Option::Some(v) => spec_ints(toks.drop_last()).push(v),
            Option::None => spec_ints(toks.drop_last()),
        });
    }
    let parsed = parse_i32_token(&cur);
    match parsed {
        Option::Some(v) => {
            ints.push(v);
            proof {
                assert(ints_view(ints@) =~= spec_ints(toks));
            }
        },
        Option::None => {
            proof {
                assert(ints_view(ints@) == spec_ints(toks));
            }
        },
    }
    if ints.len() >= 2 {
        let x: i32 = ints[0];
        let y: i32 = ints[1];
        proof {
            assert(ints_view(ints@)[0] == x as int);
            assert(ints_view(ints@)[1] == y as int);
        }
        Ok((x, y))
    } else {
        Err(ClaimError::InvalidArguments)
    }
}

} // verus!
