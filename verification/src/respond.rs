//! Response formatting for the `/claim` command.
//!
//! The acknowledgement line holds the display name and the platform
//! identifier in bold emphasis, so both are escaped first: every markup
//! metacharacter gets a leading backslash, and the backslash itself is a
//! metacharacter.  Escaping is proved lossless (unescaping restores the
//! text) and inert (no metacharacter other than a backslash ever stands
//! without a backslash right before it).

use vstd::prelude::*;
use vstd::string::*;

verus! {

/// Relies on alloc's `String::push`: appends the given character to the end
/// of this string.
pub assume_specification[ String::push ](s: &mut String, ch: char)
    ensures
        final(s)@ == old(s)@.push(ch),
;

/// The markup metacharacters of the messaging platform's text formatting.
pub open spec fn is_markup_char(c: char) -> bool {
    c == '*' || c == '_' || c == '~' || c == '`' || c == '|' || c == '\\'
}

/// How one character is emitted: metacharacters get a leading backslash.
pub open spec fn esc_char(c: char) -> Seq<char> {
    if is_markup_char(c) {
        seq!['\\', c]
    } else {
        seq![c]
    }
}

/// The text with every markup metacharacter escaped.
pub open spec fn spec_escape(s: Seq<char>) -> Seq<char>
    decreases s.len(),
{
    if s.len() == 0 {
        Seq::<char>::empty()
    } else {
        esc_char(s[0]) + spec_escape(s.drop_first())
    }
}

/// The inverse reading: a backslash takes the following character literally.
pub open spec fn spec_unescape(t: Seq<char>) -> Seq<char>
    decreases t.len(),
{
    if t.len() == 0 {
        Seq::<char>::empty()
    } else if t[0] == '\\' && t.len() >= 2 {
        seq![t[1]] + spec_unescape(t.skip(2))
    } else {
        seq![t[0]] + spec_unescape(t.skip(1))
    }
}

/// Escaping distributes over concatenation.
pub proof fn lemma_escape_append(a: Seq<char>, b: Seq<char>)
    ensures
        spec_escape(a + b) == spec_escape(a) + spec_escape(b),
    decreases a.len(),
{
    if a.len() == 0 {
        assert(a + b =~= b);
        assert(Seq::<char>::empty() + spec_escape(b) =~= spec_escape(b));
    } else {
        assert((a + b)[0] == a[0]);
        assert((a + b).drop_first() =~= a.drop_first() + b);
        lemma_escape_append(a.drop_first(), b);
        assert(esc_char(a[0]) + (spec_escape(a.drop_first()) + spec_escape(b)) =~= (esc_char(a[0])
            + spec_escape(a.drop_first())) + spec_escape(b));
    }
}

/// Law: escaping is lossless.  Reading the escaped text back, taking each
/// backslash together with the character after it literally, restores the
/// original text — so an escaped display name still renders as exactly that
/// name.
pub proof fn lemma_escape_round_trip(s: Seq<char>)
    ensures
        spec_unescape(spec_escape(s)) == s,
    decreases s.len(),
{
    if s.len() > 0 {
        let c = s[0];
        let e = spec_escape(s);
        let r = spec_escape(s.drop_first());
        lemma_escape_round_trip(s.drop_first());
        if is_markup_char(c) {
            assert(e =~= seq!['\\', c] + r);
            assert(e[0] == '\\' && e.len() >= 2);
            assert(e[1] == c);
            assert(e.skip(2) =~= r);
            assert(seq![c] + s.drop_first() =~= s);
        } else {
            assert(e =~= seq![c] + r);
            assert(e[0] == c && c != '\\');
            assert(e.skip(1) =~= r);
            assert(seq![c] + s.drop_first() =~= s);
        }
    }
}

/// Law: escaped text is inert.  In the escaped text, every markup
/// metacharacter other than the backslash stands right after a backslash,
/// so none of them can open or close platform emphasis on its own.
pub proof fn lemma_escape_no_bare_markup(s: Seq<char>)
    ensures
        forall|i: int|
            0 <= i < spec_escape(s).len() && is_markup_char(#[trigger] spec_escape(s)[i])
                && spec_escape(s)[i] != '\\' ==> i > 0 && spec_escape(s)[i - 1] == '\\',
    decreases s.len(),
{
    if s.len() > 0 {
        let e = spec_escape(s);
        let h = esc_char(s[0]);
        let r = spec_escape(s.drop_first());
        lemma_escape_no_bare_markup(s.drop_first());
        assert(e == h + r);
        assert forall|i: int|
            0 <= i < e.len() && is_markup_char(#[trigger] e[i]) && e[i] != '\\' implies i > 0 && e[i
            - 1] == '\\' by {
            if i < h.len() {
                if is_markup_char(s[0]) {
                    assert(h =~= seq!['\\', s[0]]);
                    assert(i == 1);
                    assert(e[0] == '\\');
                } else {
                    assert(h =~= seq![s[0]]);
                    assert(e[0] == s[0]);
                    assert(false);
                }
            } else {
                assert(e[i] == r[i - h.len()]);
                assert(is_markup_char(r[i - h.len()]) && r[i - h.len()] != '\\');
                assert(i - h.len() > 0 && r[i - h.len() - 1] == '\\');
                assert(e[i - 1] == r[i - h.len() - 1]);
            }
        }
    }
}

/// The character of one decimal digit value.
pub open spec fn digit_char(d: int) -> char {
    if d == 0 {
        '0'
    } else if d == 1 {
        '1'
    } else if d == 2 {
        '2'
    } else if d == 3 {
        '3'
    } else if d == 4 {
        '4'
    } else if d == 5 {
        '5'
    } else if d == 6 {
        '6'
    } else if d == 7 {
        '7'
    } else if d == 8 {
        '8'
    } else {
        '9'
    }
}

/// The decimal digits of a non-negative value, most significant first.
pub open spec fn spec_nat_digits(v: int) -> Seq<char>
    decreases v,
{
    if v < 10 {
        seq![digit_char(v)]
    } else {
        spec_nat_digits(v / 10).push(digit_char(v % 10))
    }
}

/// The decimal rendering of a signed value.
pub open spec fn spec_i32_str(v: int) -> Seq<char> {
    if v < 0 {
        seq!['-'] + spec_nat_digits(-v)
    } else {
        spec_nat_digits(v)
    }
}

/// The whole acknowledgement line: the escaped display name in bold, the
/// escaped platform identifier in bold inside parentheses, the fixed claim
/// phrase, and the two coordinates separated by one space.
pub open spec fn spec_response(name: Seq<char>, pid: Seq<char>, x: int, y: int) -> Seq<char> {
    "**"@ + spec_escape(name) + "** ( **"@ + spec_escape(pid) + "** ) has claimed /goto "@
        + spec_i32_str(x) + " "@ + spec_i32_str(y)
}

/// Whether this character is a markup metacharacter.
fn is_markup(c: char) -> (r: bool)
    ensures
        r == is_markup_char(c),
{
    c == '*' || c == '_' || c == '~' || c == '`' || c == '|' || c == '\\'
}

/// The character of one decimal digit value.
fn digit_char_of(d: u32) -> (c: char)
    requires
        d < 10,
    ensures
        c == digit_char(d as int),
{
    if d == 0 {
        '0'
    } else if d == 1 {
        '1'
    } else if d == 2 {
        '2'
    } else if d == 3 {
        '3'
    } else if d == 4 {
        '4'
    } else if d == 5 {
        '5'
    } else if d == 6 {
        '6'
    } else if d == 7 {
        '7'
    } else if d == 8 {
        '8'
    } else {
        '9'
    }
}

/// Append the text with every markup metacharacter escaped.
fn push_escaped(out: &mut String, s: &str)
    ensures
        final(out)@ == old(out)@ + spec_escape(s@),
{
    let n: usize = s.unicode_len();
    let mut i: usize = 0;
    proof {
        assert(s@.take(0int) =~= Seq::<char>::empty());
        assert(out@ =~= old(out)@ + spec_escape(s@.take(0int)));
    }
    while i < n
        invariant
            n == s@.len(),
            0 <= i <= n,
            out@ == old(out)@ + spec_escape(s@.take(i as int)),
        decreases n - i,
    {
        let c: char = s.get_char(i);
        proof {
            lemma_escape_append(s@.take(i as int), seq![c]);
            assert(s@.take(i as int) + seq![c] =~= s@.take(i as int + 1));
            assert(seq![c].drop_first() =~= Seq::<char>::empty());
            assert(spec_escape(Seq::<char>::empty()) == Seq::<char>::empty());
            assert(spec_escape(seq![c]) == esc_char(c) + spec_escape(seq![c].drop_first()));
            assert(esc_char(c) + Seq::<char>::empty() =~= esc_char(c));
            assert(spec_escape(seq![c]) == esc_char(c));
        }
        if is_markup(c) {
            out.push('\\');
            out.push(c);
            proof {
                assert(out@ =~= old(out)@ + spec_escape(s@.take(i as int + 1)));
            }
        } else {
            out.push(c);
            proof {
                assert(out@ =~= old(out)@ + spec_escape(s@.take(i as int + 1)));
            }
        }
        i += 1;
    }
    proof {
        assert(s@.take(n as int) =~= s@);
    }
}

/// Append the decimal digits of a non-negative value.
fn push_digits(out: &mut String, v: u32)
    ensures
        final(out)@ == old(out)@ + spec_nat_digits(v as int),
    decreases v,
{
    if v < 10 {
        out.push(digit_char_of(v));
        proof {
            assert(out@ =~= old(out)@ + spec_nat_digits(v as int));
        }
    } else {
        push_digits(out, v / 10);
        out.push(digit_char_of(v % 10));
        proof {
            assert(out@ =~= old(out)@ + spec_nat_digits(v as int));
        }
    }
}

/// Append the decimal rendering of a signed value.
fn push_i32(out: &mut String, v: i32)
    ensures
        final(out)@ == old(out)@ + spec_i32_str(v as int),
{
    if v < 0 {
        out.push('-');
        let abs: u32 = (-(v as i64)) as u32;
        push_digits(out, abs);
        proof {
            assert(abs as int == -(v as int));
            assert(out@ =~= old(out)@ + spec_i32_str(v as int));
        }
    } else {
        push_digits(out, v as u32);
    }
}

/// Format the acknowledgement line for one successful claim, exactly as
/// [`spec_response`] says: bold escaped display name, bold escaped platform
/// identifier in parentheses, the claim phrase, and the two coordinates.
pub fn format_response(name: &str, discord_id: &str, x: i32, y: i32) -> (r: String)
    ensures
        r@ == spec_response(name@, discord_id@, x as int, y as int),
{
    let mut r = String::new();
    r.append("**");
    push_escaped(&mut r, name);
    r.append("** ( **");
    push_escaped(&mut r, discord_id);
    r.append("** ) has claimed /goto ");
    push_i32(&mut r, x);
    r.append(" ");
    push_i32(&mut r, y);
    proof {
        assert(r@ =~= spec_response(name@, discord_id@, x as int, y as int));
    }
    r
}

} // verus!
