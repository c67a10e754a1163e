//! Framing of TOML text, character by character.
//!
//! Every message this library places inside a TOML basic string goes through
//! `toml_escape`, so a quote, a backslash or a control character in the
//! message can never corrupt the surrounding document.  The escaping is
//! specified as a function on character sequences and the executable code is
//! proved to produce exactly that sequence.

use vstd::prelude::*;

verus! {

/// The lower-case hexadecimal digit for a value below sixteen.
pub open spec fn hex_digit(n: u32) -> char
    recommends
        n < 16,
{
    if n == 0 {
        '0'
    } else if n == 1 {
        '1'
    } else if n == 2 {
        '2'
    } else if n == 3 {
        '3'
    } else if n == 4 {
        '4'
    } else if n == 5 {
        '5'
    } else if n == 6 {
        '6'
    } else if n == 7 {
        '7'
    } else if n == 8 {
        '8'
    } else if n == 9 {
        '9'
    } else if n == 10 {
        'a'
    } else if n == 11 {
        'b'
    } else if n == 12 {
        'c'
    } else if n == 13 {
        'd'
    } else if n == 14 {
        'e'
    } else {
        'f'
    }
}

/// How one character appears inside a TOML basic string: itself where TOML
/// allows it, a short backslash escape for the quote, the backslash and the
/// common control characters, and a `\u00xx` escape for the remaining
/// control characters.
pub open spec fn toml_escape_char(c: char) -> Seq<char> {
    if c == '"' {
        seq!['\\', '"']
    } else if c == '\\' {
        seq!['\\', '\\']
    } else if c == '\u{8}' {
        seq!['\\', 'b']
    } else if c == '\t' {
        seq!['\\', 't']
    } else if c == '\n' {
        seq!['\\', 'n']
    } else if c == '\u{c}' {
        seq!['\\', 'f']
    } else if c == '\r' {
        seq!['\\', 'r']
    } else if (c as u32) < 0x20 || (c as u32) == 0x7f {
        seq!['\\', 'u', '0', '0', hex_digit((c as u32) / 16), hex_digit((c as u32) % 16)]
    } else {
        seq![c]
    }
}

/// A whole character sequence escaped for use inside a TOML basic string.
pub open spec fn toml_escape(s: Seq<char>) -> Seq<char>
    decreases s.len(),
{
    if s.len() == 0 {
        Seq::<char>::empty()
    } else {
        toml_escape(s.drop_last()) + toml_escape_char(s.last())
    }
}

/// The characters of the one-field TOML document `error = "<message>"`,
/// with the message escaped.
pub open spec fn error_body_chars(message: Seq<char>) -> Seq<char> {
    "error = \""@ + toml_escape(message) + "\""@
}

/// The lower-case hexadecimal digit for a value below sixteen.
fn hex_digit_exec(n: u32) -> (r: char)
    requires
        n < 16,
    ensures
        r == hex_digit(n),
{
    if n == 0 {
        '0'
    } else if n == 1 {
        '1'
    } else if n == 2 {
        '2'
    } else if n == 3 {
        '3'
    } else if n == 4 {
        '4'
    } else if n == 5 {
        '5'
    } else if n == 6 {
        '6'
    } else if n == 7 {
        '7'
    } else if n == 8 {
        '8'
    } else if n == 9 {
        '9'
    } else if n == 10 {
        'a'
    } else if n == 11 {
        'b'
    } else if n == 12 {
        'c'
    } else if n == 13 {
        'd'
    } else if n == 14 {
        'e'
    } else {
        'f'
    }
}

/// Pushes the escape sequence of one character onto the output.
fn push_escaped_char(out: &mut Vec<char>, c: char)
    ensures
        final(out)@ == old(out)@ + toml_escape_char(c),
{
    if c == '"' {
        out.push('\\');
        out.push('"');
    } else if c == '\\' {
        out.push('\\');
        out.push('\\');
    } else if c == '\u{8}' {
        out.push('\\');
        out.push('b');
    } else if c == '\t' {
        out.push('\\');
        out.push('t');
    } else if c == '\n' {
        out.push('\\');
        out.push('n');
    } else if c == '\u{c}' {
        out.push('\\');
        out.push('f');
    } else if c == '\r' {
        out.push('\\');
        out.push('r');
    } else if (c as u32) < 0x20 || (c as u32) == 0x7f {
        out.push('\\');
        out.push('u');
        out.push('0');
        out.push('0');
        out.push(hex_digit_exec((c as u32) / 16));
        out.push(hex_digit_exec((c as u32) % 16));
    } else {
        out.push(c);
    }
    assert(final(out)@ =~= old(out)@ + toml_escape_char(c));
}

/// Pushes the characters of a string onto the output, unchanged.
pub fn push_str_chars(out: &mut Vec<char>, s: &str)
    ensures
        final(out)@ == old(out)@ + s@,
{
    let n = s.unicode_len();
    let mut i: usize = 0;
    while i < n
        invariant
            n == s@.len(),
            i <= n,
            out@ == old(out)@ + s@.take(i as int),
        decreases n - i,
    {
        let c = s.get_char(i);
        out.push(c);
        assert(s@.take(i + 1 as int) =~= s@.take(i as int).push(s@[i as int]));
        i = i + 1;
    }
    assert(s@.take(n as int) =~= s@);
}

/// Pushes the escaped form of a string onto the output.
pub fn push_escaped_str(out: &mut Vec<char>, s: &str)
    ensures
        final(out)@ == old(out)@ + toml_escape(s@),
{
    let n = s.unicode_len();
    let mut i: usize = 0;
    while i < n
        invariant
            n == s@.len(),
            i <= n,
            out@ == old(out)@ + toml_escape(s@.take(i as int)),
        decreases n - i,
    {
        let c = s.get_char(i);
        push_escaped_char(out, c);
        proof {
            let t = s@.take(i + 1 as int);
            assert(t.drop_last() =~= s@.take(i as int));
            assert(t.last() == s@[i as int]);
        }
        i = i + 1;
    }
    assert(s@.take(n as int) =~= s@);
}

/// Relies on `String`'s `FromIterator` collection: collecting characters
/// yields the string of exactly those characters, in order.
#[verifier::external_body]
pub fn string_from_chars(v: &Vec<char>) -> (r: String)
    ensures
        r@ == v@,
{
    v.iter().collect()
}

/// Escaping can equally be unfolded from the front: the whole escaped text
/// is the first character's escape followed by the escaped remainder.
pub proof fn lemma_toml_escape_first(m: Seq<char>)
    requires
        m.len() > 0,
    ensures
        toml_escape(m) == toml_escape_char(m[0]) + toml_escape(m.drop_first()),
    decreases m.len(),
{
    if m.len() == 1 {
        assert(m.drop_last() =~= Seq::<char>::empty());
        assert(m.drop_first() =~= Seq::<char>::empty());
        assert(toml_escape(m) =~= toml_escape_char(m[0]) + toml_escape(m.drop_first()));
    } else {
        let head = m.drop_last();
        lemma_toml_escape_first(head);
        assert(head.drop_first() =~= m.drop_first().drop_last());
        assert(m.drop_first().last() == m.last());
        assert(toml_escape(m) =~= toml_escape_char(m[0]) + toml_escape(m.drop_first()));
    }
}

/// Escaping splits at any position: the escaped text of a sequence is the
/// escaped front part followed by the escaped back part.
pub proof fn lemma_toml_escape_split(m: Seq<char>, k: int)
    requires
        0 <= k <= m.len(),
    ensures
        toml_escape(m) == toml_escape(m.take(k)) + toml_escape(m.skip(k)),
    decreases m.len() - k,
{
    if k == m.len() {
        assert(m.take(k) =~= m);
        assert(m.skip(k) =~= Seq::<char>::empty());
        assert(toml_escape(m) =~= toml_escape(m.take(k)) + toml_escape(m.skip(k)));
    } else {
        lemma_toml_escape_split(m, k + 1);
        assert(m.take(k + 1).drop_last() =~= m.take(k));
        assert(m.take(k + 1).last() == m[k]);
        lemma_toml_escape_first(m.skip(k));
        assert(m.skip(k)[0] == m[k]);
        assert(m.skip(k).drop_first() =~= m.skip(k + 1));
        assert(toml_escape(m) =~= toml_escape(m.take(k)) + toml_escape(m.skip(k)));
    }
}

/// Escaping corrupts nothing: two messages with the same escaped form are
/// the same message, so the body built for a message determines the message
/// exactly.
pub proof fn lemma_toml_escape_injective(a: Seq<char>, b: Seq<char>)
    requires
        toml_escape(a) == toml_escape(b),
    ensures
        a == b,
    decreases a.len(),
{
    if a.len() == 0 || b.len() == 0 {
        if a.len() == 0 && b.len() > 0 {
            lemma_toml_escape_first(b);
            assert(toml_escape(b).len() > 0);
            assert(false);
        }
        if b.len() == 0 && a.len() > 0 {
            lemma_toml_escape_first(a);
            assert(toml_escape(a).len() > 0);
            assert(false);
        }
        assert(a =~= b);
    } else {
        lemma_toml_escape_first(a);
        lemma_toml_escape_first(b);
        let s = toml_escape(a);
        let ca = a[0];
        let cb = b[0];
        let ea = toml_escape_char(ca);
        let eb = toml_escape_char(cb);
        assert(s[0] == ea[0] && s[0] == eb[0]);
        if s[0] != '\\' {
            // Every escape sequence starts with a backslash, so both first
            // characters stand for themselves.
            assert(ca == s[0] && cb == s[0]);
        } else {
            assert(ea.len() >= 2 && eb.len() >= 2);
            assert(s[1] == ea[1] && s[1] == eb[1]);
            if s[1] == 'u' {
                assert(s[4] == ea[4] && s[4] == eb[4]);
                assert(s[5] == ea[5] && s[5] == eb[5]);
                let na = ca as u32;
                let nb = cb as u32;
                assert(hex_digit(na / 16) == hex_digit(nb / 16));
                assert(hex_digit(na % 16) == hex_digit(nb % 16));
                assert(na / 16 == nb / 16 && na % 16 == nb % 16);
                assert(na == (na / 16) * 16 + (na % 16)) by (nonlinear_arith);
                assert(nb == (nb / 16) * 16 + (nb % 16)) by (nonlinear_arith);
                assert(na == nb);
                vstd::utf8::char_u32_cast(ca, na);
                vstd::utf8::char_u32_cast(cb, nb);
                assert(ca == cb);
            } else {
                // Not the plain form (those never start with a backslash)
                // and not the \u00xx form (whose second character is 'u'),
                // so both characters carry one of the seven short escapes,
                // and the second character determines which.
                assert(ca == '"' || ca == '\\' || ca == '\u{8}' || ca == '\t' || ca == '\n'
                    || ca == '\u{c}' || ca == '\r');
                assert(cb == '"' || cb == '\\' || cb == '\u{8}' || cb == '\t' || cb == '\n'
                    || cb == '\u{c}' || cb == '\r');
                assert(ca == cb);
            }
        }
        assert(ea == eb);
        assert(toml_escape(a.drop_first()) =~= s.skip(ea.len() as int));
        assert(toml_escape(b.drop_first()) =~= s.skip(ea.len() as int));
        lemma_toml_escape_injective(a.drop_first(), b.drop_first());
        assert(a =~= seq![ca] + a.drop_first());
        assert(b =~= seq![cb] + b.drop_first());
        assert(a =~= b);
    }
}

/// The error body determines the message exactly: two different messages,
/// whatever quotes or control characters they hold, never build the same
/// body.
pub proof fn lemma_error_body_injective(m1: Seq<char>, m2: Seq<char>)
    requires
        error_body_chars(m1) == error_body_chars(m2),
    ensures
        m1 == m2,
{
    let p = "error = \""@;
    let q = "\""@;
    let b = error_body_chars(m1);
    let e1 = toml_escape(m1);
    let e2 = toml_escape(m2);
    assert(e1.len() == b.len() - p.len() - q.len());
    assert(e2.len() == b.len() - p.len() - q.len());
    assert(e1 =~= b.subrange(p.len() as int, (p.len() + e1.len()) as int));
    assert(e2 =~= b.subrange(p.len() as int, (p.len() + e2.len()) as int));
    lemma_toml_escape_injective(m1, m2);
}

/// The value of a lower-case hexadecimal digit, or `None` for any other
/// character.
fn hex_val(c: char) -> (r: Option<u32>)
    ensures
        r matches Some(v) ==> v < 16 && hex_digit(v) == c,
        r is None ==> forall|v: u32| v < 16 ==> hex_digit(v) != c,
{
    if c == '0' {
        Some(0)
    } else if c == '1' {
        Some(1)
    } else if c == '2' {
        Some(2)
    } else if c == '3' {
        Some(3)
    } else if c == '4' {
        Some(4)
    } else if c == '5' {
        Some(5)
    } else if c == '6' {
        Some(6)
    } else if c == '7' {
        Some(7)
    } else if c == '8' {
        Some(8)
    } else if c == '9' {
        Some(9)
    } else if c == 'a' {
        Some(10)
    } else if c == 'b' {
        Some(11)
    } else if c == 'c' {
        Some(12)
    } else if c == 'd' {
        Some(13)
    } else if c == 'e' {
        Some(14)
    } else if c == 'f' {
        Some(15)
    } else {
        None
    }
}

/// The shape of text that continues a TOML basic string: an escaped value,
/// its closing quote, and whatever follows.
pub open spec fn quoted_form(s: Seq<char>, x: Seq<char>, rest: Seq<char>) -> bool {
    s == toml_escape(x) + "\""@ + rest
}

/// What the text looks like while a basic string of the quoted form is
/// being read: once the escape of a front part of the value is consumed,
/// the text continues with the escape of the next character — whose bytes
/// are pinned one by one — or, after the whole value, with the closing
/// quote.
proof fn lemma_quoted_form_step(chars: Seq<char>, i: int, j: int, val: Seq<char>, x: Seq<char>, rest: Seq<char>)
    requires
        0 <= i <= j <= chars.len(),
        quoted_form(chars.skip(i), x, rest),
        chars.subrange(i, j) == toml_escape(val),
        val.len() <= x.len(),
        val == x.take(val.len() as int),
    ensures
        val.len() == x.len() ==> j < chars.len() && chars[j] == '"',
        val.len() < x.len() ==> j + toml_escape_char(x[val.len() as int]).len() < chars.len(),
        val.len() < x.len() ==> forall|t: int|
            0 <= t < toml_escape_char(x[val.len() as int]).len() ==> chars[j + t]
                == toml_escape_char(x[val.len() as int])[t],
{
    let k = val.len() as int;
    reveal_strlit("\"");
    lemma_toml_escape_split(x, k);
    assert(j - i == toml_escape(val).len());
    assert(toml_escape(x) == toml_escape(val) + toml_escape(x.skip(k)));
    assert(chars.skip(i) =~= toml_escape(val) + (toml_escape(x.skip(k)) + "\""@ + rest));
    assert(chars.skip(j) =~= chars.skip(i).skip(j - i));
    assert((toml_escape(val) + (toml_escape(x.skip(k)) + "\""@ + rest)).skip(
        toml_escape(val).len() as int,
    ) =~= toml_escape(x.skip(k)) + "\""@ + rest);
    assert(chars.skip(j) =~= toml_escape(x.skip(k)) + "\""@ + rest);
    if k == x.len() {
        assert(x.skip(k) =~= Seq::<char>::empty());
        assert(chars.skip(j) =~= "\""@ + rest);
        assert(chars.skip(j).len() >= 1);
        assert(chars[j] == chars.skip(j)[0]);
    } else {
        lemma_toml_escape_first(x.skip(k));
        assert(x.skip(k)[0] == x[k]);
        assert(x.skip(k).drop_first() =~= x.skip(k + 1));
        let code = toml_escape_char(x[k]);
        assert(toml_escape(x.skip(k)) == code + toml_escape(x.skip(k + 1)));
        assert(chars.skip(j).len() >= code.len() + 1);
        assert forall|t: int| 0 <= t < code.len() implies chars[j + t] == code[t] by {
            assert(chars.skip(j)[t] == chars[j + t]);
            assert((toml_escape(x.skip(k)) + "\""@ + rest)[t] == code[t]);
        }
    }
}

/// Matches one fixed piece of text at the given position, returning the
/// position just past it.
pub fn expect_lit(chars: &Vec<char>, i: usize, lit: &str) -> (r: Option<usize>)
    requires
        i <= chars@.len(),
    ensures
        r matches Some(j) ==> {
            &&& i <= j <= chars@.len()
            &&& j == i + lit@.len()
            &&& chars@.subrange(i as int, j as int) == lit@
        },
        i + lit@.len() <= chars@.len() && chars@.subrange(i as int, i + lit@.len()) == lit@
            ==> r is Some,
{
    let n = lit.unicode_len();
    let m = chars.len();
    if n > m - i {
        return None;
    }
    let mut k: usize = 0;
    while k < n
        invariant
            m == chars@.len(),
            i + n <= m,
            k <= n,
            n == lit@.len(),
            forall|t: int| 0 <= t < k ==> chars@[i + t] == lit@[t],
        decreases n - k,
    {
        if chars[i + k] != lit.get_char(k) {
            proof {
                assert(chars@.subrange(i as int, i + lit@.len())[k as int] == chars@[i + k]);
            }
            return None;
        }
        k = k + 1;
    }
    assert(chars@.subrange(i as int, (i + n) as int) =~= lit@);
    Some(i + n)
}

/// Parses a TOML basic string from just inside its opening quote up to and
/// including its closing quote, undoing the escaping.  Only the canonical
/// form that `toml_escape` produces is accepted: the consumed text is
/// exactly the escaped value followed by the closing quote.
/// Reading one known piece off the front of a suffix: the piece occupies
/// exactly the next positions, and the rest follows it.
pub proof fn lemma_form_advance(chars: Seq<char>, a: int, b: int, piece: Seq<char>, tail: Seq<char>)
    requires
        0 <= a <= chars.len(),
        chars.skip(a) == piece + tail,
        b == a + piece.len(),
    ensures
        b <= chars.len(),
        chars.subrange(a, b) == piece,
        chars.skip(b) == tail,
{
    assert(chars.skip(a).len() == chars.len() - a);
    assert(chars.subrange(a, b) =~= piece);
    assert(chars.skip(b) =~= chars.skip(a).skip(piece.len() as int));
    assert((piece + tail).skip(piece.len() as int) =~= tail);
    assert(chars.skip(b) =~= tail);
}

/// A backslash pair read from escaped text determines the character it
/// stands for, provided the pair is not the start of a `\u00xx` escape.
proof fn lemma_code_from_pair(c: char, s1: char)
    requires
        toml_escape_char(c)[0] == '\\',
        toml_escape_char(c)[1] == s1,
        s1 != 'u',
    ensures
        toml_escape_char(c).len() == 2,
        s1 == '"' ==> c == '"',
        s1 == '\\' ==> c == '\\',
        s1 == 'b' ==> c == '\u{8}',
        s1 == 't' ==> c == '\t',
        s1 == 'n' ==> c == '\n',
        s1 == 'f' ==> c == '\u{c}',
        s1 == 'r' ==> c == '\r',
{
    assert(c == '"' || c == '\\' || c == '\u{8}' || c == '\t' || c == '\n' || c == '\u{c}'
        || c == '\r');
}

/// A `\u` pair read from escaped text marks the six-character escape of a
/// control character, whose digits are pinned by the character's value.
proof fn lemma_hex_escape_char(c: char)
    requires
        toml_escape_char(c)[0] == '\\',
        toml_escape_char(c)[1] == 'u',
    ensures
        (c as u32) < 0x20 || (c as u32) == 0x7f,
        (c as u32) != 0x8 && (c as u32) != 0x9 && (c as u32) != 0xa && (c as u32) != 0xc && (
        c as u32) != 0xd,
        toml_escape_char(c).len() == 6,
        toml_escape_char(c)[2] == '0',
        toml_escape_char(c)[3] == '0',
        toml_escape_char(c)[4] == hex_digit((c as u32) / 16),
        toml_escape_char(c)[5] == hex_digit((c as u32) % 16),
        (c as u32) / 16 < 16,
{
}

/// Two hexadecimal digits that match a character's escape digits carry
/// exactly that character's value.
proof fn lemma_hex_pair_value(c: char, h1: u32, h2: u32)
    requires
        (c as u32) <= 0x7f,
        h1 < 16,
        h2 < 16,
        hex_digit(h1) == hex_digit((c as u32) / 16),
        hex_digit(h2) == hex_digit((c as u32) % 16),
    ensures
        h1 * 16 + h2 == c as u32,
{
    assert(h1 == (c as u32) / 16);
    assert(h2 == (c as u32) % 16);
    assert(c as u32 == ((c as u32) / 16) * 16 + ((c as u32) % 16)) by (nonlinear_arith);
}

/// Parses a TOML basic string from just inside its opening quote up to and
/// including its closing quote, undoing the escaping.  Only the canonical
/// form that `toml_escape` produces is accepted: the consumed text is
/// exactly the escaped value followed by the closing quote, and whenever
/// the text from the given position has that shape at all, the parse
/// succeeds and returns exactly that value.
pub fn parse_basic_string(chars: &Vec<char>, i: usize) -> (r: Option<(String, usize)>)
    requires
        i <= chars@.len(),
    ensures
        r matches Some(p) ==> {
            &&& i <= p.1 <= chars@.len()
            &&& chars@.subrange(i as int, p.1 as int) == toml_escape(p.0@) + "\""@
        },
        forall|x: Seq<char>, rest: Seq<char>|
            #[trigger] quoted_form(chars@.skip(i as int), x, rest) ==> {
                &&& r matches Some(p)
                &&& p.0@ == x
                &&& p.1 == i + toml_escape(x).len() + 1
            },
{
    let mut val: Vec<char> = Vec::new();
    let mut j: usize = i;
    let m = chars.len();
    proof {
        assert forall|x: Seq<char>, rest: Seq<char>|
            quoted_form(chars@.skip(i as int), x, rest) implies (val@.len() <= x.len() && val@
            == x.take(val@.len() as int)) by {
            assert(x.take(0) =~= Seq::<char>::empty());
        };
    }
    loop
        invariant
            m == chars@.len(),
            i <= j <= m,
            chars@.subrange(i as int, j as int) == toml_escape(val@),
            forall|x: Seq<char>, rest: Seq<char>|
                #[trigger] quoted_form(chars@.skip(i as int), x, rest) ==> val@.len() <= x.len()
                    && val@ == x.take(val@.len() as int),
        decreases m - j,
    {
        if j >= m {
            proof {
                assert forall|x: Seq<char>, rest: Seq<char>|
                    quoted_form(chars@.skip(i as int), x, rest) implies false by {
                    lemma_quoted_form_step(chars@, i as int, j as int, val@, x, rest);
                };
            }
            return None;
        }
        let c = chars[j];
        if c == '"' {
            proof {
                reveal_strlit("\"");
                assert(chars@.subrange(i as int, (j + 1) as int) =~= toml_escape(val@) + "\""@);
                assert forall|x: Seq<char>, rest: Seq<char>|
                    quoted_form(chars@.skip(i as int), x, rest) implies (x == val@ && j + 1 == i
                    + toml_escape(x).len() + 1) by {
                    lemma_quoted_form_step(chars@, i as int, j as int, val@, x, rest);
                    if val@.len() < x.len() {
                        assert(toml_escape_char(x[val@.len() as int])[0] == '"');
                        assert(false);
                    }
                    assert(x =~= val@);
                };
            }
            let s = string_from_chars(&val);
            return Some((s, j + 1));
        } else if c == '\\' {
            if m - j < 2 {
                proof {
                    assert forall|x: Seq<char>, rest: Seq<char>|
                        quoted_form(chars@.skip(i as int), x, rest) implies false by {
                        lemma_quoted_form_step(chars@, i as int, j as int, val@, x, rest);
                        assert(val@.len() < x.len());
                        assert(toml_escape_char(x[val@.len() as int]).len() >= 1);
                    };
                }
                return None;
            }
            let e = chars[j + 1];
            let ghost pre = val@;
            if e == '"' {
                val.push('"');
            } else if e == '\\' {
                val.push('\\');
            } else if e == 'b' {
                val.push('\u{8}');
            } else if e == 't' {
                val.push('\t');
            } else if e == 'n' {
                val.push('\n');
            } else if e == 'f' {
                val.push('\u{c}');
            } else if e == 'r' {
                val.push('\r');
            } else if e == 'u' {
                if m - j < 6 {
                    proof {
                        assert forall|x: Seq<char>, rest: Seq<char>|
                            quoted_form(chars@.skip(i as int), x, rest) implies false by {
                            lemma_quoted_form_step(chars@, i as int, j as int, val@, x, rest);
                            let k = val@.len() as int;
                            assert(k < x.len());
                            assert(toml_escape_char(x[k])[0] == '\\');
                            assert(toml_escape_char(x[k]).len() >= 2);
                            assert(toml_escape_char(x[k])[1] == 'u');
                            lemma_hex_escape_char(x[k]);
                        };
                    }
                    return None;
                }
                if chars[j + 2] != '0' || chars[j + 3] != '0' {
                    proof {
                        assert forall|x: Seq<char>, rest: Seq<char>|
                            quoted_form(chars@.skip(i as int), x, rest) implies false by {
                            lemma_quoted_form_step(chars@, i as int, j as int, val@, x, rest);
                            let k = val@.len() as int;
                            assert(k < x.len());
                            assert(toml_escape_char(x[k])[0] == '\\');
                            assert(toml_escape_char(x[k]).len() >= 2);
                            assert(toml_escape_char(x[k])[1] == 'u');
                            lemma_hex_escape_char(x[k]);
                        };
                    }
                    return None;
                }
                let h1 = match hex_val(chars[j + 4]) {
                    Some(v) => v,
                    None => {
                        proof {
                            assert forall|x: Seq<char>, rest: Seq<char>|
                                quoted_form(chars@.skip(i as int), x, rest) implies false by {
                                lemma_quoted_form_step(chars@, i as int, j as int, val@, x, rest);
                                let k = val@.len() as int;
                                assert(k < x.len());
                                assert(toml_escape_char(x[k])[0] == '\\');
                                assert(toml_escape_char(x[k]).len() >= 2);
                                assert(toml_escape_char(x[k])[1] == 'u');
                                lemma_hex_escape_char(x[k]);
                                assert(hex_digit((x[k] as u32) / 16) != chars@[j + 4]);
                            };
                        }
                        return None;
                    },
                };
                let h2 = match hex_val(chars[j + 5]) {
                    Some(v) => v,
                    None => {
                        proof {
                            assert forall|x: Seq<char>, rest: Seq<char>|
                                quoted_form(chars@.skip(i as int), x, rest) implies false by {
                                lemma_quoted_form_step(chars@, i as int, j as int, val@, x, rest);
                                let k = val@.len() as int;
                                assert(k < x.len());
                                assert(toml_escape_char(x[k])[0] == '\\');
                                assert(toml_escape_char(x[k]).len() >= 2);
                                assert(toml_escape_char(x[k])[1] == 'u');
                                lemma_hex_escape_char(x[k]);
                                assert(hex_digit((x[k] as u32) % 16) != chars@[j + 5]);
                            };
                        }
                        return None;
                    },
                };
                let code: u32 = h1 * 16 + h2;
                if !(code < 0x20 || code == 0x7f) || code == 0x8 || code == 0x9 || code == 0xa
                    || code == 0xc || code == 0xd {
                    proof {
                        assert forall|x: Seq<char>, rest: Seq<char>|
                            quoted_form(chars@.skip(i as int), x, rest) implies false by {
                            lemma_quoted_form_step(chars@, i as int, j as int, val@, x, rest);
                            let k = val@.len() as int;
                            assert(k < x.len());
                            assert(toml_escape_char(x[k])[0] == '\\');
                            assert(toml_escape_char(x[k]).len() >= 2);
                            assert(toml_escape_char(x[k])[1] == 'u');
                            lemma_hex_escape_char(x[k]);
                            lemma_hex_pair_value(x[k], h1, h2);
                        };
                    }
                    return None;
                }
                let c2 = (code as u8) as char;
                val.push(c2);
                proof {
                    assert(c2 as u32 == code);
                    assert(code / 16 == h1 && code % 16 == h2) by (nonlinear_arith)
                        requires
                            h1 < 16 && h2 < 16 && code == h1 * 16 + h2,
                    ;
                    assert(toml_escape_char(c2) =~= chars@.subrange(j as int, (j + 6) as int));
                    assert((pre.push(c2)).drop_last() =~= pre);
                    assert(chars@.subrange(i as int, (j + 6) as int) =~= toml_escape(pre)
                        + toml_escape_char(c2));
                    assert forall|x: Seq<char>, rest: Seq<char>|
                        quoted_form(chars@.skip(i as int), x, rest) implies (val@.len() <= x.len()
                        && val@ == x.take(val@.len() as int)) by {
                        lemma_quoted_form_step(chars@, i as int, j as int, pre, x, rest);
                        let k = pre.len() as int;
                        assert(k < x.len());
                        assert(toml_escape_char(x[k])[0] == '\\');
                        assert(toml_escape_char(x[k]).len() >= 2);
                        assert(toml_escape_char(x[k])[1] == 'u');
                        lemma_hex_escape_char(x[k]);
                        lemma_hex_pair_value(x[k], h1, h2);
                        assert(x[k] as u32 == code);
                        vstd::utf8::char_u32_cast(x[k], code);
                        vstd::utf8::char_u32_cast(c2, code);
                        assert(x[k] == c2);
                        assert(x.take(k + 1) =~= pre.push(x[k]));
                    };
                }
                j = j + 6;
                continue ;
            } else {
                proof {
                    assert forall|x: Seq<char>, rest: Seq<char>|
                        quoted_form(chars@.skip(i as int), x, rest) implies false by {
                        lemma_quoted_form_step(chars@, i as int, j as int, val@, x, rest);
                        let k = val@.len() as int;
                        assert(k < x.len());
                        let cd = toml_escape_char(x[k]);
                        assert(cd[0] == '\\');
                        assert(cd.len() >= 2);
                        assert(cd[1] == e);
                        assert(cd[1] == '"' || cd[1] == '\\' || cd[1] == 'b' || cd[1] == 't'
                            || cd[1] == 'n' || cd[1] == 'f' || cd[1] == 'r' || cd[1] == 'u');
                    };
                }
                return None;
            }
            proof {
                let c2 = val@.last();
                assert(toml_escape_char(c2) =~= chars@.subrange(j as int, (j + 2) as int));
                assert((pre.push(c2)).drop_last() =~= pre);
                assert(chars@.subrange(i as int, (j + 2) as int) =~= toml_escape(pre)
                    + toml_escape_char(c2));
                assert forall|x: Seq<char>, rest: Seq<char>|
                    quoted_form(chars@.skip(i as int), x, rest) implies (val@.len() <= x.len()
                    && val@ == x.take(val@.len() as int)) by {
                    lemma_quoted_form_step(chars@, i as int, j as int, pre, x, rest);
                    let k = pre.len() as int;
                    assert(k < x.len());
                    assert(toml_escape_char(x[k])[0] == '\\');
                    assert(toml_escape_char(x[k]).len() >= 2);
                    assert(toml_escape_char(x[k])[1] == e);
                    lemma_code_from_pair(x[k], e);
                    assert(x[k] == c2);
                    assert(x.take(k + 1) =~= pre.push(x[k]));
                };
            }
            j = j + 2;
        } else {
            let cu = c as u32;
            if cu < 0x20 || cu == 0x7f {
                proof {
                    assert forall|x: Seq<char>, rest: Seq<char>|
                        quoted_form(chars@.skip(i as int), x, rest) implies false by {
                        lemma_quoted_form_step(chars@, i as int, j as int, val@, x, rest);
                        let k = val@.len() as int;
                        assert(k < x.len());
                        assert(toml_escape_char(x[k])[0] == c);
                        assert(x[k] == c);
                    };
                }
                return None;
            }
            let ghost pre = val@;
            val.push(c);
            proof {
                assert(toml_escape_char(c) =~= seq![c]);
                assert((pre.push(c)).drop_last() =~= pre);
                assert(chars@.subrange(i as int, (j + 1) as int) =~= toml_escape(pre)
                    + toml_escape_char(c));
                assert forall|x: Seq<char>, rest: Seq<char>|
                    quoted_form(chars@.skip(i as int), x, rest) implies (val@.len() <= x.len()
                    && val@ == x.take(val@.len() as int)) by {
                    lemma_quoted_form_step(chars@, i as int, j as int, pre, x, rest);
                    let k = pre.len() as int;
                    assert(k < x.len());
                    assert(toml_escape_char(x[k])[0] == c);
                    assert(x[k] == c);
                    assert(x.take(k + 1) =~= pre.push(x[k]));
                };
            }
            j = j + 1;
        }
    }
}

/// The bytes of the one-field TOML document `error = "<message>"`, with the
/// message escaped, encoded as UTF-8.
pub fn error_body_bytes(message: &str) -> (r: Vec<u8>)
    ensures
        r@ == vstd::utf8::encode_utf8(error_body_chars(message@)),
{
    let mut doc: Vec<char> = Vec::new();
    push_str_chars(&mut doc, "error = \"");
    push_escaped_str(&mut doc, message);
    push_str_chars(&mut doc, "\"");
    assert(doc@ =~= error_body_chars(message@));
    let s = string_from_chars(&doc);
    s.as_str().as_bytes_vec()
}

} // verus!
