//! What the tools for text do to a text: which part of it they keep, and what its digits and
//! letters stand for.
use vstd::prelude::*;

use crate::http::{percent_bytes, query_pair};
use crate::text::{
    decimal, hex_bytes, hex_char, hex_number, hex_text, hex_val, is_digit, lemma_decimal,
    lemma_position, lemma_words_one, lemma_words_push, lower, lower_char, parse_number, split,
    split_once, strip, strip_end, strip_start, trim, trim_end, trim_start, white, word_end, words,
};

verus! {

/// No whitespace.
pub open spec fn solid(s: Seq<char>) -> bool {
    forall|i: int| 0 <= i < s.len() ==> !white(#[trigger] s[i])
}

/// Whitespace alone.
pub open spec fn blank(s: Seq<char>) -> bool {
    forall|i: int| 0 <= i < s.len() ==> white(#[trigger] s[i])
}

/// Neither begins nor ends with whitespace.
pub open spec fn tight(s: Seq<char>) -> bool {
    s.len() > 0 ==> !white(s[0]) && !white(s.last())
}

/// Does not hold `c`.
pub open spec fn lacks(s: Seq<char>, c: char) -> bool {
    forall|i: int| 0 <= i < s.len() ==> #[trigger] s[i] != c
}

/// **What counts as whitespace**: spaces, tabs and ends of lines do, letters, digits and
/// punctuation do not. Beyond ASCII it is the characters that Unicode calls white space.
pub proof fn law_whitespace(c: char)
    ensures
        white(' ') && white('\t') && white('\r') && white('\n'),
        '!' <= c <= '~' ==> !white(c),
        white(c) <==> {
            let n = c as int;
            9 <= n <= 13 || n == 32 || n == 0x85 || n == 0xa0 || n == 0x1680 || 0x2000 <= n
                <= 0x200a || n == 0x2028 || n == 0x2029 || n == 0x202f || n == 0x205f || n
                == 0x3000
        },
{
}

/// **Lower case** changes the letters from A to Z and no other character.
pub proof fn law_lower_case(s: Seq<char>, i: int)
    requires
        0 <= i < s.len(),
    ensures
        lower(s).len() == s.len(),
        'A' <= s[i] <= 'Z' ==> lower(s)[i] as int == s[i] as int + 32,
        !('A' <= s[i] <= 'Z') ==> lower(s)[i] == s[i],
        lower_char('A') == 'a' && lower_char('Z') == 'z',
        lower(lower(s)) == lower(s),
{
    assert(lower(lower(s)) =~= lower(s)) by {
        assert forall|j: int| 0 <= j < s.len() implies #[trigger] lower(lower(s))[j]
            == lower(s)[j] by {}
    }
}

/// What is in front of a text that does not begin with whitespace is trimmed away.
proof fn lemma_trim_start(front: Seq<char>, s: Seq<char>)
    requires
        blank(front),
        s.len() > 0 ==> !white(s[0]),
    ensures
        trim_start(front + s) == s,
    decreases front.len(),
{
    let all = front + s;
    if front.len() == 0 {
        assert(all =~= s);
    } else {
        assert(all[0] == front[0]);
        assert(all.skip(1) =~= front.skip(1) + s);
        assert forall|i: int| 0 <= i < front.skip(1).len() implies white(
            #[trigger] front.skip(1)[i],
        ) by {
            assert(front.skip(1)[i] == front[i + 1]);
        }
        lemma_trim_start(front.skip(1), s);
    }
}

/// What is behind a text that does not end with whitespace is trimmed away.
proof fn lemma_trim_end(s: Seq<char>, back: Seq<char>)
    requires
        blank(back),
        s.len() > 0 ==> !white(s.last()),
    ensures
        trim_end(s + back) == s,
    decreases back.len(),
{
    let all = s + back;
    if back.len() == 0 {
        assert(all =~= s);
    } else {
        assert(all.last() == back.last());
        assert(back[back.len() - 1] == back.last());
        assert(all.drop_last() =~= s + back.drop_last());
        lemma_trim_end(s, back.drop_last());
    }
}

/// **Trimming takes whitespace from both ends**, all of it and nothing else.
pub proof fn law_trimming(front: Seq<char>, s: Seq<char>, back: Seq<char>)
    requires
        blank(front),
        blank(back),
        tight(s),
    ensures
        trim(front + s + back) == s,
        trim(s) == s,
{
    if s.len() == 0 {
        assert(front + s + back =~= (front + back) + s);
        assert forall|i: int| 0 <= i < (front + back).len() implies white(
            #[trigger] (front + back)[i],
        ) by {
            if i < front.len() {
                assert((front + back)[i] == front[i]);
            } else {
                assert((front + back)[i] == back[i - front.len()]);
            }
        }
        lemma_trim_start(front + back, s);
    } else {
        assert(front + s + back =~= front + (s + back));
        assert((s + back)[0] == s[0]);
        lemma_trim_start(front, s + back);
        lemma_trim_end(s, back);
    }
    assert(trim_end(s) == s);
    assert(trim_start(s) == s);
}

/// Where the first word of a text ends.
proof fn lemma_first_word_ends(w: Seq<char>, rest: Seq<char>)
    requires
        solid(w),
        rest.len() > 0 ==> white(rest[0]),
    ensures
        word_end(w + rest) == w.len(),
    decreases w.len(),
{
    let all = w + rest;
    if w.len() == 0 {
        assert(all =~= rest);
    } else {
        assert(all[0] == w[0]);
        assert(all.skip(1) =~= w.skip(1) + rest);
        assert forall|i: int| 0 <= i < w.skip(1).len() implies !white(
            #[trigger] w.skip(1)[i],
        ) by {
            assert(w.skip(1)[i] == w[i + 1]);
        }
        lemma_first_word_ends(w.skip(1), rest);
    }
}

/// **The first word** of a text ends where the first whitespace behind it begins; what
/// follows is kept.
pub proof fn law_first_word(front: Seq<char>, w: Seq<char>, rest: Seq<char>)
    requires
        blank(front),
        w.len() > 0,
        solid(w),
        rest.len() > 0 ==> white(rest[0]),
    ensures
        crate::frontend::first_word(front + w + rest) == (w, rest),
{
    assert(front + w + rest =~= front + (w + rest));
    assert((w + rest)[0] == w[0]);
    lemma_trim_start(front, w + rest);
    lemma_first_word_ends(w, rest);
    assert((w + rest).take(w.len() as int) =~= w);
    assert((w + rest).skip(w.len() as int) =~= rest);
}

/// **Words are divided by whitespace.**
pub proof fn law_words(s: Seq<char>, w: Seq<char>)
    requires
        w.len() > 0,
        solid(w),
    ensures
        words(w) == seq![w],
        words(s + " "@ + w) == words(s).push(w),
{
    reveal_strlit(" ");
    lemma_words_one(w);
    lemma_words_push(s, w);
    assert(s + " "@ =~= s.push(' '));
}

/// **Splitting once** gives what is before and behind the first occurrence; there is none to
/// split at exactly if the text lacks it.
pub proof fn law_splitting_once(a: Seq<char>, c: char, b: Seq<char>)
    requires
        lacks(a, c),
    ensures
        split_once(a + seq![c] + b, c) == Some((a, b)),
        split_once(a, c) is None,
{
    let s = a + seq![c] + b;
    assert forall|j: int| 0 <= j < a.len() implies #[trigger] s[j] != c by {
        assert(s[j] == a[j]);
    }
    assert(s[a.len() as int] == c);
    lemma_position(s, c, a.len() as int);
    lemma_position(a, c, a.len() as int);
    assert(s.take(a.len() as int) =~= a);
    assert(s.skip(a.len() as int + 1) =~= b);
}

/// What lacks a divider stays with the last part.
proof fn lemma_split_run(s: Seq<char>, c: char, t: Seq<char>)
    requires
        lacks(t, c),
    ensures
        split(s, c).len() > 0,
        split(s + t, c) == split(s, c).drop_last().push(split(s, c).last() + t),
    decreases s.len() + t.len(),
{
    if t.len() == 0 {
        assert(s + t =~= s);
        if s.len() > 0 {
            lemma_split_run(s.drop_last(), c, Seq::empty());
        }
        let parts = split(s, c);
        assert(parts.last() + t =~= parts.last());
        assert(parts.drop_last().push(parts.last()) =~= parts);
    } else {
        let init = t.drop_last();
        lemma_split_run(s, c, init);
        assert((s + t).drop_last() =~= s + init);
        assert((s + t).last() == t[t.len() - 1]);
        let parts = split(s, c);
        let before = parts.drop_last().push(parts.last() + init);
        assert(before.drop_last() =~= parts.drop_last());
        assert((parts.last() + init).push(t.last()) =~= parts.last() + t);
    }
}

/// **Splitting** divides a text at every occurrence: what lacks the divider is one part, and
/// one more behind a divider is one more part.
pub proof fn law_splitting(s: Seq<char>, c: char, t: Seq<char>)
    requires
        lacks(t, c),
    ensures
        split(t, c) == seq![t],
        split(s + seq![c] + t, c) == split(s, c).push(t),
{
    lemma_split_run(Seq::empty(), c, t);
    assert(Seq::<char>::empty() + t =~= t);
    assert(split(t, c) =~= seq![t]);
    let u = s + seq![c];
    assert(u.drop_last() =~= s);
    assert(u.last() == c);
    lemma_split_run(u, c, t);
    assert(split(u, c) == split(s, c).push(Seq::empty()));
    assert(split(u, c).drop_last() =~= split(s, c));
    assert(Seq::<char>::empty() + t =~= t);
}

/// **Stripping takes one character from both ends**, and nothing from inside.
pub proof fn law_stripping(s: Seq<char>, c: char)
    requires
        s.len() > 0,
        s[0] != c,
        s.last() != c,
    ensures
        strip(s, c) == s,
        strip(seq![c] + s, c) == s,
        strip(seq![c] + s + seq![c], c) == s,
{
    assert(strip_start(s, c) == s);
    assert((seq![c] + s).skip(1) =~= s);
    assert(strip_start(seq![c] + s, c) == s);
    assert(strip_end(s, c) == s);
    let t = s + seq![c];
    assert((seq![c] + s + seq![c]).skip(1) =~= t);
    assert(t[0] == s[0]);
    assert(strip_start(t, c) == t);
    assert(strip_start(seq![c] + s + seq![c], c) == t);
    assert(t.drop_last() =~= s);
    assert(t.last() == c);
}

/// **Numbers are written in decimal digits**: a digit more makes ten times the number and
/// that digit; what holds anything else, or nothing, is no number; a sign in front is taken;
/// what is above the bound is refused.
pub proof fn law_numbers(s: Seq<char>, max: nat, d: nat)
    requires
        d < 10,
    ensures
        decimal(0) == seq!['0'] && decimal(9) == seq!['9'],
        parse_number(Seq::empty(), max) is None,
        parse_number(s, max) matches Some(n) ==> n <= max && (10 * n + d <= max ==> parse_number(
            s.push(('0' as nat + d) as char),
            max,
        ) == Some((10 * n + d) as nat)),
        s.len() > 0 && s[0] != '+' ==> parse_number(seq!['+'] + s, max) == parse_number(s, max),
        parse_number(s, max) is Some ==> forall|i: int|
            #![trigger s[i]]
            0 < i < s.len() ==> '0' <= s[i] <= '9',
        s.len() > 0 && s[0] != '+' && !('0' <= s[0] <= '9') ==> parse_number(s, max) is None,
        forall|n: nat| n > max ==> parse_number(#[trigger] decimal(n), max) is None,
{
    let c = ('0' as nat + d) as char;
    if let Some(n) = parse_number(s, max) {
        let t = if s.len() > 0 && s[0] == '+' {
            s.skip(1)
        } else {
            s
        };
        let u = s.push(c);
        let v = if u.len() > 0 && u[0] == '+' {
            u.skip(1)
        } else {
            u
        };
        assert(v =~= t.push(c));
        assert(v.drop_last() =~= t);
        assert(is_digit(c));
        assert forall|i: int| 0 <= i < v.len() implies is_digit(#[trigger] v[i]) by {
            if i < t.len() {
                assert(v[i] == t[i]);
            }
        }
        assert forall|i: int| #![trigger s[i]] 0 < i < s.len() implies '0' <= s[i] <= '9' by {
            if s[0] == '+' {
                assert(t[i - 1] == s[i]);
            } else {
                assert(t[i] == s[i]);
            }
        }
    }
    if s.len() > 0 && s[0] != '+' {
        let u = seq!['+'] + s;
        assert(u.skip(1) =~= s);
        if !('0' <= s[0] <= '9') {
            assert(!is_digit(s[0]));
        }
    }
    assert forall|n: nat| n > max implies parse_number(#[trigger] decimal(n), max) is None by {
        lemma_decimal(n);
        assert(is_digit(decimal(n)[0]));
    }
}

/// **Hexadecimal digits** are those from 0 to 9 and from a to f, written in lower case and
/// read in either case.
pub proof fn law_hexadecimal_digits(v: u8)
    requires
        v < 16,
    ensures
        v < 10 ==> hex_char(v) as int == '0' as int + v,
        v >= 10 ==> hex_char(v) as int == 'a' as int + (v - 10),
        v < 10 ==> hex_val((48 + v) as u8) == Some(v),
        v >= 10 ==> hex_val((97 + (v - 10)) as u8) == Some(v) && hex_val((65 + (v - 10)) as u8)
            == Some(v),
        hex_val(47) is None && hex_val(58) is None && hex_val(64) is None && hex_val(71) is None
            && hex_val(96) is None && hex_val(103) is None,
{
}

/// **Hexadecimal text** has two digits for each byte, the higher one first.
pub proof fn law_hexadecimal_text(bytes: Seq<u8>, b: u8, n: nat, width: nat)
    ensures
        hex_text(Seq::empty()) == Seq::<char>::empty(),
        hex_text(bytes.push(b)) == hex_text(bytes) + seq![hex_char(b / 16), hex_char(b % 16)],
        hex_number(n, width).len() == width,
        hex_number(n, width + 1).last() == hex_char((n % 16) as u8),
        hex_number(n, width + 1).drop_last() == hex_number(n / 16, width),
    decreases width,
{
    assert(bytes.push(b).drop_last() =~= bytes);
    assert(hex_text(bytes.push(b)) =~= hex_text(bytes) + seq![hex_char(b / 16), hex_char(b % 16)]);
    assert(hex_number(n, width + 1).drop_last() =~= hex_number(n / 16, width));
    if width > 0 {
        law_hexadecimal_text(bytes, b, n / 16, (width - 1) as nat);
    }
}

/// **What is no hexadecimal text has no bytes**: an odd digit, or anything but digits.
pub proof fn law_bad_hexadecimal_is_refused(s: Seq<u8>)
    ensures
        s.len() == 1 ==> hex_bytes(s) is None,
        s.len() >= 2 && (hex_val(s[s.len() - 1]) is None || hex_val(s[s.len() - 2]) is None)
            ==> hex_bytes(s) is None,
{
}

/// **Percent encoding in addresses**: a percent sign and two digits stand for a byte, a plus
/// for a space, and every other byte for itself. Half an encoding stands for nothing.
pub proof fn law_percent_encoding(b: u8, hi: u8, lo: u8, rest: Seq<u8>, out: Seq<u8>)
    requires
        percent_bytes(rest) == Some(out),
    ensures
        percent_bytes(Seq::empty()) == Some(Seq::<u8>::empty()),
        b != 37 && b != 43 ==> percent_bytes(seq![b] + rest) == Some(seq![b] + out),
        percent_bytes(seq![43u8] + rest) == Some(seq![32u8] + out),
        hex_val(hi) is Some && hex_val(lo) is Some ==> percent_bytes(seq![37u8, hi, lo] + rest)
            == Some(seq![(16 * hex_val(hi)->0 + hex_val(lo)->0) as u8] + out),
        hex_val(hi) is None || hex_val(lo) is None ==> percent_bytes(seq![37u8, hi, lo] + rest)
            is None,
        percent_bytes(seq![37u8]) is None,
        percent_bytes(seq![37u8, hi]) is None,
{
    assert((seq![b] + rest).skip(1) =~= rest);
    assert((seq![43u8] + rest).skip(1) =~= rest);
    let s = seq![37u8, hi, lo] + rest;
    assert(s[0] == 37 && s[1] == hi && s[2] == lo);
    assert(s.skip(3) =~= rest);
}

/// **Pairs of a query** have the name before the first equals sign and the value behind it.
pub proof fn law_query_pairs(name: Seq<char>, value: Seq<char>)
    requires
        lacks(name, '='),
    ensures
        query_pair(name + seq!['='] + value) == (name, value),
        query_pair(name) == (name, Seq::<char>::empty()),
{
    law_splitting_once(name, '=', value);
}

} // verus!
