//! Strings as sequences of characters.
use vstd::prelude::*;
use vstd::utf8::*;

verus! {

/// Two strings with the same UTF-8 bytes have the same characters.
pub proof fn lemma_bytes_determine_chars(a: Seq<char>, b: Seq<char>)
    requires
        encode_utf8(a) == encode_utf8(b),
    ensures
        a == b,
{
    encode_utf8_decode_utf8(a);
    encode_utf8_decode_utf8(b);
}

/// Whether two strings hold the same characters.
pub fn str_eq(a: &str, b: &str) -> (r: bool)
    ensures
        r == (a@ == b@),
{
    let x = a.as_bytes();
    let y = b.as_bytes();
    if x.len() != y.len() {
        return false;
    }
    let mut i: usize = 0;
    while i < x.len()
        invariant
            x@ == encode_utf8(a@),
            y@ == encode_utf8(b@),
            x@.len() == y@.len(),
            i <= x@.len(),
            forall|j: int| 0 <= j < i ==> x@[j] == y@[j],
        decreases x@.len() - i,
    {
        if x[i] != y[i] {
            return false;
        }
        i += 1;
    }
    proof {
        assert(x@ =~= y@);
        lemma_bytes_determine_chars(a@, b@);
    }
    true
}

/// The characters of a string.
pub fn chars_of(s: &str) -> (v: Vec<char>)
    ensures
        v@ == s@,
{
    let mut v: Vec<char> = Vec::new();
    for c in it: s.chars()
        invariant
            it.seq() == s@,
            v@ == s@.take(it.index() as int),
    {
        let ghost i = it.index() as int;
        v.push(c);
        assert(v@ =~= s@.take(i + 1));
    }
    assert(s@.take(s@.len() as int) =~= s@);
    v
}

/// `String::push`: appends the character to the end of the string.
pub assume_specification[ String::push ](s: &mut String, c: char)
    ensures
        final(s)@ == old(s)@.push(c),
;

/// The string with the given characters.
pub fn string_of(v: &Vec<char>) -> (s: String)
    ensures
        s@ == v@,
{
    let mut s = String::new();
    let mut i: usize = 0;
    assert(s@ =~= v@.take(0));
    while i < v.len()
        invariant
            i <= v@.len(),
            s@ == v@.take(i as int),
        decreases v@.len() - i,
    {
        s.push(v[i]);
        i += 1;
        assert(s@ =~= v@.take(i as int));
    }
    assert(v@.take(i as int) =~= v@);
    s
}

/// Append the characters of a string.
pub fn push_str(v: &mut Vec<char>, s: &str)
    ensures
        final(v)@ == old(v)@ + s@,
{
    assert(v@ =~= old(v)@ + s@.take(0));
    for c in it: s.chars()
        invariant
            it.seq() == s@,
            v@ == old(v)@ + s@.take(it.index() as int),
    {
        let ghost i = it.index() as int;
        v.push(c);
        assert(v@ =~= old(v)@ + s@.take(i + 1));
    }
    assert(s@.take(s@.len() as int) =~= s@);
}

/// Append characters.
pub fn push_chars(v: &mut Vec<char>, w: &Vec<char>)
    ensures
        final(v)@ == old(v)@ + w@,
{
    let mut i: usize = 0;
    assert(v@ =~= old(v)@ + w@.take(0));
    while i < w.len()
        invariant
            i <= w@.len(),
            v@ == old(v)@ + w@.take(i as int),
        decreases w@.len() - i,
    {
        v.push(w[i]);
        i += 1;
        assert(v@ =~= old(v)@ + w@.take(i as int));
    }
    assert(w@.take(i as int) =~= w@);
}

/// The characters from `i` up to `j`.
pub fn sub_chars(v: &Vec<char>, i: usize, j: usize) -> (w: Vec<char>)
    requires
        i <= j <= v@.len(),
    ensures
        w@ == v@.subrange(i as int, j as int),
{
    let mut w: Vec<char> = Vec::new();
    let mut k: usize = i;
    while k < j
        invariant
            i <= k <= j <= v@.len(),
            w@ == v@.subrange(i as int, k as int),
        decreases j - k,
    {
        w.push(v[k]);
        k += 1;
        assert(w@ =~= v@.subrange(i as int, k as int));
    }
    w
}

/// Whether the characters are those of `s`.
pub fn chars_are(v: &Vec<char>, s: &str) -> (b: bool)
    ensures
        b == (v@ == s@),
{
    let w = chars_of(s);
    if v.len() != w.len() {
        return false;
    }
    let mut i: usize = 0;
    while i < v.len()
        invariant
            w@ == s@,
            v@.len() == w@.len(),
            i <= v@.len(),
            forall|j: int| 0 <= j < i ==> v@[j] == w@[j],
        decreases v@.len() - i,
    {
        if v[i] != w[i] {
            return false;
        }
        i += 1;
    }
    assert(v@ =~= w@);
    true
}

// ---- case -------------------------------------------------------------------------
/// An ASCII letter in lower case; any other character as it is.
pub open spec fn lower_char(c: char) -> char {
    if 'A' <= c <= 'Z' {
        (c as u8 + 32) as char
    } else {
        c
    }
}

/// The text with ASCII letters in lower case.
pub open spec fn lower(s: Seq<char>) -> Seq<char> {
    s.map_values(|c: char| lower_char(c))
}

/// The text with ASCII letters in lower case.
pub fn to_lower(s: &str) -> (v: Vec<char>)
    ensures
        v@ == lower(s@),
{
    let w = chars_of(s);
    let mut v: Vec<char> = Vec::new();
    let mut i: usize = 0;
    while i < w.len()
        invariant
            w@ == s@,
            i <= w@.len(),
            v@ == lower(s@.take(i as int)),
        decreases w@.len() - i,
    {
        let c = w[i];
        if 'A' <= c && c <= 'Z' {
            v.push((c as u8 + 32) as char);
        } else {
            v.push(c);
        }
        i += 1;
        assert(v@ =~= lower(s@.take(i as int)));
    }
    assert(s@.take(i as int) =~= s@);
    v
}

// ---- whitespace ---------------------------------------------------------------
/// The characters with Unicode's White_Space property.
pub open spec fn white(c: char) -> bool {
    ||| '\u{9}' <= c <= '\u{d}'
    ||| c == ' '
    ||| c == '\u{85}'
    ||| c == '\u{a0}'
    ||| c == '\u{1680}'
    ||| '\u{2000}' <= c <= '\u{200a}'
    ||| c == '\u{2028}'
    ||| c == '\u{2029}'
    ||| c == '\u{202f}'
    ||| c == '\u{205f}'
    ||| c == '\u{3000}'
}

/// Whether a character has Unicode's White_Space property.
pub fn is_white(c: char) -> (b: bool)
    ensures
        b == white(c),
{
    ('\u{9}' <= c && c <= '\u{d}') || c == ' ' || c == '\u{85}' || c == '\u{a0}' || c
        == '\u{1680}' || ('\u{2000}' <= c && c <= '\u{200a}') || c == '\u{2028}' || c
        == '\u{2029}' || c == '\u{202f}' || c == '\u{205f}' || c == '\u{3000}'
}

/// The complete words of a text, and the word at its end if it does not end in
/// whitespace.
pub open spec fn word_parts(s: Seq<char>) -> (Seq<Seq<char>>, Seq<char>)
    decreases s.len(),
{
    if s.len() == 0 {
        (Seq::empty(), Seq::empty())
    } else {
        let (done, open_word) = word_parts(s.drop_last());
        if !white(s.last()) {
            (done, open_word.push(s.last()))
        } else if open_word.len() > 0 {
            (done.push(open_word), Seq::empty())
        } else {
            (done, open_word)
        }
    }
}

/// The words of a text: its longest runs of characters other than whitespace,
/// in order.
pub open spec fn words(s: Seq<char>) -> Seq<Seq<char>> {
    let (done, open_word) = word_parts(s);
    if open_word.len() > 0 {
        done.push(open_word)
    } else {
        done
    }
}

/// The characters of each item.
pub open spec fn char_views(v: Seq<Vec<char>>) -> Seq<Seq<char>> {
    v.map_values(|w: Vec<char>| w@)
}

/// The words of a text.
pub fn split_words(v: &Vec<char>) -> (w: Vec<Vec<char>>)
    ensures
        char_views(w@) == words(v@),
{
    let mut done: Vec<Vec<char>> = Vec::new();
    let mut open_word: Vec<char> = Vec::new();
    let mut i: usize = 0;
    assert(char_views(done@) =~= Seq::empty());
    while i < v.len()
        invariant
            i <= v@.len(),
            char_views(done@) == word_parts(v@.take(i as int)).0,
            open_word@ == word_parts(v@.take(i as int)).1,
        decreases v@.len() - i,
    {
        let c = v[i];
        proof {
            assert(v@.take(i + 1).drop_last() =~= v@.take(i as int));
            assert(v@.take(i + 1).last() == c);
        }
        if !is_white(c) {
            open_word.push(c);
        } else if open_word.len() > 0 {
            let ghost before = done@;
            let ghost word = open_word;
            done.push(open_word);
            open_word = Vec::new();
            assert(char_views(done@) =~= char_views(before).push(word@));
            assert(open_word@ =~= Seq::empty());
        }
        i += 1;
    }
    assert(v@.take(i as int) =~= v@);
    if open_word.len() > 0 {
        let ghost before = done@;
        let ghost word = open_word;
        done.push(open_word);
        assert(char_views(done@) =~= char_views(before).push(word@));
    }
    done
}

/// A run of other characters goes on with the last word.
pub proof fn lemma_words_run(s: Seq<char>, w: Seq<char>)
    requires
        forall|i: int| 0 <= i < w.len() ==> !white(#[trigger] w[i]),
    ensures
        word_parts(s + w).0 == word_parts(s).0,
        word_parts(s + w).1 == word_parts(s).1 + w,
    decreases w.len(),
{
    if w.len() == 0 {
        assert(s + w =~= s);
        assert(word_parts(s).1 + w =~= word_parts(s).1);
    } else {
        let init = w.drop_last();
        lemma_words_run(s, init);
        assert((s + w).drop_last() =~= s + init);
        assert((s + w).last() == w.last());
        assert(!white(w[w.len() - 1]));
        assert((word_parts(s).1 + init).push(w.last()) =~= word_parts(s).1 + w);
    }
}

/// A word behind a space is one more word.
pub proof fn lemma_words_push(s: Seq<char>, w: Seq<char>)
    requires
        w.len() > 0,
        forall|i: int| 0 <= i < w.len() ==> !white(#[trigger] w[i]),
    ensures
        words(s.push(' ') + w) == words(s).push(w),
{
    let t = s.push(' ');
    assert(t.drop_last() =~= s);
    assert(white(' '));
    assert(word_parts(t).0 == words(s));
    assert(word_parts(t).1 =~= Seq::empty());
    lemma_words_run(t, w);
    assert(word_parts(t).1 + w =~= w);
}

/// A word alone is one word.
pub proof fn lemma_words_one(w: Seq<char>)
    requires
        w.len() > 0,
        forall|i: int| 0 <= i < w.len() ==> !white(#[trigger] w[i]),
    ensures
        words(w) == seq![w],
{
    lemma_words_run(Seq::empty(), w);
    assert(Seq::empty() + w =~= w);
    assert(word_parts(Seq::<char>::empty()).1 + w =~= w);
    assert(words(w) =~= seq![w]);
}

// ---- trimming and splitting -----------------------------------------------------------
/// The text without whitespace at its front.
pub open spec fn trim_start(s: Seq<char>) -> Seq<char>
    decreases s.len(),
{
    if s.len() > 0 && white(s[0]) {
        trim_start(s.skip(1))
    } else {
        s
    }
}

/// The text without whitespace at its end.
pub open spec fn trim_end(s: Seq<char>) -> Seq<char>
    decreases s.len(),
{
    if s.len() > 0 && white(s.last()) {
        trim_end(s.drop_last())
    } else {
        s
    }
}

/// The text without whitespace at either end.
pub open spec fn trim(s: Seq<char>) -> Seq<char> {
    trim_end(trim_start(s))
}

/// The text without whitespace at its front.
pub fn trim_start_chars(v: &Vec<char>) -> (w: Vec<char>)
    ensures
        w@ == trim_start(v@),
{
    let mut i: usize = 0;
    assert(v@.skip(0) =~= v@);
    while i < v.len() && is_white(v[i])
        invariant
            i <= v@.len(),
            trim_start(v@.skip(i as int)) == trim_start(v@),
        decreases v@.len() - i,
    {
        assert(v@.skip(i as int).skip(1) =~= v@.skip(i + 1));
        i += 1;
    }
    let w = sub_chars(v, i, v.len());
    assert(w@ =~= v@.skip(i as int));
    w
}

/// The text without whitespace at either end.
pub fn trim_chars(v: &Vec<char>) -> (w: Vec<char>)
    ensures
        w@ == trim(v@),
{
    let mut w = trim_start_chars(v);
    while w.len() > 0 && is_white(w[w.len() - 1])
        invariant
            trim_end(w@) == trim(v@),
        decreases w@.len(),
    {
        let ghost before = w@;
        let _ = w.pop();
        assert(w@ =~= before.drop_last());
    }
    w
}

/// Where the first `c` is; the length if there is none.
pub open spec fn position(s: Seq<char>, c: char) -> int
    decreases s.len(),
{
    if s.len() == 0 || s[0] == c {
        0
    } else {
        1 + position(s.skip(1), c)
    }
}

/// Where the last `c` is; -1 if there is none.
pub open spec fn last_position(s: Seq<char>, c: char) -> int
    decreases s.len(),
{
    if s.len() == 0 {
        -1
    } else if s.last() == c {
        s.len() - 1
    } else {
        last_position(s.drop_last(), c)
    }
}

/// The texts before and behind the first `c`.
pub open spec fn split_once(s: Seq<char>, c: char) -> Option<(Seq<char>, Seq<char>)> {
    if position(s, c) < s.len() {
        Some((s.take(position(s, c)), s.skip(position(s, c) + 1)))
    } else {
        None
    }
}

/// Where the first `c` is.
pub proof fn lemma_position(s: Seq<char>, c: char, i: int)
    requires
        0 <= i <= s.len(),
        forall|j: int| 0 <= j < i ==> #[trigger] s[j] != c,
        i < s.len() ==> s[i] == c,
    ensures
        position(s, c) == i,
    decreases s.len(),
{
    if s.len() > 0 && i > 0 {
        assert(s[0] != c);
        let rest = s.skip(1);
        assert forall|j: int| 0 <= j < i - 1 implies #[trigger] rest[j] != c by {
            assert(rest[j] == s[j + 1]);
        }
        lemma_position(rest, c, i - 1);
    }
}

/// Where the first `c` is; the length if there is none.
pub fn find_char(v: &Vec<char>, c: char) -> (i: usize)
    ensures
        i == position(v@, c),
        i <= v@.len(),
{
    let mut i: usize = 0;
    while i < v.len() && v[i] != c
        invariant
            i <= v@.len(),
            forall|j: int| 0 <= j < i ==> #[trigger] v@[j] != c,
        decreases v@.len() - i,
    {
        i += 1;
    }
    proof {
        lemma_position(v@, c, i as int);
    }
    i
}

/// Where the last `c` is.
pub fn find_last_char(v: &Vec<char>, c: char) -> (r: Option<usize>)
    ensures
        match r {
            Some(i) => i < v@.len() && last_position(v@, c) == i,
            None => last_position(v@, c) == -1,
        },
{
    let mut n: usize = v.len();
    assert(v@.take(n as int) =~= v@);
    while n > 0
        invariant
            n <= v@.len(),
            last_position(v@.take(n as int), c) == last_position(v@, c),
        decreases n,
    {
        assert(v@.take(n as int).drop_last() =~= v@.take(n - 1));
        assert(v@.take(n as int).last() == v@[n - 1]);
        if v[n - 1] == c {
            return Some(n - 1);
        }
        n -= 1;
    }
    assert(v@.take(0) =~= Seq::empty());
    None
}

/// The parts of a text between the occurrences of `c`; always at least one.
pub open spec fn split(s: Seq<char>, c: char) -> Seq<Seq<char>>
    decreases s.len(),
{
    if s.len() == 0 {
        seq![Seq::empty()]
    } else {
        let parts = split(s.drop_last(), c);
        if s.last() == c {
            parts.push(Seq::empty())
        } else {
            parts.drop_last().push(parts.last().push(s.last()))
        }
    }
}

/// The parts of a text between the occurrences of `c`.
pub fn split_chars(v: &Vec<char>, c: char) -> (parts: Vec<Vec<char>>)
    ensures
        char_views(parts@) == split(v@, c),
        parts@.len() > 0,
{
    let mut done: Vec<Vec<char>> = Vec::new();
    let mut part: Vec<char> = Vec::new();
    let mut i: usize = 0;
    assert(v@.take(0) =~= Seq::empty());
    assert(char_views(done@).push(part@) =~= split(v@.take(0), c));
    while i < v.len()
        invariant
            i <= v@.len(),
            char_views(done@).push(part@) == split(v@.take(i as int), c),
        decreases v@.len() - i,
    {
        let x = v[i];
        let ghost parts = char_views(done@).push(part@);
        let ghost was = part@;
        proof {
            assert(v@.take(i + 1).drop_last() =~= v@.take(i as int));
            assert(v@.take(i + 1).last() == x);
        }
        if x == c {
            let ghost before = done@;
            done.push(part);
            part = Vec::new();
            assert(char_views(done@) =~= parts);
            assert(part@ =~= Seq::empty());
        } else {
            part.push(x);
            assert(char_views(done@) =~= parts.drop_last());
            assert(parts.last() == was);
        }
        i += 1;
    }
    assert(v@.take(i as int) =~= v@);
    let ghost parts = char_views(done@).push(part@);
    done.push(part);
    assert(char_views(done@) =~= parts);
    done
}

/// Where the first whitespace is; the length if there is none.
pub open spec fn word_end(s: Seq<char>) -> int
    decreases s.len(),
{
    if s.len() == 0 || white(s[0]) {
        0
    } else {
        1 + word_end(s.skip(1))
    }
}

proof fn lemma_word_end(s: Seq<char>, i: int)
    requires
        0 <= i <= s.len(),
        forall|j: int| 0 <= j < i ==> !white(#[trigger] s[j]),
        i < s.len() ==> white(s[i]),
    ensures
        word_end(s) == i,
    decreases s.len(),
{
    if s.len() > 0 && i > 0 {
        assert(!white(s[0]));
        let rest = s.skip(1);
        assert forall|j: int| 0 <= j < i - 1 implies !white(#[trigger] rest[j]) by {
            assert(rest[j] == s[j + 1]);
        }
        lemma_word_end(rest, i - 1);
    }
}

/// Where the first whitespace is; the length if there is none.
pub fn find_white(v: &Vec<char>) -> (i: usize)
    ensures
        i == word_end(v@),
        i <= v@.len(),
{
    let mut i: usize = 0;
    while i < v.len() && !is_white(v[i])
        invariant
            i <= v@.len(),
            forall|j: int| 0 <= j < i ==> !white(#[trigger] v@[j]),
        decreases v@.len() - i,
    {
        i += 1;
    }
    proof {
        lemma_word_end(v@, i as int);
    }
    i
}

/// Whether some character is whitespace.
pub open spec fn has_white(s: Seq<char>) -> bool {
    word_end(s) < s.len()
}

/// The text without any `c` at either end.
pub open spec fn strip(s: Seq<char>, c: char) -> Seq<char> {
    strip_end(strip_start(s, c), c)
}

/// The text without any `c` at its front.
pub open spec fn strip_start(s: Seq<char>, c: char) -> Seq<char>
    decreases s.len(),
{
    if s.len() > 0 && s[0] == c {
        strip_start(s.skip(1), c)
    } else {
        s
    }
}

/// The text without any `c` at its end.
pub open spec fn strip_end(s: Seq<char>, c: char) -> Seq<char>
    decreases s.len(),
{
    if s.len() > 0 && s.last() == c {
        strip_end(s.drop_last(), c)
    } else {
        s
    }
}

/// The text without any `c` at either end.
pub fn strip_chars(v: &Vec<char>, c: char) -> (w: Vec<char>)
    ensures
        w@ == strip(v@, c),
{
    let mut i: usize = 0;
    assert(v@.skip(0) =~= v@);
    while i < v.len() && v[i] == c
        invariant
            i <= v@.len(),
            strip_start(v@.skip(i as int), c) == strip_start(v@, c),
        decreases v@.len() - i,
    {
        assert(v@.skip(i as int).skip(1) =~= v@.skip(i + 1));
        i += 1;
    }
    let mut w = sub_chars(v, i, v.len());
    assert(w@ =~= v@.skip(i as int));
    while w.len() > 0 && w[w.len() - 1] == c
        invariant
            strip_end(w@, c) == strip(v@, c),
        decreases w@.len(),
    {
        let ghost before = w@;
        let _ = w.pop();
        assert(w@ =~= before.drop_last());
    }
    w
}

// ---- decimal numbers --------------------------------------------------------------
/// The digit with value `d`.
pub open spec fn digit_char(d: nat) -> char {
    (48 + d) as char
}

/// Whether the character is an ASCII digit.
pub open spec fn is_digit(c: char) -> bool {
    '0' <= c <= '9'
}

/// The decimal digits of a number.
pub open spec fn decimal(n: nat) -> Seq<char>
    decreases n,
{
    if n < 10 {
        seq![digit_char(n)]
    } else {
        decimal(n / 10).push(digit_char(n % 10))
    }
}

/// The number that ASCII digits write.
pub open spec fn digits_value(s: Seq<char>) -> nat
    decreases s.len(),
{
    if s.len() == 0 {
        0
    } else {
        digits_value(s.drop_last()) * 10 + (s.last() as nat - 48) as nat
    }
}

/// Every character is an ASCII digit.
pub open spec fn all_digits(s: Seq<char>) -> bool {
    forall|i: int| 0 <= i < s.len() ==> is_digit(#[trigger] s[i])
}

/// The number that a text writes: a `+` if it likes, then digits, at least one;
/// at most `max`.
pub open spec fn parse_number(s: Seq<char>, max: nat) -> Option<nat> {
    let t = if s.len() > 0 && s[0] == '+' {
        s.skip(1)
    } else {
        s
    };
    if t.len() > 0 && all_digits(t) && digits_value(t) <= max {
        Some(digits_value(t))
    } else {
        None
    }
}

/// The decimal digits of a number.
pub fn decimal_chars(n: u64) -> (v: Vec<char>)
    ensures
        v@ == decimal(n as nat),
    decreases n,
{
    let d = n % 10;
    let c = (48u8 + d as u8) as char;
    assert(c == digit_char(d as nat));
    if n < 10 {
        let mut v: Vec<char> = Vec::new();
        v.push(c);
        assert(v@ =~= decimal(n as nat));
        v
    } else {
        let mut v = decimal_chars(n / 10);
        v.push(c);
        v
    }
}

/// A prefix of digits writes no greater number.
proof fn lemma_digits_prefix(s: Seq<char>, i: int)
    requires
        0 <= i <= s.len(),
        all_digits(s),
    ensures
        digits_value(s.take(i)) <= digits_value(s),
    decreases s.len() - i,
{
    if i < s.len() {
        lemma_digits_prefix(s, i + 1);
        assert(s.take(i + 1).drop_last() =~= s.take(i));
        assert(is_digit(s[i]));
    } else {
        assert(s.take(i) =~= s);
    }
}

/// The number that a text writes, if it writes one of at most `max`.
pub fn parse_unsigned(v: &Vec<char>, max: u64) -> (r: Option<u64>)
    ensures
        match r {
            Some(n) => parse_number(v@, max as nat) == Some(n as nat),
            None => parse_number(v@, max as nat) is None,
        },
{
    let start: usize = if v.len() > 0 && v[0] == '+' {
        1
    } else {
        0
    };
    let ghost t = v@.skip(start as int);
    assert(t =~= if v@.len() > 0 && v@[0] == '+' {
        v@.skip(1)
    } else {
        v@
    });
    if v.len() == start {
        return None;
    }
    let mut n: u64 = 0;
    let mut i: usize = start;
    assert(t.take(0) =~= Seq::empty());
    while i < v.len()
        invariant
            start <= 1,
            start <= i <= v@.len(),
            t == v@.skip(start as int),
            t == (if v@.len() > 0 && v@[0] == '+' {
                v@.skip(1)
            } else {
                v@
            }),
            t.len() > 0,
            forall|j: int| 0 <= j < i - start ==> is_digit(#[trigger] t[j]),
            n == digits_value(t.take(i - start)),
            n <= max,
        decreases v@.len() - i,
    {
        let c = v[i];
        let ghost k = i - start;
        assert(t[k] == c);
        if !('0' <= c && c <= '9') {
            return None;
        }
        let d: u64 = (c as u32 - 48) as u64;
        proof {
            assert(t.take(k + 1).drop_last() =~= t.take(k));
            assert(t.take(k + 1).last() == c);
            if all_digits(t) {
                lemma_digits_prefix(t, k + 1);
            }
        }
        if n > (u64::MAX - d) / 10 {
            return None;
        }
        n = n * 10 + d;
        if n > max {
            return None;
        }
        i += 1;
    }
    assert(t.take(i - start) =~= t);
    Some(n)
}

/// Digits read back the number they write.
pub proof fn lemma_decimal(n: nat)
    ensures
        decimal(n).len() > 0,
        all_digits(decimal(n)),
        digits_value(decimal(n)) == n,
    decreases n,
{
    let s = decimal(n);
    if n < 10 {
        assert(s.drop_last() =~= Seq::empty());
        assert(digits_value(s.drop_last()) == 0);
        assert(s.last() == digit_char(n));
    } else {
        lemma_decimal(n / 10);
        assert(s.drop_last() =~= decimal(n / 10));
        assert(s.last() == digit_char(n % 10));
        assert forall|i: int| 0 <= i < s.len() implies is_digit(#[trigger] s[i]) by {
            if i < s.len() - 1 {
                assert(s[i] == decimal(n / 10)[i]);
            }
        }
    }
}

/// **Numbers read back**: what [`decimal`] writes, [`parse_number`] reads.
pub proof fn law_decimal_reads_back(n: nat, max: nat)
    requires
        n <= max,
    ensures
        parse_number(decimal(n), max) == Some(n),
{
    lemma_decimal(n);
    assert(is_digit(decimal(n)[0]));
}

/// Digits are no whitespace.
pub proof fn lemma_decimal_no_white(n: nat)
    ensures
        decimal(n).len() > 0,
        forall|i: int| 0 <= i < decimal(n).len() ==> !white(#[trigger] decimal(n)[i]),
{
    lemma_decimal(n);
    assert forall|i: int| 0 <= i < decimal(n).len() implies !white(#[trigger] decimal(n)[i]) by {
        assert(is_digit(decimal(n)[i]));
    }
}

// ---- hexadecimal and bytes ------------------------------------------------------------
/// The lower-case hexadecimal digit with value `v`.
pub open spec fn hex_char(v: u8) -> char {
    if v < 10 {
        (48 + v) as char
    } else {
        (87 + v) as char
    }
}

/// The value of a hexadecimal digit, of either case.
pub open spec fn hex_val(b: u8) -> Option<u8> {
    if 48 <= b <= 57 {
        Some((b - 48) as u8)
    } else if 97 <= b <= 102 {
        Some((b - 87) as u8)
    } else if 65 <= b <= 70 {
        Some((b - 55) as u8)
    } else {
        None
    }
}

/// The lower-case hexadecimal digit with value `v`.
pub fn hex_digit(v: u8) -> (c: char)
    requires
        v < 16,
    ensures
        c == hex_char(v),
{
    if v < 10 {
        (48u8 + v) as char
    } else {
        (87u8 + v) as char
    }
}

/// The value of a hexadecimal digit, of either case.
pub fn hex_value(b: u8) -> (r: Option<u8>)
    ensures
        r == hex_val(b),
        r matches Some(v) ==> v < 16,
{
    if 48 <= b && b <= 57 {
        Some(b - 48)
    } else if 97 <= b && b <= 102 {
        Some(b - 87)
    } else if 65 <= b && b <= 70 {
        Some(b - 55)
    } else {
        None
    }
}

/// Bytes as hexadecimal text, two digits each.
pub open spec fn hex_text(bytes: Seq<u8>) -> Seq<char>
    decreases bytes.len(),
{
    if bytes.len() == 0 {
        Seq::empty()
    } else {
        hex_text(bytes.drop_last()).push(hex_char(bytes.last() / 16)).push(
            hex_char(bytes.last() % 16),
        )
    }
}

/// The `width` lowest hexadecimal digits of a number.
pub open spec fn hex_number(n: nat, width: nat) -> Seq<char>
    decreases width,
{
    if width == 0 {
        Seq::empty()
    } else {
        hex_number(n / 16, (width - 1) as nat).push(hex_char((n % 16) as u8))
    }
}

/// The `width` lowest hexadecimal digits of a number.
pub fn hex_number_chars(n: u64, width: usize) -> (v: Vec<char>)
    ensures
        v@ == hex_number(n as nat, width as nat),
    decreases width,
{
    if width == 0 {
        Vec::new()
    } else {
        let mut v = hex_number_chars(n / 16, width - 1);
        v.push(hex_digit((n % 16) as u8));
        v
    }
}

/// Different numbers have different digits, as long as they fit in the width.
pub proof fn lemma_hex_number_injective(a: nat, b: nat, width: nat)
    requires
        hex_number(a, width) == hex_number(b, width),
        a < vstd::arithmetic::power::pow(16, width),
        b < vstd::arithmetic::power::pow(16, width),
    ensures
        a == b,
    decreases width,
{
    vstd::arithmetic::power::lemma_pow0(16);
    if width > 0 {
        let w = (width - 1) as nat;
        let (x, y) = (hex_number(a, width), hex_number(b, width));
        assert(x.drop_last() =~= hex_number(a / 16, w));
        assert(y.drop_last() =~= hex_number(b / 16, w));
        lemma_hex_char((a % 16) as u8);
        lemma_hex_char((b % 16) as u8);
        assert(x.last() == y.last());
        reveal(vstd::arithmetic::power::pow);
        assert(vstd::arithmetic::power::pow(16, width) == 16 * vstd::arithmetic::power::pow(16, w));
        lemma_hex_number_injective(a / 16, b / 16, w);
    }
}

/// The bytes that hexadecimal text (as bytes) writes.
pub open spec fn hex_bytes(s: Seq<u8>) -> Option<Seq<u8>>
    decreases s.len(),
{
    if s.len() == 0 {
        Some(Seq::empty())
    } else if s.len() == 1 {
        None
    } else {
        match (
            hex_bytes(s.take(s.len() - 2)),
            hex_val(s[s.len() - 2]),
            hex_val(s[s.len() - 1]),
        ) {
            (Some(b), Some(hi), Some(lo)) => Some(b.push((hi * 16 + lo) as u8)),
            _ => None,
        }
    }
}

/// Bytes as hexadecimal text, two digits each.
pub fn hex_encode(bytes: &Vec<u8>) -> (v: Vec<char>)
    ensures
        v@ == hex_text(bytes@),
{
    let mut v: Vec<char> = Vec::new();
    let mut i: usize = 0;
    while i < bytes.len()
        invariant
            i <= bytes@.len(),
            v@ == hex_text(bytes@.take(i as int)),
        decreases bytes@.len() - i,
    {
        let b = bytes[i];
        v.push(hex_digit(b / 16));
        v.push(hex_digit(b % 16));
        proof {
            assert(bytes@.take(i + 1).drop_last() =~= bytes@.take(i as int));
            assert(bytes@.take(i + 1).last() == b);
        }
        i += 1;
    }
    assert(bytes@.take(i as int) =~= bytes@);
    v
}

/// Where a pair of digits is not one, there are no bytes.
proof fn lemma_hex_bytes_none(s: Seq<u8>, i: int)
    requires
        0 <= i,
        2 * i + 2 <= s.len(),
        hex_bytes(s.take(2 * i + 2)) is None,
    ensures
        hex_bytes(s) is None,
    decreases s.len(),
{
    if s.len() == 2 * i + 2 {
        assert(s.take(2 * i + 2) =~= s);
    } else if s.len() > 2 * i + 3 {
        let t = s.take(s.len() - 2);
        assert(t.take(2 * i + 2) =~= s.take(2 * i + 2));
        lemma_hex_bytes_none(t, i);
    } else {
        lemma_hex_bytes_odd(s);
    }
}

/// An odd number of digits writes no bytes.
proof fn lemma_hex_bytes_odd(s: Seq<u8>)
    requires
        s.len() % 2 == 1,
    ensures
        hex_bytes(s) is None,
    decreases s.len(),
{
    if s.len() > 1 {
        lemma_hex_bytes_odd(s.take(s.len() - 2));
    }
}

/// The bytes that hexadecimal text writes.
pub fn hex_decode(s: &str) -> (r: Option<Vec<u8>>)
    ensures
        match r {
            Some(b) => hex_bytes(encode_utf8(s@)) == Some(b@),
            None => hex_bytes(encode_utf8(s@)) is None,
        },
{
    let bytes = s.as_bytes();
    let ghost t = encode_utf8(s@);
    if bytes.len() % 2 != 0 {
        proof {
            lemma_hex_bytes_odd(t);
        }
        return None;
    }
    let mut out: Vec<u8> = Vec::new();
    let mut i: usize = 0;
    assert(t.take(0) =~= Seq::empty());
    while i < bytes.len()
        invariant
            t == encode_utf8(s@),
            bytes@ == t,
            bytes@.len() % 2 == 0,
            i % 2 == 0,
            i <= bytes@.len(),
            hex_bytes(t.take(i as int)) == Some(out@),
        decreases bytes@.len() - i,
    {
        let hi = hex_value(bytes[i]);
        let lo = hex_value(bytes[i + 1]);
        proof {
            let u = t.take(i + 2);
            assert(u.take(u.len() - 2) =~= t.take(i as int));
            assert(u[u.len() - 2] == t[i as int] && u[u.len() - 1] == t[i + 1]);
        }
        match (hi, lo) {
            (Some(hi), Some(lo)) => {
                out.push(hi * 16 + lo);
            },
            _ => {
                proof {
                    lemma_hex_bytes_none(t, i as int / 2);
                }
                return None;
            },
        }
        i += 2;
    }
    assert(t.take(i as int) =~= t);
    Some(out)
}

/// Hexadecimal digits are ASCII, and read back.
proof fn lemma_hex_char(v: u8)
    requires
        v < 16,
    ensures
        '\0' <= hex_char(v) <= '\u{7f}',
        hex_val(hex_char(v) as u8) == Some(v),
{
}

/// Hexadecimal text is ASCII.
pub proof fn lemma_hex_text_ascii(bytes: Seq<u8>)
    ensures
        is_ascii_chars(hex_text(bytes)),
        hex_text(bytes).len() == 2 * bytes.len(),
        forall|i: int| 0 <= i < hex_text(bytes).len() ==> !white(#[trigger] hex_text(bytes)[i]),
    decreases bytes.len(),
{
    if bytes.len() > 0 {
        let init = hex_text(bytes.drop_last());
        lemma_hex_text_ascii(bytes.drop_last());
        lemma_hex_char(bytes.last() / 16);
        lemma_hex_char(bytes.last() % 16);
        let s = hex_text(bytes);
        assert forall|i: int| 0 <= i < s.len() implies '\0' <= #[trigger] s[i] <= '\u{7f}' && !white(
            s[i],
        ) by {
            if i < init.len() {
                assert(s[i] == init[i]);
            }
        }
    }
}

/// ASCII text as bytes.
pub open spec fn ascii_bytes(s: Seq<char>) -> Seq<u8> {
    s.map_values(|c: char| c as u8)
}

/// The UTF-8 bytes of ASCII text are its characters.
pub proof fn lemma_ascii_bytes(s: Seq<char>)
    requires
        is_ascii_chars(s),
    ensures
        encode_utf8(s) == ascii_bytes(s),
{
    is_ascii_chars_encode_utf8(s);
    assert forall|i: int| 0 <= i < s.len() implies encode_utf8(s)[i] == #[trigger] ascii_bytes(
        s,
    )[i] by {
        assert(s[i] as u8 == encode_utf8(s)[i]);
    }
    assert(encode_utf8(s) =~= ascii_bytes(s));
}

/// **Hexadecimal reads back.**
pub proof fn law_hex_reads_back(bytes: Seq<u8>)
    ensures
        hex_bytes(encode_utf8(hex_text(bytes))) == Some(bytes),
    decreases bytes.len(),
{
    let s = hex_text(bytes);
    lemma_hex_text_ascii(bytes);
    lemma_ascii_bytes(s);
    if bytes.len() == 0 {
        assert(bytes =~= Seq::empty());
    } else {
        let init = bytes.drop_last();
        lemma_hex_text_ascii(init);
        lemma_ascii_bytes(hex_text(init));
        law_hex_reads_back(init);
        lemma_hex_char(bytes.last() / 16);
        lemma_hex_char(bytes.last() % 16);
        let t = ascii_bytes(s);
        assert(t.take(t.len() - 2) =~= ascii_bytes(hex_text(init)));
        assert(init.push(bytes.last()) =~= bytes);
    }
}

/// `String::from_utf8`: the string with these UTF-8 bytes; nothing if they are
/// not UTF-8.
#[verifier::external_body]
pub(crate) fn string_from_utf8(bytes: Vec<u8>) -> (r: Option<String>)
    ensures
        r is Some <==> valid_utf8(bytes@),
        r matches Some(s) ==> s@ == decode_utf8(bytes@),
{
    String::from_utf8(bytes).ok()
}

} // verus!
