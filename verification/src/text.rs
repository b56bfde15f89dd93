//! Text as sequences of characters.

use vstd::arithmetic::power::pow;
use vstd::prelude::*;

verus! {

/// `String::push`: the character goes to the end.
pub assume_specification[ String::push ](s: &mut String, c: char)
    ensures
        final(s)@ == old(s)@.push(c),
;

/// A character is a code that 32 bits hold; below 256, one that a byte holds.
pub proof fn lemma_char_code(c: char)
    ensures
        c as u32 == c as int,
        0 <= c as int <= 0x10_ffff,
        (c as u32) < 256 ==> (c as u8) as int == c as int && (c as u8) as char == c,
{
}

/// The characters of a string.
pub fn chars_of(s: &str) -> (v: Vec<char>)
    ensures
        v@ == s@,
{
    let mut v: Vec<char> = Vec::new();
    assert(v@ =~= s@.take(0));
    for c in it: s.chars()
        invariant
            it.seq() == s@,
            v@ == s@.take(it.index()),
    {
        v.push(c);
        assert(v@ =~= s@.take(it.index() + 1));
    }
    assert(s@.take(s@.len() as int) =~= s@);
    v
}

/// The string of some characters.
pub fn string_of(v: &[char]) -> (s: String)
    ensures
        s@ == v@,
{
    let mut s: String = String::new();
    assert(s@ =~= v@.take(0));
    for i in 0..v.len()
        invariant
            s@ == v@.take(i as int),
    {
        s.push(v[i]);
        assert(s@ =~= v@.take(i + 1));
    }
    assert(v@.take(v@.len() as int) =~= v@);
    s
}

/// Whether a character has the Unicode property White_Space.
pub open spec fn is_white(c: char) -> bool {
    let n = c as u32;
    ||| 0x09 <= n <= 0x0d
    ||| n == 0x20
    ||| n == 0x85
    ||| n == 0xa0
    ||| n == 0x1680
    ||| 0x2000 <= n <= 0x200a
    ||| n == 0x2028
    ||| n == 0x2029
    ||| n == 0x202f
    ||| n == 0x205f
    ||| n == 0x3000
}

pub fn white(c: char) -> (b: bool)
    ensures
        b == is_white(c),
{
    let n: u32 = c as u32;
    (0x09 <= n && n <= 0x0d) || n == 0x20 || n == 0x85 || n == 0xa0 || n == 0x1680 || (0x2000 <= n
        && n <= 0x200a) || n == 0x2028 || n == 0x2029 || n == 0x202f || n == 0x205f || n == 0x3000
}

/// How many white characters there are from position `i` on.
pub open spec fn white_run(s: Seq<char>, i: int) -> int
    decreases s.len() - i,
{
    if 0 <= i < s.len() && is_white(s[i]) {
        1 + white_run(s, i + 1)
    } else {
        0
    }
}

/// How many other characters there are from position `i` on.
pub open spec fn word_run(s: Seq<char>, i: int) -> int
    decreases s.len() - i,
{
    if 0 <= i < s.len() && !is_white(s[i]) {
        1 + word_run(s, i + 1)
    } else {
        0
    }
}

/// Without white characters at the start.
pub open spec fn trimmed_start(s: Seq<char>) -> Seq<char> {
    s.skip(white_run(s, 0))
}

/// Without white characters at the end.
pub open spec fn trimmed_end(s: Seq<char>) -> Seq<char>
    decreases s.len(),
{
    if s.len() > 0 && is_white(s.last()) {
        trimmed_end(s.drop_last())
    } else {
        s
    }
}

/// Without white characters at either end.
pub open spec fn trimmed(s: Seq<char>) -> Seq<char> {
    trimmed_end(trimmed_start(s))
}

/// The first run of characters that are not white.
pub open spec fn first_word(s: Seq<char>) -> Seq<char> {
    let t = trimmed_start(s);
    t.take(word_run(t, 0))
}

/// What follows the first word.
pub open spec fn after_word(s: Seq<char>) -> Seq<char> {
    let t = trimmed_start(s);
    t.skip(word_run(t, 0))
}

/// Position of the first `c` at or after `i`, or the length.
pub open spec fn next_char(s: Seq<char>, c: char, i: int) -> int
    decreases s.len() - i,
{
    if i >= s.len() {
        s.len() as int
    } else if s[i] == c {
        i
    } else {
        next_char(s, c, i + 1)
    }
}

/// What comes before the first `c`: everything, where there is none.
pub open spec fn before(s: Seq<char>, c: char) -> Seq<char> {
    s.take(next_char(s, c, 0))
}

/// What comes after the first `c`.
pub open spec fn after(s: Seq<char>, c: char) -> Seq<char> {
    s.skip(next_char(s, c, 0) + 1)
}

/// The pieces between one `c` and the next.
pub open spec fn pieces(s: Seq<char>, c: char) -> Seq<Seq<char>>
    decreases s.len(),
    via pieces_shrink
{
    if s.contains(c) {
        seq![before(s, c)] + pieces(after(s, c), c)
    } else {
        seq![s]
    }
}

#[via_fn]
proof fn pieces_shrink(s: Seq<char>, c: char) {
    lemma_next_char(s, c, 0);
    if s.contains(c) {
        let k = choose|k: int| 0 <= k < s.len() && s[k] == c;
        assert(s[k] == c);
    }
}

/// The first `c` is a `c`, and there is none before it.
pub proof fn lemma_next_char(s: Seq<char>, c: char, i: int)
    requires
        0 <= i <= s.len(),
    ensures
        i <= next_char(s, c, i) <= s.len(),
        forall|j: int| i <= j < next_char(s, c, i) ==> #[trigger] s[j] != c,
        next_char(s, c, i) < s.len() ==> s[next_char(s, c, i)] == c,
        s.contains(c) && i == 0 ==> next_char(s, c, i) < s.len(),
    decreases s.len() - i,
{
    if i < s.len() && s[i] != c {
        lemma_next_char(s, c, i + 1);
        assert forall|j: int| i <= j < next_char(s, c, i) implies #[trigger] s[j] != c by {
            if j > i {
                assert(i + 1 <= j < next_char(s, c, i + 1));
            }
        }
    }
    if s.contains(c) && i == 0 && next_char(s, c, i) == s.len() {
        let k = choose|k: int| 0 <= k < s.len() && s[k] == c;
        assert(s[k] != c);
    }
}

pub fn find_char(s: &[char], c: char) -> (i: usize)
    ensures
        i == next_char(s@, c, 0),
        i <= s@.len(),
        i < s@.len() <==> s@.contains(c),
        i < s@.len() ==> s@[i as int] == c,
{
    let n: usize = s.len();
    let mut i: usize = 0;
    while i < n && s[i] != c
        invariant
            n == s@.len(),
            i <= n,
            next_char(s@, c, 0) == next_char(s@, c, i as int),
        decreases n - i,
    {
        i = i + 1;
    }
    proof {
        lemma_next_char(s@, c, 0);
        if i < n {
            assert(s@[i as int] == c);
        } else if s@.contains(c) {
            assert(next_char(s@, c, 0) == s@.len());
        }
    }
    i
}

pub fn trim_start(s: &[char]) -> (r: &[char])
    ensures
        r@ == trimmed_start(s@),
{
    let n: usize = s.len();
    let mut i: usize = 0;
    while i < n && white(s[i])
        invariant
            n == s@.len(),
            i <= n,
            white_run(s@, 0) == i + white_run(s@, i as int),
        decreases n - i,
    {
        i = i + 1;
    }
    assert(s@.subrange(i as int, n as int) =~= s@.skip(i as int));
    &s[i..n]
}

pub fn trim_end(s: &[char]) -> (r: &[char])
    ensures
        r@ == trimmed_end(s@),
{
    let mut n: usize = s.len();
    assert(s@.take(n as int) =~= s@);
    while n > 0 && white(s[n - 1])
        invariant
            n <= s@.len(),
            trimmed_end(s@) == trimmed_end(s@.take(n as int)),
        decreases n,
    {
        assert(s@.take(n as int).drop_last() =~= s@.take(n - 1));
        n = n - 1;
    }
    assert(s@.subrange(0, n as int) =~= s@.take(n as int));
    &s[0..n]
}

pub fn trim(s: &[char]) -> (r: &[char])
    ensures
        r@ == trimmed(s@),
{
    trim_end(trim_start(s))
}

/// The first word and what follows it.
pub fn split_word(s: &[char]) -> (r: (&[char], &[char]))
    ensures
        r.0@ == first_word(s@),
        r.1@ == after_word(s@),
{
    let t: &[char] = trim_start(s);
    let n: usize = t.len();
    let mut i: usize = 0;
    while i < n && !white(t[i])
        invariant
            n == t@.len(),
            i <= n,
            word_run(t@, 0) == i + word_run(t@, i as int),
        decreases n - i,
    {
        i = i + 1;
    }
    assert(t@.subrange(0, i as int) =~= t@.take(i as int));
    assert(t@.subrange(i as int, n as int) =~= t@.skip(i as int));
    (&t[0..i], &t[i..n])
}

/// Pieces of text as sequences.
pub open spec fn texts(v: Seq<Vec<char>>) -> Seq<Seq<char>> {
    v.map_values(|p: Vec<char>| p@)
}

/// The pieces between one `c` and the next.
pub fn split(s: &[char], c: char) -> (out: Vec<Vec<char>>)
    ensures
        texts(out@) == pieces(s@, c),
{
    let mut out: Vec<Vec<char>> = Vec::new();
    let mut rest: &[char] = s;
    assert(texts(out@) + pieces(s@, c) =~= pieces(s@, c));
    loop
        invariant
            texts(out@) + pieces(rest@, c) == pieces(s@, c),
        decreases rest@.len(),
    {
        let ghost seen = texts(out@);
        let n: usize = rest.len();
        let at: usize = find_char(rest, c);
        let mut piece: Vec<char> = Vec::new();
        piece.extend_from_slice(&rest[0..at]);
        out.push(piece);
        assert(texts(out@) =~= seen.push(piece@));
        if at == n {
            assert(piece@ =~= rest@);
            assert(texts(out@) =~= seen + pieces(rest@, c));
            return out;
        }
        assert(piece@ =~= before(rest@, c));
        assert(rest@.subrange(at + 1, n as int) =~= after(rest@, c));
        assert(texts(out@) + pieces(after(rest@, c), c) =~= seen + pieces(rest@, c));
        rest = &rest[at + 1..n];
    }
}

/// A letter of ASCII in lower case, anything else as it is.
pub open spec fn folded(c: char) -> char {
    if 'A' <= c && c <= 'Z' {
        ((c as u32 + 32) as u32) as char
    } else {
        c
    }
}

/// Equal but for the case of ASCII letters.
pub open spec fn same_folded(a: Seq<char>, b: Seq<char>) -> bool {
    a.len() == b.len() && forall|i: int| 0 <= i < a.len() ==> folded(#[trigger] a[i]) == folded(b[i])
}

fn fold(c: char) -> (n: u32)
    ensures
        n == folded(c) as u32,
{
    let n: u32 = c as u32;
    if 65 <= n && n <= 90 {
        n + 32
    } else {
        n
    }
}

pub fn eq_ignore_ascii_case(a: &[char], b: &[char]) -> (r: bool)
    ensures
        r == same_folded(a@, b@),
{
    if a.len() != b.len() {
        return false;
    }
    for i in 0..a.len()
        invariant
            a@.len() == b@.len(),
            forall|j: int| 0 <= j < i ==> folded(#[trigger] a@[j]) == folded(b@[j]),
    {
        if fold(a[i]) != fold(b[i]) {
            assert(folded(a@[i as int]) != folded(b@[i as int]));
            return false;
        }
    }
    true
}

pub fn eq_chars(a: &[char], b: &[char]) -> (r: bool)
    ensures
        r == (a@ == b@),
{
    if a.len() != b.len() {
        return false;
    }
    for i in 0..a.len()
        invariant
            a@.len() == b@.len(),
            forall|j: int| 0 <= j < i ==> #[trigger] a@[j] == b@[j],
    {
        if a[i] != b[i] {
            return false;
        }
    }
    assert(a@ =~= b@);
    true
}

/// Whether every character is a decimal digit.
pub open spec fn all_digits(s: Seq<char>) -> bool {
    forall|i: int| 0 <= i < s.len() ==> '0' <= #[trigger] s[i] && s[i] <= '9'
}

/// The number that decimal digits stand for.
pub open spec fn digits_value(s: Seq<char>) -> int
    decreases s.len(),
{
    if s.len() == 0 {
        0
    } else {
        digits_value(s.drop_last()) * 10 + (s.last() as u32 - 48)
    }
}

/// The digits of a number: what follows a leading plus sign, if there is one.
pub open spec fn unsigned_part(s: Seq<char>) -> Seq<char> {
    if s.len() > 0 && s[0] == '+' {
        s.skip(1)
    } else {
        s
    }
}

/// A number of at most `max` in decimal, with an optional plus sign.
pub open spec fn number_in(s: Seq<char>, max: int) -> Option<int> {
    let d = unsigned_part(s);
    if d.len() > 0 && all_digits(d) && digits_value(d) <= max {
        Some(digits_value(d))
    } else {
        None
    }
}

proof fn lemma_digits_value(s: Seq<char>, k: int)
    requires
        all_digits(s),
        0 <= k <= s.len(),
    ensures
        0 <= digits_value(s.take(k)) <= digits_value(s),
    decreases s.len() - k,
{
    if k < s.len() {
        lemma_digits_value(s, k + 1);
        assert(s.take(k + 1).drop_last() =~= s.take(k));
        lemma_digits_nonneg(s.take(k));
        assert('0' <= s[k] && s[k] <= '9');
    } else {
        assert(s.take(k) =~= s);
        lemma_digits_nonneg(s);
    }
}

proof fn lemma_digits_nonneg(s: Seq<char>)
    requires
        all_digits(s),
    ensures
        0 <= digits_value(s),
    decreases s.len(),
{
    if s.len() > 0 {
        assert(all_digits(s.drop_last())) by {
            assert forall|i: int| 0 <= i < s.len() - 1 implies '0' <= #[trigger] s.drop_last()[i]
                && s.drop_last()[i] <= '9' by {
                assert(s.drop_last()[i] == s[i]);
            }
        }
        lemma_digits_nonneg(s.drop_last());
        assert('0' <= s[s.len() - 1]);
    }
}

pub fn parse_number(s: &[char], max: u32) -> (r: Option<u32>)
    ensures
        match r {
            Some(n) => number_in(s@, max as int) == Some(n as int),
            None => number_in(s@, max as int) is None,
        },
{
    let n: usize = s.len();
    let start: usize = if n > 0 && s[0] == '+' {
        1
    } else {
        0
    };
    let ghost d = unsigned_part(s@);
    assert(d =~= s@.skip(start as int));
    if start == n {
        return None;
    }
    let mut value: u64 = 0;
    let mut i: usize = start;
    while i < n
        invariant
            n == s@.len(),
            start <= i <= n,
            d == s@.skip(start as int),
            d == unsigned_part(s@),
            forall|j: int| 0 <= j < i - start ==> '0' <= #[trigger] d[j] && d[j] <= '9',
            value == digits_value(d.take(i - start)),
            value <= max,
        decreases n - i,
    {
        let ch: char = s[i];
        assert(d[i - start] == ch);
        if ch < '0' || ch > '9' {
            return None;
        }
        let c: u32 = ch as u32;
        value = value * 10 + (c - 48) as u64;
        proof {
            assert(d.take(i + 1 - start).drop_last() =~= d.take(i - start));
            assert(d.take(i + 1 - start).last() == s@[i as int]);
        }
        if value > max as u64 {
            proof {
                if all_digits(d) {
                    lemma_digits_value(d, i + 1 - start);
                }
            }
            return None;
        }
        i = i + 1;
    }
    assert(d.take(n - start) =~= d);
    Some(value as u32)
}

/// The decimal digit for a value below ten.
pub open spec fn digit_char(n: int) -> char {
    ((n + 48) as u32) as char
}

/// A number in decimal.
pub open spec fn decimal(n: nat) -> Seq<char>
    decreases n,
{
    if n < 10 {
        seq![digit_char(n as int)]
    } else {
        decimal(n / 10).push(digit_char((n % 10) as int))
    }
}

/// Append a number in decimal.
pub fn push_decimal(out: &mut String, n: u64)
    ensures
        final(out)@ == old(out)@ + decimal(n as nat),
    decreases n,
{
    if n >= 10 {
        push_decimal(out, n / 10);
    }
    let d: u8 = (48 + n % 10) as u8;
    out.push(d as char);
    assert(out@ =~= old(out)@ + decimal(n as nat));
}

/// Reading a number back from its decimal form gives the number.
pub proof fn lemma_decimal_reads_back(n: nat)
    ensures
        all_digits(decimal(n)),
        decimal(n).len() > 0,
        digits_value(decimal(n)) == n,
        number_in(decimal(n), n as int) == Some(n as int),
    decreases n,
{
    let last: char = digit_char((n % 10) as int);
    assert(last as u32 == n % 10 + 48);
    if n >= 10 {
        lemma_decimal_reads_back(n / 10);
        assert(decimal(n).drop_last() =~= decimal(n / 10));
    } else {
        assert(decimal(n).drop_last() =~= Seq::<char>::empty());
    }
    assert(decimal(n).last() == last);
    assert(digits_value(decimal(n)) == digits_value(decimal(n).drop_last()) * 10 + n % 10);
    assert(decimal(n)[0] != '+') by {
        assert('0' <= decimal(n)[0]);
    }
}

/// Append a copy of some characters.
pub fn push_text(out: &mut String, s: &str)
    ensures
        final(out)@ == old(out)@ + s@,
{
    out.append(s);
}

/// Of the ASCII characters the space and the five controls from tab to carriage return
/// are white.
pub proof fn lemma_ascii_white(c: char)
    requires
        (c as u32) < 128,
    ensures
        is_white(c) <==> c as u32 == 32 || 9 <= c as u32 <= 13,
{
}

/// Whether every character is white.
pub open spec fn all_white(s: Seq<char>) -> bool {
    forall|i: int| 0 <= i < s.len() ==> is_white(#[trigger] s[i])
}

/// Whether text neither begins nor ends in a white character.
pub open spec fn bare(s: Seq<char>) -> bool {
    s.len() > 0 ==> !is_white(s[0]) && !is_white(s.last())
}

proof fn lemma_white_run(s: Seq<char>, i: int, n: int)
    requires
        0 <= i <= n <= s.len(),
        forall|j: int| i <= j < n ==> is_white(#[trigger] s[j]),
        n < s.len() ==> !is_white(s[n]),
    ensures
        white_run(s, i) == n - i,
    decreases n - i,
{
    if i < n {
        assert(is_white(s[i]));
        lemma_white_run(s, i + 1, n);
    }
}

proof fn lemma_word_run(s: Seq<char>, i: int, n: int)
    requires
        0 <= i <= n <= s.len(),
        forall|j: int| i <= j < n ==> !is_white(#[trigger] s[j]),
        n < s.len() ==> is_white(s[n]),
    ensures
        word_run(s, i) == n - i,
    decreases n - i,
{
    if i < n {
        assert(!is_white(s[i]));
        lemma_word_run(s, i + 1, n);
    }
}

/// Trimming the end takes the white characters there, and nothing else.
pub proof fn lemma_end_is_trimmed(core: Seq<char>, tail: Seq<char>)
    requires
        all_white(tail),
        core.len() > 0 ==> !is_white(core.last()),
    ensures
        trimmed_end(core + tail) == core,
    decreases tail.len(),
{
    let s = core + tail;
    if tail.len() == 0 {
        assert(s =~= core);
    } else {
        let t = tail.drop_last();
        assert forall|i: int| 0 <= i < t.len() implies is_white(#[trigger] t[i]) by {
            assert(t[i] == tail[i]);
        }
        assert(is_white(tail[tail.len() - 1]));
        assert(s.last() == tail.last());
        assert(s.drop_last() =~= core + t);
        lemma_end_is_trimmed(core, t);
    }
}

/// Trimming takes the white characters at either end, and nothing else.
pub proof fn lemma_ends_are_trimmed(lead: Seq<char>, core: Seq<char>, tail: Seq<char>)
    requires
        all_white(lead),
        bare(core),
        all_white(tail),
    ensures
        trimmed(lead + core + tail) == core,
{
    let s = lead + core + tail;
    if core.len() == 0 {
        assert forall|j: int| 0 <= j < s.len() implies is_white(#[trigger] s[j]) by {
            if j < lead.len() {
                assert(s[j] == lead[j]);
            } else {
                assert(s[j] == tail[j - lead.len()]);
            }
        }
        lemma_white_run(s, 0, s.len() as int);
        assert(trimmed_start(s) =~= seq![]);
    } else {
        let n = lead.len() as int;
        assert forall|j: int| 0 <= j < n implies is_white(#[trigger] s[j]) by {
            assert(s[j] == lead[j]);
        }
        assert(s[n] == core[0]);
        lemma_white_run(s, 0, n);
        assert(trimmed_start(s) =~= core + tail);
        lemma_end_is_trimmed(core, tail);
    }
}

/// The first word is what stands before the next white character, once those before it
/// are passed over; the rest follows it.
pub proof fn lemma_first_word_is_taken(lead: Seq<char>, word: Seq<char>, rest: Seq<char>)
    requires
        all_white(lead),
        word.len() > 0,
        forall|i: int| 0 <= i < word.len() ==> !is_white(#[trigger] word[i]),
        rest.len() > 0 ==> is_white(rest[0]),
    ensures
        first_word(lead + word + rest) == word,
        after_word(lead + word + rest) == rest,
{
    let s = lead + word + rest;
    let n = lead.len() as int;
    assert forall|j: int| 0 <= j < n implies is_white(#[trigger] s[j]) by {
        assert(s[j] == lead[j]);
    }
    assert(s[n] == word[0]);
    lemma_white_run(s, 0, n);
    let t = word + rest;
    assert(trimmed_start(s) =~= t);
    assert forall|j: int| 0 <= j < word.len() implies !is_white(#[trigger] t[j]) by {
        assert(t[j] == word[j]);
    }
    lemma_word_run(t, 0, word.len() as int);
    assert(t.take(word.len() as int) =~= word);
    assert(t.skip(word.len() as int) =~= rest);
}

/// Text is cut at the first of a character: what is before it is before it, what is
/// after it is after it, and without one everything is before it.
pub proof fn lemma_text_is_cut(a: Seq<char>, c: char, b: Seq<char>)
    requires
        !a.contains(c),
    ensures
        before(a + seq![c] + b, c) == a,
        after(a + seq![c] + b, c) == b,
        before(a, c) == a,
        pieces(a + seq![c] + b, c) == seq![a] + pieces(b, c),
        pieces(a, c) == seq![a],
{
    let s = a + seq![c] + b;
    let n = a.len() as int;
    lemma_next_char(s, c, 0);
    let k = next_char(s, c, 0);
    assert(s[n] == c);
    assert(s.contains(c));
    if k < n {
        assert(s[k] == a[k]);
        assert(a.contains(c));
    }
    assert(k == n);
    assert(s.take(n) =~= a);
    assert(s.skip(n + 1) =~= b);
    lemma_next_char(a, c, 0);
    let j = next_char(a, c, 0);
    if j < a.len() {
        assert(a[j] == c);
        assert(a.contains(c));
    }
    assert(a.take(j) =~= a);
}

/// Whether two characters are the same but for the case of an ASCII letter.
pub open spec fn same_letter(a: char, b: char) -> bool {
    let (m, n) = (a as u32 as int, b as u32 as int);
    m == n || 65 <= m <= 90 && n == m + 32 || 65 <= n <= 90 && m == n + 32
}

/// Texts count as the same where they differ in the case of ASCII letters only.
pub proof fn lemma_case_does_not_count(a: Seq<char>, b: Seq<char>)
    ensures
        same_folded(a, b) <==> a.len() == b.len() && forall|i: int|
            0 <= i < a.len() ==> same_letter(#[trigger] a[i], b[i]),
{
    assert forall|c: char, d: char| #[trigger] same_letter(c, d) <==> folded(c) == folded(d) by {
        lemma_char_code(c);
        lemma_char_code(d);
        lemma_folded_code(c);
        lemma_folded_code(d);
        if folded(c) as u32 == folded(d) as u32 {
            assert(folded(c) == folded(d));
        }
        if c as u32 == d as u32 {
            assert(c == d);
        }
    }
    if same_folded(a, b) {
        assert forall|i: int| 0 <= i < a.len() implies same_letter(#[trigger] a[i], b[i]) by {
            assert(folded(a[i]) == folded(b[i]));
        }
    }
    if a.len() == b.len() && forall|i: int|
        0 <= i < a.len() ==> same_letter(#[trigger] a[i], b[i]) {
        assert forall|i: int| 0 <= i < a.len() implies folded(#[trigger] a[i]) == folded(b[i]) by {
            assert(same_letter(a[i], b[i]));
        }
    }
}

proof fn lemma_folded_code(c: char)
    ensures
        folded(c) as u32 == (if 65 <= c as u32 <= 90 {
            c as u32 + 32
        } else {
            c as u32 as int
        }),
{
    let n = c as u32;
    if 'A' <= c && c <= 'Z' {
        let d: char = ((n + 32) as u32) as char;
        assert(d as u32 == n + 32);
    }
}

/// Every digit of a number in decimal stands for its power of ten, and there is none
/// too many.
pub proof fn lemma_decimal_digit_by_digit(n: nat, i: int)
    requires
        0 <= i < decimal(n).len(),
    ensures
        decimal(n)[decimal(n).len() - 1 - i] as u32 == 48 + n as int / pow(10, i as nat) % 10,
        n > 0 ==> decimal(n)[0] as u32 != 48,
        n < pow(10, decimal(n).len()),
    decreases n,
{
    let last: char = digit_char((n % 10) as int);
    assert(last as u32 == n % 10 + 48);
    reveal(pow);
    vstd::arithmetic::power::lemma_pow0(10);
    vstd::arithmetic::power::lemma_pow1(10);
    if n >= 10 {
        let m = n / 10;
        let front = decimal(m);
        lemma_decimal_reads_back(m);
        if i > 0 {
            lemma_decimal_digit_by_digit(m, i - 1);
            let p = pow(10, (i - 1) as nat);
            vstd::arithmetic::power::lemma_pow_positive(10, (i - 1) as nat);
            assert(pow(10, i as nat) == 10 * p);
            vstd::arithmetic::div_mod::lemma_div_denominator(n as int, 10, p);
            assert(decimal(n)[decimal(n).len() - 1 - i] == front[front.len() - 1 - (i - 1)]);
        } else {
            lemma_decimal_digit_by_digit(m, 0);
            assert(n as int / 1 == n);
        }
        let q = pow(10, front.len());
        assert(pow(10, decimal(n).len()) == 10 * q);
        assert(decimal(n)[0] == front[0]);
    } else {
        assert(i == 0);
        assert(n as int / 1 == n);
    }
}

/// A number is read digit by digit: one digit is its own number, a further one makes
/// ten times as much and itself, a plus sign before them makes no difference, and what
/// is too large or has anything else in it is no number.
pub proof fn lemma_number_is_read(s: Seq<char>, c: char, max: int, i: int)
    requires
        s.len() > 0,
        s[0] != '+',
    ensures
        ({
            let d = c as u32 as int - 48;
            let one = seq![c];
            let more = s.push(c);
            &&& 0 <= d <= 9 && d <= max ==> number_in(one, max) == Some(d)
            &&& 0 <= d <= 9 && number_in(s, max) is Some && number_in(s, max)->0 * 10 + d <= max
                ==> number_in(more, max) == Some(number_in(s, max)->0 * 10 + d)
            &&& 0 <= d <= 9 && number_in(s, max) is Some && number_in(s, max)->0 * 10 + d > max
                ==> number_in(more, max) is None
            &&& number_in(seq!['+'] + s, max) == number_in(s, max)
            &&& 0 <= i < s.len() && !(48 <= s[i] as u32 <= 57) ==> number_in(s, max) is None
        }),
{
    let d = c as u32 as int - 48;
    let one = seq![c];
    let more = s.push(c);
    let plus = seq!['+'] + s;
    reveal_with_fuel(digits_value, 2);
    assert(one.drop_last() =~= seq![]);
    assert(more.drop_last() =~= s);
    assert(plus.skip(1) =~= s);
    assert(more[0] == s[0]);
    if 0 <= d <= 9 {
        assert('0' <= c && c <= '9');
        assert(one[0] == c);
        assert(all_digits(one));
        if number_in(s, max) is Some {
            assert(all_digits(more)) by {
                assert forall|j: int| 0 <= j < more.len() implies '0' <= #[trigger] more[j]
                    && more[j] <= '9' by {
                    if j < s.len() {
                        assert(more[j] == s[j]);
                    }
                }
            }
        }
    }
    if 0 <= i < s.len() && !(48 <= s[i] as u32 <= 57) {
        assert(!('0' <= s[i] && s[i] <= '9'));
    }
}

/// The white characters, by their codes.
pub proof fn lemma_white_characters(c: char)
    ensures
        is_white(c) <==> seq![
            0x09int, 0x0a, 0x0b, 0x0c, 0x0d, 0x20, 0x85, 0xa0, 0x1680, 0x2000, 0x2001, 0x2002,
            0x2003, 0x2004, 0x2005, 0x2006, 0x2007, 0x2008, 0x2009, 0x200a, 0x2028, 0x2029, 0x202f,
            0x205f, 0x3000,
        ].contains(c as u32 as int),
{
    let n = c as u32 as int;
    let list = seq![
        0x09int, 0x0a, 0x0b, 0x0c, 0x0d, 0x20, 0x85, 0xa0, 0x1680, 0x2000, 0x2001, 0x2002, 0x2003,
        0x2004, 0x2005, 0x2006, 0x2007, 0x2008, 0x2009, 0x200a, 0x2028, 0x2029, 0x202f, 0x205f,
        0x3000,
    ];
    if 9 <= n <= 13 {
        assert(list[n - 9] == n);
    } else if 0x2000 <= n <= 0x200a {
        assert(list[n - 0x2000 + 9] == n);
    }
    assert(list[5] == 0x20 && list[6] == 0x85 && list[7] == 0xa0 && list[8] == 0x1680);
    assert(list[20] == 0x2028 && list[21] == 0x2029 && list[22] == 0x202f && list[23] == 0x205f);
    assert(list[24] == 0x3000);
}

} // verus!
