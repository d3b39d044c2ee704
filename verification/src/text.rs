//! Character-level building blocks: decimal rendering and parsing,
//! padding, whitespace trimming and joining.
use vstd::prelude::*;

verus! {

/// The ASCII digit for a value below ten.
pub open spec fn digit_char(d: nat) -> char {
    (48 + d) as char
}

/// Whether `c` is an ASCII decimal digit.
pub open spec fn is_digit(c: char) -> bool {
    '0' <= c && c <= '9'
}

/// The value of an ASCII digit.
pub open spec fn digit_value(c: char) -> nat {
    (c as int - 48) as nat
}

/// The shortest decimal rendering of `n`, as `Display` prints an unsigned integer.
pub open spec fn dec(n: nat) -> Seq<char>
    decreases n,
{
    if n < 10 {
        seq![digit_char(n)]
    } else {
        dec(n / 10).push(digit_char(n % 10))
    }
}

/// `n` copies of the character `c`.
pub open spec fn repeat_char(c: char, n: nat) -> Seq<char>
    decreases n,
{
    if n == 0 {
        Seq::empty()
    } else {
        repeat_char(c, (n - 1) as nat).push(c)
    }
}

/// Right-aligns `s` in a field of `width` characters filled with `fill` (`{:fill>width}`).
pub open spec fn pad_left(s: Seq<char>, fill: char, width: nat) -> Seq<char> {
    if s.len() < width {
        repeat_char(fill, (width - s.len()) as nat) + s
    } else {
        s
    }
}

/// Left-aligns `s` in a field of `width` characters filled with spaces (`{:width$}`).
pub open spec fn pad_right(s: Seq<char>, width: nat) -> Seq<char> {
    if s.len() < width {
        s + repeat_char(' ', (width - s.len()) as nat)
    } else {
        s
    }
}

/// The two-digit zero-padded rendering of `n` (`{:0>2}`).
pub open spec fn dec2(n: nat) -> Seq<char> {
    pad_left(dec(n), '0', 2)
}

/// The value of a sequence of ASCII digits, most significant first.
pub open spec fn digits_value(s: Seq<char>) -> nat
    decreases s.len(),
{
    if s.len() == 0 {
        0
    } else {
        digits_value(s.drop_last()) * 10 + digit_value(s.last())
    }
}

/// Whether every character of `s` is an ASCII digit.
pub open spec fn all_digits(s: Seq<char>) -> bool {
    forall|i: int| 0 <= i < s.len() ==> is_digit(#[trigger] s[i])
}

/// The digits part of an unsigned integer literal as `str::parse` reads it:
/// one optional leading `+` is dropped.
pub open spec fn unsigned_body(s: Seq<char>) -> Seq<char> {
    if s.len() > 0 && s[0] == '+' {
        s.drop_first()
    } else {
        s
    }
}

/// What `str::parse` gives for an unsigned integer type whose largest value is `max`:
/// the value of the digits, or `None` where the text is empty, holds a non-digit,
/// or names a value above `max`.
pub open spec fn parse_unsigned(s: Seq<char>, max: nat) -> Option<nat> {
    let b = unsigned_body(s);
    if b.len() > 0 && all_digits(b) && digits_value(b) <= max {
        Some(digits_value(b))
    } else {
        None
    }
}

/// Whether `c` has the Unicode `White_Space` property, as `char::is_whitespace` decides it.
pub open spec fn is_ws(c: char) -> bool {
    ||| ('\u{9}' <= c && c <= '\u{d}')
    ||| c == ' '
    ||| c == '\u{85}'
    ||| c == '\u{a0}'
    ||| c == '\u{1680}'
    ||| ('\u{2000}' <= c && c <= '\u{200a}')
    ||| c == '\u{2028}'
    ||| c == '\u{2029}'
    ||| c == '\u{202f}'
    ||| c == '\u{205f}'
    ||| c == '\u{3000}'
}

/// `s` without its leading whitespace.
pub open spec fn trim_start(s: Seq<char>) -> Seq<char>
    decreases s.len(),
{
    if s.len() > 0 && is_ws(s[0]) {
        trim_start(s.drop_first())
    } else {
        s
    }
}

/// `s` without its trailing whitespace.
pub open spec fn trim_end(s: Seq<char>) -> Seq<char>
    decreases s.len(),
{
    if s.len() > 0 && is_ws(s.last()) {
        trim_end(s.drop_last())
    } else {
        s
    }
}

/// `s` without leading and trailing whitespace, as `str::trim` gives it.
pub open spec fn trim(s: Seq<char>) -> Seq<char> {
    trim_end(trim_start(s))
}

/// The items of `parts` separated by `sep`, as `[String]::join` gives them.
pub open spec fn join(parts: Seq<Seq<char>>, sep: Seq<char>) -> Seq<char>
    decreases parts.len(),
{
    if parts.len() == 0 {
        Seq::empty()
    } else if parts.len() == 1 {
        parts[0]
    } else {
        join(parts.drop_last(), sep) + sep + parts.last()
    }
}

/// Appends one character to a string.
#[verifier::external_body]
pub(crate) fn push_char(s: &mut String, c: char)
    ensures
        final(s)@ == old(s)@.push(c),
{
    s.push(c);
}

/// Appends `n` copies of `c` to a string.
pub fn push_repeat(s: &mut String, c: char, n: usize)
    ensures
        final(s)@ == old(s)@ + repeat_char(c, n as nat),
{
    let mut i: usize = 0;
    while i < n
        invariant
            i <= n,
            s@ == old(s)@ + repeat_char(c, i as nat),
        decreases n - i,
    {
        push_char(s, c);
        i = i + 1;
        assert(repeat_char(c, i as nat) == repeat_char(c, (i - 1) as nat).push(c));
    }
}

proof fn lemma_dec_nonempty(n: nat)
    ensures
        dec(n).len() >= 1,
    decreases n,
{
    if n >= 10 {
        lemma_dec_nonempty(n / 10);
    }
}

/// The decimal rendering of `n` is all digits and reads back as `n`.
pub proof fn lemma_dec_reads_back(n: nat)
    ensures
        dec(n).len() >= 1,
        all_digits(dec(n)),
        digits_value(dec(n)) == n,
    decreases n,
{
    let d = n % 10;
    assert(digit_char(d) as int == 48 + d);
    assert(digit_value(digit_char(d)) == d);
    if n >= 10 {
        lemma_dec_reads_back(n / 10);
        let s = dec(n);
        assert(s.drop_last() =~= dec(n / 10));
        assert(s.last() == digit_char(d));
        assert(digits_value(s) == digits_value(s.drop_last()) * 10 + digit_value(s.last()));
        assert(digits_value(s.drop_last()) == n / 10);
        assert((n / 10) * 10 + d == n);
    } else {
        let s = dec(n);
        assert(s.drop_last() =~= Seq::<char>::empty());
        assert(digits_value(s) == digits_value(s.drop_last()) * 10 + digit_value(s.last()));
        assert(d == n);
    }
}

proof fn lemma_digits_value_zero_prefix(s: Seq<char>)
    ensures
        digits_value(seq!['0'] + s) == digits_value(s),
    decreases s.len(),
{
    let t = seq!['0'] + s;
    if s.len() > 0 {
        lemma_digits_value_zero_prefix(s.drop_last());
        assert(t.drop_last() =~= seq!['0'] + s.drop_last());
        assert(t.last() == s.last());
    } else {
        assert(t.drop_last() =~= Seq::<char>::empty());
        assert(t.last() == '0');
        assert(digit_value('0') == 0);
        assert(s =~= Seq::<char>::empty());
    }
}

/// The two-digit rendering of `n` parses back as `n`.
pub proof fn lemma_dec2_parses(n: nat, max: nat)
    requires
        n <= max,
    ensures
        parse_unsigned(dec2(n), max) == Some(n),
{
    lemma_dec_reads_back(n);
    let d = dec(n);
    if d.len() < 2 {
        reveal_with_fuel(repeat_char, 2);
        assert(repeat_char('0', 1) =~= seq!['0']);
        assert(dec2(n) =~= seq!['0'] + d);
        lemma_digits_value_zero_prefix(d);
    }
    assert(dec2(n)[0] != '+');
}

/// The two-digit rendering of a number below a hundred has exactly two digits.
pub proof fn lemma_dec2_len(n: nat)
    requires
        n < 100,
    ensures
        dec2(n).len() == 2,
{
    reveal_with_fuel(dec, 2);
    reveal_with_fuel(repeat_char, 2);
    if n < 10 {
        assert(dec(n).len() == 1);
        assert(repeat_char('0', 1).len() == 1);
    } else {
        assert(dec(n / 10).len() == 1);
    }
}

/// The decimal rendering of `n` parses back as `n`.
pub proof fn lemma_dec_parses(n: nat, max: nat)
    requires
        n <= max,
    ensures
        parse_unsigned(dec(n), max) == Some(n),
{
    lemma_dec_reads_back(n);
    assert(dec(n)[0] != '+');
}

/// The decimal rendering of `n`.
pub fn u64_to_dec(n: u64) -> (s: String)
    ensures
        s@ == dec(n as nat),
{
    // Collect the digits least significant first.
    let mut digits: Vec<char> = Vec::new();
    let mut m: u64 = n;
    let ghost mut rest: Seq<char> = Seq::empty();
    loop
        invariant_except_break
            dec(n as nat) == dec(m as nat) + rest,
        invariant
            digits@ == rest.reverse(),
        ensures
            dec(n as nat) =~= rest,
        decreases m,
    {
        let d = m % 10;
        let c = char_of_digit(d);
        proof {
            rest = seq![c] + rest;
            assert(digits@.push(c) =~= rest.reverse());
        }
        digits.push(c);
        if m < 10 {
            assert(dec(m as nat) == seq![c]);
            assert(dec(n as nat) =~= rest);
            break;
        }
        assert(dec(m as nat) == dec((m / 10) as nat).push(c));
        assert(dec((m / 10) as nat).push(c) + rest.drop_first() =~= dec((m / 10) as nat) + rest);
        m = m / 10;
    }
    assert(dec(n as nat) =~= rest);
    let mut s = String::new();
    let mut i: usize = digits.len();
    while i > 0
        invariant
            i <= digits.len(),
            digits@ == rest.reverse(),
            s@ =~= rest.subrange(0, (digits.len() - i) as int),
        decreases i,
    {
        i = i - 1;
        let c = digits[i];
        assert(c == rest[(digits.len() - 1 - i) as int]);
        push_char(&mut s, c);
        assert(s@ =~= rest.subrange(0, (digits.len() - i) as int));
    }
    s
}

/// The ASCII digit for a value below ten.
fn char_of_digit(d: u64) -> (c: char)
    requires
        d < 10,
    ensures
        c == digit_char(d as nat),
{
    if d == 0 {
        '0'
    } else if d == 1 {
        '1'
    } else if d == 2 {
        '2'
    } else if d == 3 {
        '3'
    } else if d == 4 {
        '4'
    } else if d == 5 {
        '5'
    } else if d == 6 {
        '6'
    } else if d == 7 {
        '7'
    } else if d == 8 {
        '8'
    } else {
        '9'
    }
}

/// The decimal rendering of `n`, zero-padded on the left to two characters.
pub fn u64_to_dec2(n: u64) -> (s: String)
    ensures
        s@ == dec2(n as nat),
{
    let d = u64_to_dec(n);
    proof {
        lemma_dec_nonempty(n as nat);
    }
    if n < 10 {
        assert(d@.len() == 1);
        let mut s = String::new();
        push_char(&mut s, '0');
        s.append(d.as_str());
        assert(repeat_char('0', 0) =~= Seq::<char>::empty());
        reveal_with_fuel(repeat_char, 2);
        assert(repeat_char('0', 1) =~= seq!['0']);
        s
    } else {
        proof {
            lemma_dec_nonempty(n as nat / 10);
        }
        assert(d@.len() >= 2);
        d
    }
}

/// Whether `c` has the Unicode `White_Space` property.
pub fn is_ws_char(c: char) -> (b: bool)
    ensures
        b == is_ws(c),
{
    ('\u{9}' <= c && c <= '\u{d}') || c == ' ' || c == '\u{85}' || c == '\u{a0}' || c == '\u{1680}'
        || ('\u{2000}' <= c && c <= '\u{200a}') || c == '\u{2028}' || c == '\u{2029}'
        || c == '\u{202f}' || c == '\u{205f}' || c == '\u{3000}'
}

proof fn lemma_trim_start(s: Seq<char>, k: int)
    requires
        0 <= k <= s.len(),
        forall|i: int| 0 <= i < k ==> is_ws(#[trigger] s[i]),
        k == s.len() || !is_ws(s[k]),
    ensures
        trim_start(s) == s.subrange(k, s.len() as int),
    decreases k,
{
    if k == 0 {
        assert(s.subrange(0, s.len() as int) =~= s);
    } else {
        let t = s.drop_first();
        assert forall|i: int| 0 <= i < k - 1 implies is_ws(#[trigger] t[i]) by {
            assert(t[i] == s[i + 1]);
        }
        if k - 1 < t.len() {
            assert(t[k - 1] == s[k]);
        }
        lemma_trim_start(t, k - 1);
        assert(t.subrange(k - 1, t.len() as int) =~= s.subrange(k, s.len() as int));
    }
}

proof fn lemma_trim_end(s: Seq<char>, k: int)
    requires
        0 <= k <= s.len(),
        forall|i: int| k <= i < s.len() ==> is_ws(#[trigger] s[i]),
        k == 0 || !is_ws(s[k - 1]),
    ensures
        trim_end(s) == s.subrange(0, k),
    decreases s.len() - k,
{
    if k == s.len() {
        assert(s.subrange(0, k) =~= s);
    } else {
        let t = s.drop_last();
        assert forall|i: int| k <= i < t.len() implies is_ws(#[trigger] t[i]) by {
            assert(t[i] == s[i]);
        }
        if k > 0 {
            assert(t[k - 1] == s[k - 1]);
        }
        lemma_trim_end(t, k);
        assert(t.subrange(0, k) =~= s.subrange(0, k));
    }
}

/// `s` without leading and trailing whitespace.
pub fn trim_str(s: &str) -> (r: String)
    ensures
        r@ == trim(s@),
{
    let n = s.unicode_len();
    let mut start: usize = 0;
    while start < n && is_ws_char(s.get_char(start))
        invariant
            n == s@.len(),
            start <= n,
            forall|i: int| 0 <= i < start ==> is_ws(#[trigger] s@[i]),
        decreases n - start,
    {
        start = start + 1;
    }
    proof {
        lemma_trim_start(s@, start as int);
    }
    let ghost t = s@.subrange(start as int, n as int);
    let mut end: usize = n;
    while end > start && is_ws_char(s.get_char(end - 1))
        invariant
            n == s@.len(),
            start <= end <= n,
            t == s@.subrange(start as int, n as int),
            forall|i: int| end - start <= i < t.len() ==> is_ws(#[trigger] t[i]),
        decreases end,
    {
        assert(t[end - 1 - start] == s@[end - 1]);
        end = end - 1;
    }
    proof {
        if end > start {
            assert(t[end - 1 - start] == s@[end - 1]);
        }
        lemma_trim_end(t, end - start);
        assert(t.subrange(0, end - start) =~= s@.subrange(start as int, end as int));
    }
    s.substring_char(start, end).to_owned()
}

pub proof fn lemma_join_push(parts: Seq<Seq<char>>, sep: Seq<char>, x: Seq<char>)
    ensures
        join(parts.push(x), sep) == if parts.len() == 0 {
            x
        } else {
            join(parts, sep) + sep + x
        },
{
    assert(parts.push(x).drop_last() =~= parts);
    if parts.len() == 0 {
        assert(parts.push(x)[0] == x);
    }
}

/// Joins the strings in `parts` with `sep` between neighbours.
pub fn join_strings(parts: &Vec<String>, sep: &str) -> (r: String)
    ensures
        r@ == join(parts@.map_values(|p: String| p@), sep@),
{
    let ghost v = parts@.map_values(|p: String| p@);
    let mut r = String::new();
    let mut i: usize = 0;
    while i < parts.len()
        invariant
            i <= parts.len(),
            v == parts@.map_values(|p: String| p@),
            r@ == join(v.take(i as int), sep@),
        decreases parts.len() - i,
    {
        proof {
            lemma_join_push(v.take(i as int), sep@, v[i as int]);
            assert(v.take(i as int).push(v[i as int]) =~= v.take(i + 1));
        }
        if i > 0 {
            r.append(sep);
        }
        r.append(parts[i].as_str());
        i = i + 1;
    }
    assert(v.take(parts.len() as int) =~= v);
    r
}


/// The pieces of `s` between occurrences of `c`, as `str::split` with a
/// character gives them: an empty text gives one empty piece.
pub open spec fn split_on(s: Seq<char>, c: char) -> Seq<Seq<char>>
    decreases s.len(),
{
    if s.len() == 0 {
        seq![Seq::empty()]
    } else {
        let rest = split_on(s.drop_last(), c);
        if s.last() == c {
            rest.push(Seq::empty())
        } else {
            rest.update(rest.len() - 1, rest.last().push(s.last()))
        }
    }
}

pub proof fn lemma_split_on_nonempty(s: Seq<char>, c: char)
    ensures
        split_on(s, c).len() >= 1,
    decreases s.len(),
{
    if s.len() > 0 {
        lemma_split_on_nonempty(s.drop_last(), c);
    }
}

/// Splits `s` at every occurrence of `c`.
pub fn split_char(s: &str, c: char) -> (parts: Vec<String>)
    ensures
        parts@.map_values(|p: String| p@) == split_on(s@, c),
{
    let n = s.unicode_len();
    let mut parts: Vec<String> = Vec::new();
    let mut cur = String::new();
    let mut i: usize = 0;
    while i < n
        invariant
            n == s@.len(),
            i <= n,
            parts@.map_values(|p: String| p@).push(cur@) == split_on(s@.take(i as int), c),
        decreases n - i,
    {
        let ch = s.get_char(i);
        proof {
            lemma_split_on_nonempty(s@.take(i as int), c);
            assert(s@.take(i + 1).drop_last() =~= s@.take(i as int));
            assert(s@.take(i + 1).last() == ch);
        }
        let ghost before = parts@.map_values(|p: String| p@);
        if ch == c {
            let done = cur;
            parts.push(done);
            cur = String::new();
            assert(parts@.map_values(|p: String| p@) =~= before.push(done@));
        } else {
            push_char(&mut cur, ch);
            assert(parts@.map_values(|p: String| p@) =~= before);
        }
        assert(parts@.map_values(|p: String| p@).push(cur@) =~= split_on(s@.take(i + 1), c));
        i = i + 1;
    }
    assert(s@.take(n as int) =~= s@);
    parts.push(cur);
    assert(parts@.map_values(|p: String| p@) =~= split_on(s@, c));
    parts
}

/// The words of `s`: its longest runs of non-whitespace characters, as
/// `str::split_whitespace` gives them.
pub open spec fn words(s: Seq<char>) -> Seq<Seq<char>>
    decreases s.len(),
{
    if s.len() == 0 {
        Seq::empty()
    } else {
        let w = words(s.drop_last());
        if is_ws(s.last()) {
            w
        } else if s.len() >= 2 && !is_ws(s[s.len() - 2]) {
            w.update(w.len() - 1, w.last().push(s.last()))
        } else {
            w.push(seq![s.last()])
        }
    }
}

proof fn lemma_words_open(s: Seq<char>)
    requires
        s.len() > 0,
        !is_ws(s.last()),
    ensures
        words(s).len() > 0,
    decreases s.len(),
{
    if s.len() >= 2 && !is_ws(s[s.len() - 2]) {
        assert(s.drop_last().last() == s[s.len() - 2]);
        lemma_words_open(s.drop_last());
    }
}

/// Splits `s` into its words.
pub fn split_words(s: &str) -> (parts: Vec<String>)
    ensures
        parts@.map_values(|p: String| p@) == words(s@),
{
    let n = s.unicode_len();
    let mut parts: Vec<String> = Vec::new();
    let mut cur = String::new();
    let mut i: usize = 0;
    while i < n
        invariant
            n == s@.len(),
            i <= n,
            cur@.len() == 0 ==> parts@.map_values(|p: String| p@) == words(s@.take(i as int)),
            cur@.len() > 0 ==> parts@.map_values(|p: String| p@).push(cur@) == words(s@.take(i as int)),
            cur@.len() > 0 ==> i > 0 && !is_ws(s@[i - 1]),
            cur@.len() == 0 ==> (i == 0 || is_ws(s@[i - 1])),
        decreases n - i,
    {
        let ch = s.get_char(i);
        let ghost t = s@.take(i + 1);
        proof {
            assert(t.drop_last() =~= s@.take(i as int));
            assert(t.last() == ch);
            if i > 0 {
                assert(t[t.len() - 2] == s@[i - 1]);
            }
        }
        let ghost before = parts@.map_values(|p: String| p@);
        if is_ws_char(ch) {
            if cur.as_str().unicode_len() > 0 {
                let done = cur;
                parts.push(done);
                cur = String::new();
                assert(parts@.map_values(|p: String| p@) =~= before.push(done@));
            }
        } else {
            let ghost old_cur = cur@;
            let open = cur.as_str().unicode_len() > 0;
            if open {
                proof {
                    lemma_words_open(s@.take(i as int));
                }
            }
            push_char(&mut cur, ch);
            assert(parts@.map_values(|p: String| p@) =~= before);
            proof {
                if open {
                    let w = before.push(old_cur);
                    assert(w.update(w.len() - 1, w.last().push(ch)) =~= before.push(cur@));
                } else {
                    assert(cur@ =~= seq![ch]);
                }
            }
        }
        i = i + 1;
    }
    assert(s@.take(n as int) =~= s@);
    if cur.as_str().unicode_len() > 0 {
        let ghost before = parts@.map_values(|p: String| p@);
        parts.push(cur);
        assert(parts@.map_values(|p: String| p@) =~= before.push(cur@));
    }
    parts
}

proof fn lemma_digits_prefix(b: Seq<char>, k: int)
    requires
        0 <= k <= b.len(),
    ensures
        digits_value(b.take(k)) <= digits_value(b),
    decreases b.len() - k,
{
    if k < b.len() {
        lemma_digits_prefix(b, k + 1);
        assert(b.take(k + 1).drop_last() =~= b.take(k));
    } else {
        assert(b.take(k) =~= b);
    }
}

/// Reads an unsigned integer no larger than `max`, as `str::parse` reads it.
pub fn parse_u64_upto(s: &str, max: u64) -> (r: Option<u64>)
    ensures
        match r {
            Some(v) => parse_unsigned(s@, max as nat) == Some(v as nat),
            None => parse_unsigned(s@, max as nat) is None,
        },
{
    let n = s.unicode_len();
    let mut start: usize = 0;
    if n > 0 && s.get_char(0) == '+' {
        start = 1;
    }
    let ghost b = unsigned_body(s@);
    assert(b =~= s@.subrange(start as int, n as int));
    if start == n {
        return None;
    }
    let mut acc: u64 = 0;
    let mut i: usize = start;
    while i < n
        invariant
            n == s@.len(),
            start <= i <= n,
            start < n,
            b == s@.subrange(start as int, n as int),
            b == unsigned_body(s@),
            all_digits(b.take(i - start)),
            acc as nat == digits_value(b.take(i - start)),
            acc <= max,
        decreases n - i,
    {
        let ch = s.get_char(i);
        let ghost k = i - start;
        proof {
            assert(b.take(k + 1).drop_last() =~= b.take(k));
            assert(b.take(k + 1).last() == ch);
        }
        if !('0' <= ch && ch <= '9') {
            assert(b[k] == ch);
            assert(!is_digit(b[k]));
            assert(!all_digits(b));
            assert(unsigned_body(s@) == b);
            assert(parse_unsigned(s@, max as nat) is None);
            return None;
        }
        let d = (ch as u32 - 48) as u64;
        assert(digits_value(b.take(k + 1)) == acc * 10 + d);
        assert(all_digits(b.take(k + 1))) by {
            assert forall|j: int| 0 <= j < k + 1 implies is_digit(#[trigger] b.take(k + 1)[j]) by {
                if j < k {
                    assert(b.take(k + 1)[j] == b.take(k)[j]);
                }
            }
        }
        if (acc as u128) * 10 + (d as u128) > max as u128 {
            proof {
                lemma_digits_prefix(b, k + 1);
                assert(digits_value(b) > max);
                assert(unsigned_body(s@) == b);
            }
            assert(parse_unsigned(s@, max as nat) is None);
            return None;
        }
        acc = acc * 10 + d;
        i = i + 1;
    }
    assert(b.take(n - start) =~= b);
    Some(acc)
}


/// Whether `t` occurs in `s` as a run of consecutive characters.
pub open spec fn contains_text(s: Seq<char>, t: Seq<char>) -> bool {
    exists|i: int| 0 <= i && i + t.len() <= s.len() && #[trigger] s.subrange(i, i + t.len()) == t
}

/// Whether `t` occurs in `s` starting at `i`.
fn occurs_at(s: &str, n: usize, t: &str, m: usize, i: usize) -> (b: bool)
    requires
        n == s@.len(),
        m == t@.len(),
        i + m <= n,
    ensures
        b == (s@.subrange(i as int, i + m) == t@),
{
    let mut j: usize = 0;
    while j < m
        invariant
            n == s@.len(),
            m == t@.len(),
            i + m <= n,
            j <= m,
            forall|k: int| 0 <= k < j ==> s@[i + k] == t@[k],
        decreases m - j,
    {
        if s.get_char(i + j) != t.get_char(j) {
            assert(s@.subrange(i as int, i + m)[j as int] != t@[j as int]);
            return false;
        }
        j = j + 1;
    }
    assert(s@.subrange(i as int, i + m) =~= t@);
    true
}

/// Whether `s` begins with `t`, as `str::starts_with` decides it.
pub fn starts_with_str(s: &str, t: &str) -> (b: bool)
    ensures
        b == (t@.len() <= s@.len() && s@.subrange(0, t@.len() as int) == t@),
{
    let n = s.unicode_len();
    let m = t.unicode_len();
    if m > n {
        return false;
    }
    occurs_at(s, n, t, m, 0)
}

/// Whether `a` comes before `b` in the order of `String`: character by
/// character (by code point), a proper prefix first.
pub open spec fn text_less(a: Seq<char>, b: Seq<char>) -> bool
    decreases a.len(),
{
    if a.len() == 0 {
        b.len() > 0
    } else if b.len() == 0 {
        false
    } else if a[0] != b[0] {
        (a[0] as int) < (b[0] as int)
    } else {
        text_less(a.drop_first(), b.drop_first())
    }
}

/// `text_less` is transitive.
pub proof fn lemma_text_less_transitive(a: Seq<char>, b: Seq<char>, c: Seq<char>)
    requires
        text_less(a, b),
        text_less(b, c),
    ensures
        text_less(a, c),
    decreases a.len(),
{
    if a.len() > 0 && b.len() > 0 && c.len() > 0 && a[0] == b[0] && b[0] == c[0] {
        lemma_text_less_transitive(a.drop_first(), b.drop_first(), c.drop_first());
    }
}

/// `text_less` is irreflexive.
pub proof fn lemma_text_less_irreflexive(a: Seq<char>)
    ensures
        !text_less(a, a),
    decreases a.len(),
{
    if a.len() > 0 {
        lemma_text_less_irreflexive(a.drop_first());
    }
}

proof fn lemma_text_less_skip(a: Seq<char>, b: Seq<char>, i: int)
    requires
        0 <= i < a.len(),
        i < b.len(),
        a[i] == b[i],
    ensures
        text_less(a.skip(i), b.skip(i)) == text_less(a.skip(i + 1), b.skip(i + 1)),
{
    assert(a.skip(i).drop_first() =~= a.skip(i + 1));
    assert(b.skip(i).drop_first() =~= b.skip(i + 1));
}

/// Whether `a` comes before `b` in the order of `String`.
pub fn text_lt(a: &str, b: &str) -> (r: bool)
    ensures
        r == text_less(a@, b@),
{
    let n = a.unicode_len();
    let m = b.unicode_len();
    let mut i: usize = 0;
    assert(a@.skip(0) =~= a@ && b@.skip(0) =~= b@);
    while i < n && i < m
        invariant
            n == a@.len(),
            m == b@.len(),
            i <= n,
            i <= m,
            text_less(a@, b@) == text_less(a@.skip(i as int), b@.skip(i as int)),
        decreases n - i,
    {
        let x = a.get_char(i);
        let y = b.get_char(i);
        if x != y {
            assert(a@.skip(i as int)[0] == x && b@.skip(i as int)[0] == y);
            return (x as u32) < (y as u32);
        }
        proof {
            lemma_text_less_skip(a@, b@, i as int);
        }
        i = i + 1;
    }
    i < m && i == n
}

/// Whether `t` occurs in `s`, as `str::contains` with a string decides it.
pub fn contains_str(s: &str, t: &str) -> (b: bool)
    ensures
        b == contains_text(s@, t@),
{
    let n = s.unicode_len();
    let m = t.unicode_len();
    if m > n {
        return false;
    }
    let last = n - m;
    let mut i: usize = 0;
    loop
        invariant
            n == s@.len(),
            m == t@.len(),
            m <= n,
            last == n - m,
            i <= last,
            forall|k: int| 0 <= k < i ==> #[trigger] s@.subrange(k, k + m) != t@,
        decreases last - i,
    {
        if occurs_at(s, n, t, m, i) {
            return true;
        }
        if i == last {
            return false;
        }
        i = i + 1;
    }
}

/// The lines of `s`, as `str::lines` gives them: split at each `\n`, a `\r`
/// right before a `\n` dropped, and no empty line after a final `\n`.
pub open spec fn lines_of(s: Seq<char>) -> Seq<Seq<char>> {
    let parts = split_on(s, '\n');
    let last = parts.last();
    let ended = parts.drop_last().map_values(|p: Seq<char>| drop_cr(p));
    if last.len() == 0 {
        ended
    } else {
        ended.push(last)
    }
}

/// `p` without one trailing `\r`.
pub open spec fn drop_cr(p: Seq<char>) -> Seq<char> {
    if p.len() > 0 && p.last() == '\r' {
        p.drop_last()
    } else {
        p
    }
}

/// `p` without one trailing carriage return.
fn strip_cr(p: &String) -> (r: String)
    ensures
        r@ == drop_cr(p@),
{
    let n = p.as_str().unicode_len();
    if n > 0 && p.as_str().get_char(n - 1) == '\r' {
        p.as_str().substring_char(0, n - 1).to_owned()
    } else {
        assert(p@.subrange(0, n as int) =~= p@);
        p.clone()
    }
}

/// Splits `s` into its lines.
pub fn split_lines(s: &str) -> (r: Vec<String>)
    ensures
        r@.map_values(|p: String| p@) == lines_of(s@),
{
    let parts = split_char(s, '\n');
    let ghost pv = parts@.map_values(|p: String| p@);
    proof {
        lemma_split_on_nonempty(s@, '\n');
    }
    let k = parts.len() - 1;
    let mut r: Vec<String> = Vec::new();
    let mut i: usize = 0;
    while i < k
        invariant
            k == parts.len() - 1,
            i <= k,
            pv == parts@.map_values(|p: String| p@),
            r@.map_values(|p: String| p@) == pv.drop_last().map_values(|p: Seq<char>| drop_cr(p)).take(i as int),
        decreases k - i,
    {
        let ghost before = r@.map_values(|p: String| p@);
        let line = strip_cr(&parts[i]);
        r.push(line);
        assert(r@.map_values(|p: String| p@) =~= before.push(line@));
        assert(pv.drop_last().map_values(|p: Seq<char>| drop_cr(p)).take(i + 1) =~= pv.drop_last().map_values(
            |p: Seq<char>| drop_cr(p),
        ).take(i as int).push(drop_cr(pv[i as int])));
        i = i + 1;
    }
    assert(pv.drop_last().map_values(|p: Seq<char>| drop_cr(p)).take(k as int) =~= pv.drop_last().map_values(
        |p: Seq<char>| drop_cr(p),
    ));
    if parts[k].as_str().unicode_len() > 0 {
        let ghost before = r@.map_values(|p: String| p@);
        let last = parts[k].clone();
        r.push(last);
        assert(r@.map_values(|p: String| p@) =~= before.push(last@));
    }
    r
}

/// Whether `char::is_numeric` holds of `c`; ASCII digits are numeric.
pub uninterp spec fn char_numeric(c: char) -> bool;

/// Whether `c` is numeric.
///
/// Calls `char::is_numeric`. Claims the answer is `char_numeric` of `c`, and,
/// as its documentation states, that ASCII digits are numeric.
#[verifier::external_body]
pub(crate) fn is_numeric_char(c: char) -> (b: bool)
    ensures
        b == char_numeric(c),
        is_digit(c) ==> b,
{
    c.is_numeric()
}

/// The pieces of `s` between characters that are not numeric, as
/// `str::split` with `|c| !c.is_numeric()` gives them.
pub open spec fn numeric_runs(s: Seq<char>) -> Seq<Seq<char>>
    decreases s.len(),
{
    if s.len() == 0 {
        seq![Seq::empty()]
    } else {
        let rest = numeric_runs(s.drop_last());
        if !char_numeric(s.last()) {
            rest.push(Seq::empty())
        } else {
            rest.update(rest.len() - 1, rest.last().push(s.last()))
        }
    }
}

proof fn lemma_numeric_runs_nonempty(s: Seq<char>)
    ensures
        numeric_runs(s).len() >= 1,
    decreases s.len(),
{
    if s.len() > 0 {
        lemma_numeric_runs_nonempty(s.drop_last());
    }
}

/// Splits `s` at every character that is not numeric.
pub fn split_numeric_runs(s: &str) -> (parts: Vec<String>)
    ensures
        parts@.map_values(|p: String| p@) == numeric_runs(s@),
{
    let n = s.unicode_len();
    let mut parts: Vec<String> = Vec::new();
    let mut cur = String::new();
    let mut i: usize = 0;
    while i < n
        invariant
            n == s@.len(),
            i <= n,
            parts@.map_values(|p: String| p@).push(cur@) == numeric_runs(s@.take(i as int)),
        decreases n - i,
    {
        let ch = s.get_char(i);
        proof {
            lemma_numeric_runs_nonempty(s@.take(i as int));
            assert(s@.take(i + 1).drop_last() =~= s@.take(i as int));
            assert(s@.take(i + 1).last() == ch);
        }
        let ghost before = parts@.map_values(|p: String| p@);
        if !is_numeric_char(ch) {
            let done = cur;
            parts.push(done);
            cur = String::new();
            assert(parts@.map_values(|p: String| p@) =~= before.push(done@));
        } else {
            push_char(&mut cur, ch);
            assert(parts@.map_values(|p: String| p@) =~= before);
        }
        assert(parts@.map_values(|p: String| p@).push(cur@) =~= numeric_runs(s@.take(i + 1)));
        i = i + 1;
    }
    assert(s@.take(n as int) =~= s@);
    parts.push(cur);
    assert(parts@.map_values(|p: String| p@) =~= numeric_runs(s@));
    parts
}

/// What `str::parse::<i64>` gives: an optional sign, then digits, within range.
pub open spec fn parse_signed(s: Seq<char>) -> Option<int> {
    if s.len() > 0 && s[0] == '-' {
        let b = s.drop_first();
        if b.len() > 0 && all_digits(b) && digits_value(b) <= 0x8000_0000_0000_0000 {
            Some(-(digits_value(b) as int))
        } else {
            None
        }
    } else {
        match parse_unsigned(s, 0x7fff_ffff_ffff_ffff) {
            Some(v) => Some(v as int),
            None => None,
        }
    }
}

/// Reads a signed 64-bit integer, as `str::parse::<i64>` reads it.
pub fn parse_i64(s: &str) -> (r: Option<i64>)
    ensures
        match r {
            Some(v) => parse_signed(s@) == Some(v as int),
            None => parse_signed(s@) is None,
        },
{
    let n = s.unicode_len();
    if n > 0 && s.get_char(0) == '-' {
        let body = s.substring_char(1, n);
        assert(body@ =~= s@.drop_first());
        assert(unsigned_body(body@) == body@ || (body@.len() > 0 && body@[0] == '+'));
        if body.unicode_len() > 0 && body.get_char(0) == '+' {
            assert(!is_digit(body@[0]));
            return None;
        }
        assert(unsigned_body(body@) == body@);
        match parse_u64_upto(body, 0x8000_0000_0000_0000) {
            Some(v) => {
                if v == 0x8000_0000_0000_0000 {
                    Some(i64::MIN)
                } else {
                    Some(-(v as i64))
                }
            },
            None => None,
        }
    } else {
        match parse_u64_upto(s, 0x7fff_ffff_ffff_ffff) {
            Some(v) => Some(v as i64),
            None => None,
        }
    }
}


/// The decimal rendering of a signed integer, as `Display` prints it.
pub open spec fn sdec(n: int) -> Seq<char> {
    if n < 0 {
        seq!['-'] + dec((-n) as nat)
    } else {
        dec(n as nat)
    }
}

/// The decimal rendering of `n`.
pub fn i64_to_dec(n: i64) -> (s: String)
    ensures
        s@ == sdec(n as int),
{
    if n < 0 {
        let m: u64 = if n == i64::MIN {
            0x8000_0000_0000_0000u64
        } else {
            (-n) as u64
        };
        let mut s = String::new();
        push_char(&mut s, '-');
        s.append(u64_to_dec(m).as_str());
        s
    } else {
        u64_to_dec(n as u64)
    }
}

} // verus!
