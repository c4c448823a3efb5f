//! Character-level text helpers: whitespace, trimming, conversions between
//! `str`/`String` and sequences of characters.

use vstd::prelude::*;

verus! {

/// The Unicode `White_Space` property: the characters that
/// `char::is_whitespace` and `str::trim` treat as whitespace.
pub open spec fn is_white_space(c: char) -> bool {
    let v = c as u32;
    ||| (0x09 <= v && v <= 0x0d)
    ||| v == 0x20
    ||| v == 0x85
    ||| v == 0xa0
    ||| v == 0x1680
    ||| (0x2000 <= v && v <= 0x200a)
    ||| v == 0x2028
    ||| v == 0x2029
    ||| v == 0x202f
    ||| v == 0x205f
    ||| v == 0x3000
}

/// Whether `c` has the Unicode `White_Space` property.
pub fn is_whitespace(c: char) -> (r: bool)
    ensures
        r == is_white_space(c),
{
    let v = c as u32;
    (0x09 <= v && v <= 0x0d) || v == 0x20 || v == 0x85 || v == 0xa0 || v == 0x1680 || (0x2000
        <= v && v <= 0x200a) || v == 0x2028 || v == 0x2029 || v == 0x202f || v == 0x205f || v
        == 0x3000
}

/// The characters of `s`, in order.
pub fn chars_of(s: &str) -> (v: Vec<char>)
    ensures
        v@ == s@,
{
    broadcast use vstd::string::group_string_axioms;

    let mut v: Vec<char> = Vec::new();
    for c in it: s.chars()
        invariant
            it.seq() == s@,
            v@ == it.seq().take(it.index() as int),
            v@.len() == it.index(),
            v@.len() <= s@.len(),
            forall|j: int| 0 <= j < v@.len() ==> v@[j] == s@[j],
    {
        assert(it.seq().take(it.index() + 1) =~= v@.push(c));
        v.push(c);
    }
    v
}


/// `s` without its leading whitespace (what `str::trim_start` leaves).
pub open spec fn trim_start(s: Seq<char>) -> Seq<char>
    decreases s.len(),
{
    if s.len() > 0 && is_white_space(s[0]) {
        trim_start(s.drop_first())
    } else {
        s
    }
}

/// `s` without its trailing whitespace (what `str::trim_end` leaves).
pub open spec fn trim_end(s: Seq<char>) -> Seq<char>
    decreases s.len(),
{
    if s.len() > 0 && is_white_space(s.last()) {
        trim_end(s.drop_last())
    } else {
        s
    }
}

/// `s` without leading and trailing whitespace (what `str::trim` leaves).
pub open spec fn trim(s: Seq<char>) -> Seq<char> {
    trim_end(trim_start(s))
}

/// Whether every character of `s` is whitespace.
pub open spec fn all_white_space(s: Seq<char>) -> bool {
    forall|i: int| 0 <= i < s.len() ==> is_white_space(#[trigger] s[i])
}

proof fn lemma_trim_start_white_prefix(pre: Seq<char>, x: Seq<char>)
    requires
        all_white_space(pre),
    ensures
        trim_start(pre + x) == trim_start(x),
    decreases pre.len(),
{
    if pre.len() > 0 {
        assert((pre + x).drop_first() =~= pre.drop_first() + x);
        assert((pre + x)[0] == pre[0]);
        lemma_trim_start_white_prefix(pre.drop_first(), x);
    } else {
        assert(pre + x =~= x);
    }
}

proof fn lemma_trim_end_white_suffix(x: Seq<char>, post: Seq<char>)
    requires
        all_white_space(post),
    ensures
        trim_end(x + post) == trim_end(x),
    decreases post.len(),
{
    if post.len() > 0 {
        assert((x + post).drop_last() =~= x + post.drop_last());
        assert((x + post).last() == post.last());
        lemma_trim_end_white_suffix(x, post.drop_last());
    } else {
        assert(x + post =~= x);
    }
}

proof fn lemma_trim_start_all_white(s: Seq<char>)
    requires
        all_white_space(s),
    ensures
        trim_start(s) == Seq::<char>::empty(),
    decreases s.len(),
{
    if s.len() > 0 {
        lemma_trim_start_all_white(s.drop_first());
    }
}

proof fn lemma_trim_start_append_white(x: Seq<char>, post: Seq<char>)
    requires
        all_white_space(post),
    ensures
        trim_start(x + post) == if trim_start(x).len() > 0 {
            trim_start(x) + post
        } else {
            Seq::<char>::empty()
        },
    decreases x.len(),
{
    if x.len() == 0 {
        assert(x + post =~= post);
        lemma_trim_start_all_white(post);
    } else if is_white_space(x[0]) {
        assert((x + post).drop_first() =~= x.drop_first() + post);
        assert((x + post)[0] == x[0]);
        lemma_trim_start_append_white(x.drop_first(), post);
    } else {
        assert((x + post)[0] == x[0]);
    }
}

/// Whitespace around a text does not change what trimming leaves of it.
pub proof fn lemma_trim_padding(pre: Seq<char>, line: Seq<char>, post: Seq<char>)
    requires
        all_white_space(pre),
        all_white_space(post),
    ensures
        trim(pre + line + post) == trim(line),
{
    assert(pre + line + post =~= pre + (line + post));
    lemma_trim_start_white_prefix(pre, line + post);
    lemma_trim_start_append_white(line, post);
    if trim_start(line).len() > 0 {
        lemma_trim_end_white_suffix(trim_start(line), post);
    }
}

/// The length of the longest prefix of `s` that holds no whitespace.
pub open spec fn word_len(s: Seq<char>) -> nat
    decreases s.len(),
{
    if s.len() == 0 || is_white_space(s[0]) {
        0
    } else {
        1 + word_len(s.drop_first())
    }
}

/// The first index in `from..to` of `text` that is not whitespace, or `to`:
/// `text[result..to]` is `text[from..to]` with its leading whitespace removed.
pub fn skip_white_space(text: &Vec<char>, from: usize, to: usize) -> (k: usize)
    requires
        from <= to <= text@.len(),
    ensures
        from <= k <= to,
        trim_start(text@.subrange(from as int, to as int)) == text@.subrange(k as int, to as int),
{
    let mut k = from;
    while k < to && is_whitespace(text[k])
        invariant
            from <= k <= to <= text@.len(),
            trim_start(text@.subrange(from as int, to as int)) == trim_start(
                text@.subrange(k as int, to as int),
            ),
        decreases to - k,
    {
        assert(text@.subrange(k as int, to as int).drop_first() =~= text@.subrange(
            k + 1,
            to as int,
        ));
        k = k + 1;
    }
    k
}

/// The end of `text[from..to]` once its trailing whitespace is removed:
/// `text[from..result]` is `text[from..to]` without trailing whitespace.
pub fn trim_end_index(text: &Vec<char>, from: usize, to: usize) -> (k: usize)
    requires
        from <= to <= text@.len(),
    ensures
        from <= k <= to,
        trim_end(text@.subrange(from as int, to as int)) == text@.subrange(from as int, k as int),
{
    let mut k = to;
    while k > from && is_whitespace(text[k - 1])
        invariant
            from <= k <= to <= text@.len(),
            trim_end(text@.subrange(from as int, to as int)) == trim_end(
                text@.subrange(from as int, k as int),
            ),
        decreases k - from,
    {
        assert(text@.subrange(from as int, k as int).drop_last() =~= text@.subrange(
            from as int,
            k - 1,
        ));
        k = k - 1;
    }
    k
}

/// The end of the first word of `text[from..to]`: the first index in
/// `from..to` that is whitespace, or `to`.
pub fn word_end(text: &Vec<char>, from: usize, to: usize) -> (k: usize)
    requires
        from <= to <= text@.len(),
    ensures
        from <= k <= to,
        k - from == word_len(text@.subrange(from as int, to as int)),
{
    let mut k = from;
    while k < to && !is_whitespace(text[k])
        invariant
            from <= k <= to <= text@.len(),
            word_len(text@.subrange(from as int, to as int)) == (k - from) + word_len(
                text@.subrange(k as int, to as int),
            ),
        decreases to - k,
    {
        assert(text@.subrange(k as int, to as int).drop_first() =~= text@.subrange(
            k + 1,
            to as int,
        ));
        k = k + 1;
    }
    k
}

/// Calls `String::push`, which appends the character `c` to the end of the
/// string.
#[verifier::external_body]
pub(crate) fn push_char(s: &mut String, c: char)
    ensures
        final(s)@ == old(s)@.push(c),
{
    s.push(c);
}

/// A new string holding the characters `text[from..to]`.
pub fn string_of(text: &Vec<char>, from: usize, to: usize) -> (s: String)
    requires
        from <= to <= text@.len(),
    ensures
        s@ == text@.subrange(from as int, to as int),
{
    let mut s = String::new();
    let mut k = from;
    while k < to
        invariant
            from <= k <= to <= text@.len(),
            s@ == text@.subrange(from as int, k as int),
        decreases to - k,
    {
        push_char(&mut s, text[k]);
        assert(s@ =~= text@.subrange(from as int, k + 1));
        k = k + 1;
    }
    s
}


/// The decimal digit character of `d`.
pub open spec fn digit_char(d: nat) -> char {
    if d == 0 { '0' }
    else if d == 1 { '1' }
    else if d == 2 { '2' }
    else if d == 3 { '3' }
    else if d == 4 { '4' }
    else if d == 5 { '5' }
    else if d == 6 { '6' }
    else if d == 7 { '7' }
    else if d == 8 { '8' }
    else { '9' }
}

/// Whether `c` is one of the ASCII digits `'0'..='9'`.
pub open spec fn is_digit(c: char) -> bool {
    '0' <= c && c <= '9'
}

/// The value of an ASCII digit.
pub open spec fn digit_value(c: char) -> nat {
    (c as u32 - '0' as u32) as nat
}

/// The decimal notation of `n`, without leading zeros (what `to_string` and
/// `format!("{}")` write for an unsigned integer).
pub open spec fn decimal(n: nat) -> Seq<char>
    decreases n,
{
    if n < 10 {
        seq![digit_char(n)]
    } else {
        decimal(n / 10).push(digit_char(n % 10))
    }
}

/// The number that a sequence of ASCII digits denotes.
pub open spec fn digits_value(s: Seq<char>) -> nat
    decreases s.len(),
{
    if s.len() == 0 {
        0
    } else {
        digits_value(s.drop_last()) * 10 + digit_value(s.last())
    }
}

/// `s` without one leading `+`, if it has one.
pub open spec fn without_plus(s: Seq<char>) -> Seq<char> {
    if s.len() > 0 && s[0] == '+' {
        s.drop_first()
    } else {
        s
    }
}

/// Whether every character of `s` is an ASCII digit.
pub open spec fn all_digits(s: Seq<char>) -> bool {
    forall|i: int| 0 <= i < s.len() ==> is_digit(#[trigger] s[i])
}

/// What `str::parse::<u32>` gives: an optional `+` followed by one or more
/// ASCII digits whose value fits in a `u32`; `None` for anything else.
pub open spec fn parse_u32_spec(s: Seq<char>) -> Option<u32> {
    let digits = without_plus(s);
    if digits.len() > 0 && all_digits(digits) && digits_value(digits) <= u32::MAX {
        Some(digits_value(digits) as u32)
    } else {
        None
    }
}

proof fn lemma_digits_value_monotone(s: Seq<char>, i: int)
    requires
        0 <= i <= s.len(),
        all_digits(s),
    ensures
        digits_value(s.subrange(0, i)) <= digits_value(s),
    decreases s.len() - i,
{
    if i < s.len() {
        lemma_digits_value_monotone(s, i + 1);
        assert(s.subrange(0, i + 1).drop_last() =~= s.subrange(0, i));
    } else {
        assert(s.subrange(0, i) =~= s);
    }
}

/// Parses a decimal `u32` as `str::parse::<u32>` does.
pub fn parse_u32(s: &str) -> (r: Option<u32>)
    ensures
        r == parse_u32_spec(s@),
{
    let text = chars_of(s);
    let n = text.len();
    let mut i: usize = 0;
    if n > 0 && text[0] == '+' {
        i = 1;
    }
    let start = i;
    let ghost digits = without_plus(s@);
    assert(digits =~= text@.subrange(start as int, n as int));
    if start == n {
        return None;
    }
    let mut acc: u32 = 0;
    assert(text@.subrange(start as int, start as int) =~= Seq::<char>::empty());
    while i < n
        invariant
            start <= i <= n == text@.len(),
            digits == text@.subrange(start as int, n as int),
            digits == without_plus(s@),
            forall|j: int| start <= j < i ==> is_digit(#[trigger] text@[j]),
            acc == digits_value(text@.subrange(start as int, i as int)),
        decreases n - i,
    {
        let c = text[i];
        if !('0' <= c && c <= '9') {
            assert(digits[i - start] == c);
            assert(!all_digits(digits));
            return None;
        }
        let d = (c as u32) - ('0' as u32);
        let ghost prefix = text@.subrange(start as int, i + 1);
        assert(prefix.drop_last() =~= text@.subrange(start as int, i as int));
        assert(digits_value(prefix) == acc * 10 + d);
        if acc > 429496729 || (acc == 429496729 && d > 5) {
            proof {
                assert(acc * 10 + d > 4294967295) by (nonlinear_arith)
                    requires
                        acc > 429496729 || (acc == 429496729 && d > 5),
                ;
                if all_digits(digits) {
                    assert(digits.subrange(0, i + 1 - start) =~= prefix);
                    lemma_digits_value_monotone(digits, i + 1 - start);
                }
            }
            return None;
        }
        acc = acc * 10 + d;
        i = i + 1;
    }
    assert(text@.subrange(start as int, n as int) =~= digits);
    assert(all_digits(digits)) by {
        assert forall|j: int| 0 <= j < digits.len() implies is_digit(#[trigger] digits[j]) by {
            assert(digits[j] == text@[start + j]);
        }
    }
    Some(acc)
}


proof fn lemma_decimal_len(n: nat)
    ensures
        decimal(n).len() >= 1,
        n >= 10 ==> decimal(n).len() >= 2,
    decreases n,
{
    if n >= 10 {
        lemma_decimal_len(n / 10);
    }
}

/// Different numbers have different decimal notations.
pub proof fn lemma_decimal_injective(a: nat, b: nat)
    requires
        decimal(a) == decimal(b),
    ensures
        a == b,
    decreases a,
{
    lemma_decimal_len(a);
    lemma_decimal_len(b);
    if a >= 10 && b >= 10 {
        assert(decimal(a).drop_last() =~= decimal(a / 10));
        assert(decimal(b).drop_last() =~= decimal(b / 10));
        lemma_decimal_injective(a / 10, b / 10);
        assert(decimal(a).last() == digit_char(a % 10));
        assert(decimal(b).last() == digit_char(b % 10));
    } else if a < 10 && b < 10 {
        assert(decimal(a)[0] == digit_char(a));
        assert(decimal(b)[0] == digit_char(b));
    }
}

/// The digit character of `d`.
fn digit_to_char(d: u64) -> (c: char)
    requires
        d < 10,
    ensures
        c == digit_char(d as nat),
{
    if d == 0 {
        '0'
    } else if d == 1 {
        '1'
    } else if d == 2 {
        '2'
    } else if d == 3 {
        '3'
    } else if d == 4 {
        '4'
    } else if d == 5 {
        '5'
    } else if d == 6 {
        '6'
    } else if d == 7 {
        '7'
    } else if d == 8 {
        '8'
    } else {
        '9'
    }
}

/// Appends the decimal notation of `n` to `s`.
pub fn push_decimal(s: &mut String, n: u64)
    ensures
        final(s)@ == old(s)@ + decimal(n as nat),
    decreases n,
{
    if n >= 10 {
        push_decimal(s, n / 10);
    }
    push_char(s, digit_to_char(n % 10));
    assert(final(s)@ =~= old(s)@ + decimal(n as nat));
}

/// Whether `needle` occurs in `hay` starting at index `i`.
pub open spec fn occurs_at(hay: Seq<char>, needle: Seq<char>, i: int) -> bool {
    0 <= i && i + needle.len() <= hay.len() && hay.subrange(i, i + needle.len()) == needle
}

/// Whether `needle` occurs in `hay` (what `str::contains` tests for a string
/// pattern).
pub open spec fn contains_chars(hay: Seq<char>, needle: Seq<char>) -> bool {
    exists|i: int| occurs_at(hay, needle, i)
}

/// Whether `needle` occurs in `hay`.
pub fn contains_str(hay: &str, needle: &str) -> (r: bool)
    ensures
        r == contains_chars(hay@, needle@),
{
    let h = chars_of(hay);
    let m = chars_of(needle);
    if m.len() > h.len() {
        proof {
            if contains_chars(hay@, needle@) {
                let i = choose|i: int| occurs_at(hay@, needle@, i);
            }
        }
        return false;
    }
    if m.len() == 0 {
        assert(hay@.subrange(0, 0) =~= needle@);
        assert(occurs_at(hay@, needle@, 0));
        return true;
    }
    let last = h.len() - m.len();
    let mut i: usize = 0;
    while i <= last
        invariant
            h@ == hay@,
            m@ == needle@,
            last == h.len() - m.len(),
            0 < m.len() <= h.len(),
            0 <= i <= last + 1,
            forall|k: int| 0 <= k < i ==> !occurs_at(hay@, needle@, k),
        decreases last + 1 - i,
    {
        let mut j: usize = 0;
        while j < m.len() && h[i + j] == m[j]
            invariant
                h@ == hay@,
                m@ == needle@,
                last == h.len() - m.len(),
                0 < m.len() <= h.len(),
                0 <= i <= last,
                0 <= j <= m@.len(),
                forall|t: int| 0 <= t < j ==> h@[i + t] == m@[t],
            decreases m@.len() - j,
        {
            j = j + 1;
        }
        if j == m.len() {
            assert(hay@.subrange(i as int, i + needle@.len()) =~= needle@);
            assert(occurs_at(hay@, needle@, i as int));
            return true;
        }
        assert(hay@.subrange(i as int, i + needle@.len())[j as int] != needle@[j as int]);
        i = i + 1;
    }
    proof {
        if contains_chars(hay@, needle@) {
            let k = choose|k: int| occurs_at(hay@, needle@, k);
            assert(k <= last);
        }
    }
    false
}

/// The part of `p` after its last `'/'`, or all of `p` where it holds no
/// `'/'` (what `p.split('/').last()` gives).
pub open spec fn after_last_slash(p: Seq<char>) -> Seq<char>
    decreases p.len(),
{
    if p.len() == 0 {
        p
    } else if p.last() == '/' {
        Seq::empty()
    } else {
        after_last_slash(p.drop_last()).push(p.last())
    }
}

/// The part of `p` after its last `'/'`, or all of `p`.
pub fn last_segment(p: &str) -> (r: String)
    ensures
        r@ == after_last_slash(p@),
{
    let text = chars_of(p);
    let n = text.len();
    let mut k = n;
    assert(text@.subrange(0, n as int) =~= p@);
    assert(text@.subrange(n as int, n as int) =~= Seq::<char>::empty());
    while k > 0 && text[k - 1] != '/'
        invariant
            0 <= k <= n == text@.len(),
            text@ == p@,
            after_last_slash(p@) == after_last_slash(text@.subrange(0, k as int))
                + text@.subrange(k as int, n as int),
        decreases k,
    {
        let ghost pre = text@.subrange(0, k as int);
        assert(pre.drop_last() =~= text@.subrange(0, k - 1));
        assert(after_last_slash(text@.subrange(0, k - 1)) + text@.subrange(k - 1, n as int)
            =~= after_last_slash(text@.subrange(0, k - 1)).push(pre.last()) + text@.subrange(
            k as int,
            n as int,
        ));
        k = k - 1;
    }
    let r = string_of(&text, k, n);
    assert(after_last_slash(p@) =~= text@.subrange(k as int, n as int));
    r
}

/// The order of `String`s: lexicographic by character (UTF-8 encoding keeps
/// the order of code points, so this is the byte order that `str::cmp`
/// uses). `a` comes no later than `b`.
pub open spec fn chars_le(a: Seq<char>, b: Seq<char>) -> bool
    decreases a.len(),
{
    if a.len() == 0 {
        true
    } else if b.len() == 0 {
        false
    } else if a[0] != b[0] {
        a[0] < b[0]
    } else {
        chars_le(a.drop_first(), b.drop_first())
    }
}

/// Every string comes no later than itself.
pub proof fn lemma_chars_le_reflexive(a: Seq<char>)
    ensures
        chars_le(a, a),
    decreases a.len(),
{
    if a.len() > 0 {
        lemma_chars_le_reflexive(a.drop_first());
    }
}

/// Of two strings, one comes no later than the other.
pub proof fn lemma_chars_le_total(a: Seq<char>, b: Seq<char>)
    ensures
        chars_le(a, b) || chars_le(b, a),
    decreases a.len(),
{
    if a.len() > 0 && b.len() > 0 && a[0] == b[0] {
        lemma_chars_le_total(a.drop_first(), b.drop_first());
    }
}

/// The order is transitive.
pub proof fn lemma_chars_le_transitive(a: Seq<char>, b: Seq<char>, c: Seq<char>)
    requires
        chars_le(a, b),
        chars_le(b, c),
    ensures
        chars_le(a, c),
    decreases a.len(),
{
    if a.len() > 0 && b.len() > 0 && c.len() > 0 && a[0] == b[0] && b[0] == c[0] {
        lemma_chars_le_transitive(a.drop_first(), b.drop_first(), c.drop_first());
    }
}

/// Two strings that each come no later than the other are equal.
pub proof fn lemma_chars_le_antisymmetric(a: Seq<char>, b: Seq<char>)
    requires
        chars_le(a, b),
        chars_le(b, a),
    ensures
        a == b,
    decreases a.len(),
{
    if a.len() > 0 && b.len() > 0 {
        lemma_chars_le_antisymmetric(a.drop_first(), b.drop_first());
        assert forall|i: int| 0 <= i < a.len() implies a[i] == b[i] by {
            if i > 0 {
                assert(a[i] == a.drop_first()[i - 1]);
                assert(b[i] == b.drop_first()[i - 1]);
            }
        }
    }
    assert(a =~= b);
}

/// Whether `a` comes no later than `b` in the order of strings.
pub fn str_le(a: &str, b: &str) -> (r: bool)
    ensures
        r == chars_le(a@, b@),
{
    let x = chars_of(a);
    let y = chars_of(b);
    let mut i: usize = 0;
    assert(a@.subrange(0, a@.len() as int) =~= a@);
    assert(b@.subrange(0, b@.len() as int) =~= b@);
    while i < x.len() && i < y.len() && x[i] == y[i]
        invariant
            x@ == a@,
            y@ == b@,
            0 <= i <= x@.len(),
            i <= y@.len(),
            forall|t: int| 0 <= t < i ==> x@[t] == y@[t],
            chars_le(a@, b@) == chars_le(a@.subrange(i as int, a@.len() as int), b@.subrange(
                i as int,
                b@.len() as int,
            )),
        decreases x@.len() - i,
    {
        assert(a@.subrange(i as int, a@.len() as int).drop_first() =~= a@.subrange(
            i + 1,
            a@.len() as int,
        ));
        assert(b@.subrange(i as int, b@.len() as int).drop_first() =~= b@.subrange(
            i + 1,
            b@.len() as int,
        ));
        i = i + 1;
    }
    if i == x.len() {
        true
    } else if i == y.len() {
        false
    } else {
        x[i] < y[i]
    }
}


proof fn lemma_decimal_digits(n: nat)
    ensures
        decimal(n).len() > 0,
        all_digits(decimal(n)),
        digits_value(decimal(n)) == n,
        decimal(n)[0] != '+',
    decreases n,
{
    if n >= 10 {
        lemma_decimal_digits(n / 10);
        assert(decimal(n).drop_last() =~= decimal(n / 10));
        assert forall|i: int| 0 <= i < decimal(n).len() implies is_digit(#[trigger] decimal(n)[i]) by {
            if i < decimal(n).len() - 1 {
                assert(decimal(n)[i] == decimal(n / 10)[i]);
            }
        }
        assert(decimal(n)[0] == decimal(n / 10)[0]);
        let d = n % 10;
        assert(digit_value(digit_char(d)) == d);
        assert(n == (n / 10) * 10 + d) by (nonlinear_arith)
            requires
                d == n % 10,
        ;
        assert(decimal(n).last() == digit_char(d));
        assert(digits_value(decimal(n)) == digits_value(decimal(n / 10)) * 10 + digit_value(
            digit_char(d),
        ));
    } else {
        assert(decimal(n).drop_last() =~= Seq::<char>::empty());
        assert(digits_value(Seq::<char>::empty()) == 0);
        assert(decimal(n).last() == digit_char(n));
        assert(digit_value(digit_char(n)) == n);
        assert(digits_value(decimal(n)) == digits_value(decimal(n).drop_last()) * 10
            + digit_value(decimal(n).last()));
    }
}

/// Reading back the decimal notation of a `u32` gives the number: what
/// `to_string` writes, `parse::<u32>` reads.
pub proof fn lemma_parse_decimal(n: u32)
    ensures
        parse_u32_spec(decimal(n as nat)) == Some(n),
{
    lemma_decimal_digits(n as nat);
}

} // verus!
