//! Character-level helpers shared by the report model and the analysis code:
//! decimal and hexadecimal rendering, ASCII case folding, substring search,
//! whitespace trimming and the final component of a slash-separated path.

use vstd::prelude::*;
use vstd::string::*;

verus! {

broadcast use vstd::string::group_string_axioms;

// ---------------------------------------------------------------------------
// Specifications
// ---------------------------------------------------------------------------

/// The views of a sequence of strings.
pub open spec fn views(v: Seq<String>) -> Seq<Seq<char>> {
    v.map_values(|s: String| s@)
}

/// At most the first `n` elements of `s` (`Iterator::take`).
pub open spec fn first_n<A>(s: Seq<A>, n: nat) -> Seq<A> {
    if n <= s.len() {
        s.take(n as int)
    } else {
        s
    }
}

/// The character of one hexadecimal (or decimal) digit, lower case.
pub open spec fn digit_char(d: int) -> char {
    if d < 10 {
        (d + 48) as char
    } else {
        (d + 87) as char
    }
}

/// Decimal rendering of a natural number, without leading zeros.
pub open spec fn dec(n: nat) -> Seq<char>
    decreases n,
{
    if n < 10 {
        seq![digit_char(n as int)]
    } else {
        dec(n / 10).push(digit_char((n % 10) as int))
    }
}

/// Lower-case hexadecimal rendering of a natural number, without leading zeros.
pub open spec fn hex(n: nat) -> Seq<char>
    decreases n,
{
    if n < 16 {
        seq![digit_char(n as int)]
    } else {
        hex(n / 16).push(digit_char((n % 16) as int))
    }
}

/// `k` copies of the character `c`.
pub open spec fn repeat(c: char, k: nat) -> Seq<char> {
    Seq::new(k, |i: int| c)
}

/// `s` padded on the left with `fill` up to `width` characters.
pub open spec fn pad_left(s: Seq<char>, fill: char, width: nat) -> Seq<char> {
    if s.len() < width {
        repeat(fill, (width - s.len()) as nat) + s
    } else {
        s
    }
}

/// Hexadecimal rendering padded with zeros to `width` digits (`{:0width$x}`).
pub open spec fn hex_pad(n: nat, width: nat) -> Seq<char> {
    pad_left(hex(n), '0', width)
}

/// Decimal rendering right-aligned in `width` columns (`{:>width$}`).
pub open spec fn dec_right(n: nat, width: nat) -> Seq<char> {
    pad_left(dec(n), ' ', width)
}

/// ASCII upper-case letters map to lower case; every other character is kept.
pub open spec fn lower_char(c: char) -> char {
    if 65 <= c as u32 <= 90 {
        ((c as u32) + 32) as char
    } else {
        c
    }
}

/// `str::to_ascii_lowercase`.
pub open spec fn lower(s: Seq<char>) -> Seq<char> {
    s.map_values(|c: char| lower_char(c))
}

/// `needle` occurs in `hay` starting at index `i`.
pub open spec fn occurs_at(hay: Seq<char>, needle: Seq<char>, i: int) -> bool {
    0 <= i && i + needle.len() <= hay.len() && hay.subrange(i, i + needle.len()) == needle
}

/// `str::contains` for a string needle.
pub open spec fn contains(hay: Seq<char>, needle: Seq<char>) -> bool {
    exists|i: int| occurs_at(hay, needle, i)
}

pub open spec fn starts_with(s: Seq<char>, prefix: Seq<char>) -> bool {
    prefix.len() <= s.len() && s.take(prefix.len() as int) == prefix
}

pub open spec fn ends_with(s: Seq<char>, suffix: Seq<char>) -> bool {
    suffix.len() <= s.len() && s.skip(s.len() - suffix.len()) == suffix
}

/// `char::is_whitespace`: the Unicode `White_Space` property.
pub open spec fn is_space(c: char) -> bool {
    let u = c as u32;
    (9 <= u <= 13) || u == 32 || u == 0x85 || u == 0xa0 || u == 0x1680 || (0x2000 <= u
        <= 0x200a) || u == 0x2028 || u == 0x2029 || u == 0x202f || u == 0x205f || u == 0x3000
}

/// `str::trim_start`.
pub open spec fn trim_start(s: Seq<char>) -> Seq<char>
    decreases s.len(),
{
    if s.len() > 0 && is_space(s[0]) {
        trim_start(s.drop_first())
    } else {
        s
    }
}

/// `str::trim_end`.
pub open spec fn trim_end(s: Seq<char>) -> Seq<char>
    decreases s.len(),
{
    if s.len() > 0 && is_space(s.last()) {
        trim_end(s.drop_last())
    } else {
        s
    }
}

/// `str::trim`.
pub open spec fn trim(s: Seq<char>) -> Seq<char> {
    trim_end(trim_start(s))
}

/// The characters after the last `/` (all of `s` when it holds none).
pub open spec fn last_segment(s: Seq<char>) -> Seq<char>
    decreases s.len(),
{
    if s.len() == 0 || s.last() == '/' {
        Seq::empty()
    } else {
        last_segment(s.drop_last()).push(s.last())
    }
}

/// `Path::file_name` for a slash-separated path: the last component, where
/// empty and `.` components are skipped, and none when that component is `..`.
pub open spec fn file_name(s: Seq<char>) -> Option<Seq<char>>
    decreases s.len(),
{
    if s.len() == 0 {
        None
    } else if s.last() == '/' {
        file_name(s.drop_last())
    } else if last_segment(s) == seq!['.'] {
        file_name(s.drop_last())
    } else if last_segment(s) == seq!['.', '.'] {
        None
    } else {
        Some(last_segment(s))
    }
}

/// `Path::file_name` followed by `unwrap_or_default`.
pub open spec fn file_name_or_empty(s: Seq<char>) -> Seq<char> {
    match file_name(s) {
        Some(name) => name,
        None => Seq::empty(),
    }
}

/// `s` split at every `sep`, empty pieces included (`str::split`).
pub open spec fn split_on(s: Seq<char>, sep: char) -> Seq<Seq<char>>
    decreases s.len(),
{
    if s.len() == 0 {
        seq![Seq::empty()]
    } else {
        let p = split_on(s.drop_last(), sep);
        if s.last() == sep {
            p.push(Seq::empty())
        } else {
            p.update(p.len() - 1, p.last().push(s.last()))
        }
    }
}

/// Index of the last occurrence of `c` in `s`.
pub open spec fn last_index_of(s: Seq<char>, c: char) -> Option<int>
    decreases s.len(),
{
    if s.len() == 0 {
        None
    } else if s.last() == c {
        Some(s.len() - 1)
    } else {
        last_index_of(s.drop_last(), c)
    }
}

// ---------------------------------------------------------------------------
// Lemmas
// ---------------------------------------------------------------------------

pub proof fn lemma_split_on_nonempty(s: Seq<char>, sep: char)
    ensures
        split_on(s, sep).len() >= 1,
    decreases s.len(),
{
    if s.len() > 0 {
        lemma_split_on_nonempty(s.drop_last(), sep);
    }
}

pub proof fn lemma_last_index_of(s: Seq<char>, c: char)
    ensures
        last_index_of(s, c) matches Some(i) ==> 0 <= i < s.len() && s[i] == c && forall|k: int|
            i < k < s.len() ==> s[k] != c,
        last_index_of(s, c) is None ==> forall|k: int| 0 <= k < s.len() ==> s[k] != c,
    decreases s.len(),
{
    if s.len() > 0 && s.last() != c {
        lemma_last_index_of(s.drop_last(), c);
        assert forall|k: int| 0 <= k < s.len() - 1 implies s.drop_last()[k] == s[k] by {}
    }
}

pub proof fn lemma_dec_nonempty(n: nat)
    ensures
        dec(n).len() >= 1,
    decreases n,
{
    if n >= 10 {
        lemma_dec_nonempty(n / 10);
    }
}

/// `base` to the power `k`.
pub open spec fn power(base: nat, k: nat) -> nat
    decreases k,
{
    if k == 0 {
        1
    } else {
        base * power(base, (k - 1) as nat)
    }
}

pub proof fn lemma_hex_len(n: nat, k: nat)
    requires
        k >= 1,
        n < power(16, k),
    ensures
        hex(n).len() <= k,
        hex(n).len() >= 1,
    decreases k,
{
    if n >= 16 {
        assert(k >= 2) by {
            if k == 1 {
                assert(power(16, 1) == 16) by {
                    reveal_with_fuel(power, 2);
                }
            }
        }
        let p = power(16, (k - 1) as nat);
        assert(n / 16 < p) by (nonlinear_arith)
            requires
                n < 16 * p,
        ;
        lemma_hex_len(n / 16, (k - 1) as nat);
    }
}

pub proof fn lemma_trim_start_suffix(s: Seq<char>)
    ensures
        exists|k: int| 0 <= k <= s.len() && trim_start(s) == s.skip(k),
    decreases s.len(),
{
    if s.len() > 0 && is_space(s[0]) {
        lemma_trim_start_suffix(s.drop_first());
        let k = choose|k: int| 0 <= k <= s.drop_first().len() && trim_start(s.drop_first()) == s.drop_first().skip(k);
        assert(s.drop_first().skip(k) =~= s.skip(k + 1));
    } else {
        assert(s.skip(0) =~= s);
    }
}

// ---------------------------------------------------------------------------
// Executable helpers
// ---------------------------------------------------------------------------

/// Appends one character (`String::push`).
#[verifier::external_body]
pub(crate) fn push_char(s: &mut String, c: char)
    ensures
        final(s)@ == old(s)@.push(c),
{
    s.push(c)
}

/// Appends a string slice.
pub fn push_str(s: &mut String, other: &str)
    ensures
        final(s)@ == old(s)@ + other@,
{
    s.append(other);
}

/// Appends every character of `chars`.
pub fn push_chars(s: &mut String, chars: &Vec<char>)
    ensures
        final(s)@ == old(s)@ + chars@,
{
    let ghost start = s@;
    let n = chars.len();
    let mut i: usize = 0;
    while i < n
        invariant
            n == chars@.len(),
            i <= n,
            s@ == start + chars@.take(i as int),
        decreases n - i,
    {
        push_char(s, chars[i]);
        i = i + 1;
        assert(chars@.take(i as int) =~= chars@.take(i - 1).push(chars@[i - 1]));
    }
    assert(chars@.take(n as int) =~= chars@);
}

/// A new string holding exactly `chars`.
pub fn string_of(chars: &Vec<char>) -> (s: String)
    ensures
        s@ == chars@,
{
    let mut s = String::new();
    push_chars(&mut s, chars);
    s
}

/// A new string equal to `other`.
pub fn string_from(other: &str) -> (s: String)
    ensures
        s@ == other@,
{
    let mut s = String::new();
    push_str(&mut s, other);
    s
}

/// The characters of a string slice, in order.
pub fn chars_of(s: &str) -> (v: Vec<char>)
    ensures
        v@ == s@,
{
    let mut v: Vec<char> = Vec::new();
    for c in it: s.chars()
        invariant
            it.seq() == s@,
            v@ == it.seq().take(it.index()),
    {
        v.push(c);
    }
    v
}

pub fn digit(d: u64) -> (c: char)
    requires
        d < 16,
    ensures
        c == digit_char(d as int),
{
    if d < 10 {
        ((d as u8) + 48) as char
    } else {
        ((d as u8) + 87) as char
    }
}

/// Appends the decimal rendering of `n`.
pub fn push_dec(out: &mut String, n: u64)
    ensures
        final(out)@ == old(out)@ + dec(n as nat),
    decreases n,
{
    let ghost start = out@;
    if n >= 10 {
        push_dec(out, n / 10);
    }
    push_char(out, digit(n % 10));
    proof {
        if n >= 10 {
            assert(start + dec(n as nat) =~= (start + dec((n / 10) as nat)).push(
                digit_char((n % 10) as int),
            ));
        } else {
            assert(start + dec(n as nat) =~= start.push(digit_char(n as int)));
        }
    }
}

/// The decimal rendering of `n` as a new string.
pub fn dec_string(n: u64) -> (s: String)
    ensures
        s@ == dec(n as nat),
{
    let mut s = String::new();
    push_dec(&mut s, n);
    assert(s@ =~= dec(n as nat));
    s
}

/// Appends the lower-case hexadecimal rendering of `n`.
pub fn push_hex(out: &mut String, n: u64)
    ensures
        final(out)@ == old(out)@ + hex(n as nat),
    decreases n,
{
    let ghost start = out@;
    if n >= 16 {
        push_hex(out, n / 16);
    }
    push_char(out, digit(n % 16));
    proof {
        if n >= 16 {
            assert(start + hex(n as nat) =~= (start + hex((n / 16) as nat)).push(
                digit_char((n % 16) as int),
            ));
        } else {
            assert(start + hex(n as nat) =~= start.push(digit_char(n as int)));
        }
    }
}

/// Number of characters in `hex(n)`.
pub fn hex_len(n: u64) -> (k: usize)
    ensures
        k == hex(n as nat).len(),
        1 <= k <= 16,
    decreases n,
{
    proof {
        assert(power(16, 16) == 0x1_0000_0000_0000_0000) by {
            reveal_with_fuel(power, 17);
        }
        lemma_hex_len(n as nat, 16);
    }
    if n >= 16 {
        hex_len(n / 16) + 1
    } else {
        1
    }
}

/// Number of characters in `dec(n)`.
pub fn dec_len(n: u64) -> (k: usize)
    ensures
        k == dec(n as nat).len(),
        1 <= k <= 20,
    decreases n,
{
    proof {
        lemma_dec_nonempty(n as nat);
    }
    if n >= 10 {
        proof {
            lemma_dec_len_bound(n as nat);
        }
        dec_len(n / 10) + 1
    } else {
        1
    }
}

pub proof fn lemma_dec_len_bound(n: nat)
    requires
        n <= u64::MAX,
    ensures
        dec(n).len() <= 20,
{
    assert(power(10, 20) == 100000000000000000000) by {
        reveal_with_fuel(power, 21);
    }
    lemma_dec_len_pow(n, 20);
}

pub proof fn lemma_dec_len_pow(n: nat, k: nat)
    requires
        k >= 1,
        n < power(10, k),
    ensures
        dec(n).len() <= k,
        dec(n).len() >= 1,
    decreases k,
{
    if n >= 10 {
        assert(k >= 2) by {
            if k == 1 {
                assert(power(10, 1) == 10) by {
                    reveal_with_fuel(power, 2);
                }
            }
        }
        let p = power(10, (k - 1) as nat);
        assert(n / 10 < p) by (nonlinear_arith)
            requires
                n < 10 * p,
        ;
        lemma_dec_len_pow(n / 10, (k - 1) as nat);
    }
}

/// Appends `k` copies of `c`.
pub fn push_repeat(out: &mut String, c: char, k: usize)
    ensures
        final(out)@ == old(out)@ + repeat(c, k as nat),
{
    let ghost start = out@;
    let mut i: usize = 0;
    while i < k
        invariant
            i <= k,
            out@ == start + repeat(c, i as nat),
        decreases k - i,
    {
        push_char(out, c);
        i = i + 1;
        assert(repeat(c, i as nat) =~= repeat(c, (i - 1) as nat).push(c));
        assert(start + repeat(c, i as nat) =~= (start + repeat(c, (i - 1) as nat)).push(c));
    }
}

/// Appends `n` in lower-case hexadecimal padded with zeros to `width` digits.
pub fn push_hex_pad(out: &mut String, n: u64, width: usize)
    ensures
        final(out)@ == old(out)@ + hex_pad(n as nat, width as nat),
{
    let ghost start = out@;
    let k = hex_len(n);
    if k < width {
        push_repeat(out, '0', width - k);
    }
    push_hex(out, n);
    assert(out@ =~= start + hex_pad(n as nat, width as nat));
}

/// Appends `n` in decimal, right-aligned in `width` columns.
pub fn push_dec_right(out: &mut String, n: u64, width: usize)
    ensures
        final(out)@ == old(out)@ + dec_right(n as nat, width as nat),
{
    let ghost start = out@;
    let k = dec_len(n);
    if k < width {
        push_repeat(out, ' ', width - k);
    }
    push_dec(out, n);
    assert(out@ =~= start + dec_right(n as nat, width as nat));
}

pub fn lower_char_exec(c: char) -> (r: char)
    ensures
        r == lower_char(c),
{
    let u = c as u32;
    if 65 <= u && u <= 90 {
        ((u as u8) + 32) as char
    } else {
        c
    }
}

/// `to_ascii_lowercase` of a character sequence.
pub fn lower_chars(s: &Vec<char>) -> (r: Vec<char>)
    ensures
        r@ == lower(s@),
{
    let mut r: Vec<char> = Vec::new();
    let n = s.len();
    let mut i: usize = 0;
    while i < n
        invariant
            n == s@.len(),
            i <= n,
            r@ == lower(s@.take(i as int)),
        decreases n - i,
    {
        r.push(lower_char_exec(s[i]));
        i = i + 1;
        assert(lower(s@.take(i as int)) =~= lower(s@.take(i - 1)).push(lower_char(s@[i - 1])));
    }
    assert(s@.take(n as int) =~= s@);
    r
}

/// `to_ascii_lowercase` of a string slice, as characters.
pub fn lower_of(s: &str) -> (r: Vec<char>)
    ensures
        r@ == lower(s@),
{
    let v = chars_of(s);
    lower_chars(&v)
}

/// Whether `needle` occurs in `hay` at index `i`.
pub fn occurs_at_exec(hay: &Vec<char>, needle: &Vec<char>, i: usize) -> (b: bool)
    requires
        i + needle@.len() <= hay@.len(),
    ensures
        b == occurs_at(hay@, needle@, i as int),
{
    let m = needle.len();
    let n = hay.len();
    let mut j: usize = 0;
    while j < m
        invariant
            m == needle@.len(),
            n == hay@.len(),
            i + m <= hay@.len(),
            j <= m,
            forall|t: int| 0 <= t < j ==> hay@[i + t] == needle@[t],
        decreases m - j,
    {
        if hay[i + j] != needle[j] {
            assert(hay@.subrange(i as int, i + m)[j as int] != needle@[j as int]);
            return false;
        }
        j = j + 1;
    }
    assert(hay@.subrange(i as int, i + m) =~= needle@);
    true
}

/// `str::contains` on character sequences.
pub fn contains_exec(hay: &Vec<char>, needle: &Vec<char>) -> (b: bool)
    ensures
        b == contains(hay@, needle@),
{
    let n = hay.len();
    let m = needle.len();
    if m > n {
        assert(!contains(hay@, needle@));
        return false;
    }
    if m == 0 {
        assert(hay@.subrange(0, 0) =~= needle@);
        assert(occurs_at(hay@, needle@, 0));
        return true;
    }
    let mut i: usize = 0;
    while i <= n - m
        invariant
            n == hay@.len(),
            m == needle@.len(),
            1 <= m <= n,
            i <= n - m + 1,
            forall|t: int| 0 <= t < i ==> !occurs_at(hay@, needle@, t),
        decreases n - m + 1 - i,
    {
        if occurs_at_exec(hay, needle, i) {
            return true;
        }
        i = i + 1;
    }
    assert forall|t: int| !occurs_at(hay@, needle@, t) by {
        if 0 <= t && t + m <= n {
            assert(t < i);
        }
    }
    false
}

/// Whether `s` starts with `prefix`.
pub fn starts_with_exec(s: &Vec<char>, prefix: &Vec<char>) -> (b: bool)
    ensures
        b == starts_with(s@, prefix@),
{
    if prefix.len() > s.len() {
        return false;
    }
    let b = occurs_at_exec(s, prefix, 0);
    assert(s@.subrange(0, prefix@.len() as int) =~= s@.take(prefix@.len() as int));
    b
}

/// Whether `s` ends with `suffix`.
pub fn ends_with_exec(s: &Vec<char>, suffix: &Vec<char>) -> (b: bool)
    ensures
        b == ends_with(s@, suffix@),
{
    if suffix.len() > s.len() {
        return false;
    }
    let start = s.len() - suffix.len();
    let b = occurs_at_exec(s, suffix, start);
    assert(s@.subrange(start as int, start + suffix@.len()) =~= s@.skip(start as int));
    b
}

pub fn is_space_exec(c: char) -> (b: bool)
    ensures
        b == is_space(c),
{
    let u = c as u32;
    (9 <= u && u <= 13) || u == 32 || u == 0x85 || u == 0xa0 || u == 0x1680 || (0x2000 <= u && u
        <= 0x200a) || u == 0x2028 || u == 0x2029 || u == 0x202f || u == 0x205f || u == 0x3000
}

proof fn lemma_trim_start_skip(s: Seq<char>, i: int)
    requires
        0 <= i <= s.len(),
        forall|t: int| 0 <= t < i ==> is_space(#[trigger] s[t]),
    ensures
        trim_start(s) == trim_start(s.skip(i)),
    decreases i,
{
    if i > 0 {
        assert(is_space(s[0]));
        lemma_trim_start_skip(s.drop_first(), i - 1);
        assert(s.drop_first().skip(i - 1) =~= s.skip(i));
    } else {
        assert(s.skip(0) =~= s);
    }
}

proof fn lemma_trim_end_take(s: Seq<char>, j: int)
    requires
        0 <= j <= s.len(),
        forall|t: int| j <= t < s.len() ==> is_space(#[trigger] s[t]),
    ensures
        trim_end(s) == trim_end(s.take(j)),
    decreases s.len() - j,
{
    if j < s.len() {
        assert(is_space(s.last()));
        lemma_trim_end_take(s.drop_last(), j);
        assert(s.drop_last().take(j) =~= s.take(j));
    } else {
        assert(s.take(j) =~= s);
    }
}

/// `str::trim` on a character sequence.
pub fn trim_chars(s: &Vec<char>) -> (r: Vec<char>)
    ensures
        r@ == trim(s@),
{
    let n = s.len();
    let mut i: usize = 0;
    while i < n && is_space_exec(s[i])
        invariant
            n == s@.len(),
            i <= n,
            forall|t: int| 0 <= t < i ==> is_space(#[trigger] s@[t]),
        decreases n - i,
    {
        i = i + 1;
    }
    proof {
        lemma_trim_start_skip(s@, i as int);
    }
    let ghost rest = s@.skip(i as int);
    assert(trim_start(rest) == rest);
    let mut j: usize = n;
    while j > i && is_space_exec(s[j - 1])
        invariant
            n == s@.len(),
            i <= j <= n,
            forall|t: int| j <= t < n ==> is_space(#[trigger] s@[t]),
        decreases j,
    {
        j = j - 1;
    }
    proof {
        assert forall|t: int| j - i <= t < rest.len() implies is_space(#[trigger] rest[t]) by {
            assert(rest[t] == s@[t + i]);
        }
        lemma_trim_end_take(rest, j - i);
        let core = rest.take(j - i);
        if core.len() > 0 {
            assert(core.last() == s@[j - 1]);
        }
    }
    let mut r: Vec<char> = Vec::new();
    let mut k: usize = i;
    while k < j
        invariant
            n == s@.len(),
            i <= k <= j <= n,
            r@ == s@.subrange(i as int, k as int),
        decreases j - k,
    {
        r.push(s[k]);
        k = k + 1;
        assert(s@.subrange(i as int, k as int) =~= s@.subrange(i as int, k - 1).push(
            s@[k - 1],
        ));
    }
    assert(r@ =~= rest.take(j - i));
    r
}

/// `str::trim` of a string slice, as characters.
pub fn trim_of(s: &str) -> (r: Vec<char>)
    ensures
        r@ == trim(s@),
{
    let v = chars_of(s);
    trim_chars(&v)
}

proof fn lemma_last_segment_range(s: Seq<char>, start: int)
    requires
        0 <= start <= s.len(),
        start == 0 || s[start - 1] == '/',
        forall|t: int| start <= t < s.len() ==> s[t] != '/',
    ensures
        last_segment(s) == s.skip(start),
    decreases s.len(),
{
    if s.len() == 0 {
        assert(s.skip(start) =~= Seq::<char>::empty());
    } else if start == s.len() {
        assert(s.last() == '/');
        assert(s.skip(start) =~= Seq::<char>::empty());
    } else {
        lemma_last_segment_range(s.drop_last(), start);
        assert(s.drop_last().skip(start).push(s.last()) =~= s.skip(start));
    }
}

/// `Path::file_name` of a slash-separated path.
pub fn file_name_exec(s: &Vec<char>) -> (r: Option<Vec<char>>)
    ensures
        r matches Some(v) ==> file_name(s@) == Some(v@),
        r is None ==> file_name(s@) is None,
{
    let mut end: usize = s.len();
    assert(s@.take(end as int) =~= s@);
    loop
        invariant
            end <= s@.len(),
            file_name(s@) == file_name(s@.take(end as int)),
        decreases end,
    {
        let ghost cur = s@.take(end as int);
        if end == 0 {
            return None;
        }
        if s[end - 1] == '/' {
            assert(cur.drop_last() =~= s@.take(end - 1));
            end = end - 1;
            continue;
        }
        let mut start: usize = end - 1;
        while start > 0 && s[start - 1] != '/'
            invariant
                start < end <= s@.len(),
                forall|t: int| start <= t < end ==> s@[t] != '/',
            decreases start,
        {
            start = start - 1;
        }
        proof {
            lemma_last_segment_range(cur, start as int);
            assert(cur.skip(start as int) =~= s@.subrange(start as int, end as int));
        }
        let len = end - start;
        if len == 1 && s[start] == '.' {
            assert(last_segment(cur) =~= seq!['.']);
            assert(cur.drop_last() =~= s@.take(end - 1));
            end = end - 1;
            continue;
        }
        if len == 2 && s[start] == '.' && s[start + 1] == '.' {
            assert(last_segment(cur) =~= seq!['.', '.']);
            return None;
        }
        assert(last_segment(cur) != seq!['.']) by {
            if len == 1 {
                assert(last_segment(cur)[0] == s@[start as int]);
            } else {
                assert(last_segment(cur).len() != 1);
            }
        }
        assert(last_segment(cur) != seq!['.', '.']) by {
            if len == 2 {
                assert(last_segment(cur)[0] == s@[start as int]);
                assert(last_segment(cur)[1] == s@[start + 1]);
            } else {
                assert(last_segment(cur).len() != 2);
            }
        }
        let mut v: Vec<char> = Vec::new();
        let mut k: usize = start;
        while k < end
            invariant
                start <= k <= end <= s@.len(),
                v@ == s@.subrange(start as int, k as int),
            decreases end - k,
        {
            v.push(s[k]);
            k = k + 1;
            assert(s@.subrange(start as int, k as int) =~= s@.subrange(start as int, k - 1).push(
                s@[k - 1],
            ));
        }
        return Some(v);
    }
}

/// `Path::file_name(..).unwrap_or_default()` of a string slice.
pub fn file_name_string(s: &str) -> (r: String)
    ensures
        r@ == file_name_or_empty(s@),
{
    let v = chars_of(s);
    match file_name_exec(&v) {
        Some(name) => string_of(&name),
        None => String::new(),
    }
}

/// The pieces of `s` between occurrences of `sep`.
pub fn split_chars(s: &Vec<char>, sep: char) -> (parts: Vec<Vec<char>>)
    ensures
        parts@.len() == split_on(s@, sep).len(),
        forall|k: int| 0 <= k < parts@.len() ==> (#[trigger] parts@[k])@ == split_on(s@, sep)[k],
{
    let n = s.len();
    let mut parts: Vec<Vec<char>> = Vec::new();
    let mut cur: Vec<char> = Vec::new();
    let mut i: usize = 0;
    proof {
        assert(s@.take(0) =~= Seq::<char>::empty());
    }
    while i < n
        invariant
            n == s@.len(),
            i <= n,
            parts@.len() + 1 == split_on(s@.take(i as int), sep).len(),
            forall|k: int| 0 <= k < parts@.len() ==> (#[trigger] parts@[k])@ == split_on(
                s@.take(i as int),
                sep,
            )[k],
            cur@ == split_on(s@.take(i as int), sep).last(),
        decreases n - i,
    {
        let c = s[i];
        proof {
            assert(s@.take(i + 1).drop_last() =~= s@.take(i as int));
            lemma_split_on_nonempty(s@.take(i as int), sep);
        }
        if c == sep {
            parts.push(cur);
            cur = Vec::new();
        } else {
            cur.push(c);
        }
        i = i + 1;
        proof {
            let p = split_on(s@.take(i - 1), sep);
            let q = split_on(s@.take(i as int), sep);
            assert forall|k: int| 0 <= k < parts@.len() implies (#[trigger] parts@[k])@ == q[k] by {
                if c != sep {
                    assert(q[k] == p[k]);
                }
            }
        }
    }
    parts.push(cur);
    assert(s@.take(n as int) =~= s@);
    parts
}

/// Index of the last occurrence of `c` in `s`.
pub fn last_index_of_exec(s: &Vec<char>, c: char) -> (r: Option<usize>)
    ensures
        r matches Some(i) ==> last_index_of(s@, c) == Some(i as int) && i < s@.len(),
        r is None ==> last_index_of(s@, c) is None,
{
    let mut i: usize = s.len();
    assert(s@.take(i as int) =~= s@);
    while i > 0
        invariant
            i <= s@.len(),
            last_index_of(s@, c) == last_index_of(s@.take(i as int), c),
        decreases i,
    {
        if s[i - 1] == c {
            assert(s@.take(i as int).last() == c);
            return Some(i - 1);
        }
        assert(s@.take(i as int).drop_last() =~= s@.take(i - 1));
        i = i - 1;
    }
    None
}

} // verus!
