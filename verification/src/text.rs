//! Text as the routing rules read it: ASCII case, substrings and decimal ids.

use vstd::prelude::*;
use vstd::string::*;

verus! {

/// The character with the ASCII letters `A` to `Z` lowered.
pub open spec fn ascii_lower(c: char) -> char {
    if 'A' <= c <= 'Z' {
        ((c as u32) + 32) as char
    } else {
        c
    }
}

/// The text with each of its ASCII letters lowered.
pub open spec fn lowered(s: Seq<char>) -> Seq<char> {
    s.map_values(|c: char| ascii_lower(c))
}

/// Whether `needle` stands in `hay` from position `at` on.
pub open spec fn occurs_at(hay: Seq<char>, needle: Seq<char>, at: int) -> bool {
    &&& 0 <= at
    &&& at + needle.len() <= hay.len()
    &&& hay.subrange(at, at + needle.len()) == needle
}

/// Whether `needle` stands anywhere in `hay`.
pub open spec fn has_text(hay: Seq<char>, needle: Seq<char>) -> bool {
    exists|at: int| occurs_at(hay, needle, at)
}

/// Whether the character is one of `0` to `9`.
pub open spec fn is_digit(c: char) -> bool {
    '0' <= c <= '9'
}

/// The number that a character stands for as a decimal digit.
pub open spec fn digit_value(c: char) -> nat {
    ((c as int) - ('0' as int)) as nat
}

/// The number that a row of decimal digits stands for.
pub open spec fn digits_value(s: Seq<char>) -> nat
    decreases s.len(),
{
    if s.len() == 0 {
        0
    } else {
        10 * digits_value(s.drop_last()) + digit_value(s.last())
    }
}

/// Whether the text is one or more decimal digits and nothing else.
pub open spec fn is_decimal(s: Seq<char>) -> bool {
    s.len() > 0 && forall|i: int| 0 <= i < s.len() ==> is_digit(#[trigger] s[i])
}

/// The text without the one leading `+` that a decimal number may carry.
pub open spec fn unsigned_part(s: Seq<char>) -> Seq<char> {
    if s.len() > 0 && s[0] == '+' {
        s.skip(1)
    } else {
        s
    }
}

/// The object id that a property's text stands for, if it is one.
pub open spec fn parsed_id(s: Seq<char>) -> Option<u32> {
    let d = unsigned_part(s);
    if is_decimal(d) && digits_value(d) <= u32::MAX {
        Some(digits_value(d) as u32)
    } else {
        None
    }
}

/// The decimal digit for a number below ten.
pub open spec fn digit_char(d: nat) -> char {
    (('0' as u32) + d) as char
}

/// The decimal text of a number, without leading zeros.
pub open spec fn decimal(n: nat) -> Seq<char>
    decreases n,
{
    if n < 10 {
        seq![digit_char(n)]
    } else {
        decimal(n / 10).push(digit_char(n % 10))
    }
}

/// The characters of a text, in order.
pub fn chars_of(s: &str) -> (v: Vec<char>)
    ensures
        v@ == s@,
{
    let mut v: Vec<char> = Vec::new();
    for c in it: s.chars()
        invariant
            v@.len() == it.index(),
            forall|i: int| 0 <= i < v@.len() ==> v@[i] == it.seq()[i],
            it.seq() == s@,
    {
        v.push(c);
    }
    v
}

/// Lowers one ASCII letter.
pub fn lower_char(c: char) -> (r: char)
    ensures
        r == ascii_lower(c),
{
    if 'A' <= c && c <= 'Z' {
        ((c as u8) + 32) as char
    } else {
        c
    }
}

/// Lowers the ASCII letters of a text.
pub fn lower_chars(s: &str) -> (v: Vec<char>)
    ensures
        v@ == lowered(s@),
{
    let mut v = chars_of(s);
    let mut i: usize = 0;
    while i < v.len()
        invariant
            i <= v.len(),
            v@.len() == s@.len(),
            forall|j: int| 0 <= j < i ==> v@[j] == ascii_lower(s@[j]),
            forall|j: int| i <= j < v@.len() ==> v@[j] == s@[j],
        decreases v.len() - i,
    {
        let c = lower_char(v[i]);
        v.set(i, c);
        i += 1;
    }
    v
}

/// Whether `needle` stands in `hay` from position `at` on.
fn matches_at(hay: &Vec<char>, needle: &Vec<char>, at: usize) -> (r: bool)
    requires
        at + needle@.len() <= hay@.len(),
    ensures
        r == occurs_at(hay@, needle@, at as int),
{
    let mut j: usize = 0;
    while j < needle.len()
        invariant
            j <= needle@.len(),
            at + needle.len() <= hay.len(),
            forall|k: int| 0 <= k < j ==> hay@[at + k] == needle@[k],
        decreases needle.len() - j,
    {
        if hay[at + j] != needle[j] {
            assert(hay@.subrange(at as int, at + needle@.len())[j as int] != needle@[j as int]);
            return false;
        }
        j += 1;
    }
    assert(hay@.subrange(at as int, at + needle@.len()) =~= needle@);
    true
}

/// Whether `needle` stands anywhere in `hay`.
pub fn contains_chars(hay: &Vec<char>, needle: &Vec<char>) -> (r: bool)
    ensures
        r == has_text(hay@, needle@),
{
    if needle.len() > hay.len() {
        return false;
    }
    let last = hay.len() - needle.len();
    let mut at: usize = 0;
    while at <= last
        invariant
            last == hay@.len() - needle@.len(),
            at <= last + 1,
            last <= hay@.len(),
            forall|k: int| 0 <= k < at ==> !occurs_at(hay@, needle@, k),
        decreases last + 1 - at,
    {
        if matches_at(hay, needle, at) {
            return true;
        }
        if at == last {
            return false;
        }
        at += 1;
    }
    false
}

/// Whether the text holds the given word.
pub fn contains_word(s: &str, word: &str) -> (r: bool)
    ensures
        r == has_text(s@, word@),
{
    contains_chars(&chars_of(s), &chars_of(word))
}

/// Whether two texts are the same.
pub fn same_text(a: &str, b: &str) -> (r: bool)
    ensures
        r == (a@ == b@),
{
    let x = chars_of(a);
    let y = chars_of(b);
    if x.len() != y.len() {
        return false;
    }
    let mut i: usize = 0;
    while i < x.len()
        invariant
            i <= x@.len(),
            x@.len() == y@.len(),
            x@ == a@,
            y@ == b@,
            forall|k: int| 0 <= k < i ==> x@[k] == y@[k],
        decreases x.len() - i,
    {
        if x[i] != y[i] {
            return false;
        }
        i += 1;
    }
    assert(x@ =~= y@);
    true
}

/// Reads a decimal object id, such as a registry property carries.
pub fn parse_id(s: &str) -> (r: Option<u32>)
    ensures
        r == parsed_id(s@),
{
    let v = chars_of(s);
    let start: usize = if v.len() > 0 && v[0] == '+' { 1 } else { 0 };
    let ghost d = unsigned_part(s@);
    assert(d =~= v@.subrange(start as int, v@.len() as int));
    if start == v.len() {
        return None;
    }
    let mut value: u32 = 0;
    let mut i: usize = start;
    while i < v.len()
        invariant
            start <= i <= v@.len(),
            start < v@.len(),
            d == v@.subrange(start as int, v@.len() as int),
            d == unsigned_part(s@),
            forall|k: int| 0 <= k < i - start ==> is_digit(#[trigger] d[k]),
            value == digits_value(d.take(i - start)),
        decreases v.len() - i,
    {
        let c = v[i];
        assert(d[i - start] == c);
        if c < '0' || '9' < c {
            return None;
        }
        let digit: u32 = (c as u32) - ('0' as u32);
        proof {
            assert(d.take(i - start + 1).drop_last() =~= d.take(i - start));
            assert(d.take(i - start + 1).last() == c);
            assert(digits_value(d.take(i - start + 1)) == 10 * value + digit);
            lemma_digits_value_grows(d, i - start + 1);
        }
        if value > (u32::MAX - digit) / 10 {
            return None;
        }
        value = value * 10 + digit;
        i += 1;
    }
    assert(d.take(v@.len() - start) =~= d);
    Some(value)
}

/// A row of digits stands for at least what any of its leading parts stands for.
proof fn lemma_digits_value_grows(d: Seq<char>, n: int)
    requires
        0 <= n <= d.len(),
    ensures
        digits_value(d.take(n)) <= digits_value(d),
    decreases d.len() - n,
{
    if n == d.len() {
        assert(d.take(n) =~= d);
    } else {
        assert(d.take(n + 1).drop_last() =~= d.take(n));
        lemma_digits_value_grows(d, n + 1);
    }
}

/// The text of one decimal digit.
fn digit_text(d: u32) -> (r: &'static str)
    requires
        d < 10,
    ensures
        r@ == seq![digit_char(d as nat)],
{
    proof {
        reveal_strlit("0");
        reveal_strlit("1");
        reveal_strlit("2");
        reveal_strlit("3");
        reveal_strlit("4");
        reveal_strlit("5");
        reveal_strlit("6");
        reveal_strlit("7");
        reveal_strlit("8");
        reveal_strlit("9");
    }
    if d == 0 {
        "0"
    } else if d == 1 {
        "1"
    } else if d == 2 {
        "2"
    } else if d == 3 {
        "3"
    } else if d == 4 {
        "4"
    } else if d == 5 {
        "5"
    } else if d == 6 {
        "6"
    } else if d == 7 {
        "7"
    } else if d == 8 {
        "8"
    } else {
        "9"
    }
}

/// Writes an object id in decimal.
pub fn format_id(n: u32) -> (r: String)
    ensures
        r@ == decimal(n as nat),
    decreases n,
{
    if n < 10 {
        String::from_str(digit_text(n))
    } else {
        let mut r = format_id(n / 10);
        r.append(digit_text(n % 10));
        assert(r@ =~= decimal(n as nat));
        r
    }
}

/// The decimal text of a number is digits only and stands for that number.
pub proof fn decimal_round_trip(n: nat)
    ensures
        is_decimal(decimal(n)),
        digits_value(decimal(n)) == n,
    decreases n,
{
    if n < 10 {
        let s = decimal(n);
        assert(s.drop_last() =~= Seq::<char>::empty());
        assert(digits_value(s.drop_last()) == 0);
    } else {
        decimal_round_trip(n / 10);
        let s = decimal(n);
        assert(s.drop_last() =~= decimal(n / 10));
        assert forall|i: int| 0 <= i < s.len() implies is_digit(#[trigger] s[i]) by {
            if i < s.len() - 1 {
                assert(s[i] == decimal(n / 10)[i]);
            }
        }
    }
}

/// An object id that is written in decimal reads back as itself.
pub proof fn id_round_trip(n: u32)
    ensures
        parsed_id(decimal(n as nat)) == Some(n),
{
    decimal_round_trip(n as nat);
    let s = decimal(n as nat);
    assert(is_digit(s[0]));
}

/// Whether one text comes before another: they agree up to some point, and there the first
/// one ends or has the lower character.
pub open spec fn text_before(a: Seq<char>, b: Seq<char>) -> bool {
    exists|k: int| #[trigger] parts_at(a, b, k)
}

/// Whether two texts agree before position `k` and the first one is lower there.
pub open spec fn parts_at(a: Seq<char>, b: Seq<char>, k: int) -> bool {
    &&& 0 <= k <= a.len()
    &&& k < b.len()
    &&& a.take(k) == b.take(k)
    &&& (k == a.len() || a[k] < b[k])
}

/// Whether one text comes before another.
pub fn comes_before(a: &str, b: &str) -> (r: bool)
    ensures
        r == text_before(a@, b@),
{
    let x = chars_of(a);
    let y = chars_of(b);
    let mut i: usize = 0;
    while i < x.len() && i < y.len() && x[i] == y[i]
        invariant
            i <= x@.len(),
            i <= y@.len(),
            x@ == a@,
            y@ == b@,
            forall|k: int| 0 <= k < i ==> x@[k] == y@[k],
        decreases x.len() - i,
    {
        i += 1;
    }
    proof {
        assert(a@.take(i as int) =~= b@.take(i as int));
        assert forall|k: int| k != i implies !parts_at(a@, b@, k) by {
            if parts_at(a@, b@, k) && k > i {
                assert(a@.take(k)[i as int] == b@.take(k)[i as int]);
            }
        }
        assert(text_before(a@, b@) == parts_at(a@, b@, i as int));
    }
    i < y.len() && (i == x.len() || x[i] < y[i])
}

/// No two texts come before each other, and of two different texts one comes first.
pub proof fn text_order_is_total(a: Seq<char>, b: Seq<char>)
    ensures
        !(text_before(a, b) && text_before(b, a)),
        a == b || text_before(a, b) || text_before(b, a),
        !text_before(a, a),
{
    if text_before(a, b) && text_before(b, a) {
        let i = choose|i: int| #[trigger] parts_at(a, b, i);
        let j = choose|j: int| #[trigger] parts_at(b, a, j);
        if i < j {
            assert(a.take(j)[i] == b.take(j)[i]);
        } else if j < i {
            assert(a.take(i)[j] == b.take(i)[j]);
        }
    }
    if a != b {
        assert(a.take(0) =~= b.take(0));
        lemma_some_difference(a, b, 0);
    }
    if text_before(a, a) {
        let i = choose|i: int| #[trigger] parts_at(a, a, i);
    }
}

proof fn lemma_some_difference(a: Seq<char>, b: Seq<char>, k: int)
    requires
        0 <= k <= a.len(),
        k <= b.len(),
        a != b,
        a.take(k) == b.take(k),
    ensures
        text_before(a, b) || text_before(b, a),
    decreases a.len() - k,
{
    if k == a.len() && k == b.len() {
        assert(a.take(k) =~= a);
        assert(b.take(k) =~= b);
    } else if k == a.len() {
        assert(parts_at(a, b, k));
    } else if k == b.len() {
        assert(parts_at(b, a, k));
    } else if a[k] < b[k] {
        assert(parts_at(a, b, k));
    } else if b[k] < a[k] {
        assert(parts_at(b, a, k));
    } else {
        assert(a.take(k + 1) =~= a.take(k).push(a[k]));
        assert(b.take(k + 1) =~= b.take(k).push(b[k]));
        lemma_some_difference(a, b, k + 1);
    }
}

/// Coming before carries over.
pub proof fn text_order_is_transitive(a: Seq<char>, b: Seq<char>, c: Seq<char>)
    requires
        text_before(a, b),
        text_before(b, c),
    ensures
        text_before(a, c),
{
    let i = choose|i: int| #[trigger] parts_at(a, b, i);
    let j = choose|j: int| #[trigger] parts_at(b, c, j);
    let k = if i < j { i } else { j };
    assert(a.take(k) =~= c.take(k)) by {
        assert forall|m: int| 0 <= m < k implies a[m] == c[m] by {
            assert(a.take(i)[m] == b.take(i)[m]);
            assert(b.take(j)[m] == c.take(j)[m]);
        }
    }
    if i < j {
        assert(b.take(j)[i] == c.take(j)[i]);
    } else if j < i {
        assert(a.take(i)[j] == b.take(i)[j]);
    }
    assert(parts_at(a, c, k));
}

/// A text is found where all of its characters stand in a row, and only ASCII letters change
/// when a text is lowered.
pub proof fn texts_are_found_as_they_stand(
    before: Seq<char>,
    needle: Seq<char>,
    after: Seq<char>,
    i: int,
)
    requires
        0 <= i < before.len(),
    ensures
        has_text(before + needle + after, needle),
        needle.len() > before.len() ==> !has_text(before, needle),
        lowered(before).len() == before.len(),
        ('A' <= before[i] && before[i] <= 'Z') ==> lowered(before)[i] as u32 == before[i] as u32
            + 32,
        !('A' <= before[i] && before[i] <= 'Z') ==> lowered(before)[i] == before[i],
{
    let hay = before + needle + after;
    assert(occurs_at(hay, needle, before.len() as int)) by {
        assert(hay.subrange(before.len() as int, (before.len() + needle.len()) as int) =~= needle);
    }
}

/// A text comes before all longer ones that begin with it, and of two texts that part at a
/// character the one with the smaller character comes first.
pub proof fn texts_go_by_their_first_difference(
    common: Seq<char>,
    x: char,
    y: char,
    rest: Seq<char>,
    other: Seq<char>,
)
    requires
        x < y,
    ensures
        text_before(common, common.push(x) + rest),
        text_before(common.push(x) + rest, common.push(y) + other),
        !text_before(common.push(y) + other, common.push(x) + rest),
{
    let a = common.push(x) + rest;
    let b = common.push(y) + other;
    let k = common.len() as int;
    assert(common.take(k) =~= a.take(k));
    assert(a.take(k) =~= b.take(k));
    assert(parts_at(common, a, k));
    assert(parts_at(a, b, k));
    if text_before(b, a) {
        let m = choose|m: int| #[trigger] parts_at(b, a, m);
        if m < k {
            assert(a[m] == common[m] && b[m] == common[m]);
        } else if m > k {
            assert(a.take(m)[k] == a[k] && b.take(m)[k] == b[k]);
        }
    }
}

} // verus!
