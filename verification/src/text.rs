//! Text: decimal numerals, and the few operations on strings that the
//! bundler needs, stated over sequences of characters.

use vstd::prelude::*;

verus! {

/// The character of a decimal digit.
pub open spec fn digit(d: nat) -> char {
    (48 + d) as char
}

/// The decimal numeral of a number, without leading zeros.
pub open spec fn decimal(n: nat) -> Seq<char>
    decreases n,
{
    if n < 10 {
        seq![digit(n)]
    } else {
        decimal(n / 10).push(digit(n % 10))
    }
}

/// `String::push`: appends one character to the end of the string.
pub assume_specification[ String::push ](s: &mut String, c: char)
    ensures
        final(s)@ == old(s)@.push(c),
;

/// Writes a number in decimal.
pub fn decimal_text_wide(n: u128) -> (r: String)
    ensures
        r@ == decimal(n as nat),
    decreases n,
{
    let d: u8 = (n % 10) as u8;
    let c: char = (48 + d) as char;
    let mut r: String = if n < 10 {
        String::new()
    } else {
        decimal_text_wide(n / 10)
    };
    r.push(c);
    assert(n < 10 ==> r@ =~= seq![digit(n as nat)]);
    r
}

/// Writes a number in decimal.
pub fn decimal_text(n: usize) -> (r: String)
    ensures
        r@ == decimal(n as nat),
{
    decimal_text_wide(n as u128)
}

/// Two numbers with the same numeral are the same number.
pub proof fn lemma_decimal_injective(a: nat, b: nat)
    requires
        decimal(a) == decimal(b),
    ensures
        a == b,
    decreases a,
{
    assert(decimal(a).last() == digit(a % 10));
    assert(decimal(b).last() == digit(b % 10));
    assert(a % 10 == b % 10);
    lemma_decimal_len(a);
    lemma_decimal_len(b);
    if a >= 10 && b >= 10 {
        assert(decimal(a).drop_last() =~= decimal(a / 10));
        assert(decimal(b).drop_last() =~= decimal(b / 10));
        lemma_decimal_injective(a / 10, b / 10);
    }
}

proof fn lemma_decimal_len(n: nat)
    ensures
        decimal(n).len() >= 1,
        n >= 10 <==> decimal(n).len() > 1,
    decreases n,
{
    if n >= 10 {
        lemma_decimal_len(n / 10);
    }
}

/// Whether two strings hold the same characters.
pub fn same_text(a: &str, b: &str) -> (r: bool)
    ensures
        r == (a@ == b@),
{
    a.to_owned() == b.to_owned()
}

/// The characters of a string.
pub fn characters(s: &str) -> (r: Vec<char>)
    ensures
        r@ == s@,
{
    let mut r: Vec<char> = Vec::new();
    for c in it: s.chars()
        invariant
            r@ == it.seq().take(it.index() as int),
            it.seq() == s@,
    {
        r.push(c);
        assert(r@ =~= it.seq().take(it.index() + 1));
    }
    assert(r@ =~= s@);
    r
}

/// The string of the characters from `from` up to `to`.
pub fn text_between(chars: &Vec<char>, from: usize, to: usize) -> (r: String)
    requires
        from <= to <= chars@.len(),
    ensures
        r@ == chars@.subrange(from as int, to as int),
{
    let mut r: String = String::new();
    let mut i: usize = from;
    while i < to
        invariant
            from <= i <= to <= chars@.len(),
            r@ == chars@.subrange(from as int, i as int),
        decreases to - i,
    {
        r.push(chars[i]);
        i = i + 1;
        assert(r@ =~= chars@.subrange(from as int, i as int));
    }
    r
}

/// Whether one sequence of characters begins with another.
pub open spec fn begins_with(s: Seq<char>, prefix: Seq<char>) -> bool {
    prefix.len() <= s.len() && s.take(prefix.len() as int) == prefix
}

/// Whether `s` begins with `prefix`.
pub fn starts_with(s: &str, prefix: &str) -> (r: bool)
    ensures
        r == begins_with(s@, prefix@),
{
    let a: Vec<char> = characters(s);
    let b: Vec<char> = characters(prefix);
    if b.len() > a.len() {
        return false;
    }
    let mut i: usize = 0;
    while i < b.len()
        invariant
            i <= b@.len() <= a@.len(),
            a@ == s@,
            b@ == prefix@,
            forall|j: int| 0 <= j < i ==> a@[j] == b@[j],
        decreases b@.len() - i,
    {
        if a[i] != b[i] {
            assert(s@.take(prefix@.len() as int)[i as int] != prefix@[i as int]);
            return false;
        }
        i = i + 1;
    }
    assert(s@.take(prefix@.len() as int) =~= prefix@);
    true
}

/// `text` without `prefix` in front, or `text` itself where it does not begin
/// with it.
pub open spec fn without_prefix(s: Seq<char>, prefix: Seq<char>) -> Seq<char> {
    if begins_with(s, prefix) {
        s.skip(prefix.len() as int)
    } else {
        s
    }
}

/// Removes `prefix` from the front of `s`, if it is there.
pub fn strip_prefix_or_whole(s: &str, prefix: &str) -> (r: String)
    ensures
        r@ == without_prefix(s@, prefix@),
{
    if starts_with(s, prefix) {
        let a: Vec<char> = characters(s);
        let b: Vec<char> = characters(prefix);
        let r: String = text_between(&a, b.len(), a.len());
        assert(r@ =~= s@.skip(prefix@.len() as int));
        r
    } else {
        s.to_owned()
    }
}

/// Whether `needle` stands somewhere in `s`.
pub open spec fn holds_text(s: Seq<char>, needle: Seq<char>) -> bool {
    exists|i: int| 0 <= i <= s.len() && #[trigger] begins_with(s.skip(i), needle)
}


/// Whether `needle` stands somewhere in `s`.
pub fn contains_text(s: &str, needle: &str) -> (r: bool)
    ensures
        r == holds_text(s@, needle@),
{
    let a: Vec<char> = characters(s);
    let b: Vec<char> = characters(needle);
    if b.len() > a.len() {
        assert forall|i: int| 0 <= i <= s@.len() implies !(#[trigger] begins_with(
            s@.skip(i),
            needle@,
        )) by {}
        return false;
    }
    let last: usize = a.len() - b.len();
    let mut i: usize = 0;
    while i <= last
        invariant
            i <= last + 1,
            last == a@.len() - b@.len(),
            a@ == s@,
            b@ == needle@,
            forall|k: int| 0 <= k < i ==> !(#[trigger] begins_with(s@.skip(k), needle@)),
        decreases last + 1 - i,
    {
        let mut j: usize = 0;
        assert(a.len() == a@.len());
        while j < b.len() && a[i + j] == b[j]
            invariant
                j <= b@.len(),
                i <= last,
                last == a@.len() - b@.len(),
                a@.len() <= usize::MAX,
                forall|k: int| 0 <= k < j ==> a@[i + k] == b@[k],
            decreases b@.len() - j,
        {
            j = j + 1;
        }
        if j == b.len() {
            assert(s@.skip(i as int).take(needle@.len() as int) =~= needle@);
            assert(begins_with(s@.skip(i as int), needle@));
            return true;
        }
        assert(s@.skip(i as int).take(needle@.len() as int)[j as int] != needle@[j as int]);
        if i == last {
            assert forall|k: int| 0 <= k <= s@.len() implies !(#[trigger] begins_with(
                s@.skip(k),
                needle@,
            )) by {
                assert(s@.skip(k).len() == s@.len() - k);
            }
            return false;
        }
        i = i + 1;
    }
    false
}

/// What stands before the last `c`, if there is one.
pub open spec fn before_last(s: Seq<char>, c: char) -> Option<Seq<char>>
    decreases s.len(),
{
    if s.len() == 0 {
        None
    } else if s.last() == c {
        Some(s.drop_last())
    } else {
        before_last(s.drop_last(), c)
    }
}

/// What stands before the last `c` of `s`, if there is one.
pub fn text_before_last(s: &str, c: char) -> (r: Option<String>)
    ensures
        match r {
            Some(t) => before_last(s@, c) == Some(t@),
            None => before_last(s@, c) is None,
        },
{
    let a: Vec<char> = characters(s);
    let mut n: usize = a.len();
    assert(s@.take(n as int) =~= s@);
    while n > 0
        invariant
            n <= a@.len(),
            a@ == s@,
            before_last(s@, c) == before_last(s@.take(n as int), c),
        decreases n,
    {
        assert(s@.take(n as int).drop_last() =~= s@.take(n - 1));
        if a[n - 1] == c {
            let r: String = text_between(&a, 0, n - 1);
            assert(r@ =~= s@.take(n - 1));
            return Some(r);
        }
        n = n - 1;
    }
    None
}

/// What stands before the first `c`, or the whole text.
pub open spec fn before_first(s: Seq<char>, c: char) -> Seq<char>
    decreases s.len(),
{
    if s.len() == 0 || s[0] == c {
        Seq::empty()
    } else {
        seq![s[0]] + before_first(s.skip(1), c)
    }
}

/// What stands before the first `c` of `s`, or the whole of `s`.
pub fn text_before_first(s: &str, c: char) -> (r: String)
    ensures
        r@ == before_first(s@, c),
{
    let a: Vec<char> = characters(s);
    let mut r: String = String::new();
    let mut i: usize = 0;
    assert(s@.skip(0) =~= s@);
    assert(r@ + before_first(s@.skip(0), c) =~= before_first(s@, c));
    while i < a.len() && a[i] != c
        invariant
            i <= a@.len(),
            a@ == s@,
            r@ + before_first(s@.skip(i as int), c) == before_first(s@, c),
        decreases a@.len() - i,
    {
        assert(s@.skip(i as int).skip(1) =~= s@.skip(i + 1));
        let ghost before = r@;
        r.push(a[i]);
        assert(r@ + before_first(s@.skip(i + 1), c) =~= before + (seq![s@[i as int]]
            + before_first(s@.skip(i + 1), c)));
        i = i + 1;
    }
    assert(r@ =~= before_first(s@, c));
    r
}

/// Whether a character is a letter or a number, as Unicode has it.
pub uninterp spec fn alphanumeric(c: char) -> bool;

/// `char::is_alphanumeric`, which Unicode's tables of letters and numbers
/// decide for each character by itself.
pub assume_specification[ char::is_alphanumeric ](c: char) -> (r: bool)
    ensures
        r == alphanumeric(c),
;

/// Whether a character is white space, as Unicode has it: it has the property
/// `White_Space`.
pub open spec fn white(c: char) -> bool {
    let n = c as int;
    ||| 0x9 <= n <= 0xd
    ||| n == 0x20
    ||| n == 0x85
    ||| n == 0xa0
    ||| n == 0x1680
    ||| 0x2000 <= n <= 0x200a
    ||| n == 0x2028
    ||| n == 0x2029
    ||| n == 0x202f
    ||| n == 0x205f
    ||| n == 0x3000
}

/// `char::is_whitespace`, which tells whether a character has Unicode's property
/// `White_Space`.
pub assume_specification[ char::is_whitespace ](c: char) -> (r: bool)
    ensures
        r == white(c),
;

/// The text without white space at its two ends.
pub open spec fn trimmed(s: Seq<char>) -> Seq<char>
    decreases s.len(),
{
    if s.len() > 0 && white(s[0]) {
        trimmed(s.skip(1))
    } else if s.len() > 0 && white(s.last()) {
        trimmed(s.drop_last())
    } else {
        s
    }
}

/// The text without white space at its two ends.
pub fn trim(s: &str) -> (r: String)
    ensures
        r@ == trimmed(s@),
{
    let a: Vec<char> = characters(s);
    let mut from: usize = 0;
    let mut to: usize = a.len();
    assert(s@.subrange(0, s@.len() as int) =~= s@);
    while from < to && a[from].is_whitespace()
        invariant
            from <= to == a@.len(),
            a@ == s@,
            trimmed(s@) == trimmed(s@.subrange(from as int, to as int)),
        decreases to - from,
    {
        assert(s@.subrange(from as int, to as int).skip(1) =~= s@.subrange(from + 1, to as int));
        from = from + 1;
    }
    while from < to && a[to - 1].is_whitespace()
        invariant
            from <= to <= a@.len(),
            a@ == s@,
            from < to ==> !white(s@[from as int]),
            trimmed(s@) == trimmed(s@.subrange(from as int, to as int)),
        decreases to - from,
    {
        assert(s@.subrange(from as int, to as int).drop_last() =~= s@.subrange(
            from as int,
            to - 1,
        ));
        to = to - 1;
    }
    text_between(&a, from, to)
}

/// What a sequence of strings holds.
pub open spec fn texts(s: Seq<String>) -> Seq<Seq<char>> {
    Seq::new(s.len(), |i: int| s[i]@)
}

pub broadcast proof fn lemma_texts_push(s: Seq<String>, t: String)
    ensures
        #[trigger] texts(s.push(t)) == texts(s).push(t@),
{
    assert(texts(s.push(t)) =~= texts(s).push(t@));
}

/// Whether the text is one of the strings.
pub fn holds(v: &Vec<String>, text: &str) -> (r: bool)
    ensures
        r == texts(v@).contains(text@),
{
    let mut i: usize = 0;
    while i < v.len()
        invariant
            i <= v@.len(),
            forall|j: int| 0 <= j < i ==> (#[trigger] texts(v@)[j]) != text@,
        decreases v@.len() - i,
    {
        if same_text(v[i].as_str(), text) {
            assert(texts(v@)[i as int] == text@);
            return true;
        }
        i = i + 1;
    }
    false
}

/// Whether `a` comes before `b` in the order of texts, where both are the same
/// up to `from`.
pub open spec fn less_from(a: Seq<char>, b: Seq<char>, from: int) -> bool
    decreases a.len() - from,
{
    if from >= b.len() {
        false
    } else if from >= a.len() {
        true
    } else if a[from] != b[from] {
        (a[from] as int) < (b[from] as int)
    } else {
        less_from(a, b, from + 1)
    }
}

/// Whether `a` comes before `b` in the order of texts, which goes by the first
/// character in which they differ.
pub open spec fn text_less(a: Seq<char>, b: Seq<char>) -> bool {
    less_from(a, b, 0)
}

proof fn lemma_less_from(a: Seq<char>, b: Seq<char>, from: int)
    requires
        0 <= from <= a.len(),
        from <= b.len(),
        a.take(from) == b.take(from),
    ensures
        !(less_from(a, b, from) && less_from(b, a, from)),
        !less_from(a, b, from) && !less_from(b, a, from) ==> a == b,
    decreases a.len() - from,
{
    if from < a.len() && from < b.len() {
        if a[from] == b[from] {
            assert(a.take(from + 1) =~= a.take(from).push(a[from]));
            assert(b.take(from + 1) =~= b.take(from).push(b[from]));
            lemma_less_from(a, b, from + 1);
        } else {
            assert(a[from] as int != b[from] as int);
        }
    } else if from == a.len() && from == b.len() {
        assert(a =~= a.take(from));
        assert(b =~= b.take(from));
    }
}

/// Of two texts one comes before the other, unless they are the same.
pub proof fn lemma_text_order(a: Seq<char>, b: Seq<char>)
    ensures
        !(text_less(a, b) && text_less(b, a)),
        !text_less(a, a),
        a == b || text_less(a, b) || text_less(b, a),
{
    assert(a.take(0) =~= b.take(0));
    lemma_less_from(a, b, 0);
    lemma_less_from(a, a, 0);
}

proof fn lemma_less_from_transitive(a: Seq<char>, b: Seq<char>, c: Seq<char>, from: int)
    requires
        0 <= from,
        less_from(a, b, from),
        less_from(b, c, from),
    ensures
        less_from(a, c, from),
    decreases a.len() - from,
{
    if from < a.len() && a[from] == b[from] && b[from] == c[from] {
        lemma_less_from_transitive(a, b, c, from + 1);
    }
}

/// The order of texts is transitive.
pub proof fn lemma_text_less_transitive(a: Seq<char>, b: Seq<char>, c: Seq<char>)
    requires
        text_less(a, b),
        text_less(b, c),
    ensures
        text_less(a, c),
{
    lemma_less_from_transitive(a, b, c, 0);
}

/// Whether `a` comes before `b` in the order of texts.
pub fn comes_before(a: &str, b: &str) -> (r: bool)
    ensures
        r == text_less(a@, b@),
{
    let x: Vec<char> = characters(a);
    let y: Vec<char> = characters(b);
    let mut i: usize = 0;
    while i < x.len() && i < y.len() && x[i] == y[i]
        invariant
            i <= x@.len(),
            i <= y@.len(),
            x@ == a@,
            y@ == b@,
            text_less(a@, b@) == less_from(a@, b@, i as int),
        decreases x@.len() - i,
    {
        i = i + 1;
    }
    if i >= y.len() {
        false
    } else if i >= x.len() {
        true
    } else {
        let c: char = x[i];
        let d: char = y[i];
        c < d
    }
}

/// Whether each text comes before those behind it.
pub open spec fn sorted(s: Seq<Seq<char>>) -> bool {
    forall|i: int, j: int| 0 <= i < j < s.len() ==> text_less(#[trigger] s[i], #[trigger] s[j])
}

/// Puts a text in its place among sorted ones, unless it is there already.
pub fn insert_sorted(v: &mut Vec<String>, text: &str)
    requires
        sorted(texts(old(v)@)),
    ensures
        sorted(texts(final(v)@)),
        forall|t: Seq<char>| #[trigger]
            texts(final(v)@).contains(t) <==> texts(old(v)@).contains(t) || t == text@,
{
    let ghost before = texts(v@);
    let mut i: usize = 0;
    while i < v.len() && comes_before(v[i].as_str(), text)
        invariant
            i <= v@.len(),
            texts(v@) == before,
            forall|j: int| 0 <= j < i ==> text_less(#[trigger] before[j], text@),
        decreases v@.len() - i,
    {
        assert(before[i as int] == v@[i as int]@);
        i = i + 1;
    }
    if i < v.len() && same_text(v[i].as_str(), text) {
        assert(before[i as int] == text@);
        return ;
    }
    v.insert(i, text.to_owned());
    let ghost after = texts(v@);
    assert(after =~= before.insert(i as int, text@));
    assert forall|t: Seq<char>| #[trigger] after.contains(t) <==> before.contains(t) || t
        == text@ by {
        if before.contains(t) {
            let k = before.index_of(t);
            assert(before[k] == t);
            if k < i {
                assert(after[k] == t);
            } else {
                assert(after[k + 1] == t);
            }
        }
        if t == text@ {
            assert(after[i as int] == t);
        }
        if after.contains(t) && t != text@ {
            let k = after.index_of(t);
            assert(after[k] == t);
            if k < i {
                assert(before[k] == t);
            } else {
                assert(before[k - 1] == t);
            }
        }
    }
    proof {
        if i < before.len() {
            lemma_text_order(before[i as int], text@);
        }
    }
    assert forall|j: int, k: int| 0 <= j < k < after.len() implies text_less(
        #[trigger] after[j],
        #[trigger] after[k],
    ) by {
        if k == i {
            assert(text_less(before[j], text@));
        } else if j == i {
            if k - 1 > i {
                assert(text_less(before[i as int], before[k - 1]));
                lemma_text_less_transitive(text@, before[i as int], before[k - 1]);
            }
        } else {
            let a = if j < i {
                j
            } else {
                j - 1
            };
            let b = if k < i {
                k
            } else {
                k - 1
            };
            assert(text_less(before[a], before[b]));
        }
    }
}

}
