//! Text handling on the level of characters: trimming, suffixes, searching and
//! the few number formats that stream properties use.

use vstd::prelude::*;
use vstd::string::*;
use vstd::utf8::is_ascii_chars;

verus! {

/// The characters that Unicode gives the `White_Space` property.
pub open spec fn is_white_space(c: char) -> bool {
    let v = c as u32;
    ||| 0x09 <= v <= 0x0d
    ||| v == 0x20
    ||| v == 0x85
    ||| v == 0xa0
    ||| v == 0x1680
    ||| 0x2000 <= v <= 0x200a
    ||| v == 0x2028
    ||| v == 0x2029
    ||| v == 0x202f
    ||| v == 0x205f
    ||| v == 0x3000
}

/// A text without its leading white space.
pub open spec fn without_leading_space(s: Seq<char>) -> Seq<char>
    decreases s.len(),
{
    if s.len() > 0 && is_white_space(s[0]) {
        without_leading_space(s.drop_first())
    } else {
        s
    }
}

/// A text without its trailing white space.
pub open spec fn without_trailing_space(s: Seq<char>) -> Seq<char>
    decreases s.len(),
{
    if s.len() > 0 && is_white_space(s.last()) {
        without_trailing_space(s.drop_last())
    } else {
        s
    }
}

/// A text without the white space around it.
pub open spec fn trimmed(s: Seq<char>) -> Seq<char> {
    without_trailing_space(without_leading_space(s))
}

/// The lower-case form of an ASCII capital; every other character as it is.
pub open spec fn ascii_lower(c: char) -> char {
    if 'A' <= c <= 'Z' {
        ((c as u32) + 32) as char
    } else {
        c
    }
}

/// Whether two texts are equal once ASCII capitals are lowered.
pub open spec fn same_ignoring_case(a: Seq<char>, b: Seq<char>) -> bool {
    &&& a.len() == b.len()
    &&& forall|i: int| 0 <= i < a.len() ==> ascii_lower(#[trigger] a[i]) == ascii_lower(b[i])
}

/// Whether `s` ends in `suffix`, ASCII case aside.
pub open spec fn ends_with_ignoring_case(s: Seq<char>, suffix: Seq<char>) -> bool {
    &&& suffix.len() <= s.len()
    &&& same_ignoring_case(s.skip(s.len() - suffix.len()), suffix)
}

/// What is left of `s` in front of `suffix`, where `s` ends in it.
pub open spec fn stripped(s: Seq<char>, suffix: Seq<char>) -> Option<Seq<char>> {
    if ends_with_ignoring_case(s, suffix) {
        Some(s.take(s.len() - suffix.len()))
    } else {
        None
    }
}

/// Whether `pattern` stands in `s` at position `at`.
pub open spec fn occurs_at(s: Seq<char>, pattern: Seq<char>, at: int) -> bool {
    &&& 0 <= at
    &&& at + pattern.len() <= s.len()
    &&& s.subrange(at, at + pattern.len()) == pattern
}

/// Whether `at` is the first position at which `pattern` stands in `s`.
pub open spec fn first_occurs_at(s: Seq<char>, pattern: Seq<char>, at: int) -> bool {
    &&& occurs_at(s, pattern, at)
    &&& forall|j: int| 0 <= j < at ==> !#[trigger] occurs_at(s, pattern, j)
}

/// Whether `pattern` stands anywhere in `s`.
pub open spec fn occurs_in(s: Seq<char>, pattern: Seq<char>) -> bool {
    exists|at: int| occurs_at(s, pattern, at)
}

/// The first position at which `pattern` stands in `s`, if there is one.
pub open spec fn index_of(s: Seq<char>, pattern: Seq<char>) -> Option<int> {
    if occurs_in(s, pattern) {
        Some(choose|at: int| first_occurs_at(s, pattern, at))
    } else {
        None
    }
}

/// What [`str::to_lowercase`] makes of a text that is not all ASCII.
pub uninterp spec fn unicode_lowercase(s: Seq<char>) -> Seq<char>;

/// The lower-case form of a text.
pub open spec fn lowercased(s: Seq<char>) -> Seq<char> {
    if is_ascii_chars(s) {
        s.map_values(|c: char| ascii_lower(c))
    } else {
        unicode_lowercase(s)
    }
}

/// Calls [`str::to_lowercase`]. Claimed of it: on ASCII text it lowers the
/// capitals `A` to `Z` and keeps every other character; on any other text the
/// result depends on the text alone.
#[verifier::external_body]
fn std_to_lowercase(s: &str) -> (r: String)
    ensures
        is_ascii_chars(s@) ==> r@ == s@.map_values(|c: char| ascii_lower(c)),
        !is_ascii_chars(s@) ==> r@ == unicode_lowercase(s@),
{
    s.to_lowercase()
}

/// The lower-case form of a text.
pub fn to_lowercase(s: &str) -> (r: String)
    ensures
        r@ == lowercased(s@),
{
    std_to_lowercase(s)
}

/// Whether a character has the Unicode `White_Space` property.
pub fn is_whitespace(c: char) -> (r: bool)
    ensures
        r == is_white_space(c),
{
    let v: u32 = c as u32;
    (0x09 <= v && v <= 0x0d) || v == 0x20 || v == 0x85 || v == 0xa0 || v == 0x1680 || (0x2000 <= v
        && v <= 0x200a) || v == 0x2028 || v == 0x2029 || v == 0x202f || v == 0x205f || v == 0x3000
}

/// The characters of a text, one by one.
pub fn chars_of(s: &str) -> (r: Vec<char>)
    ensures
        r@ == s@,
{
    let mut out: Vec<char> = Vec::new();
    for c in it: s.chars()
        invariant
            out@ == it.seq().take(it.index()),
            it.seq() == s@,
    {
        out.push(c);
    }
    out
}

proof fn lemma_leading_space(s: Seq<char>, n: int)
    requires
        0 <= n <= s.len(),
        forall|i: int| 0 <= i < n ==> is_white_space(#[trigger] s[i]),
        n < s.len() ==> !is_white_space(s[n]),
    ensures
        without_leading_space(s) == s.skip(n),
    decreases n,
{
    if n > 0 {
        assert(is_white_space(s[0]));
        let rest = s.drop_first();
        assert forall|i: int| 0 <= i < n - 1 implies is_white_space(#[trigger] rest[i]) by {
            assert(rest[i] == s[i + 1]);
        }
        lemma_leading_space(rest, n - 1);
        assert(rest.skip(n - 1) =~= s.skip(n));
    } else {
        assert(s.skip(0) =~= s);
    }
}

proof fn lemma_trailing_space(s: Seq<char>, n: int)
    requires
        0 <= n <= s.len(),
        forall|i: int| n <= i < s.len() ==> is_white_space(#[trigger] s[i]),
        n > 0 ==> !is_white_space(s[n - 1]),
    ensures
        without_trailing_space(s) == s.take(n),
    decreases s.len() - n,
{
    if n < s.len() {
        assert(is_white_space(s[s.len() - 1]));
        let rest = s.drop_last();
        assert forall|i: int| n <= i < rest.len() implies is_white_space(#[trigger] rest[i]) by {
            assert(rest[i] == s[i]);
        }
        lemma_trailing_space(rest, n);
        assert(rest.take(n) =~= s.take(n));
    } else {
        assert(s.take(n) =~= s);
    }
}

/// A text without the white space around it.
pub fn trim(s: &str) -> (r: &str)
    ensures
        r@ == trimmed(s@),
{
    let chars = chars_of(s);
    let n: usize = chars.len();
    let mut lo: usize = 0;
    while lo < n && is_whitespace(chars[lo])
        invariant
            lo <= n == chars.len(),
            chars@ == s@,
            forall|i: int| 0 <= i < lo ==> is_white_space(#[trigger] s@[i]),
        decreases n - lo,
    {
        lo += 1;
    }
    let mut hi: usize = n;
    while hi > lo && is_whitespace(chars[hi - 1])
        invariant
            lo <= hi <= n == chars.len(),
            chars@ == s@,
            forall|i: int| hi <= i < n ==> is_white_space(#[trigger] s@[i]),
        decreases hi,
    {
        hi -= 1;
    }
    proof {
        lemma_leading_space(s@, lo as int);
        let rest = s@.skip(lo as int);
        assert forall|i: int| hi - lo <= i < rest.len() implies is_white_space(#[trigger] rest[i]) by {
            assert(rest[i] == s@[i + lo]);
        }
        if hi > lo {
            assert(rest[hi - lo - 1] == s@[hi - 1]);
        }
        lemma_trailing_space(rest, hi - lo);
        assert(rest.take(hi - lo) =~= s@.subrange(lo as int, hi as int));
    }
    s.substring_char(lo, hi)
}

/// A text without its leading white space.
pub fn trim_start(s: &str) -> (r: &str)
    ensures
        r@ == without_leading_space(s@),
{
    let chars = chars_of(s);
    let n: usize = chars.len();
    let mut lo: usize = 0;
    while lo < n && is_whitespace(chars[lo])
        invariant
            lo <= n == chars.len(),
            chars@ == s@,
            forall|i: int| 0 <= i < lo ==> is_white_space(#[trigger] s@[i]),
        decreases n - lo,
    {
        lo += 1;
    }
    proof {
        lemma_leading_space(s@, lo as int);
        assert(s@.skip(lo as int) =~= s@.subrange(lo as int, n as int));
    }
    s.substring_char(lo, n)
}

/// Lowers an ASCII capital.
pub fn lower_ascii(c: char) -> (r: char)
    ensures
        r == ascii_lower(c),
{
    if 'A' <= c && c <= 'Z' {
        ((c as u8) + 32) as char
    } else {
        c
    }
}

/// Case-insensitive suffix strip. Returns the prefix with `suffix` removed.
pub fn strip_suffix_ci<'a>(s: &'a str, suffix: &str) -> (r: Option<&'a str>)
    ensures
        match stripped(s@, suffix@) {
            Some(body) => r matches Some(p) && p@ == body,
            None => r is None,
        },
{
    let text = chars_of(s);
    let tail = chars_of(suffix);
    if tail.len() > text.len() {
        return None;
    }
    let start: usize = text.len() - tail.len();
    let ghost end = s@.skip(s@.len() - suffix@.len());
    let mut i: usize = 0;
    while i < tail.len()
        invariant
            i <= tail.len() <= text.len(),
            start == text.len() - tail.len(),
            text@ == s@,
            tail@ == suffix@,
            end == s@.skip(s@.len() - suffix@.len()),
            forall|j: int|
                0 <= j < i ==> ascii_lower(#[trigger] end[j]) == ascii_lower(suffix@[j]),
        decreases tail.len() - i,
    {
        assert(end[i as int] == text@[start + i]);
        if lower_ascii(text[start + i]) != lower_ascii(tail[i]) {
            return None;
        }
        i += 1;
    }
    assert(s@.take(start as int) =~= s@.subrange(0, start as int));
    Some(s.substring_char(0, start))
}

/// Whether two texts are the same.
pub fn same_text(a: &str, b: &str) -> (r: bool)
    ensures
        r == (a@ == b@),
{
    let left = chars_of(a);
    let right = chars_of(b);
    if left.len() != right.len() {
        return false;
    }
    let mut i: usize = 0;
    while i < left.len()
        invariant
            i <= left.len() == right.len(),
            left@ == a@,
            right@ == b@,
            forall|j: int| 0 <= j < i ==> a@[j] == b@[j],
        decreases left.len() - i,
    {
        if left[i] != right[i] {
            return false;
        }
        i += 1;
    }
    assert(a@ =~= b@);
    true
}

fn matches_at(text: &Vec<char>, pattern: &Vec<char>, at: usize) -> (r: bool)
    requires
        at + pattern.len() <= text.len(),
    ensures
        r == occurs_at(text@, pattern@, at as int),
{
    let mut i: usize = 0;
    while i < pattern.len()
        invariant
            i <= pattern.len(),
            at + pattern.len() <= text.len(),
            forall|j: int| 0 <= j < i ==> #[trigger] pattern@[j] == text@[at + j],
        decreases pattern.len() - i,
    {
        if text[at + i] != pattern[i] {
            assert(text@.subrange(at as int, at + pattern.len())[i as int] != pattern@[i as int]);
            return false;
        }
        i += 1;
    }
    assert(text@.subrange(at as int, at + pattern.len()) =~= pattern@);
    true
}

/// The first position at which `pattern` stands in `s`, in characters.
pub fn find(s: &str, pattern: &str) -> (r: Option<usize>)
    ensures
        match r {
            Some(at) => first_occurs_at(s@, pattern@, at as int) && index_of(s@, pattern@) == Some(
                at as int,
            ),
            None => index_of(s@, pattern@) is None,
        },
{
    let text = chars_of(s);
    let wanted = chars_of(pattern);
    if wanted.len() > text.len() {
        return None;
    }
    let last: usize = text.len() - wanted.len();
    let mut at: usize = 0;
    loop
        invariant
            at <= last,
            last == text.len() - wanted.len(),
            text@ == s@,
            wanted@ == pattern@,
            forall|j: int| 0 <= j < at ==> !#[trigger] occurs_at(s@, pattern@, j),
        decreases last - at,
    {
        if matches_at(&text, &wanted, at) {
            proof {
                assert(first_occurs_at(s@, pattern@, at as int));
                let other = choose|k: int| first_occurs_at(s@, pattern@, k);
                assert(first_occurs_at(s@, pattern@, other));
                assert(other == at);
            }
            return Some(at);
        }
        if at == last {
            return None;
        }
        at += 1;
    }
}

/// Whether `pattern` stands anywhere in `s`.
pub fn contains(s: &str, pattern: &str) -> (r: bool)
    ensures
        r == occurs_in(s@, pattern@),
{
    find(s, pattern).is_some()
}

/// Whether `s` begins with `prefix`.
pub fn starts_with(s: &str, prefix: &str) -> (r: bool)
    ensures
        r == prefix@.is_prefix_of(s@),
{
    let text = chars_of(s);
    let wanted = chars_of(prefix);
    wanted.len() <= text.len() && matches_at(&text, &wanted, 0)
}

/// Whether `s` ends in `suffix`.
pub fn ends_with(s: &str, suffix: &str) -> (r: bool)
    ensures
        r == suffix@.is_suffix_of(s@),
{
    let text = chars_of(s);
    let wanted = chars_of(suffix);
    proof {
        if suffix@.len() <= s@.len() {
            assert(s@.subrange(s@.len() - suffix@.len(), s@.len() as int) =~= s@.subrange(
                (s@.len() - suffix@.len()) as int,
                s@.len() - suffix@.len() + suffix@.len(),
            ));
        }
    }
    wanted.len() <= text.len() && matches_at(&text, &wanted, text.len() - wanted.len())
}

/// `s` with every occurrence of `from` replaced by `to`, left to right.
pub open spec fn replaced(s: Seq<char>, from: Seq<char>, to: Seq<char>) -> Seq<char>
    recommends
        from.len() > 0,
    decreases s.len(),
{
    if from.len() == 0 || s.len() < from.len() {
        s
    } else if occurs_at(s, from, 0) {
        to + replaced(s.skip(from.len() as int), from, to)
    } else {
        seq![s[0]] + replaced(s.drop_first(), from, to)
    }
}

/// `s` with every occurrence of `from` replaced by `to`, left to right.
pub fn replace(s: &str, from: &str, to: &str) -> (r: String)
    requires
        from@.len() > 0,
    ensures
        r@ == replaced(s@, from@, to@),
{
    let text = chars_of(s);
    let wanted = chars_of(from);
    let mut out = String::new();
    let mut i: usize = 0;
    assert(s@.skip(0) =~= s@);
    while text.len() - i >= wanted.len()
        invariant
            i <= text.len(),
            text@ == s@,
            wanted@ == from@,
            from@.len() > 0,
            out@ + replaced(s@.skip(i as int), from@, to@) == replaced(s@, from@, to@),
        decreases text.len() - i,
    {
        let ghost rest = s@.skip(i as int);
        let ghost before = out@;
        proof {
            assert(rest.subrange(0, from@.len() as int) =~= s@.subrange(
                i as int,
                i + from@.len(),
            ));
        }
        if matches_at(&text, &wanted, i) {
            out.append(to);
            proof {
                assert(rest.skip(from@.len() as int) =~= s@.skip(i + from@.len()));
                assert(out@ + replaced(s@.skip(i + from@.len()), from@, to@) =~= before + replaced(
                    rest,
                    from@,
                    to@,
                ));
            }
            i += wanted.len();
        } else {
            out.append(s.substring_char(i, i + 1));
            proof {
                assert(rest.drop_first() =~= s@.skip(i + 1));
                assert(s@.subrange(i as int, i + 1) =~= seq![rest[0]]);
                assert(out@ + replaced(s@.skip(i + 1), from@, to@) =~= before + replaced(
                    rest,
                    from@,
                    to@,
                ));
            }
            i += 1;
        }
    }
    proof {
        assert(s@.skip(i as int) =~= s@.subrange(i as int, s@.len() as int));
    }
    out.append(s.substring_char(i, text.len()));
    out
}

/// The character of a decimal digit.
pub open spec fn digit_char(d: int) -> char {
    (48 + d) as char
}

/// A number written in decimal.
pub open spec fn decimal(n: nat) -> Seq<char>
    decreases n,
{
    if n < 10 {
        seq![digit_char(n as int)]
    } else {
        decimal(n / 10).push(digit_char((n % 10) as int))
    }
}

fn digit_text(d: u32) -> (r: &'static str)
    requires
        d < 10,
    ensures
        r@ == seq![digit_char(d as int)],
{
    proof {
        reveal_strlit("0");
        reveal_strlit("1");
        reveal_strlit("2");
        reveal_strlit("3");
        reveal_strlit("4");
        reveal_strlit("5");
        reveal_strlit("6");
        reveal_strlit("7");
        reveal_strlit("8");
        reveal_strlit("9");
    }
    let r: &'static str = match d {
        0 => "0",
        1 => "1",
        2 => "2",
        3 => "3",
        4 => "4",
        5 => "5",
        6 => "6",
        7 => "7",
        8 => "8",
        _ => "9",
    };
    assert(r@ =~= seq![digit_char(d as int)]);
    r
}

/// A number written in decimal.
pub fn decimal_text(n: u32) -> (r: String)
    ensures
        r@ == decimal(n as nat),
    decreases n,
{
    if n < 10 {
        digit_text(n).to_owned()
    } else {
        let mut out = decimal_text(n / 10);
        out.append(digit_text(n % 10));
        proof {
            assert(out@ =~= decimal((n / 10) as nat).push(digit_char((n % 10) as int)));
        }
        out
    }
}

/// Whether a text is made of ASCII digits alone.
pub open spec fn all_digits(s: Seq<char>) -> bool {
    forall|i: int| 0 <= i < s.len() ==> '0' <= #[trigger] s[i] <= '9'
}

/// The number that a row of digits stands for.
pub open spec fn decimal_value(s: Seq<char>) -> nat
    decreases s.len(),
{
    if s.len() == 0 {
        0
    } else {
        10 * decimal_value(s.drop_last()) + ((s.last() as u32 - 48) as nat)
    }
}

/// The `u32` that a text stands for: an optional `+`, then digits only, with a
/// value that fits.
pub open spec fn parsed_u32(s: Seq<char>) -> Option<u32> {
    let digits = if s.len() > 0 && s[0] == '+' {
        s.drop_first()
    } else {
        s
    };
    if digits.len() > 0 && all_digits(digits) && decimal_value(digits) <= u32::MAX {
        Some(decimal_value(digits) as u32)
    } else {
        None
    }
}

proof fn lemma_value_of_prefix(s: Seq<char>, n: int)
    requires
        0 <= n <= s.len(),
    ensures
        decimal_value(s.take(n)) <= decimal_value(s),
    decreases s.len() - n,
{
    if n < s.len() {
        lemma_value_of_prefix(s.drop_last(), n);
        assert(s.drop_last().take(n) =~= s.take(n));
    } else {
        assert(s.take(n) =~= s);
    }
}

/// The `u32` that a text stands for, if it is one.
pub fn parse_u32(s: &str) -> (r: Option<u32>)
    ensures
        r == parsed_u32(s@),
{
    let text = chars_of(s);
    let start: usize = if text.len() > 0 && text[0] == '+' {
        1
    } else {
        0
    };
    let ghost digits = s@.skip(start as int);
    proof {
        assert(s@.skip(0) =~= s@);
        if start == 1 {
            assert(s@.skip(1) =~= s@.drop_first());
        }
    }
    if start == text.len() {
        return None;
    }
    let mut value: u64 = 0;
    let mut i: usize = start;
    while i < text.len()
        invariant
            start <= i <= text.len(),
            text@ == s@,
            digits == s@.skip(start as int),
            digits.len() > 0,
            parsed_u32(s@) == (if all_digits(digits) && decimal_value(digits) <= u32::MAX {
                Some(decimal_value(digits) as u32)
            } else {
                None
            }),
            all_digits(digits.take(i - start)),
            value == decimal_value(digits.take(i - start)),
            value <= u32::MAX,
        decreases text.len() - i,
    {
        let c = text[i];
        let ghost k = i - start;
        assert(digits[k] == c);
        if c < '0' || c > '9' {
            return None;
        }
        value = value * 10 + ((c as u32 - 48) as u64);
        proof {
            let longer = digits.take(k + 1);
            assert(longer.drop_last() =~= digits.take(k));
            assert(longer.last() == c);
            lemma_value_of_prefix(digits, k + 1);
        }
        if value > u32::MAX as u64 {
            return None;
        }
        i += 1;
    }
    assert(digits.take(digits.len() as int) =~= digits);
    Some(value as u32)
}

/// The texts of a list of strings.
pub open spec fn texts(list: Seq<String>) -> Seq<Seq<char>> {
    list.map_values(|s: String| s@)
}

/// The text of an optional string.
pub open spec fn opt_text(s: Option<String>) -> Option<Seq<char>> {
    match s {
        Some(t) => Some(t@),
        None => None,
    }
}

/// The bytes of an optional buffer.
pub open spec fn opt_bytes(b: Option<Vec<u8>>) -> Option<Seq<u8>> {
    match b {
        Some(v) => Some(v@),
        None => None,
    }
}

/// Whether a list of strings holds a text.
pub fn list_contains(list: &[String], wanted: &str) -> (r: bool)
    ensures
        r == texts(list@).contains(wanted@),
{
    let mut i: usize = 0;
    while i < list.len()
        invariant
            i <= list.len(),
            forall|j: int| 0 <= j < i ==> #[trigger] texts(list@)[j] != wanted@,
        decreases list.len() - i,
    {
        assert(texts(list@)[i as int] == list@[i as int]@);
        if same_text(&list[i], wanted) {
            return true;
        }
        i += 1;
    }
    false
}

/// A set of texts.
#[derive(Debug)]
pub struct TextSet {
    items: Vec<String>,
}

impl View for TextSet {
    type V = Set<Seq<char>>;

    closed spec fn view(&self) -> Set<Seq<char>> {
        texts(self.items@).to_set()
    }
}

impl TextSet {
    /// The empty set.
    pub fn new() -> (r: TextSet)
        ensures
            r@ == Set::<Seq<char>>::empty(),
    {
        let r = TextSet { items: Vec::new() };
        assert(r@ =~= Set::<Seq<char>>::empty());
        r
    }

    /// Whether the set holds a text.
    pub fn contains(&self, wanted: &str) -> (r: bool)
        ensures
            r == self@.contains(wanted@),
    {
        list_contains(&self.items, wanted)
    }

    /// Adds a text.
    pub fn insert(&mut self, text: String)
        ensures
            final(self)@ == old(self)@.insert(text@),
    {
        let ghost before = self.items@;
        self.items.push(text);
        proof {
            let old_texts = texts(before);
            assert(texts(self.items@) =~= old_texts.push(text@));
            old_texts.lemma_push_to_set_commute(text@);
        }
    }

    /// Takes a text out, if it is there.
    pub fn remove(&mut self, text: &str)
        ensures
            final(self)@ == old(self)@.remove(text@),
    {
        let mut kept: Vec<String> = Vec::new();
        let mut i: usize = 0;
        while i < self.items.len()
            invariant
                i <= self.items.len(),
                self.items@ == old(self).items@,
                forall|t: Seq<char>|
                    texts(kept@).contains(t) <==> (t != text@ && texts(self.items@.take(i as int)).contains(
                        t,
                    )),
            decreases self.items.len() - i,
        {
            let ghost before = kept@;
            let ghost so_far = self.items@.take(i as int);
            let item = self.items[i].clone();
            if !same_text(&item, text) {
                kept.push(item);
                assert(texts(kept@) =~= texts(before).push(item@));
            }
            proof {
                let longer = self.items@.take(i + 1);
                assert(longer =~= so_far.push(item));
                assert(texts(longer) =~= texts(so_far).push(item@));
                broadcast use vstd::seq_lib::lemma_seq_contains_after_push;
                assert forall|t: Seq<char>|
                    texts(kept@).contains(t) <==> (t != text@ && texts(longer).contains(t)) by {
                    lemma_push_contains(texts(before), item@, t);
                    lemma_push_contains(texts(so_far), item@, t);
                }
            }
            i += 1;
        }
        assert(self.items@.take(self.items@.len() as int) =~= self.items@);
        self.items = kept;
        assert(self@ =~= old(self)@.remove(text@));
    }
}

pub(crate) proof fn lemma_push_contains<A>(s: Seq<A>, a: A, t: A)
    ensures
        s.push(a).contains(t) <==> s.contains(t) || t == a,
{
    if s.contains(t) {
        let i = choose|i: int| 0 <= i < s.len() && s[i] == t;
        assert(s.push(a)[i] == t);
    }
    if t == a {
        assert(s.push(a)[s.len() as int] == t);
    }
}

/// A map from texts to values.
#[derive(Debug)]
pub struct TextMap<V> {
    entries: Vec<(String, V)>,
}

/// The map that a list of entries stands for: of two entries for one key, the
/// later one counts.
closed spec fn entries_map<V>(entries: Seq<(String, V)>) -> Map<Seq<char>, V>
    decreases entries.len(),
{
    if entries.len() == 0 {
        Map::empty()
    } else {
        entries_map(entries.drop_last()).insert(entries.last().0@, entries.last().1)
    }
}

proof fn lemma_entries_lookup<V>(entries: Seq<(String, V)>, key: Seq<char>, at: int)
    requires
        -1 <= at < entries.len(),
        at >= 0 ==> entries[at].0@ == key,
        forall|j: int| at < j < entries.len() ==> (#[trigger] entries[j]).0@ != key,
    ensures
        at >= 0 ==> entries_map(entries).contains_key(key) && entries_map(entries)[key]
            == entries[at].1,
        at < 0 ==> !entries_map(entries).contains_key(key),
    decreases entries.len(),
{
    if entries.len() > 0 && at < entries.len() - 1 {
        let rest = entries.drop_last();
        assert forall|j: int| at < j < rest.len() implies (#[trigger] rest[j]).0@ != key by {
            assert(rest[j] == entries[j]);
        }
        lemma_entries_lookup(rest, key, at);
        assert(entries[entries.len() - 1].0@ != key);
    }
}

proof fn lemma_entries_update<V>(entries: Seq<(String, V)>, at: int, value: (String, V))
    requires
        0 <= at < entries.len(),
        entries[at].0@ == value.0@,
        forall|j: int| at < j < entries.len() ==> (#[trigger] entries[j]).0@ != value.0@,
    ensures
        entries_map(entries.update(at, value)) == entries_map(entries).insert(value.0@, value.1),
    decreases entries.len(),
{
    let updated = entries.update(at, value);
    if at == entries.len() - 1 {
        assert(updated.drop_last() =~= entries.drop_last());
        assert(entries_map(updated) =~= entries_map(entries).insert(value.0@, value.1));
    } else {
        let rest = entries.drop_last();
        assert forall|j: int| at < j < rest.len() implies (#[trigger] rest[j]).0@ != value.0@ by {
            assert(rest[j] == entries[j]);
        }
        lemma_entries_update(rest, at, value);
        assert(updated.drop_last() =~= rest.update(at, value));
        assert(entries[entries.len() - 1].0@ != value.0@);
        assert(entries_map(updated) =~= entries_map(entries).insert(value.0@, value.1));
    }
}

impl<V> View for TextMap<V> {
    type V = Map<Seq<char>, V>;

    closed spec fn view(&self) -> Map<Seq<char>, V> {
        entries_map(self.entries@)
    }
}

impl<V> TextMap<V> {
    /// The empty map.
    pub fn new() -> (r: TextMap<V>)
        ensures
            r@ == Map::<Seq<char>, V>::empty(),
    {
        TextMap { entries: Vec::new() }
    }

    fn position(&self, key: &str) -> (r: Option<usize>)
        ensures
            match r {
                Some(at) => {
                    &&& at < self.entries.len()
                    &&& self.entries@[at as int].0@ == key@
                    &&& forall|j: int|
                        at < j < self.entries.len() ==> (#[trigger] self.entries@[j]).0@ != key@
                },
                None => forall|j: int|
                    0 <= j < self.entries.len() ==> (#[trigger] self.entries@[j]).0@ != key@,
            },
    {
        let mut i: usize = self.entries.len();
        while i > 0
            invariant
                i <= self.entries.len(),
                forall|j: int|
                    i <= j < self.entries.len() ==> (#[trigger] self.entries@[j]).0@ != key@,
            decreases i,
        {
            i -= 1;
            if same_text(&self.entries[i].0, key) {
                return Some(i);
            }
        }
        None
    }

    /// The value kept for a key.
    pub fn get(&self, key: &str) -> (r: Option<&V>)
        ensures
            match r {
                Some(v) => self@.contains_key(key@) && *v == self@[key@],
                None => !self@.contains_key(key@),
            },
    {
        match self.position(key) {
            Some(at) => {
                proof {
                    lemma_entries_lookup(self.entries@, key@, at as int);
                }
                Some(&self.entries[at].1)
            },
            None => {
                proof {
                    lemma_entries_lookup(self.entries@, key@, -1);
                }
                None
            },
        }
    }

    /// Keeps a value for a key, in place of any other.
    pub fn insert(&mut self, key: String, value: V)
        ensures
            final(self)@ == old(self)@.insert(key@, value),
    {
        let ghost before = self.entries@;
        match self.position(&key) {
            Some(at) => {
                proof {
                    lemma_entries_update(before, at as int, (key, value));
                }
                self.entries.set(at, (key, value));
            },
            None => {
                self.entries.push((key, value));
                assert(self.entries@.drop_last() =~= before);
            },
        }
    }
}

/// Trimming cuts white space at both ends, all of it, and nothing else.
pub proof fn law_trimming_cuts_the_white_space_around(s: Seq<char>)
    ensures
        exists|lo: int, hi: int|
            {
                &&& 0 <= lo <= hi <= s.len()
                &&& #[trigger] s.subrange(lo, hi) == trimmed(s)
                &&& forall|i: int|
                    0 <= i < lo || hi <= i < s.len() ==> is_white_space(#[trigger] s[i])
            },
        trimmed(s).len() > 0 ==> !is_white_space(trimmed(s)[0]) && !is_white_space(
            trimmed(s).last(),
        ),
{
    let (lo, hi) = lemma_trimmed(s);
    assert(s.subrange(lo, hi) == trimmed(s));
}

pub(crate) proof fn lemma_trimmed(s: Seq<char>) -> (r: (int, int))
    ensures
        0 <= r.0 <= r.1 <= s.len(),
        trimmed(s) == s.subrange(r.0, r.1),
        forall|i: int| 0 <= i < r.0 || r.1 <= i < s.len() ==> is_white_space(#[trigger] s[i]),
        r.0 < r.1 ==> !is_white_space(s[r.0]) && !is_white_space(s[r.1 - 1]),
{
    let lo = lemma_first_not_space(s, 0);
    lemma_leading_space(s, lo);
    let rest = s.skip(lo);
    let n = lemma_last_not_space(rest, rest.len() as int);
    lemma_trailing_space(rest, n);
    assert(rest.take(n) =~= s.subrange(lo, lo + n));
    assert forall|i: int| 0 <= i < lo || lo + n <= i < s.len() implies is_white_space(
        #[trigger] s[i],
    ) by {
        if i >= lo {
            assert(rest[i - lo] == s[i]);
        }
    }
    if n > 0 {
        assert(rest[0] == s[lo]);
        assert(rest[n - 1] == s[lo + n - 1]);
    }
    (lo, lo + n)
}

proof fn lemma_first_not_space(s: Seq<char>, from: int) -> (n: int)
    requires
        0 <= from <= s.len(),
        forall|i: int| 0 <= i < from ==> is_white_space(#[trigger] s[i]),
    ensures
        from <= n <= s.len(),
        forall|i: int| 0 <= i < n ==> is_white_space(#[trigger] s[i]),
        n < s.len() ==> !is_white_space(s[n]),
    decreases s.len() - from,
{
    if from < s.len() && is_white_space(s[from]) {
        lemma_first_not_space(s, from + 1)
    } else {
        from
    }
}

proof fn lemma_last_not_space(s: Seq<char>, from: int) -> (n: int)
    requires
        0 <= from <= s.len(),
        forall|i: int| from <= i < s.len() ==> is_white_space(#[trigger] s[i]),
    ensures
        0 <= n <= from,
        forall|i: int| n <= i < s.len() ==> is_white_space(#[trigger] s[i]),
        n > 0 ==> !is_white_space(s[n - 1]),
    decreases from,
{
    if from > 0 && is_white_space(s[from - 1]) {
        lemma_last_not_space(s, from - 1)
    } else {
        from
    }
}

/// The position found for a pattern is one at which it stands, and none comes before
/// it; one is found wherever the pattern stands at all.
pub proof fn law_first_position_is_found(s: Seq<char>, pattern: Seq<char>, at: int)
    requires
        0 <= at,
        at + pattern.len() <= s.len(),
        s.subrange(at, at + pattern.len()) == pattern,
    ensures
        index_of(s, pattern) matches Some(first) && {
            &&& 0 <= first <= at
            &&& s.subrange(first, first + pattern.len()) == pattern
        },
{
    assert(occurs_at(s, pattern, at));
    let first = lemma_first_occurrence(s, pattern, at);
    assert(first_occurs_at(s, pattern, first));
    let other = choose|k: int| first_occurs_at(s, pattern, k);
    assert(first_occurs_at(s, pattern, other));
    assert(other == first);
}

pub(crate) proof fn lemma_first_occurrence(s: Seq<char>, pattern: Seq<char>, at: int) -> (first:
    int)
    requires
        occurs_at(s, pattern, at),
    ensures
        0 <= first <= at,
        first_occurs_at(s, pattern, first),
        index_of(s, pattern) == Some(first),
    decreases at,
{
    if forall|j: int| 0 <= j < at ==> !#[trigger] occurs_at(s, pattern, j) {
        assert(first_occurs_at(s, pattern, at));
        let other = choose|k: int| first_occurs_at(s, pattern, k);
        assert(first_occurs_at(s, pattern, other));
        at
    } else {
        let j = choose|j: int| 0 <= j < at && #[trigger] occurs_at(s, pattern, j);
        lemma_first_occurrence(s, pattern, j)
    }
}

/// Replacing leaves a text without the pattern as it is; otherwise it keeps what
/// stands in front of the first occurrence, puts the new text in the place of that
/// one, and goes on behind it.
pub proof fn law_every_occurrence_is_replaced(s: Seq<char>, from: Seq<char>, to: Seq<char>)
    requires
        from.len() > 0,
    ensures
        match index_of(s, from) {
            None => replaced(s, from, to) == s,
            Some(at) => replaced(s, from, to) == s.take(at) + to + replaced(
                s.skip(at + from.len()),
                from,
                to,
            ),
        },
    decreases s.len(),
{
    if occurs_in(s, from) {
        let somewhere = choose|at: int| occurs_at(s, from, at);
        let at = lemma_first_occurrence(s, from, somewhere);
        lemma_replaced_first(s, from, to, at);
    } else {
        lemma_nothing_replaced(s, from, to);
    }
}

proof fn lemma_nothing_replaced(s: Seq<char>, from: Seq<char>, to: Seq<char>)
    requires
        from.len() > 0,
        !occurs_in(s, from),
    ensures
        replaced(s, from, to) == s,
    decreases s.len(),
{
    if s.len() >= from.len() {
        let rest = s.drop_first();
        assert(!occurs_at(s, from, 0));
        assert(!occurs_in(rest, from)) by {
            if occurs_in(rest, from) {
                let at = choose|at: int| occurs_at(rest, from, at);
                assert(s.subrange(at + 1, at + 1 + from.len()) =~= rest.subrange(
                    at,
                    at + from.len(),
                ));
                assert(occurs_at(s, from, at + 1));
            }
        }
        lemma_nothing_replaced(rest, from, to);
        assert(seq![s[0]] + rest =~= s);
    }
}

proof fn lemma_replaced_first(s: Seq<char>, from: Seq<char>, to: Seq<char>, at: int)
    requires
        from.len() > 0,
        first_occurs_at(s, from, at),
    ensures
        replaced(s, from, to) == s.take(at) + to + replaced(s.skip(at + from.len()), from, to),
    decreases at,
{
    if at == 0 {
        assert(s.take(0) + to =~= to);
    } else {
        let rest = s.drop_first();
        assert(!occurs_at(s, from, 0));
        assert(rest.subrange(at - 1, at - 1 + from.len()) =~= s.subrange(at, at + from.len()));
        assert forall|j: int| 0 <= j < at - 1 implies !#[trigger] occurs_at(rest, from, j) by {
            assert(!occurs_at(s, from, j + 1));
            assert(s.subrange(j + 1, j + 1 + from.len()) =~= rest.subrange(j, j + from.len()));
        }
        lemma_replaced_first(rest, from, to, at - 1);
        assert(rest.skip(at - 1 + from.len()) =~= s.skip(at + from.len()));
        assert(seq![s[0]] + (rest.take(at - 1) + to + replaced(s.skip(at + from.len()), from, to))
            =~= s.take(at) + to + replaced(s.skip(at + from.len()), from, to));
    }
}

/// A number that was written in decimal is read back.
pub proof fn law_decimal_is_read_back(n: u32)
    ensures
        parsed_u32(decimal(n as nat)) == Some(n),
{
    lemma_decimal(n as nat);
    assert(decimal(n as nat)[0] != '+');
}

pub(crate) proof fn lemma_decimal(n: nat)
    ensures
        decimal(n).len() > 0,
        all_digits(decimal(n)),
        decimal_value(decimal(n)) == n,
    decreases n,
{
    if n < 10 {
        assert(decimal(n).drop_last() =~= Seq::empty());
        assert(decimal_value(decimal(n).drop_last()) == 0);
    } else {
        lemma_decimal(n / 10);
        assert(decimal(n).drop_last() =~= decimal(n / 10));
    }
}

/// A suffix is stripped exactly where the text ends in it, ASCII case aside, and what
/// is left stands in front of it.
pub proof fn law_suffix_is_stripped(body: Seq<char>, end: Seq<char>, suffix: Seq<char>)
    requires
        end.len() == suffix.len(),
    ensures
        stripped(body + end, suffix) == (if same_ignoring_case(end, suffix) {
            Some(body)
        } else {
            None
        }),
{
    assert((body + end).skip(body.len() as int) =~= end);
    assert((body + end).take(body.len() as int) =~= body);
}

/// Lowering changes the 26 capitals of ASCII, each to the small letter that stands 32
/// places after it, and nothing else.
pub proof fn law_lowering_changes_ascii_capitals(c: char)
    ensures
        65 <= c as u32 <= 90 ==> ascii_lower(c) as u32 == c as u32 + 32,
        !(65 <= c as u32 <= 90) ==> ascii_lower(c) == c,
{
}

/// Cutting the white space before a text leaves an end of the text: it does not begin
/// with white space, and all that was cut is white space.
pub proof fn law_leading_space_is_cut(s: Seq<char>) -> (n: int)
    ensures
        0 <= n <= s.len(),
        without_leading_space(s) == s.skip(n),
        forall|i: int| 0 <= i < n ==> is_white_space(#[trigger] s[i]),
        n < s.len() ==> !is_white_space(s[n]),
    decreases s.len(),
{
    if s.len() > 0 && is_white_space(s[0]) {
        let rest = s.drop_first();
        let m = law_leading_space_is_cut(rest);
        assert(rest.skip(m) =~= s.skip(m + 1));
        assert forall|i: int| 0 <= i < m + 1 implies is_white_space(#[trigger] s[i]) by {
            if i > 0 {
                assert(rest[i - 1] == s[i]);
            }
        }
        if m + 1 < s.len() {
            assert(rest[m] == s[m + 1]);
        }
        m + 1
    } else {
        assert(s.skip(0) =~= s);
        0
    }
}

/// The lower-case form of an ASCII text has a small letter for each of its capitals, 32
/// places after it, and is otherwise the text itself.
pub proof fn law_lower_case_of_ascii_text(s: Seq<char>, i: int)
    requires
        is_ascii_chars(s),
        0 <= i < s.len(),
    ensures
        lowercased(s).len() == s.len(),
        65 <= s[i] as u32 <= 90 ==> lowercased(s)[i] as u32 == s[i] as u32 + 32,
        !(65 <= s[i] as u32 <= 90) ==> lowercased(s)[i] == s[i],
{
}

/// Two texts are the same, ASCII case aside, exactly if lowering their ASCII capitals
/// makes one text of them.
pub proof fn law_texts_that_differ_in_case_alone(a: Seq<char>, b: Seq<char>)
    ensures
        same_ignoring_case(a, b) <==> a.map_values(|c: char| ascii_lower(c)) == b.map_values(
            |c: char| ascii_lower(c),
        ),
{
    let f = |c: char| ascii_lower(c);
    if same_ignoring_case(a, b) {
        assert(a.map_values(f) =~= b.map_values(f));
    }
    if a.map_values(f) == b.map_values(f) {
        assert(a.map_values(f).len() == b.map_values(f).len());
        assert forall|i: int| 0 <= i < a.len() implies ascii_lower(#[trigger] a[i]) == ascii_lower(
            b[i],
        ) by {
            assert(a.map_values(f)[i] == b.map_values(f)[i]);
        }
    }
}

/// White space is what Unicode calls so.
pub proof fn law_white_space_of_unicode(c: char)
    ensures
        is_white_space(c) <==> seq![
            '\u{9}',
            '\u{a}',
            '\u{b}',
            '\u{c}',
            '\u{d}',
            '\u{20}',
            '\u{85}',
            '\u{a0}',
            '\u{1680}',
            '\u{2000}',
            '\u{2001}',
            '\u{2002}',
            '\u{2003}',
            '\u{2004}',
            '\u{2005}',
            '\u{2006}',
            '\u{2007}',
            '\u{2008}',
            '\u{2009}',
            '\u{200a}',
            '\u{2028}',
            '\u{2029}',
            '\u{202f}',
            '\u{205f}',
            '\u{3000}',
        ].contains(c),
{
    let all = seq![
        '\u{9}',
        '\u{a}',
        '\u{b}',
        '\u{c}',
        '\u{d}',
        '\u{20}',
        '\u{85}',
        '\u{a0}',
        '\u{1680}',
        '\u{2000}',
        '\u{2001}',
        '\u{2002}',
        '\u{2003}',
        '\u{2004}',
        '\u{2005}',
        '\u{2006}',
        '\u{2007}',
        '\u{2008}',
        '\u{2009}',
        '\u{200a}',
        '\u{2028}',
        '\u{2029}',
        '\u{202f}',
        '\u{205f}',
        '\u{3000}',
    ];
    let v = c as u32;
    if is_white_space(c) {
        let i = if v <= 0xd {
            v - 9
        } else if v == 0x20 {
            5
        } else if v == 0x85 {
            6
        } else if v == 0xa0 {
            7
        } else if v == 0x1680 {
            8
        } else if v <= 0x200a {
            9 + v - 0x2000
        } else if v == 0x2028 {
            20
        } else if v == 0x2029 {
            21
        } else if v == 0x202f {
            22
        } else if v == 0x205f {
            23
        } else {
            24
        };
        assert(all[i] == c);
    }
}

/// A number is read digit by digit: a further digit counts once and makes the others
/// count tenfold, as long as the number fits. A plus sign in front changes nothing. A
/// text with anything else in it, or without a digit, is no number.
pub proof fn law_numbers_are_read_digit_by_digit(s: Seq<char>, n: u32, d: u32, i: int)
    requires
        d < 10,
    ensures
        parsed_u32(s) == Some(n) ==> parsed_u32(s.push((48 + d) as char)) == (if 10 * n + d
            <= u32::MAX {
            Some((10 * n + d) as u32)
        } else {
            None
        }),
        parsed_u32(seq![(48 + d) as char]) == Some(d),
        s.len() > 0 && s[0] != '+' ==> parsed_u32(seq!['+'] + s) == parsed_u32(s),
        0 < i < s.len() && !('0' <= s[i] <= '9') ==> parsed_u32(s) is None,
        s.len() > 0 && s[0] != '+' && !('0' <= s[0] <= '9') ==> parsed_u32(s) is None,
        parsed_u32(Seq::empty()) is None,
        parsed_u32(seq!['+']) is None,
{
    let c = (48 + d) as char;
    assert(c as u32 == 48 + d);
    assert('0' <= c <= '9');
    let digits = if s.len() > 0 && s[0] == '+' {
        s.drop_first()
    } else {
        s
    };
    if parsed_u32(s) == Some(n) {
        let longer = s.push(c);
        assert(longer[0] == s[0]);
        let more = digits.push(c);
        assert(s[0] == '+' ==> longer.drop_first() =~= more);
        assert(more.drop_last() =~= digits);
        assert(all_digits(more)) by {
            assert forall|k: int| 0 <= k < more.len() implies '0' <= #[trigger] more[k] <= '9' by {
                if k < digits.len() {
                    assert(more[k] == digits[k]);
                }
            }
        }
        assert(decimal_value(more) == 10 * n + d);
    }
    let one = seq![c];
    assert(one.drop_last() =~= Seq::<char>::empty());
    assert(all_digits(one));
    reveal_with_fuel(decimal_value, 3);
    assert(decimal_value(one) == d);
    assert((seq!['+'] + s).drop_first() =~= s);
    assert((seq!['+'] + s)[0] == '+');
    if 0 < i < s.len() && !('0' <= s[i] <= '9') {
        if s[0] == '+' {
            assert(digits[i - 1] == s[i]);
        }
        assert(!all_digits(digits));
    }
    assert(seq!['+'].drop_first().len() == 0);
}

} // verus!
