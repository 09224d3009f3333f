//! Text as sequences of characters: character classes, runs, decimal
//! numbers, trimming, substitution and line splitting.

use vstd::prelude::*;
use vstd::string::*;

verus! {

/// `String::push` appends one character.
pub assume_specification[ String::push ](s: &mut String, c: char)
    ensures
        final(s)@ == old(s)@.push(c),
;

/// The classes of characters that the source grammar tells apart.
#[derive(Clone, Copy, Debug)]
pub enum CharClass {
    /// `0` to `9`.
    Digit,
    /// ASCII letters, digits and the underscore.
    Word,
    /// White space.
    Space,
}

/// The decimal digits `0` to `9`.
pub open spec fn is_digit(c: char) -> bool {
    '0' <= c && c <= '9'
}

/// The characters of a name: ASCII letters, decimal digits and the underscore.
pub open spec fn is_word_char(c: char) -> bool {
    is_digit(c) || ('a' <= c && c <= 'z') || ('A' <= c && c <= 'Z') || c == '_'
}

/// The characters with the Unicode property `White_Space`.
pub open spec fn is_space(c: char) -> bool {
    let n = c as u32;
    (0x09 <= n && n <= 0x0D) || n == 0x20 || n == 0x85 || n == 0xA0 || n == 0x1680 || (0x2000 <= n
        && n <= 0x200A) || n == 0x2028 || n == 0x2029 || n == 0x202F || n == 0x205F || n
        == 0x3000
}

impl CharClass {
    /// Whether `c` belongs to the class.
    pub open spec fn spec_holds(self, c: char) -> bool {
        match self {
            CharClass::Digit => is_digit(c),
            CharClass::Word => is_word_char(c),
            CharClass::Space => is_space(c),
        }
    }

    /// Whether `c` belongs to the class.
    #[verifier::when_used_as_spec(spec_holds)]
    pub fn holds(self, c: char) -> (b: bool)
        ensures
            b == self.spec_holds(c),
    {
        let n: u32 = c as u32;
        let digit = 0x30 <= n && n <= 0x39;
        match self {
            CharClass::Digit => digit,
            CharClass::Word => digit || (0x61 <= n && n <= 0x7A) || (0x41 <= n && n <= 0x5A) || n
                == 0x5F,
            CharClass::Space => (0x09 <= n && n <= 0x0D) || n == 0x20 || n == 0x85 || n == 0xA0
                || n == 0x1680 || (0x2000 <= n && n <= 0x200A) || n == 0x2028 || n == 0x2029 || n
                == 0x202F || n == 0x205F || n == 0x3000,
        }
    }
}

/// Whether every character of `s` belongs to `class`.
pub open spec fn all_in(s: Seq<char>, class: CharClass) -> bool {
    forall|i: int| 0 <= i < s.len() ==> class.holds(#[trigger] s[i])
}

/// Where the run of `class` characters that begins at `start` ends: the first
/// index from `start` on whose character is outside the class, or the length.
pub open spec fn run_end(s: Seq<char>, start: int, class: CharClass) -> int
    decreases s.len() - start,
{
    if 0 <= start < s.len() && class.holds(s[start]) {
        run_end(s, start + 1, class)
    } else {
        start
    }
}

/// A run ends within the text; all of it is inside the class, and the
/// character at its end, if there is one, is outside.
pub proof fn lemma_run_end(s: Seq<char>, start: int, class: CharClass)
    requires
        0 <= start <= s.len(),
    ensures
        start <= run_end(s, start, class) <= s.len(),
        all_in(s.subrange(start, run_end(s, start, class)), class),
        run_end(s, start, class) < s.len() ==> !class.holds(s[run_end(s, start, class)]),
    decreases s.len() - start,
{
    if start < s.len() && class.holds(s[start]) {
        lemma_run_end(s, start + 1, class);
        let end = run_end(s, start, class);
        assert forall|i: int| 0 <= i < end - start implies class.holds(
            #[trigger] s.subrange(start, end)[i],
        ) by {
            if i > 0 {
                assert(s.subrange(start, end)[i] == s.subrange(start + 1, end)[i - 1]);
            }
        }
    }
}

/// A run is found by its two properties: all inside up to `end`, and the
/// character at `end`, if there is one, outside.
pub proof fn lemma_run_end_unique(s: Seq<char>, start: int, end: int, class: CharClass)
    requires
        0 <= start <= end <= s.len(),
        all_in(s.subrange(start, end), class),
        end < s.len() ==> !class.holds(s[end]),
    ensures
        run_end(s, start, class) == end,
    decreases end - start,
{
    if start < end {
        assert(s.subrange(start, end)[0] == s[start]);
        assert forall|i: int| 0 <= i < end - (start + 1) implies class.holds(
            #[trigger] s.subrange(start + 1, end)[i],
        ) by {
            assert(s.subrange(start + 1, end)[i] == s.subrange(start, end)[i + 1]);
        }
        lemma_run_end_unique(s, start + 1, end, class);
    }
}

/// A run that begins in the part that two texts share, where the part ends
/// in both texts or is followed by a character outside the class, ends in
/// that part, at the same index in both.
pub proof fn lemma_run_end_in_prefix(
    a: Seq<char>,
    b: Seq<char>,
    start: int,
    k: int,
    class: CharClass,
)
    requires
        0 <= start <= k,
        k <= a.len(),
        k <= b.len(),
        forall|j: int| 0 <= j < k ==> a[j] == b[j],
        k == a.len() || !class.holds(a[k]),
        k == b.len() || !class.holds(b[k]),
    ensures
        run_end(a, start, class) == run_end(b, start, class),
        run_end(a, start, class) <= k,
    decreases k - start,
{
    if start < k && class.holds(a[start]) {
        lemma_run_end_in_prefix(a, b, start + 1, k, class);
    }
}

/// Where two texts are the same from an index of each on, the runs that
/// begin at the two indices are equally long.
pub proof fn lemma_run_end_in_suffix(
    a: Seq<char>,
    p: int,
    b: Seq<char>,
    q: int,
    class: CharClass,
)
    requires
        0 <= p <= a.len(),
        0 <= q <= b.len(),
        a.skip(p) == b.skip(q),
    ensures
        run_end(a, p, class) - p == run_end(b, q, class) - q,
    decreases a.len() - p,
{
    assert(a.skip(p).len() == a.len() - p);
    assert(b.skip(q).len() == b.len() - q);
    if p < a.len() {
        assert(a[p] == a.skip(p)[0]);
        assert(b[q] == b.skip(q)[0]);
        if class.holds(a[p]) {
            assert(a.skip(p + 1) =~= a.skip(p).skip(1));
            assert(b.skip(q + 1) =~= b.skip(q).skip(1));
            lemma_run_end_in_suffix(a, p + 1, b, q + 1, class);
        }
    }
}

/// Finds the end of the run of `class` characters that begins at `start`.
pub fn scan_run(s: &Vec<char>, start: usize, class: CharClass) -> (end: usize)
    requires
        start <= s.len(),
    ensures
        end == run_end(s@, start as int, class),
        start <= end <= s.len(),
{
    let mut i: usize = start;
    while i < s.len() && class.holds(s[i])
        invariant
            start <= i <= s.len(),
            run_end(s@, start as int, class) == run_end(s@, i as int, class),
        decreases s.len() - i,
    {
        i += 1;
    }
    i
}

/// Whether `lit` stands in `s` at index `i`.
pub open spec fn has_at(s: Seq<char>, i: int, lit: Seq<char>) -> bool {
    0 <= i && i + lit.len() <= s.len() && s.subrange(i, i + lit.len()) == lit
}

/// Tests whether `lit` stands in `s` at index `i`.
pub fn starts_at(s: &Vec<char>, i: usize, lit: &Vec<char>) -> (b: bool)
    ensures
        b == has_at(s@, i as int, lit@),
{
    if i > s.len() || lit.len() > s.len() - i {
        return false;
    }
    let mut k: usize = 0;
    while k < lit.len()
        invariant
            k <= lit.len(),
            i + lit.len() <= s.len(),
            s@.subrange(i as int, i + k) == lit@.take(k as int),
        decreases lit.len() - k,
    {
        if s[i + k] != lit[k] {
            assert(s@.subrange(i as int, i + lit.len())[k as int] == s@[i + k]);
            return false;
        }
        assert(s@.subrange(i as int, i + k + 1) =~= s@.subrange(i as int, i + k).push(s@[i + k]));
        assert(lit@.take(k + 1) =~= lit@.take(k as int).push(lit@[k as int]));
        k += 1;
    }
    assert(lit@.take(lit.len() as int) =~= lit@);
    true
}

/// The characters of a string.
pub fn to_chars(s: &str) -> (v: Vec<char>)
    ensures
        v@ == s@,
{
    let mut v: Vec<char> = Vec::new();
    for c in it: s.chars()
        invariant
            it.seq() == s@,
            v@ == s@.take(it.index() as int),
    {
        v.push(c);
    }
    v
}

/// The string made of the given characters.
pub fn to_string(v: &Vec<char>) -> (s: String)
    ensures
        s@ == v@,
{
    let mut s = String::new();
    let mut i: usize = 0;
    while i < v.len()
        invariant
            i <= v.len(),
            s@ == v@.take(i as int),
        decreases v.len() - i,
    {
        s.push(v[i]);
        i += 1;
    }
    s
}

/// Appends the characters of `s[from..to]` to `out`.
pub fn push_range(out: &mut Vec<char>, s: &Vec<char>, from: usize, to: usize)
    requires
        from <= to <= s.len(),
    ensures
        final(out)@ == old(out)@ + s@.subrange(from as int, to as int),
{
    let mut i: usize = from;
    while i < to
        invariant
            from <= i <= to <= s.len(),
            out@ == old(out)@ + s@.subrange(from as int, i as int),
        decreases to - i,
    {
        out.push(s[i]);
        i += 1;
    }
}

/// Appends the characters of `s` to `out`.
pub fn push_str(out: &mut Vec<char>, s: &str)
    ensures
        final(out)@ == old(out)@ + s@,
{
    let chars = to_chars(s);
    push_range(out, &chars, 0, chars.len());
    assert(chars@.subrange(0, chars.len() as int) =~= chars@);
}

/// A copy of `s[from..to]`.
pub fn slice(s: &Vec<char>, from: usize, to: usize) -> (r: Vec<char>)
    requires
        from <= to <= s.len(),
    ensures
        r@ == s@.subrange(from as int, to as int),
{
    let mut r: Vec<char> = Vec::new();
    push_range(&mut r, s, from, to);
    r
}

/// Whether two texts hold the same characters.
pub fn same_text(a: &Vec<char>, b: &Vec<char>) -> (r: bool)
    ensures
        r == (a@ == b@),
{
    if a.len() != b.len() {
        return false;
    }
    let r = starts_at(a, 0, b);
    assert(a@.subrange(0, a.len() as int) =~= a@);
    r
}

// ---------------------------------------------------------------------------
// Decimal numbers
// ---------------------------------------------------------------------------

/// The value of a decimal digit.
pub open spec fn digit_value(c: char) -> nat {
    (c as u32 - 0x30) as nat
}

/// The number that a run of decimal digits writes.
pub open spec fn decimal_value(s: Seq<char>) -> nat
    decreases s.len(),
{
    if s.len() == 0 {
        0
    } else {
        decimal_value(s.drop_last()) * 10 + digit_value(s.last())
    }
}

/// The number that `s` writes: `s` is one or more decimal digits and nothing
/// else, and the number fits the machine word. Leading zeros are accepted.
pub open spec fn parse_decimal(s: Seq<char>) -> Option<usize> {
    if s.len() > 0 && all_in(s, CharClass::Digit) && decimal_value(s) <= usize::MAX {
        Some(decimal_value(s) as usize)
    } else {
        None
    }
}

/// The number that the first digits of a run write is at most the number
/// that the whole run writes.
pub proof fn lemma_decimal_value_prefix(s: Seq<char>, k: int)
    requires
        0 <= k <= s.len(),
    ensures
        decimal_value(s.take(k)) <= decimal_value(s),
    decreases s.len() - k,
{
    if k < s.len() {
        lemma_decimal_value_prefix(s, k + 1);
        assert(s.take(k + 1).drop_last() =~= s.take(k));
    } else {
        assert(s.take(k) =~= s);
    }
}

/// Reads the decimal number written in `s[from..to]`.
pub fn read_decimal(s: &Vec<char>, from: usize, to: usize) -> (r: Option<usize>)
    requires
        from <= to <= s.len(),
    ensures
        r == parse_decimal(s@.subrange(from as int, to as int)),
{
    let ghost t = s@.subrange(from as int, to as int);
    if from == to {
        return None;
    }
    let mut acc: usize = 0;
    let mut i: usize = from;
    while i < to
        invariant
            from <= i <= to <= s.len(),
            t == s@.subrange(from as int, to as int),
            all_in(t.take(i - from), CharClass::Digit),
            acc == decimal_value(t.take(i - from)),
        decreases to - i,
    {
        let c = s[i];
        assert(t[i - from] == c);
        assert(t.take(i - from + 1).drop_last() =~= t.take(i - from));
        if !CharClass::Digit.holds(c) {
            return None;
        }
        let d: usize = (c as u32 - 0x30) as usize;
        proof {
            lemma_decimal_value_prefix(t, i - from + 1);
        }
        if acc > (usize::MAX - d) / 10 {
            return None;
        }
        acc = acc * 10 + d;
        i += 1;
    }
    assert(t.take(to - from) =~= t);
    Some(acc)
}

/// The character that writes the digit `d`.
pub open spec fn digit_char(d: nat) -> char {
    (0x30 + d) as char
}

/// The decimal digits of `n`, without leading zeros.
pub open spec fn decimal_digits(n: nat) -> Seq<char>
    decreases n,
{
    if n < 10 {
        seq![digit_char(n)]
    } else {
        decimal_digits(n / 10).push(digit_char(n % 10))
    }
}

/// Writing a number and reading it back gives the number.
pub proof fn lemma_decimal_round_trip(n: nat)
    ensures
        decimal_digits(n).len() >= 1,
        all_in(decimal_digits(n), CharClass::Digit),
        decimal_value(decimal_digits(n)) == n,
    decreases n,
{
    let s = decimal_digits(n);
    if n < 10 {
        assert(s.drop_last() =~= Seq::<char>::empty());
        assert(decimal_value(s.drop_last()) == 0);
    } else {
        lemma_decimal_round_trip(n / 10);
        assert(s.drop_last() =~= decimal_digits(n / 10));
    }
}

/// Appends the decimal digits of `n` to `out`.
pub fn push_decimal(out: &mut Vec<char>, n: usize)
    ensures
        final(out)@ == old(out)@ + decimal_digits(n as nat),
    decreases n,
{
    if n >= 10 {
        push_decimal(out, n / 10);
    }
    let d: u8 = (n % 10) as u8;
    out.push((0x30u8 + d) as char);
    proof {
        if n >= 10 {
            assert(old(out)@ + decimal_digits(n as nat) =~= (old(out)@ + decimal_digits(
                (n / 10) as nat,
            )).push(digit_char((n % 10) as nat)));
        } else {
            assert(old(out)@ + decimal_digits(n as nat) =~= old(out)@.push(digit_char(n as nat)));
        }
    }
}

// ---------------------------------------------------------------------------
// Trimming
// ---------------------------------------------------------------------------

/// The length of `s` without its trailing white space.
pub open spec fn trimmed_len(s: Seq<char>) -> int
    decreases s.len(),
{
    if s.len() > 0 && is_space(s.last()) {
        trimmed_len(s.drop_last())
    } else {
        s.len() as int
    }
}

/// `s` without the white space at its two ends.
pub open spec fn trim(s: Seq<char>) -> Seq<char> {
    let from = run_end(s, 0, CharClass::Space);
    let to = trimmed_len(s);
    if from < to {
        s.subrange(from, to)
    } else {
        Seq::empty()
    }
}

/// Removes the white space at both ends of `s`.
pub fn trimmed(s: &Vec<char>) -> (r: Vec<char>)
    ensures
        r@ == trim(s@),
{
    let from = scan_run(s, 0, CharClass::Space);
    let mut to: usize = s.len();
    assert(s@.take(s.len() as int) =~= s@);
    while to > 0 && CharClass::Space.holds(s[to - 1])
        invariant
            to <= s.len(),
            trimmed_len(s@) == trimmed_len(s@.take(to as int)),
        decreases to,
    {
        assert(s@.take(to as int).drop_last() =~= s@.take(to - 1));
        to -= 1;
    }
    if from < to {
        slice(s, from, to)
    } else {
        Vec::new()
    }
}

// ---------------------------------------------------------------------------
// Substitution
// ---------------------------------------------------------------------------

/// `s` from index `i` on, with every occurrence of `from` replaced by `to`,
/// taken from left to right and without overlap. An empty `from` occurs
/// nowhere.
pub open spec fn replaced_from(s: Seq<char>, i: int, from: Seq<char>, to: Seq<char>) -> Seq<char>
    decreases s.len() - i,
{
    if i < 0 || i >= s.len() {
        Seq::empty()
    } else if from.len() > 0 && has_at(s, i, from) {
        to + replaced_from(s, i + from.len(), from, to)
    } else {
        seq![s[i]] + replaced_from(s, i + 1, from, to)
    }
}

/// `s` with every occurrence of `from` replaced by `to`.
pub open spec fn replaced(s: Seq<char>, from: Seq<char>, to: Seq<char>) -> Seq<char> {
    replaced_from(s, 0, from, to)
}

/// Replaces every occurrence of `from` in `s` by `to`.
pub fn replace(s: &Vec<char>, from: &Vec<char>, to: &Vec<char>) -> (r: Vec<char>)
    ensures
        r@ == replaced(s@, from@, to@),
{
    let mut r: Vec<char> = Vec::new();
    let mut i: usize = 0;
    while i < s.len()
        invariant
            i <= s.len(),
            r@ + replaced_from(s@, i as int, from@, to@) == replaced(s@, from@, to@),
        decreases s.len() - i,
    {
        let ghost before = r@;
        let ghost rest = replaced_from(s@, i as int, from@, to@);
        if from.len() > 0 && starts_at(s, i, from) {
            push_range(&mut r, to, 0, to.len());
            assert(to@.subrange(0, to.len() as int) =~= to@);
            i += from.len();
            assert(r@ + replaced_from(s@, i as int, from@, to@) =~= before + rest);
        } else {
            r.push(s[i]);
            i += 1;
            assert(r@ + replaced_from(s@, i as int, from@, to@) =~= before + rest);
        }
    }
    assert(r@ + Seq::<char>::empty() =~= r@);
    r
}


// ---------------------------------------------------------------------------
// Lines
// ---------------------------------------------------------------------------

/// The texts of a list of strings.
pub open spec fn texts(lines: Seq<String>) -> Seq<Seq<char>> {
    lines.map_values(|l: String| l@)
}

/// The texts of a list with one more string are the texts of the list with
/// the text of the string.
pub proof fn lemma_texts_push(lines: Seq<String>, line: String)
    ensures
        texts(lines.push(line)) == texts(lines).push(line@),
{
    assert(texts(lines.push(line)) =~= texts(lines).push(line@));
}

/// A line without the carriage return that may end it.
pub open spec fn without_return(line: Seq<char>) -> Seq<char> {
    if line.len() > 0 && line.last() == '\r' {
        line.drop_last()
    } else {
        line
    }
}

/// The lines of `s` from index `i` on, after the lines in `done`; the line
/// that is being read began at `start`.
pub open spec fn lines_from(s: Seq<char>, i: int, start: int, done: Seq<Seq<char>>) -> Seq<
    Seq<char>,
>
    decreases s.len() - i,
{
    if i < 0 || i >= s.len() {
        if start < s.len() {
            done.push(s.subrange(start, s.len() as int))
        } else {
            done
        }
    } else if s[i] == '\n' {
        lines_from(s, i + 1, i + 1, done.push(without_return(s.subrange(start, i))))
    } else {
        lines_from(s, i + 1, start, done)
    }
}

/// The lines of a text. A line ends at a line feed, or at a carriage return
/// and a line feed, which are not part of it; the last line needs no line feed,
/// and a text that ends in one has no empty line after it.
pub open spec fn lines(s: Seq<char>) -> Seq<Seq<char>> {
    lines_from(s, 0, 0, Seq::empty())
}

/// Splits a text into its lines.
pub fn split_lines(text: &str) -> (r: Vec<String>)
    ensures
        texts(r@) == lines(text@),
{
    let s = to_chars(text);
    let mut r: Vec<String> = Vec::new();
    let mut start: usize = 0;
    let mut i: usize = 0;
    assert(texts(r@) =~= Seq::empty());
    while i < s.len()
        invariant
            start <= i <= s.len(),
            lines_from(s@, i as int, start as int, texts(r@)) == lines(s@),
        decreases s.len() - i,
    {
        if s[i] == '\n' {
            let end: usize = if i > start && s[i - 1] == '\r' {
                (i - 1) as usize
            } else {
                i
            };
            let line = slice(&s, start, end);
            assert(line@ =~= without_return(s@.subrange(start as int, i as int)));
            let ghost before = r@;
            let owned = to_string(&line);
            r.push(owned);
            proof {
                lemma_texts_push(before, owned);
            }
            start = i + 1;
        }
        i += 1;
    }
    if start < s.len() {
        let line = slice(&s, start, s.len());
        let ghost before = r@;
        let owned = to_string(&line);
        r.push(owned);
        proof {
            lemma_texts_push(before, owned);
        }
    }
    r
}

} // verus!
