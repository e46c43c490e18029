//! Text helpers for the scene format, on characters: whitespace, lines,
//! trimming, searching and number parsing, each with the meaning the
//! standard library gives it.

use vstd::prelude::*;

verus! {

/// Unicode whitespace, as `char::is_whitespace` decides it.
pub open spec fn is_ws(c: char) -> bool {
    ||| c == ' '
    ||| ('\t' <= c && c <= '\r')
    ||| c == '\u{85}'
    ||| c == '\u{a0}'
    ||| c == '\u{1680}'
    ||| ('\u{2000}' <= c && c <= '\u{200a}')
    ||| c == '\u{2028}'
    ||| c == '\u{2029}'
    ||| c == '\u{202f}'
    ||| c == '\u{205f}'
    ||| c == '\u{3000}'
}

/// Returns whether a character is whitespace.
pub fn char_is_ws(c: char) -> (r: bool)
    ensures
        r == is_ws(c),
{
    c == ' ' || ('\t' <= c && c <= '\r') || c == '\u{85}' || c == '\u{a0}' || c == '\u{1680}' || ('\u{2000}' <= c && c
        <= '\u{200a}') || c == '\u{2028}' || c == '\u{2029}' || c == '\u{202f}' || c == '\u{205f}' || c == '\u{3000}'
}

/// The first position at or after `k` whose character is not whitespace
/// (or the end).
pub open spec fn skip_ws(s: Seq<char>, k: int) -> int
    decreases s.len() - k,
{
    if k >= s.len() || !is_ws(s[k]) {
        k
    } else {
        skip_ws(s, k + 1)
    }
}

/// The first position at or after `k` whose character is whitespace (or
/// the end).
pub open spec fn skip_word(s: Seq<char>, k: int) -> int
    decreases s.len() - k,
{
    if k >= s.len() || is_ws(s[k]) {
        k
    } else {
        skip_word(s, k + 1)
    }
}

/// The end of `s[..k]` without its trailing whitespace.
pub open spec fn trim_end_at(s: Seq<char>, k: int) -> int
    decreases k,
{
    if k <= 0 || !is_ws(s[k - 1]) {
        k
    } else {
        trim_end_at(s, k - 1)
    }
}

/// `s` without leading and trailing whitespace.
pub open spec fn trim(s: Seq<char>) -> Seq<char> {
    let a = skip_ws(s, 0);
    let b = trim_end_at(s, s.len() as int);
    if a >= b {
        Seq::empty()
    } else {
        s.subrange(a, b)
    }
}

/// Lemma: `skip_ws` stays within bounds and moves forward.
pub proof fn lemma_skip_ws(s: Seq<char>, k: int)
    requires
        0 <= k <= s.len(),
    ensures
        k <= skip_ws(s, k) <= s.len(),
        forall|j: int| k <= j < skip_ws(s, k) ==> is_ws(s[j]),
        skip_ws(s, k) < s.len() ==> !is_ws(s[skip_ws(s, k)]),
    decreases s.len() - k,
{
    if k < s.len() && is_ws(s[k]) {
        lemma_skip_ws(s, k + 1);
    }
}

/// Lemma: `skip_word` stays within bounds and moves forward.
pub proof fn lemma_skip_word(s: Seq<char>, k: int)
    requires
        0 <= k <= s.len(),
    ensures
        k <= skip_word(s, k) <= s.len(),
        forall|j: int| k <= j < skip_word(s, k) ==> !is_ws(s[j]),
        skip_word(s, k) < s.len() ==> is_ws(s[skip_word(s, k)]),
    decreases s.len() - k,
{
    if k < s.len() && !is_ws(s[k]) {
        lemma_skip_word(s, k + 1);
    }
}

/// The position of the first non-whitespace character at or after `k`.
pub fn skip_ws_from(s: &[char], k: usize) -> (r: usize)
    requires
        k <= s@.len(),
    ensures
        r == skip_ws(s@, k as int),
{
    let mut j = k;
    while j < s.len() && char_is_ws(s[j])
        invariant
            k <= j <= s@.len(),
            skip_ws(s@, j as int) == skip_ws(s@, k as int),
        decreases s@.len() - j,
    {
        j = j + 1;
    }
    j
}

/// The position of the first whitespace character at or after `k`.
pub fn skip_word_from(s: &[char], k: usize) -> (r: usize)
    requires
        k <= s@.len(),
    ensures
        r == skip_word(s@, k as int),
{
    let mut j = k;
    while j < s.len() && !char_is_ws(s[j])
        invariant
            k <= j <= s@.len(),
            skip_word(s@, j as int) == skip_word(s@, k as int),
        decreases s@.len() - j,
    {
        j = j + 1;
    }
    j
}

/// Lemma: `trim_end_at` stays within bounds and moves backward.
pub proof fn lemma_trim_end_at(s: Seq<char>, k: int)
    requires
        0 <= k <= s.len(),
    ensures
        0 <= trim_end_at(s, k) <= k,
        forall|j: int| trim_end_at(s, k) <= j < k ==> is_ws(s[j]),
        trim_end_at(s, k) > 0 ==> !is_ws(s[trim_end_at(s, k) - 1]),
    decreases k,
{
    if k > 0 && is_ws(s[k - 1]) {
        lemma_trim_end_at(s, k - 1);
    }
}

/// Returns the bounds of `s` without leading and trailing whitespace.
pub fn trim_bounds(s: &[char]) -> (r: (usize, usize))
    ensures
        r.0 <= r.1 <= s@.len(),
        s@.subrange(r.0 as int, r.1 as int) == trim(s@),
{
    let mut a: usize = 0;
    while a < s.len() && char_is_ws(s[a])
        invariant
            a <= s@.len(),
            skip_ws(s@, 0) == skip_ws(s@, a as int),
        decreases s@.len() - a,
    {
        a = a + 1;
    }
    let mut b: usize = s.len();
    while b > 0 && char_is_ws(s[b - 1])
        invariant
            b <= s@.len(),
            trim_end_at(s@, s@.len() as int) == trim_end_at(s@, b as int),
        decreases b,
    {
        b = b - 1;
    }
    if a >= b {
        proof {
            assert(s@.subrange(a as int, a as int) =~= Seq::<char>::empty());
        }
        (a, a)
    } else {
        (a, b)
    }
}

/// Returns `s` without leading and trailing whitespace.
pub fn trimmed(s: &[char]) -> (r: Vec<char>)
    ensures
        r@ == trim(s@),
        r@.len() <= s@.len(),
{
    let (a, b) = trim_bounds(s);
    copy_range(s, a, b)
}

/// Copies `s[a..b]`.
pub fn copy_range(s: &[char], a: usize, b: usize) -> (r: Vec<char>)
    requires
        a <= b <= s@.len(),
    ensures
        r@ == s@.subrange(a as int, b as int),
{
    let mut out: Vec<char> = Vec::new();
    let mut i: usize = a;
    while i < b
        invariant
            a <= i <= b <= s@.len(),
            out@ == s@.subrange(a as int, i as int),
        decreases b - i,
    {
        out.push(s[i]);
        i = i + 1;
        proof {
            assert(out@ =~= s@.subrange(a as int, i as int));
        }
    }
    out
}

/// Whether `s` begins with `p`.
pub open spec fn starts_with(s: Seq<char>, p: Seq<char>) -> bool {
    p.len() <= s.len() && s.subrange(0, p.len() as int) == p
}

/// Returns whether `s` begins with `p`.
pub fn begins_with(s: &[char], p: &[char]) -> (r: bool)
    ensures
        r == starts_with(s@, p@),
{
    if p.len() > s.len() {
        return false;
    }
    let mut i: usize = 0;
    while i < p.len()
        invariant
            i <= p@.len() <= s@.len(),
            forall|j: int| 0 <= j < i ==> s@[j] == p@[j],
        decreases p@.len() - i,
    {
        if s[i] != p[i] {
            proof {
                assert(s@.subrange(0, p@.len() as int)[i as int] != p@[i as int]);
            }
            return false;
        }
        i = i + 1;
    }
    proof {
        assert(s@.subrange(0, p@.len() as int) =~= p@);
    }
    true
}

/// The first position of `c` in `s`, if any.
pub open spec fn first_pos(s: Seq<char>, c: char) -> Option<int> {
    if s.contains(c) {
        Some(choose|k: int| 0 <= k < s.len() && s[k] == c && forall|j: int| 0 <= j < k ==> s[j] != c)
    } else {
        None
    }
}

/// The last position of `c` in `s`, if any.
pub open spec fn last_pos(s: Seq<char>, c: char) -> Option<int> {
    if s.contains(c) {
        Some(choose|k: int| 0 <= k < s.len() && s[k] == c && forall|j: int| k < j < s.len() ==> s[j] != c)
    } else {
        None
    }
}

/// Finds the first position of a character.
pub fn find_char(s: &[char], c: char) -> (r: Option<usize>)
    ensures
        match r {
            Some(k) => first_pos(s@, c) == Some(k as int) && k < s@.len() && s@[k as int] == c,
            None => first_pos(s@, c) is None,
        },
{
    let mut i: usize = 0;
    while i < s.len()
        invariant
            i <= s@.len(),
            forall|j: int| 0 <= j < i ==> s@[j] != c,
        decreases s@.len() - i,
    {
        if s[i] == c {
            proof {
                assert(s@.contains(c));
                let k = choose|k: int| 0 <= k < s@.len() && s@[k] == c && forall|j: int| 0 <= j < k ==> s@[j] != c;
                assert(!(k < i) && !(k > i)) by {
                    if k > i {
                        assert(s@[i as int] != c);
                    }
                }
            }
            return Some(i);
        }
        i = i + 1;
    }
    proof {
        if s@.contains(c) {
            let k = choose|k: int| 0 <= k < s@.len() && s@[k] == c;
        }
    }
    None
}

/// Finds the last position of a character.
pub fn rfind_char(s: &[char], c: char) -> (r: Option<usize>)
    ensures
        match r {
            Some(k) => last_pos(s@, c) == Some(k as int) && k < s@.len() && s@[k as int] == c,
            None => last_pos(s@, c) is None,
        },
{
    let mut i: usize = s.len();
    while i > 0
        invariant
            i <= s@.len(),
            forall|j: int| i <= j < s@.len() ==> s@[j] != c,
        decreases i,
    {
        if s[i - 1] == c {
            proof {
                assert(s@.contains(c)) by {
                    assert(s@[i - 1] == c);
                }
                let k = choose|k: int| 0 <= k < s@.len() && s@[k] == c && forall|j: int| k < j < s@.len() ==> s@[j] != c;
                assert(k == i - 1) by {
                    if k < i - 1 {
                        assert(s@[i - 1] != c);
                    }
                }
            }
            return Some(i - 1);
        }
        i = i - 1;
    }
    proof {
        if s@.contains(c) {
            let k = choose|k: int| 0 <= k < s@.len() && s@[k] == c;
        }
    }
    None
}

/// The value of a decimal digit character.
pub open spec fn digit_value(c: char) -> int {
    (c as int) - ('0' as int)
}

/// Whether a character is an ASCII decimal digit.
pub open spec fn is_digit(c: char) -> bool {
    '0' <= c && c <= '9'
}

/// The value of a sequence of decimal digits.
pub open spec fn digits_value(s: Seq<char>) -> int
    decreases s.len(),
{
    if s.len() == 0 {
        0
    } else {
        digits_value(s.drop_last()) * 10 + digit_value(s.last())
    }
}

/// Every character is a decimal digit.
pub open spec fn all_digits(s: Seq<char>) -> bool {
    forall|k: int| 0 <= k < s.len() ==> is_digit(#[trigger] s[k])
}

/// The part of a number after an optional leading `+`.
pub open spec fn unsigned_part(s: Seq<char>) -> Seq<char> {
    if s.len() > 0 && s[0] == '+' {
        s.subrange(1, s.len() as int)
    } else {
        s
    }
}

/// What `u32::from_str` gives: an optional `+` and at least one decimal
/// digit, of a value that fits.
pub open spec fn parse_u32(s: Seq<char>) -> Option<u32> {
    let ds = unsigned_part(s);
    if ds.len() > 0 && all_digits(ds) && digits_value(ds) <= u32::MAX {
        Some(digits_value(ds) as u32)
    } else {
        None
    }
}

/// Digit values are never negative.
pub proof fn lemma_digits_nonneg(s: Seq<char>)
    requires
        forall|k: int| 0 <= k < s.len() ==> is_digit(s[k]),
    ensures
        digits_value(s) >= 0,
    decreases s.len(),
{
    if s.len() > 0 {
        lemma_digits_nonneg(s.drop_last());
    }
}

/// More digits never give a smaller value.
pub proof fn lemma_digits_prefix(s: Seq<char>, i: int)
    requires
        0 <= i <= s.len(),
        forall|k: int| 0 <= k < s.len() ==> is_digit(s[k]),
    ensures
        digits_value(s.subrange(0, i)) <= digits_value(s),
    decreases s.len() - i,
{
    if i < s.len() {
        lemma_digits_prefix(s, i + 1);
        assert(s.subrange(0, i + 1).drop_last() =~= s.subrange(0, i));
        lemma_digits_nonneg(s.subrange(0, i));
        assert(is_digit(s[i]));
    } else {
        assert(s.subrange(0, i) =~= s);
    }
}

/// Parses a decimal `u32` as `u32::from_str` does.
pub fn parse_u32_chars(s: &[char]) -> (r: Option<u32>)
    ensures
        r == parse_u32(s@),
{
    let start: usize = if s.len() > 0 && s[0] == '+' { 1 } else { 0 };
    let ghost ds = unsigned_part(s@);
    proof {
        if start == 0 {
            assert(ds =~= s@.subrange(0, s@.len() as int));
        }
    }
    if start >= s.len() {
        return None;
    }
    let mut value: u64 = 0;
    let mut i: usize = start;
    while i < s.len()
        invariant
            start <= i <= s@.len(),
            ds == s@.subrange(start as int, s@.len() as int),
            ds == unsigned_part(s@),
            forall|k: int| start <= k < i ==> is_digit(s@[k]),
            value == digits_value(s@.subrange(start as int, i as int)),
            value <= u32::MAX,
        decreases s@.len() - i,
    {
        let c = s[i];
        if !('0' <= c && c <= '9') {
            proof {
                assert(ds[i - start] == c);
                assert(!is_digit(ds[i - start]));
                assert(!all_digits(ds));
            }
            return None;
        }
        proof {
            assert(s@.subrange(start as int, i as int + 1).drop_last() =~= s@.subrange(start as int, i as int));
        }
        let d = (c as u32 - '0' as u32) as u64;
        let next = value * 10 + d;
        if next > 0xffff_ffffu64 {
            proof {
                let pre = s@.subrange(start as int, i as int + 1);
                assert(pre.last() == c);
                assert(digit_value(c) == d);
                assert(digits_value(pre) == digits_value(pre.drop_last()) * 10 + digit_value(pre.last()));
                assert(digits_value(pre) == next);
                if all_digits(ds) {
                    lemma_digits_prefix(ds, i + 1 - start);
                    assert(ds.subrange(0, i + 1 - start) =~= pre);
                }
            }
            return None;
        }
        value = next;
        i = i + 1;
    }
    proof {
        assert(s@.subrange(start as int, i as int) =~= ds);
    }
    Some(value as u32)
}

/// The pieces of `s` between separators, empty pieces included.
pub open spec fn split_on(s: Seq<char>, sep: char) -> Seq<Seq<char>>
    decreases s.len(),
{
    if s.len() == 0 {
        seq![Seq::<char>::empty()]
    } else {
        let p = split_on(s.drop_last(), sep);
        if s.last() == sep {
            p.push(Seq::empty())
        } else {
            p.update(p.len() - 1, p.last().push(s.last()))
        }
    }
}

/// There is always at least one piece.
pub proof fn lemma_split_on_len(s: Seq<char>, sep: char)
    ensures
        split_on(s, sep).len() >= 1,
    decreases s.len(),
{
    if s.len() > 0 {
        lemma_split_on_len(s.drop_last(), sep);
    }
}

/// No piece is longer than the text, and there is at most one piece more
/// than there are characters.
pub proof fn lemma_split_on_bounds(s: Seq<char>, sep: char)
    ensures
        split_on(s, sep).len() <= s.len() + 1,
        forall|k: int| 0 <= k < split_on(s, sep).len() ==> #[trigger] split_on(s, sep)[k].len() <= s.len(),
    decreases s.len(),
{
    if s.len() > 0 {
        lemma_split_on_bounds(s.drop_last(), sep);
        lemma_split_on_len(s.drop_last(), sep);
    }
}

/// A line without the carriage return that ended it, if any.
pub open spec fn strip_cr(line: Seq<char>) -> Seq<char> {
    if line.len() > 0 && line.last() == '\r' {
        line.drop_last()
    } else {
        line
    }
}

/// The lines of a text, as `str::lines` gives them: split at `\n`, a `\r`
/// right before a `\n` dropped, and no empty line after a final `\n`.
pub open spec fn lines_of(s: Seq<char>) -> Seq<Seq<char>> {
    let p = split_on(s, '\n');
    let body = p.drop_last().map_values(|l: Seq<char>| strip_cr(l));
    if p.last().len() == 0 {
        body
    } else {
        body.push(p.last())
    }
}

/// No line is longer than the text, and there are no more lines than
/// characters plus one.
pub proof fn lemma_lines_bounds(s: Seq<char>)
    ensures
        lines_of(s).len() <= s.len() + 1,
        forall|k: int| 0 <= k < lines_of(s).len() ==> #[trigger] lines_of(s)[k].len() <= s.len(),
{
    lemma_split_on_bounds(s, '\n');
    lemma_split_on_len(s, '\n');
    let p = split_on(s, '\n');
    assert forall|k: int| 0 <= k < lines_of(s).len() implies #[trigger] lines_of(s)[k].len() <= s.len() by {
        assert(p[k].len() <= s.len());
    }
}

/// Splits a text into its lines.
pub fn split_lines(s: &Vec<char>) -> (r: Vec<Vec<char>>)
    ensures
        r@.len() == lines_of(s@).len(),
        forall|k: int| 0 <= k < r@.len() ==> #[trigger] r@[k]@ == lines_of(s@)[k],
{
    let mut done: Vec<Vec<char>> = Vec::new();
    let mut cur: Vec<char> = Vec::new();
    let mut i: usize = 0;
    while i < s.len()
        invariant
            i <= s@.len(),
            split_on(s@.subrange(0, i as int), '\n').len() == done@.len() + 1,
            forall|k: int| 0 <= k < done@.len() ==> #[trigger] done@[k]@ == strip_cr(split_on(s@.subrange(0, i as int), '\n')[k]),
            cur@ == split_on(s@.subrange(0, i as int), '\n').last(),
        decreases s@.len() - i,
    {
        let c = s[i];
        proof {
            assert(s@.subrange(0, i as int + 1).drop_last() =~= s@.subrange(0, i as int));
            lemma_split_on_len(s@.subrange(0, i as int), '\n');
        }
        if c == '\n' {
            let n = cur.len();
            if n > 0 && cur[n - 1] == '\r' {
                cur.pop();
            }
            done.push(cur);
            cur = Vec::new();
        } else {
            cur.push(c);
        }
        i = i + 1;
    }
    proof {
        assert(s@.subrange(0, i as int) =~= s@);
        lemma_split_on_len(s@, '\n');
    }
    if cur.len() > 0 {
        done.push(cur);
    }
    done
}

/// The characters of a string.
pub fn chars_of(s: &str) -> (r: Vec<char>)
    ensures
        r@ == s@,
{
    let mut out: Vec<char> = Vec::new();
    for c in it: s.chars()
        invariant
            out@ == it.seq().subrange(0, it.index() as int),
            it.seq() == s@,
    {
        out.push(c);
        proof {
            assert(out@ =~= it.seq().subrange(0, it.index() as int + 1));
        }
    }
    proof {
        assert(out@ =~= s@);
    }
    out
}

/// What counting braces keeps: the depth, whether inside a string, and
/// whether the next character is escaped.
pub open spec fn brace_state(s: Seq<char>) -> (int, bool, bool)
    decreases s.len(),
{
    if s.len() == 0 {
        (0, false, false)
    } else {
        let (d, ins, esc) = brace_state(s.drop_last());
        let c = s.last();
        if esc {
            (d, ins, false)
        } else if c == '\\' && ins {
            (d, ins, true)
        } else if c == '"' {
            (d, !ins, false)
        } else if (c == '{' || c == '(') && !ins {
            (d + 1, ins, false)
        } else if (c == '}' || c == ')') && !ins {
            (d - 1, ins, false)
        } else {
            (d, ins, false)
        }
    }
}

/// The net number of opening braces (`{` or `(`) over closing ones
/// (`}` or `)`), not counting those inside string literals.
pub open spec fn braces(s: Seq<char>) -> int {
    brace_state(s).0
}

/// The depth never exceeds the length.
pub proof fn lemma_brace_bound(s: Seq<char>)
    ensures
        -(s.len() as int) <= braces(s) <= s.len(),
    decreases s.len(),
{
    if s.len() > 0 {
        lemma_brace_bound(s.drop_last());
    }
}

/// Counts net brace depth change in a text: positive for more opens,
/// negative for more closes. Handles both `{}` (JSON) and `()` (RON), and
/// skips braces inside string literals.
pub fn count_braces(s: &[char]) -> (r: i32)
    requires
        s@.len() <= i32::MAX,
    ensures
        r == braces(s@),
{
    let mut depth: i32 = 0;
    let mut in_string = false;
    let mut escape_next = false;
    let mut i: usize = 0;
    while i < s.len()
        invariant
            i <= s@.len() <= i32::MAX,
            (depth as int, in_string, escape_next) == brace_state(s@.subrange(0, i as int)),
        decreases s@.len() - i,
    {
        proof {
            assert(s@.subrange(0, i as int + 1).drop_last() =~= s@.subrange(0, i as int));
            lemma_brace_bound(s@.subrange(0, i as int));
        }
        let c = s[i];
        if escape_next {
            escape_next = false;
        } else if c == '\\' && in_string {
            escape_next = true;
        } else if c == '"' {
            in_string = !in_string;
        } else if (c == '{' || c == '(') && !in_string {
            depth = depth + 1;
        } else if (c == '}' || c == ')') && !in_string {
            depth = depth - 1;
        }
        i = i + 1;
    }
    proof {
        assert(s@.subrange(0, i as int) =~= s@);
    }
    depth
}

/// Appends a character with `String::push`. The contract claims that the
/// string's characters afterwards are the old ones followed by `c`.
#[verifier::external_body]
pub(crate) fn push_char(s: &mut String, c: char)
    ensures
        final(s)@ == old(s)@.push(c),
{
    s.push(c);
}

/// Builds a string from characters.
pub fn string_of(cs: &[char]) -> (r: String)
    ensures
        r@ == cs@,
{
    let mut out = String::new();
    let mut i: usize = 0;
    while i < cs.len()
        invariant
            i <= cs@.len(),
            out@ == cs@.subrange(0, i as int),
        decreases cs@.len() - i,
    {
        push_char(&mut out, cs[i]);
        i = i + 1;
        proof {
            assert(out@ =~= cs@.subrange(0, i as int));
        }
    }
    proof {
        assert(cs@.subrange(0, i as int) =~= cs@);
    }
    out
}

} // verus!
