//! Character-level building blocks shared by the path, flag and name logic.
use vstd::prelude::*;

verus! {

/// `String::push` appends one character at the end.
pub assume_specification[ std::string::String::push ](s: &mut std::string::String, ch: char)
    ensures
        final(s)@ == old(s)@.push(ch),
;

/// The characters of `s`, in order.
pub fn chars_of(s: &str) -> (v: Vec<char>)
    ensures
        v@ == s@,
{
    let mut v: Vec<char> = Vec::new();
    for c in it: s.chars()
        invariant
            v@ == it.seq().take(it.index() as int),
    {
        v.push(c);
    }
    v
}

/// A string holding the characters `cs[a..b]`.
pub fn string_from_range(cs: &Vec<char>, a: usize, b: usize) -> (s: String)
    requires
        a <= b <= cs@.len(),
    ensures
        s@ == cs@.subrange(a as int, b as int),
{
    let mut s = String::new();
    let mut i: usize = a;
    while i < b
        invariant
            a <= i <= b <= cs@.len(),
            s@ == cs@.subrange(a as int, i as int),
        decreases b - i,
    {
        s.push(cs[i]);
        i = i + 1;
        assert(s@ =~= cs@.subrange(a as int, i as int));
    }
    s
}

/// Whether `a` and `b` hold the same characters.
pub fn str_equals(a: &str, b: &str) -> (r: bool)
    ensures
        r == (a@ == b@),
{
    let x = chars_of(a);
    let y = chars_of(b);
    if x.len() != y.len() {
        return false;
    }
    let mut i: usize = 0;
    while i < x.len()
        invariant
            x@ == a@,
            y@ == b@,
            x@.len() == y@.len(),
            i <= x@.len(),
            forall|j: int| 0 <= j < i ==> x@[j] == y@[j],
        decreases x@.len() - i,
    {
        if x[i] != y[i] {
            return false;
        }
        i = i + 1;
    }
    assert(x@ =~= y@);
    true
}

/// Whether `s` ends with `suffix`.
pub open spec fn ends_with(s: Seq<char>, suffix: Seq<char>) -> bool {
    s.len() >= suffix.len() && s.skip(s.len() - suffix.len()) == suffix
}

/// Whether `s` starts with `prefix`.
pub open spec fn starts_with(s: Seq<char>, prefix: Seq<char>) -> bool {
    s.len() >= prefix.len() && s.take(prefix.len() as int) == prefix
}

/// Whether `s` ends with `suffix`, as `str::ends_with` answers it.
pub fn str_ends_with(s: &str, suffix: &str) -> (r: bool)
    ensures
        r == ends_with(s@, suffix@),
{
    let x = chars_of(s);
    let y = chars_of(suffix);
    if x.len() < y.len() {
        return false;
    }
    let off = x.len() - y.len();
    let mut i: usize = 0;
    while i < y.len()
        invariant
            x@ == s@,
            y@ == suffix@,
            off == x@.len() - y@.len(),
            x@.len() >= y@.len(),
            off + y@.len() == x.len(),
            i <= y@.len(),
            forall|j: int| 0 <= j < i ==> x@[off + j] == y@[j],
        decreases y@.len() - i,
    {
        if x[off + i] != y[i] {
            assert(s@.skip(off as int)[i as int] == x@[off + i]);
            return false;
        }
        i = i + 1;
    }
    assert(s@.skip(off as int) =~= suffix@);
    true
}

/// Index of the first occurrence of `c` in `s`, if any.
pub open spec fn first_index(s: Seq<char>, c: char) -> Option<int>
    decreases s.len(),
{
    if s.len() == 0 {
        None
    } else if s[0] == c {
        Some(0)
    } else {
        match first_index(s.drop_first(), c) {
            Some(k) => Some(k + 1),
            None => None,
        }
    }
}

pub proof fn lemma_first_index(s: Seq<char>, c: char)
    ensures
        first_index(s, c) matches Some(k) ==> 0 <= k < s.len() && s[k] == c && forall|j: int|
            0 <= j < k ==> s[j] != c,
        first_index(s, c) is None ==> forall|j: int| 0 <= j < s.len() ==> s[j] != c,
    decreases s.len(),
{
    if s.len() > 0 && s[0] != c {
        let t = s.drop_first();
        lemma_first_index(t, c);
        assert(forall|j: int| 0 <= j < t.len() ==> s[j + 1] == #[trigger] t[j]);
        if let Some(k) = first_index(s, c) {
            assert forall|j: int| 0 <= j < k implies s[j] != c by {
                if j > 0 {
                    assert(s[j] == t[j - 1]);
                }
            }
        } else {
            assert forall|j: int| 0 <= j < s.len() implies s[j] != c by {
                if j > 0 {
                    assert(s[j] == t[j - 1]);
                }
            }
        }
    }
}

/// Finds the first `c` in `cs[from..]`.
pub fn find_char_from(cs: &Vec<char>, from: usize, c: char) -> (r: Option<usize>)
    requires
        from <= cs@.len(),
    ensures
        match r {
            Some(k) => from <= k < cs@.len() && first_index(cs@.skip(from as int), c) == Some(k - from),
            None => first_index(cs@.skip(from as int), c) is None,
        },
{
    let ghost t = cs@.skip(from as int);
    let mut i: usize = from;
    while i < cs.len()
        invariant
            from <= i <= cs@.len(),
            t == cs@.skip(from as int),
            forall|j: int| from <= j < i ==> cs@[j] != c,
        decreases cs@.len() - i,
    {
        if cs[i] == c {
            proof {
                lemma_first_index(t, c);
                if let Some(k) = first_index(t, c) {
                    assert(t[k] == cs@[from + k]);
                    assert(t[i - from] == cs@[i as int]);
                } else {
                    assert(t[i - from] == cs@[i as int]);
                }
            }
            return Some(i);
        }
        i = i + 1;
    }
    proof {
        lemma_first_index(t, c);
        if let Some(k) = first_index(t, c) {
            assert(t[k] == cs@[from + k]);
        }
    }
    None
}

/// `str::split` with a single-character separator: the pieces between the
/// separators, empty pieces included (an empty text gives one empty piece).
pub open spec fn split_on(s: Seq<char>, c: char) -> Seq<Seq<char>>
    decreases s.len(),
{
    if s.len() == 0 {
        seq![Seq::empty()]
    } else {
        let prev = split_on(s.drop_last(), c);
        if s.last() == c {
            prev.push(Seq::empty())
        } else {
            prev.update(prev.len() - 1, prev.last().push(s.last()))
        }
    }
}

pub proof fn lemma_split_on_nonempty(s: Seq<char>, c: char)
    ensures
        split_on(s, c).len() >= 1,
    decreases s.len(),
{
    if s.len() > 0 {
        lemma_split_on_nonempty(s.drop_last(), c);
    }
}

/// Text with the separator in it splits into at least two pieces, and the
/// first is the text before the first separator.
pub proof fn lemma_split_on_has_two(s: Seq<char>, c: char)
    requires
        first_index(s, c) is Some,
    ensures
        split_on(s, c).len() >= 2,
        split_on(s, c)[0] == s.take(first_index(s, c).unwrap()),
    decreases s.len(),
{
    lemma_first_index(s, c);
    let k = first_index(s, c).unwrap();
    let p = s.drop_last();
    lemma_split_on_nonempty(p, c);
    if k < s.len() - 1 {
        lemma_first_index(p, c);
        assert(p[k] == c);
        if first_index(p, c) is None {
            assert(p[k] == s[k]);
        }
        let kp = first_index(p, c).unwrap();
        assert(kp == k) by {
            if kp < k {
                assert(p[kp] == s[kp]);
            }
            if kp > k {
                assert(p[k] == s[k]);
            }
        }
        lemma_split_on_has_two(p, c);
        assert(p.take(k) =~= s.take(k));
    } else {
        lemma_split_on_first_when_absent(p, c);
        assert(p =~= s.take(k));
    }
}

/// Without the separator, text is a single piece.
pub proof fn lemma_split_on_first_when_absent(s: Seq<char>, c: char)
    requires
        forall|j: int| 0 <= j < s.len() ==> s[j] != c,
    ensures
        split_on(s, c) == seq![s],
    decreases s.len(),
{
    if s.len() == 0 {
        assert(s =~= Seq::<char>::empty());
        assert(split_on(s, c) =~= seq![s]);
    } else {
        lemma_split_on_first_when_absent(s.drop_last(), c);
        assert(s[s.len() - 1] != c);
        assert(s.drop_last().push(s.last()) =~= s);
        assert(split_on(s, c) =~= seq![s]);
    }
}

/// The pieces of `s` between occurrences of `c` (see `split_on`).
pub fn split_on_char(s: &str, c: char) -> (r: Vec<String>)
    ensures
        r.deep_view() == split_on(s@, c),
{
    let cs = chars_of(s);
    let mut out: Vec<String> = Vec::new();
    let mut cur = String::new();
    let mut i: usize = 0;
    assert(s@.take(0) =~= Seq::<char>::empty());
    assert(out.deep_view().push(cur@) =~= split_on(s@.take(0), c));
    while i < cs.len()
        invariant
            cs@ == s@,
            i <= cs@.len(),
            out.deep_view().push(cur@) == split_on(s@.take(i as int), c),
        decreases cs@.len() - i,
    {
        let ghost before = out.deep_view();
        let ghost cur_before = cur@;
        assert(s@.take(i + 1).drop_last() =~= s@.take(i as int));
        proof { lemma_split_on_nonempty(s@.take(i as int), c); }
        if cs[i] == c {
            out.push(cur);
            cur = String::new();
            assert(out.deep_view() =~= before.push(cur_before));
            assert(out.deep_view().push(cur@) =~= split_on(s@.take(i + 1), c));
        } else {
            cur.push(cs[i]);
            assert(out.deep_view().push(cur@) =~= split_on(s@.take(i + 1), c));
        }
        i = i + 1;
    }
    assert(s@.take(i as int) =~= s@);
    out.push(cur);
    out
}

/// The pieces joined with `sep` between them.
pub open spec fn join_with(ss: Seq<Seq<char>>, sep: Seq<char>) -> Seq<char>
    decreases ss.len(),
{
    if ss.len() == 0 {
        Seq::empty()
    } else if ss.len() == 1 {
        ss[0]
    } else {
        join_with(ss.drop_last(), sep) + sep + ss.last()
    }
}

/// `[String]::join`.
pub fn join_strings(ss: &Vec<String>, sep: &str) -> (r: String)
    ensures
        r@ == join_with(ss.deep_view(), sep@),
{
    let mut r = String::new();
    let mut i: usize = 0;
    while i < ss.len()
        invariant
            i <= ss@.len(),
            r@ == join_with(ss.deep_view().take(i as int), sep@),
        decreases ss@.len() - i,
    {
        assert(ss.deep_view().take(i + 1).drop_last() =~= ss.deep_view().take(i as int));
        if i > 0 {
            r.append(sep);
        }
        r.append(ss[i].as_str());
        i = i + 1;
        assert(ss.deep_view().take(i as int).last() == ss.deep_view()[i - 1]);
        if i == 1 {
            assert(r@ =~= join_with(ss.deep_view().take(i as int), sep@));
        }
    }
    assert(ss.deep_view().take(i as int) =~= ss.deep_view());
    r
}

/// Appends copies of the strings of `more` to `out`.
pub fn extend_strings(out: &mut Vec<String>, more: &Vec<String>)
    ensures
        final(out).deep_view() == old(out).deep_view() + more.deep_view(),
{
    let mut i: usize = 0;
    let ghost start = out.deep_view();
    while i < more.len()
        invariant
            i <= more@.len(),
            out.deep_view() == start + more.deep_view().take(i as int),
        decreases more@.len() - i,
    {
        let ghost before = out.deep_view();
        out.push(more[i].clone());
        assert(out.deep_view() =~= before.push(more.deep_view()[i as int]));
        i = i + 1;
        assert(start + more.deep_view().take(i as int) =~= before.push(more.deep_view()[i - 1]));
    }
    assert(more.deep_view().take(i as int) =~= more.deep_view());
}

/// The decimal digit character for `d` (`0 <= d < 10`).
pub open spec fn digit_char(d: int) -> char {
    (48 + d) as char
}

/// Whether `c` is one of the ASCII digits `0`..`9`.
pub open spec fn is_digit(c: char) -> bool {
    '0' <= c && c <= '9'
}

/// The value of the digit character `c`.
pub open spec fn digit_value(c: char) -> int {
    c as int - 48
}

/// The shortest decimal spelling of `n` (no sign, no leading zeros).
pub open spec fn decimal(n: nat) -> Seq<char>
    decreases n,
{
    if n < 10 {
        seq![digit_char(n as int)]
    } else {
        decimal(n / 10).push(digit_char((n % 10) as int))
    }
}

/// The decimal spelling of a signed integer: a `-` for negative values.
pub open spec fn signed_decimal(n: int) -> Seq<char> {
    if n < 0 {
        seq!['-'] + decimal((-n) as nat)
    } else {
        decimal(n as nat)
    }
}

fn digit_to_char(d: u64) -> (c: char)
    requires
        d < 10,
    ensures
        c == digit_char(d as int),
{
    let b: u8 = 48u8 + (d as u8);
    b as char
}

/// Decimal text of an unsigned integer, as `to_string` prints it.
pub fn format_u64(n: u64) -> (s: String)
    ensures
        s@ == decimal(n as nat),
    decreases n,
{
    if n < 10 {
        let mut s = String::new();
        s.push(digit_to_char(n));
        assert(s@ =~= decimal(n as nat));
        s
    } else {
        let mut s = format_u64(n / 10);
        s.push(digit_to_char(n % 10));
        s
    }
}

/// Decimal text of a signed integer, as `to_string` prints it.
pub fn format_i32(n: i32) -> (s: String)
    ensures
        s@ == signed_decimal(n as int),
{
    if n < 0 {
        let m: i64 = -(n as i64);
        let digits = format_u64(m as u64);
        let mut s = String::new();
        s.push('-');
        s.append(digits.as_str());
        assert(s@ =~= signed_decimal(n as int));
        s
    } else {
        format_u64(n as u64)
    }
}

/// Why text was not accepted as an unsigned integer (the three cases that
/// `str::parse` reports for unsigned types).
#[derive(Clone, Copy, Debug, PartialEq, Eq, Structural)]
pub enum IntErrorKind {
    Empty,
    InvalidDigit,
    PosOverflow,
}

/// Left-to-right reading of the digits of `s` from index `i`, with the value
/// `acc` read so far; the first invalid character or the first overflow past
/// `max` decides the error.
pub open spec fn read_digits(s: Seq<char>, i: int, acc: int, max: int) -> Result<int, IntErrorKind>
    decreases s.len() - i,
{
    if i >= s.len() {
        Ok(acc)
    } else if !is_digit(s[i]) {
        Err(IntErrorKind::InvalidDigit)
    } else if acc * 10 + digit_value(s[i]) > max {
        Err(IntErrorKind::PosOverflow)
    } else {
        read_digits(s, i + 1, acc * 10 + digit_value(s[i]), max)
    }
}

/// How `str::parse` reads an unsigned integer no larger than `max`: an optional
/// `+`, then one or more ASCII digits.
pub open spec fn parse_unsigned(s: Seq<char>, max: int) -> Result<int, IntErrorKind> {
    if s.len() == 0 {
        Err(IntErrorKind::Empty)
    } else if s[0] == '+' {
        if s.len() == 1 {
            Err(IntErrorKind::InvalidDigit)
        } else {
            read_digits(s, 1, 0, max)
        }
    } else {
        read_digits(s, 0, 0, max)
    }
}

/// A number read with a bound is within it.
pub proof fn lemma_parse_unsigned_bound(s: Seq<char>, max: int)
    requires
        0 <= max,
    ensures
        parse_unsigned(s, max) matches Ok(v) ==> 0 <= v <= max,
{
    lemma_read_digits_bounds(s, 0, 0, max);
    lemma_read_digits_bounds(s, 1, 0, max);
}

proof fn lemma_read_digits_bounds(s: Seq<char>, i: int, acc: int, max: int)
    requires
        0 <= acc <= max,
    ensures
        read_digits(s, i, acc, max) matches Ok(v) ==> 0 <= v <= max,
    decreases s.len() - i,
{
    if i < s.len() && is_digit(s[i]) && acc * 10 + digit_value(s[i]) <= max {
        lemma_read_digits_bounds(s, i + 1, acc * 10 + digit_value(s[i]), max);
    }
}

/// Reads an unsigned decimal integer of at most `max`, as `str::parse` does.
pub fn parse_decimal(s: &str, max: u64) -> (r: Result<u64, IntErrorKind>)
    ensures
        match r {
            Ok(v) => parse_unsigned(s@, max as int) == Ok::<int, IntErrorKind>(v as int),
            Err(k) => parse_unsigned(s@, max as int) == Err::<int, IntErrorKind>(k),
        },
{
    let cs = chars_of(s);
    let n = cs.len();
    if n == 0 {
        return Err(IntErrorKind::Empty);
    }
    let mut i: usize = 0;
    if cs[0] == '+' {
        if n == 1 {
            return Err(IntErrorKind::InvalidDigit);
        }
        i = 1;
    }
    let ghost start = i as int;
    assert(parse_unsigned(s@, max as int) == read_digits(s@, start, 0, max as int));
    let mut acc: u64 = 0;
    while i < n
        invariant
            cs@ == s@,
            n == cs@.len(),
            start <= i <= n,
            acc <= max,
            parse_unsigned(s@, max as int) == read_digits(s@, i as int, acc as int, max as int),
        decreases n - i,
    {
        let c = cs[i];
        if !('0' <= c && c <= '9') {
            return Err(IntErrorKind::InvalidDigit);
        }
        let d: u64 = (c as u32 - 48) as u64;
        if d > max {
            assert(acc * 10 + d > max) by (nonlinear_arith)
                requires d > max, acc >= 0;
            return Err(IntErrorKind::PosOverflow);
        }
        if acc > (max - d) / 10 {
            assert(acc * 10 + d > max) by (nonlinear_arith)
                requires acc > (max - d) / 10, d <= max;
            return Err(IntErrorKind::PosOverflow);
        }
        assert(acc * 10 + d <= max) by (nonlinear_arith)
            requires acc <= (max - d) / 10, d <= max;
        acc = acc * 10 + d;
        i = i + 1;
    }
    Ok(acc)
}

/// `t` occurs in `s` starting at position `i`.
pub open spec fn occurs_at(s: Seq<char>, t: Seq<char>, i: int) -> bool {
    0 <= i && i + t.len() <= s.len() && s.subrange(i, i + t.len()) == t
}

/// `t` occurs somewhere in `s`.
pub open spec fn contains(s: Seq<char>, t: Seq<char>) -> bool {
    exists|i: int| occurs_at(s, t, i)
}

/// Whether `t` occurs in `s`, as `str::contains` answers it.
pub fn str_contains(s: &str, t: &str) -> (r: bool)
    ensures
        r == contains(s@, t@),
{
    let x = chars_of(s);
    let y = chars_of(t);
    if x.len() < y.len() {
        assert forall|i: int| !occurs_at(s@, t@, i) by {}
        return false;
    }
    let last = x.len() - y.len();
    let mut i: usize = 0;
    while i <= last
        invariant
            x@ == s@,
            y@ == t@,
            last == x@.len() - y@.len(),
            i <= last + 1,
            forall|k: int| 0 <= k < i ==> !occurs_at(s@, t@, k),
        decreases last + 1 - i,
    {
        let mut j: usize = 0;
        let mut same = true;
        while j < y.len()
            invariant
                x@ == s@,
                y@ == t@,
                last == x@.len() - y@.len(),
                i <= last,
                i + y.len() <= x.len(),
                j <= y@.len(),
                same == forall|m: int| 0 <= m < j ==> x@[i + m] == y@[m],
            decreases y@.len() - j,
        {
            if x[i + j] != y[j] {
                same = false;
            }
            j = j + 1;
        }
        if same {
            assert(s@.subrange(i as int, i + t@.len()) =~= t@);
            assert(occurs_at(s@, t@, i as int));
            return true;
        }
        assert(!occurs_at(s@, t@, i as int)) by {
            let m = choose|m: int| 0 <= m < y@.len() && x@[i + m] != y@[m];
            assert(s@.subrange(i as int, i + t@.len())[m] == x@[i + m]);
        }
        if i == last {
            assert forall|k: int| !occurs_at(s@, t@, k) by {
                if 0 <= k && k < i {
                } else if k > last {
                }
            }
            return false;
        }
        i = i + 1;
    }
    false
}

/// The characters that Unicode marks as white space (`char::is_whitespace`).
pub open spec fn is_white_space(c: char) -> bool {
    ||| '\u{9}' <= c && c <= '\u{d}'
    ||| c == ' '
    ||| c == '\u{85}'
    ||| c == '\u{a0}'
    ||| c == '\u{1680}'
    ||| '\u{2000}' <= c && c <= '\u{200a}'
    ||| c == '\u{2028}'
    ||| c == '\u{2029}'
    ||| c == '\u{202f}'
    ||| c == '\u{205f}'
    ||| c == '\u{3000}'
}

fn white_space(c: char) -> (r: bool)
    ensures
        r == is_white_space(c),
{
    ('\u{9}' <= c && c <= '\u{d}') || c == ' ' || c == '\u{85}' || c == '\u{a0}' || c == '\u{1680}'
        || ('\u{2000}' <= c && c <= '\u{200a}') || c == '\u{2028}' || c == '\u{2029}' || c
        == '\u{202f}' || c == '\u{205f}' || c == '\u{3000}'
}

/// `s` without its leading white space.
pub open spec fn trim_start(s: Seq<char>) -> Seq<char>
    decreases s.len(),
{
    if s.len() > 0 && is_white_space(s[0]) {
        trim_start(s.drop_first())
    } else {
        s
    }
}

/// Whether `s`, without its leading white space, starts with `c`.
pub fn trimmed_starts_with(s: &str, c: char) -> (r: bool)
    ensures
        r == (trim_start(s@).len() > 0 && trim_start(s@)[0] == c),
{
    let cs = chars_of(s);
    let mut i: usize = 0;
    assert(cs@.skip(0) =~= cs@);
    while i < cs.len() && white_space(cs[i])
        invariant
            cs@ == s@,
            i <= cs@.len(),
            trim_start(s@) == trim_start(cs@.skip(i as int)),
        decreases cs@.len() - i,
    {
        assert(cs@.skip(i as int).drop_first() =~= cs@.skip(i + 1));
        i = i + 1;
    }
    if i < cs.len() {
        assert(cs@.skip(i as int)[0] == cs@[i as int]);
        cs[i] == c
    } else {
        assert(cs@.skip(i as int).len() == 0);
        false
    }
}

/// The words of `s`: its maximal runs of characters other than white space,
/// as `str::split_whitespace` gives them. The flag says whether `s` ends
/// inside a word.
pub open spec fn words_scan(s: Seq<char>) -> (Seq<Seq<char>>, bool)
    decreases s.len(),
{
    if s.len() == 0 {
        (Seq::empty(), false)
    } else {
        let (ws, inside) = words_scan(s.drop_last());
        let c = s.last();
        if is_white_space(c) {
            (ws, false)
        } else if inside {
            (ws.update(ws.len() - 1, ws.last().push(c)), true)
        } else {
            (ws.push(seq![c]), true)
        }
    }
}

pub open spec fn words(s: Seq<char>) -> Seq<Seq<char>> {
    words_scan(s).0
}

proof fn lemma_words_scan_inside(s: Seq<char>)
    ensures
        words_scan(s).1 ==> words_scan(s).0.len() > 0,
    decreases s.len(),
{
    if s.len() > 0 {
        lemma_words_scan_inside(s.drop_last());
    }
}

/// The words of `s` (see `words`).
pub fn split_whitespace(s: &str) -> (r: Vec<String>)
    ensures
        r.deep_view() == words(s@),
{
    let cs = chars_of(s);
    let mut out: Vec<String> = Vec::new();
    let mut cur = String::new();
    let mut inside = false;
    let mut i: usize = 0;
    assert(s@.take(0) =~= Seq::<char>::empty());
    while i < cs.len()
        invariant
            cs@ == s@,
            i <= cs@.len(),
            inside == (cur@.len() > 0),
            words_scan(s@.take(i as int)).1 == (cur@.len() > 0),
            words_scan(s@.take(i as int)).0 == if cur@.len() > 0 {
                out.deep_view().push(cur@)
            } else {
                out.deep_view()
            },
        decreases cs@.len() - i,
    {
        assert(s@.take(i + 1).drop_last() =~= s@.take(i as int));
        assert(s@.take(i + 1).last() == cs@[i as int]);
        let c = cs[i];
        if white_space(c) {
            if inside {
                out.push(cur);
                cur = String::new();
                inside = false;
            }
        } else {
            proof {
                let ghost prev = words_scan(s@.take(i as int)).0;
                if cur@.len() > 0 {
                    assert(prev.update(prev.len() - 1, prev.last().push(c)) =~= out.deep_view().push(
                        cur@.push(c),
                    ));
                } else {
                    assert(cur@.push(c) =~= seq![c]);
                    assert(prev.push(seq![c]) =~= out.deep_view().push(cur@.push(c)));
                }
            }
            cur.push(c);
            inside = true;
        }
        i = i + 1;
    }
    assert(s@.take(i as int) =~= s@);
    if inside {
        out.push(cur);
    }
    out
}

} // verus!
