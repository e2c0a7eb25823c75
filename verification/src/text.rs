//! Character-level text operations shared by the data parsers.
//!
//! Text is handled as sequences of `char`; each operation is stated over
//! `Seq<char>` so parsers can be specified in terms of them.
use vstd::prelude::*;

verus! {

// ---------------------------------------------------------------------------
// Specifications
// ---------------------------------------------------------------------------
/// Unicode `White_Space`, the set behind `char::is_whitespace`.
pub open spec fn is_ws(c: char) -> bool {
    let u = c as u32;
    ||| 9 <= u <= 13
    ||| u == 32
    ||| u == 0x85
    ||| u == 0xA0
    ||| u == 0x1680
    ||| 0x2000 <= u <= 0x200A
    ||| u == 0x2028
    ||| u == 0x2029
    ||| u == 0x202F
    ||| u == 0x205F
    ||| u == 0x3000
}

/// `s` without leading whitespace.
pub open spec fn trim_start(s: Seq<char>) -> Seq<char>
    decreases s.len(),
{
    if s.len() > 0 && is_ws(s[0]) {
        trim_start(s.drop_first())
    } else {
        s
    }
}

/// `s` without trailing whitespace.
pub open spec fn trim_end(s: Seq<char>) -> Seq<char>
    decreases s.len(),
{
    if s.len() > 0 && is_ws(s.last()) {
        trim_end(s.drop_last())
    } else {
        s
    }
}

/// `s` without leading and trailing whitespace (`str::trim`).
pub open spec fn trim(s: Seq<char>) -> Seq<char> {
    trim_end(trim_start(s))
}

pub open spec fn starts_with(s: Seq<char>, prefix: Seq<char>) -> bool {
    prefix.len() <= s.len() && s.subrange(0, prefix.len() as int) == prefix
}

pub open spec fn ends_with(s: Seq<char>, suffix: Seq<char>) -> bool {
    suffix.len() <= s.len() && s.subrange(s.len() - suffix.len(), s.len() as int) == suffix
}

/// The pieces of `s[start..]` cut at each `sep`, scanning from `i`, where
/// `s[start..i]` holds no separator.
pub open spec fn split_from(s: Seq<char>, sep: char, start: int, i: int) -> Seq<Seq<char>>
    decreases s.len() - i,
{
    if i >= s.len() {
        seq![s.subrange(start, s.len() as int)]
    } else if s[i] == sep {
        seq![s.subrange(start, i)] + split_from(s, sep, i + 1, i + 1)
    } else {
        split_from(s, sep, start, i + 1)
    }
}

/// `str::split` on one character: always at least one piece.
pub open spec fn split(s: Seq<char>, sep: char) -> Seq<Seq<char>> {
    split_from(s, sep, 0, 0)
}

/// Whether `c` does not occur in `s`.
pub open spec fn lacks(s: Seq<char>, c: char) -> bool {
    forall|k: int| 0 <= k < s.len() ==> s[k] != c
}

/// With no separator from `i` on, the rest is one piece.
pub proof fn lemma_split_from_tail(s: Seq<char>, sep: char, start: int, i: int)
    requires
        0 <= start <= i <= s.len(),
        forall|k: int| i <= k < s.len() ==> s[k] != sep,
    ensures
        split_from(s, sep, start, i) == seq![s.subrange(start, s.len() as int)],
    decreases s.len() - i,
{
    if i < s.len() {
        lemma_split_from_tail(s, sep, start, i + 1);
    }
}

/// Splitting `a`, a separator and `b` without separators splits `a` and
/// adds `b`.
proof fn lemma_split_from_append(a: Seq<char>, b: Seq<char>, sep: char, start: int, i: int)
    requires
        0 <= start <= i <= a.len(),
        lacks(b, sep),
    ensures
        split_from(a + seq![sep] + b, sep, start, i) == split_from(a, sep, start, i) + seq![b],
    decreases a.len() - i,
{
    let s = a + seq![sep] + b;
    if i == a.len() {
        assert(s[i] == sep);
        lemma_split_from_tail(s, sep, i + 1, i + 1);
        assert(s.subrange(i + 1, s.len() as int) =~= b);
        assert(s.subrange(start, i) =~= a.subrange(start, i));
    } else {
        assert(s[i] == a[i]);
        lemma_split_from_append(a, b, sep, start, i + 1);
        if a[i] == sep {
            lemma_split_from_append(a, b, sep, i + 1, i + 1);
            assert(s.subrange(start, i) =~= a.subrange(start, i));
            assert(seq![a.subrange(start, i)] + (split_from(a, sep, i + 1, i + 1) + seq![b]) =~= (seq![
                a.subrange(start, i),
            ] + split_from(a, sep, i + 1, i + 1)) + seq![b]);
        }
    }
}

/// Parts without the separator, joined by it, split back into the parts.
pub proof fn lemma_split_join(parts: Seq<Seq<char>>, sep: char)
    requires
        parts.len() >= 1,
        forall|k: int| 0 <= k < parts.len() ==> lacks(#[trigger] parts[k], sep),
    ensures
        split(join(parts, seq![sep]), sep) == parts,
    decreases parts.len(),
{
    if parts.len() == 1 {
        lemma_split_from_tail(parts[0], sep, 0, 0);
        assert(parts[0].subrange(0, parts[0].len() as int) =~= parts[0]);
        assert(seq![parts[0]] =~= parts);
    } else {
        let front = parts.drop_last();
        assert forall|k: int| 0 <= k < front.len() implies lacks(#[trigger] front[k], sep) by {
            assert(front[k] == parts[k]);
        }
        lemma_split_join(front, sep);
        assert(lacks(parts[parts.len() - 1], sep));
        lemma_split_from_append(join(front, seq![sep]), parts.last(), sep, 0, 0);
        assert(front + seq![parts.last()] =~= parts);
    }
}

/// Every piece of a split lacks the separator and lacks whatever the text
/// lacks.
pub proof fn lemma_split_pieces(s: Seq<char>, sep: char, other: char, start: int, i: int)
    requires
        0 <= start <= i <= s.len(),
        forall|k: int| start <= k < i ==> s[k] != sep,
        lacks(s, other),
    ensures
        forall|k: int|
            0 <= k < split_from(s, sep, start, i).len() ==> lacks(#[trigger] split_from(s, sep, start, i)[k], sep)
                && lacks(split_from(s, sep, start, i)[k], other),
    decreases s.len() - i,
{
    if i >= s.len() {
        let piece = s.subrange(start, s.len() as int);
        assert forall|k: int| 0 <= k < piece.len() implies piece[k] != sep && piece[k] != other by {
            assert(piece[k] == s[start + k]);
        }
        assert(split_from(s, sep, start, i) == seq![piece]);
        assert(lacks(piece, sep) && lacks(piece, other));
        assert(split_from(s, sep, start, i)[0] == piece);
    } else if s[i] == sep {
        lemma_split_pieces(s, sep, other, i + 1, i + 1);
        let piece = s.subrange(start, i);
        assert forall|k: int| 0 <= k < piece.len() implies piece[k] != sep && piece[k] != other by {
            assert(piece[k] == s[start + k]);
        }
        let rest = split_from(s, sep, i + 1, i + 1);
        let all = seq![s.subrange(start, i)] + rest;
        assert(split_from(s, sep, start, i) == all);
        assert forall|k: int| 0 <= k < all.len() implies lacks(#[trigger] all[k], sep) && lacks(all[k], other) by {
            if k > 0 {
                assert(all[k] == rest[k - 1]);
                assert(lacks(split_from(s, sep, i + 1, i + 1)[k - 1], sep));
            } else {
                assert(all[k] == piece);
            }
        }
    } else {
        lemma_split_pieces(s, sep, other, start, i + 1);
        assert(split_from(s, sep, start, i) == split_from(s, sep, start, i + 1));
    }
}

/// A join lacks a character that neither the parts nor the separator hold;
/// its first character is that of its first part.
pub proof fn lemma_join_chars(parts: Seq<Seq<char>>, sep: Seq<char>, other: char)
    requires
        parts.len() >= 1,
        parts[0].len() > 0,
        lacks(sep, other),
        forall|k: int| 0 <= k < parts.len() ==> lacks(#[trigger] parts[k], other),
    ensures
        lacks(join(parts, sep), other),
        join(parts, sep).len() > 0,
        join(parts, sep)[0] == parts[0][0],
    decreases parts.len(),
{
    if parts.len() > 1 {
        let front = parts.drop_last();
        assert forall|k: int| 0 <= k < front.len() implies lacks(#[trigger] front[k], other) by {
            assert(front[k] == parts[k]);
        }
        lemma_join_chars(front, sep, other);
        assert(lacks(parts[parts.len() - 1], other));
        let j = join(front, sep) + sep + parts.last();
        assert forall|k: int| 0 <= k < j.len() implies j[k] != other by {
            if k < join(front, sep).len() {
            } else if k < join(front, sep).len() + sep.len() {
                assert(j[k] == sep[k - join(front, sep).len()]);
            } else {
                assert(j[k] == parts.last()[k - join(front, sep).len() - sep.len()]);
            }
        }
    }
}

/// The index of the first `c` in `s` at or after `i`.
pub open spec fn find_from(s: Seq<char>, c: char, i: int) -> Option<int>
    decreases s.len() - i,
{
    if i < 0 || i >= s.len() {
        None
    } else if s[i] == c {
        Some(i)
    } else {
        find_from(s, c, i + 1)
    }
}

/// `str::split_once` on one character.
pub open spec fn split_once(s: Seq<char>, c: char) -> Option<(Seq<char>, Seq<char>)> {
    match find_from(s, c, 0) {
        Some(k) => Some((s.subrange(0, k), s.subrange(k + 1, s.len() as int))),
        None => None,
    }
}

/// A character that does not occur is not found.
pub proof fn lemma_find_from_none(s: Seq<char>, c: char, i: int)
    requires
        0 <= i,
        lacks(s, c),
    ensures
        find_from(s, c, i) is None,
    decreases s.len() - i,
{
    if i < s.len() {
        lemma_find_from_none(s, c, i + 1);
    }
}

/// `a`, the character `c` and `b` split once at `c` into `a` and `b` when `a`
/// lacks `c`.
pub proof fn lemma_split_once_at(a: Seq<char>, b: Seq<char>, c: char)
    requires
        lacks(a, c),
    ensures
        split_once(a + seq![c] + b, c) == Some((a, b)),
{
    let s = a + seq![c] + b;
    assert forall|i: int| 0 <= i <= a.len() implies find_from(s, c, i) == Some(a.len() as int) by {
        lemma_find_from_at(s, c, i, a.len() as int);
    }
    assert(s.subrange(0, a.len() as int) =~= a);
    assert(s.subrange(a.len() as int + 1, s.len() as int) =~= b);
}

proof fn lemma_find_from_at(s: Seq<char>, c: char, i: int, k: int)
    requires
        0 <= i <= k < s.len(),
        s[k] == c,
        forall|j: int| i <= j < k ==> s[j] != c,
    ensures
        find_from(s, c, i) == Some(k),
    decreases k - i,
{
    if i < k {
        lemma_find_from_at(s, c, i + 1, k);
    }
}

/// A line without the `\r` that precedes its `\n`.
pub open spec fn strip_cr(line: Seq<char>) -> Seq<char> {
    if line.len() > 0 && line.last() == '\r' {
        line.drop_last()
    } else {
        line
    }
}

/// `str::lines`: pieces between `\n`, each terminated line losing a final
/// `\r`, with no empty piece after a final `\n`.
pub open spec fn lines(s: Seq<char>) -> Seq<Seq<char>> {
    let pieces = split(s, '\n');
    let terminated = pieces.drop_last().map_values(|l: Seq<char>| strip_cr(l));
    if pieces.last().len() == 0 {
        terminated
    } else {
        terminated.push(pieces.last())
    }
}

/// The pieces joined with `sep` between them.
pub open spec fn join(parts: Seq<Seq<char>>, sep: Seq<char>) -> Seq<char>
    decreases parts.len(),
{
    if parts.len() == 0 {
        seq![]
    } else if parts.len() == 1 {
        parts[0]
    } else {
        join(parts.drop_last(), sep) + sep + parts.last()
    }
}

pub open spec fn is_digit(c: char) -> bool {
    '0' <= c <= '9'
}

pub open spec fn all_digits(s: Seq<char>) -> bool {
    forall|i: int| 0 <= i < s.len() ==> is_digit(#[trigger] s[i])
}

/// The value of a run of decimal digits.
pub open spec fn digits_value(s: Seq<char>) -> nat
    decreases s.len(),
{
    if s.len() == 0 {
        0
    } else {
        digits_value(s.drop_last()) * 10 + ((s.last() as int - '0' as int) as nat)
    }
}

/// The integer written in `s` with an optional sign, as `str::parse` of a
/// signed integer reads it before its range check.
pub open spec fn signed_value(s: Seq<char>) -> Option<int> {
    if s.len() > 0 && (s[0] == '-' || s[0] == '+') {
        let body = s.drop_first();
        if body.len() == 0 || !all_digits(body) {
            None
        } else if s[0] == '-' {
            Some(-(digits_value(body) as int))
        } else {
            Some(digits_value(body) as int)
        }
    } else if s.len() == 0 || !all_digits(s) {
        None
    } else {
        Some(digits_value(s) as int)
    }
}

/// The integer written in `s` with an optional `+`, as `str::parse` of an
/// unsigned integer reads it before its range check.
pub open spec fn unsigned_value(s: Seq<char>) -> Option<int> {
    let body = if s.len() > 0 && s[0] == '+' {
        s.drop_first()
    } else {
        s
    };
    if body.len() == 0 || !all_digits(body) {
        None
    } else {
        Some(digits_value(body) as int)
    }
}

/// `str::parse` of an integer type whose values are `lo..=hi`.
pub open spec fn parse_signed(s: Seq<char>, lo: int, hi: int) -> Option<int> {
    match signed_value(s) {
        Some(v) => if lo <= v <= hi {
            Some(v)
        } else {
            None
        },
        None => None,
    }
}

pub open spec fn parse_unsigned(s: Seq<char>, hi: int) -> Option<int> {
    match unsigned_value(s) {
        Some(v) => if v <= hi {
            Some(v)
        } else {
            None
        },
        None => None,
    }
}

pub open spec fn digit_char(d: nat) -> char {
    ((d + '0' as nat) as u32) as char
}

/// The decimal digits of `n`.
pub open spec fn decimal(n: nat) -> Seq<char>
    decreases n,
{
    if n < 10 {
        seq![digit_char(n)]
    } else {
        decimal(n / 10).push(digit_char(n % 10))
    }
}

/// `n` written as `Display` writes an integer.
pub open spec fn format_int(n: int) -> Seq<char> {
    if n < 0 {
        seq!['-'] + decimal((-n) as nat)
    } else {
        decimal(n as nat)
    }
}

// ---------------------------------------------------------------------------
// Lemmas
// ---------------------------------------------------------------------------
proof fn lemma_decimal_digits(n: nat)
    ensures
        decimal(n).len() > 0,
        all_digits(decimal(n)),
        digits_value(decimal(n)) == n,
    decreases n,
{
    if n < 10 {
        let d = decimal(n);
        assert(d.drop_last() =~= Seq::<char>::empty());
        assert(digits_value(d.drop_last()) == 0);
    } else {
        lemma_decimal_digits(n / 10);
        let d = decimal(n);
        assert(d.drop_last() =~= decimal(n / 10));
        assert forall|i: int| 0 <= i < d.len() implies is_digit(#[trigger] d[i]) by {
            if i < d.len() - 1 {
                assert(d[i] == decimal(n / 10)[i]);
            }
        }
    }
}

/// Writing an integer and reading it back gives the integer.
pub proof fn lemma_format_parse_round_trip(n: int)
    ensures
        signed_value(format_int(n)) == Some(n),
{
    if n < 0 {
        lemma_decimal_digits((-n) as nat);
        let s = format_int(n);
        assert(s.drop_first() =~= decimal((-n) as nat));
    } else {
        lemma_decimal_digits(n as nat);
        let d = decimal(n as nat);
        assert(is_digit(d[0]));
    }
}

/// A written integer holds only digits and a leading minus sign.
pub proof fn lemma_format_digits(n: int)
    ensures
        forall|i: int|
            0 <= i < format_int(n).len() ==> is_digit(#[trigger] format_int(n)[i]) || format_int(
                n,
            )[i] == '-',
{
    let s = format_int(n);
    if n < 0 {
        lemma_decimal_digits((-n) as nat);
        assert forall|i: int| 0 <= i < s.len() implies is_digit(#[trigger] s[i]) || s[i] == '-' by {
            if i > 0 {
                assert(s[i] == decimal((-n) as nat)[i - 1]);
            }
        }
    } else {
        lemma_decimal_digits(n as nat);
    }
}

pub(crate) proof fn lemma_find_from_range(s: Seq<char>, c: char, i: int)
    ensures
        find_from(s, c, i) matches Some(k) ==> i <= k < s.len() && s[k] == c,
    decreases s.len() - i,
{
    if 0 <= i < s.len() && s[i] != c {
        lemma_find_from_range(s, c, i + 1);
    }
}

proof fn lemma_split_from_nonempty(s: Seq<char>, sep: char, start: int, i: int)
    ensures
        split_from(s, sep, start, i).len() > 0,
    decreases s.len() - i,
{
    if i < s.len() {
        lemma_split_from_nonempty(s, sep, if s[i] == sep { i + 1 } else { start }, i + 1);
    }
}

proof fn lemma_digits_value_prefix_monotone(s: Seq<char>, k: int)
    requires
        0 <= k <= s.len(),
        all_digits(s),
    ensures
        digits_value(s.subrange(0, k)) <= digits_value(s),
    decreases s.len() - k,
{
    if k < s.len() {
        lemma_digits_value_prefix_monotone(s, k + 1);
        let t = s.subrange(0, k + 1);
        assert(t.drop_last() =~= s.subrange(0, k));
        assert(is_digit(s[k]));
    } else {
        assert(s.subrange(0, k) =~= s);
    }
}

// ---------------------------------------------------------------------------
// Executable operations
// ---------------------------------------------------------------------------
/// The characters of `s`.
pub fn chars_of(s: &str) -> (v: Vec<char>)
    ensures
        v@ == s@,
{
    let mut v: Vec<char> = Vec::new();
    for c in it: s.chars()
        invariant
            v@ == it.seq().take(it.index() as int),
    {
        v.push(c);
    }
    v
}

/// Appends one character to a string (`String::push`).
#[verifier::external_body]
fn push_char(s: &mut String, c: char)
    ensures
        final(s)@ == old(s)@.push(c),
{
    s.push(c);
}

/// The string made of the given characters.
pub fn string_of(v: &Vec<char>) -> (s: String)
    ensures
        s@ == v@,
{
    let mut s = String::new();
    let mut i: usize = 0;
    while i < v.len()
        invariant
            i <= v.len(),
            s@ == v@.take(i as int),
        decreases v.len() - i,
    {
        push_char(&mut s, v[i]);
        assert(v@.take(i as int + 1) =~= v@.take(i as int).push(v@[i as int]));
        i = i + 1;
    }
    assert(v@.take(v.len() as int) =~= v@);
    s
}

/// A string holding the characters of a literal.
pub fn owned(s: &str) -> (r: String)
    ensures
        r@ == s@,
{
    s.to_owned()
}

/// `a` followed by `b`.
pub fn concat(a: &str, b: &str) -> (r: String)
    ensures
        r@ == a@ + b@,
{
    let mut r = a.to_owned();
    r.append(b);
    r
}

/// The characters `v[from..to]`.
pub fn slice_chars(v: &Vec<char>, from: usize, to: usize) -> (r: Vec<char>)
    requires
        from <= to <= v.len(),
    ensures
        r@ == v@.subrange(from as int, to as int),
{
    let mut r: Vec<char> = Vec::new();
    let mut i = from;
    while i < to
        invariant
            from <= i <= to <= v.len(),
            r@ == v@.subrange(from as int, i as int),
        decreases to - i,
    {
        r.push(v[i]);
        assert(v@.subrange(from as int, i as int + 1) =~= v@.subrange(from as int, i as int).push(
            v@[i as int],
        ));
        i = i + 1;
    }
    r
}

/// Whether two character sequences are equal.
pub fn chars_eq(a: &Vec<char>, b: &Vec<char>) -> (r: bool)
    ensures
        r == (a@ == b@),
{
    if a.len() != b.len() {
        return false;
    }
    let mut i: usize = 0;
    while i < a.len()
        invariant
            a.len() == b.len(),
            i <= a.len(),
            forall|j: int| 0 <= j < i ==> a@[j] == b@[j],
        decreases a.len() - i,
    {
        if a[i] != b[i] {
            return false;
        }
        i = i + 1;
    }
    assert(a@ =~= b@);
    true
}

/// Whether two strings are equal.
pub fn str_eq(a: &str, b: &str) -> (r: bool)
    ensures
        r == (a@ == b@),
{
    let x = chars_of(a);
    let y = chars_of(b);
    chars_eq(&x, &y)
}

/// `char::is_whitespace`.
pub fn is_whitespace(c: char) -> (r: bool)
    ensures
        r == is_ws(c),
{
    let u = c as u32;
    (9 <= u && u <= 13) || u == 32 || u == 0x85 || u == 0xA0 || u == 0x1680 || (0x2000 <= u && u
        <= 0x200A) || u == 0x2028 || u == 0x2029 || u == 0x202F || u == 0x205F || u == 0x3000
}

proof fn lemma_trim_start_step(s: Seq<char>, i: int)
    requires
        0 <= i < s.len(),
        is_ws(s[i]),
    ensures
        trim_start(s.subrange(i, s.len() as int)) == trim_start(s.subrange(i + 1, s.len() as int)),
{
    let t = s.subrange(i, s.len() as int);
    assert(t.drop_first() =~= s.subrange(i + 1, s.len() as int));
}

pub(crate) proof fn lemma_trim_end_step(s: Seq<char>, j: int)
    requires
        0 < j <= s.len(),
        is_ws(s[j - 1]),
    ensures
        trim_end(s.subrange(0, j)) == trim_end(s.subrange(0, j - 1)),
{
    let t = s.subrange(0, j);
    assert(t.drop_last() =~= s.subrange(0, j - 1));
}

/// `str::trim` on characters.
pub fn trim_chars(v: &Vec<char>) -> (r: Vec<char>)
    ensures
        r@ == trim(v@),
{
    let n = v.len();
    let mut start: usize = 0;
    assert(v@.subrange(0, n as int) =~= v@);
    while start < n && is_whitespace(v[start])
        invariant
            start <= n == v.len(),
            trim_start(v@) == trim_start(v@.subrange(start as int, n as int)),
        decreases n - start,
    {
        proof {
            lemma_trim_start_step(v@, start as int);
        }
        start = start + 1;
    }
    let ghost t = v@.subrange(start as int, n as int);
    assert(trim_start(t) == t) by {
        if t.len() > 0 {
            assert(t[0] == v@[start as int]);
        }
    }
    let mut end: usize = n;
    assert(t.subrange(0, end - start) =~= t);
    while end > start && is_whitespace(v[end - 1])
        invariant
            start <= end <= n == v.len(),
            t == v@.subrange(start as int, n as int),
            trim_end(t) == trim_end(t.subrange(0, end - start)),
        decreases end - start,
    {
        proof {
            lemma_trim_end_step(t, (end - start) as int);
        }
        end = end - 1;
    }
    let r = slice_chars(v, start, end);
    proof {
        let u = t.subrange(0, end - start);
        assert(u =~= r@);
        if u.len() > 0 {
            assert(u.last() == v@[end - 1]);
        }
        assert(trim_end(u) == u);
    }
    r
}

/// `str::trim` on a string.
pub fn trim_str(s: &str) -> (r: Vec<char>)
    ensures
        r@ == trim(s@),
{
    let v = chars_of(s);
    trim_chars(&v)
}

/// Whether `v` starts with `prefix`.
pub fn starts_with_chars(v: &Vec<char>, prefix: &Vec<char>) -> (r: bool)
    ensures
        r == starts_with(v@, prefix@),
{
    if prefix.len() > v.len() {
        return false;
    }
    let mut i: usize = 0;
    while i < prefix.len()
        invariant
            prefix.len() <= v.len(),
            i <= prefix.len(),
            forall|j: int| 0 <= j < i ==> v@[j] == prefix@[j],
        decreases prefix.len() - i,
    {
        if v[i] != prefix[i] {
            assert(v@.subrange(0, prefix.len() as int)[i as int] != prefix@[i as int]);
            return false;
        }
        i = i + 1;
    }
    assert(v@.subrange(0, prefix.len() as int) =~= prefix@);
    true
}

/// Whether `v` starts with the characters of `prefix`.
pub fn starts_with_str(v: &Vec<char>, prefix: &str) -> (r: bool)
    ensures
        r == starts_with(v@, prefix@),
{
    let p = chars_of(prefix);
    starts_with_chars(v, &p)
}

/// Whether `v` ends with `suffix`.
pub fn ends_with_chars(v: &Vec<char>, suffix: &Vec<char>) -> (r: bool)
    ensures
        r == ends_with(v@, suffix@),
{
    if suffix.len() > v.len() {
        return false;
    }
    let off = v.len() - suffix.len();
    let mut i: usize = 0;
    while i < suffix.len()
        invariant
            suffix.len() <= v.len(),
            off == v.len() - suffix.len(),
            i <= suffix.len(),
            forall|j: int| 0 <= j < i ==> v@[off + j] == suffix@[j],
        decreases suffix.len() - i,
    {
        if v[off + i] != suffix[i] {
            assert(v@.subrange(off as int, v.len() as int)[i as int] != suffix@[i as int]);
            return false;
        }
        i = i + 1;
    }
    assert(v@.subrange(off as int, v.len() as int) =~= suffix@);
    true
}

/// Whether `v` ends with the characters of `suffix`.
pub fn ends_with_str(v: &Vec<char>, suffix: &str) -> (r: bool)
    ensures
        r == ends_with(v@, suffix@),
{
    let p = chars_of(suffix);
    ends_with_chars(v, &p)
}

/// Whether `v` equals the characters of `s`.
pub fn eq_str(v: &Vec<char>, s: &str) -> (r: bool)
    ensures
        r == (v@ == s@),
{
    let p = chars_of(s);
    chars_eq(v, &p)
}

/// Whether `v` holds the character `c`.
pub fn contains_char(v: &Vec<char>, c: char) -> (r: bool)
    ensures
        r == v@.contains(c),
{
    let mut i: usize = 0;
    while i < v.len()
        invariant
            i <= v.len(),
            forall|j: int| 0 <= j < i ==> v@[j] != c,
        decreases v.len() - i,
    {
        if v[i] == c {
            assert(v@[i as int] == c);
            return true;
        }
        i = i + 1;
    }
    false
}

/// The index of the first `c` in `v`.
pub fn find_char(v: &Vec<char>, c: char) -> (r: Option<usize>)
    ensures
        match r {
            Some(k) => find_from(v@, c, 0) == Some(k as int),
            None => find_from(v@, c, 0) is None,
        },
{
    let mut i: usize = 0;
    while i < v.len()
        invariant
            i <= v.len(),
            find_from(v@, c, 0) == find_from(v@, c, i as int),
        decreases v.len() - i,
    {
        if v[i] == c {
            return Some(i);
        }
        i = i + 1;
    }
    None
}

/// `str::split_once` on one character.
pub fn split_once_chars(v: &Vec<char>, c: char) -> (r: Option<(Vec<char>, Vec<char>)>)
    ensures
        match r {
            Some((a, b)) => split_once(v@, c) == Some((a@, b@)),
            None => split_once(v@, c) is None,
        },
{
    match find_char(v, c) {
        Some(k) => {
            proof {
                lemma_find_from_range(v@, c, 0);
                assert(find_from(v@, c, 0) == Some(k as int));
            }
            assert(k < v.len());
            let a = slice_chars(v, 0, k);
            let b = slice_chars(v, k + 1, v.len());
            Some((a, b))
        },
        None => None,
    }
}

/// `str::split` on one character.
pub fn split_chars(v: &Vec<char>, sep: char) -> (r: Vec<Vec<char>>)
    ensures
        r@.map_values(|p: Vec<char>| p@) == split(v@, sep),
{
    let mut pieces: Vec<Vec<char>> = Vec::new();
    let mut start: usize = 0;
    let mut i: usize = 0;
    while i < v.len()
        invariant
            start <= i <= v.len(),
            pieces@.map_values(|p: Vec<char>| p@) + split_from(v@, sep, start as int, i as int)
                == split(v@, sep),
        decreases v.len() - i,
    {
        if v[i] == sep {
            let piece = slice_chars(v, start, i);
            let ghost before = pieces@.map_values(|p: Vec<char>| p@);
            pieces.push(piece);
            assert(pieces@.map_values(|p: Vec<char>| p@) =~= before.push(piece@));
            assert(before + split_from(v@, sep, start as int, i as int) =~= before.push(piece@)
                + split_from(v@, sep, i + 1, i + 1));
            start = i + 1;
        }
        i = i + 1;
    }
    let last = slice_chars(v, start, v.len());
    let ghost before = pieces@.map_values(|p: Vec<char>| p@);
    pieces.push(last);
    assert(pieces@.map_values(|p: Vec<char>| p@) =~= before.push(last@));
    assert(before + split_from(v@, sep, start as int, i as int) =~= before.push(last@));
    pieces
}

/// The comma-separated entries of `v`, each trimmed, empty ones dropped.
pub open spec fn csv(v: Seq<char>) -> Seq<Seq<char>> {
    split(v, ',').map_values(|p: Seq<char>| trim(p)).filter(|p: Seq<char>| p.len() > 0)
}

/// The non-empty trimmed comma-separated entries of `v`.
pub fn csv_chars(v: &Vec<char>) -> (r: Vec<Vec<char>>)
    ensures
        r@.map_values(|p: Vec<char>| p@) == csv(v@),
{
    let pieces = split_chars(v, ',');
    let ghost pv = pieces@.map_values(|p: Vec<char>| p@);
    let ghost trimmed = pv.map_values(|p: Seq<char>| trim(p));
    let mut out: Vec<Vec<char>> = Vec::new();
    let mut i: usize = 0;
    while i < pieces.len()
        invariant
            i <= pieces.len(),
            pv == pieces@.map_values(|p: Vec<char>| p@),
            trimmed == pv.map_values(|p: Seq<char>| trim(p)),
            out@.map_values(|p: Vec<char>| p@) == trimmed.take(i as int).filter(
                |p: Seq<char>| p.len() > 0,
            ),
        decreases pieces.len() - i,
    {
        let t = trim_chars(&pieces[i]);
        let ghost before = out@.map_values(|p: Vec<char>| p@);
        proof {
            assert(trimmed.take(i as int + 1).drop_last() =~= trimmed.take(i as int));
            assert(trimmed[i as int] == t@);
            reveal(Seq::filter);
        }
        if t.len() > 0 {
            out.push(t);
            assert(out@.map_values(|p: Vec<char>| p@) =~= before.push(t@));
        }
        i = i + 1;
    }
    assert(trimmed.take(pieces.len() as int) =~= trimmed);
    out
}

/// `str::lines` on characters.
pub fn lines_chars(v: &Vec<char>) -> (r: Vec<Vec<char>>)
    ensures
        r@.map_values(|p: Vec<char>| p@) == lines(v@),
{
    let pieces = split_chars(v, '\n');
    let ghost pv = pieces@.map_values(|p: Vec<char>| p@);
    proof {
        lemma_split_from_nonempty(v@, '\n', 0, 0);
    }
    assert(pv.len() > 0);
    let n = pieces.len();
    let mut out: Vec<Vec<char>> = Vec::new();
    let mut i: usize = 0;
    while i + 1 < n
        invariant
            n == pieces.len(),
            n > 0,
            i < n,
            pv == pieces@.map_values(|p: Vec<char>| p@),
            out@.map_values(|p: Vec<char>| p@) == pv.drop_last().take(i as int).map_values(
                |l: Seq<char>| strip_cr(l),
            ),
        decreases n - i,
    {
        let piece = &pieces[i];
        let line = if piece.len() > 0 && piece[piece.len() - 1] == '\r' {
            assert(piece@.subrange(0, piece.len() - 1) =~= piece@.drop_last());
            slice_chars(piece, 0, piece.len() - 1)
        } else {
            assert(piece@.subrange(0, piece.len() as int) =~= piece@);
            slice_chars(piece, 0, piece.len())
        };
        let ghost before = out@.map_values(|p: Vec<char>| p@);
        out.push(line);
        assert(out@.map_values(|p: Vec<char>| p@) =~= before.push(line@));
        assert(pv.drop_last().take(i as int + 1) =~= pv.drop_last().take(i as int).push(
            pv[i as int],
        ));
        i = i + 1;
    }
    assert(pv.drop_last().take(i as int) =~= pv.drop_last());
    let last = &pieces[n - 1];
    if last.len() > 0 {
        let ghost before = out@.map_values(|p: Vec<char>| p@);
        let copy = slice_chars(last, 0, last.len());
        assert(copy@ =~= last@);
        out.push(copy);
        assert(out@.map_values(|p: Vec<char>| p@) =~= before.push(pv.last()));
    }
    out
}

/// Joins pieces with one separator character.
pub fn join_chars(parts: &Vec<Vec<char>>, sep: char) -> (r: Vec<char>)
    ensures
        r@ == join(parts@.map_values(|p: Vec<char>| p@), seq![sep]),
{
    let ghost pv = parts@.map_values(|p: Vec<char>| p@);
    let mut r: Vec<char> = Vec::new();
    let mut i: usize = 0;
    while i < parts.len()
        invariant
            i <= parts.len(),
            pv == parts@.map_values(|p: Vec<char>| p@),
            r@ == join(pv.take(i as int), seq![sep]),
        decreases parts.len() - i,
    {
        let ghost prev = r@;
        if i > 0 {
            r.push(sep);
        }
        let part = &parts[i];
        let mut j: usize = 0;
        let ghost mid = r@;
        while j < part.len()
            invariant
                j <= part.len(),
                r@ == mid + part@.take(j as int),
            decreases part.len() - j,
        {
            r.push(part[j]);
            assert(part@.take(j as int + 1) =~= part@.take(j as int).push(part@[j as int]));
            j = j + 1;
        }
        proof {
            assert(part@.take(part.len() as int) =~= part@);
            let t = pv.take(i as int + 1);
            assert(t.drop_last() =~= pv.take(i as int));
            if i == 0 {
                assert(t.len() == 1);
                assert(mid =~= Seq::<char>::empty());
                assert(r@ =~= part@);
            } else {
                assert(r@ =~= prev + seq![sep] + part@);
            }
        }
        i = i + 1;
    }
    assert(pv.take(parts.len() as int) =~= pv);
    r
}

proof fn lemma_digits_step(s: Seq<char>, k: int)
    requires
        0 <= k < s.len(),
    ensures
        digits_value(s.subrange(0, k + 1)) == digits_value(s.subrange(0, k)) * 10 + ((s[k] as int
            - '0' as int) as nat),
{
    let t = s.subrange(0, k + 1);
    assert(t.drop_last() =~= s.subrange(0, k));
}

/// Reads a run of digits, or `None` if it is empty, holds another character
/// or exceeds `limit`.
fn read_digits(v: &Vec<char>, from: usize, limit: u64) -> (r: Option<u64>)
    requires
        from <= v.len(),
    ensures
        ({
            let body = v@.subrange(from as int, v.len() as int);
            match r {
                Some(n) => body.len() > 0 && all_digits(body) && n == digits_value(body) && n
                    <= limit,
                None => body.len() == 0 || !all_digits(body) || digits_value(body) > limit,
            }
        }),
{
    let ghost body = v@.subrange(from as int, v.len() as int);
    if from == v.len() {
        return None;
    }
    let mut acc: u64 = 0;
    let mut i = from;
    while i < v.len()
        invariant
            from <= i <= v.len(),
            body == v@.subrange(from as int, v.len() as int),
            all_digits(body.subrange(0, i - from)),
            acc == digits_value(body.subrange(0, i - from)),
            acc <= limit,
        decreases v.len() - i,
    {
        let c = v[i];
        if !('0' <= c && c <= '9') {
            assert(body[i - from] == c);
            return None;
        }
        let d = (c as u32 - '0' as u32) as u64;
        proof {
            lemma_digits_step(body, (i - from) as int);
            assert forall|j: int| 0 <= j < i - from + 1 implies is_digit(
                #[trigger] body.subrange(0, i - from + 1)[j],
            ) by {
                if j < i - from {
                    assert(body.subrange(0, i - from + 1)[j] == body.subrange(0, i - from)[j]);
                }
            }
        }
        if d > limit || acc > (limit - d) / 10 {
            proof {
                assert(acc * 10 + d > limit) by (nonlinear_arith)
                    requires
                        d > limit || acc > (limit - d) / 10,
                        d <= 9,
                ;
                if all_digits(body) {
                    lemma_digits_value_prefix_monotone(body, i - from + 1);
                }
            }
            return None;
        }
        assert(acc * 10 + d <= limit) by (nonlinear_arith)
            requires
                d <= limit,
                acc <= (limit - d) / 10,
                d <= 9,
        ;
        acc = acc * 10 + d;
        i = i + 1;
    }
    assert(body.subrange(0, i - from) =~= body);
    Some(acc)
}

/// `str::parse::<i64>`.
pub fn parse_i64(v: &Vec<char>) -> (r: Option<i64>)
    ensures
        match r {
            Some(n) => parse_signed(v@, i64::MIN as int, i64::MAX as int) == Some(n as int),
            None => parse_signed(v@, i64::MIN as int, i64::MAX as int) is None,
        },
{
    if v.len() > 0 && (v[0] == '-' || v[0] == '+') {
        let negative = v[0] == '-';
        let limit: u64 = if negative {
            0x8000_0000_0000_0000
        } else {
            0x7fff_ffff_ffff_ffff
        };
        assert(v@.subrange(1, v.len() as int) =~= v@.drop_first());
        match read_digits(v, 1, limit) {
            Some(n) => {
                if negative {
                    if n == 0x8000_0000_0000_0000 {
                        Some(i64::MIN)
                    } else {
                        Some(-(n as i64))
                    }
                } else {
                    Some(n as i64)
                }
            },
            None => None,
        }
    } else {
        assert(v@.subrange(0, v.len() as int) =~= v@);
        match read_digits(v, 0, 0x7fff_ffff_ffff_ffff) {
            Some(n) => Some(n as i64),
            None => None,
        }
    }
}

/// `str::parse` for an unsigned type whose largest value is `hi`.
pub fn parse_unsigned_chars(v: &Vec<char>, hi: u64) -> (r: Option<u64>)
    ensures
        match r {
            Some(n) => parse_unsigned(v@, hi as int) == Some(n as int),
            None => parse_unsigned(v@, hi as int) is None,
        },
{
    let from: usize = if v.len() > 0 && v[0] == '+' {
        1
    } else {
        0
    };
    assert(v@.subrange(1, v.len() as int) =~= v@.drop_first());
    assert(v@.subrange(0, v.len() as int) =~= v@);
    read_digits(v, from, hi)
}

/// `str::parse` for a signed type whose values are `lo..=hi`.
pub fn parse_signed_chars(v: &Vec<char>, lo: i64, hi: i64) -> (r: Option<i64>)
    ensures
        match r {
            Some(n) => parse_signed(v@, lo as int, hi as int) == Some(n as int),
            None => parse_signed(v@, lo as int, hi as int) is None,
        },
{
    match parse_i64(v) {
        Some(n) => if lo <= n && n <= hi {
            Some(n)
        } else {
            None
        },
        None => {
            proof {
                if signed_value(v@) is Some {
                    let x = signed_value(v@).unwrap();
                    if lo <= x <= hi {
                        assert(i64::MIN <= x <= i64::MAX);
                    }
                }
            }
            None
        },
    }
}

/// The decimal digits of `n`.
fn decimal_exec(n: u64) -> (r: Vec<char>)
    ensures
        r@ == decimal(n as nat),
    decreases n,
{
    if n < 10 {
        let c = char_of_digit(n);
        let mut r: Vec<char> = Vec::new();
        r.push(c);
        assert(r@ =~= seq![digit_char(n as nat)]);
        r
    } else {
        let mut r = decimal_exec(n / 10);
        let c = char_of_digit(n % 10);
        r.push(c);
        r
    }
}

fn char_of_digit(d: u64) -> (c: char)
    requires
        d < 10,
    ensures
        c == digit_char(d as nat),
{
    if d == 0 { '0' }
    else if d == 1 { '1' }
    else if d == 2 { '2' }
    else if d == 3 { '3' }
    else if d == 4 { '4' }
    else if d == 5 { '5' }
    else if d == 6 { '6' }
    else if d == 7 { '7' }
    else if d == 8 { '8' }
    else { '9' }
}

/// `n` in decimal, as `Display` writes it.
pub fn format_u64(n: u64) -> (r: Vec<char>)
    ensures
        r@ == decimal(n as nat),
{
    decimal_exec(n)
}

/// `n` in decimal, as `Display` writes it.
pub fn format_i64(n: i64) -> (r: Vec<char>)
    ensures
        r@ == format_int(n as int),
{
    if n < 0 {
        let magnitude: u64 = if n == i64::MIN {
            0x8000_0000_0000_0000
        } else {
            (-n) as u64
        };
        let digits = decimal_exec(magnitude);
        let mut r: Vec<char> = Vec::new();
        r.push('-');
        let mut i: usize = 0;
        while i < digits.len()
            invariant
                i <= digits.len(),
                r@ == seq!['-'] + digits@.take(i as int),
            decreases digits.len() - i,
        {
            r.push(digits[i]);
            assert(digits@.take(i as int + 1) =~= digits@.take(i as int).push(digits@[i as int]));
            i = i + 1;
        }
        assert(digits@.take(digits.len() as int) =~= digits@);
        r
    } else {
        decimal_exec(n as u64)
    }
}

/// Appends the characters of `s` to `v`.
pub fn push_str(v: &mut Vec<char>, s: &str)
    ensures
        final(v)@ == old(v)@ + s@,
{
    let t = chars_of(s);
    push_all(v, &t);
}

/// Appends `t` to `v`.
pub fn push_all(v: &mut Vec<char>, t: &Vec<char>)
    ensures
        final(v)@ == old(v)@ + t@,
{
    let ghost start = v@;
    let mut i: usize = 0;
    while i < t.len()
        invariant
            i <= t.len(),
            v@ == start + t@.take(i as int),
        decreases t.len() - i,
    {
        v.push(t[i]);
        assert(t@.take(i as int + 1) =~= t@.take(i as int).push(t@[i as int]));
        i = i + 1;
    }
    assert(t@.take(t.len() as int) =~= t@);
}

} // verus!
