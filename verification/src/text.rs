//! Text as sequences of characters: searching, trimming, splitting, decimal
//! numbers and the ordering of names.

use vstd::prelude::*;

verus! {

/// `String::push` appends one character at the end and changes nothing else.
pub assume_specification[ String::push ](s: &mut String, c: char)
    ensures
        final(s)@ == old(s)@.push(c),
;

/// The characters of `s`, in order.
pub fn chars_of(s: &str) -> (r: Vec<char>)
    ensures
        r@ == s@,
{
    let mut out: Vec<char> = Vec::new();
    for c in it: s.chars()
        invariant
            out@ == it.seq().take(it.index()),
            it.seq() == s@,
    {
        out.push(c);
        assert(it.seq().take(it.index()).push(c) =~= it.seq().take(it.index() + 1));
    }
    assert(s@.take(s@.len() as int) =~= s@);
    out
}

/// `a` followed by `b`.
pub fn cat(a: &str, b: &str) -> (r: String)
    ensures
        r@ == a@ + b@,
{
    let mut out = a.to_owned();
    out.append(b);
    out
}

/// The part `from..to` of `s`.
pub fn part(s: &[char], from: usize, to: usize) -> (r: &[char])
    requires
        from <= to <= s@.len(),
    ensures
        r@ == s@.subrange(from as int, to as int),
{
    vstd::slice::slice_subrange(s, from, to)
}

/// The text made of the characters of `s`.
pub fn string_of(s: &[char]) -> (r: String)
    ensures
        r@ == s@,
{
    let mut out = String::new();
    let mut i: usize = 0;
    while i < s.len()
        invariant
            i <= s@.len(),
            out@ == s@.take(i as int),
        decreases s@.len() - i,
    {
        out.push(s[i]);
        assert(s@.take(i as int).push(s@[i as int]) =~= s@.take(i + 1));
        i += 1;
    }
    assert(s@.take(i as int) =~= s@);
    out
}

/// Whether the two texts hold the same characters.
pub fn same_chars(a: &[char], b: &[char]) -> (r: bool)
    ensures
        r == (a@ == b@),
{
    if a.len() != b.len() {
        return false;
    }
    let mut i: usize = 0;
    while i < a.len()
        invariant
            i <= a@.len(),
            a@.len() == b@.len(),
            forall|j: int| 0 <= j < i ==> a@[j] == b@[j],
        decreases a@.len() - i,
    {
        if a[i] != b[i] {
            return false;
        }
        i += 1;
    }
    assert(a@ =~= b@);
    true
}

/// Whether the two texts are the same.
pub fn same_text(a: &str, b: &str) -> (r: bool)
    ensures
        r == (a@ == b@),
{
    let x = chars_of(a);
    let y = chars_of(b);
    same_chars(x.as_slice(), y.as_slice())
}

// ---------------------------------------------------------------------------
// Searching
// ---------------------------------------------------------------------------

/// The first position at or after `from` that holds `c`.
pub open spec fn find_char(s: Seq<char>, c: char, from: int) -> Option<int>
    decreases s.len() - from,
{
    if from < 0 || from >= s.len() {
        None
    } else if s[from] == c {
        Some(from)
    } else {
        find_char(s, c, from + 1)
    }
}

/// Whether `pat` stands in `s` at position `i`.
pub open spec fn occurs_at(s: Seq<char>, pat: Seq<char>, i: int) -> bool {
    0 <= i && i + pat.len() <= s.len() && s.subrange(i, i + pat.len()) == pat
}

/// The first position at or after `from` at which `pat` stands in `s`.
pub open spec fn find_text(s: Seq<char>, pat: Seq<char>, from: int) -> Option<int>
    decreases s.len() + 1 - from,
{
    if from < 0 || from > s.len() {
        None
    } else if occurs_at(s, pat, from) {
        Some(from)
    } else {
        find_text(s, pat, from + 1)
    }
}

/// `find_char` finds the first occurrence: what it returns holds `c`, nothing
/// before it does, and it finds nothing only where there is nothing.
pub proof fn find_char_is_first(s: Seq<char>, c: char, from: int)
    requires
        0 <= from,
    ensures
        match find_char(s, c, from) {
            Some(i) => from <= i < s.len() && s[i] == c && (forall|j: int|
                from <= j < i ==> s[j] != c),
            None => forall|j: int| from <= j < s.len() ==> s[j] != c,
        },
    decreases s.len() - from,
{
    if from < s.len() && s[from] != c {
        find_char_is_first(s, c, from + 1);
    }
}

/// `find_text` finds the first occurrence of the pattern.
pub proof fn find_text_is_first(s: Seq<char>, pat: Seq<char>, from: int)
    requires
        0 <= from,
    ensures
        match find_text(s, pat, from) {
            Some(i) => from <= i && occurs_at(s, pat, i) && (forall|j: int|
                from <= j < i ==> !occurs_at(s, pat, j)),
            None => forall|j: int| from <= j ==> !occurs_at(s, pat, j),
        },
    decreases s.len() + 1 - from,
{
    if from <= s.len() && !occurs_at(s, pat, from) {
        find_text_is_first(s, pat, from + 1);
    }
}

pub fn find_char_in(s: &[char], c: char) -> (r: Option<usize>)
    ensures
        match r {
            Some(i) => i < s@.len() && find_char(s@, c, 0) == Some(i as int),
            None => find_char(s@, c, 0) is None,
        },
{
    let mut i: usize = 0;
    while i < s.len()
        invariant
            i <= s@.len(),
            find_char(s@, c, 0) == find_char(s@, c, i as int),
        decreases s@.len() - i,
    {
        if s[i] == c {
            return Some(i);
        }
        i += 1;
    }
    None
}

pub fn find_text_in(s: &[char], pat: &[char]) -> (r: Option<usize>)
    ensures
        match r {
            Some(i) => i + pat@.len() <= s@.len() && find_text(s@, pat@, 0) == Some(i as int),
            None => find_text(s@, pat@, 0) is None,
        },
{
    if pat.len() > s.len() {
        proof {
            find_text_is_first(s@, pat@, 0);
        }
        return None;
    }
    let n: usize = s.len();
    let last: usize = n - pat.len();
    let mut i: usize = 0;
    while i <= last
        invariant
            n == s@.len(),
            last == s@.len() - pat@.len(),
            i <= last + 1,
            find_text(s@, pat@, 0) == find_text(s@, pat@, i as int),
        decreases last + 1 - i,
    {
        if same_chars(part(s, i, i + pat.len()), pat) {
            return Some(i);
        }
        if i == last {
            proof {
                find_text_is_first(s@, pat@, i + 1);
            }
            return None;
        }
        i += 1;
    }
    proof {
        find_text_is_first(s@, pat@, i as int);
    }
    None
}

/// The pieces of `s` between the occurrences of `d`; always at least one.
pub open spec fn split(s: Seq<char>, d: char) -> Seq<Seq<char>>
    decreases s.len(),
{
    match find_char(s, d, 0) {
        Some(i) => if 0 <= i < s.len() {
            seq![s.take(i)] + split(s.skip(i + 1), d)
        } else {
            seq![s]
        },
        None => seq![s],
    }
}

/// What the pieces hold.
pub open spec fn views(v: Seq<&[char]>) -> Seq<Seq<char>> {
    Seq::new(v.len(), |i: int| v[i]@)
}

pub fn split_at_char(s: &[char], d: char) -> (r: Vec<&[char]>)
    ensures
        views(r@) == split(s@, d),
        r@.len() >= 1,
{
    let mut out: Vec<&[char]> = Vec::new();
    let mut at: usize = 0;
    assert(s@.skip(0) =~= s@);
    loop
        invariant
            at <= s@.len(),
            views(out@) + split(s@.skip(at as int), d) =~= split(s@, d),
        decreases s@.len() - at,
    {
        let rest = part(s, at, s.len());
        assert(rest@ =~= s@.skip(at as int));
        match find_char_in(rest, d) {
            Some(i) => {
                let piece = part(rest, 0, i);
                assert(piece@ =~= rest@.take(i as int));
                let ghost before = out@;
                out.push(piece);
                assert(views(out@) =~= views(before).push(piece@));
                assert(rest@.skip(i + 1) =~= s@.skip(at + i + 1));
                at = at + i + 1;
            },
            None => {
                let ghost before = out@;
                out.push(rest);
                assert(views(out@) =~= views(before).push(rest@));
                return out;
            },
        }
    }
}

// ---------------------------------------------------------------------------
// Character classes
// ---------------------------------------------------------------------------

/// The classes of characters that the text formats tell apart.
#[derive(Clone, Copy)]
pub enum Class {
    /// White space in the sense of Unicode.
    Space,
    /// Anything but white space.
    Word,
    /// The ten decimal digits.
    Digit,
}

/// Unicode's white space characters.
pub open spec fn is_space(c: char) -> bool {
    ||| '\u{9}' <= c <= '\u{d}'
    ||| c == ' '
    ||| c == '\u{85}'
    ||| c == '\u{a0}'
    ||| c == '\u{1680}'
    ||| '\u{2000}' <= c <= '\u{200a}'
    ||| c == '\u{2028}'
    ||| c == '\u{2029}'
    ||| c == '\u{202f}'
    ||| c == '\u{205f}'
    ||| c == '\u{3000}'
}

pub open spec fn in_class(k: Class, c: char) -> bool {
    match k {
        Class::Space => is_space(c),
        Class::Word => !is_space(c),
        Class::Digit => '0' <= c <= '9',
    }
}

pub fn has_class(k: Class, c: char) -> (r: bool)
    ensures
        r == in_class(k, c),
{
    let space = ('\u{9}' <= c && c <= '\u{d}') || c == ' ' || c == '\u{85}' || c == '\u{a0}' || c
        == '\u{1680}' || ('\u{2000}' <= c && c <= '\u{200a}') || c == '\u{2028}' || c
        == '\u{2029}' || c == '\u{202f}' || c == '\u{205f}' || c == '\u{3000}';
    match k {
        Class::Space => space,
        Class::Word => !space,
        Class::Digit => '0' <= c && c <= '9',
    }
}

/// How many characters at the start of `s` are of class `k`.
pub open spec fn lead(s: Seq<char>, k: Class) -> nat
    decreases s.len(),
{
    if s.len() == 0 || !in_class(k, s[0]) {
        0
    } else {
        1 + lead(s.skip(1), k)
    }
}

/// How many characters at the end of `s` are of class `k`.
pub open spec fn trail(s: Seq<char>, k: Class) -> nat
    decreases s.len(),
{
    if s.len() == 0 || !in_class(k, s.last()) {
        0
    } else {
        1 + trail(s.drop_last(), k)
    }
}

pub proof fn lemma_lead_bound(s: Seq<char>, k: Class)
    ensures
        lead(s, k) <= s.len(),
    decreases s.len(),
{
    if s.len() > 0 && in_class(k, s[0]) {
        lemma_lead_bound(s.skip(1), k);
    }
}

pub proof fn lemma_trail_bound(s: Seq<char>, k: Class)
    ensures
        trail(s, k) <= s.len(),
    decreases s.len(),
{
    if s.len() > 0 && in_class(k, s.last()) {
        lemma_trail_bound(s.drop_last(), k);
    }
}

pub fn lead_len(s: &[char], k: Class) -> (r: usize)
    ensures
        r == lead(s@, k),
        r <= s@.len(),
{
    let mut i: usize = 0;
    assert(s@.skip(0) =~= s@);
    while i < s.len()
        invariant
            i <= s@.len(),
            lead(s@, k) == i + lead(s@.skip(i as int), k),
        decreases s@.len() - i,
    {
        if !has_class(k, s[i]) {
            return i;
        }
        assert(s@.skip(i as int).skip(1) =~= s@.skip(i + 1));
        i += 1;
    }
    i
}

pub fn trail_len(s: &[char], k: Class) -> (r: usize)
    ensures
        r == trail(s@, k),
        r <= s@.len(),
{
    let n = s.len();
    let mut i: usize = 0;
    assert(s@.take(n as int) =~= s@);
    while i < n
        invariant
            i <= n == s@.len(),
            trail(s@, k) == i + trail(s@.take(n - i), k),
        decreases n - i,
    {
        if !has_class(k, s[n - 1 - i]) {
            return i;
        }
        assert(s@.take(n - i).drop_last() =~= s@.take(n - i - 1));
        i += 1;
    }
    i
}

/// `s` without the white space at its start.
pub open spec fn trim_start(s: Seq<char>) -> Seq<char> {
    s.skip(lead(s, Class::Space) as int)
}

/// `s` without the white space at its end.
pub open spec fn trim_end(s: Seq<char>) -> Seq<char> {
    s.take(s.len() - trail(s, Class::Space))
}

/// `s` without the white space around it.
pub open spec fn trim(s: Seq<char>) -> Seq<char> {
    trim_end(trim_start(s))
}

pub fn trim_start_of(s: &[char]) -> (r: &[char])
    ensures
        r@ == trim_start(s@),
{
    let n = lead_len(s, Class::Space);
    part(s, n, s.len())
}

pub fn trim_of(s: &[char]) -> (r: &[char])
    ensures
        r@ == trim(s@),
{
    let t = trim_start_of(s);
    let n = trail_len(t, Class::Space);
    let r = part(t, 0, t.len() - n);
    assert(r@ =~= trim(s@));
    r
}

/// The runs of characters between white space.
pub open spec fn words(s: Seq<char>) -> Seq<Seq<char>>
    decreases s.len(),
{
    let t = trim_start(s);
    let n = lead(t, Class::Word);
    if 0 < n <= t.len() <= s.len() {
        seq![t.take(n as int)] + words(t.skip(n as int))
    } else {
        Seq::empty()
    }
}

pub fn words_of(s: &[char]) -> (r: Vec<&[char]>)
    ensures
        views(r@) == words(s@),
{
    let mut out: Vec<&[char]> = Vec::new();
    let mut at: usize = 0;
    assert(s@.skip(0) =~= s@);
    while at < s.len()
        invariant
            at <= s@.len(),
            views(out@) + words(s@.skip(at as int)) =~= words(s@),
        decreases s@.len() - at,
    {
        let rest = part(s, at, s.len());
        assert(rest@ =~= s@.skip(at as int));
        let gap = lead_len(rest, Class::Space);
        let t = part(rest, gap, rest.len());
        assert(t@ =~= trim_start(rest@));
        let n = lead_len(t, Class::Word);
        if n == 0 {
            assert(views(out@) =~= words(s@));
            return out;
        }
        let word = part(t, 0, n);
        assert(word@ =~= t@.take(n as int));
        let ghost before = out@;
        out.push(word);
        assert(views(out@) =~= views(before).push(word@));
        assert(t@.skip(n as int) =~= s@.skip(at + gap + n));
        at = at + gap + n;
    }
    assert(s@.skip(at as int) =~= Seq::empty());
    assert(words(s@.skip(at as int)) =~= Seq::empty());
    assert(views(out@) =~= words(s@));
    out
}

// ---------------------------------------------------------------------------
// Numbers
// ---------------------------------------------------------------------------

pub open spec fn digit_char(d: int) -> char {
    if d == 0 {
        '0'
    } else if d == 1 {
        '1'
    } else if d == 2 {
        '2'
    } else if d == 3 {
        '3'
    } else if d == 4 {
        '4'
    } else if d == 5 {
        '5'
    } else if d == 6 {
        '6'
    } else if d == 7 {
        '7'
    } else if d == 8 {
        '8'
    } else {
        '9'
    }
}

/// The decimal digits of `n`, without leading zeros.
pub open spec fn dec(n: nat) -> Seq<char>
    decreases n,
{
    if n < 10 {
        seq![digit_char(n as int)]
    } else {
        dec(n / 10).push(digit_char((n % 10) as int))
    }
}

/// A signed number: a minus sign where it is negative, then its digits.
pub open spec fn signed_dec(n: int) -> Seq<char> {
    if n < 0 {
        seq!['-'] + dec((-n) as nat)
    } else {
        dec(n as nat)
    }
}

fn digit(d: u128) -> (c: char)
    requires
        d < 10,
    ensures
        c == digit_char(d as int),
{
    match d {
        0 => '0',
        1 => '1',
        2 => '2',
        3 => '3',
        4 => '4',
        5 => '5',
        6 => '6',
        7 => '7',
        8 => '8',
        _ => '9',
    }
}

/// `n` in decimal.
pub fn decimal(n: u128) -> (r: String)
    ensures
        r@ == dec(n as nat),
    decreases n,
{
    if n < 10 {
        let mut out = String::new();
        out.push(digit(n));
        assert(out@ =~= dec(n as nat));
        out
    } else {
        let mut out = decimal(n / 10);
        out.push(digit(n % 10));
        out
    }
}

/// `n` in decimal.
pub fn decimal_usize(n: usize) -> (r: String)
    ensures
        r@ == dec(n as nat),
{
    decimal(n as u128)
}

/// `n` in decimal, with its sign.
pub fn signed_decimal(n: i32) -> (r: String)
    ensures
        r@ == signed_dec(n as int),
{
    if n < 0 {
        let mut out = String::new();
        out.push('-');
        let m: i64 = -(n as i64);
        out.append(decimal(m as u128).as_str());
        assert(out@ =~= signed_dec(n as int));
        out
    } else {
        decimal(n as u128)
    }
}

/// Whether every character is a decimal digit.
pub open spec fn all_digits(s: Seq<char>) -> bool {
    forall|i: int| 0 <= i < s.len() ==> '0' <= #[trigger] s[i] <= '9'
}

/// The number that a run of decimal digits stands for.
pub open spec fn digits_value(s: Seq<char>) -> nat
    decreases s.len(),
{
    if s.len() == 0 {
        0
    } else {
        digits_value(s.drop_last()) * 10 + (s.last() as nat - '0' as nat) as nat
    }
}

/// The digits of a number as it is read: what follows an optional plus sign.
pub open spec fn unsigned_digits(s: Seq<char>) -> Seq<char> {
    if s.len() > 0 && s[0] == '+' {
        s.skip(1)
    } else {
        s
    }
}

/// Whether `s` reads as an unsigned number that a `usize` holds.
pub open spec fn reads_as_usize(s: Seq<char>) -> bool {
    let d = unsigned_digits(s);
    d.len() > 0 && all_digits(d) && digits_value(d) <= usize::MAX
}

/// Whether a text has two faults: its leading digits are already too many for a
/// `usize`, and something else follows them.
pub open spec fn too_large_and_worse(s: Seq<char>) -> bool {
    let d = unsigned_digits(s);
    !all_digits(d) && exists|i: int|
        0 <= i <= d.len() && #[trigger] all_digits(d.take(i)) && digits_value(d.take(i))
            > usize::MAX
}

/// What is said of a text with one fault that keeps it from being a `usize`.
pub open spec fn usize_fault(s: Seq<char>) -> Seq<char> {
    if s.len() == 0 {
        "cannot parse integer from empty string"@
    } else if unsigned_digits(s).len() > 0 && all_digits(unsigned_digits(s)) {
        "number too large to fit in target type"@
    } else {
        "invalid digit found in string"@
    }
}

/// What the standard library says of a text with two faults.
pub uninterp spec fn usize_error(s: Seq<char>) -> Seq<char>;

/// What is said of a text that is no `usize`.
pub open spec fn usize_complaint(s: Seq<char>) -> Seq<char> {
    if too_large_and_worse(s) {
        usize_error(s)
    } else {
        usize_fault(s)
    }
}

/// `str::parse::<usize>`: an optional plus sign and then decimal digits only,
/// at least one, whose value fits. Any other text is empty, is too large, or holds
/// something that is no digit, and the message says which. Of a text that is too
/// large and also holds something else, the message is a function of the text;
/// which of the two it names is left unsaid.
#[verifier::external_body]
pub(crate) fn parse_usize(s: &str) -> (r: Result<usize, String>)
    ensures
        match r {
            Ok(n) => reads_as_usize(s@) && n == digits_value(unsigned_digits(s@)),
            Err(e) => {
                &&& !reads_as_usize(s@)
                &&& too_large_and_worse(s@) ==> e@ == usize_error(s@)
                &&& !too_large_and_worse(s@) ==> e@ == usize_fault(s@)
            },
        },
{
    s.parse::<usize>().map_err(|e| e.to_string())
}

// ---------------------------------------------------------------------------
// Order
// ---------------------------------------------------------------------------

/// Lexicographic order by code point, which is the order of `String`.
pub open spec fn text_le(a: Seq<char>, b: Seq<char>) -> bool
    decreases a.len(),
{
    if a.len() == 0 {
        true
    } else if b.len() == 0 {
        false
    } else if a[0] != b[0] {
        a[0] < b[0]
    } else {
        text_le(a.skip(1), b.skip(1))
    }
}

pub fn text_ordered(a: &[char], b: &[char]) -> (r: bool)
    ensures
        r == text_le(a@, b@),
{
    let mut i: usize = 0;
    assert(a@.skip(0) =~= a@);
    assert(b@.skip(0) =~= b@);
    loop
        invariant
            i <= a@.len(),
            i <= b@.len(),
            text_le(a@, b@) == text_le(a@.skip(i as int), b@.skip(i as int)),
        decreases a@.len() - i,
    {
        if i == a.len() {
            return true;
        }
        if i == b.len() {
            return false;
        }
        if a[i] != b[i] {
            return a[i] < b[i];
        }
        assert(a@.skip(i as int).skip(1) =~= a@.skip(i + 1));
        assert(b@.skip(i as int).skip(1) =~= b@.skip(i + 1));
        i += 1;
    }
}

/// Of two texts one comes before the other.
pub proof fn text_le_total(a: Seq<char>, b: Seq<char>)
    ensures
        text_le(a, b) || text_le(b, a),
    decreases a.len(),
{
    if a.len() > 0 && b.len() > 0 && a[0] == b[0] {
        text_le_total(a.skip(1), b.skip(1));
    }
}

/// The order of texts is transitive.
pub proof fn text_le_transitive(a: Seq<char>, b: Seq<char>, c: Seq<char>)
    requires
        text_le(a, b),
        text_le(b, c),
    ensures
        text_le(a, c),
    decreases a.len(),
{
    if a.len() > 0 && b.len() > 0 && c.len() > 0 && a[0] == b[0] && b[0] == c[0] {
        text_le_transitive(a.skip(1), b.skip(1), c.skip(1));
    }
}

proof fn lemma_digit_value(d: int)
    requires
        0 <= d < 10,
    ensures
        digit_char(d) as nat == '0' as nat + d,
{
}

/// The digits of a number read back as that number.
pub proof fn decimals_read_back(n: nat)
    ensures
        all_digits(dec(n)),
        digits_value(dec(n)) == n,
        dec(n).len() >= 1,
    decreases n,
{
    lemma_digit_value((n % 10) as int);
    if n >= 10 {
        decimals_read_back(n / 10);
        let s = dec(n);
        assert(s.drop_last() =~= dec(n / 10));
        assert forall|i: int| 0 <= i < s.len() implies '0' <= #[trigger] s[i] <= '9' by {
            if i < s.len() - 1 {
                assert(s[i] == dec(n / 10)[i]);
            }
        }
    } else {
        assert(dec(n).drop_last() =~= Seq::empty());
        assert(digits_value(Seq::empty()) == 0);
        assert(n % 10 == n);
    }
}

// ---------------------------------------------------------------------------
// Taking apart
// ---------------------------------------------------------------------------

/// The pieces with `d` between them.
pub open spec fn joined(pieces: Seq<Seq<char>>, d: char) -> Seq<char>
    decreases pieces.len(),
{
    if pieces.len() == 0 {
        Seq::empty()
    } else if pieces.len() == 1 {
        pieces[0]
    } else {
        pieces[0] + seq![d] + joined(pieces.skip(1), d)
    }
}

/// The pieces of a text, put together again, are the text, and none of them holds the
/// character at which it was split.
pub proof fn pieces_join_back(s: Seq<char>, d: char)
    ensures
        split(s, d).len() >= 1,
        joined(split(s, d), d) == s,
        forall|i: int| 0 <= i < split(s, d).len() ==> !(#[trigger] split(s, d)[i]).contains(d),
    decreases s.len(),
{
    find_char_is_first(s, d, 0);
    if let Some(i) = find_char(s, d, 0) {
        let rest = s.skip(i + 1);
        pieces_join_back(rest, d);
        let pieces = split(s, d);
        assert(pieces =~= seq![s.take(i)] + split(rest, d));
        assert(pieces.skip(1) =~= split(rest, d));
        assert(joined(pieces, d) == s.take(i) + seq![d] + rest);
        assert(s.take(i) + seq![d] + rest =~= s);
        assert forall|k: int| 0 <= k < pieces.len() implies !(#[trigger] pieces[k]).contains(d) by {
            if k > 0 {
                assert(pieces[k] == split(rest, d)[k - 1]);
            }
        }
    }
}

proof fn lemma_lead(s: Seq<char>, k: Class)
    ensures
        lead(s, k) <= s.len(),
        forall|i: int| 0 <= i < lead(s, k) ==> in_class(k, #[trigger] s[i]),
        lead(s, k) < s.len() ==> !in_class(k, s[lead(s, k) as int]),
    decreases s.len(),
{
    if s.len() > 0 && in_class(k, s[0]) {
        let t = s.skip(1);
        lemma_lead(t, k);
        assert forall|i: int| 0 <= i < lead(s, k) implies in_class(k, #[trigger] s[i]) by {
            if i > 0 {
                assert(s[i] == t[i - 1]);
            }
        }
    }
}

proof fn lemma_trail(s: Seq<char>, k: Class)
    ensures
        trail(s, k) <= s.len(),
        forall|i: int| s.len() - trail(s, k) <= i < s.len() ==> in_class(k, #[trigger] s[i]),
        trail(s, k) < s.len() ==> !in_class(k, s[s.len() - trail(s, k) - 1]),
    decreases s.len(),
{
    if s.len() > 0 && in_class(k, s.last()) {
        let t = s.drop_last();
        lemma_trail(t, k);
        assert forall|i: int| s.len() - trail(s, k) <= i < s.len() implies in_class(
            k,
            #[trigger] s[i],
        ) by {
            if i < s.len() - 1 {
                assert(s[i] == t[i]);
            }
        }
    }
}

/// What is left of `s` from `i` to `j` has no white space at its ends, and all before
/// and behind it is white space.
pub open spec fn trims(s: Seq<char>, i: int, j: int) -> bool {
    &&& 0 <= i <= j <= s.len()
    &&& forall|k: int| 0 <= k < i ==> is_space(#[trigger] s[k])
    &&& forall|k: int| j <= k < s.len() ==> is_space(#[trigger] s[k])
    &&& i < j ==> !is_space(s[i]) && !is_space(s[j - 1])
}

/// Trimming takes away the white space around a text, all of it and nothing else.
pub proof fn trimming_takes_the_space_around(s: Seq<char>)
    ensures
        exists|i: int, j: int| #[trigger] trims(s, i, j) && trim(s) == s.subrange(i, j),
{
    let t = trim_start(s);
    let i = lead(s, Class::Space) as int;
    lemma_lead(s, Class::Space);
    lemma_trail(t, Class::Space);
    let j = i + t.len() - trail(t, Class::Space);
    assert(trim(s) =~= s.subrange(i, j));
    assert forall|k: int| j <= k < s.len() implies is_space(#[trigger] s[k]) by {
        assert(s[k] == t[k - i]);
    }
    if i < j {
        assert(s[j - 1] == t[j - 1 - i]);
    }
    assert(trims(s, i, j));
}

proof fn lemma_lead_is(s: Seq<char>, k: Class, n: int)
    requires
        0 <= n <= s.len(),
        forall|i: int| 0 <= i < n ==> in_class(k, #[trigger] s[i]),
        n < s.len() ==> !in_class(k, s[n]),
    ensures
        lead(s, k) == n,
{
    lemma_lead(s, k);
    let m = lead(s, k) as int;
    if m < n {
        assert(in_class(k, s[m]));
    } else if n < m {
        assert(in_class(k, s[n]));
    }
}

/// White space before the words changes nothing.
pub proof fn space_before_words(c: char, s: Seq<char>)
    requires
        is_space(c),
    ensures
        words(seq![c] + s) == words(s),
{
    let t = seq![c] + s;
    let n = lead(s, Class::Space) as int;
    lemma_lead(s, Class::Space);
    assert forall|i: int| 0 <= i < n + 1 implies in_class(Class::Space, #[trigger] t[i]) by {
        if i > 0 {
            assert(t[i] == s[i - 1]);
        }
    }
    lemma_lead_is(t, Class::Space, n + 1);
    assert(trim_start(t) =~= trim_start(s));
    lemma_lead_bound(trim_start(s), Class::Word);
    reveal_with_fuel(words, 2);
}

/// The words of a text are its runs without white space, in order: a word, white space
/// and more text have that word and then the words of the rest.
pub proof fn words_come_apart(w: Seq<char>, c: char, rest: Seq<char>)
    requires
        w.len() > 0,
        forall|i: int| 0 <= i < w.len() ==> !is_space(#[trigger] w[i]),
        is_space(c),
    ensures
        words(w + seq![c] + rest) == seq![w] + words(rest),
        words(w) == seq![w],
        words(Seq::empty()) == Seq::<Seq<char>>::empty(),
{
    let s = w + seq![c] + rest;
    let n = w.len() as int;
    assert(s[0] == w[0]);
    lemma_lead_is(s, Class::Space, 0);
    assert(trim_start(s) =~= s);
    assert forall|i: int| 0 <= i < n implies in_class(Class::Word, #[trigger] s[i]) by {
        assert(s[i] == w[i]);
    }
    lemma_lead_is(s, Class::Word, n);
    assert(s.take(n) =~= w);
    assert(s.skip(n) =~= seq![c] + rest);
    space_before_words(c, rest);
    lemma_lead_is(w, Class::Space, 0);
    assert(trim_start(w) =~= w);
    lemma_lead_is(w, Class::Word, n);
    assert(w.take(n) =~= w);
    assert(w.skip(n) =~= Seq::empty());
    let none = Seq::<char>::empty();
    assert(trim_start(none) =~= none);
    assert(words(none) =~= Seq::<Seq<char>>::empty());
    assert(words(w) =~= seq![w]);
}

} // verus!
