//! Character-level building blocks shared by the balloon sanitiser, the KML
//! reader and the page writer: classification, ASCII case folding, searching
//! and replacing, and decimal rendering, each with the statement it meets.

use vstd::prelude::*;

verus! {

/// `String::push` appends one character.
pub assume_specification[ String::push ](s: &mut String, ch: char)
    ensures
        final(s)@ == old(s)@.push(ch),
;

// ----------------------------------------------------------------------------
// Classification

/// `char::is_ascii_whitespace`: space, tab, line feed, form feed, carriage return.
pub open spec fn is_ascii_ws(c: char) -> bool {
    c == ' ' || c == '\t' || c == '\n' || c == '\x0C' || c == '\r'
}

/// `char::is_ascii_alphanumeric`.
pub open spec fn is_ascii_alnum(c: char) -> bool {
    ('a' <= c && c <= 'z') || ('A' <= c && c <= 'Z') || ('0' <= c && c <= '9')
}

/// `char::is_whitespace`: the Unicode `White_Space` property.
pub open spec fn is_unicode_ws(c: char) -> bool {
    let u = c as u32;
    (0x09 <= u && u <= 0x0D) || u == 0x20 || u == 0x85 || u == 0xA0 || u == 0x1680
        || (0x2000 <= u && u <= 0x200A) || u == 0x2028 || u == 0x2029 || u == 0x202F
        || u == 0x205F || u == 0x3000
}

/// `char::to_ascii_lowercase`.
pub open spec fn ascii_lower(c: char) -> char {
    if 'A' <= c && c <= 'Z' {
        ((c as u32) + 32) as char
    } else {
        c
    }
}

/// `str::to_ascii_lowercase`, character by character.
pub open spec fn lower_seq(s: Seq<char>) -> Seq<char> {
    s.map_values(|c: char| ascii_lower(c))
}

pub fn ascii_ws(c: char) -> (r: bool)
    ensures
        r == is_ascii_ws(c),
{
    c == ' ' || c == '\t' || c == '\n' || c == '\x0C' || c == '\r'
}

pub fn ascii_alnum(c: char) -> (r: bool)
    ensures
        r == is_ascii_alnum(c),
{
    ('a' <= c && c <= 'z') || ('A' <= c && c <= 'Z') || ('0' <= c && c <= '9')
}

pub fn unicode_ws(c: char) -> (r: bool)
    ensures
        r == is_unicode_ws(c),
{
    let u = c as u32;
    (0x09 <= u && u <= 0x0D) || u == 0x20 || u == 0x85 || u == 0xA0 || u == 0x1680
        || (0x2000 <= u && u <= 0x200A) || u == 0x2028 || u == 0x2029 || u == 0x202F
        || u == 0x205F || u == 0x3000
}

pub fn lower_char(c: char) -> (r: char)
    ensures
        r == ascii_lower(c),
{
    if 'A' <= c && c <= 'Z' {
        ((c as u8) + 32) as char
    } else {
        c
    }
}

pub fn lower_vec(v: &Vec<char>) -> (r: Vec<char>)
    ensures
        r@ == lower_seq(v@),
{
    let mut r: Vec<char> = Vec::new();
    for i in 0..v.len()
        invariant
            r@ == lower_seq(v@.take(i as int)),
    {
        r.push(lower_char(v[i]));
        assert(lower_seq(v@.take(i + 1)) =~= lower_seq(v@.take(i as int)).push(ascii_lower(v@[i as int])));
    }
    assert(v@.take(v.len() as int) =~= v@);
    r
}

// ----------------------------------------------------------------------------
// Runs of characters

/// Classes of characters that the tag and attribute scanners step over.
#[derive(Clone, Copy)]
pub enum Run {
    /// ASCII whitespace.
    Space,
    /// ASCII whitespace or `/`.
    SpaceOrSlash,
    /// Anything but ASCII whitespace and `=`: an attribute name.
    Name,
    /// Anything but ASCII whitespace: an unquoted value.
    Word,
    /// `/`.
    Slash,
    /// ASCII letters and digits: a tag name.
    Alnum,
    /// Unicode whitespace.
    Blank,
    /// Anything but Unicode whitespace.
    NonBlank,
}

pub open spec fn in_run(k: Run, c: char) -> bool {
    match k {
        Run::Space => is_ascii_ws(c),
        Run::SpaceOrSlash => is_ascii_ws(c) || c == '/',
        Run::Name => !is_ascii_ws(c) && c != '=',
        Run::Word => !is_ascii_ws(c),
        Run::Slash => c == '/',
        Run::Alnum => is_ascii_alnum(c),
        Run::Blank => is_unicode_ws(c),
        Run::NonBlank => !is_unicode_ws(c),
    }
}

/// The first position at or after `i` whose character is not in the run.
pub open spec fn skip_run(s: Seq<char>, i: int, k: Run) -> int
    decreases s.len() - i,
{
    if 0 <= i < s.len() && in_run(k, s[i]) {
        skip_run(s, i + 1, k)
    } else {
        i
    }
}

pub proof fn lemma_skip_run(s: Seq<char>, i: int, k: Run)
    requires
        0 <= i <= s.len(),
    ensures
        i <= skip_run(s, i, k) <= s.len(),
        forall|j: int| i <= j < skip_run(s, i, k) ==> in_run(k, #[trigger] s[j]),
        skip_run(s, i, k) < s.len() ==> !in_run(k, s[skip_run(s, i, k)]),
    decreases s.len() - i,
{
    if i < s.len() && in_run(k, s[i]) {
        lemma_skip_run(s, i + 1, k);
    }
}

pub fn in_run_exec(k: Run, c: char) -> (r: bool)
    ensures
        r == in_run(k, c),
{
    match k {
        Run::Space => ascii_ws(c),
        Run::SpaceOrSlash => ascii_ws(c) || c == '/',
        Run::Name => !ascii_ws(c) && c != '=',
        Run::Word => !ascii_ws(c),
        Run::Slash => c == '/',
        Run::Alnum => ascii_alnum(c),
        Run::Blank => unicode_ws(c),
        Run::NonBlank => !unicode_ws(c),
    }
}

pub fn skip_run_exec(s: &Vec<char>, i: usize, k: Run) -> (r: usize)
    requires
        i <= s.len(),
    ensures
        r == skip_run(s@, i as int, k),
        i <= r <= s.len(),
{
    let mut j = i;
    while j < s.len() && in_run_exec(k, s[j])
        invariant
            i <= j <= s.len(),
            skip_run(s@, i as int, k) == skip_run(s@, j as int, k),
        decreases s.len() - j,
    {
        j += 1;
    }
    j
}

// ----------------------------------------------------------------------------
// Conversions

/// The characters of a string slice, in order.
pub fn chars_of(s: &str) -> (out: Vec<char>)
    ensures
        out@ == s@,
{
    let mut out: Vec<char> = Vec::new();
    for c in it: s.chars()
        invariant
            out@ == it.seq().take(it.index() as int),
    {
        out.push(c);
    }
    out
}

/// A string holding the given characters.
pub fn string_of(v: &Vec<char>) -> (s: String)
    ensures
        s@ == v@,
{
    let mut s = String::new();
    push_all(&mut s, v);
    s
}

/// Appends the given characters to a string.
pub fn push_all(s: &mut String, v: &Vec<char>)
    ensures
        final(s)@ == old(s)@ + v@,
{
    let ghost start = s@;
    for i in 0..v.len()
        invariant
            s@ == start + v@.take(i as int),
    {
        s.push(v[i]);
        assert(v@.take(i + 1) =~= v@.take(i as int).push(v@[i as int]));
    }
    assert(v@.take(v.len() as int) =~= v@);
}

/// Whether the characters equal the literal.
pub fn eq_lit(v: &Vec<char>, lit: &str) -> (r: bool)
    ensures
        r == (v@ == lit@),
{
    let w = chars_of(lit);
    eq_chars(v, &w)
}

pub fn eq_chars(v: &Vec<char>, w: &Vec<char>) -> (r: bool)
    ensures
        r == (v@ == w@),
{
    if v.len() != w.len() {
        return false;
    }
    for i in 0..v.len()
        invariant
            v.len() == w.len(),
            forall|j: int| 0 <= j < i ==> v@[j] == w@[j],
    {
        if v[i] != w[i] {
            return false;
        }
    }
    assert(v@ =~= w@);
    true
}

/// The characters `v[from..to]`.
pub fn slice_chars(v: &Vec<char>, from: usize, to: usize) -> (r: Vec<char>)
    requires
        from <= to <= v.len(),
    ensures
        r@ == v@.subrange(from as int, to as int),
{
    let mut r: Vec<char> = Vec::new();
    let mut i = from;
    while i < to
        invariant
            from <= i <= to <= v.len(),
            r@ == v@.subrange(from as int, i as int),
        decreases to - i,
    {
        r.push(v[i]);
        assert(v@.subrange(from as int, i + 1) =~= v@.subrange(from as int, i as int).push(v@[i as int]));
        i += 1;
    }
    r
}

// ----------------------------------------------------------------------------
// Searching

/// The first position at or after `from` holding `c` (`str::find` with a char).
pub open spec fn find_char(s: Seq<char>, from: int, c: char) -> Option<int>
    decreases s.len() - from,
{
    if from < 0 || from >= s.len() {
        None
    } else if s[from] == c {
        Some(from)
    } else {
        find_char(s, from + 1, c)
    }
}

pub proof fn lemma_find_char(s: Seq<char>, from: int, c: char)
    requires
        0 <= from,
    ensures
        find_char(s, from, c) matches Some(p) ==> from <= p < s.len() && s[p] == c
            && forall|j: int| from <= j < p ==> s[j] != c,
        find_char(s, from, c) is None ==> forall|j: int| from <= j < s.len() ==> s[j] != c,
    decreases s.len() - from,
{
    if from < s.len() && s[from] != c {
        lemma_find_char(s, from + 1, c);
    }
}

/// The position of `c` at or after `from`, or the length when there is none.
pub open spec fn find_char_or_end(s: Seq<char>, from: int, c: char) -> int {
    match find_char(s, from, c) {
        Some(p) => p,
        None => s.len() as int,
    }
}

pub fn find_char_from(s: &Vec<char>, from: usize, c: char) -> (r: Option<usize>)
    ensures
        r is Some <==> find_char(s@, from as int, c) is Some,
        r matches Some(p) ==> find_char(s@, from as int, c) == Some(p as int),
{
    let mut i = from;
    while i < s.len()
        invariant
            from <= i,
            find_char(s@, from as int, c) == find_char(s@, i as int, c),
        decreases s.len() - i,
    {
        if s[i] == c {
            return Some(i);
        }
        i += 1;
    }
    None
}

/// Whether `pat` occurs in `s` starting exactly at `at`.
pub open spec fn matches_at(s: Seq<char>, at: int, pat: Seq<char>) -> bool {
    0 <= at && at + pat.len() <= s.len() && s.subrange(at, at + pat.len()) == pat
}

/// The first position at or after `from` where `pat` occurs (`str::find` with a str).
pub open spec fn find_seq(s: Seq<char>, from: int, pat: Seq<char>) -> Option<int>
    decreases s.len() + 1 - from,
{
    if from < 0 || from + pat.len() > s.len() {
        None
    } else if matches_at(s, from, pat) {
        Some(from)
    } else {
        find_seq(s, from + 1, pat)
    }
}

pub proof fn lemma_find_seq(s: Seq<char>, from: int, pat: Seq<char>)
    requires
        0 <= from,
    ensures
        find_seq(s, from, pat) matches Some(p) ==> from <= p && p + pat.len() <= s.len()
            && matches_at(s, p, pat),
    decreases s.len() + 1 - from,
{
    if from + pat.len() <= s.len() && !matches_at(s, from, pat) {
        lemma_find_seq(s, from + 1, pat);
    }
}

pub fn matches_at_exec(s: &Vec<char>, at: usize, pat: &Vec<char>) -> (r: bool)
    ensures
        r == matches_at(s@, at as int, pat@),
{
    if pat.len() > s.len() || at > s.len() - pat.len() {
        return false;
    }
    let mut k: usize = 0;
    while k < pat.len()
        invariant
            at + pat.len() <= s.len(),
            k <= pat.len(),
            forall|j: int| 0 <= j < k ==> s@[at + j] == pat@[j],
        decreases pat.len() - k,
    {
        if s[at + k] != pat[k] {
            assert(s@.subrange(at as int, at + pat.len())[k as int] != pat@[k as int]);
            return false;
        }
        k += 1;
    }
    assert(s@.subrange(at as int, at + pat.len()) =~= pat@);
    true
}

pub fn find_seq_from(s: &Vec<char>, from: usize, pat: &Vec<char>) -> (r: Option<usize>)
    ensures
        r is Some <==> find_seq(s@, from as int, pat@) is Some,
        r matches Some(p) ==> find_seq(s@, from as int, pat@) == Some(p as int),
{
    if pat.len() == 0 {
        if from <= s.len() {
            assert(s@.subrange(from as int, from as int) =~= pat@);
            return Some(from);
        }
        return None;
    }
    let mut i = from;
    while i < s.len() && pat.len() <= s.len() - i
        invariant
            from <= i,
            pat.len() > 0,
            find_seq(s@, from as int, pat@) == find_seq(s@, i as int, pat@),
        decreases s.len() - i,
    {
        if matches_at_exec(s, i, pat) {
            return Some(i);
        }
        i += 1;
    }
    None
}

// ----------------------------------------------------------------------------
// Replacing

/// `str::replace`: every non-overlapping occurrence of `pat`, scanning from the
/// left, becomes `rep`.
pub open spec fn replace_all(s: Seq<char>, pat: Seq<char>, rep: Seq<char>) -> Seq<char>
    decreases s.len(),
{
    if s.len() == 0 {
        s
    } else if pat.len() > 0 && matches_at(s, 0, pat) {
        rep + replace_all(s.skip(pat.len() as int), pat, rep)
    } else {
        seq![s[0]] + replace_all(s.skip(1), pat, rep)
    }
}

pub fn replace_vec(s: &Vec<char>, pat: &Vec<char>, rep: &Vec<char>) -> (r: Vec<char>)
    requires
        pat.len() > 0,
    ensures
        r@ == replace_all(s@, pat@, rep@),
{
    let mut r: Vec<char> = Vec::new();
    let mut i: usize = 0;
    assert(s@.skip(0) =~= s@);
    while i < s.len()
        invariant
            i <= s.len(),
            pat.len() > 0,
            replace_all(s@, pat@, rep@) == r@ + replace_all(s@.skip(i as int), pat@, rep@),
        decreases s.len() - i,
    {
        let ghost rest = s@.skip(i as int);
        if matches_at_exec(s, i, pat) {
            assert(rest.subrange(0, pat.len() as int) =~= s@.subrange(i as int, i + pat.len()));
            assert(rest.skip(pat.len() as int) =~= s@.skip(i + pat.len()));
            let ghost before = r@;
            let mut k2: usize = 0;
            while k2 < rep.len()
                invariant
                    k2 <= rep.len(),
                    r@ == before + rep@.take(k2 as int),
                decreases rep.len() - k2,
            {
                r.push(rep[k2]);
                assert(rep@.take(k2 + 1) =~= rep@.take(k2 as int).push(rep@[k2 as int]));
                k2 += 1;
            }
            assert(rep@.take(rep.len() as int) =~= rep@);
            assert(r@ + replace_all(s@.skip(i + pat.len()), pat@, rep@) =~= before + (rep@
                + replace_all(rest.skip(pat.len() as int), pat@, rep@)));
            i += pat.len();
        } else {
            assert(!matches_at(rest, 0, pat@)) by {
                if rest.len() >= pat.len() {
                    assert(rest.subrange(0, pat.len() as int) =~= s@.subrange(i as int, i + pat.len()));
                }
            }
            assert(rest.skip(1) =~= s@.skip(i + 1));
            let ghost before = r@;
            r.push(s[i]);
            assert(r@ + replace_all(s@.skip(i + 1), pat@, rep@) =~= before + (seq![rest[0]]
                + replace_all(rest.skip(1), pat@, rep@)));
            i += 1;
        }
    }
    assert(s@.skip(s.len() as int) =~= Seq::<char>::empty());
    assert(r@ + Seq::<char>::empty() =~= r@);
    r
}

// ----------------------------------------------------------------------------
// Decimal numbers

pub open spec fn digit_char(d: nat) -> char {
    if d == 0 { '0' }
    else if d == 1 { '1' }
    else if d == 2 { '2' }
    else if d == 3 { '3' }
    else if d == 4 { '4' }
    else if d == 5 { '5' }
    else if d == 6 { '6' }
    else if d == 7 { '7' }
    else if d == 8 { '8' }
    else { '9' }
}

/// The decimal digits of `n`, most significant first, as `Display` writes them.
pub open spec fn decimal(n: nat) -> Seq<char>
    decreases n,
{
    if n < 10 {
        seq![digit_char(n)]
    } else {
        decimal(n / 10).push(digit_char(n % 10))
    }
}

/// A number's decimal digits are at least one long, and one long exactly
/// below ten.
pub proof fn lemma_decimal_len(n: nat)
    ensures
        decimal(n).len() >= 1,
        (decimal(n).len() == 1) == (n < 10),
    decreases n,
{
    if n >= 10 {
        lemma_decimal_len(n / 10);
    }
}

/// Different numbers are written differently.
pub proof fn lemma_decimal_injective(a: nat, b: nat)
    requires
        decimal(a) == decimal(b),
    ensures
        a == b,
    decreases a,
{
    lemma_decimal_len(a);
    lemma_decimal_len(b);
    if a >= 10 && b >= 10 {
        assert(decimal(a).last() == digit_char(a % 10));
        assert(decimal(b).last() == digit_char(b % 10));
        assert(decimal(a).drop_last() =~= decimal(a / 10));
        assert(decimal(b).drop_last() =~= decimal(b / 10));
        lemma_decimal_injective(a / 10, b / 10);
    } else if a < 10 && b < 10 {
        assert(decimal(a)[0] == digit_char(a));
        assert(decimal(b)[0] == digit_char(b));
    }
}

pub fn digit(d: u64) -> (c: char)
    requires
        d < 10,
    ensures
        c == digit_char(d as nat),
{
    if d == 0 { '0' }
    else if d == 1 { '1' }
    else if d == 2 { '2' }
    else if d == 3 { '3' }
    else if d == 4 { '4' }
    else if d == 5 { '5' }
    else if d == 6 { '6' }
    else if d == 7 { '7' }
    else if d == 8 { '8' }
    else { '9' }
}

/// `n.to_string()` for an unsigned number.
pub fn decimal_string(n: u64) -> (s: String)
    ensures
        s@ == decimal(n as nat),
{
    let v = decimal_chars(n);
    string_of(&v)
}

pub fn decimal_chars(n: u64) -> (v: Vec<char>)
    ensures
        v@ == decimal(n as nat),
    decreases n,
{
    if n < 10 {
        let mut v: Vec<char> = Vec::new();
        v.push(digit(n));
        v
    } else {
        let mut v = decimal_chars(n / 10);
        v.push(digit(n % 10));
        v
    }
}

} // verus!
