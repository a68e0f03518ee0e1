//! Character-level text utilities: the behaviour of the `str` operations that
//! the parsers rely on (`lines`, `trim`, `split_whitespace`, searching),
//! stated over `Seq<char>` and implemented on `Vec<char>`.
use vstd::prelude::*;

verus! {

// ---------------------------------------------------------------------------
// Character classes
// ---------------------------------------------------------------------------

/// The Unicode `White_Space` property: the characters that
/// `char::is_whitespace`, `str::trim` and `str::split_whitespace` treat as
/// whitespace.
pub open spec fn is_white_space(c: char) -> bool {
    let u = c as u32;
    ||| 0x09 <= u <= 0x0d
    ||| u == 0x20
    ||| u == 0x85
    ||| u == 0xa0
    ||| u == 0x1680
    ||| 0x2000 <= u <= 0x200a
    ||| u == 0x2028
    ||| u == 0x2029
    ||| u == 0x202f
    ||| u == 0x205f
    ||| u == 0x3000
}

/// The whitespace class as a predicate.
pub open spec fn white() -> spec_fn(char) -> bool {
    |c: char| is_white_space(c)
}

/// The complement of the whitespace class.
pub open spec fn not_white() -> spec_fn(char) -> bool {
    |c: char| !is_white_space(c)
}

/// Every character but `c`.
pub open spec fn not_char(c: char) -> spec_fn(char) -> bool {
    |x: char| x != c
}

/// Whether `c` is a whitespace character (`char::is_whitespace`).
pub fn is_whitespace_char(c: char) -> (r: bool)
    ensures
        r == is_white_space(c),
{
    let u = c as u32;
    (0x09 <= u && u <= 0x0d) || u == 0x20 || u == 0x85 || u == 0xa0 || u == 0x1680 || (0x2000
        <= u && u <= 0x200a) || u == 0x2028 || u == 0x2029 || u == 0x202f || u == 0x205f || u
        == 0x3000
}

// ---------------------------------------------------------------------------
// Scanning
// ---------------------------------------------------------------------------

/// The first index at or after `i` whose character does not satisfy `p`
/// (or the length of `s` when there is none).
pub open spec fn skip_while(s: Seq<char>, i: int, p: spec_fn(char) -> bool) -> int
    decreases s.len() - i,
{
    if 0 <= i < s.len() && p(s[i]) {
        skip_while(s, i + 1, p)
    } else {
        i
    }
}

/// The smallest index `k <= j` such that every character in `s[k..j]`
/// satisfies `p`.
pub open spec fn skip_back_while(s: Seq<char>, j: int, p: spec_fn(char) -> bool) -> int
    decreases j,
{
    if 0 < j <= s.len() && p(s[j - 1]) {
        skip_back_while(s, j - 1, p)
    } else {
        j
    }
}

/// `skip_while` stops at the first character that fails `p`.
pub proof fn lemma_skip_while(s: Seq<char>, i: int, p: spec_fn(char) -> bool)
    requires
        0 <= i <= s.len(),
    ensures
        i <= skip_while(s, i, p) <= s.len(),
        forall|k: int| i <= k < skip_while(s, i, p) ==> #[trigger] p(s[k]),
        skip_while(s, i, p) < s.len() ==> !p(s[skip_while(s, i, p)]),
    decreases s.len() - i,
{
    if i < s.len() && p(s[i]) {
        lemma_skip_while(s, i + 1, p);
    }
}

/// `skip_back_while` stops after the last character that fails `p`.
pub proof fn lemma_skip_back_while(s: Seq<char>, j: int, p: spec_fn(char) -> bool)
    requires
        0 <= j <= s.len(),
    ensures
        0 <= skip_back_while(s, j, p) <= j,
        forall|k: int| skip_back_while(s, j, p) <= k < j ==> #[trigger] p(s[k]),
        skip_back_while(s, j, p) > 0 ==> !p(s[skip_back_while(s, j, p) - 1]),
    decreases j,
{
    if j > 0 && p(s[j - 1]) {
        lemma_skip_back_while(s, j - 1, p);
    }
}

/// `skip_while` from `i` is `k` when `s[i..k]` satisfies `p` and `s[k]`,
/// if there is one, does not.
pub proof fn lemma_skip_while_to(s: Seq<char>, i: int, k: int, p: spec_fn(char) -> bool)
    requires
        0 <= i <= k <= s.len(),
        forall|j: int| i <= j < k ==> #[trigger] p(s[j]),
        k < s.len() ==> !p(s[k]),
    ensures
        skip_while(s, i, p) == k,
    decreases k - i,
{
    if i < k {
        lemma_skip_while_to(s, i + 1, k, p);
    }
}

/// `skip_while` from `i` stops at or before a character that fails `p`.
pub proof fn lemma_skip_while_stops(s: Seq<char>, i: int, h: int, p: spec_fn(char) -> bool)
    requires
        0 <= i <= h < s.len(),
        !p(s[h]),
    ensures
        skip_while(s, i, p) <= h,
{
    lemma_skip_while(s, i, p);
    if skip_while(s, i, p) > h {
        assert(p(s[h]));
    }
}

/// Index of the first whitespace character at or after `i`.
pub fn skip_non_white(s: &Vec<char>, i: usize) -> (r: usize)
    requires
        i <= s.len(),
    ensures
        r == skip_while(s@, i as int, not_white()),
        i <= r <= s.len(),
{
    let mut j = i;
    while j < s.len() && !is_whitespace_char(s[j])
        invariant
            i <= j <= s.len(),
            skip_while(s@, j as int, not_white()) == skip_while(s@, i as int, not_white()),
        decreases s.len() - j,
    {
        j += 1;
    }
    j
}

/// Index of the first non-whitespace character at or after `i`.
pub fn skip_white(s: &Vec<char>, i: usize) -> (r: usize)
    requires
        i <= s.len(),
    ensures
        r == skip_while(s@, i as int, white()),
        i <= r <= s.len(),
{
    let mut j = i;
    while j < s.len() && is_whitespace_char(s[j])
        invariant
            i <= j <= s.len(),
            skip_while(s@, j as int, white()) == skip_while(s@, i as int, white()),
        decreases s.len() - j,
    {
        j += 1;
    }
    j
}

/// Index of the first occurrence of `c` at or after `i` (or the length).
pub fn find_char(s: &Vec<char>, i: usize, c: char) -> (r: usize)
    requires
        i <= s.len(),
    ensures
        r == skip_while(s@, i as int, not_char(c)),
        i <= r <= s.len(),
{
    let mut j = i;
    while j < s.len() && s[j] != c
        invariant
            i <= j <= s.len(),
            skip_while(s@, j as int, not_char(c)) == skip_while(s@, i as int, not_char(c)),
        decreases s.len() - j,
    {
        j += 1;
    }
    j
}

/// The characters `s[lo..hi]`.
pub fn slice(s: &Vec<char>, lo: usize, hi: usize) -> (r: Vec<char>)
    requires
        lo <= hi <= s.len(),
    ensures
        r@ == s@.subrange(lo as int, hi as int),
{
    let mut r: Vec<char> = Vec::new();
    let mut k = lo;
    while k < hi
        invariant
            lo <= k <= hi <= s.len(),
            r@ == s@.subrange(lo as int, k as int),
        decreases hi - k,
    {
        r.push(s[k]);
        k += 1;
        assert(r@ =~= s@.subrange(lo as int, k as int));
    }
    r
}

// ---------------------------------------------------------------------------
// Trimming, searching, prefixes
// ---------------------------------------------------------------------------

/// `str::trim_start`: `s` without its leading whitespace.
pub open spec fn trim_start(s: Seq<char>) -> Seq<char> {
    s.skip(skip_while(s, 0, white()))
}

/// `str::trim_end`: `s` without its trailing whitespace.
pub open spec fn trim_end(s: Seq<char>) -> Seq<char> {
    s.take(skip_back_while(s, s.len() as int, white()))
}

/// `str::trim`: `s` without leading and trailing whitespace.
pub open spec fn trim(s: Seq<char>) -> Seq<char> {
    trim_end(trim_start(s))
}

/// `s` with its leading and trailing whitespace removed.
pub fn trim_chars(s: &Vec<char>) -> (r: Vec<char>)
    ensures
        r@ == trim(s@),
{
    let a = skip_white(s, 0);
    let t = slice(s, a, s.len());
    assert(t@ == trim_start(s@));
    let mut b = t.len();
    while b > 0 && is_whitespace_char(t[b - 1])
        invariant
            b <= t.len(),
            skip_back_while(t@, b as int, white()) == skip_back_while(
                t@,
                t.len() as int,
                white(),
            ),
        decreases b,
    {
        b -= 1;
    }
    slice(&t, 0, b)
}

/// Trimming keeps characters of the text only: a character that does not
/// occur in `s` does not occur in `trim(s)`, and `trim(s)` neither starts
/// nor ends with whitespace.
pub proof fn lemma_trim(s: Seq<char>)
    ensures
        forall|c: char| !has_char(s, c) ==> !has_char(trim(s), c),
        trim(s).len() > 0 ==> !is_white_space(trim(s)[0]) && !is_white_space(
            trim(s)[trim(s).len() - 1],
        ),
        trim(s).len() <= s.len(),
{
    lemma_skip_while(s, 0, white());
    let a = skip_while(s, 0, white());
    let t = s.skip(a);
    lemma_skip_back_while(t, t.len() as int, white());
    let b = skip_back_while(t, t.len() as int, white());
    assert(trim(s) =~= t.take(b));
    assert forall|c: char| !has_char(s, c) implies !has_char(trim(s), c) by {
        if has_char(trim(s), c) {
            let i = choose|i: int| 0 <= i < trim(s).len() && trim(s)[i] == c;
            assert(s[a + i] == c);
        }
    }
    if b > 0 {
        assert(!white()(t[b - 1]));
        if a >= s.len() {
            assert(t.len() == 0);
        }
        assert(!white()(s[a]));
    }
}

/// Index of the first occurrence of `c` in `s` (or its length).
pub open spec fn first_index(s: Seq<char>, c: char) -> int {
    skip_while(s, 0, not_char(c))
}

/// Whether `c` occurs in `s`.
pub open spec fn has_char(s: Seq<char>, c: char) -> bool {
    exists|i: int| 0 <= i < s.len() && s[i] == c
}

/// The first occurrence of `c` is found exactly when `c` occurs.
pub proof fn lemma_first_index(s: Seq<char>, c: char)
    ensures
        0 <= first_index(s, c) <= s.len(),
        first_index(s, c) < s.len() <==> has_char(s, c),
        first_index(s, c) < s.len() ==> s[first_index(s, c)] == c,
        forall|k: int| 0 <= k < first_index(s, c) ==> s[k] != c,
{
    lemma_skip_while(s, 0, not_char(c));
    assert forall|k: int| 0 <= k < first_index(s, c) implies s[k] != c by {
        assert(not_char(c)(s[k]));
    }
    if has_char(s, c) {
        let i = choose|i: int| 0 <= i < s.len() && s[i] == c;
        assert(!not_char(c)(s[i]));
    }
}

/// Whether `p` occurs in `s` at index `i`.
pub open spec fn occurs_at(s: Seq<char>, i: int, p: Seq<char>) -> bool {
    0 <= i && i + p.len() <= s.len() && s.subrange(i, i + p.len()) == p
}

/// `str::starts_with`.
pub open spec fn starts_with(s: Seq<char>, p: Seq<char>) -> bool {
    occurs_at(s, 0, p)
}

/// `str::contains`.
pub open spec fn contains(s: Seq<char>, p: Seq<char>) -> bool {
    exists|i: int| occurs_at(s, i, p)
}

/// Whether the literal `lit` occurs in `s` at index `i`.
pub fn occurs_at_lit(s: &Vec<char>, i: usize, lit: &str) -> (r: bool)
    ensures
        r == occurs_at(s@, i as int, lit@),
{
    let n = lit.unicode_len();
    if i > s.len() || s.len() - i < n {
        return false;
    }
    let mut k: usize = 0;
    while k < n
        invariant
            k <= n,
            n == lit@.len(),
            i + n <= s.len(),
            s@.subrange(i as int, i + k) == lit@.take(k as int),
        decreases n - k,
    {
        if s[i + k] != lit.get_char(k) {
            assert(s@.subrange(i as int, i + n)[k as int] != lit@[k as int]);
            return false;
        }
        k += 1;
        assert(s@.subrange(i as int, i + k) =~= lit@.take(k as int));
    }
    assert(lit@.take(n as int) =~= lit@);
    true
}

/// Whether the characters of `s` are exactly those of `lit`.
pub fn eq_str(s: &Vec<char>, lit: &str) -> (r: bool)
    ensures
        r == (s@ == lit@),
{
    let n = lit.unicode_len();
    if s.len() != n {
        return false;
    }
    let r = occurs_at_lit(s, 0, lit);
    assert(s@.subrange(0, n as int) =~= s@);
    r
}

/// Whether `s` starts with `lit`.
pub fn starts_with_lit(s: &Vec<char>, lit: &str) -> (r: bool)
    ensures
        r == starts_with(s@, lit@),
{
    occurs_at_lit(s, 0, lit)
}

/// Whether `lit` occurs anywhere in `s`.
pub fn contains_lit(s: &Vec<char>, lit: &str) -> (r: bool)
    ensures
        r == contains(s@, lit@),
{
    let n = lit.unicode_len();
    if n > s.len() {
        assert forall|i: int| !occurs_at(s@, i, lit@) by {}
        return false;
    }
    let last = s.len() - n;
    let mut i: usize = 0;
    loop
        invariant
            n == lit@.len(),
            n <= s.len(),
            last == s.len() - n,
            i <= last,
            forall|j: int| 0 <= j < i ==> !occurs_at(s@, j, lit@),
        decreases last - i,
    {
        if occurs_at_lit(s, i, lit) {
            return true;
        }
        if i == last {
            assert forall|j: int| !occurs_at(s@, j, lit@) by {
                if 0 <= j && j + n <= s.len() && j != i {
                    assert(j < i);
                }
            }
            return false;
        }
        i += 1;
    }
}

// ---------------------------------------------------------------------------
// Lines and whitespace-separated fields
// ---------------------------------------------------------------------------

/// A line's text without a carriage return that ended it.
pub open spec fn strip_cr(t: Seq<char>) -> Seq<char> {
    if t.len() > 0 && t.last() == '\r' {
        t.drop_last()
    } else {
        t
    }
}

/// `str::lines`: the text split at `\n`, each line without its `\n` or
/// `\r\n` ending; a final line ending adds no empty line, and a `\r` at the
/// very end of the text (with no `\n` after it) is kept.
pub open spec fn lines(s: Seq<char>) -> Seq<Seq<char>>
    decreases s.len(),
{
    if s.len() == 0 {
        seq![]
    } else {
        let k = skip_while(s, 0, not_char('\n'));
        if k >= s.len() {
            seq![s]
        } else {
            proof {
                lemma_skip_while(s, 0, not_char('\n'));
            }
            seq![strip_cr(s.take(k))] + lines(s.skip(k + 1))
        }
    }
}

/// `str::split_whitespace`: the maximal runs of non-whitespace characters.
pub open spec fn split_ws(s: Seq<char>) -> Seq<Seq<char>>
    decreases s.len(),
{
    let a = skip_while(s, 0, white());
    if a >= s.len() {
        seq![]
    } else {
        let b = skip_while(s, a, not_white());
        proof {
            lemma_skip_while(s, 0, white());
            lemma_skip_while(s, a, not_white());
            assert(not_white()(s[a]));
        }
        if b <= 0 {
            seq![]
        } else {
            seq![s.subrange(a, b)] + split_ws(s.skip(b))
        }
    }
}

/// The first line of a non-empty text and the text after it:
/// `lines(s) == [line] + lines(rest)`.
pub fn next_line(s: &Vec<char>) -> (r: (Vec<char>, Vec<char>))
    requires
        s.len() > 0,
    ensures
        lines(s@) == seq![r.0@] + lines(r.1@),
        r.1.len() < s.len(),
{
    let k = find_char(s, 0, '\n');
    proof {
        lemma_skip_while(s@, 0, not_char('\n'));
    }
    if k >= s.len() {
        let rest: Vec<char> = Vec::new();
        assert(lines(rest@) =~= Seq::<Seq<char>>::empty());
        assert(seq![s@] + lines(rest@) =~= seq![s@]);
        let line = slice(s, 0, s.len());
        assert(line@ =~= s@);
        (line, rest)
    } else {
        let mut line = slice(s, 0, k);
        if k > 0 && line[k - 1] == '\r' {
            line.pop();
        }
        assert(line@ == strip_cr(s@.take(k as int)));
        let rest = slice(s, k + 1, s.len());
        assert(rest@ =~= s@.skip(k + 1));
        (line, rest)
    }
}

/// The fields of `s` separated by whitespace (`str::split_whitespace`).
pub fn split_whitespace(s: &Vec<char>) -> (r: Vec<Vec<char>>)
    ensures
        views(r@) == split_ws(s@),
{
    let mut r: Vec<Vec<char>> = Vec::new();
    let mut rest = slice(s, 0, s.len());
    assert(rest@ =~= s@);
    loop
        invariant
            views(r@) + split_ws(rest@) == split_ws(s@),
        decreases rest.len(),
    {
        let a = skip_white(&rest, 0);
        if a >= rest.len() {
            assert(views(r@) + split_ws(rest@) =~= views(r@));
            return r;
        }
        let b = skip_non_white(&rest, a);
        proof {
            lemma_skip_while(rest@, 0, white());
            lemma_skip_while(rest@, a as int, not_white());
            assert(!white()(rest@[a as int]));
            assert(not_white()(rest@[a as int]));
        }
        let field = slice(&rest, a, b);
        let next = slice(&rest, b, rest.len());
        assert(next@ =~= rest@.skip(b as int));
        let ghost old_r = r@;
        r.push(field);
        assert(views(r@) =~= views(old_r).push(field@));
        assert(views(r@) + split_ws(next@) =~= views(old_r) + split_ws(rest@));
        rest = next;
    }
}

/// The views of a sequence of character vectors.
pub open spec fn views(v: Seq<Vec<char>>) -> Seq<Seq<char>> {
    v.map_values(|x: Vec<char>| x@)
}

/// The views of a sequence of strings.
pub open spec fn string_views(v: Seq<String>) -> Seq<Seq<char>> {
    v.map_values(|x: String| x@)
}

// ---------------------------------------------------------------------------
// Conversions and decimal numerals
// ---------------------------------------------------------------------------

/// The characters of `s`, in order.
pub fn chars_of(s: &str) -> (r: Vec<char>)
    ensures
        r@ == s@,
{
    let mut r: Vec<char> = Vec::new();
    for c in it: s.chars()
        invariant
            r@ == it.seq().take(it.index() as int),
            it.seq() == s@,
    {
        r.push(c);
    }
    r
}

/// The text that `String::from_utf8_lossy` makes of `bytes`.
pub uninterp spec fn utf8_lossy(bytes: Seq<u8>) -> Seq<char>;

/// `String::from_utf8_lossy`, made owned: valid UTF-8 is decoded as it
/// stands. What it makes of invalid UTF-8 (each invalid sequence becomes
/// U+FFFD) is left to the name `utf8_lossy` and not stated here.
#[verifier::external_body]
pub(crate) fn lossy_string(bytes: &[u8]) -> (r: String)
    ensures
        r@ == utf8_lossy(bytes@),
        vstd::utf8::valid_utf8(bytes@) ==> r@ == vstd::utf8::decode_utf8(bytes@),
{
    String::from_utf8_lossy(bytes).into_owned()
}

/// The text of an optional character vector.
pub open spec fn opt_view(r: Option<Vec<char>>) -> Option<Seq<char>> {
    match r {
        Some(v) => Some(v@),
        None => None,
    }
}

/// The text of an optional string.
pub open spec fn opt_string_view(r: Option<String>) -> Option<Seq<char>> {
    match r {
        Some(v) => Some(v@),
        None => None,
    }
}

/// The texts of a result of strings.
pub open spec fn result_view(r: Result<String, String>) -> Result<Seq<char>, Seq<char>> {
    match r {
        Ok(v) => Ok(v@),
        Err(e) => Err(e@),
    }
}

/// Appends `c` to `s` (`String::push`).
#[verifier::external_body]
fn push_char(s: &mut String, c: char)
    ensures
        final(s)@ == old(s)@.push(c),
{
    s.push(c);
}

/// The string made of the characters of `v`.
pub fn string_of(v: &Vec<char>) -> (r: String)
    ensures
        r@ == v@,
{
    let mut r = String::new();
    let mut i: usize = 0;
    while i < v.len()
        invariant
            i <= v.len(),
            r@ == v@.take(i as int),
        decreases v.len() - i,
    {
        push_char(&mut r, v[i]);
        i += 1;
        assert(r@ =~= v@.take(i as int));
    }
    assert(v@.take(i as int) =~= v@);
    r
}

/// Appends the characters of `src` to `dst`.
pub fn push_all(dst: &mut Vec<char>, src: &Vec<char>)
    ensures
        final(dst)@ == old(dst)@ + src@,
{
    let mut i: usize = 0;
    while i < src.len()
        invariant
            i <= src.len(),
            dst@ == old(dst)@ + src@.take(i as int),
        decreases src.len() - i,
    {
        dst.push(src[i]);
        i += 1;
        assert(dst@ =~= old(dst)@ + src@.take(i as int));
    }
    assert(src@.take(i as int) =~= src@);
}

/// The ASCII digit for `d < 10`.
pub open spec fn digit_char(d: nat) -> char {
    ((48 + d) as u8) as char
}

/// The decimal numeral of `n`, without leading zeros (`n.to_string()`).
pub open spec fn decimal(n: nat) -> Seq<char>
    decreases n,
{
    if n < 10 {
        seq![digit_char(n)]
    } else {
        decimal(n / 10).push(digit_char(n % 10))
    }
}

/// A decimal numeral is a non-empty run of the ASCII digits `0` to `9`.
pub proof fn lemma_decimal_digits(n: nat)
    ensures
        decimal(n).len() >= 1,
        forall|i: int| 0 <= i < decimal(n).len() ==> '0' <= #[trigger] decimal(n)[i] <= '9',
        forall|i: int| 0 <= i < decimal(n).len() ==> (#[trigger] decimal(n)[i] as u32) < 0x80,
    decreases n,
{
    if n >= 10 {
        lemma_decimal_digits(n / 10);
    }
}

/// The ASCII digit for `d`.
fn digit_of(d: u64) -> (c: char)
    requires
        d < 10,
    ensures
        c == digit_char(d as nat),
{
    let u: u8 = 48 + d as u8;
    u as char
}

/// The decimal numeral of `n`.
pub fn decimal_chars(n: u64) -> (r: Vec<char>)
    ensures
        r@ == decimal(n as nat),
    decreases n,
{
    if n < 10 {
        let mut r: Vec<char> = Vec::new();
        r.push(digit_of(n));
        assert(r@ =~= decimal(n as nat));
        r
    } else {
        let mut r = decimal_chars(n / 10);
        r.push(digit_of(n % 10));
        r
    }
}

} // verus!
