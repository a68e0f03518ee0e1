//! The packet-loss figure in the summary that `ping` prints, for each
//! platform's output format.
//!
//! Each platform reads the figure with a regular expression; here each
//! expression is a matcher on characters with a specification. A regular
//! expression finds the leftmost position at which it matches. In the three
//! expressions below every repetition (`\d+`, `\d*`, `\s*`, `\s+`) is
//! followed by something that the repeated class cannot start: a `.`, a `%`,
//! a `(`, a `)`, a letter or a digit after spaces. So the greedy match at a
//! position never has to give characters back: whether the expression
//! matches at a position, and what its group holds, is determined by the
//! maximal runs of digits and spaces, as the `*_matches_at` functions state.
//! `\d` is Unicode's decimal-digit class, `\s` Unicode's `White_Space`.
use vstd::prelude::*;
use crate::text::{
    contains, decimal, has_char, lemma_decimal_digits, lemma_skip_while,
    lemma_skip_while_stops, lemma_skip_while_to, occurs_at, occurs_at_lit, opt_view, skip_while, skip_white, slice, white,
};

verus! {

/// Whether `regex` matches the pattern `^\d$` on the one-character text
/// `c`, for a character beyond ASCII: whether it is a Unicode decimal digit
/// (`\p{Nd}`) in the Unicode tables of the regex crate.
pub uninterp spec fn regex_decimal_digit(c: char) -> bool;

/// The class `\d`: the ASCII digits among ASCII characters, and beyond
/// ASCII the Unicode decimal digits.
pub open spec fn is_decimal_digit(c: char) -> bool {
    if (c as u32) < 0x80 {
        '0' <= c <= '9'
    } else {
        regex_decimal_digit(c)
    }
}

/// The class `\d` as a predicate.
pub open spec fn digit() -> spec_fn(char) -> bool {
    |c: char| is_decimal_digit(c)
}

/// `regex::Regex::is_match` for `^\d$` on the text made of `c`. The regex
/// crate documents `\d` as `\p{Nd}`, whose ASCII members are `0` to `9`;
/// beyond ASCII the result is the name `regex_decimal_digit`.
#[verifier::external_body]
fn is_regex_digit(c: char) -> (r: bool)
    ensures
        (c as u32) < 0x80 ==> r == ('0' <= c <= '9'),
        (c as u32) >= 0x80 ==> r == regex_decimal_digit(c),
{
    let mut buf = [0u8;4];
    regex::Regex::new(r"^\d$").unwrap().is_match(c.encode_utf8(&mut buf))
}

/// Whether `c` is in the class `\d`; the regex crate is asked only about
/// characters beyond ASCII.
fn is_digit_char(c: char) -> (r: bool)
    ensures
        r == is_decimal_digit(c),
{
    if (c as u32) < 0x80 {
        '0' <= c && c <= '9'
    } else {
        is_regex_digit(c)
    }
}

/// Index of the first non-digit at or after `i`.
fn skip_digits(s: &Vec<char>, i: usize) -> (r: usize)
    requires
        i <= s.len(),
    ensures
        r == skip_while(s@, i as int, digit()),
        i <= r <= s.len(),
{
    let mut j = i;
    while j < s.len() && is_digit_char(s[j])
        invariant
            i <= j <= s.len(),
            skip_while(s@, j as int, digit()) == skip_while(s@, i as int, digit()),
        decreases s.len() - j,
    {
        j += 1;
    }
    j
}

/// The first position in `from..=n` at which `m` holds.
pub open spec fn leftmost(n: int, from: int, m: spec_fn(int) -> bool) -> Option<int>
    decreases n + 1 - from,
{
    if 0 <= from <= n {
        if m(from) {
            Some(from)
        } else {
            leftmost(n, from + 1, m)
        }
    } else {
        None
    }
}

/// The leftmost position is the first one at which the matcher holds.
pub proof fn lemma_leftmost(n: int, from: int, m: spec_fn(int) -> bool)
    requires
        0 <= from,
    ensures
        leftmost(n, from, m) matches Some(p) ==> from <= p <= n && m(p) && forall|k: int|
            from <= k < p ==> !#[trigger] m(k),
        leftmost(n, from, m) is None ==> forall|k: int| from <= k <= n ==> !#[trigger] m(k),
    decreases n + 1 - from,
{
    if from <= n && !m(from) {
        lemma_leftmost(n, from + 1, m);
    }
}

/// A matcher that holds at `k` and nowhere before it, from `from` on,
/// finds `k` leftmost.
pub proof fn lemma_leftmost_at(n: int, from: int, m: spec_fn(int) -> bool, k: int)
    requires
        0 <= from <= k <= n,
        m(k),
        forall|j: int| from <= j < k ==> !#[trigger] m(j),
    ensures
        leftmost(n, from, m) == Some(k),
    decreases k - from,
{
    if from < k {
        lemma_leftmost_at(n, from + 1, m, k);
    }
}

// ---------------------------------------------------------------------------
// Numerals: `\d+\.?\d*`
// ---------------------------------------------------------------------------

/// End of the numeral `\d+\.?\d*` that starts at `p`: the run of digits,
/// and when a `.` follows it, the `.` and the run of digits after that.
pub open spec fn numeral_end(s: Seq<char>, p: int) -> int {
    let e1 = skip_while(s, p, digit());
    if e1 < s.len() && s[e1] == '.' {
        skip_while(s, e1 + 1, digit())
    } else {
        e1
    }
}

/// Whether `t` is the run of digits `t[..k]`, non-empty, alone or followed
/// by a `.` and digits.
pub open spec fn is_numeral_with_point_at(t: Seq<char>, k: int) -> bool {
    &&& 0 < k <= t.len()
    &&& forall|i: int| 0 <= i < k ==> is_decimal_digit(#[trigger] t[i])
    &&& k == t.len() || (t[k] == '.' && forall|i: int| k < i < t.len() ==> is_decimal_digit(
        #[trigger] t[i],
    ))
}

/// Whether every character of `f` is one of the ASCII digits `0` to `9`.
pub open spec fn ascii_digits(f: Seq<char>) -> bool {
    forall|i: int| 0 <= i < f.len() ==> '0' <= #[trigger] f[i] <= '9'
}

/// A loss figure as `ping` prints it: `<whole>`, or `<whole>.<fraction>`.
pub open spec fn loss_figure(whole: nat, fraction: Option<Seq<char>>) -> Seq<char> {
    match fraction {
        Some(f) => decimal(whole) + seq!['.'] + f,
        None => decimal(whole),
    }
}

/// The numeral that starts at `p` lies within `s`; when it has a digit, its
/// text has the form `\d+(\.\d*)?`.
proof fn lemma_numeral(s: Seq<char>, p: int)
    requires
        0 <= p <= s.len(),
    ensures
        p <= skip_while(s, p, digit()) <= numeral_end(s, p) <= s.len(),
        p < skip_while(s, p, digit()) ==> is_numeral_with_point_at(
            s.subrange(p, numeral_end(s, p)),
            skip_while(s, p, digit()) - p,
        ),
{
    lemma_skip_while(s, p, digit());
    let e1 = skip_while(s, p, digit());
    let e2 = numeral_end(s, p);
    let t = s.subrange(p, e2);
    let k = e1 - p;
    if e1 < s.len() && s[e1] == '.' {
        lemma_skip_while(s, e1 + 1, digit());
        assert forall|i: int| k < i < t.len() implies is_decimal_digit(#[trigger] t[i]) by {
            assert(digit()(s[p + i]));
        }
    }
    assert forall|i: int| 0 <= i < k implies is_decimal_digit(#[trigger] t[i]) by {
        assert(digit()(s[p + i]));
    }
}

/// A numeral that starts before a space at `h - 1` ends before it.
proof fn lemma_numeral_before(s: Seq<char>, p: int, h: int)
    requires
        0 <= p < h <= s.len(),
        s[h - 1] == ' ',
    ensures
        p <= numeral_end(s, p) <= h - 1,
{
    lemma_numeral(s, p);
    lemma_skip_while_stops(s, p, h - 1, digit());
    lemma_skip_while(s, p, digit());
    let e1 = skip_while(s, p, digit());
    if e1 < s.len() && s[e1] == '.' {
        assert(e1 != h - 1);
        lemma_skip_while_stops(s, e1 + 1, h - 1, digit());
    }
}

/// A loss figure written at `h` and followed by a character that is neither
/// a digit nor a `.` is read as a numeral that ends where the figure ends.
proof fn lemma_figure_numeral(s: Seq<char>, h: int, whole: nat, fraction: Option<Seq<char>>)
    requires
        0 <= h,
        h + loss_figure(whole, fraction).len() < s.len(),
        s.subrange(h, h + loss_figure(whole, fraction).len()) == loss_figure(whole, fraction),
        fraction matches Some(f) ==> ascii_digits(f),
        s[h + loss_figure(whole, fraction).len()] == '%',
    ensures
        h < skip_while(s, h, digit()),
        numeral_end(s, h) == h + loss_figure(whole, fraction).len(),
{
    lemma_decimal_digits(whole);
    let d = decimal(whole);
    let fig = loss_figure(whole, fraction);
    let e1 = h + d.len();
    let e2 = h + fig.len();
    assert forall|j: int| h <= j < e1 implies #[trigger] digit()(s[j]) by {
        assert(s[j] == s.subrange(h, e2)[j - h]);
        assert(fig[j - h] == d[j - h]);
    }
    match fraction {
        Some(f) => {
            assert(s[e1] == s.subrange(h, e2)[e1 - h]);
            assert(s[e1] == '.');
            lemma_skip_while_to(s, h, e1, digit());
            assert forall|j: int| e1 + 1 <= j < e2 implies #[trigger] digit()(s[j]) by {
                assert(s[j] == s.subrange(h, e2)[j - h]);
                assert(fig[j - h] == f[j - e1 - 1]);
            }
            lemma_skip_while_to(s, e1 + 1, e2, digit());
        },
        None => {
            lemma_skip_while_to(s, h, e1, digit());
        },
    }
}

/// End of the numeral `\d+\.?\d*` that starts at `p`.
fn numeral_at(s: &Vec<char>, p: usize) -> (r: usize)
    requires
        p <= s.len(),
    ensures
        r == numeral_end(s@, p as int),
        p <= r <= s.len(),
{
    let e1 = skip_digits(s, p);
    if e1 < s.len() && s[e1] == '.' {
        skip_digits(s, e1 + 1)
    } else {
        e1
    }
}

// ---------------------------------------------------------------------------
// Linux: `(\d+\.?\d*)%\s*packet\s+loss`
// ---------------------------------------------------------------------------

/// Whether `(\d+\.?\d*)%\s*packet\s+loss` matches at `p`.
pub open spec fn linux_matches_at(s: Seq<char>, p: int) -> bool {
    let e = numeral_end(s, p);
    let q = skip_while(s, e + 1, white());
    let r = skip_while(s, q + 6, white());
    &&& p < skip_while(s, p, digit())
    &&& e < s.len()
    &&& s[e] == '%'
    &&& occurs_at(s, q, "packet"@)
    &&& q + 6 < r
    &&& occurs_at(s, r, "loss"@)
}

/// The Linux matcher as a predicate on positions of `s`.
pub open spec fn linux_matcher(s: Seq<char>) -> spec_fn(int) -> bool {
    |p: int| linux_matches_at(s, p)
}

/// The group of the leftmost match of `(\d+\.?\d*)%\s*packet\s+loss` in `s`.
pub open spec fn linux_loss_text(s: Seq<char>) -> Option<Seq<char>> {
    match leftmost(s.len() as int, 0, linux_matcher(s)) {
        Some(p) => Some(s.subrange(p, numeral_end(s, p))),
        None => None,
    }
}

/// The summary line of Linux `ping` up to its loss figure:
/// `<tx> packets transmitted, <rx> received, <figure>% packet loss`.
pub open spec fn linux_summary(tx: nat, rx: nat, whole: nat, fraction: Option<Seq<char>>) -> Seq<
    char,
> {
    decimal(tx) + " packets transmitted, "@ + decimal(rx) + " received, "@ + loss_figure(
        whole,
        fraction,
    ) + "% packet loss"@
}

/// No position before `h` matches when no `%` stands before `h` and a
/// space stands at `h - 1`.
proof fn lemma_linux_no_match_before(s: Seq<char>, h: int)
    requires
        0 < h <= s.len(),
        forall|j: int| 0 <= j < h ==> s[j] != '%',
        s[h - 1] == ' ',
    ensures
        forall|p: int| 0 <= p < h ==> !#[trigger] linux_matches_at(s, p),
{
    assert forall|p: int| 0 <= p < h implies !#[trigger] linux_matches_at(s, p) by {
        lemma_numeral_before(s, p, h);
        let e = numeral_end(s, p);
        assert(s[e] != '%');
    }
}

/// Law: whatever text without `%` precedes it and whatever follows it, the
/// summary line of Linux `ping` is read as its loss figure, fraction and all.
pub proof fn law_linux_summary_loss(
    pre: Seq<char>,
    tx: nat,
    rx: nat,
    whole: nat,
    fraction: Option<Seq<char>>,
    rest: Seq<char>,
)
    requires
        !has_char(pre, '%'),
        fraction matches Some(f) ==> ascii_digits(f),
    ensures
        linux_loss_text(pre + linux_summary(tx, rx, whole, fraction) + rest) == Some(
            loss_figure(whole, fraction),
        ),
{
    reveal_strlit(" packets transmitted, ");
    reveal_strlit(" received, ");
    reveal_strlit("% packet loss");
    reveal_strlit("packet");
    reveal_strlit("loss");
    lemma_decimal_digits(tx);
    lemma_decimal_digits(rx);
    let a = decimal(tx);
    let b = decimal(rx);
    let d = loss_figure(whole, fraction);
    let head = pre + a + " packets transmitted, "@ + b + " received, "@;
    let tail = "% packet loss"@ + rest;
    let s = pre + linux_summary(tx, rx, whole, fraction) + rest;
    assert(s =~= head + d + tail);
    let h = head.len() as int;
    let e = h + d.len();
    assert forall|j: int| 0 <= j < h implies s[j] != '%' by {
        if j < pre.len() {
            assert(s[j] == pre[j]);
        } else if j < pre.len() + a.len() {
            assert(s[j] == a[j - pre.len()]);
        } else if j < pre.len() + a.len() + 22 {
            assert(s[j] == " packets transmitted, "@[j - pre.len() - a.len()]);
        } else if j < pre.len() + a.len() + 22 + b.len() {
            assert(s[j] == b[j - pre.len() - a.len() - 22]);
        } else {
            assert(s[j] == " received, "@[j - pre.len() - a.len() - 22 - b.len()]);
        }
    }
    assert(s[h - 1] == ' ');
    lemma_linux_no_match_before(s, h);
    assert(s.subrange(h, e) =~= d);
    assert(s[e] == '%');
    lemma_figure_numeral(s, h, whole, fraction);
    assert(s[e + 1] == ' ');
    assert(s[e + 2] == 'p');
    lemma_skip_while_to(s, e + 1, e + 2, white());
    assert(s.subrange(e + 2, e + 8) =~= "packet"@);
    assert(s[e + 8] == ' ');
    assert(s[e + 9] == 'l');
    lemma_skip_while_to(s, e + 8, e + 9, white());
    assert(s.subrange(e + 9, e + 13) =~= "loss"@);
    assert(linux_matches_at(s, h));
    assert forall|j: int| 0 <= j < h implies !#[trigger] linux_matcher(s)(j) by {
        assert(!linux_matches_at(s, j));
    }
    lemma_leftmost_at(s.len() as int, 0, linux_matcher(s), h);
}

/// Law: the Linux loss figure is a non-empty run of decimal digits,
/// possibly followed by a `.` and more digits, and a `%` follows it in the
/// text.
pub proof fn law_linux_loss_is_number(s: Seq<char>)
    ensures
        linux_loss_text(s) matches Some(t) ==> {
            &&& exists|k: int| is_numeral_with_point_at(t, k)
            &&& contains(s, t.push('%'))
        },
{
    lemma_leftmost(s.len() as int, 0, linux_matcher(s));
    match leftmost(s.len() as int, 0, linux_matcher(s)) {
        Some(p) => {
            assert(linux_matcher(s)(p));
            lemma_numeral(s, p);
            let e = numeral_end(s, p);
            let t = s.subrange(p, e);
            assert(is_numeral_with_point_at(t, skip_while(s, p, digit()) - p));
            assert(s.subrange(p, e + 1) =~= t.push('%'));
            assert(occurs_at(s, p, t.push('%')));
        },
        None => {},
    }
}

fn linux_match_at(s: &Vec<char>, p: usize) -> (r: bool)
    requires
        p <= s.len(),
    ensures
        r == linux_matches_at(s@, p as int),
{
    proof {
        reveal_strlit("packet");
        reveal_strlit("loss");
    }
    let e1 = skip_digits(s, p);
    if !(p < e1) {
        return false;
    }
    let e = numeral_at(s, p);
    if !(e < s.len() && s[e] == '%') {
        return false;
    }
    let q = skip_white(s, e + 1);
    if !occurs_at_lit(s, q, "packet") {
        return false;
    }
    let r = skip_white(s, q + 6);
    q + 6 < r && occurs_at_lit(s, r, "loss")
}

/// The group of the leftmost match of the Linux expression in `s`.
pub fn linux_loss_capture(s: &Vec<char>) -> (r: Option<Vec<char>>)
    ensures
        opt_view(r) == linux_loss_text(s@),
{
    let n = s.len();
    let mut p: usize = 0;
    while p <= n
        invariant
            n == s.len(),
            leftmost(n as int, p as int, linux_matcher(s@)) == leftmost(
                n as int,
                0,
                linux_matcher(s@),
            ),
        decreases n + 1 - p,
    {
        if linux_match_at(s, p) {
            assert(linux_matcher(s@)(p as int));
            let e = numeral_at(s, p);
            return Some(slice(s, p, e));
        }
        assert(!linux_matcher(s@)(p as int));
        if p == n {
            assert(leftmost(n as int, n + 1, linux_matcher(s@)) is None);
            assert(leftmost(n as int, n as int, linux_matcher(s@)) is None);
            return None;
        }
        p += 1;
    }
    None
}

// ---------------------------------------------------------------------------
// macOS: `(\d+\.?\d*)\s*%\s*packet\s+loss`
// ---------------------------------------------------------------------------

/// Whether `(\d+\.?\d*)\s*%\s*packet\s+loss` matches at `p`.
pub open spec fn macos_matches_at(s: Seq<char>, p: int) -> bool {
    let q = skip_while(s, numeral_end(s, p), white());
    let r = skip_while(s, q + 1, white());
    let t = skip_while(s, r + 6, white());
    &&& p < skip_while(s, p, digit())
    &&& q < s.len()
    &&& s[q] == '%'
    &&& occurs_at(s, r, "packet"@)
    &&& r + 6 < t
    &&& occurs_at(s, t, "loss"@)
}

/// The macOS matcher as a predicate on positions of `s`.
pub open spec fn macos_matcher(s: Seq<char>) -> spec_fn(int) -> bool {
    |p: int| macos_matches_at(s, p)
}

/// The group of the leftmost match of `(\d+\.?\d*)\s*%\s*packet\s+loss` in `s`.
pub open spec fn macos_loss_text(s: Seq<char>) -> Option<Seq<char>> {
    match leftmost(s.len() as int, 0, macos_matcher(s)) {
        Some(p) => Some(s.subrange(p, numeral_end(s, p))),
        None => None,
    }
}

/// The summary line of macOS `ping` up to its loss figure:
/// `<tx> packets transmitted, <rx> packets received, <figure>% packet loss`.
pub open spec fn macos_summary(tx: nat, rx: nat, whole: nat, fraction: Option<Seq<char>>) -> Seq<
    char,
> {
    decimal(tx) + " packets transmitted, "@ + decimal(rx) + " packets received, "@ + loss_figure(
        whole,
        fraction,
    ) + "% packet loss"@
}

/// No position before `h` matches when no `%` stands before `h`, a space
/// stands at `h - 1` and an ASCII digit at `h`.
proof fn lemma_macos_no_match_before(s: Seq<char>, h: int)
    requires
        0 < h < s.len(),
        forall|j: int| 0 <= j < h ==> s[j] != '%',
        s[h - 1] == ' ',
        '0' <= s[h] <= '9',
    ensures
        forall|p: int| 0 <= p < h ==> !#[trigger] macos_matches_at(s, p),
{
    assert forall|p: int| 0 <= p < h implies !#[trigger] macos_matches_at(s, p) by {
        lemma_numeral_before(s, p, h);
        let e2 = numeral_end(s, p);
        lemma_skip_while_stops(s, e2, h, white());
        lemma_skip_while(s, e2, white());
        let q = skip_while(s, e2, white());
        if q < h {
            assert(s[q] != '%');
        } else {
            assert(q == h);
            assert(s[q] != '%');
        }
    }
}

/// Law: whatever text without `%` precedes it and whatever follows it, the
/// summary line of macOS `ping` is read as its loss figure, fraction and all.
pub proof fn law_macos_summary_loss(
    pre: Seq<char>,
    tx: nat,
    rx: nat,
    whole: nat,
    fraction: Option<Seq<char>>,
    rest: Seq<char>,
)
    requires
        !has_char(pre, '%'),
        fraction matches Some(f) ==> ascii_digits(f),
    ensures
        macos_loss_text(pre + macos_summary(tx, rx, whole, fraction) + rest) == Some(
            loss_figure(whole, fraction),
        ),
{
    reveal_strlit(" packets transmitted, ");
    reveal_strlit(" packets received, ");
    reveal_strlit("% packet loss");
    reveal_strlit("packet");
    reveal_strlit("loss");
    lemma_decimal_digits(tx);
    lemma_decimal_digits(rx);
    lemma_decimal_digits(whole);
    let a = decimal(tx);
    let b = decimal(rx);
    let d = loss_figure(whole, fraction);
    let head = pre + a + " packets transmitted, "@ + b + " packets received, "@;
    let tail = "% packet loss"@ + rest;
    let s = pre + macos_summary(tx, rx, whole, fraction) + rest;
    assert(s =~= head + d + tail);
    let h = head.len() as int;
    let e2 = h + d.len();
    assert forall|j: int| 0 <= j < h implies s[j] != '%' by {
        if j < pre.len() {
            assert(s[j] == pre[j]);
        } else if j < pre.len() + a.len() {
            assert(s[j] == a[j - pre.len()]);
        } else if j < pre.len() + a.len() + 22 {
            assert(s[j] == " packets transmitted, "@[j - pre.len() - a.len()]);
        } else if j < pre.len() + a.len() + 22 + b.len() {
            assert(s[j] == b[j - pre.len() - a.len() - 22]);
        } else {
            assert(s[j] == " packets received, "@[j - pre.len() - a.len() - 22 - b.len()]);
        }
    }
    assert(s[h - 1] == ' ');
    assert(s[h] == d[0]);
    assert(d[0] == decimal(whole)[0]);
    lemma_macos_no_match_before(s, h);
    assert(s.subrange(h, e2) =~= d);
    assert(s[e2] == '%');
    lemma_figure_numeral(s, h, whole, fraction);
    lemma_skip_while_to(s, e2, e2, white());
    assert(s[e2 + 1] == ' ');
    assert(s[e2 + 2] == 'p');
    lemma_skip_while_to(s, e2 + 1, e2 + 2, white());
    assert(s.subrange(e2 + 2, e2 + 8) =~= "packet"@);
    assert(s[e2 + 8] == ' ');
    assert(s[e2 + 9] == 'l');
    lemma_skip_while_to(s, e2 + 8, e2 + 9, white());
    assert(s.subrange(e2 + 9, e2 + 13) =~= "loss"@);
    assert(macos_matches_at(s, h));
    assert forall|j: int| 0 <= j < h implies !#[trigger] macos_matcher(s)(j) by {
        assert(!macos_matches_at(s, j));
    }
    lemma_leftmost_at(s.len() as int, 0, macos_matcher(s), h);
}

/// Law: the macOS loss figure is a non-empty run of decimal digits,
/// possibly followed by a `.` and more digits.
pub proof fn law_macos_loss_is_number(s: Seq<char>)
    ensures
        macos_loss_text(s) is Some ==> exists|k: int|
            is_numeral_with_point_at(macos_loss_text(s)->0, k),
{
    lemma_leftmost(s.len() as int, 0, macos_matcher(s));
    match leftmost(s.len() as int, 0, macos_matcher(s)) {
        Some(p) => {
            assert(macos_matcher(s)(p));
            lemma_numeral(s, p);
            let t = s.subrange(p, numeral_end(s, p));
            let k = skip_while(s, p, digit()) - p;
            assert(is_numeral_with_point_at(t, k));
            assert(macos_loss_text(s) == Some(t));
            assert(is_numeral_with_point_at(macos_loss_text(s)->0, k));
        },
        None => {
            assert(macos_loss_text(s) is None);
        },
    }
}

fn macos_match_at(s: &Vec<char>, p: usize) -> (r: bool)
    requires
        p <= s.len(),
    ensures
        r == macos_matches_at(s@, p as int),
{
    proof {
        reveal_strlit("packet");
        reveal_strlit("loss");
    }
    let e1 = skip_digits(s, p);
    if !(p < e1) {
        return false;
    }
    let e2 = numeral_at(s, p);
    let q = skip_white(s, e2);
    if !(q < s.len() && s[q] == '%') {
        return false;
    }
    let r = skip_white(s, q + 1);
    if !occurs_at_lit(s, r, "packet") {
        return false;
    }
    let t = skip_white(s, r + 6);
    r + 6 < t && occurs_at_lit(s, t, "loss")
}

/// The group of the leftmost match of the macOS expression in `s`.
pub fn macos_loss_capture(s: &Vec<char>) -> (r: Option<Vec<char>>)
    ensures
        opt_view(r) == macos_loss_text(s@),
{
    let n = s.len();
    let mut p: usize = 0;
    while p <= n
        invariant
            n == s.len(),
            leftmost(n as int, p as int, macos_matcher(s@)) == leftmost(
                n as int,
                0,
                macos_matcher(s@),
            ),
        decreases n + 1 - p,
    {
        if macos_match_at(s, p) {
            assert(macos_matcher(s@)(p as int));
            let e = numeral_at(s, p);
            return Some(slice(s, p, e));
        }
        assert(!macos_matcher(s@)(p as int));
        if p == n {
            assert(leftmost(n as int, n + 1, macos_matcher(s@)) is None);
            assert(leftmost(n as int, n as int, macos_matcher(s@)) is None);
            return None;
        }
        p += 1;
    }
    None
}

// ---------------------------------------------------------------------------
// Windows: `(?:Lost\s*=\s*\d+\s*\((\d+)%\)|Loss\s*=\s*(\d+)%|(\d+)%\s+loss)`
// ---------------------------------------------------------------------------

/// The span of group 1 when the first alternative,
/// `Lost\s*=\s*\d+\s*\((\d+)%\)`, matches at `p`.
pub open spec fn windows_lost_group(s: Seq<char>, p: int) -> Option<(int, int)> {
    let q = skip_while(s, p + 4, white());
    let r = skip_while(s, q + 1, white());
    let d1 = skip_while(s, r, digit());
    let t = skip_while(s, d1, white());
    let d2 = skip_while(s, t + 1, digit());
    if occurs_at(s, p, "Lost"@) && q < s.len() && s[q] == '=' && r < d1 && t < s.len() && s[t]
        == '(' && t + 1 < d2 && d2 + 1 < s.len() && s[d2] == '%' && s[d2 + 1] == ')' {
        Some((t + 1, d2))
    } else {
        None
    }
}

/// The span of group 2 when the second alternative, `Loss\s*=\s*(\d+)%`,
/// matches at `p`.
pub open spec fn windows_loss_group(s: Seq<char>, p: int) -> Option<(int, int)> {
    let q = skip_while(s, p + 4, white());
    let r = skip_while(s, q + 1, white());
    let d = skip_while(s, r, digit());
    if occurs_at(s, p, "Loss"@) && q < s.len() && s[q] == '=' && r < d && d < s.len() && s[d]
        == '%' {
        Some((r, d))
    } else {
        None
    }
}

/// The span of group 3 when the third alternative, `(\d+)%\s+loss`,
/// matches at `p`.
pub open spec fn windows_bare_group(s: Seq<char>, p: int) -> Option<(int, int)> {
    let d = skip_while(s, p, digit());
    let w = skip_while(s, d + 1, white());
    if p < d && d < s.len() && s[d] == '%' && d + 1 < w && occurs_at(s, w, "loss"@) {
        Some((p, d))
    } else {
        None
    }
}

/// Whether the Windows expression matches at `p`.
pub open spec fn windows_matches_at(s: Seq<char>, p: int) -> bool {
    ||| windows_lost_group(s, p) is Some
    ||| windows_loss_group(s, p) is Some
    ||| windows_bare_group(s, p) is Some
}

/// The Windows matcher as a predicate on positions of `s`.
pub open spec fn windows_matcher(s: Seq<char>) -> spec_fn(int) -> bool {
    |p: int| windows_matches_at(s, p)
}

/// The group that took part in the leftmost match of the Windows
/// expression in `s`: group 1, group 2 or group 3, by the alternative that
/// matched.
pub open spec fn windows_loss_text(s: Seq<char>) -> Option<Seq<char>> {
    match leftmost(s.len() as int, 0, windows_matcher(s)) {
        Some(p) => match windows_lost_group(s, p) {
            Some((a, b)) => Some(s.subrange(a, b)),
            None => match windows_loss_group(s, p) {
                Some((a, b)) => Some(s.subrange(a, b)),
                None => match windows_bare_group(s, p) {
                    Some((a, b)) => Some(s.subrange(a, b)),
                    None => None,
                },
            },
        },
        None => None,
    }
}

/// The report of lost packets in Windows `ping` output in the form
/// `Lost = <lost> (<percent>%)`.
pub open spec fn windows_lost_summary(lost: nat, percent: nat) -> Seq<char> {
    "Lost = "@ + decimal(lost) + " ("@ + decimal(percent) + "%)"@
}

/// A word `Lost` or `Loss` that matches at `p < h` lies before `h` when
/// `s[h]` is `L`.
proof fn lemma_word_before(s: Seq<char>, p: int, h: int, w: Seq<char>)
    requires
        0 <= p < h < s.len(),
        s[h] == 'L',
        w.len() == 4,
        w[1] != 'L' && w[2] != 'L' && w[3] != 'L',
        occurs_at(s, p, w),
    ensures
        p + 4 <= h,
{
    if p + 4 > h {
        assert(s[h] == s.subrange(p, p + 4)[h - p]);
    }
}

/// No position before `h` matches when neither `%` nor `(` stands before
/// `h` and `s[h]` is `L`.
proof fn lemma_windows_no_match_before(s: Seq<char>, h: int)
    requires
        0 <= h < s.len(),
        s[h] == 'L',
        forall|j: int| 0 <= j < h ==> s[j] != '%' && s[j] != '(',
    ensures
        forall|p: int| 0 <= p < h ==> !#[trigger] windows_matches_at(s, p),
{
    reveal_strlit("Lost");
    reveal_strlit("Loss");
    assert forall|p: int| 0 <= p < h implies !#[trigger] windows_matches_at(s, p) by {
        lemma_skip_while_stops(s, p, h, digit());
        lemma_skip_while(s, p, digit());
        let d = skip_while(s, p, digit());
        assert(s[d] != '%');
        assert(windows_bare_group(s, p) is None);
        if occurs_at(s, p, "Loss"@) {
            lemma_word_before(s, p, h, "Loss"@);
            lemma_skip_while_stops(s, p + 4, h, white());
            lemma_skip_while(s, p + 4, white());
            let q = skip_while(s, p + 4, white());
            if q < h && s[q] == '=' {
                lemma_skip_while_stops(s, q + 1, h, white());
                lemma_skip_while(s, q + 1, white());
                let r = skip_while(s, q + 1, white());
                lemma_skip_while_stops(s, r, h, digit());
                lemma_skip_while(s, r, digit());
                let d2 = skip_while(s, r, digit());
                assert(s[d2] != '%');
            }
        }
        assert(windows_loss_group(s, p) is None);
        if occurs_at(s, p, "Lost"@) {
            lemma_word_before(s, p, h, "Lost"@);
            lemma_skip_while_stops(s, p + 4, h, white());
            lemma_skip_while(s, p + 4, white());
            let q = skip_while(s, p + 4, white());
            if q < h && s[q] == '=' {
                lemma_skip_while_stops(s, q + 1, h, white());
                lemma_skip_while(s, q + 1, white());
                let r = skip_while(s, q + 1, white());
                lemma_skip_while_stops(s, r, h, digit());
                lemma_skip_while(s, r, digit());
                let d1 = skip_while(s, r, digit());
                lemma_skip_while_stops(s, d1, h, white());
                lemma_skip_while(s, d1, white());
                let t = skip_while(s, d1, white());
                assert(s[t] != '(');
            }
        }
        assert(windows_lost_group(s, p) is None);
    }
}

/// Law: whatever text without `%` and `(` precedes it and whatever follows
/// it, the report `Lost = <lost> (<percent>%)` of Windows `ping` is read as
/// its percentage.
pub proof fn law_windows_lost_percent(pre: Seq<char>, lost: nat, percent: nat, rest: Seq<char>)
    requires
        !has_char(pre, '%'),
        !has_char(pre, '('),
    ensures
        windows_loss_text(pre + windows_lost_summary(lost, percent) + rest) == Some(
            decimal(percent),
        ),
{
    reveal_strlit("Lost = ");
    reveal_strlit(" (");
    reveal_strlit("%)");
    reveal_strlit("Lost");
    lemma_decimal_digits(lost);
    lemma_decimal_digits(percent);
    let a = decimal(lost);
    let b = decimal(percent);
    let s = pre + windows_lost_summary(lost, percent) + rest;
    let h = pre.len() as int;
    assert(s =~= pre + "Lost = "@ + a + " ("@ + b + "%)"@ + rest);
    assert forall|j: int| 0 <= j < h implies s[j] != '%' && s[j] != '(' by {
        assert(s[j] == pre[j]);
    }
    assert(s[h] == 'L');
    lemma_windows_no_match_before(s, h);
    let q = h + 5;
    let r = h + 7;
    let d1 = r + a.len();
    let t = d1 + 1;
    let d2 = t + 1 + b.len();
    assert(s.subrange(h, h + 4) =~= "Lost"@);
    assert(s[h + 4] == ' ');
    assert(s[q] == '=');
    lemma_skip_while_to(s, h + 4, q, white());
    assert(s[q + 1] == ' ');
    assert(s[r] == a[0]);
    lemma_skip_while_to(s, q + 1, r, white());
    assert forall|j: int| r <= j < d1 implies #[trigger] digit()(s[j]) by {
        assert(s[j] == a[j - r]);
    }
    assert(s[d1] == ' ');
    lemma_skip_while_to(s, r, d1, digit());
    assert(s[t] == '(');
    lemma_skip_while_to(s, d1, t, white());
    assert forall|j: int| t + 1 <= j < d2 implies #[trigger] digit()(s[j]) by {
        assert(s[j] == b[j - t - 1]);
    }
    assert(s[d2] == '%');
    assert(s[d2 + 1] == ')');
    lemma_skip_while_to(s, t + 1, d2, digit());
    assert(windows_lost_group(s, h) == Some((t + 1, d2)));
    assert(windows_matches_at(s, h));
    assert forall|j: int| 0 <= j < h implies !#[trigger] windows_matcher(s)(j) by {
        assert(!windows_matches_at(s, j));
    }
    lemma_leftmost_at(s.len() as int, 0, windows_matcher(s), h);
    assert(s.subrange(t + 1, d2) =~= b);
}

/// The report of lost packets in Windows `ping` output in the form
/// `Lost = <lost> (<percent>% loss)`.
pub open spec fn windows_loss_summary(lost: nat, percent: nat) -> Seq<char> {
    "Lost = "@ + decimal(lost) + " ("@ + decimal(percent) + "% loss)"@
}

/// Law: whatever text without `%` and `(` precedes it and whatever follows
/// it, the report `Lost = <lost> (<percent>% loss)` of Windows `ping` is
/// read as its percentage.
pub proof fn law_windows_percent_loss(pre: Seq<char>, lost: nat, percent: nat, rest: Seq<char>)
    requires
        !has_char(pre, '%'),
        !has_char(pre, '('),
    ensures
        windows_loss_text(pre + windows_loss_summary(lost, percent) + rest) == Some(
            decimal(percent),
        ),
{
    reveal_strlit("Lost = ");
    reveal_strlit(" (");
    reveal_strlit("% loss)");
    reveal_strlit("Lost");
    reveal_strlit("Loss");
    reveal_strlit("loss");
    lemma_decimal_digits(lost);
    lemma_decimal_digits(percent);
    let a = decimal(lost);
    let b = decimal(percent);
    let s = pre + windows_loss_summary(lost, percent) + rest;
    let h = pre.len() as int;
    assert(s =~= pre + "Lost = "@ + a + " ("@ + b + "% loss)"@ + rest);
    assert forall|j: int| 0 <= j < h implies s[j] != '%' && s[j] != '(' by {
        assert(s[j] == pre[j]);
    }
    assert(s[h] == 'L');
    lemma_windows_no_match_before(s, h);
    let r = h + 7;
    let d1 = r + a.len();
    let t = d1 + 1;
    let g = t + 1;
    let d2 = g + b.len();
    assert forall|j: int| h <= j <= t implies s[j] != '%' && (j > h ==> s[j] != 'L') by {
        if j < r {
            assert(s[j] == "Lost = "@[j - h]);
        } else if j < d1 {
            assert(s[j] == a[j - r]);
        } else if j == d1 {
            assert(s[j] == ' ');
        } else {
            assert(s[j] == '(');
        }
    }
    assert(s[t] == '(');
    assert forall|j: int| r <= j < d1 implies #[trigger] digit()(s[j]) by {
        assert(s[j] == a[j - r]);
    }
    assert forall|j: int| g <= j < d2 implies #[trigger] digit()(s[j]) by {
        assert(s[j] == b[j - g]);
    }
    assert(s[d2] == '%');
    assert(s[d2 + 1] == ' ');
    lemma_skip_while_to(s, g, d2, digit());
    assert forall|p: int| h <= p < g implies !#[trigger] windows_matches_at(s, p) by {
        lemma_skip_while_stops(s, p, t, digit());
        lemma_skip_while(s, p, digit());
        assert(windows_bare_group(s, p) is None);
        if p == h {
            assert(s.subrange(h, h + 4) =~= "Lost"@);
            assert(s[h + 3] == 't');
            if occurs_at(s, p, "Loss"@) {
                assert(s[h + 3] == s.subrange(h, h + 4)[3]);
            }
            assert(windows_loss_group(s, p) is None);
            assert(s[h + 4] == ' ');
            assert(s[h + 5] == '=');
            lemma_skip_while_to(s, h + 4, h + 5, white());
            assert(s[h + 6] == ' ');
            assert(s[r] == a[0]);
            lemma_skip_while_to(s, h + 6, r, white());
            lemma_skip_while_to(s, r, d1, digit());
            lemma_skip_while_to(s, d1, t, white());
            assert(windows_lost_group(s, p) is None);
        } else {
            if occurs_at(s, p, "Lost"@) {
                assert(s[p] == s.subrange(p, p + 4)[0]);
            }
            if occurs_at(s, p, "Loss"@) {
                assert(s[p] == s.subrange(p, p + 4)[0]);
            }
        }
    }
    assert(s[d2 + 2] == 'l');
    lemma_skip_while_to(s, d2 + 1, d2 + 2, white());
    assert(s.subrange(d2 + 2, d2 + 6) =~= "loss"@);
    assert(windows_bare_group(s, g) == Some((g, d2)));
    assert(s[g] == b[0]);
    if occurs_at(s, g, "Lost"@) {
        assert(s[g] == s.subrange(g, g + 4)[0]);
    }
    if occurs_at(s, g, "Loss"@) {
        assert(s[g] == s.subrange(g, g + 4)[0]);
    }
    assert(windows_lost_group(s, g) is None);
    assert(windows_loss_group(s, g) is None);
    assert(windows_matches_at(s, g));
    assert forall|j: int| 0 <= j < g implies !#[trigger] windows_matcher(s)(j) by {
        assert(!windows_matches_at(s, j));
    }
    lemma_leftmost_at(s.len() as int, 0, windows_matcher(s), g);
    assert(s.subrange(g, d2) =~= b);
}

/// Law: the Windows loss figure is a non-empty run of decimal digits, and a
/// `%` follows it in the text.
pub proof fn law_windows_loss_is_digits(s: Seq<char>)
    ensures
        windows_loss_text(s) matches Some(t) ==> {
            &&& t.len() > 0
            &&& forall|i: int| 0 <= i < t.len() ==> is_decimal_digit(#[trigger] t[i])
            &&& contains(s, t.push('%'))
        },
{
    lemma_leftmost(s.len() as int, 0, windows_matcher(s));
    if let Some(p) = leftmost(s.len() as int, 0, windows_matcher(s)) {
        if let Some((a, b)) = windows_lost_group(s, p) {
            let q = skip_while(s, p + 4, white());
            let r = skip_while(s, q + 1, white());
            let d1 = skip_while(s, r, digit());
            let t = skip_while(s, d1, white());
            lemma_skip_while(s, t + 1, digit());
            assert forall|i: int| 0 <= i < s.subrange(a, b).len() implies is_decimal_digit(
                #[trigger] s.subrange(a, b)[i],
            ) by {
                assert(digit()(s[a + i]));
            }
            assert(s.subrange(a, b + 1) =~= s.subrange(a, b).push('%'));
            assert(occurs_at(s, a, s.subrange(a, b).push('%')));
        } else if let Some((a, b)) = windows_loss_group(s, p) {
            let q = skip_while(s, p + 4, white());
            let r = skip_while(s, q + 1, white());
            lemma_skip_while(s, r, digit());
            assert forall|i: int| 0 <= i < s.subrange(a, b).len() implies is_decimal_digit(
                #[trigger] s.subrange(a, b)[i],
            ) by {
                assert(digit()(s[a + i]));
            }
            assert(s.subrange(a, b + 1) =~= s.subrange(a, b).push('%'));
            assert(occurs_at(s, a, s.subrange(a, b).push('%')));
        } else if let Some((a, b)) = windows_bare_group(s, p) {
            lemma_skip_while(s, p, digit());
            assert forall|i: int| 0 <= i < s.subrange(a, b).len() implies is_decimal_digit(
                #[trigger] s.subrange(a, b)[i],
            ) by {
                assert(digit()(s[a + i]));
            }
            assert(s.subrange(a, b + 1) =~= s.subrange(a, b).push('%'));
            assert(occurs_at(s, a, s.subrange(a, b).push('%')));
        }
    }
}

fn windows_lost_at(s: &Vec<char>, p: usize) -> (r: Option<(usize, usize)>)
    requires
        p <= s.len(),
    ensures
        match r {
            Some((a, b)) => windows_lost_group(s@, p as int) == Some((a as int, b as int)) && a
                <= b <= s.len(),
            None => windows_lost_group(s@, p as int) is None,
        },
{
    proof {
        reveal_strlit("Lost");
    }
    if !occurs_at_lit(s, p, "Lost") {
        return None;
    }
    let q = skip_white(s, p + 4);
    if !(q < s.len() && s[q] == '=') {
        return None;
    }
    let r = skip_white(s, q + 1);
    let d1 = skip_digits(s, r);
    if !(r < d1) {
        return None;
    }
    let t = skip_white(s, d1);
    if !(t < s.len() && s[t] == '(') {
        return None;
    }
    let d2 = skip_digits(s, t + 1);
    if t + 1 < d2 && d2 < s.len() && d2 + 1 < s.len() && s[d2] == '%' && s[d2 + 1] == ')' {
        Some((t + 1, d2))
    } else {
        None
    }
}

fn windows_loss_at(s: &Vec<char>, p: usize) -> (r: Option<(usize, usize)>)
    requires
        p <= s.len(),
    ensures
        match r {
            Some((a, b)) => windows_loss_group(s@, p as int) == Some((a as int, b as int)) && a
                <= b <= s.len(),
            None => windows_loss_group(s@, p as int) is None,
        },
{
    proof {
        reveal_strlit("Loss");
    }
    if !occurs_at_lit(s, p, "Loss") {
        return None;
    }
    let q = skip_white(s, p + 4);
    if !(q < s.len() && s[q] == '=') {
        return None;
    }
    let r = skip_white(s, q + 1);
    let d = skip_digits(s, r);
    if r < d && d < s.len() && s[d] == '%' {
        Some((r, d))
    } else {
        None
    }
}

fn windows_bare_at(s: &Vec<char>, p: usize) -> (r: Option<(usize, usize)>)
    requires
        p <= s.len(),
    ensures
        match r {
            Some((a, b)) => windows_bare_group(s@, p as int) == Some((a as int, b as int)) && a
                <= b <= s.len(),
            None => windows_bare_group(s@, p as int) is None,
        },
{
    proof {
        reveal_strlit("loss");
    }
    let d = skip_digits(s, p);
    if !(p < d && d < s.len() && s[d] == '%') {
        return None;
    }
    let w = skip_white(s, d + 1);
    if d + 1 < w && occurs_at_lit(s, w, "loss") {
        Some((p, d))
    } else {
        None
    }
}

/// The group that took part in the leftmost match of the Windows
/// expression in `s`.
pub fn windows_loss_capture(s: &Vec<char>) -> (r: Option<Vec<char>>)
    ensures
        opt_view(r) == windows_loss_text(s@),
{
    let n = s.len();
    let mut p: usize = 0;
    while p <= n
        invariant
            n == s.len(),
            leftmost(n as int, p as int, windows_matcher(s@)) == leftmost(
                n as int,
                0,
                windows_matcher(s@),
            ),
        decreases n + 1 - p,
    {
        let g1 = windows_lost_at(s, p);
        let g2 = windows_loss_at(s, p);
        let g3 = windows_bare_at(s, p);
        if g1.is_some() || g2.is_some() || g3.is_some() {
            assert(windows_matcher(s@)(p as int));
            let span = match g1 {
                Some(g) => g,
                None => match g2 {
                    Some(g) => g,
                    None => match g3 {
                        Some(g) => g,
                        None => (0, 0),
                    },
                },
            };
            return Some(slice(s, span.0, span.1));
        }
        assert(!windows_matcher(s@)(p as int));
        if p == n {
            assert(leftmost(n as int, n + 1, windows_matcher(s@)) is None);
            assert(leftmost(n as int, n as int, windows_matcher(s@)) is None);
            return None;
        }
        p += 1;
    }
    None
}

/// Law: text in which no `%` occurs gives no loss figure, whatever the
/// platform.
pub proof fn law_no_percent_no_figure(s: Seq<char>)
    requires
        !has_char(s, '%'),
    ensures
        linux_loss_text(s) is None,
        macos_loss_text(s) is None,
        windows_loss_text(s) is None,
{
    lemma_leftmost(s.len() as int, 0, linux_matcher(s));
    if let Some(p) = leftmost(s.len() as int, 0, linux_matcher(s)) {
        assert(linux_matcher(s)(p));
        lemma_numeral(s, p);
        let e = numeral_end(s, p);
        assert(0 <= e < s.len() && s[e] == '%');
        assert(has_char(s, '%'));
    }
    lemma_leftmost(s.len() as int, 0, macos_matcher(s));
    if let Some(p) = leftmost(s.len() as int, 0, macos_matcher(s)) {
        assert(macos_matcher(s)(p));
        lemma_numeral(s, p);
        let e = numeral_end(s, p);
        lemma_skip_while(s, e, white());
        let q = skip_while(s, e, white());
        assert(0 <= q < s.len() && s[q] == '%');
        assert(has_char(s, '%'));
    }
    lemma_leftmost(s.len() as int, 0, windows_matcher(s));
    if let Some(p) = leftmost(s.len() as int, 0, windows_matcher(s)) {
        assert(windows_matcher(s)(p));
        if let Some((a, b)) = windows_lost_group(s, p) {
            assert(0 <= b < s.len() && s[b] == '%');
        } else if let Some((a, b)) = windows_loss_group(s, p) {
            assert(0 <= b < s.len() && s[b] == '%');
        } else if let Some((a, b)) = windows_bare_group(s, p) {
            assert(0 <= b < s.len() && s[b] == '%');
        }
        assert(has_char(s, '%'));
    }
}

} // verus!
