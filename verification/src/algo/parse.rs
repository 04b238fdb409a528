//! The text formats of the instance files: one palet per line, and one row
//! of the cost matrix per line, its entries apart by whitespace.

use super::{Costs, Palets};
use vstd::prelude::*;

verus! {

/// ASCII whitespace: space, tab, line feed, vertical tab, form feed, carriage
/// return.
pub open spec fn is_ws(b: u8) -> bool {
    b == 32 || (9 <= b && b <= 13)
}

/// The two bytes are the UTF-8 form of a whitespace character: U+0085 or
/// U+00A0.
pub open spec fn ws2(b0: u8, b1: u8) -> bool {
    b0 == 0xC2 && (b1 == 0x85 || b1 == 0xA0)
}

/// The three bytes are the UTF-8 form of a whitespace character: U+1680,
/// U+2000 to U+200A, U+2028, U+2029, U+202F, U+205F or U+3000.
pub open spec fn ws3(b0: u8, b1: u8, b2: u8) -> bool {
    ||| b0 == 0xE1 && b1 == 0x9A && b2 == 0x80
    ||| b0 == 0xE2 && b1 == 0x80 && ((0x80 <= b2 && b2 <= 0x8A) || b2 == 0xA8 || b2 == 0xA9 || b2 == 0xAF)
    ||| b0 == 0xE2 && b1 == 0x81 && b2 == 0x9F
    ||| b0 == 0xE3 && b1 == 0x80 && b2 == 0x80
}

/// Length in bytes of the whitespace character (in UTF-8; the characters
/// with the Unicode property `White_Space`) that starts at `i` in `s`, or 0
/// where none does.
pub open spec fn ws_len(s: Seq<u8>, i: int) -> int {
    if 0 <= i < s.len() && is_ws(s[i]) {
        1
    } else if 0 <= i && i + 1 < s.len() && ws2(s[i], s[i + 1]) {
        2
    } else if 0 <= i && i + 2 < s.len() && ws3(s[i], s[i + 1], s[i + 2]) {
        3
    } else {
        0
    }
}

/// Length in bytes of the whitespace character that `s` ends with, or 0
/// where it ends with none.
pub open spec fn ws_end(s: Seq<u8>) -> int {
    let n = s.len() as int;
    if n >= 3 && ws3(s[n - 3], s[n - 2], s[n - 1]) {
        3
    } else if n >= 2 && ws2(s[n - 2], s[n - 1]) {
        2
    } else if n >= 1 && is_ws(s[n - 1]) {
        1
    } else {
        0
    }
}

/// An ASCII decimal digit.
pub open spec fn is_digit(b: u8) -> bool {
    48 <= b && b <= 57
}

/// Index of the first line feed at or after `i`, or the length of `t`.
pub open spec fn nl_from(t: Seq<u8>, i: int) -> int
    decreases t.len() - i,
{
    if i >= t.len() {
        t.len() as int
    } else if t[i] == 10 {
        i
    } else {
        nl_from(t, i + 1)
    }
}

/// The line feed found from `i` on is the first one there.
pub proof fn lemma_nl_from(t: Seq<u8>, i: int)
    requires
        0 <= i <= t.len(),
    ensures
        i <= nl_from(t, i) <= t.len(),
        nl_from(t, i) < t.len() ==> t[nl_from(t, i)] == 10,
        forall|k: int| i <= k < nl_from(t, i) ==> t[k] != 10,
    decreases t.len() - i,
{
    if i < t.len() && t[i] != 10 {
        lemma_nl_from(t, i + 1);
    }
}

/// The lines of `t` from index `i` on: the pieces between line feeds, where a
/// line feed at the very end starts no further line.
pub open spec fn lines_from(t: Seq<u8>, i: int) -> Seq<Seq<u8>>
    decreases t.len() - i,
{
    if i >= t.len() || i < 0 {
        Seq::empty()
    } else {
        let j = nl_from(t, i);
        proof {
            lemma_nl_from(t, i);
        }
        if j >= t.len() {
            seq![t.subrange(i, j)]
        } else {
            seq![t.subrange(i, j)] + lines_from(t, j + 1)
        }
    }
}

/// The lines of `t`.
pub open spec fn lines(t: Seq<u8>) -> Seq<Seq<u8>> {
    lines_from(t, 0)
}

/// `s` without its leading whitespace.
pub open spec fn trim_start(s: Seq<u8>) -> Seq<u8>
    decreases s.len(),
{
    if ws_len(s, 0) > 0 {
        trim_start(s.skip(ws_len(s, 0)))
    } else {
        s
    }
}

/// `s` without its trailing whitespace.
pub open spec fn trim_end(s: Seq<u8>) -> Seq<u8>
    decreases s.len(),
{
    if ws_end(s) > 0 {
        trim_end(s.take(s.len() - ws_end(s)))
    } else {
        s
    }
}

/// `s` without its leading and trailing whitespace.
pub open spec fn trim(s: Seq<u8>) -> Seq<u8> {
    trim_end(trim_start(s))
}

/// Every byte of `d` is a digit.
pub open spec fn all_digits(d: Seq<u8>) -> bool {
    forall|i: int| 0 <= i < d.len() ==> is_digit(#[trigger] d[i])
}

/// The number that the digits `d` write in decimal.
pub open spec fn dec_value(d: Seq<u8>) -> nat
    decreases d.len(),
{
    if d.len() == 0 {
        0
    } else {
        dec_value(d.drop_last()) * 10 + (d.last() - 48) as nat
    }
}

/// The number that `s` writes: an optional `+`, then at least one digit, and
/// nothing else; no number otherwise.
pub open spec fn number(s: Seq<u8>) -> Option<nat> {
    let d = if s.len() > 0 && s[0] == 43 {
        s.drop_first()
    } else {
        s
    };
    if d.len() > 0 && all_digits(d) {
        Some(dec_value(d))
    } else {
        None
    }
}

/// The number that `s` writes where it is at most `max`; none otherwise.
pub open spec fn number_upto(s: Seq<u8>, max: nat) -> Option<nat> {
    match number(s) {
        Some(v) => if v <= max {
            Some(v)
        } else {
            None
        },
        None => None,
    }
}

/// Index of the first byte at or after `i` that does not start a whitespace
/// character, stepping over whole characters, or the length of `s`.
pub open spec fn skip_ws(s: Seq<u8>, i: int) -> int
    decreases s.len() - i,
{
    if i >= s.len() {
        s.len() as int
    } else if ws_len(s, i) > 0 {
        skip_ws(s, i + ws_len(s, i))
    } else {
        i
    }
}

/// Skipping whitespace from `i` stops at the first byte that starts none.
pub proof fn lemma_skip_ws(s: Seq<u8>, i: int)
    requires
        0 <= i,
    ensures
        i <= skip_ws(s, i) || i > s.len(),
        skip_ws(s, i) <= s.len() || i > s.len(),
        skip_ws(s, i) < s.len() ==> ws_len(s, skip_ws(s, i)) == 0,
    decreases s.len() - i,
{
    if i < s.len() && ws_len(s, i) > 0 {
        lemma_skip_ws(s, i + ws_len(s, i));
    }
}

/// Index of the first byte at or after `i` that starts a whitespace
/// character, or the length of `s`.
pub open spec fn word_end(s: Seq<u8>, i: int) -> int
    decreases s.len() - i,
{
    if i >= s.len() {
        s.len() as int
    } else if ws_len(s, i) > 0 {
        i
    } else {
        word_end(s, i + 1)
    }
}

/// A word runs from `a` to the first whitespace character after it.
pub proof fn lemma_word_end(s: Seq<u8>, a: int)
    requires
        0 <= a <= s.len(),
    ensures
        a <= word_end(s, a) <= s.len(),
        a < s.len() && ws_len(s, a) == 0 ==> a < word_end(s, a),
        word_end(s, a) < s.len() ==> ws_len(s, word_end(s, a)) > 0,
        forall|k: int| a <= k < word_end(s, a) ==> ws_len(s, k) == 0,
    decreases s.len() - a,
{
    if a < s.len() && ws_len(s, a) == 0 {
        lemma_word_end(s, a + 1);
    }
}

/// The words of `s` from index `i` on: the runs of bytes between whitespace
/// characters.
pub open spec fn words_from(s: Seq<u8>, i: int) -> Seq<Seq<u8>>
    decreases s.len() - i,
{
    if i < 0 {
        Seq::empty()
    } else {
        let a = skip_ws(s, i);
        if a >= s.len() {
            Seq::empty()
        } else {
            proof {
                lemma_skip_ws(s, i);
                lemma_word_end(s, a);
            }
            seq![s.subrange(a, word_end(s, a))] + words_from(s, word_end(s, a))
        }
    }
}

/// The words of `s`.
pub open spec fn words(s: Seq<u8>) -> Seq<Seq<u8>> {
    words_from(s, 0)
}

/// A value at most 255 alone on its line (whitespace around it aside).
pub open spec fn palet_of(l: Seq<u8>) -> Option<nat> {
    number_upto(trim(l), 255)
}

/// The palet that line `l` gives, where it gives one.
pub open spec fn palet_value(l: Seq<u8>) -> u8 {
    match palet_of(l) {
        Some(v) => v as u8,
        None => 0,
    }
}

/// The palets that text `t` lists, one per line; none where a line does
/// not hold one.
pub open spec fn palets_text(t: Seq<u8>) -> Option<Seq<u8>> {
    let ls = lines(t);
    if forall|k: int| 0 <= k < ls.len() ==> #[trigger] palet_of(ls[k]) is Some {
        Some(Seq::new(ls.len(), |k: int| palet_value(ls[k])))
    } else {
        None
    }
}

/// The entry that word `w` writes, where it writes one that fits a `usize`.
pub open spec fn entry_value(w: Seq<u8>) -> usize {
    match number_upto(w, usize::MAX as nat) {
        Some(v) => v as usize,
        None => 0,
    }
}

/// The row of entries that line `l` lists; none where a word of it is not a
/// number that fits a `usize`.
pub open spec fn row_of(l: Seq<u8>) -> Option<Seq<usize>> {
    let ws = words(l);
    if forall|k: int| 0 <= k < ws.len() ==> #[trigger] number_upto(ws[k], usize::MAX as nat) is Some {
        Some(Seq::new(ws.len(), |k: int| entry_value(ws[k])))
    } else {
        None
    }
}

/// The row that line `l` gives, where it gives one.
pub open spec fn row_value(l: Seq<u8>) -> Seq<usize> {
    match row_of(l) {
        Some(r) => r,
        None => Seq::empty(),
    }
}

/// The cost matrix that text `t` lists, one row per line; none where a
/// line does not give a row.
pub open spec fn costs_text(t: Seq<u8>) -> Option<Seq<Seq<usize>>> {
    let ls = lines(t);
    if forall|k: int| 0 <= k < ls.len() ==> #[trigger] row_of(ls[k]) is Some {
        Some(Seq::new(ls.len(), |k: int| row_value(ls[k])))
    } else {
        None
    }
}

/// A number never writes less than the first digits of it do.
proof fn lemma_dec_prefix(d: Seq<u8>, n: int)
    requires
        0 <= n <= d.len(),
    ensures
        dec_value(d.take(n)) <= dec_value(d),
    decreases d.len(),
{
    if n < d.len() {
        lemma_dec_prefix(d.drop_last(), n);
        assert(d.drop_last().take(n) =~= d.take(n));
    } else {
        assert(d.take(n) =~= d);
    }
}

/// Whether `b` is ASCII whitespace.
fn is_ws_byte(b: u8) -> (r: bool)
    ensures
        r == is_ws(b),
{
    b == 32 || (9 <= b && b <= 13)
}

/// Whether the two bytes form a two-byte whitespace character.
fn is_ws2(b0: u8, b1: u8) -> (r: bool)
    ensures
        r == ws2(b0, b1),
{
    b0 == 0xC2 && (b1 == 0x85 || b1 == 0xA0)
}

/// Whether the three bytes form a three-byte whitespace character.
fn is_ws3(b0: u8, b1: u8, b2: u8) -> (r: bool)
    ensures
        r == ws3(b0, b1, b2),
{
    (b0 == 0xE1 && b1 == 0x9A && b2 == 0x80) || (b0 == 0xE2 && b1 == 0x80 && ((0x80 <= b2 && b2 <= 0x8A) || b2
        == 0xA8 || b2 == 0xA9 || b2 == 0xAF)) || (b0 == 0xE2 && b1 == 0x81 && b2 == 0x9F) || (b0 == 0xE3 && b1
        == 0x80 && b2 == 0x80)
}

/// Length of the whitespace character that starts at `i` in `s[..n]`, or 0.
fn ws_len_at(s: &Vec<u8>, i: usize, n: usize) -> (r: usize)
    requires
        i <= n <= s@.len(),
    ensures
        r == ws_len(s@.subrange(0, n as int), i as int),
        r <= n - i,
{
    let ghost t = s@.subrange(0, n as int);
    if i < n && is_ws_byte(s[i]) {
        1
    } else if n - i > 1 && is_ws2(s[i], s[i + 1]) {
        2
    } else if n - i > 2 && is_ws3(s[i], s[i + 1], s[i + 2]) {
        3
    } else {
        0
    }
}

/// Length of the whitespace character that `s[a..b]` ends with, or 0.
fn ws_end_at(s: &Vec<u8>, a: usize, b: usize) -> (r: usize)
    requires
        a <= b <= s@.len(),
    ensures
        r == ws_end(s@.subrange(a as int, b as int)),
        r <= b - a,
{
    let ghost t = s@.subrange(a as int, b as int);
    if b - a >= 3 && is_ws3(s[b - 3], s[b - 2], s[b - 1]) {
        proof {
            assert(t[t.len() - 3] == s@[b - 3] && t[t.len() - 2] == s@[b - 2] && t[t.len() - 1] == s@[b - 1]);
        }
        3
    } else if b - a >= 2 && is_ws2(s[b - 2], s[b - 1]) {
        proof {
            assert(t[t.len() - 2] == s@[b - 2] && t[t.len() - 1] == s@[b - 1]);
            if t.len() >= 3 {
                assert(t[t.len() - 3] == s@[b - 3]);
            }
        }
        2
    } else if b - a >= 1 && is_ws_byte(s[b - 1]) {
        proof {
            assert(t[t.len() - 1] == s@[b - 1]);
            if t.len() >= 3 {
                assert(t[t.len() - 3] == s@[b - 3] && t[t.len() - 2] == s@[b - 2]);
            } else if t.len() >= 2 {
                assert(t[t.len() - 2] == s@[b - 2]);
            }
        }
        1
    } else {
        proof {
            if t.len() >= 3 {
                assert(t[t.len() - 3] == s@[b - 3] && t[t.len() - 2] == s@[b - 2] && t[t.len() - 1] == s@[b - 1]);
            } else if t.len() >= 2 {
                assert(t[t.len() - 2] == s@[b - 2] && t[t.len() - 1] == s@[b - 1]);
            } else if t.len() >= 1 {
                assert(t[t.len() - 1] == s@[b - 1]);
            }
        }
        0
    }
}

/// The bytes `t[i..j]`.
fn piece(t: &[u8], i: usize, j: usize) -> (v: Vec<u8>)
    requires
        i <= j <= t@.len(),
    ensures
        v@ == t@.subrange(i as int, j as int),
{
    let mut v: Vec<u8> = Vec::new();
    let mut k = i;
    while k < j
        invariant
            i <= k <= j <= t@.len(),
            v@ == t@.subrange(i as int, k as int),
        decreases j - k,
    {
        v.push(t[k]);
        k = k + 1;
        proof {
            assert(v@ =~= t@.subrange(i as int, k as int));
        }
    }
    v
}

/// Index of the first line feed at or after `i`, or the length of `t`.
fn line_end(t: &[u8], i: usize) -> (j: usize)
    requires
        i <= t@.len(),
    ensures
        j == nl_from(t@, i as int),
{
    let mut j = i;
    while j < t.len() && t[j] != 10
        invariant
            i <= j <= t@.len(),
            nl_from(t@, i as int) == nl_from(t@, j as int),
        decreases t@.len() - j,
    {
        j = j + 1;
    }
    j
}

/// The whitespace character at index `a` of `s` is the one that the rest of
/// `s` from `a` starts with.
proof fn lemma_ws_len_shift(s: Seq<u8>, a: int)
    requires
        0 <= a <= s.len(),
    ensures
        ws_len(s.subrange(a, s.len() as int), 0) == ws_len(s, a),
{
    let t = s.subrange(a, s.len() as int);
    if a < s.len() {
        assert(t[0] == s[a]);
    }
    if a + 1 < s.len() {
        assert(t[1] == s[a + 1]);
    }
    if a + 2 < s.len() {
        assert(t[2] == s[a + 2]);
    }
}

/// Bounds of `s` without its leading and trailing whitespace.
fn trim_bounds(s: &Vec<u8>) -> (r: (usize, usize))
    ensures
        r.0 <= r.1 <= s@.len(),
        s@.subrange(r.0 as int, r.1 as int) == trim(s@),
{
    let n = s.len();
    let mut a: usize = 0;
    proof {
        assert(s@.subrange(0, n as int) =~= s@);
    }
    while a < n && ws_len_at(s, a, n) > 0
        invariant
            a <= n == s@.len(),
            s@.subrange(0, n as int) == s@,
            trim_start(s@) == trim_start(s@.subrange(a as int, n as int)),
        decreases n - a,
    {
        let w = ws_len_at(s, a, n);
        proof {
            lemma_ws_len_shift(s@, a as int);
            assert(s@.subrange(a as int, n as int).skip(w as int) =~= s@.subrange(a + w, n as int));
        }
        a = a + w;
    }
    proof {
        lemma_ws_len_shift(s@, a as int);
    }
    let mut b: usize = n;
    while b > a && ws_end_at(s, a, b) > 0
        invariant
            a <= b <= n == s@.len(),
            trim(s@) == trim_end(s@.subrange(a as int, b as int)),
        decreases b - a,
    {
        let w = ws_end_at(s, a, b);
        proof {
            assert(s@.subrange(a as int, b as int).take(b - a - w) =~= s@.subrange(a as int, b - w));
        }
        b = b - w;
    }
    (a, b)
}

/// The number that `s[lo..hi]` writes, where it is at most `max`.
fn parse_number(s: &Vec<u8>, lo: usize, hi: usize, max: usize) -> (r: Option<usize>)
    requires
        lo <= hi <= s@.len(),
    ensures
        number_upto(s@.subrange(lo as int, hi as int), max as nat) is None ==> r is None,
        number_upto(s@.subrange(lo as int, hi as int), max as nat) matches Some(v) ==> r == Some(v as usize),
{
    let ghost x = s@.subrange(lo as int, hi as int);
    let mut k = lo;
    if k < hi && s[k] == 43 {
        k = k + 1;
    }
    let st = k;
    let ghost d = s@.subrange(st as int, hi as int);
    proof {
        if x.len() > 0 && x[0] == 43 {
            assert(x.drop_first() =~= d);
        } else {
            assert(x =~= d);
        }
    }
    if k == hi {
        return None;
    }
    let mut v: usize = 0;
    proof {
        assert(s@.subrange(st as int, st as int) =~= Seq::<u8>::empty());
    }
    while k < hi
        invariant
            st <= k <= hi <= s@.len(),
            d == s@.subrange(st as int, hi as int),
            x == s@.subrange(lo as int, hi as int),
            number(x) == if d.len() > 0 && all_digits(d) {
                Some(dec_value(d))
            } else {
                None
            },
            v <= max,
            all_digits(s@.subrange(st as int, k as int)),
            v == dec_value(s@.subrange(st as int, k as int)),
        decreases hi - k,
    {
        let b = s[k];
        proof {
            assert(d[k - st] == b);
        }
        if b < 48 || b > 57 {
            proof {
                assert(!is_digit(d[k - st]));
                assert(!all_digits(d));
            }
            return None;
        }
        let dg = (b - 48) as usize;
        let ghost next = s@.subrange(st as int, k + 1);
        proof {
            assert(next.drop_last() =~= s@.subrange(st as int, k as int));
            assert(dec_value(next) == v * 10 + dg);
            assert(next =~= d.take(k + 1 - st));
            if all_digits(d) {
                lemma_dec_prefix(d, k + 1 - st);
            }
        }
        if dg > max || v > (max - dg) / 10 {
            proof {
                assert(v * 10 + dg > max) by (nonlinear_arith)
                    requires
                        dg > max || v > (max - dg) / 10,
                        dg <= 9,
                ;
                if all_digits(d) {
                    assert(dec_value(d) > max);
                }
            }
            return None;
        }
        proof {
            assert(v * 10 + dg <= max) by (nonlinear_arith)
                requires
                    dg <= max,
                    v <= (max - dg) / 10,
            ;
        }
        v = v * 10 + dg;
        k = k + 1;
    }
    proof {
        assert(s@.subrange(st as int, hi as int) =~= d);
    }
    Some(v)
}

/// Index of the first byte at or after `i` that does not start a whitespace
/// character, or the length of `s`.
fn skip_ws_at(s: &Vec<u8>, i: usize) -> (a: usize)
    requires
        i <= s@.len(),
    ensures
        a == skip_ws(s@, i as int),
{
    let n = s.len();
    proof {
        assert(s@.subrange(0, n as int) =~= s@);
    }
    let mut a = i;
    while a < n && ws_len_at(s, a, n) > 0
        invariant
            i <= a <= s@.len(),
            n == s@.len(),
            s@.subrange(0, n as int) == s@,
            skip_ws(s@, i as int) == skip_ws(s@, a as int),
        decreases s@.len() - a,
    {
        a = a + ws_len_at(s, a, n);
    }
    a
}

/// Index of the first byte at or after `a` that starts a whitespace
/// character, or the length of `s`.
fn word_end_at(s: &Vec<u8>, a: usize) -> (e: usize)
    requires
        a <= s@.len(),
    ensures
        e == word_end(s@, a as int),
{
    let n = s.len();
    proof {
        assert(s@.subrange(0, n as int) =~= s@);
    }
    let mut e = a;
    while e < n && ws_len_at(s, e, n) == 0
        invariant
            a <= e <= s@.len(),
            n == s@.len(),
            s@.subrange(0, n as int) == s@,
            word_end(s@, a as int) == word_end(s@, e as int),
        decreases s@.len() - e,
    {
        e = e + 1;
    }
    e
}

/// The palets that `text` lists, one per line; `None` where a line does not
/// hold a number from 0 to 255 (whitespace around it aside).
pub fn parse_palets(text: &[u8]) -> (r: Option<Palets>)
    ensures
        palets_text(text@) is None ==> r is None,
        palets_text(text@) matches Some(ps) ==> r matches Some(v) && v@ == ps,
{
    let mut out: Vec<u8> = Vec::new();
    let mut i: usize = 0;
    let ghost mut done: Seq<Seq<u8>> = Seq::empty();
    while i < text.len()
        invariant
            i <= text@.len(),
            lines(text@) == done + lines_from(text@, i as int),
            out@.len() == done.len(),
            forall|k: int| 0 <= k < done.len() ==> #[trigger] palet_of(done[k]) is Some && out@[k] == palet_value(done[k]),
        decreases text@.len() - i,
    {
        let j = line_end(text, i);
        proof {
            lemma_nl_from(text@, i as int);
        }
        let line = piece(text, i, j);
        let (a, b) = trim_bounds(&line);
        let ghost rest = lines_from(text@, i as int);
        proof {
            assert(rest[0] == line@);
            assert(lines(text@)[done.len() as int] == line@);
        }
        match parse_number(&line, a, b, 255) {
            None => {
                proof {
                    assert(palet_of(lines(text@)[done.len() as int]) is None);
                }
                return None;
            },
            Some(v) => {
                out.push(v as u8);
            },
        }
        proof {
            done = done.push(line@);
        }
        if j < text.len() {
            i = j + 1;
        } else {
            i = text.len();
        }
        proof {
            assert(lines(text@) =~= done + lines_from(text@, i as int));
        }
    }
    proof {
        assert(lines_from(text@, i as int) =~= Seq::<Seq<u8>>::empty());
        assert(lines(text@) =~= done);
        assert(out@ =~= Seq::new(done.len(), |k: int| palet_value(done[k])));
    }
    Some(out)
}

/// The row of entries that `line` lists, as `row_of` states.
fn parse_row(line: &Vec<u8>) -> (r: Option<Vec<usize>>)
    ensures
        row_of(line@) is None ==> r is None,
        row_of(line@) matches Some(row) ==> r matches Some(v) && v@ == row,
{
    let n = line.len();
    let mut out: Vec<usize> = Vec::new();
    let mut p: usize = 0;
    let ghost mut done: Seq<Seq<u8>> = Seq::empty();
    while p < n
        invariant
            p <= n == line@.len(),
            words(line@) == done + words_from(line@, p as int),
            out@.len() == done.len(),
            forall|k: int|
                0 <= k < done.len() ==> #[trigger] number_upto(done[k], usize::MAX as nat) is Some && out@[k]
                    == entry_value(done[k]),
        decreases n - p,
    {
        let a = skip_ws_at(line, p);
        proof {
            lemma_skip_ws(line@, p as int);
        }
        if a >= n {
            proof {
                assert(words_from(line@, p as int) =~= Seq::<Seq<u8>>::empty());
                assert(words_from(line@, n as int) =~= Seq::<Seq<u8>>::empty());
            }
            p = n;
        } else {
            let e = word_end_at(line, a);
            proof {
                lemma_word_end(line@, a as int);
                assert(words_from(line@, p as int)[0] == line@.subrange(a as int, e as int));
                assert(words(line@)[done.len() as int] == line@.subrange(a as int, e as int));
            }
            match parse_number(line, a, e, usize::MAX) {
                None => {
                    proof {
                        assert(number_upto(words(line@)[done.len() as int], usize::MAX as nat) is None);
                    }
                    return None;
                },
                Some(v) => {
                    out.push(v);
                },
            }
            proof {
                done = done.push(line@.subrange(a as int, e as int));
                assert(words(line@) =~= done + words_from(line@, e as int));
            }
            p = e;
        }
    }
    proof {
        assert(words_from(line@, p as int) =~= Seq::<Seq<u8>>::empty());
        assert(words(line@) =~= done);
        assert(out@ =~= Seq::new(done.len(), |k: int| entry_value(done[k])));
    }
    Some(out)
}

/// The cost matrix that `text` lists, one row per line, entries apart by
/// whitespace; `None` where an entry is not a number that fits a `usize`.
pub fn parse_distances(text: &[u8]) -> (r: Option<Costs>)
    ensures
        costs_text(text@) is None ==> r is None,
        costs_text(text@) matches Some(m) ==> r matches Some(v) && v@.len() == m.len() && forall|k: int|
            0 <= k < m.len() ==> (#[trigger] v@[k])@ == m[k],
{
    let mut out: Vec<Vec<usize>> = Vec::new();
    let mut i: usize = 0;
    let ghost mut done: Seq<Seq<u8>> = Seq::empty();
    while i < text.len()
        invariant
            i <= text@.len(),
            lines(text@) == done + lines_from(text@, i as int),
            out@.len() == done.len(),
            forall|k: int| 0 <= k < done.len() ==> #[trigger] row_of(done[k]) is Some && out@[k]@ == row_value(done[k]),
        decreases text@.len() - i,
    {
        let j = line_end(text, i);
        proof {
            lemma_nl_from(text@, i as int);
        }
        let line = piece(text, i, j);
        let ghost rest = lines_from(text@, i as int);
        proof {
            assert(rest[0] == line@);
            assert(lines(text@)[done.len() as int] == line@);
        }
        match parse_row(&line) {
            None => {
                proof {
                    assert(row_of(lines(text@)[done.len() as int]) is None);
                }
                return None;
            },
            Some(row) => {
                out.push(row);
            },
        }
        proof {
            done = done.push(line@);
        }
        if j < text.len() {
            i = j + 1;
        } else {
            i = text.len();
        }
        proof {
            assert(lines(text@) =~= done + lines_from(text@, i as int));
        }
    }
    proof {
        assert(lines_from(text@, i as int) =~= Seq::<Seq<u8>>::empty());
        assert(lines(text@) =~= done);
    }
    Some(out)
}

} // verus!
