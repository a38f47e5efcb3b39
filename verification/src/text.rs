//! Reading numbers and words out of text: whitespace-separated words,
//! decimal and hexadecimal bytes, as the standard library reads them.

use vstd::prelude::*;

verus! {

/// `char::is_whitespace`: the characters with the Unicode White_Space property.
pub open spec fn is_white(c: char) -> bool {
    let u = c as u32;
    ||| 0x09 <= u <= 0x0D
    ||| u == 0x20
    ||| u == 0x85
    ||| u == 0xA0
    ||| u == 0x1680
    ||| 0x2000 <= u <= 0x200A
    ||| u == 0x2028
    ||| u == 0x2029
    ||| u == 0x202F
    ||| u == 0x205F
    ||| u == 0x3000
}

pub fn char_is_white(c: char) -> (r: bool)
    ensures
        r == is_white(c),
{
    let u = c as u32;
    (0x09 <= u && u <= 0x0D) || u == 0x20 || u == 0x85 || u == 0xA0 || u == 0x1680 || (0x2000
        <= u && u <= 0x200A) || u == 0x2028 || u == 0x2029 || u == 0x202F || u == 0x205F || u
        == 0x3000
}

/// Scanning `s` left to right: the words finished so far, and the word under way.
pub open spec fn scan_words(s: Seq<char>) -> (Seq<Seq<char>>, Seq<char>)
    decreases s.len(),
{
    if s.len() == 0 {
        (Seq::empty(), Seq::empty())
    } else {
        let (done, cur) = scan_words(s.drop_last());
        let c = s.last();
        if is_white(c) {
            if cur.len() > 0 {
                (done.push(cur), Seq::empty())
            } else {
                (done, Seq::empty())
            }
        } else {
            (done, cur.push(c))
        }
    }
}

/// `str::split_whitespace`: the maximal runs of non-white characters of `s`.
pub open spec fn words(s: Seq<char>) -> Seq<Seq<char>> {
    let (done, cur) = scan_words(s);
    if cur.len() > 0 {
        done.push(cur)
    } else {
        done
    }
}

/// The characters of `s` that are not white space, in order.
pub open spec fn non_white(s: Seq<char>) -> Seq<char>
    decreases s.len(),
{
    if s.len() == 0 {
        Seq::empty()
    } else if is_white(s.last()) {
        non_white(s.drop_last())
    } else {
        non_white(s.drop_last()).push(s.last())
    }
}

/// The words `ws` written one after the other.
pub open spec fn joined_words(ws: Seq<Seq<char>>) -> Seq<char>
    decreases ws.len(),
{
    if ws.len() == 0 {
        Seq::empty()
    } else {
        joined_words(ws.drop_last()) + ws.last()
    }
}

/// Each word is a run of characters none of which is white space.
pub open spec fn solid_words(ws: Seq<Seq<char>>) -> bool {
    forall|i: int|
        0 <= i < ws.len() ==> (#[trigger] ws[i]).len() > 0 && forall|k: int|
            0 <= k < ws[i].len() ==> !is_white(#[trigger] ws[i][k])
}

proof fn lemma_scan_words(s: Seq<char>)
    ensures
        ({
            let (done, cur) = scan_words(s);
            &&& solid_words(done)
            &&& forall|k: int| 0 <= k < cur.len() ==> !is_white(#[trigger] cur[k])
            &&& joined_words(done) + cur == non_white(s)
        }),
    decreases s.len(),
{
    if s.len() == 0 {
        assert(joined_words(Seq::<Seq<char>>::empty()) + Seq::<char>::empty() =~= Seq::<
            char,
        >::empty());
    } else {
        lemma_scan_words(s.drop_last());
        let (done0, cur0) = scan_words(s.drop_last());
        let c = s.last();
        if is_white(c) {
            if cur0.len() > 0 {
                let done = done0.push(cur0);
                assert(done.drop_last() =~= done0);
                assert forall|i: int| 0 <= i < done.len() implies (#[trigger] done[i]).len() > 0
                    && forall|k: int| 0 <= k < done[i].len() ==> !is_white(#[trigger] done[i][k]) by {
                    if i < done0.len() {
                        assert(done[i] == done0[i]);
                    }
                }
                assert(joined_words(done) + Seq::<char>::empty() =~= joined_words(done0) + cur0);
            } else {
                assert(joined_words(done0) + Seq::<char>::empty() =~= joined_words(done0) + cur0);
            }
        } else {
            let cur = cur0.push(c);
            assert forall|k: int| 0 <= k < cur.len() implies !is_white(#[trigger] cur[k]) by {
                if k < cur0.len() {
                    assert(cur[k] == cur0[k]);
                }
            }
            assert(joined_words(done0) + cur =~= (joined_words(done0) + cur0).push(c));
        }
    }
}

/// Splitting text into words loses no character but white space and adds
/// none: the words, written one after the other, are the text's characters
/// that are not white space; and each word is a non-empty run of characters
/// none of which is white space.
pub proof fn law_words(s: Seq<char>)
    ensures
        solid_words(words(s)),
        joined_words(words(s)) == non_white(s),
{
    lemma_scan_words(s);
    let (done, cur) = scan_words(s);
    if cur.len() > 0 {
        let ws = done.push(cur);
        assert(ws.drop_last() =~= done);
        assert forall|i: int| 0 <= i < ws.len() implies (#[trigger] ws[i]).len() > 0 && forall|
            k: int,
        | 0 <= k < ws[i].len() ==> !is_white(#[trigger] ws[i][k]) by {
            if i < done.len() {
                assert(ws[i] == done[i]);
            }
        }
    } else {
        assert(joined_words(done) + cur =~= joined_words(done));
    }
}

/// The characters of `s`.
pub fn chars_of(s: &str) -> (v: Vec<char>)
    ensures
        v@ == s@,
{
    let mut v: Vec<char> = Vec::new();
    for c in it: s.chars()
        invariant
            v@ == it.seq().take(it.index()),
    {
        v.push(c);
    }
    v
}

/// The words of `s`, as `str::split_whitespace` gives them.
pub fn split_words(s: &str) -> (ws: Vec<Vec<char>>)
    ensures
        ws@.map_values(|w: Vec<char>| w@) == words(s@),
{
    let cs = chars_of(s);
    let mut done: Vec<Vec<char>> = Vec::new();
    let mut cur: Vec<char> = Vec::new();
    let mut i: usize = 0;
    while i < cs.len()
        invariant
            i <= cs@.len(),
            cs@ == s@,
            (done@.map_values(|w: Vec<char>| w@), cur@) == scan_words(cs@.take(i as int)),
        decreases cs@.len() - i,
    {
        let c = cs[i];
        proof {
            assert(cs@.take(i as int + 1).drop_last() =~= cs@.take(i as int));
        }
        let ghost d0 = done@.map_values(|w: Vec<char>| w@);
        if char_is_white(c) {
            if cur.len() > 0 {
                let w = cur;
                let ghost wv = w@;
                done.push(w);
                assert(done@.map_values(|w: Vec<char>| w@) =~= d0.push(wv));
                cur = Vec::new();
            } else {
                cur = Vec::new();
            }
            assert(cur@ =~= Seq::<char>::empty());
        } else {
            cur.push(c);
        }
        i = i + 1;
    }
    proof {
        assert(cs@.take(cs@.len() as int) =~= cs@);
    }
    if cur.len() > 0 {
        let ghost d0 = done@.map_values(|w: Vec<char>| w@);
        let ghost wv = cur@;
        done.push(cur);
        assert(done@.map_values(|w: Vec<char>| w@) =~= d0.push(wv));
    }
    done
}

/// Whether `c` is an ASCII digit of base `radix` (at most 36).
pub open spec fn is_digit(c: u32, radix: u32) -> bool {
    ||| (48 <= c <= 57 && c - 48 < radix)
    ||| (radix > 10 && 97 <= c < 97 + radix - 10)
    ||| (radix > 10 && 65 <= c < 65 + radix - 10)
}

/// The value of the digit `c`.
pub open spec fn digit_value(c: u32) -> int {
    if 48 <= c <= 57 {
        c - 48
    } else if 97 <= c {
        c - 97 + 10
    } else {
        c - 65 + 10
    }
}

/// The number written by the digits `d` in base `radix`.
pub open spec fn digits_value(d: Seq<u32>, radix: u32) -> int
    decreases d.len(),
{
    if d.len() == 0 {
        0
    } else {
        digits_value(d.drop_last(), radix) * radix + digit_value(d.last())
    }
}

/// The code points `s` without a leading `+`.
pub open spec fn unsigned_digits(s: Seq<u32>) -> Seq<u32> {
    if s[0] == 43 {
        s.drop_first()
    } else {
        s
    }
}

/// Every code point of `d` is a digit of base `radix`.
pub open spec fn all_digits(d: Seq<u32>, radix: u32) -> bool {
    forall|i: int| 0 <= i < d.len() ==> is_digit(#[trigger] d[i], radix)
}

/// `u8::from_str_radix` on the code points `s`: an optional `+`, then one or
/// more digits of base `radix`, of value at most 255.
pub open spec fn parse_u8_radix(s: Seq<u32>, radix: u32) -> Option<u8> {
    if s.len() == 0 {
        None
    } else if s.len() == 1 && (s[0] == 43 || s[0] == 45) {
        None
    } else {
        let d = unsigned_digits(s);
        if all_digits(d, radix) && digits_value(d, radix) <= 255 {
            Some(digits_value(d, radix) as u8)
        } else {
            None
        }
    }
}

proof fn lemma_digits_value_grows(d: Seq<u32>, radix: u32, k: int)
    requires
        2 <= radix <= 36,
        0 <= k <= d.len(),
        forall|i: int| 0 <= i < d.len() ==> is_digit(#[trigger] d[i], radix),
    ensures
        digits_value(d.take(k), radix) <= digits_value(d, radix),
        0 <= digits_value(d.take(k), radix),
    decreases d.len() - k,
{
    lemma_digits_value_nonneg(d.take(k), radix);
    if k < d.len() {
        lemma_digits_value_grows(d, radix, k + 1);
        assert(d.take(k + 1).drop_last() =~= d.take(k));
        assert(0 <= digit_value(d[k]));
        assert(digits_value(d.take(k), radix) <= digits_value(d.take(k), radix) * radix) by (nonlinear_arith)
            requires 0 <= digits_value(d.take(k), radix), radix >= 2;
    } else {
        assert(d.take(k) =~= d);
        lemma_digits_value_nonneg(d, radix);
    }
}

proof fn lemma_digits_value_nonneg(d: Seq<u32>, radix: u32)
    requires
        2 <= radix <= 36,
        forall|i: int| 0 <= i < d.len() ==> is_digit(#[trigger] d[i], radix),
    ensures
        0 <= digits_value(d, radix),
    decreases d.len(),
{
    if d.len() > 0 {
        lemma_digits_value_nonneg(d.drop_last(), radix);
        assert(0 <= digit_value(d.last()));
        assert(0 <= digits_value(d.drop_last(), radix) * radix) by (nonlinear_arith)
            requires 0 <= digits_value(d.drop_last(), radix), radix >= 2;
    }
}

/// The decimal digits of `n`, most significant first, as code points.
pub open spec fn decimal(n: nat) -> Seq<u32>
    decreases n,
{
    if n < 10 {
        seq![(48 + n) as u32]
    } else {
        decimal(n / 10).push((48 + n % 10) as u32)
    }
}

proof fn lemma_decimal(n: nat)
    ensures
        decimal(n).len() > 0,
        48 <= decimal(n)[0] <= 57,
        all_digits(decimal(n), 10),
        digits_value(decimal(n), 10) == n,
    decreases n,
{
    if n < 10 {
        let t = decimal(n);
        assert(t.drop_last() =~= Seq::<u32>::empty());
        assert(digits_value(t, 10) == digits_value(t.drop_last(), 10) * 10 + digit_value(
            t.last(),
        ));
    } else {
        lemma_decimal(n / 10);
        let s = decimal(n / 10);
        let t = decimal(n);
        assert(t.drop_last() =~= s);
        assert(t[0] == s[0]);
        assert(digit_value(t.last()) == n % 10);
        assert(n == (n / 10) * 10 + n % 10);
        assert(digits_value(t, 10) == digits_value(t.drop_last(), 10) * 10 + digit_value(
            t.last(),
        ));
        assert(digits_value(s, 10) == n / 10);
        assert forall|i: int| 0 <= i < t.len() implies is_digit(#[trigger] t[i], 10) by {
            if i < t.len() - 1 {
                assert(t[i] == s[i]);
            }
        }
    }
}

/// A byte written in decimal reads as that byte, with a leading plus as well;
/// a leading minus is refused, and so is a number above 255.
pub proof fn law_decimal_bytes(n: nat)
    ensures
        n <= 255 ==> parse_u8_radix(decimal(n), 10) == Some(n as u8),
        n <= 255 ==> parse_u8_radix(seq![43u32] + decimal(n), 10) == Some(n as u8),
        parse_u8_radix(seq![45u32] + decimal(n), 10) is None,
        n > 255 ==> parse_u8_radix(decimal(n), 10) is None,
{
    lemma_decimal(n);
    let d = decimal(n);
    assert(unsigned_digits(d) == d);
    let plus = seq![43u32] + d;
    assert(plus.len() >= 2);
    assert(unsigned_digits(plus) =~= d);
    let minus = seq![45u32] + d;
    assert(unsigned_digits(minus) == minus);
    assert(!is_digit(minus[0], 10));
}

/// The hexadecimal digit of `d` (below 16), in upper or lower case.
pub open spec fn hex_digit(d: nat, upper: bool) -> u32 {
    if d < 10 {
        (48 + d) as u32
    } else if upper {
        (65 + d - 10) as u32
    } else {
        (97 + d - 10) as u32
    }
}

/// Two hexadecimal digits, in either case, read as the byte `16 * hi + lo`.
pub proof fn law_hex_pairs(hi: nat, lo: nat, upper: bool)
    requires
        hi < 16,
        lo < 16,
    ensures
        parse_u8_radix(seq![hex_digit(hi, upper), hex_digit(lo, upper)], 16) == Some(
            (16 * hi + lo) as u8,
        ),
{
    let s = seq![hex_digit(hi, upper), hex_digit(lo, upper)];
    assert(unsigned_digits(s) == s);
    assert(s.drop_last() =~= seq![hex_digit(hi, upper)]);
    assert(s.drop_last().drop_last() =~= Seq::<u32>::empty());
    assert(seq![hex_digit(hi, upper)].drop_last() =~= Seq::<u32>::empty());
    assert(digit_value(s[0]) == hi);
    assert(digit_value(s[1]) == lo);
    assert(digits_value(Seq::<u32>::empty(), 16) == 0);
    assert(digits_value(seq![hex_digit(hi, upper)], 16) == digits_value(Seq::<u32>::empty(), 16)
        * 16 + digit_value(hex_digit(hi, upper)));
    assert(digits_value(seq![hex_digit(hi, upper)], 16) == hi);
    assert(digits_value(s, 16) == digits_value(s.drop_last(), 16) * 16 + digit_value(s.last()));
    assert(digits_value(s, 16) == 16 * hi + lo);
    assert(all_digits(s, 16));
}

/// `u8::from_str_radix(s, radix)` for the code points `s`.
pub fn parse_u8_codes(s: &Vec<u32>, radix: u32) -> (r: Option<u8>)
    requires
        2 <= radix <= 36,
    ensures
        r == parse_u8_radix(s@, radix),
{
    if s.len() == 0 {
        return None;
    }
    if s.len() == 1 && (s[0] == 43 || s[0] == 45) {
        return None;
    }
    let start: usize = if s[0] == 43 {
        1
    } else {
        0
    };
    let ghost d = if s@[0] == 43 {
        s@.drop_first()
    } else {
        s@
    };
    assert(d =~= s@.subrange(start as int, s@.len() as int));
    let mut acc: u32 = 0;
    let mut i: usize = start;
    let mut ok = true;
    while i < s.len()
        invariant
            start <= i <= s@.len(),
            d == s@.subrange(start as int, s@.len() as int),
            s@.len() > 0,
            !(s@.len() == 1 && (s@[0] == 43 || s@[0] == 45)),
            d == unsigned_digits(s@),
            2 <= radix <= 36,
            ok ==> (forall|j: int| 0 <= j < i - start ==> is_digit(#[trigger] d[j], radix)),
            ok ==> acc == digits_value(d.take(i - start), radix),
            ok ==> acc <= 255,
            !ok ==> parse_u8_radix(s@, radix) is None,
        decreases s@.len() - i,
    {
        let c = s[i];
        let ghost k = i - start;
        if ok {
            proof {
                assert(d[k] == c);
                assert(d.take(k + 1).drop_last() =~= d.take(k));
            }
            let v: u32 = if 48 <= c && c <= 57 {
                c - 48
            } else if 97 <= c && c <= 122 {
                c - 97 + 10
            } else if 65 <= c && c <= 90 {
                c - 65 + 10
            } else {
                99
            };
            if v >= radix {
                proof {
                    assert(!is_digit(d[k], radix));
                    assert(parse_u8_radix(s@, radix) is None);
                }
                ok = false;
            } else {
                assert(acc * radix <= 255 * 36) by (nonlinear_arith)
                    requires
                        acc <= 255,
                        radix <= 36,
                ;
                let next = acc * radix + v;
                proof {
                    assert(is_digit(d[k], radix));
                    assert(digit_value(d[k]) == v);
                    assert(digits_value(d.take(k + 1), radix) == acc * radix + v);
                }
                if next > 255 {
                    proof {
                        if all_digits(d, radix) {
                            lemma_digits_value_grows(d, radix, k + 1);
                        }
                        assert(parse_u8_radix(s@, radix) is None);
                    }
                    ok = false;
                } else {
                    acc = next;
                }
            }
        }
        i = i + 1;
    }
    if ok {
        proof {
            assert(d.take(s@.len() - start) =~= d);
        }
        Some(acc as u8)
    } else {
        None
    }
}

/// The code points of the characters `s`.
pub open spec fn codes_of(s: Seq<char>) -> Seq<u32> {
    s.map_values(|c: char| c as u32)
}

/// `str::parse::<u8>` on the characters `s`.
pub fn parse_u8(s: &Vec<char>) -> (r: Option<u8>)
    ensures
        r == parse_u8_radix(codes_of(s@), 10),
{
    let mut codes: Vec<u32> = Vec::new();
    let mut i: usize = 0;
    while i < s.len()
        invariant
            i <= s@.len(),
            codes@ == codes_of(s@.take(i as int)),
        decreases s@.len() - i,
    {
        codes.push(s[i] as u32);
        i = i + 1;
        assert(codes@ =~= codes_of(s@.take(i as int)));
    }
    assert(s@.take(s@.len() as int) =~= s@);
    parse_u8_codes(&codes, 10)
}

/// Whether the characters `w` spell `lit`.
pub fn spells(w: &Vec<char>, lit: &str) -> (r: bool)
    ensures
        r == (w@ == lit@),
{
    let l = chars_of(lit);
    if w.len() != l.len() {
        return false;
    }
    let mut i: usize = 0;
    while i < w.len()
        invariant
            i <= w@.len(),
            w@.len() == l@.len(),
            l@ == lit@,
            forall|j: int| 0 <= j < i ==> w@[j] == l@[j],
        decreases w@.len() - i,
    {
        if w[i] != l[i] {
            return false;
        }
        i = i + 1;
    }
    assert(w@ =~= l@);
    true
}

} // verus!
