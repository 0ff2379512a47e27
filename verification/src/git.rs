//! The remote-origin URL and its rewriting into an http form. Running
//! git itself is the caller's step; the rewriting is all here.

use vstd::prelude::*;

verus! {

use crate::checksums::find_char;
use crate::checksums::lemma_find_char_bounds;
use crate::checksums::no_char;

/// The sequence begins with the given prefix.
pub open spec fn has_prefix(s: Seq<char>, p: Seq<char>) -> bool {
    p.len() <= s.len() && s.take(p.len() as int) == p
}

/// The sequence holds the given subsequence somewhere.
pub open spec fn contains_seq(s: Seq<char>, p: Seq<char>) -> bool {
    exists|i: int|
        0 <= i && i + p.len() <= s.len() && #[trigger] s.subrange(i, i + p.len() as int) == p
}

/// The sequence with its first occurrence of `c`, if any, replaced by `d`.
pub open spec fn replace_first(s: Seq<char>, c: char, d: char) -> Seq<char> {
    match find_char(s, c) {
        Option::None => s,
        Option::Some(i) => s.update(i, d),
    }
}

/// Decides whether `s` begins with `p`.
pub fn str_has_prefix(s: &str, p: &str) -> (r: bool)
    ensures
        r == has_prefix(s@, p@),
{
    let slen = s.unicode_len();
    let plen = p.unicode_len();
    if plen > slen {
        return false;
    }
    let mut j: usize = 0;
    #[verifier::loop_isolation(false)]
    loop
        invariant
            j <= plen,
            plen <= slen,
            forall|k: int| 0 <= k < j ==> s@[k] == p@[k],
        decreases plen - j,
    {
        if j >= plen {
            proof {
                assert(s@.take(plen as int) =~= p@);
            }
            return true;
        }
        if s.get_char(j) != p.get_char(j) {
            proof {
                assert(s@.take(plen as int)[j as int] == s@[j as int]);
            }
            return false;
        }
        j += 1;
    }
}

/// Decides whether `s` begins with `p` at position `i`.
fn str_matches_at(s: &str, p: &str, i: usize) -> (r: bool)
    requires
        i + p@.len() <= s@.len(),
    ensures
        r == (s@.subrange(i as int, i as int + p@.len() as int) == p@),
{
    let slen = s.unicode_len();
    let plen = p.unicode_len();
    let mut j: usize = 0;
    #[verifier::loop_isolation(false)]
    loop
        invariant
            j <= plen,
            i + plen <= slen,
            forall|k: int| 0 <= k < j ==> s@[i as int + k] == p@[k],
        decreases plen - j,
    {
        if j >= plen {
            proof {
                assert(s@.subrange(i as int, i as int + plen as int) =~= p@);
            }
            return true;
        }
        if s.get_char(i + j) != p.get_char(j) {
            proof {
                assert(s@.subrange(i as int, i as int + plen as int)[j as int] == s@[i as int
                    + j as int]);
            }
            return false;
        }
        j += 1;
    }
}

/// Decides whether `s` holds `p` anywhere.
pub fn str_contains(s: &str, p: &str) -> (r: bool)
    ensures
        r == contains_seq(s@, p@),
{
    let slen = s.unicode_len();
    let plen = p.unicode_len();
    if plen > slen {
        return false;
    }
    if plen == 0 {
        proof {
            assert(s@.subrange(0, 0 + p@.len() as int) =~= p@);
        }
        return true;
    }
    let mut i: usize = 0;
    #[verifier::loop_isolation(false)]
    loop
        invariant
            0 < plen <= slen,
            i <= slen - plen + 1,
            forall|k: int| 0 <= k < i ==> #[trigger] s@.subrange(k, k + p@.len() as int) != p@,
        decreases slen - plen + 1 - i,
    {
        if i > slen - plen {
            proof {
                assert forall|k: int|
                    0 <= k && k + p@.len() <= s@.len() implies #[trigger] s@.subrange(
                    k,
                    k + p@.len() as int,
                ) != p@ by {
                    assert(k < i);
                }
            }
            return false;
        }
        if str_matches_at(s, p, i) {
            proof {
                assert(s@.subrange(i as int, i as int + p@.len() as int) == p@);
            }
            return true;
        }
        i += 1;
    }
}

/// The position of the first occurrence of `c` in `s`, if any.
pub fn str_find_char(s: &str, c: char) -> (r: Option<usize>)
    ensures
        r matches Some(i) ==> find_char(s@, c) == Some(i as int),
        r is None ==> find_char(s@, c) is None,
{
    let slen = s.unicode_len();
    let mut i: usize = 0;
    #[verifier::loop_isolation(false)]
    loop
        invariant
            i <= slen,
            no_char(s@.take(i as int), c),
        decreases slen - i,
    {
        if i >= slen {
            proof {
                assert(s@.take(slen as int) =~= s@);
                crate::checksums::lemma_find_char_none(s@, c);
            }
            return None;
        }
        if s.get_char(i) == c {
            proof {
                assert(s@ =~= s@.take(i as int) + s@.skip(i as int));
                assert(s@.skip(i as int).len() > 0 && s@.skip(i as int)[0] == c);
                crate::checksums::lemma_find_char_concat(s@.take(i as int), s@.skip(i as int), c);
            }
            return Some(i);
        }
        proof {
            assert(s@.take(i as int + 1) =~= s@.take(i as int).push(s@[i as int]));
        }
        i += 1;
    }
}

/// A whitespace character, as line trimming counts it: the Unicode
/// white-space set.
pub open spec fn is_ws_char(c: char) -> bool {
    ('\u{9}' <= c && c <= '\u{d}') || c == ' ' || c == '\u{85}' || c == '\u{a0}' || c == '\u{1680}'
        || ('\u{2000}' <= c && c <= '\u{200a}') || c == '\u{2028}' || c == '\u{2029}' || c
        == '\u{202f}' || c == '\u{205f}' || c == '\u{3000}'
}

/// The sequence without its leading whitespace.
pub open spec fn strip_leading_ws(s: Seq<char>) -> Seq<char>
    decreases s.len(),
{
    if s.len() > 0 && is_ws_char(s[0]) {
        strip_leading_ws(s.drop_first())
    } else {
        s
    }
}

/// The sequence without its trailing whitespace.
pub open spec fn strip_trailing_ws(s: Seq<char>) -> Seq<char>
    decreases s.len(),
{
    if s.len() > 0 && is_ws_char(s.last()) {
        strip_trailing_ws(s.drop_last())
    } else {
        s
    }
}

/// The sequence without its surrounding whitespace.
pub open spec fn trim_ws(s: Seq<char>) -> Seq<char> {
    strip_trailing_ws(strip_leading_ws(s))
}

/// The segments of the sequence between its line breaks; always at
/// least one, and empty lines stay.
pub open spec fn split_lines(s: Seq<char>) -> Seq<Seq<char>>
    decreases s.len(),
    via split_lines_decreases
{
    match find_char(s, '\n') {
        Option::None => seq![s],
        Option::Some(i) => seq![s.take(i)] + split_lines(s.skip(i + 1)),
    }
}

#[via_fn]
proof fn split_lines_decreases(s: Seq<char>) {
    lemma_find_char_bounds(s, '\n');
}

/// Whether some line of the listing, once trimmed, is exactly the tag.
pub open spec fn tag_listed(output: Seq<char>, tag: Seq<char>) -> bool {
    exists|i: int|
        0 <= i < split_lines(output).len() && trim_ws(#[trigger] split_lines(output)[i]) == tag
}

/// The start of the segment of `s` between `from` and `to` once its
/// leading whitespace is gone.
fn scan_ws_start(s: &str, from: usize, to: usize) -> (a: usize)
    requires
        from <= to <= s@.len(),
    ensures
        from <= a <= to,
        strip_leading_ws(s@.subrange(from as int, to as int)) == s@.subrange(a as int, to as int),
{
    let mut a: usize = from;
    #[verifier::loop_isolation(false)]
    loop
        invariant
            from <= a <= to,
            strip_leading_ws(s@.subrange(from as int, to as int)) == strip_leading_ws(
                s@.subrange(a as int, to as int),
            ),
        decreases to - a,
    {
        if a >= to {
            return a;
        }
        proof {
            assert(s@.subrange(a as int, to as int)[0] == s@[a as int]);
        }
        if !is_ws(s.get_char(a)) {
            return a;
        }
        proof {
            assert(s@.subrange(a as int, to as int).drop_first() =~= s@.subrange(
                a as int + 1,
                to as int,
            ));
        }
        a += 1;
    }
}

/// The end of the segment of `s` between `from` and `to` once its
/// trailing whitespace is gone.
fn scan_ws_end(s: &str, from: usize, to: usize) -> (b: usize)
    requires
        from <= to <= s@.len(),
    ensures
        from <= b <= to,
        strip_trailing_ws(s@.subrange(from as int, to as int)) == s@.subrange(
            from as int,
            b as int,
        ),
{
    let mut b: usize = to;
    #[verifier::loop_isolation(false)]
    loop
        invariant
            from <= b <= to,
            strip_trailing_ws(s@.subrange(from as int, to as int)) == strip_trailing_ws(
                s@.subrange(from as int, b as int),
            ),
        decreases b,
    {
        if b <= from {
            return b;
        }
        proof {
            assert(s@.subrange(from as int, b as int).last() == s@[b as int - 1]);
        }
        if !is_ws(s.get_char(b - 1)) {
            return b;
        }
        proof {
            assert(s@.subrange(from as int, b as int).drop_last() =~= s@.subrange(
                from as int,
                b as int - 1,
            ));
        }
        b -= 1;
    }
}

/// Decides whether the character counts as whitespace.
fn is_ws(c: char) -> (r: bool)
    ensures
        r == is_ws_char(c),
{
    ('\u{9}' <= c && c <= '\u{d}') || c == ' ' || c == '\u{85}' || c == '\u{a0}' || c == '\u{1680}'
        || ('\u{2000}' <= c && c <= '\u{200a}') || c == '\u{2028}' || c == '\u{2029}' || c
        == '\u{202f}' || c == '\u{205f}' || c == '\u{3000}'
}

/// Decides whether the tag listing holds the tag: whether some line,
/// trimmed of surrounding whitespace, is exactly the tag.
pub fn tag_in_list(output: &str, tag: &str) -> (r: bool)
    ensures
        r == tag_listed(output@, tag@),
{
    let n = output.unicode_len();
    let tag_len = tag.unicode_len();
    let mut pos: usize = 0;
    let ghost mut ls: Seq<Seq<char>> = Seq::empty();
    proof {
        assert(output@.skip(0) =~= output@);
        assert(Seq::<Seq<char>>::empty() + split_lines(output@.skip(0)) =~= split_lines(
            output@.skip(0),
        ));
    }
    #[verifier::loop_isolation(false)]
    loop
        invariant
            pos <= n,
            ls.len() <= pos,
            split_lines(output@) == ls + split_lines(output@.skip(pos as int)),
            forall|j: int| 0 <= j < ls.len() ==> trim_ws(#[trigger] ls[j]) != tag@,
        decreases n - pos,
    {
        let ghost rem = output@.skip(pos as int);
        let (e, is_last) = match crate::checksums::scan_char_range(output, '\n', pos, n) {
            Some(nl) => (nl, false),
            None => (n, true),
        };
        proof {
            assert(rem =~= output@.subrange(pos as int, n as int));
            assert(rem.take(e - pos) =~= output@.subrange(pos as int, e as int));
            if !is_last {
                assert(rem.skip(e - pos + 1) =~= output@.skip(e as int + 1));
            }
        }
        let ghost line = output@.subrange(pos as int, e as int);
        let a = scan_ws_start(output, pos, e);
        let b = scan_ws_end(output, a, e);
        proof {
            assert(trim_ws(line) == output@.subrange(a as int, b as int));
        }
        if b - a == tag_len && str_matches_at(output, tag, a) {
            proof {
                assert(output@.subrange(a as int, b as int) =~= output@.subrange(
                    a as int,
                    a as int + tag@.len() as int,
                ));
                assert(split_lines(output@)[ls.len() as int] == line);
            }
            return true;
        }
        if is_last {
            proof {
                assert(split_lines(rem) =~= seq![line]);
                assert forall|i: int| 0 <= i < split_lines(output@).len() implies trim_ws(
                    #[trigger] split_lines(output@)[i],
                ) != tag@ by {
                    if i < ls.len() {
                        assert(split_lines(output@)[i] == ls[i]);
                    } else {
                        assert(split_lines(output@)[i] == line);
                    }
                }
            }
            return false;
        }
        proof {
            ls = ls.push(line);
            assert((ls.drop_last() + (seq![line] + split_lines(output@.skip(e as int + 1))))
                =~= ls + split_lines(output@.skip(e as int + 1)));
        }
        pos = e + 1;
    }
}

/// A decimal digit.
pub open spec fn is_digit_char(c: char) -> bool {
    '0' <= c && c <= '9'
}

/// The value of a decimal digit.
pub open spec fn digit_val(c: char) -> int {
    c as u32 - 0x30
}

/// The value of a string of decimal digits, most significant first.
pub open spec fn decimal_value(s: Seq<char>) -> int
    decreases s.len(),
{
    if s.len() == 0 {
        0
    } else {
        decimal_value(s.drop_last()) * 10 + digit_val(s.last())
    }
}

/// Every character of the sequence is a decimal digit.
pub open spec fn all_digits(s: Seq<char>) -> bool {
    forall|i: int| 0 <= i < s.len() ==> is_digit_char(#[trigger] s[i])
}

/// What a commit timestamp listing parses to: an optional sign, then at
/// least one digit and nothing else, with the value within the signed
/// 64-bit range; anything else is refused.
pub open spec fn parse_i64_spec(s: Seq<char>) -> Option<int> {
    let digits = if s.len() > 0 && (s[0] == '+' || s[0] == '-') {
        s.drop_first()
    } else {
        s
    };
    let neg = s.len() > 0 && s[0] == '-';
    if digits.len() == 0 || !all_digits(digits) {
        None
    } else {
        let v = if neg {
            -decimal_value(digits)
        } else {
            decimal_value(digits)
        };
        if i64::MIN <= v <= i64::MAX {
            Some(v)
        } else {
            None
        }
    }
}

/// A digit string's value never shrinks as digits are appended.
proof fn lemma_decimal_value_bounds(s: Seq<char>, i: int)
    requires
        all_digits(s),
        0 <= i <= s.len(),
    ensures
        decimal_value(s.take(i)) >= 0,
        decimal_value(s) >= decimal_value(s.take(i)),
    decreases s.len() - i,
{
    if i == s.len() {
        assert(s.take(i) =~= s);
        lemma_decimal_value_nonneg(s);
    } else {
        lemma_decimal_value_bounds(s, i + 1);
        assert(s.take(i + 1).drop_last() =~= s.take(i));
        assert(s.take(i + 1).last() == s[i]);
        lemma_decimal_value_nonneg(s.take(i));
    }
}

/// A digit string's value is never negative.
proof fn lemma_decimal_value_nonneg(s: Seq<char>)
    requires
        all_digits(s),
    ensures
        decimal_value(s) >= 0,
    decreases s.len(),
{
    if s.len() > 0 {
        assert(all_digits(s.drop_last())) by {
            assert(forall|i: int|
                0 <= i < s.drop_last().len() ==> #[trigger] s.drop_last()[i] == s[i]);
        }
        lemma_decimal_value_nonneg(s.drop_last());
    }
}

/// Parses a signed decimal numeral, exactly as the commit-date reader
/// needs it: the whole string must be the numeral, and a value outside
/// the signed 64-bit range is refused.
pub fn parse_i64(s: &str) -> (r: Option<i64>)
    ensures
        r is Some <==> parse_i64_spec(s@) is Some,
        r matches Some(v) ==> Some(v as int) == parse_i64_spec(s@),
{
    let n = s.unicode_len();
    let mut start: usize = 0;
    let mut neg = false;
    if n > 0 {
        let c0 = s.get_char(0);
        if c0 == '+' || c0 == '-' {
            start = 1;
            neg = c0 == '-';
        }
    }
    let ghost digits = if start == 1 {
        s@.drop_first()
    } else {
        s@
    };
    proof {
        assert(digits =~= s@.subrange(start as int, n as int));
    }
    if start >= n {
        return None;
    }
    let mut value: u64 = 0;
    let mut i: usize = start;
    #[verifier::loop_isolation(false)]
    loop
        invariant
            start <= i <= n,
            all_digits(digits.take(i - start)),
            value == decimal_value(digits.take(i - start)),
        decreases n - i,
    {
        if i >= n {
            break;
        }
        let c = s.get_char(i);
        if c < '0' || c > '9' {
            proof {
                assert(digits[i - start] == s@[i as int]);
            }
            return None;
        }
        let d = (c as u32 as u64) - 0x30;
        proof {
            assert(digits.take(i + 1 - start).drop_last() =~= digits.take(i - start));
            assert(digits.take(i + 1 - start).last() == s@[i as int]);
        }
        if value > (u64::MAX - d) / 10 {
            proof {
                assert(all_digits(digits.take(i + 1 - start))) by {
                    assert(forall|j: int|
                        0 <= j < i - start ==> #[trigger] digits.take(i + 1 - start)[j]
                            == digits.take(i - start)[j]);
                    assert(digits.take(i + 1 - start)[i - start] == s@[i as int]);
                }
                assert(decimal_value(digits.take(i + 1 - start)) == value * 10 + d);
                assert(value * 10 + d > u64::MAX);
                if all_digits(digits) {
                    lemma_decimal_value_bounds(digits, i + 1 - start);
                }
            }
            return None;
        }
        value = value * 10 + d;
        i += 1;
    }
    proof {
        assert(digits.take(n - start) =~= digits);
    }
    if neg {
        if value > 0x8000_0000_0000_0000u64 {
            return None;
        }
        if value == 0x8000_0000_0000_0000u64 {
            return Some(i64::MIN);
        }
        Some(-(value as i64))
    } else {
        if value > 0x7fff_ffff_ffff_ffffu64 {
            return None;
        }
        Some(value as i64)
    }
}

/// The URL that `git remote get-url origin` printed.
pub struct OriginUrl(pub String);

impl OriginUrl {
    /// Rewrites the origin URL into an http form: an http or https URL is
    /// kept; an scp-style GitHub URL has its `git@` head replaced by
    /// `https://` and then the first colon of the result replaced by a
    /// slash; anything else is refused.
    pub fn to_http(self) -> (r: Result<OriginUrl, ()>)
        ensures
            ({
                let s = self.0@;
                if has_prefix(s, "https://"@) || has_prefix(s, "http://"@) {
                    r matches Ok(u) && u.0@ == s
                } else if has_prefix(s, "git@"@) && contains_seq(s, "github"@) {
                    r matches Ok(u) && u.0@ == replace_first("https://"@ + s.skip(4), ':', '/')
                } else {
                    r is Err
                }
            }),
    {
        if str_has_prefix(self.0.as_str(), "https://") || str_has_prefix(
            self.0.as_str(),
            "http://",
        ) {
            return Ok(self);
        }
        if str_has_prefix(self.0.as_str(), "git@") && str_contains(self.0.as_str(), "github") {
            proof {
                reveal_strlit("git@");
            }
            let n = self.0.as_str().unicode_len();
            let tail = self.0.as_str().substring_char(4, n);
            let mut t = String::new();
            t.append("https://");
            t.append(tail);
            proof {
                assert(t@ == "https://"@ + self.0@.skip(4));
            }
            let u = match str_find_char(t.as_str(), ':') {
                Some(i) => {
                    proof {
                        lemma_find_char_bounds(t@, ':');
                    }
                    let tn = t.as_str().unicode_len();
                    let a = t.as_str().substring_char(0, i);
                    let b = t.as_str().substring_char(i + 1, tn);
                    let mut x = a.to_owned();
                    x.append("/");
                    x.append(b);
                    proof {
                        reveal_strlit("/");
                        assert(x@ =~= t@.update(find_char(t@, ':')->0, '/'));
                    }
                    x
                },
                None => t,
            };
            return Ok(OriginUrl(u));
        }
        Err(())
    }

    /// The URL as a string slice.
    pub fn get(&self) -> (r: &str)
        ensures
            r@ == self.0@,
    {
        self.0.as_str()
    }
}

} // verus!
