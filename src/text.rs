//! Character-level text utilities for the line protocol, each stated over the
//! character sequence of the text it reads.
use vstd::prelude::*;
use vstd::string::*;

verus! {

/// Unicode `White_Space` characters: the set that `char::is_whitespace` accepts.
pub open spec fn is_ws(c: char) -> bool {
    ('\u{9}' <= c && c <= '\u{D}') || c == ' ' || c == '\u{85}' || c == '\u{A0}' || c
        == '\u{1680}' || ('\u{2000}' <= c && c <= '\u{200A}') || c == '\u{2028}' || c
        == '\u{2029}' || c == '\u{202F}' || c == '\u{205F}' || c == '\u{3000}'
}

/// `s` without its leading white space.
pub open spec fn trim_start(s: Seq<char>) -> Seq<char>
    decreases s.len(),
{
    if s.len() > 0 && is_ws(s[0]) {
        trim_start(s.drop_first())
    } else {
        s
    }
}

/// `s` without its trailing white space.
pub open spec fn trim_end(s: Seq<char>) -> Seq<char>
    decreases s.len(),
{
    if s.len() > 0 && is_ws(s.last()) {
        trim_end(s.drop_last())
    } else {
        s
    }
}

/// `s` without white space at either end.
pub open spec fn trim(s: Seq<char>) -> Seq<char> {
    trim_start(trim_end(s))
}

/// `s` without the carriage returns and line feeds at its end.
pub open spec fn strip_eol(s: Seq<char>) -> Seq<char>
    decreases s.len(),
{
    if s.len() > 0 && (s.last() == '\r' || s.last() == '\n') {
        strip_eol(s.drop_last())
    } else {
        s
    }
}

/// Whether `s` begins with `p`.
pub open spec fn has_prefix(s: Seq<char>, p: Seq<char>) -> bool {
    p.len() <= s.len() && s.subrange(0, p.len() as int) == p
}

/// Index of the first space in `s`, or its length when it holds none.
pub open spec fn space_at(s: Seq<char>) -> nat
    decreases s.len(),
{
    if s.len() == 0 {
        0
    } else if s[0] == ' ' {
        0
    } else {
        1 + space_at(s.drop_first())
    }
}

/// The text of `s` before its first space (all of `s` when it holds none).
pub open spec fn first_field(s: Seq<char>) -> Seq<char> {
    s.take(space_at(s) as int)
}

/// The text of `s` after its first space (empty when it holds none).
pub open spec fn after_field(s: Seq<char>) -> Seq<char> {
    if space_at(s) < s.len() {
        s.skip(space_at(s) as int + 1)
    } else {
        Seq::empty()
    }
}

pub open spec fn is_digit(c: char) -> bool {
    '0' <= c && c <= '9'
}

pub open spec fn digit_value(c: char) -> int {
    (c as int) - ('0' as int)
}

pub open spec fn all_digits(s: Seq<char>) -> bool {
    forall|i: int| 0 <= i < s.len() ==> is_digit(#[trigger] s[i])
}

/// The number that the decimal digits `s` write.
pub open spec fn digits_value(s: Seq<char>) -> int
    decreases s.len(),
{
    if s.len() == 0 {
        0
    } else {
        digits_value(s.drop_last()) * 10 + digit_value(s.last())
    }
}

/// The digits of an unsigned number as `u32::from_str` reads them: one
/// leading `+` is allowed.
pub open spec fn unsigned_digits(s: Seq<char>) -> Seq<char> {
    if s.len() > 0 && s[0] == '+' {
        s.drop_first()
    } else {
        s
    }
}

/// The value of `s` read as a `u32`: one or more digits after an optional
/// `+`, with a value that fits.
pub open spec fn parse_u32_spec(s: Seq<char>) -> Option<u32> {
    let d = unsigned_digits(s);
    if d.len() > 0 && all_digits(d) && digits_value(d) <= u32::MAX {
        Some(digits_value(d) as u32)
    } else {
        None
    }
}

pub open spec fn digit_char(d: nat) -> char {
    seq!['0', '1', '2', '3', '4', '5', '6', '7', '8', '9'][d as int]
}

/// The decimal digits of `n`, without leading zeros.
pub open spec fn decimal(n: nat) -> Seq<char>
    decreases n,
{
    if n < 10 {
        seq![digit_char(n)]
    } else {
        decimal(n / 10).push(digit_char(n % 10))
    }
}

pub proof fn lemma_decimal_len(n: nat)
    ensures
        decimal(n).len() >= 1,
        n >= 10 ==> decimal(n).len() >= 2,
    decreases n,
{
    if n >= 10 {
        lemma_decimal_len(n / 10);
    }
}

/// Distinct numbers have distinct decimal forms.
pub proof fn lemma_decimal_injective(a: nat, b: nat)
    requires
        decimal(a) == decimal(b),
    ensures
        a == b,
    decreases a,
{
    lemma_decimal_len(a);
    lemma_decimal_len(b);
    if a < 10 && b < 10 {
        assert(decimal(a)[0] == digit_char(a));
    } else if a >= 10 && b >= 10 {
        let da = decimal(a);
        let db = decimal(b);
        assert(da.last() == digit_char(a % 10));
        assert(db.last() == digit_char(b % 10));
        assert(da.drop_last() =~= decimal(a / 10));
        assert(db.drop_last() =~= decimal(b / 10));
        lemma_decimal_injective(a / 10, b / 10);
    } else {
        assert(decimal(a).len() != decimal(b).len());
    }
}

proof fn lemma_digits_value_monotone(s: Seq<char>, i: int)
    requires
        0 <= i <= s.len(),
        all_digits(s),
    ensures
        digits_value(s.take(i)) <= digits_value(s),
        digits_value(s.take(i)) >= 0,
    decreases s.len(),
{
    if s.len() > 0 {
        assert(all_digits(s.drop_last()));
        if i < s.len() {
            assert(s.drop_last().take(i) =~= s.take(i));
            lemma_digits_value_monotone(s.drop_last(), i);
        } else {
            assert(s.take(i) =~= s);
            lemma_digits_value_monotone(s.drop_last(), i - 1);
            assert(s.drop_last().take(i - 1) =~= s.drop_last());
        }
    } else {
        assert(s.take(i) =~= s);
    }
}

/// Whether the text `s` holds exactly the characters `t@`.
pub fn text_eq(s: &str, t: &str) -> (r: bool)
    ensures
        r == (s@ == t@),
{
    let n = s.unicode_len();
    if n != t.unicode_len() {
        return false;
    }
    let mut i: usize = 0;
    while i < n
        invariant
            n == s@.len() == t@.len(),
            i <= n,
            s@.take(i as int) == t@.take(i as int),
        decreases n - i,
    {
        if s.get_char(i) != t.get_char(i) {
            return false;
        }
        assert(s@.take(i + 1) =~= s@.take(i as int).push(s@[i as int]));
        assert(t@.take(i + 1) =~= t@.take(i as int).push(t@[i as int]));
        i = i + 1;
    }
    assert(s@ =~= s@.take(n as int));
    assert(t@ =~= t@.take(n as int));
    true
}

/// Whether `s` begins with `p`.
pub fn starts_with(s: &str, p: &str) -> (r: bool)
    ensures
        r == has_prefix(s@, p@),
{
    let n = p.unicode_len();
    if n > s.unicode_len() {
        return false;
    }
    let mut i: usize = 0;
    while i < n
        invariant
            n == p@.len() <= s@.len(),
            i <= n,
            s@.take(i as int) == p@.take(i as int),
        decreases n - i,
    {
        if s.get_char(i) != p.get_char(i) {
            assert(s@.subrange(0, n as int)[i as int] != p@[i as int]);
            return false;
        }
        assert(s@.take(i + 1) =~= s@.take(i as int).push(s@[i as int]));
        assert(p@.take(i + 1) =~= p@.take(i as int).push(p@[i as int]));
        i = i + 1;
    }
    assert(p@ =~= p@.take(n as int));
    true
}

/// The characters of `s` from index `from` on.
pub fn rest_of(s: &str, from: usize) -> (r: &str)
    requires
        from <= s@.len(),
    ensures
        r@ == s@.skip(from as int),
{
    s.substring_char(from, s.unicode_len())
}

/// `s` without its trailing carriage returns and line feeds.
pub fn strip_line_end(s: &str) -> (r: &str)
    ensures
        r@ == strip_eol(s@),
{
    let mut e: usize = s.unicode_len();
    assert(s@ =~= s@.take(s@.len() as int));
    while e > 0 && (s.get_char(e - 1) == '\r' || s.get_char(e - 1) == '\n')
        invariant
            e <= s@.len(),
            strip_eol(s@) == strip_eol(s@.take(e as int)),
        decreases e,
    {
        assert(s@.take(e as int).drop_last() =~= s@.take(e - 1));
        e = e - 1;
    }
    assert(s@ =~= s@.take(s@.len() as int));
    s.substring_char(0, e)
}

fn is_ws_char(c: char) -> (r: bool)
    ensures
        r == is_ws(c),
{
    ('\u{9}' <= c && c <= '\u{D}') || c == ' ' || c == '\u{85}' || c == '\u{A0}' || c
        == '\u{1680}' || ('\u{2000}' <= c && c <= '\u{200A}') || c == '\u{2028}' || c
        == '\u{2029}' || c == '\u{202F}' || c == '\u{205F}' || c == '\u{3000}'
}

/// `s` without white space at either end.
pub fn trim_text(s: &str) -> (r: &str)
    ensures
        r@ == trim(s@),
{
    let mut e: usize = s.unicode_len();
    assert(s@ =~= s@.take(s@.len() as int));
    while e > 0 && is_ws_char(s.get_char(e - 1))
        invariant
            e <= s@.len(),
            trim_end(s@) == trim_end(s@.take(e as int)),
        decreases e,
    {
        assert(s@.take(e as int).drop_last() =~= s@.take(e - 1));
        e = e - 1;
    }
    assert(s@ =~= s@.take(s@.len() as int));
    let mut b: usize = 0;
    while b < e && is_ws_char(s.get_char(b))
        invariant
            b <= e <= s@.len(),
            trim_end(s@) == s@.take(e as int),
            trim(s@) == trim_start(s@.subrange(b as int, e as int)),
        decreases e - b,
    {
        assert(s@.subrange(b as int, e as int).drop_first() =~= s@.subrange(b + 1, e as int));
        b = b + 1;
    }
    assert(s@.take(e as int) =~= s@.subrange(0, e as int));
    s.substring_char(b, e)
}

/// Index of the first space in `s`, or its length when it holds none.
pub fn find_space(s: &str) -> (r: usize)
    ensures
        r == space_at(s@),
        r <= s@.len(),
{
    let n = s.unicode_len();
    let mut i: usize = 0;
    assert(s@ =~= s@.skip(0));
    while i < n && s.get_char(i) != ' '
        invariant
            n == s@.len(),
            i <= n,
            space_at(s@) == i + space_at(s@.skip(i as int)),
        decreases n - i,
    {
        assert(s@.skip(i as int).drop_first() =~= s@.skip(i + 1));
        i = i + 1;
    }
    i
}

/// Splits `s` at its first space: the text before it and the text after it.
pub fn split_field(s: &str) -> (r: (&str, &str))
    ensures
        r.0@ == first_field(s@),
        r.1@ == after_field(s@),
{
    let k = find_space(s);
    let n = s.unicode_len();
    let head = s.substring_char(0, k);
    if k < n {
        (head, s.substring_char(k + 1, n))
    } else {
        proof {
            reveal_strlit("");
        }
        (head, "")
    }
}

/// `s` read as a `u32` as `u32::from_str` reads it.
pub fn parse_u32(s: &str) -> (r: Option<u32>)
    ensures
        r == parse_u32_spec(s@),
{
    let n = s.unicode_len();
    let mut i: usize = 0;
    if n > 0 && s.get_char(0) == '+' {
        i = 1;
    }
    let ghost d = unsigned_digits(s@);
    assert(d =~= s@.skip(i as int));
    if i == n {
        return None;
    }
    let start = i;
    let mut acc: u32 = 0;
    while i < n
        invariant
            start <= i <= n == s@.len(),
            d == s@.skip(start as int),
            d == unsigned_digits(s@),
            all_digits(d.take(i - start)),
            acc as int == digits_value(d.take(i - start)),
        decreases n - i,
    {
        let c = s.get_char(i);
        if !('0' <= c && c <= '9') {
            assert(d[i - start] == c);
            assert(!is_digit(c));
            assert(!all_digits(d));
            return None;
        }
        let dv = (c as u32) - ('0' as u32);
        let ghost k = i - start;
        assert(d.take(k + 1).drop_last() =~= d.take(k));
        assert(all_digits(d.take(k + 1)));
        assert(d.take(k + 1).last() == c);
        assert(digit_value(c) == dv as int);
        assert(digits_value(d.take(k + 1)) == acc * 10 + dv);
        if acc > 429496729 || (acc == 429496729 && dv > 5) {
            proof {
                assert(acc * 10 + dv > u32::MAX) by (nonlinear_arith)
                    requires
                        acc > 429496729 || (acc == 429496729 && dv > 5),
                ;
                if all_digits(d) {
                    lemma_digits_value_monotone(d, k + 1);
                    assert(digits_value(d) > u32::MAX);
                }
            }
            return None;
        }
        acc = acc * 10 + dv;
        i = i + 1;
    }
    assert(d.take(n - start) =~= d);
    Some(acc)
}

/// Appends the decimal form of `n` to `out`.
pub fn push_decimal(out: &mut String, n: u64)
    ensures
        final(out)@ == old(out)@ + decimal(n as nat),
    decreases n,
{
    if n >= 10 {
        push_decimal(out, n / 10);
    }
    let d = (n % 10) as usize;
    let digits = "0123456789";
    proof {
        reveal_strlit("0123456789");
    }
    let piece = digits.substring_char(d, d + 1);
    assert(piece@ =~= seq![digit_char(d as nat)]);
    out.append(piece);
    proof {
        if n >= 10 {
            assert(decimal(n as nat) == decimal((n / 10) as nat).push(digit_char((n % 10) as nat)));
        }
    }
    assert(out@ =~= old(out)@ + decimal(n as nat));
}

/// The decimal form of `n` is all digits and writes `n`.
pub proof fn lemma_decimal_digits(n: nat)
    ensures
        all_digits(decimal(n)),
        digits_value(decimal(n)) == n,
        decimal(n).len() >= 1,
    decreases n,
{
    let d = decimal(n);
    let c = digit_char(n % 10);
    assert(is_digit(c) && digit_value(c) == n % 10) by {
        let m = n % 10;
        if m == 0 { assert(c == '0'); }
        else if m == 1 { assert(c == '1'); }
        else if m == 2 { assert(c == '2'); }
        else if m == 3 { assert(c == '3'); }
        else if m == 4 { assert(c == '4'); }
        else if m == 5 { assert(c == '5'); }
        else if m == 6 { assert(c == '6'); }
        else if m == 7 { assert(c == '7'); }
        else if m == 8 { assert(c == '8'); }
        else { assert(c == '9'); }
    }
    if n < 10 {
        assert(d.drop_last() =~= Seq::<char>::empty());
        assert(d.last() == c);
        assert(digits_value(d) == digits_value(d.drop_last()) * 10 + digit_value(d.last()));
    } else {
        lemma_decimal_digits(n / 10);
        assert(d.drop_last() =~= decimal(n / 10));
        assert(d.last() == c);
        assert(digits_value(d) == digits_value(d.drop_last()) * 10 + digit_value(d.last()));
        assert((n / 10) * 10 + n % 10 == n);
        assert forall|i: int| 0 <= i < d.len() implies is_digit(#[trigger] d[i]) by {
            if i < d.len() - 1 {
                assert(d[i] == decimal(n / 10)[i]);
            }
        }
    }
}

/// The decimal form of a `u32` reads back as that `u32`.
pub proof fn lemma_parse_decimal(n: u32)
    ensures
        parse_u32_spec(decimal(n as nat)) == Some(n),
        !decimal(n as nat).contains(' '),
{
    lemma_decimal_digits(n as nat);
    let d = decimal(n as nat);
    assert(is_digit(d[0]));
    assert(unsigned_digits(d) == d);
    if d.contains(' ') {
        let i = choose|i: int| 0 <= i < d.len() && d[i] == ' ';
        assert(is_digit(d[i]));
    }
}

/// In `x`, a space, then `y`, with no space in `x`, the first field is `x`
/// and what follows it is `y`.
pub proof fn lemma_split_joined(x: Seq<char>, y: Seq<char>)
    requires
        !x.contains(' '),
    ensures
        first_field(x + seq![' '] + y) == x,
        after_field(x + seq![' '] + y) == y,
{
    lemma_space_at_joined(x, y);
    let s = x + seq![' '] + y;
    assert(s.take(x.len() as int) =~= x);
    assert(s.skip(x.len() as int + 1) =~= y);
}

proof fn lemma_space_at_joined(x: Seq<char>, y: Seq<char>)
    requires
        !x.contains(' '),
    ensures
        space_at(x + seq![' '] + y) == x.len(),
    decreases x.len(),
{
    let s = x + seq![' '] + y;
    if x.len() > 0 {
        assert(x[0] != ' ');
        assert(s.drop_first() =~= x.drop_first() + seq![' '] + y);
        assert(!x.drop_first().contains(' ')) by {
            if x.drop_first().contains(' ') {
                let i = choose|i: int| 0 <= i < x.drop_first().len() && x.drop_first()[i] == ' ';
                assert(x[i + 1] == ' ');
            }
        }
        lemma_space_at_joined(x.drop_first(), y);
    } else {
        assert(s[0] == ' ');
    }
}

/// A line body that does not end in a line break keeps its text when one is
/// added and stripped again.
pub proof fn lemma_strip_added_newline(body: Seq<char>)
    requires
        body.len() == 0 || (body.last() != '\r' && body.last() != '\n'),
    ensures
        strip_eol(body + seq!['\n']) == body,
{
    let s = body + seq!['\n'];
    assert(s.drop_last() =~= body);
    if body.len() > 0 {
        assert(strip_eol(body) == body);
    } else {
        assert(strip_eol(body) == body);
    }
}

/// Text with no white space at its ends is its own trim.
pub proof fn lemma_trim_fixed(t: Seq<char>)
    requires
        t.len() == 0 || (!is_ws(t[0]) && !is_ws(t.last())),
    ensures
        trim(t) == t,
{
    assert(trim_end(t) == t);
}

} // verus!
