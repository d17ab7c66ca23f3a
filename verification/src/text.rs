//! Reading of short setting values: trimming, word comparison, whole numbers and
//! colon-separated fields; and writing of whole numbers.

use vstd::prelude::*;
use vstd::string::*;

verus! {

/// Whether a character has the Unicode property `White_Space`.
pub open spec fn blank(c: char) -> bool {
    let n = c as int;
    9 <= n <= 13 || n == 32 || n == 0x85 || n == 0xa0 || n == 0x1680 || 0x2000 <= n <= 0x200a || n
        == 0x2028 || n == 0x2029 || n == 0x202f || n == 0x205f || n == 0x3000
}

/// A text without its leading blanks.
pub open spec fn trimmed_start(s: Seq<char>) -> Seq<char>
    decreases s.len(),
{
    if s.len() > 0 && blank(s[0]) { trimmed_start(s.drop_first()) } else { s }
}

/// A text without its trailing blanks.
pub open spec fn trimmed_end(s: Seq<char>) -> Seq<char>
    decreases s.len(),
{
    if s.len() > 0 && blank(s.last()) { trimmed_end(s.drop_last()) } else { s }
}

/// A text without the blanks at its two ends.
pub open spec fn trimmed(s: Seq<char>) -> Seq<char> {
    trimmed_end(trimmed_start(s))
}

fn is_blank(c: char) -> (r: bool)
    ensures
        r == blank(c),
{
    let n: u32 = c as u32;
    (9 <= n && n <= 13) || n == 32 || n == 0x85 || n == 0xa0 || n == 0x1680 || (0x2000 <= n && n
        <= 0x200a) || n == 0x2028 || n == 0x2029 || n == 0x202f || n == 0x205f || n == 0x3000
}

/// The text without the blanks at its two ends.
pub fn trim<'a>(s: &'a str) -> (r: &'a str)
    ensures
        r@ == trimmed(s@),
{
    let n: usize = s.unicode_len();
    let mut from: usize = 0;
    assert(s@.skip(0) =~= s@);
    while from < n && is_blank(s.get_char(from))
        invariant
            from <= n == s@.len(),
            trimmed_start(s@) == trimmed_start(s@.skip(from as int)),
        decreases n - from,
    {
        assert(s@.skip(from as int).drop_first() =~= s@.skip(from as int + 1));
        from = from + 1;
    }
    let ghost rest = s@.skip(from as int);
    assert(trimmed_start(s@) == rest);
    let mut to: usize = n;
    assert(s@.subrange(from as int, n as int) =~= rest);
    while to > from && is_blank(s.get_char(to - 1))
        invariant
            from <= to <= n == s@.len(),
            trimmed_end(rest) == trimmed_end(s@.subrange(from as int, to as int)),
        decreases to,
    {
        assert(s@.subrange(from as int, to as int).drop_last() =~= s@.subrange(
            from as int,
            to as int - 1,
        ));
        to = to - 1;
    }
    s.substring_char(from, to)
}

/// A Latin capital letter as its small letter, any other character as it is.
pub open spec fn lower(c: char) -> int {
    if 'A' <= c <= 'Z' { c as int + 32 } else { c as int }
}

/// Whether two texts are the same but for the case of Latin letters.
pub open spec fn same_word(a: Seq<char>, b: Seq<char>) -> bool {
    a.len() == b.len() && forall|i: int| 0 <= i < a.len() ==> lower(#[trigger] a[i]) == lower(b[i])
}

fn lower_case(c: char) -> (r: u32)
    ensures
        r == lower(c),
{
    let n: u32 = c as u32;
    if 65 <= n && n <= 90 { n + 32 } else { n }
}

/// Whether two texts are the same but for the case of Latin letters.
pub fn eq_ignore_ascii_case(a: &str, b: &str) -> (r: bool)
    ensures
        r == same_word(a@, b@),
{
    let n: usize = a.unicode_len();
    if n != b.unicode_len() {
        return false;
    }
    let mut i: usize = 0;
    while i < n
        invariant
            i <= n == a@.len() == b@.len(),
            forall|j: int| 0 <= j < i ==> lower(#[trigger] a@[j]) == lower(b@[j]),
        decreases n - i,
    {
        if lower_case(a.get_char(i)) != lower_case(b.get_char(i)) {
            return false;
        }
        i = i + 1;
    }
    true
}

/// Whether two texts are the same.
pub fn same_text(a: &str, b: &str) -> (r: bool)
    ensures
        r == (a@ == b@),
{
    let n: usize = a.unicode_len();
    if n != b.unicode_len() {
        return false;
    }
    let mut i: usize = 0;
    while i < n
        invariant
            i <= n == a@.len() == b@.len(),
            forall|j: int| 0 <= j < i ==> a@[j] == b@[j],
        decreases n - i,
    {
        if a.get_char(i) != b.get_char(i) {
            return false;
        }
        i = i + 1;
    }
    assert(a@ =~= b@);
    true
}

/// Whether a character is a decimal digit.
pub open spec fn digit(c: char) -> bool {
    '0' <= c <= '9'
}

/// Whether a text is one or more decimal digits.
pub open spec fn all_digits(s: Seq<char>) -> bool {
    s.len() > 0 && forall|i: int| 0 <= i < s.len() ==> digit(#[trigger] s[i])
}

/// The number that decimal digits write.
pub open spec fn decimal(s: Seq<char>) -> int
    decreases s.len(),
{
    if s.len() == 0 { 0 } else { 10 * decimal(s.drop_last()) + (s.last() as int - 48) }
}

/// The number that a text without a minus writes: digits, after a plus at most.
pub open spec fn unsigned_value(s: Seq<char>) -> Option<int> {
    let body = if s.len() > 0 && s[0] == '+' { s.drop_first() } else { s };
    if all_digits(body) { Some(decimal(body)) } else { None }
}

/// The number that a text writes: digits, after one sign at most.
pub open spec fn signed_value(s: Seq<char>) -> Option<int> {
    if s.len() > 0 && s[0] == '-' {
        let body = s.drop_first();
        if all_digits(body) { Some(-decimal(body)) } else { None }
    } else {
        unsigned_value(s)
    }
}

/// A value where it lies within `lo..=hi`.
pub open spec fn within(v: Option<int>, lo: int, hi: int) -> Option<int> {
    match v {
        Some(n) => if lo <= n <= hi { Some(n) } else { None },
        None => None,
    }
}

proof fn lemma_decimal_grows(s: Seq<char>, n: int)
    requires
        0 <= n <= s.len(),
        forall|i: int| 0 <= i < s.len() ==> digit(#[trigger] s[i]),
    ensures
        0 <= decimal(s.take(n)) <= decimal(s),
    decreases s.len(),
{
    if n == s.len() {
        assert(s.take(n) =~= s);
        if n > 0 {
            let t = s.drop_last();
            assert forall|i: int| 0 <= i < t.len() implies digit(#[trigger] t[i]) by {
                assert(t[i] == s[i]);
            }
            lemma_decimal_grows(t, n - 1);
            assert(t.take(n - 1) =~= t);
            assert(digit(s[n - 1]));
        }
    } else {
        let t = s.drop_last();
        assert forall|i: int| 0 <= i < t.len() implies digit(#[trigger] t[i]) by {
            assert(t[i] == s[i]);
        }
        lemma_decimal_grows(t, n);
        assert(t.take(n) =~= s.take(n));
        lemma_decimal_grows(t, 0);
        assert(digit(s[s.len() - 1]));
    }
}

/// Without a minus no number is below zero.
proof fn lemma_unsigned_value(s: Seq<char>)
    ensures
        unsigned_value(s) is Some ==> unsigned_value(s)->0 >= 0,
{
    let body = if s.len() > 0 && s[0] == '+' { s.drop_first() } else { s };
    if all_digits(body) {
        lemma_decimal_grows(body, 0);
    }
}

/// The number that the digits of `s` from `from` on write, where it fits.
fn parse_digits(s: &str, from: usize) -> (r: Option<u64>)
    requires
        from <= s@.len(),
    ensures
        r is Some <==> all_digits(s@.skip(from as int)) && decimal(s@.skip(from as int))
            <= u64::MAX,
        r is Some ==> r->0 == decimal(s@.skip(from as int)),
{
    let n: usize = s.unicode_len();
    let ghost body = s@.skip(from as int);
    if from >= n {
        return None;
    }
    let mut acc: Option<u64> = Some(0);
    let mut i: usize = from;
    while i < n
        invariant
            from <= i <= n == s@.len(),
            body == s@.skip(from as int),
            forall|j: int| 0 <= j < i - from ==> digit(#[trigger] body[j]),
            match acc {
                Some(v) => v == decimal(body.take(i - from)),
                None => decimal(body.take(i - from)) > u64::MAX,
            },
        decreases n - i,
    {
        let d: u32 = s.get_char(i) as u32;
        assert(body[i - from] == s@[i as int]);
        if d < 48 || d > 57 {
            assert(!digit(body[i - from]));
            return None;
        }
        assert(body.take(i - from + 1).drop_last() =~= body.take(i - from));
        assert(body.take(i - from + 1).last() == body[i - from]);
        acc = match acc {
            Some(v) => match v.checked_mul(10) {
                Some(t) => t.checked_add((d - 48) as u64),
                None => None,
            },
            None => None,
        };
        i = i + 1;
    }
    assert(body.take(n - from) =~= body);
    acc
}

/// The unsigned number that the text writes, where it fits.
pub fn parse_u64(s: &str) -> (r: Option<u64>)
    ensures
        r is Some <==> within(unsigned_value(s@), 0, u64::MAX as int) is Some,
        r is Some ==> unsigned_value(s@) == Some(r->0 as int),
{
    let n: usize = s.unicode_len();
    let from: usize = if n > 0 && s.get_char(0) == '+' { 1 } else { 0 };
    let ghost body = s@.skip(from as int);
    proof {
        if from == 0 {
            assert(body =~= s@);
        } else {
            assert(body =~= s@.drop_first());
        }
        lemma_unsigned_value(s@);
    }
    parse_digits(s, from)
}

/// The signed number that the text writes, where it fits.
pub fn parse_i64(s: &str) -> (r: Option<i64>)
    ensures
        r is Some <==> within(signed_value(s@), i64::MIN as int, i64::MAX as int) is Some,
        r is Some ==> signed_value(s@) == Some(r->0 as int),
{
    let n: usize = s.unicode_len();
    if n > 0 && s.get_char(0) == '-' {
        let ghost body = s@.drop_first();
        assert(s@.skip(1) =~= body);
        proof {
            if all_digits(body) {
                lemma_decimal_grows(body, 0);
            }
        }
        match parse_digits(s, 1) {
            Some(v) => if v <= 0x7fff_ffff_ffff_ffff {
                Some(-(v as i64))
            } else if v == 0x8000_0000_0000_0000 {
                Some(i64::MIN)
            } else {
                None
            },
            None => None,
        }
    } else {
        proof {
            lemma_unsigned_value(s@);
        }
        match parse_u64(s) {
            Some(v) => if v <= 0x7fff_ffff_ffff_ffff { Some(v as i64) } else { None },
            None => None,
        }
    }
}

/// The first place of a colon, or the length of the text.
pub open spec fn colon(s: Seq<char>) -> int
    decreases s.len(),
{
    if s.len() == 0 || s[0] == ':' { 0 } else { 1 + colon(s.drop_first()) }
}

/// The fields of a text that colons part.
pub open spec fn fields(s: Seq<char>) -> Seq<Seq<char>>
    decreases s.len(),
{
    if 0 <= colon(s) < s.len() {
        seq![s.take(colon(s))] + fields(s.skip(colon(s) + 1))
    } else {
        seq![s]
    }
}

/// The first colon lies within the text or at its end.
pub proof fn lemma_colon(s: Seq<char>)
    ensures
        0 <= colon(s) <= s.len(),
        colon(s) < s.len() ==> s[colon(s)] == ':',
        forall|i: int| 0 <= i < colon(s) ==> s[i] != ':',
    decreases s.len(),
{
    if s.len() > 0 && s[0] != ':' {
        let t = s.drop_first();
        lemma_colon(t);
        assert forall|i: int| 0 <= i < colon(s) implies s[i] != ':' by {
            if i > 0 {
                assert(s[i] == t[i - 1]);
            }
        }
    }
}

/// The first place of a colon at or after `from`, or the length of the text.
fn find_colon(s: &str, from: usize) -> (r: usize)
    requires
        from <= s@.len(),
    ensures
        from <= r <= s@.len(),
        r - from == colon(s@.skip(from as int)),
{
    let n: usize = s.unicode_len();
    let mut i: usize = from;
    while i < n && s.get_char(i) != ':'
        invariant
            from <= i <= n == s@.len(),
            colon(s@.skip(from as int)) == i - from + colon(s@.skip(i as int)),
        decreases n - i,
    {
        assert(s@.skip(i as int).drop_first() =~= s@.skip(i as int + 1));
        i = i + 1;
    }
    i
}

/// The part before the first colon and the part after it, where there is one.
pub fn split_once<'a>(s: &'a str) -> (r: Option<(&'a str, &'a str)>)
    ensures
        match r {
            Some((head, tail)) => colon(s@) < s@.len() && head@ == s@.take(colon(s@)) && tail@
                == s@.skip(colon(s@) + 1),
            None => colon(s@) == s@.len(),
        },
{
    assert(s@.skip(0) =~= s@);
    let n: usize = s.unicode_len();
    let c: usize = find_colon(s, 0);
    if c < n {
        let head = s.substring_char(0, c);
        let tail = s.substring_char(c + 1, n);
        assert(head@ =~= s@.take(c as int));
        assert(tail@ =~= s@.skip(c as int + 1));
        Some((head, tail))
    } else {
        None
    }
}

/// Whether texts are the given sequences, one for one.
pub open spec fn texts_are(v: Seq<&str>, f: Seq<Seq<char>>) -> bool {
    v.len() == f.len() && forall|i: int| 0 <= i < f.len() ==> (#[trigger] v[i])@ == f[i]
}

/// The fields of the text that colons part, each without the blanks at its ends.
pub fn split_fields<'a>(s: &'a str) -> (r: Vec<&'a str>)
    ensures
        r@.len() == fields(s@).len() >= 1,
        texts_are(r@, fields(s@).map_values(|f: Seq<char>| trimmed(f))),
{
    let n: usize = s.unicode_len();
    let ghost done = |f: Seq<char>| trimmed(f);
    let mut v: Vec<&'a str> = Vec::new();
    let mut from: usize = 0;
    assert(s@.skip(0) =~= s@);
    assert(Seq::<Seq<char>>::empty() + fields(s@) =~= fields(s@));
    let ghost mut head: Seq<Seq<char>> = Seq::empty();
    loop
        invariant_except_break
            head + fields(s@.skip(from as int)) == fields(s@),
        invariant
            from <= n == s@.len(),
            texts_are(v@, head.map_values(done)),
            done == |f: Seq<char>| trimmed(f),
        ensures
            texts_are(v@, fields(s@).map_values(done)),
            v@.len() >= 1,
        decreases n + 1 - from,
    {
        let c: usize = find_colon(s, from);
        let field = s.substring_char(from, c);
        let ghost rest = s@.skip(from as int);
        assert(field@ =~= rest.take(colon(rest)));
        let ghost before = v@;
        v.push(trim(field));
        let ghost head2 = head.push(field@);
        proof {
            lemma_colon(rest);
            assert(head2.map_values(done) =~= head.map_values(done).push(trimmed(field@)));
            assert forall|i: int| 0 <= i < head2.len() implies (#[trigger] v@[i])@ == head2.map_values(done)[i] by {
                if i < before.len() {
                    assert(v@[i] == before[i]);
                    assert(before[i]@ == head.map_values(done)[i]);
                }
            }
        }
        if c >= n {
            assert(rest.take(colon(rest)) =~= rest);
            assert(head2 =~= head + seq![rest]);
            proof {
                head = head2;
            }
            break;
        }
        proof {
            assert(rest.skip(colon(rest) + 1) =~= s@.skip(c as int + 1));
            assert(fields(rest) == seq![field@] + fields(s@.skip(c as int + 1)));
            assert(head2 + fields(s@.skip(c as int + 1)) =~= head + fields(rest));
            head = head2;
        }
        from = c + 1;
    }
    v
}

/// The digit that writes a number below ten.
pub open spec fn digit_of(d: int) -> char {
    if d == 0 {
        '0'
    } else if d == 1 {
        '1'
    } else if d == 2 {
        '2'
    } else if d == 3 {
        '3'
    } else if d == 4 {
        '4'
    } else if d == 5 {
        '5'
    } else if d == 6 {
        '6'
    } else if d == 7 {
        '7'
    } else if d == 8 {
        '8'
    } else {
        '9'
    }
}

/// A number in decimal digits, without leading zeros.
pub open spec fn digits_of(n: nat) -> Seq<char>
    decreases n,
{
    if n < 10 { seq![digit_of(n as int)] } else { digits_of(n / 10).push(digit_of((n % 10) as int)) }
}

/// A number in decimal digits, with a minus where it is negative.
pub open spec fn written_number(v: int) -> Seq<char> {
    if v < 0 { seq!['-'] + digits_of((-v) as nat) } else { digits_of(v as nat) }
}

/// Adds one digit.
fn push_digit(out: &mut String, d: u64)
    requires
        d < 10,
    ensures
        final(out)@ == old(out)@.push(digit_of(d as int)),
{
    proof {
        reveal_strlit("0");
        reveal_strlit("1");
        reveal_strlit("2");
        reveal_strlit("3");
        reveal_strlit("4");
        reveal_strlit("5");
        reveal_strlit("6");
        reveal_strlit("7");
        reveal_strlit("8");
        reveal_strlit("9");
    }
    let ghost before = out@;
    let text: &str = if d == 0 {
        "0"
    } else if d == 1 {
        "1"
    } else if d == 2 {
        "2"
    } else if d == 3 {
        "3"
    } else if d == 4 {
        "4"
    } else if d == 5 {
        "5"
    } else if d == 6 {
        "6"
    } else if d == 7 {
        "7"
    } else if d == 8 {
        "8"
    } else {
        "9"
    };
    out.append(text);
    assert(out@ =~= before.push(digit_of(d as int)));
}

/// Adds a number in decimal digits.
pub fn push_number(out: &mut String, n: u64)
    ensures
        final(out)@ == old(out)@ + digits_of(n as nat),
    decreases n,
{
    let ghost before = out@;
    if n >= 10 {
        push_number(out, n / 10);
    }
    push_digit(out, n % 10);
    assert(out@ =~= before + digits_of(n as nat));
}

/// Adds a number in decimal digits, with a minus where it is negative.
pub fn push_signed(out: &mut String, v: i64)
    ensures
        final(out)@ == old(out)@ + written_number(v as int),
{
    let ghost before = out@;
    if v < 0 {
        proof {
            reveal_strlit("-");
        }
        out.append("-");
        let n: u64 = (-(v + 1)) as u64 + 1;
        push_number(out, n);
        assert(out@ =~= before + written_number(v as int));
    } else {
        push_number(out, v as u64);
    }
}

/// A number in at least ten decimal digits.
pub open spec fn ten_digits(n: nat) -> Seq<char> {
    let d = digits_of(n);
    Seq::new((if d.len() < 10 { 10 - d.len() } else { 0 }) as nat, |i: int| '0') + d
}

/// How many digits a number has.
fn digit_count(n: u64) -> (r: u64)
    ensures
        r == digits_of(n as nat).len(),
        1 <= r <= n / 10 + 1,
    decreases n,
{
    if n < 10 { 1 } else { 1 + digit_count(n / 10) }
}

/// Adds a number in at least ten decimal digits.
pub fn push_ten_digits(out: &mut String, n: u64)
    ensures
        final(out)@ == old(out)@ + ten_digits(n as nat),
{
    let ghost before = out@;
    let count: u64 = digit_count(n);
    let zeros: u64 = if count < 10 { 10 - count } else { 0 };
    let mut i: u64 = 0;
    while i < zeros
        invariant
            i <= zeros,
            out@ =~= before + Seq::new(i as nat, |k: int| '0'),
        decreases zeros - i,
    {
        push_digit(out, 0);
        i = i + 1;
    }
    push_number(out, n);
    assert(out@ =~= before + ten_digits(n as nat));
}

/// A number that is written can be read back.
pub proof fn law_written_numbers_read_back(v: int)
    ensures
        signed_value(written_number(v)) == Some(v),
        v >= 0 ==> unsigned_value(written_number(v)) == Some(v),
{
    let n = (if v < 0 { -v } else { v }) as nat;
    lemma_digits(n);
    let d = digits_of(n);
    assert(digit(d[0]));
    if v < 0 {
        assert(written_number(v).drop_first() =~= d);
    }
}

proof fn lemma_digits(n: nat)
    ensures
        all_digits(digits_of(n)),
        decimal(digits_of(n)) == n,
    decreases n,
{
    let d = digits_of(n);
    if n < 10 {
        assert(d.drop_last() =~= Seq::<char>::empty());
        assert(decimal(d.drop_last()) == 0);
    } else {
        lemma_digits(n / 10);
        assert(d.drop_last() =~= digits_of(n / 10));
        assert forall|i: int| 0 <= i < d.len() implies digit(#[trigger] d[i]) by {
            if i < d.len() - 1 {
                assert(digits_of(n / 10)[i] == d[i]);
            }
        }
    }
}

/// Trimming takes blanks from the two ends and nothing else: what is left neither starts
/// nor ends with a blank, and the text is blanks, it, and blanks.
pub proof fn law_trimming_takes_blanks_alone(s: Seq<char>) -> (r: (int, int))
    ensures
        0 <= r.0 <= r.1 <= s.len(),
        trimmed(s) == s.subrange(r.0, r.1),
        forall|i: int| 0 <= i < s.len() && !(r.0 <= i < r.1) ==> blank(#[trigger] s[i]),
        r.0 < r.1 ==> !blank(s[r.0]) && !blank(s[r.1 - 1]),
{
    let a = lemma_trimmed_start(s);
    let t = trimmed_start(s);
    let n = lemma_trimmed_end(t);
    assert(t.subrange(0, n) =~= s.subrange(a, a + n));
    assert forall|i: int| 0 <= i < s.len() && !(a <= i < a + n) implies blank(#[trigger] s[i]) by {
        if i >= a {
            assert(t[i - a] == s[i]);
        }
    }
    if n > 0 {
        assert(t[0] == s[a] && t[n - 1] == s[a + n - 1]);
    }
    (a, a + n)
}

proof fn lemma_trimmed_start(s: Seq<char>) -> (a: int)
    ensures
        0 <= a <= s.len(),
        trimmed_start(s) == s.subrange(a, s.len() as int),
        forall|i: int| 0 <= i < a ==> blank(#[trigger] s[i]),
        a < s.len() ==> !blank(s[a]),
    decreases s.len(),
{
    if s.len() > 0 && blank(s[0]) {
        let t = s.drop_first();
        let a = lemma_trimmed_start(t);
        assert(t.subrange(a, t.len() as int) =~= s.subrange(a + 1, s.len() as int));
        assert forall|i: int| 0 <= i < a + 1 implies blank(#[trigger] s[i]) by {
            if i > 0 {
                assert(t[i - 1] == s[i]);
            }
        }
        if a < t.len() {
            assert(t[a] == s[a + 1]);
        }
        a + 1
    } else {
        assert(s.subrange(0, s.len() as int) =~= s);
        0
    }
}

proof fn lemma_trimmed_end(s: Seq<char>) -> (n: int)
    ensures
        0 <= n <= s.len(),
        trimmed_end(s) == s.subrange(0, n),
        forall|i: int| n <= i < s.len() ==> blank(#[trigger] s[i]),
        n > 0 ==> !blank(s[n - 1]),
    decreases s.len(),
{
    if s.len() > 0 && blank(s.last()) {
        let t = s.drop_last();
        let n = lemma_trimmed_end(t);
        assert(t.subrange(0, n) =~= s.subrange(0, n));
        assert forall|i: int| n <= i < s.len() implies blank(#[trigger] s[i]) by {
            if i < t.len() {
                assert(t[i] == s[i]);
            }
        }
        if n > 0 {
            assert(t[n - 1] == s[n - 1]);
        }
        n
    } else {
        assert(s.subrange(0, s.len() as int) =~= s);
        s.len() as int
    }
}

/// Two letters count as the same if they are, or if one is the capital of the other.
pub proof fn law_words_ignore_case(c: char, d: char)
    ensures
        lower(c) == lower(d) <==> c == d || 'A' <= c <= 'Z' && d as int == c as int + 32 || 'A' <= d <= 'Z' && c as int == d as int + 32,
{
}

/// Fields with a colon after each but the last.
pub open spec fn with_colons(f: Seq<Seq<char>>) -> Seq<char>
    decreases f.len(),
{
    if f.len() == 0 {
        seq![]
    } else if f.len() == 1 {
        f[0]
    } else {
        f[0].push(':') + with_colons(f.skip(1))
    }
}

/// The fields of a text hold no colon, and with colons between them they are the text.
pub proof fn law_fields_are_parted_by_colons(s: Seq<char>)
    ensures
        fields(s).len() >= 1,
        with_colons(fields(s)) == s,
        forall|k: int, i: int| 0 <= k < fields(s).len() && 0 <= i < fields(s)[k].len() ==> #[trigger] fields(s)[k][i] != ':',
    decreases s.len(),
{
    lemma_colon(s);
    let c = colon(s);
    let f = fields(s);
    if c < s.len() {
        let rest = s.skip(c + 1);
        law_fields_are_parted_by_colons(rest);
        assert(f.skip(1) =~= fields(rest));
        assert(s.take(c).push(':') + rest =~= s);
        assert forall|k: int, i: int| 0 <= k < f.len() && 0 <= i < f[k].len() implies #[trigger] f[k][i] != ':' by {
            if k == 0 {
                assert(f[0] == s.take(c));
                assert(s.take(c)[i] == s[i]);
            } else {
                assert(f[k] == fields(rest)[k - 1]);
            }
        }
    }
}

/// A number in ten digits reads back, and takes no fewer.
pub proof fn law_ten_digits_read_back(n: nat)
    ensures
        ten_digits(n).len() >= 10,
        unsigned_value(ten_digits(n)) == Some(n as int),
        n < 10_000_000_000 ==> ten_digits(n).len() == 10,
{
    lemma_digits(n);
    let d = digits_of(n);
    let z = (if d.len() < 10 { 10 - d.len() } else { 0 }) as nat;
    lemma_leading_zeros(z, d);
    let t = ten_digits(n);
    assert(t == Seq::new(z, |i: int| '0') + d);
    assert(digit(t[0])) by {
        if z > 0 {
            assert(t[0] == '0');
        } else {
            assert(t[0] == d[0]);
        }
    }
    if n < 10_000_000_000 {
        lemma_digit_count(n);
    }
}

proof fn lemma_leading_zeros(z: nat, d: Seq<char>)
    requires
        all_digits(d),
    ensures
        all_digits(Seq::new(z, |i: int| '0') + d),
        decimal(Seq::new(z, |i: int| '0') + d) == decimal(d),
    decreases d.len(),
{
    let t = Seq::new(z, |i: int| '0') + d;
    assert forall|i: int| 0 <= i < t.len() implies digit(#[trigger] t[i]) by {
        if i >= z {
            assert(t[i] == d[i - z]);
        }
    }
    if d.len() > 1 {
        assert forall|i: int| 0 <= i < d.drop_last().len() implies digit(#[trigger] d.drop_last()[i]) by {
            assert(digit(d[i]));
        }
        lemma_leading_zeros(z, d.drop_last());
        assert(t.drop_last() =~= Seq::new(z, |i: int| '0') + d.drop_last());
    } else {
        assert(t.drop_last() =~= Seq::new(z, |i: int| '0'));
        lemma_zeros(z);
        assert(d.drop_last() =~= Seq::<char>::empty());
        assert(decimal(d.drop_last()) == 0);
    }
    assert(t.last() == d.last());
}

proof fn lemma_zeros(z: nat)
    ensures
        decimal(Seq::new(z, |i: int| '0')) == 0,
    decreases z,
{
    if z > 0 {
        let s = Seq::new(z, |i: int| '0');
        assert(s.drop_last() =~= Seq::new((z - 1) as nat, |i: int| '0'));
        lemma_zeros((z - 1) as nat);
    }
}

proof fn lemma_digit_count(n: nat)
    requires
        n < 10_000_000_000,
    ensures
        digits_of(n).len() <= 10,
{
    reveal_with_fuel(digits_of, 11);
}

} // verus!
