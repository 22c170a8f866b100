//! Text: parts of names, and decimal and hexadecimal numbers.
use vstd::prelude::*;
use vstd::string::{StringExecFns, StrSliceExecFns};

verus! {

/// The characters of a text.
pub fn letters(s: &str) -> (r: Vec<char>)
    ensures
        r@ == s@,
{
    let mut out: Vec<char> = Vec::new();
    for c in it: s.chars()
        invariant
            it.seq() == s@,
            out@ == s@.take(it.index()),
    {
        proof {
            assert(s@.take(it.index() + 1) =~= s@.take(it.index()).push(c));
        }
        out.push(c);
    }
    proof {
        assert(s@.take(s@.len() as int) =~= s@);
    }
    out
}

/// Whether `s` ends with `t`.
pub open spec fn ends_with(s: Seq<char>, t: Seq<char>) -> bool {
    s.len() >= t.len() && s.skip(s.len() - t.len()) == t
}

/// Whether `t` stands in `s` at `at`.
pub open spec fn stands_at(s: Seq<char>, t: Seq<char>, at: int) -> bool {
    0 <= at && at + t.len() <= s.len() && s.subrange(at, at + t.len()) == t
}

/// Whether `t` stands in `s` at `at`.
pub fn is_at(s: &[char], t: &[char], at: usize) -> (r: bool)
    ensures
        r == stands_at(s@, t@, at as int),
{
    if at > s.len() || t.len() > s.len() - at {
        return false;
    }
    let mut i: usize = 0;
    while i < t.len()
        invariant
            i <= t@.len(),
            at + t@.len() <= s@.len(),
            forall|k: int| 0 <= k < i ==> s@[at + k] == #[trigger] t@[k],
        decreases t@.len() - i,
    {
        assert(at + i < s.len());
        if s[at + i] != t[i] {
            proof {
                assert(s@.subrange(at as int, at + t@.len())[i as int] == s@[at + i]);
            }
            return false;
        }
        i += 1;
    }
    proof {
        assert(s@.subrange(at as int, at + t@.len()) =~= t@);
    }
    true
}

/// Whether `s` ends with `t`.
pub fn is_suffix(s: &[char], t: &[char]) -> (r: bool)
    ensures
        r == ends_with(s@, t@),
{
    if s.len() < t.len() {
        return false;
    }
    let at: usize = s.len() - t.len();
    proof {
        assert(s@.subrange(at as int, at + t@.len()) =~= s@.skip(at as int));
    }
    is_at(s, t, at)
}

/// The last place of `c` in `s`.
pub open spec fn last_place(s: Seq<char>, c: char) -> Option<int>
    decreases s.len(),
{
    if s.len() == 0 {
        None
    } else if s.last() == c {
        Some(s.len() - 1)
    } else {
        last_place(s.drop_last(), c)
    }
}

/// What the last place of a character is.
pub proof fn lemma_last_place(s: Seq<char>, c: char)
    ensures
        match last_place(s, c) {
            Some(i) => 0 <= i < s.len() && s[i] == c && forall|j: int|
                i < j < s.len() ==> #[trigger] s[j] != c,
            None => forall|j: int| 0 <= j < s.len() ==> #[trigger] s[j] != c,
        },
    decreases s.len(),
{
    if s.len() > 0 && s.last() != c {
        lemma_last_place(s.drop_last(), c);
        assert forall|j: int| 0 <= j < s.len() - 1 implies s[j] == #[trigger] s.drop_last()[j] by {}
        match last_place(s.drop_last(), c) {
            Some(i) => {
                assert forall|j: int| i < j < s.len() implies #[trigger] s[j] != c by {
                    if j < s.len() - 1 {
                        assert(s.drop_last()[j] != c);
                    }
                }
            },
            None => {
                assert forall|j: int| 0 <= j < s.len() implies #[trigger] s[j] != c by {
                    if j < s.len() - 1 {
                        assert(s.drop_last()[j] != c);
                    }
                }
            },
        }
    }
}

/// A place after which `c` does not come again is the last one.
pub proof fn lemma_is_last_place(s: Seq<char>, c: char, i: int)
    requires
        0 <= i < s.len(),
        s[i] == c,
        forall|j: int| i < j < s.len() ==> #[trigger] s[j] != c,
    ensures
        last_place(s, c) == Some(i),
{
    lemma_last_place(s, c);
    match last_place(s, c) {
        Some(k) => {
            if k < i {
                assert(s[i] != c);
            }
            if i < k {
                assert(s[k] != c);
            }
        },
        None => {
            assert(s[i] != c);
        },
    }
}

/// The last place of `c` in `s`.
pub fn find_last(s: &[char], c: char) -> (r: Option<usize>)
    ensures
        match r {
            Some(i) => last_place(s@, c) == Some(i as int) && i < s@.len(),
            None => last_place(s@, c) is None,
        },
{
    let mut i: usize = s.len();
    proof {
        assert(s@.take(s@.len() as int) =~= s@);
    }
    while i > 0
        invariant
            i <= s@.len(),
            last_place(s@, c) == last_place(s@.take(i as int), c),
        decreases i,
    {
        proof {
            assert(s@.take(i as int).drop_last() =~= s@.take(i - 1));
        }
        if s[i - 1] == c {
            return Some(i - 1);
        }
        i -= 1;
    }
    None
}

/// The first place of `c` in `s` from `from` on.
pub open spec fn first_place(s: Seq<char>, c: char, from: int) -> Option<int>
    decreases s.len() - from,
{
    if from < 0 || from >= s.len() {
        None
    } else if s[from] == c {
        Some(from)
    } else {
        first_place(s, c, from + 1)
    }
}

/// The first place of `c` in `s` from `from` on.
pub fn find_first(s: &[char], c: char, from: usize) -> (r: Option<usize>)
    requires
        from <= s@.len(),
    ensures
        match r {
            Some(i) => first_place(s@, c, from as int) == Some(i as int) && from <= i < s@.len(),
            None => first_place(s@, c, from as int) is None,
        },
{
    let mut i: usize = from;
    while i < s.len()
        invariant
            from <= i <= s@.len(),
            first_place(s@, c, from as int) == first_place(s@, c, i as int),
        decreases s@.len() - i,
    {
        if s[i] == c {
            return Some(i);
        }
        i += 1;
    }
    None
}

/// What a decimal digit stands for.
pub open spec fn digit_value(c: char) -> Option<nat> {
    if '0' <= c <= '9' {
        Some((c as u32 - '0' as u32) as nat)
    } else {
        None
    }
}

/// The number that decimal digits stand for.
pub open spec fn digits_value(s: Seq<char>) -> Option<nat>
    decreases s.len(),
{
    if s.len() == 0 {
        Some(0)
    } else {
        match (digits_value(s.drop_last()), digit_value(s.last())) {
            (Some(high), Some(low)) => Some(10 * high + low),
            _ => None,
        }
    }
}

/// The 64-bit number that a text stands for: decimal digits, with a plus sign before
/// them or not.
pub open spec fn number(s: Seq<char>) -> Option<u64> {
    let digits = if s.len() > 0 && s[0] == '+' {
        s.skip(1)
    } else {
        s
    };
    match digits_value(digits) {
        Some(v) => if digits.len() > 0 && v <= u64::MAX {
            Some(v as u64)
        } else {
            None
        },
        None => None,
    }
}

pub proof fn lemma_digits_take(s: Seq<char>, i: int)
    requires
        0 <= i <= s.len(),
    ensures
        digits_value(s.take(i)) is None ==> digits_value(s) is None,
        match (digits_value(s.take(i)), digits_value(s)) {
            (Some(low), Some(v)) => low <= v,
            _ => true,
        },
    decreases s.len() - i,
{
    if i < s.len() {
        assert(s.take(i + 1).drop_last() =~= s.take(i));
        lemma_digits_take(s, i + 1);
    } else {
        assert(s.take(i) =~= s);
    }
}

/// The 64-bit number that a text stands for.
pub fn parse_number(s: &[char]) -> (r: Option<u64>)
    ensures
        r == number(s@),
{
    let start: usize = if s.len() > 0 && s[0] == '+' {
        1
    } else {
        0
    };
    let ghost digits = s@.skip(start as int);
    proof {
        if start == 0 {
            assert(digits =~= s@);
        }
    }
    if start == s.len() {
        return None;
    }
    let mut value: u64 = 0;
    let mut i: usize = start;
    proof {
        assert(digits.take(0) =~= Seq::empty());
    }
    while i < s.len()
        invariant
            start <= i <= s@.len(),
            start < s@.len(),
            digits == s@.skip(start as int),
            number(s@) == match digits_value(digits) {
                Some(v) => if digits.len() > 0 && v <= u64::MAX {
                    Some(v as u64)
                } else {
                    None
                },
                None => None,
            },
            digits_value(digits.take(i - start)) == Some(value as nat),
        decreases s@.len() - i,
    {
        let c: char = s[i];
        proof {
            assert(digits.take(i - start + 1).drop_last() =~= digits.take(i - start));
            lemma_digits_take(digits, i - start + 1);
        }
        if c < '0' || c > '9' {
            return None;
        }
        let low: u64 = (c as u32 - '0' as u32) as u64;
        if value > u64::MAX / 10 {
            return None;
        }
        if 10 * value > u64::MAX - low {
            return None;
        }
        value = 10 * value + low;
        i += 1;
    }
    proof {
        assert(digits.take(i - start) =~= digits);
    }
    Some(value)
}

/// A decimal digit.
pub open spec fn digit(v: nat) -> char {
    ('0' as u32 + v % 10) as u32 as char
}

/// A number in decimal digits.
pub open spec fn decimal(v: nat) -> Seq<char>
    decreases v,
{
    if v < 10 {
        seq![digit(v)]
    } else {
        decimal(v / 10).push(digit(v % 10))
    }
}

proof fn lemma_digit(v: nat)
    requires
        v < 10,
    ensures
        digit_value(digit(v)) == Some(v),
        '0' <= digit(v) <= '9',
{
}

/// Reading the digits of a number gives the number.
pub proof fn lemma_decimal(v: nat)
    ensures
        digits_value(decimal(v)) == Some(v),
        decimal(v).len() > 0,
        forall|i: int| 0 <= i < decimal(v).len() ==> '0' <= #[trigger] decimal(v)[i] <= '9',
    decreases v,
{
    lemma_digit(v % 10);
    if v < 10 {
        let none = Seq::<char>::empty();
        assert(decimal(v).drop_last() =~= none);
        assert(digits_value(none) == Some(0nat));
        assert(decimal(v).last() == digit(v));
    } else {
        lemma_decimal(v / 10);
        assert(decimal(v).drop_last() =~= decimal(v / 10));
        assert(decimal(v).last() == digit(v % 10));
        assert(digits_value(decimal(v)) == Some(10 * (v / 10) + v % 10));
    }
}

/// A number that was written in decimal is read back.
pub proof fn law_number_roundtrip(v: u64)
    ensures
        number(decimal(v as nat)) == Some(v),
{
    lemma_decimal(v as nat);
    assert('0' <= decimal(v as nat)[0]);
}

/// A hexadecimal digit.
pub open spec fn hex_digit(v: nat) -> char {
    if v < 10 {
        ('0' as u32 + v) as u32 as char
    } else {
        ('a' as u32 + v - 10) as u32 as char
    }
}

/// One digit as text.
fn digit_text(v: u8) -> (r: &'static str)
    requires
        v < 16,
    ensures
        r@ == seq![hex_digit(v as nat)],
{
    proof {
        reveal_strlit("0");
        reveal_strlit("1");
        reveal_strlit("2");
        reveal_strlit("3");
        reveal_strlit("4");
        reveal_strlit("5");
        reveal_strlit("6");
        reveal_strlit("7");
        reveal_strlit("8");
        reveal_strlit("9");
        reveal_strlit("a");
        reveal_strlit("b");
        reveal_strlit("c");
        reveal_strlit("d");
        reveal_strlit("e");
        reveal_strlit("f");
    }
    let r: &'static str = if v == 0 {
        "0"
    } else if v == 1 {
        "1"
    } else if v == 2 {
        "2"
    } else if v == 3 {
        "3"
    } else if v == 4 {
        "4"
    } else if v == 5 {
        "5"
    } else if v == 6 {
        "6"
    } else if v == 7 {
        "7"
    } else if v == 8 {
        "8"
    } else if v == 9 {
        "9"
    } else if v == 10 {
        "a"
    } else if v == 11 {
        "b"
    } else if v == 12 {
        "c"
    } else if v == 13 {
        "d"
    } else if v == 14 {
        "e"
    } else {
        "f"
    };
    proof {
        assert(r@ =~= seq![hex_digit(v as nat)]);
    }
    r
}

/// Appends a decimal digit.
pub fn append_digit(out: &mut String, v: u8)
    requires
        v < 10,
    ensures
        final(out)@ == old(out)@.push(digit(v as nat)),
{
    out.append(digit_text(v));
    proof {
        assert(out@ =~= old(out)@.push(digit(v as nat)));
    }
}

/// Appends a number in decimal digits.
pub fn append_number(out: &mut String, v: u64)
    ensures
        final(out)@ == old(out)@ + decimal(v as nat),
    decreases v,
{
    if v >= 10 {
        append_number(out, v / 10);
    }
    append_digit(out, (v % 10) as u8);
    proof {
        assert(out@ =~= old(out)@ + decimal(v as nat));
    }
}

/// A number in decimal digits.
pub fn number_text(v: u64) -> (r: String)
    ensures
        r@ == decimal(v as nat),
{
    let mut out: String = String::new();
    append_number(&mut out, v);
    proof {
        assert(out@ =~= decimal(v as nat));
    }
    out
}

/// Bytes in hexadecimal digits.
pub open spec fn hex_of(bytes: Seq<u8>) -> Seq<char>
    decreases bytes.len(),
{
    if bytes.len() == 0 {
        Seq::empty()
    } else {
        hex_of(bytes.drop_last()).push(hex_digit(bytes.last() as nat / 16)).push(
            hex_digit(bytes.last() as nat % 16),
        )
    }
}

/// Appends bytes in hexadecimal digits.
pub fn append_hex(out: &mut String, bytes: &[u8])
    ensures
        final(out)@ == old(out)@ + hex_of(bytes@),
{
    let ghost start = out@;
    let mut i: usize = 0;
    proof {
        assert(bytes@.take(0) =~= Seq::empty());
        assert(start + hex_of(bytes@.take(0)) =~= start);
    }
    while i < bytes.len()
        invariant
            i <= bytes@.len(),
            start == old(out)@,
            out@ == start + hex_of(bytes@.take(i as int)),
        decreases bytes@.len() - i,
    {
        let b: u8 = bytes[i];
        let ghost before = out@;
        out.append(digit_text(b / 16));
        out.append(digit_text(b % 16));
        proof {
            let more = bytes@.take(i + 1);
            assert(more.drop_last() =~= bytes@.take(i as int));
            assert(more.last() == b);
            assert(out@ =~= start + hex_of(more));
        }
        i += 1;
    }
    proof {
        assert(bytes@.take(i as int) =~= bytes@);
    }
}

/// Bytes in hexadecimal digits.
pub fn hex(bytes: &[u8]) -> (r: String)
    ensures
        r@ == hex_of(bytes@),
{
    let mut out: String = String::new();
    append_hex(&mut out, bytes);
    proof {
        assert(out@ =~= hex_of(bytes@));
    }
    out
}

/// What a hexadecimal digit, in either case, stands for.
pub open spec fn hex_value(c: char) -> Option<u8> {
    if '0' <= c <= '9' {
        Some((c as u32 - '0' as u32) as u8)
    } else if 'a' <= c <= 'f' {
        Some((c as u32 - 'a' as u32 + 10) as u8)
    } else if 'A' <= c <= 'F' {
        Some((c as u32 - 'A' as u32 + 10) as u8)
    } else {
        None
    }
}

/// What a hexadecimal digit stands for.
fn read_digit(c: char) -> (r: Option<u8>)
    ensures
        r == hex_value(c),
        r matches Some(v) ==> v < 16,
{
    if c >= '0' && c <= '9' {
        Some((c as u32 - '0' as u32) as u8)
    } else if c >= 'a' && c <= 'f' {
        Some((c as u32 - 'a' as u32 + 10) as u8)
    } else if c >= 'A' && c <= 'F' {
        Some((c as u32 - 'A' as u32 + 10) as u8)
    } else {
        None
    }
}

/// The bytes that hexadecimal digits stand for, two for each.
pub open spec fn unhex(s: Seq<char>) -> Option<Seq<u8>>
    decreases s.len(),
{
    if s.len() == 0 {
        Some(Seq::empty())
    } else if s.len() == 1 {
        None
    } else {
        let n = s.len() as int;
        match (unhex(s.take(n - 2)), hex_value(s[n - 2]), hex_value(s[n - 1])) {
            (Some(done), Some(high), Some(low)) => Some(done.push((16 * high + low) as u8)),
            _ => None,
        }
    }
}

proof fn lemma_unhex_prefix(s: Seq<char>, i: int)
    requires
        0 <= i <= s.len(),
        (s.len() - i) % 2 == 0,
        unhex(s.take(i)) is None,
    ensures
        unhex(s) is None,
    decreases s.len(),
{
    if i < s.len() {
        let n = s.len() as int;
        assert(s.take(n - 2).take(i) =~= s.take(i));
        lemma_unhex_prefix(s.take(n - 2), i);
    } else {
        assert(s.take(i) =~= s);
    }
}

proof fn lemma_unhex_odd(s: Seq<char>)
    requires
        s.len() % 2 == 1,
    ensures
        unhex(s) is None,
    decreases s.len(),
{
    if s.len() > 1 {
        lemma_unhex_odd(s.take(s.len() - 2));
    }
}

/// The bytes that hexadecimal digits stand for.
pub fn parse_hex(s: &[char]) -> (r: Option<Vec<u8>>)
    ensures
        match r {
            Some(bytes) => unhex(s@) == Some(bytes@),
            None => unhex(s@) is None,
        },
{
    if s.len() % 2 == 1 {
        proof {
            lemma_unhex_odd(s@);
        }
        return None;
    }
    let mut out: Vec<u8> = Vec::new();
    let mut i: usize = 0;
    proof {
        assert(s@.take(0) =~= Seq::empty());
    }
    while i < s.len()
        invariant
            i <= s@.len(),
            i % 2 == 0,
            s@.len() % 2 == 0,
            unhex(s@.take(i as int)) == Some(out@),
        decreases s@.len() - i,
    {
        let ghost more = s@.take(i + 2);
        assert(i + 1 < s.len());
        proof {
            assert(more.take(i as int) =~= s@.take(i as int));
            if unhex(more) is None {
                lemma_unhex_prefix(s@, i + 2);
            }
        }
        match (read_digit(s[i]), read_digit(s[i + 1])) {
            (Some(high), Some(low)) => {
                out.push(16 * high + low);
            },
            _ => {
                return None;
            },
        }
        i += 2;
    }
    proof {
        assert(s@.take(i as int) =~= s@);
    }
    Some(out)
}

/// Bytes that were written in hexadecimal are read back.
pub proof fn law_hex_roundtrip(bytes: Seq<u8>)
    ensures
        unhex(hex_of(bytes)) == Some(bytes),
        hex_of(bytes).len() == 2 * bytes.len(),
    decreases bytes.len(),
{
    if bytes.len() > 0 {
        law_hex_roundtrip(bytes.drop_last());
        let s = hex_of(bytes);
        let n = s.len() as int;
        assert(s.take(n - 2) =~= hex_of(bytes.drop_last()));
        let b = bytes.last();
        assert(hex_value(hex_digit(b as nat / 16)) == Some((b / 16) as u8));
        assert(hex_value(hex_digit(b as nat % 16)) == Some((b % 16) as u8));
        assert((16 * (b / 16) + b % 16) as u8 == b);
        assert(bytes.drop_last().push(b) =~= bytes);
    }
}

/// The characters from `from` to `to`.
pub fn part(s: &[char], from: usize, to: usize) -> (r: Vec<char>)
    requires
        from <= to <= s@.len(),
    ensures
        r@ == s@.subrange(from as int, to as int),
        from == 0 ==> r@ == s@.take(to as int),
        to == s@.len() ==> r@ == s@.skip(from as int),
{
    let mut out: Vec<char> = Vec::new();
    let mut i: usize = from;
    while i < to
        invariant
            from <= i <= to <= s@.len(),
            out@ == s@.subrange(from as int, i as int),
        decreases to - i,
    {
        out.push(s[i]);
        i += 1;
        proof {
            assert(out@ =~= s@.subrange(from as int, i as int));
        }
    }
    proof {
        if from == 0 {
            assert(out@ =~= s@.take(to as int));
        }
        if to == s@.len() {
            assert(out@ =~= s@.skip(from as int));
        }
    }
    out
}

/// Whether a character is white space.
pub open spec fn is_blank(c: char) -> bool {
    let v = c as u32;
    ||| 0x09 <= v <= 0x0d
    ||| v == 0x20
    ||| v == 0x85
    ||| v == 0xa0
    ||| v == 0x1680
    ||| 0x2000 <= v <= 0x200a
    ||| v == 0x2028
    ||| v == 0x2029
    ||| v == 0x202f
    ||| v == 0x205f
    ||| v == 0x3000
}

/// Whether a character is white space.
pub fn blank(c: char) -> (r: bool)
    ensures
        r == is_blank(c),
{
    let v: u32 = c as u32;
    (v >= 0x09 && v <= 0x0d) || v == 0x20 || v == 0x85 || v == 0xa0 || v == 0x1680 || (v >= 0x2000
        && v <= 0x200a) || v == 0x2028 || v == 0x2029 || v == 0x202f || v == 0x205f || v == 0x3000
}

/// The place of the first character from `from` on that is not white space.
pub open spec fn first_mark(s: Seq<char>, from: int) -> int
    decreases s.len() - from,
{
    if 0 <= from < s.len() && is_blank(s[from]) {
        first_mark(s, from + 1)
    } else {
        from
    }
}

/// The place behind the last character before `to` that is not white space, and not
/// below `from`.
pub open spec fn last_mark(s: Seq<char>, from: int, to: int) -> int
    decreases to - from,
{
    if from < to && is_blank(s[to - 1]) {
        last_mark(s, from, to - 1)
    } else {
        to
    }
}

/// A text without the white space around it.
pub open spec fn trimmed(s: Seq<char>) -> Seq<char> {
    let from = first_mark(s, 0);
    s.subrange(from, last_mark(s, from, s.len() as int))
}

proof fn lemma_last_mark(s: Seq<char>, from: int, to: int)
    requires
        from <= to,
    ensures
        from <= last_mark(s, from, to) <= to,
    decreases to - from,
{
    if from < to && is_blank(s[to - 1]) {
        lemma_last_mark(s, from, to - 1);
    }
}

/// A text without the white space around it.
pub fn trim(s: &[char]) -> (r: Vec<char>)
    ensures
        r@ == trimmed(s@),
{
    let mut from: usize = 0;
    while from < s.len() && blank(s[from])
        invariant
            from <= s@.len(),
            first_mark(s@, 0) == first_mark(s@, from as int),
        decreases s@.len() - from,
    {
        from += 1;
    }
    let mut to: usize = s.len();
    while to > from && blank(s[to - 1])
        invariant
            from <= to <= s@.len(),
            last_mark(s@, from as int, s@.len() as int) == last_mark(s@, from as int, to as int),
        decreases to,
    {
        to -= 1;
    }
    part(s, from, to)
}

/// The first place from `from` on at which `t` stands in `s`.
pub open spec fn find_from(s: Seq<char>, t: Seq<char>, from: int) -> Option<int>
    decreases s.len() + 1 - from,
{
    if from < 0 || from + t.len() > s.len() {
        None
    } else if stands_at(s, t, from) {
        Some(from)
    } else {
        find_from(s, t, from + 1)
    }
}

/// The first place at which `t` stands in `s`.
pub fn find_text(s: &[char], t: &[char]) -> (r: Option<usize>)
    ensures
        match r {
            Some(i) => find_from(s@, t@, 0) == Some(i as int) && i + t@.len() <= s@.len(),
            None => find_from(s@, t@, 0) is None,
        },
{
    let mut i: usize = 0;
    while i <= s.len() && t.len() <= s.len() - i
        invariant
            i <= s@.len() + 1,
            find_from(s@, t@, 0) == find_from(s@, t@, i as int),
        decreases s@.len() + 1 - i,
    {
        if is_at(s, t, i) {
            return Some(i);
        }
        if i == s.len() {
            proof {
                assert(find_from(s@, t@, i + 1) is None);
            }
            return None;
        }
        i += 1;
    }
    None
}

} // verus!
