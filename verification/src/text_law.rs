//! What numbers, digits and file names are as text.
use crate::cfxpack::files::{bounded_key, shard_epochs, shard_key};
use crate::cfxpack::names::{extension, name_end, name_start, names_pack, pack_key, pack_name, shard_range, shard_text, stem};
use crate::extract::reward_json::{field, fixed_hex, quotes_end};
use crate::text::{decimal, digit, digits_value, ends_with, find_from, first_mark, first_place, hex_digit, hex_of, hex_value, is_blank, last_mark, last_place, law_number_roundtrip, lemma_last_place, number, stands_at, trimmed, unhex};
use vstd::prelude::*;

verus! {

/// The digits of a number in decimal: none but digits, no leading zero but that of zero itself,
/// and each counts ten times as much as the next.
pub proof fn law_decimal_digits(v: nat)
    ensures
        ({
            let s = decimal(v);
            &&& s.len() > 0
            &&& forall|i: int| 0 <= i < s.len() ==> '0' <= #[trigger] s[i] <= '9'
            &&& s.len() > 1 ==> s[0] != '0'
            &&& s.fold_left(0int, |a: int, c: char| 10 * a + (c as int - 48)) == v
        }),
    decreases v,
{
    let s = decimal(v);
    let f = |a: int, c: char| 10 * a + (c as int - 48);
    if v < 10 {
        assert(s.drop_last() =~= Seq::empty());
        assert(s.last() == digit(v));
        reveal_with_fuel(Seq::fold_left, 2);
    } else {
        law_decimal_digits(v / 10);
        let t = decimal(v / 10);
        assert(s.drop_last() =~= t);
        assert(s.last() == digit(v % 10));
        assert forall|i: int| 0 <= i < s.len() implies '0' <= #[trigger] s[i] <= '9' by {
            if i < t.len() {
                assert(s[i] == t[i]);
            }
        }
        assert(s[0] == t[0]);
        if t.len() == 1 {
            reveal_with_fuel(Seq::fold_left, 2);
            assert(t.drop_last() =~= Seq::empty());
            assert(t.fold_left(0int, f) == t[0] as int - 48);
        }
    }
}

proof fn lemma_digits(s: Seq<char>)
    ensures
        digits_value(s) is Some <==> forall|i: int| 0 <= i < s.len() ==> '0' <= #[trigger] s[i]
            <= '9',
        digits_value(s) matches Some(v) ==> v == s.fold_left(
            0int,
            |a: int, c: char| 10 * a + (c as int - 48),
        ),
    decreases s.len(),
{
    if s.len() > 0 {
        let t = s.drop_last();
        lemma_digits(t);
        assert(s[s.len() - 1] == s.last());
        if digits_value(s) is Some {
            assert forall|i: int| 0 <= i < s.len() implies '0' <= #[trigger] s[i] <= '9' by {
                if i < t.len() {
                    assert(t[i] == s[i]);
                }
            }
        }
        if forall|i: int| 0 <= i < s.len() ==> '0' <= #[trigger] s[i] <= '9' {
            assert forall|i: int| 0 <= i < t.len() implies '0' <= #[trigger] t[i] <= '9' by {
                assert(t[i] == s[i]);
            }
        }
    }
}

/// A text is a number where it is one or more digits, behind a plus sign or not, that stand for
/// less than two to the 64th.
pub proof fn law_number(s: Seq<char>, d: Seq<char>)
    requires
        d == (if s.len() > 0 && s[0] == '+' {
            s.skip(1)
        } else {
            s
        }),
    ensures
        number(s) is Some <==> {
            &&& d.len() > 0
            &&& forall|i: int| 0 <= i < d.len() ==> '0' <= #[trigger] d[i] <= '9'
            &&& d.fold_left(0int, |a: int, c: char| 10 * a + (c as int - 48)) <= u64::MAX
        },
        number(s) matches Some(v) ==> v == d.fold_left(
            0int,
            |a: int, c: char| 10 * a + (c as int - 48),
        ),
{
    lemma_digits(d);
}

/// Bytes in hexadecimal are two digits each, the high half first, in small letters.
pub proof fn law_hex_digits(bytes: Seq<u8>)
    ensures
        hex_of(bytes).len() == 2 * bytes.len(),
        forall|i: int|
            0 <= i < bytes.len() ==> hex_of(bytes)[2 * i] == "0123456789abcdef"@[(
            #[trigger] bytes[i]) as int / 16] && hex_of(bytes)[2 * i + 1]
                == "0123456789abcdef"@[bytes[i] as int % 16],
    decreases bytes.len(),
{
    reveal_strlit("0123456789abcdef");
    if bytes.len() > 0 {
        let t = bytes.drop_last();
        law_hex_digits(t);
        let s = hex_of(bytes);
        assert forall|i: int| 0 <= i < bytes.len() implies s[2 * i] == "0123456789abcdef"@[(
        #[trigger] bytes[i]) as int / 16] && s[2 * i + 1] == "0123456789abcdef"@[bytes[i] as int
            % 16] by {
            if i < t.len() {
                assert(t[i] == bytes[i]);
                assert(s[2 * i] == hex_of(t)[2 * i]);
                assert(s[2 * i + 1] == hex_of(t)[2 * i + 1]);
            } else {
                lemma_hex_letter(bytes[i] as nat / 16);
                lemma_hex_letter(bytes[i] as nat % 16);
            }
        }
    }
}

proof fn lemma_hex_letter(v: nat)
    requires
        v < 16,
    ensures
        hex_digit(v) == "0123456789abcdef"@[v as int],
{
    reveal_strlit("0123456789abcdef");
}

/// The value of a hexadecimal digit, which may be a letter of either case.
pub proof fn law_hex_value(c: char, v: int)
    requires
        0 <= v < 16,
    ensures
        hex_value(c) == Some(v as u8) <==> c == "0123456789abcdef"@[v] || c
            == "0123456789ABCDEF"@[v],
{
    reveal_strlit("0123456789abcdef");
    reveal_strlit("0123456789ABCDEF");
}

/// Digits stand for bytes where they are even in number and all hexadecimal; two stand for a
/// byte, the high half first.
pub proof fn law_unhex(s: Seq<char>)
    ensures
        unhex(s) is Some <==> s.len() % 2 == 0 && forall|i: int|
            0 <= i < s.len() ==> hex_value(#[trigger] s[i]) is Some,
        unhex(s) matches Some(b) ==> 2 * b.len() == s.len() && forall|i: int|
            0 <= i < b.len() ==> #[trigger] b[i] == 16 * hex_value(s[2 * i])->0 + hex_value(
                s[2 * i + 1],
            )->0,
    decreases s.len(),
{
    if s.len() >= 2 {
        let n = s.len() as int;
        let t = s.take(n - 2);
        law_unhex(t);
        if unhex(s) is Some {
            assert forall|i: int| 0 <= i < n implies hex_value(#[trigger] s[i]) is Some by {
                if i < n - 2 {
                    assert(t[i] == s[i]);
                }
            }
            let b = unhex(s)->0;
            let d = unhex(t)->0;
            assert forall|i: int| 0 <= i < b.len() implies #[trigger] b[i] == 16 * hex_value(
                s[2 * i],
            )->0 + hex_value(s[2 * i + 1])->0 by {
                if i < d.len() {
                    assert(d[i] == b[i]);
                    assert(t[2 * i] == s[2 * i] && t[2 * i + 1] == s[2 * i + 1]);
                }
            }
        }
        if forall|i: int| 0 <= i < n ==> hex_value(#[trigger] s[i]) is Some {
            assert forall|i: int| 0 <= i < t.len() implies hex_value(#[trigger] t[i]) is Some by {
                assert(t[i] == s[i]);
            }
            assert(hex_value(s[n - 2]) is Some && hex_value(s[n - 1]) is Some);
        }
    }
}

/// Trimming takes off the white space at both ends and nothing else.
pub proof fn law_trimmed(s: Seq<char>)
    ensures
        exists|a: int, b: int|
            #![trigger s.subrange(a, b)]
            {
                &&& 0 <= a <= b <= s.len()
                &&& trimmed(s) == s.subrange(a, b)
                &&& forall|i: int| 0 <= i < a ==> is_blank(#[trigger] s[i])
                &&& forall|i: int| b <= i < s.len() ==> is_blank(#[trigger] s[i])
                &&& a < b ==> !is_blank(s[a]) && !is_blank(s[b - 1])
            },
{
    let a = first_mark(s, 0);
    lemma_first_mark(s, 0);
    let b = last_mark(s, a, s.len() as int);
    lemma_last_mark(s, a, s.len() as int);
    assert(trimmed(s) == s.subrange(a, b));
}

proof fn lemma_first_mark(s: Seq<char>, from: int)
    requires
        0 <= from <= s.len(),
    ensures
        from <= first_mark(s, from) <= s.len(),
        forall|i: int| from <= i < first_mark(s, from) ==> is_blank(#[trigger] s[i]),
        first_mark(s, from) < s.len() ==> !is_blank(s[first_mark(s, from)]),
    decreases s.len() - from,
{
    if from < s.len() && is_blank(s[from]) {
        lemma_first_mark(s, from + 1);
    }
}

proof fn lemma_last_mark(s: Seq<char>, from: int, to: int)
    requires
        0 <= from <= to <= s.len(),
    ensures
        from <= last_mark(s, from, to) <= to,
        forall|i: int| last_mark(s, from, to) <= i < to ==> is_blank(#[trigger] s[i]),
        last_mark(s, from, to) > from ==> !is_blank(s[last_mark(s, from, to) - 1]),
    decreases to - from,
{
    if from < to && is_blank(s[to - 1]) {
        lemma_last_mark(s, from, to - 1);
    }
}

/// Looking for a text finds the first place from which on it stands.
pub proof fn law_find(s: Seq<char>, t: Seq<char>, from: int)
    requires
        0 <= from,
    ensures
        match find_from(s, t, from) {
            Some(i) => {
                &&& from <= i && i + t.len() <= s.len()
                &&& s.subrange(i, i + t.len()) == t
                &&& forall|j: int|
                    #![trigger s.subrange(j, j + t.len())]
                    from <= j < i ==> s.subrange(j, j + t.len()) != t
            },
            None => forall|j: int|
                #![trigger s.subrange(j, j + t.len())]
                from <= j && j + t.len() <= s.len() ==> s.subrange(j, j + t.len()) != t,
        },
    decreases s.len() + 1 - from,
{
    if from + t.len() <= s.len() && !stands_at(s, t, from) {
        law_find(s, t, from + 1);
    }
}

/// The name of a container file: a prefix, its first and its last epoch in decimal, with
/// underscores between them, and ".cfxpack". Both epochs can be told from the name, also where
/// ".zst" follows.
pub proof fn law_pack_names(prefix: Seq<char>, start: u64, end: u64)
    ensures
        ({
            let base = prefix + "_"@ + decimal(start as nat) + "_"@ + decimal(end as nat);
            let plain = base + ".cfxpack"@;
            let zst = base + ".cfxpack.zst"@;
            &&& pack_name(prefix, start, end) == plain
            &&& names_pack(plain) && names_pack(zst)
            &&& name_start(plain) == Some(start)
            &&& name_end(plain) == Some(end)
            &&& name_start(zst) == Some(start)
            &&& name_end(zst) == Some(end)
        }),
{
    reveal_strlit(".cfxpack");
    reveal_strlit(".cfxpack.zst");
    let base = prefix + "_"@ + decimal(start as nat) + "_"@ + decimal(end as nat);
    let plain = base + ".cfxpack"@;
    let zst = base + ".cfxpack.zst"@;
    crate::cfxpack::names::law_name_roundtrip(prefix, start, end);
    assert(plain.skip(plain.len() - 8) =~= ".cfxpack"@);
    assert(zst.skip(zst.len() - 12) =~= ".cfxpack.zst"@);
    assert(plain.take(plain.len() - 8) =~= base);
    assert(zst.take(zst.len() - 12) =~= base);
    assert(stem(zst) == Some(base));
    assert(!ends_with(plain, ".cfxpack.zst"@));
    assert(stem(plain) == Some(base));
}

/// A file whose name ends in neither is no container, and tells no epochs.
pub proof fn law_no_pack(name: Seq<char>)
    requires
        name.len() >= 12,
        name.skip(name.len() - 8) != ".cfxpack"@,
        name.skip(name.len() - 12) != ".cfxpack.zst"@,
    ensures
        !names_pack(name),
        name_start(name) is None,
        name_end(name) is None,
{
    reveal_strlit(".cfxpack");
    reveal_strlit(".cfxpack.zst");
}

/// A name that starts with "epochs_" and a number, up to an underscore, is ordered by that
/// number; one that starts otherwise comes last.
pub proof fn law_pack_key(start: u64, rest: Seq<char>, name: Seq<char>)
    ensures
        pack_key("epochs_"@ + decimal(start as nat) + "_"@ + rest) == start,
        name.len() >= 7 && name.subrange(0, 7) != "epochs_"@ ==> pack_key(name) == u64::MAX,
        name.len() < 7 ==> pack_key(name) == u64::MAX,
{
    reveal_strlit("epochs_");
    reveal_strlit("_");
    let d = decimal(start as nat);
    let full = "epochs_"@ + d + "_"@ + rest;
    assert(full.subrange(0, 7) =~= "epochs_"@);
    let tail = full.skip(7);
    assert(tail =~= d + "_"@ + rest);
    law_decimal_digits(start as nat);
    lemma_first_score(d, rest, 0);
    assert(tail.take(d.len() as int) =~= d);
    law_number_roundtrip(start);
}

proof fn lemma_first_score(d: Seq<char>, rest: Seq<char>, from: int)
    requires
        0 <= from <= d.len(),
        forall|i: int| 0 <= i < d.len() ==> '0' <= #[trigger] d[i] <= '9',
    ensures
        first_place(d + "_"@ + rest, '_', from) == Some(d.len() as int),
    decreases d.len() - from,
{
    reveal_strlit("_");
    let s = d + "_"@ + rest;
    if from < d.len() {
        assert(s[from] == d[from]);
        lemma_first_score(d, rest, from + 1);
    } else {
        assert(s[from] == '_');
    }
}

/// The name of a shard file: its first and its last epoch in decimal with a dash between them,
/// and ".cfxpkt". Both epochs, and how many there are, can be told from the name.
pub proof fn law_shard_names(start: u64, end: u64)
    ensures
        ({
            let name = decimal(start as nat) + "-"@ + decimal(end as nat) + ".cfxpkt"@;
            &&& shard_text(start, end) == name
            &&& shard_range(name) == Some((start, end))
            &&& shard_key(name) == Some(start)
            &&& start <= end && end - start < u64::MAX ==> shard_epochs(name) == Some(
                (end - start + 1) as nat,
            )
            &&& start > end ==> shard_epochs(name) is None
        }),
{
    crate::cfxpack::names::law_shard_name_roundtrip(start, end);
}

/// A container file is read where its name ends in ".cfxpack", and its first epoch is not below
/// the least and below the bound.
pub proof fn law_bounded(name: Seq<char>, max_epoch: Option<u64>, min_epoch: Option<u64>)
    ensures
        bounded_key(name, max_epoch, min_epoch) is Some <==> {
            &&& extension(name) == Some("cfxpack"@)
            &&& max_epoch matches Some(m) ==> pack_key(name) < m
            &&& min_epoch matches Some(m) ==> m <= pack_key(name)
        },
        bounded_key(name, max_epoch, min_epoch) matches Some(k) ==> k == pack_key(name),
{
}

/// The extension of a name is what stands behind its last full stop, where that is not the first
/// character.
pub proof fn law_extension(head: Seq<char>, tail: Seq<char>)
    requires
        forall|i: int| 0 <= i < tail.len() ==> #[trigger] tail[i] != '.',
    ensures
        head.len() > 0 ==> extension(head + seq!['.'] + tail) == Some(tail),
        extension(tail) is None,
        extension(seq!['.'] + tail) is None,
{
    let s = head + seq!['.'] + tail;
    lemma_last_place(s, '.');
    assert(s[head.len() as int] == '.');
    if let Some(i) = last_place(s, '.') {
        if i > head.len() {
            assert(s[i] == tail[i - head.len() - 1]);
        }
        if i < head.len() {
            assert(s[head.len() as int] != '.');
        }
    }
    assert(s.skip(head.len() as int + 1) =~= tail);
    lemma_last_place(tail, '.');
    let t = seq!['.'] + tail;
    lemma_last_place(t, '.');
    if let Some(i) = last_place(t, '.') {
        if i > 0 {
            assert(t[i] == tail[i - 1]);
        }
    }
}

proof fn lemma_found_at(s: Seq<char>, t: Seq<char>, from: int, at: int)
    requires
        0 <= from <= at,
        at + t.len() <= s.len(),
        s.subrange(at, at + t.len()) == t,
        forall|j: int|
            #![trigger s.subrange(j, j + t.len())]
            from <= j < at ==> s.subrange(j, j + t.len()) != t,
    ensures
        find_from(s, t, from) == Some(at),
    decreases at - from,
{
    if from < at {
        assert(s.subrange(from, from + t.len()) != t);
        lemma_found_at(s, t, from + 1, at);
    }
}

/// The value of a key in a line: it stands behind the first place where the key stands in
/// quotation marks with a colon, behind white space, in quotation marks of its own.
pub proof fn law_field(line: Seq<char>, key: Seq<char>, at: int, gap: int, body: Seq<char>)
    requires
        0 <= at,
        0 <= gap,
        at + key.len() + 3 + gap + 2 + body.len() <= line.len(),
        ({
            let pattern = seq!['"'] + key + seq!['"', ':'];
            &&& line.subrange(at, at + pattern.len()) == pattern
            &&& forall|j: int|
                #![trigger line.subrange(j, j + pattern.len())]
                0 <= j < at ==> line.subrange(j, j + pattern.len()) != pattern
        }),
        forall|i: int|
            at + key.len() + 3 <= i < at + key.len() + 3 + gap ==> is_blank(#[trigger] line[i]),
        line[at + key.len() + 3 + gap] == '"',
        body.len() > 0,
        forall|i: int| 0 <= i < body.len() ==> #[trigger] body[i] != '"',
        line.subrange(
            at + key.len() + 4 + gap,
            at + key.len() + 4 + gap + body.len(),
        ) == body,
        line[at + key.len() + 4 + gap + body.len()] == '"',
    ensures
        field(line, key) == Some(body),
{
    reveal_strlit("\"");
    reveal_strlit("\":");
    let pattern = "\""@ + key + "\":"@;
    assert(pattern =~= seq!['"'] + key + seq!['"', ':']);
    lemma_found_at(line, pattern, 0, at);
    let v = line.skip(at + pattern.len());
    let n = v.len() as int;
    let m = body.len() as int;
    assert(!is_blank('"'));
    assert forall|i: int| 0 <= i < gap implies is_blank(#[trigger] v[i]) by {
        assert(v[i] == line[at + key.len() + 3 + i]);
    }
    assert(v[gap] == '"');
    assert(v[gap + 1 + m] == '"');
    lemma_mark_at(v, 0, gap);
    lemma_last_mark(v, gap, n);
    let end = last_mark(v, gap, n);
    if end <= gap + 1 + m {
        assert(is_blank(v[gap + 1 + m]));
    }
    let rest = trimmed(v);
    assert(rest == v.subrange(gap, end));
    assert(rest[0] == '"');
    assert(rest[1] == body[0]) by {
        assert(line.subrange(
            at + key.len() + 4 + gap,
            at + key.len() + 4 + gap + body.len(),
        )[0] == body[0]);
    }
    assert(body[0] != '"');
    reveal_with_fuel(quotes_end, 3);
    assert(quotes_end(rest, 0) == 1);
    let value = rest.skip(1);
    assert forall|i: int| 0 <= i < m implies value[i] == body[i] by {
        assert(line.subrange(
            at + key.len() + 4 + gap,
            at + key.len() + 4 + gap + body.len(),
        )[i] == body[i]);
        assert(rest[i + 1] == v[gap + 1 + i]);
    }
    assert(value[m] == '"') by {
        assert(rest[m + 1] == v[gap + 1 + m]);
    }
    lemma_quote_at(value, 0, m);
    assert(value.take(m) =~= body);
}

proof fn lemma_mark_at(s: Seq<char>, from: int, at: int)
    requires
        0 <= from <= at < s.len(),
        forall|i: int| from <= i < at ==> is_blank(#[trigger] s[i]),
        !is_blank(s[at]),
    ensures
        first_mark(s, from) == at,
    decreases at - from,
{
    if from < at {
        assert(is_blank(s[from]));
        lemma_mark_at(s, from + 1, at);
    }
}

proof fn lemma_quote_at(s: Seq<char>, from: int, at: int)
    requires
        0 <= from <= at < s.len(),
        forall|i: int| from <= i < at ==> #[trigger] s[i] != '"',
        s[at] == '"',
    ensures
        first_place(s, '"', from) == Some(at),
    decreases at - from,
{
    if from < at {
        assert(s[from] != '"');
        lemma_quote_at(s, from + 1, at);
    }
}

/// Bytes in hexadecimal, with "0x" before them, are read where they are as many as asked for.
pub proof fn law_fixed_hex(bytes: Seq<u8>, n: nat)
    ensures
        fixed_hex(seq!['0', 'x'] + hex_of(bytes), n) == (if bytes.len() == n {
            Some(bytes)
        } else {
            None
        }),
{
    reveal_strlit("0x");
    let s = seq!['0', 'x'] + hex_of(bytes);
    assert(s.subrange(0, 2) =~= "0x"@);
    assert(s.skip(2) =~= hex_of(bytes));
    crate::text::law_hex_roundtrip(bytes);
}

} // verus!
