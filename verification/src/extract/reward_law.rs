//! A PoS reward that was written as text is read back.
use crate::cfxpack::decimal::{law_word_roundtrip};
use crate::cfxpack::packet::{RewardAccountModel, RewardModel};
use crate::cfxpack::types::{be_value, zeros};
use crate::extract::reward_json::{account_line, account_lines, field, fixed_hex, names, quotes_end, reward_lines, reward_text, RewardTextError, with_line, with_lines};
use crate::text::{decimal, find_from, first_mark, first_place, hex_digit, hex_of, is_blank, last_mark, law_hex_roundtrip, lemma_decimal, stands_at, trimmed};
use vstd::prelude::*;

verus! {

/// Whether a quotation mark with `c` behind it stands at `i`.
spec fn opens(s: Seq<char>, c: char, i: int) -> bool {
    0 <= i && i + 1 < s.len() && s[i] == '"' && s[i + 1] == c
}

/// No quotation mark has `c` behind it.
spec fn never_opens(s: Seq<char>, c: char) -> bool {
    forall|i: int| !#[trigger] opens(s, c, i)
}

/// From `i` on, no quotation mark has `c` behind it.
spec fn unopened(s: Seq<char>, c: char, i: int) -> bool
    decreases s.len() - i,
{
    i < 0 || i >= s.len() || (!opens(s, c, i) && unopened(s, c, i + 1))
}

/// `c` does not occur.
spec fn lacks(s: Seq<char>, c: char) -> bool {
    forall|i: int| 0 <= i < s.len() ==> #[trigger] s[i] != c
}

/// From `i` on, `c` does not occur.
spec fn missing(s: Seq<char>, c: char, i: int) -> bool
    decreases s.len() - i,
{
    i < 0 || i >= s.len() || (s[i] != c && missing(s, c, i + 1))
}

/// From `i` on, two texts are the same.
spec fn agree(a: Seq<char>, b: Seq<char>, i: int) -> bool
    decreases a.len() - i,
{
    i < 0 || i >= a.len() || (a[i] == b[i] && agree(a, b, i + 1))
}

proof fn lemma_unopened(s: Seq<char>, c: char, from: int, i: int)
    requires
        0 <= from <= i,
        unopened(s, c, from),
    ensures
        !opens(s, c, i),
    decreases i - from,
{
    if from < i && from < s.len() {
        lemma_unopened(s, c, from + 1, i);
    }
}

proof fn lemma_never_opens(s: Seq<char>, c: char)
    requires
        unopened(s, c, 0),
    ensures
        never_opens(s, c),
{
    assert forall|i: int| !#[trigger] opens(s, c, i) by {
        if 0 <= i {
            lemma_unopened(s, c, 0, i);
        }
    }
}

proof fn lemma_missing(s: Seq<char>, c: char, from: int, i: int)
    requires
        0 <= from <= i < s.len(),
        missing(s, c, from),
    ensures
        s[i] != c,
    decreases i - from,
{
    if from < i {
        lemma_missing(s, c, from + 1, i);
    }
}

proof fn lemma_lacks(s: Seq<char>, c: char)
    requires
        missing(s, c, 0),
    ensures
        lacks(s, c),
{
    assert forall|i: int| 0 <= i < s.len() implies #[trigger] s[i] != c by {
        lemma_missing(s, c, 0, i);
    }
}

proof fn lemma_agree(a: Seq<char>, b: Seq<char>, from: int, i: int)
    requires
        0 <= from <= i < a.len(),
        agree(a, b, from),
    ensures
        a[i] == b[i],
    decreases i - from,
{
    if from < i {
        lemma_agree(a, b, from + 1, i);
    }
}

proof fn lemma_same(a: Seq<char>, b: Seq<char>)
    requires
        a.len() == b.len(),
        agree(a, b, 0),
    ensures
        a == b,
{
    assert forall|i: int| 0 <= i < a.len() implies a[i] == b[i] by {
        lemma_agree(a, b, 0, i);
    }
    assert(a =~= b);
}

/// Text without quotation marks opens nothing.
proof fn lemma_plain(s: Seq<char>, c: char)
    requires
        lacks(s, '"'),
    ensures
        never_opens(s, c),
{
    assert forall|i: int| !#[trigger] opens(s, c, i) by {
        if 0 <= i < s.len() {
            assert(s[i] != '"');
        }
    }
}

proof fn lemma_joined(a: Seq<char>, b: Seq<char>, c: char)
    requires
        never_opens(a, c),
        never_opens(b, c),
        a.len() > 0 && b.len() > 0 ==> a.last() != '"' || b[0] != c,
    ensures
        never_opens(a + b, c),
{
    assert forall|i: int| !#[trigger] opens(a + b, c, i) by {
        assert(!opens(a, c, i));
        assert(!opens(b, c, i - a.len()));
    }
}

proof fn lemma_lacks_joined(a: Seq<char>, b: Seq<char>, c: char)
    requires
        lacks(a, c),
        lacks(b, c),
    ensures
        lacks(a + b, c),
{
    assert forall|i: int| 0 <= i < (a + b).len() implies #[trigger] (a + b)[i] != c by {
        if i < a.len() {
            assert(a[i] != c);
        } else {
            assert(b[i - a.len()] != c);
        }
    }
}

proof fn lemma_skip_to(s: Seq<char>, t: Seq<char>, from: int, at: int)
    requires
        0 <= from <= at,
        at + t.len() <= s.len(),
        forall|i: int| from <= i < at ==> !#[trigger] stands_at(s, t, i),
    ensures
        find_from(s, t, from) == find_from(s, t, at),
    decreases at - from,
{
    if from < at {
        assert(!stands_at(s, t, from));
        lemma_skip_to(s, t, from + 1, at);
    }
}

proof fn lemma_not_found(s: Seq<char>, t: Seq<char>, from: int)
    requires
        0 <= from,
        forall|i: int| from <= i ==> !#[trigger] stands_at(s, t, i),
    ensures
        find_from(s, t, from) is None,
    decreases s.len() + 1 - from,
{
    if from + t.len() <= s.len() {
        assert(!stands_at(s, t, from));
        lemma_not_found(s, t, from + 1);
    }
}

proof fn lemma_opens_there(s: Seq<char>, t: Seq<char>, i: int)
    requires
        t.len() >= 2,
        t[0] == '"',
        stands_at(s, t, i),
    ensures
        opens(s, t[1], i),
{
    assert(s.subrange(i, i + t.len())[0] == s[i]);
    assert(s.subrange(i, i + t.len())[1] == s[i + 1]);
}

/// A quoted text is not found where nothing opens it.
proof fn lemma_absent(s: Seq<char>, t: Seq<char>)
    requires
        t.len() >= 2,
        t[0] == '"',
        never_opens(s, t[1]),
    ensures
        find_from(s, t, 0) is None,
{
    assert forall|i: int| 0 <= i implies !#[trigger] stands_at(s, t, i) by {
        if stands_at(s, t, i) {
            lemma_opens_there(s, t, i);
        }
    }
    lemma_not_found(s, t, 0);
}

/// A quoted text is found behind what does not open it.
proof fn lemma_found(pre: Seq<char>, t: Seq<char>, post: Seq<char>)
    requires
        t.len() >= 2,
        t[0] == '"',
        never_opens(pre, t[1]),
        pre.len() > 0 ==> pre.last() != '"',
    ensures
        find_from(pre + t + post, t, 0) == Some(pre.len() as int),
{
    let s = pre + t + post;
    let n = pre.len() as int;
    assert forall|i: int| 0 <= i < n implies !#[trigger] stands_at(s, t, i) by {
        if stands_at(s, t, i) {
            lemma_opens_there(s, t, i);
            assert(s[i] == pre[i]);
            if i + 1 < n {
                assert(s[i + 1] == pre[i + 1]);
                assert(opens(pre, t[1], i));
            }
        }
    }
    assert(s.subrange(n, n + t.len()) =~= t);
    lemma_skip_to(s, t, 0, n);
}

proof fn lemma_first(s: Seq<char>, c: char, from: int, at: int)
    requires
        0 <= from <= at < s.len(),
        s[at] == c,
        forall|i: int| from <= i < at ==> #[trigger] s[i] != c,
    ensures
        first_place(s, c, from) == Some(at),
    decreases at - from,
{
    if from < at {
        assert(s[from] != c);
        lemma_first(s, c, from + 1, at);
    }
}

/// The line `pre "key": "body" tail`.
spec fn keyed(
    pre: Seq<char>,
    key: Seq<char>,
    body: Seq<char>,
    tail: Seq<char>,
) -> Seq<char> {
    pre + ("\""@ + key + "\":"@) + (" \""@ + body + "\""@ + tail)
}

/// The value behind a key is the quoted one.
proof fn lemma_field(pre: Seq<char>, key: Seq<char>, body: Seq<char>, tail: Seq<char>)
    requires
        key.len() > 0,
        never_opens(pre, key[0]),
        pre.len() > 0 ==> pre.last() != '"',
        body.len() > 0,
        lacks(body, '"'),
        tail.len() > 0,
        !is_blank(tail.last()),
    ensures
        field(keyed(pre, key, body, tail), key) == Some(body),
        names(keyed(pre, key, body, tail), key),
{
    reveal_strlit("\"");
    reveal_strlit("\":");
    reveal_strlit(" \"");
    let line = keyed(pre, key, body, tail);
    let pattern = "\""@ + key + "\":"@;
    let v = " \""@ + body + "\""@ + tail;
    assert(pattern[1] == key[0]);
    lemma_found(pre, pattern, v);
    assert(line.skip((pre.len() + pattern.len()) as int) =~= v);
    let n = v.len() as int;
    assert(v[0] == ' ');
    assert(v[1] == '"');
    assert(v[n - 1] == tail.last());
    reveal_with_fuel(first_mark, 3);
    assert(first_mark(v, 0) == 1);
    assert(last_mark(v, 1, n) == n);
    let rest = v.subrange(1, n);
    assert(trimmed(v) == rest);
    assert(rest[0] == '"');
    assert(rest[1] == body[0]);
    reveal_with_fuel(quotes_end, 3);
    assert(quotes_end(rest, 0) == 1);
    let value = rest.skip(1);
    assert(value =~= body + "\""@ + tail);
    assert forall|i: int| 0 <= i < body.len() implies #[trigger] value[i] != '"' by {
        assert(value[i] == body[i]);
    }
    lemma_first(value, '"', 0, body.len() as int);
    assert(value.take(body.len() as int) =~= body);
    let short = "\""@ + key + "\""@;
    let after = ":"@ + v;
    reveal_strlit(":");
    assert(short[1] == key[0]);
    lemma_found(pre, short, after);
    assert(pre + short + after =~= line);
}

/// Hexadecimal digits are neither quotation marks nor line ends.
proof fn lemma_hex_letters(bytes: Seq<u8>)
    ensures
        hex_of(bytes).len() == 2 * bytes.len(),
        lacks(hex_of(bytes), '"'),
        lacks(hex_of(bytes), '\n'),
    decreases bytes.len(),
{
    if bytes.len() > 0 {
        lemma_hex_letters(bytes.drop_last());
        let high = bytes.last() as nat / 16;
        let low = bytes.last() as nat % 16;
        assert('0' <= hex_digit(high) <= '9' || 'a' <= hex_digit(high) <= 'f');
        assert('0' <= hex_digit(low) <= '9' || 'a' <= hex_digit(low) <= 'f');
        let before = hex_of(bytes.drop_last());
        assert(hex_of(bytes) == before.push(hex_digit(high)).push(hex_digit(low)));
        assert forall|i: int| 0 <= i < hex_of(bytes).len() implies (#[trigger] hex_of(bytes)[i])
            != '"' && hex_of(bytes)[i] != '\n' by {
            if i < before.len() {
                assert(before[i] != '"' && before[i] != '\n');
            }
        }
    }
}

/// Decimal digits are neither quotation marks nor line ends.
proof fn lemma_decimal_letters(v: nat)
    ensures
        decimal(v).len() > 0,
        lacks(decimal(v), '"'),
        lacks(decimal(v), '\n'),
{
    lemma_decimal(v);
}

/// Bytes in hexadecimal, with `0x` before them.
spec fn prefixed(bytes: Seq<u8>) -> Seq<char> {
    "0x"@ + hex_of(bytes)
}

proof fn lemma_prefixed(bytes: Seq<u8>)
    ensures
        prefixed(bytes).len() > 0,
        lacks(prefixed(bytes), '"'),
        lacks(prefixed(bytes), '\n'),
        fixed_hex(prefixed(bytes), bytes.len()) == Some(bytes),
{
    reveal_strlit("0x");
    reveal_with_fuel(missing, 4);
    lemma_lacks("0x"@, '"');
    lemma_lacks("0x"@, '\n');
    lemma_hex_letters(bytes);
    lemma_lacks_joined("0x"@, hex_of(bytes), '"');
    lemma_lacks_joined("0x"@, hex_of(bytes), '\n');
    let s = prefixed(bytes);
    assert(s.subrange(0, 2) =~= "0x"@);
    assert(s.skip(2) =~= hex_of(bytes));
    law_hex_roundtrip(bytes);
}

/// A key in quotation marks, with a colon behind it.
spec fn quoted(key: Seq<char>) -> Seq<char> {
    "\""@ + key + "\":"@
}

/// The fixed parts of an account's line, taken apart at the keys.
proof fn lemma_parts()
    ensures
        "    {\"address\": \"0x"@ == "    {"@ + quoted("address"@) + " \""@ + "0x"@,
        "\", \"pos_identifier\": \"0x"@ == "\""@ + ", "@ + quoted("pos_identifier"@) + " \""@
            + "0x"@,
        "\", \"reward\": \""@ == "\""@ + ", "@ + quoted("reward"@) + " \""@,
        "\"}"@ == "\""@ + "}"@,
        "\", "@ == "\""@ + ", "@,
{
    reveal_strlit("    {\"address\": \"0x");
    reveal_strlit("\", \"pos_identifier\": \"0x");
    reveal_strlit("\", \"reward\": \"");
    reveal_strlit("\"}");
    reveal_strlit("\", ");
    reveal_strlit("    {");
    reveal_strlit("address");
    reveal_strlit("pos_identifier");
    reveal_strlit("reward");
    reveal_strlit(" \"");
    reveal_strlit("\":");
    reveal_strlit("\"");
    reveal_strlit("0x");
    reveal_strlit(", ");
    reveal_strlit("}");
    reveal_with_fuel(agree, 30);
    lemma_same(
        "    {\"address\": \"0x"@,
        "    {"@ + quoted("address"@) + " \""@ + "0x"@,
    );
    lemma_same(
        "\", \"pos_identifier\": \"0x"@,
        "\""@ + ", "@ + quoted("pos_identifier"@) + " \""@ + "0x"@,
    );
    lemma_same("\", \"reward\": \""@, "\""@ + ", "@ + quoted("reward"@) + " \""@);
    lemma_same("\"}"@, "\""@ + "}"@);
    lemma_same("\", "@, "\""@ + ", "@);
}

/// What the fixed parts of an account's line open, and that they end no line.
proof fn lemma_openings()
    ensures
        never_opens("    {"@, 'a'),
        never_opens("    {\"address\": \"0x"@, 'p'),
        never_opens("    {\"address\": \"0x"@, 'r'),
        never_opens("    {\"address\": \"0x"@, 'e'),
        never_opens("\", \"pos_identifier\": \"0x"@, 'r'),
        never_opens("\", \"pos_identifier\": \"0x"@, 'e'),
        never_opens("\", \"reward\": \""@, 'e'),
        never_opens("\"}"@, 'e'),
        never_opens(","@, 'e'),
        never_opens("\", "@, 'p'),
        never_opens("\", "@, 'r'),
        "    {"@.len() > 0 && "    {"@.last() == '{',
        "    {\"address\": \"0x"@.last() == 'x',
        "\", \"pos_identifier\": \"0x"@.len() > 0 && "\", \"pos_identifier\": \"0x"@.last() == 'x',
        "\", \"pos_identifier\": \"0x"@[0] == '"',
        "\", \"reward\": \""@[0] == '"',
        "\"}"@.len() == 2 && "\"}"@[0] == '"' && "\"}"@[1] == '}',
        ","@.len() == 1 && ","@[0] == ',',
        "}"@.len() == 1 && "}"@[0] == '}',
        "\", "@.len() == 3 && "\", "@[0] == '"' && "\", "@.last() == ' ',
        "address"@.len() > 0 && "address"@[0] == 'a',
        "pos_identifier"@.len() > 0 && "pos_identifier"@[0] == 'p',
        "reward"@.len() > 0 && "reward"@[0] == 'r',
{
    reveal_strlit("    {\"address\": \"0x");
    reveal_strlit("\", \"pos_identifier\": \"0x");
    reveal_strlit("\", \"reward\": \"");
    reveal_strlit("\"}");
    reveal_strlit("\", ");
    reveal_strlit("    {");
    reveal_strlit("address");
    reveal_strlit("pos_identifier");
    reveal_strlit("reward");
    reveal_strlit(",");
    reveal_strlit("}");
    reveal_with_fuel(unopened, 30);
    lemma_never_opens("    {"@, 'a');
    lemma_never_opens("    {\"address\": \"0x"@, 'p');
    lemma_never_opens("    {\"address\": \"0x"@, 'r');
    lemma_never_opens("    {\"address\": \"0x"@, 'e');
    lemma_never_opens("\", \"pos_identifier\": \"0x"@, 'r');
    lemma_never_opens("\", \"pos_identifier\": \"0x"@, 'e');
    lemma_never_opens("\", \"reward\": \""@, 'e');
    lemma_never_opens("\"}"@, 'e');
    lemma_never_opens(","@, 'e');
    lemma_never_opens("\", "@, 'p');
    lemma_never_opens("\", "@, 'r');
}

/// The line of one account, without the mark that ends it.
spec fn account_text(a: RewardAccountModel, comma: Seq<char>) -> Seq<char> {
    "    {\"address\": \"0x"@ + hex_of(a.address) + "\", \"pos_identifier\": \"0x"@ + hex_of(
        a.identifier,
    ) + "\", \"reward\": \""@ + decimal(be_value(a.reward)) + "\"}"@ + comma
}

/// The address of an account is read from its line.
proof fn lemma_address(a: RewardAccountModel, comma: Seq<char>)
    requires
        comma == ","@ || comma == Seq::<char>::empty(),
    ensures
        field(account_text(a, comma), "address"@) == Some(prefixed(a.address)),
        names(account_text(a, comma), "address"@),
{
    lemma_parts();
    lemma_openings();
    lemma_prefixed(a.address);
    let last = "\"}"@ + comma;
    let tail = ", "@ + quoted("pos_identifier"@) + " \""@ + "0x"@ + hex_of(a.identifier)
        + "\", \"reward\": \""@ + decimal(be_value(a.reward)) + last;
    assert(tail.last() == last.last());
    assert(account_text(a, comma) =~= keyed("    {"@, "address"@, prefixed(a.address), tail));
    lemma_field("    {"@, "address"@, prefixed(a.address), tail);
}

/// The identifier of an account is read from its line.
proof fn lemma_identifier(a: RewardAccountModel, comma: Seq<char>)
    requires
        comma == ","@ || comma == Seq::<char>::empty(),
    ensures
        field(account_text(a, comma), "pos_identifier"@) == Some(prefixed(a.identifier)),
        names(account_text(a, comma), "pos_identifier"@),
{
    lemma_parts();
    lemma_openings();
    lemma_hex_letters(a.address);
    lemma_prefixed(a.identifier);
    let start = "    {\"address\": \"0x"@ + hex_of(a.address);
    lemma_plain(hex_of(a.address), 'p');
    lemma_joined("    {\"address\": \"0x"@, hex_of(a.address), 'p');
    lemma_joined(start, "\", "@, 'p');
    let pre = start + "\", "@;
    let last = "\"}"@ + comma;
    let tail = ", "@ + quoted("reward"@) + " \""@ + decimal(be_value(a.reward)) + last;
    assert(tail.last() == last.last());
    assert(pre.last() == ' ');
    assert(account_text(a, comma) =~= keyed(pre, "pos_identifier"@, prefixed(a.identifier), tail));
    lemma_field(pre, "pos_identifier"@, prefixed(a.identifier), tail);
}

/// The reward of an account is read from its line.
proof fn lemma_reward(a: RewardAccountModel, comma: Seq<char>)
    requires
        comma == ","@ || comma == Seq::<char>::empty(),
    ensures
        field(account_text(a, comma), "reward"@) == Some(decimal(be_value(a.reward))),
        names(account_text(a, comma), "reward"@),
{
    lemma_parts();
    lemma_openings();
    lemma_hex_letters(a.address);
    lemma_hex_letters(a.identifier);
    lemma_decimal_letters(be_value(a.reward));
    let start = "    {\"address\": \"0x"@ + hex_of(a.address);
    lemma_plain(hex_of(a.address), 'r');
    lemma_joined("    {\"address\": \"0x"@, hex_of(a.address), 'r');
    let more = start + "\", \"pos_identifier\": \"0x"@;
    lemma_joined(start, "\", \"pos_identifier\": \"0x"@, 'r');
    assert(more.last() == 'x');
    lemma_plain(hex_of(a.identifier), 'r');
    lemma_joined(more, hex_of(a.identifier), 'r');
    let most = more + hex_of(a.identifier);
    lemma_joined(most, "\", "@, 'r');
    let pre = most + "\", "@;
    let tail = "}"@ + comma;
    assert(pre.last() == ' ');
    assert(account_text(a, comma) =~= keyed(pre, "reward"@, decimal(be_value(a.reward)), tail));
    lemma_field(pre, "reward"@, decimal(be_value(a.reward)), tail);
}

/// An account's line names no hash.
proof fn lemma_no_hash(a: RewardAccountModel, comma: Seq<char>)
    requires
        comma == ","@ || comma == Seq::<char>::empty(),
    ensures
        !names(account_text(a, comma), "execution_epoch_hash"@),
{
    lemma_openings();
    lemma_hex_letters(a.address);
    lemma_hex_letters(a.identifier);
    lemma_decimal(be_value(a.reward));
    lemma_decimal_letters(be_value(a.reward));
    let reward = decimal(be_value(a.reward));
    assert('0' <= reward[0] <= '9');
    lemma_plain(hex_of(a.address), 'e');
    lemma_plain(hex_of(a.identifier), 'e');
    lemma_plain(reward, 'e');
    let t1 = "    {\"address\": \"0x"@ + hex_of(a.address);
    lemma_joined("    {\"address\": \"0x"@, hex_of(a.address), 'e');
    let t2 = t1 + "\", \"pos_identifier\": \"0x"@;
    lemma_joined(t1, "\", \"pos_identifier\": \"0x"@, 'e');
    assert(t2.last() == 'x');
    let t3 = t2 + hex_of(a.identifier);
    lemma_joined(t2, hex_of(a.identifier), 'e');
    let t4 = t3 + "\", \"reward\": \""@;
    lemma_joined(t3, "\", \"reward\": \""@, 'e');
    let t5 = t4 + reward;
    lemma_joined(t4, reward, 'e');
    let t6 = t5 + "\"}"@;
    lemma_joined(t5, "\"}"@, 'e');
    assert(t6.last() == '}');
    assert(never_opens(comma, 'e'));
    lemma_joined(t6, comma, 'e');
    reveal_strlit("execution_epoch_hash");
    reveal_strlit("\"");
    let pattern = "\""@ + "execution_epoch_hash"@ + "\""@;
    assert(pattern[1] == 'e');
    lemma_absent(account_text(a, comma), pattern);
}

/// An account's line ends only where it ends.
proof fn lemma_account_letters(a: RewardAccountModel, comma: Seq<char>)
    requires
        comma == ","@ || comma == Seq::<char>::empty(),
    ensures
        lacks(account_text(a, comma), '\n'),
{
    reveal_strlit("    {\"address\": \"0x");
    reveal_strlit("\", \"pos_identifier\": \"0x");
    reveal_strlit("\", \"reward\": \"");
    reveal_strlit("\"}");
    reveal_strlit(",");
    reveal_with_fuel(missing, 30);
    lemma_lacks("    {\"address\": \"0x"@, '\n');
    lemma_lacks("\", \"pos_identifier\": \"0x"@, '\n');
    lemma_lacks("\", \"reward\": \""@, '\n');
    lemma_lacks("\"}"@, '\n');
    lemma_lacks(comma, '\n');
    lemma_hex_letters(a.address);
    lemma_hex_letters(a.identifier);
    lemma_decimal_letters(be_value(a.reward));
    let t1 = "    {\"address\": \"0x"@ + hex_of(a.address);
    lemma_lacks_joined("    {\"address\": \"0x"@, hex_of(a.address), '\n');
    let t2 = t1 + "\", \"pos_identifier\": \"0x"@;
    lemma_lacks_joined(t1, "\", \"pos_identifier\": \"0x"@, '\n');
    let t3 = t2 + hex_of(a.identifier);
    lemma_lacks_joined(t2, hex_of(a.identifier), '\n');
    let t4 = t3 + "\", \"reward\": \""@;
    lemma_lacks_joined(t3, "\", \"reward\": \""@, '\n');
    let t5 = t4 + decimal(be_value(a.reward));
    lemma_lacks_joined(t4, decimal(be_value(a.reward)), '\n');
    let t6 = t5 + "\"}"@;
    lemma_lacks_joined(t5, "\"}"@, '\n');
    lemma_lacks_joined(t6, comma, '\n');
}

/// Whether an account holds an address, an identifier and a word.
pub open spec fn account_sized(a: RewardAccountModel) -> bool {
    a.address.len() == 20 && a.identifier.len() == 32 && a.reward.len() == 32
}

/// What is known after one line more.
#[verifier::opaque]
spec fn told(done: RewardModel, line: Seq<char>) -> Result<RewardModel, RewardTextError> {
    with_line(done, line)
}

/// What is known after the lines from `from` on.
#[verifier::opaque]
spec fn reading(done: RewardModel, text: Seq<char>, from: int) -> Result<
    RewardModel,
    RewardTextError,
> {
    with_lines(done, text, from)
}

/// An account's line tells the account.
proof fn lemma_account_line(done: RewardModel, a: RewardAccountModel, comma: Seq<char>)
    requires
        account_sized(a),
        comma == ","@ || comma == Seq::<char>::empty(),
    ensures
        told(done, account_text(a, comma)) == Ok::<RewardModel, RewardTextError>(
            RewardModel { epoch_hash: done.epoch_hash, accounts: done.accounts.push(a) },
        ),
{
    reveal(told);
    lemma_no_hash(a, comma);
    lemma_address(a, comma);
    lemma_identifier(a, comma);
    lemma_reward(a, comma);
    lemma_prefixed(a.address);
    lemma_prefixed(a.identifier);
    law_word_roundtrip(a.reward);
}

/// A line in which neither the hash nor an address is opened tells nothing.
proof fn lemma_silent(done: RewardModel, line: Seq<char>)
    requires
        find_from(line, "\""@ + "execution_epoch_hash"@ + "\""@, 0) is None,
        find_from(line, "\""@ + "address"@ + "\""@, 0) is None,
    ensures
        told(done, line) == Ok::<RewardModel, RewardTextError>(done),
{
    reveal(told);
}

/// The line of the hash, which tells it.
proof fn lemma_hash_line(done: RewardModel, hash: Seq<u8>)
    requires
        hash.len() == 32,
    ensures
        told(done, "  \"execution_epoch_hash\": \"0x"@ + hex_of(hash) + "\","@) == Ok::<
            RewardModel,
            RewardTextError,
        >(RewardModel { epoch_hash: hash, accounts: done.accounts }),
        lacks("  \"execution_epoch_hash\": \"0x"@ + hex_of(hash) + "\","@, '\n'),
{
    reveal(told);
    let line = "  \"execution_epoch_hash\": \"0x"@ + hex_of(hash) + "\","@;
    reveal_strlit("  \"execution_epoch_hash\": \"0x");
    reveal_strlit("execution_epoch_hash");
    reveal_strlit("address");
    reveal_strlit("\",");
    reveal_strlit("\"");
    reveal_strlit("\":");
    reveal_strlit(" \"");
    reveal_strlit("0x");
    reveal_strlit("  ");
    reveal_strlit(",");
    reveal_with_fuel(agree, 30);
    reveal_with_fuel(missing, 30);
    reveal_with_fuel(unopened, 30);
    lemma_prefixed(hash);
    lemma_hex_letters(hash);
    lemma_same(
        "  \"execution_epoch_hash\": \"0x"@,
        "  "@ + quoted("execution_epoch_hash"@) + " \""@ + "0x"@,
    );
    assert("\","@ =~= "\""@ + ","@);
    assert(line =~= keyed("  "@, "execution_epoch_hash"@, prefixed(hash), ","@));
    lemma_never_opens("  "@, 'e');
    lemma_field("  "@, "execution_epoch_hash"@, prefixed(hash), ","@);
    lemma_never_opens("  \"execution_epoch_hash\": \"0x"@, 'a');
    lemma_plain(hex_of(hash), 'a');
    lemma_never_opens("\","@, 'a');
    lemma_joined("  \"execution_epoch_hash\": \"0x"@, hex_of(hash), 'a');
    let start = "  \"execution_epoch_hash\": \"0x"@ + hex_of(hash);
    lemma_joined(start, "\","@, 'a');
    let pattern = "\""@ + "address"@ + "\""@;
    assert(pattern[1] == 'a');
    lemma_absent(line, pattern);
    lemma_lacks("  \"execution_epoch_hash\": \"0x"@, '\n');
    lemma_lacks("\","@, '\n');
    lemma_lacks_joined("  \"execution_epoch_hash\": \"0x"@, hex_of(hash), '\n');
    lemma_lacks_joined(start, "\","@, '\n');
}

/// The line of the PoS epoch tells nothing of the reward.
proof fn lemma_epoch_line(done: RewardModel, v: nat)
    ensures
        told(done, "  \"pos_epoch\": "@ + decimal(v) + ","@) == Ok::<RewardModel, RewardTextError>(done),
        lacks("  \"pos_epoch\": "@ + decimal(v) + ","@, '\n'),
{
    let line = "  \"pos_epoch\": "@ + decimal(v) + ","@;
    let start = "  \"pos_epoch\": "@ + decimal(v);
    reveal_strlit("  \"pos_epoch\": ");
    reveal_strlit("execution_epoch_hash");
    reveal_strlit("address");
    reveal_strlit(",");
    reveal_strlit("\"");
    reveal_with_fuel(missing, 30);
    reveal_with_fuel(unopened, 30);
    lemma_decimal_letters(v);
    lemma_never_opens("  \"pos_epoch\": "@, 'a');
    lemma_never_opens("  \"pos_epoch\": "@, 'e');
    lemma_plain(decimal(v), 'a');
    lemma_plain(decimal(v), 'e');
    lemma_never_opens(","@, 'a');
    lemma_never_opens(","@, 'e');
    lemma_joined("  \"pos_epoch\": "@, decimal(v), 'a');
    lemma_joined("  \"pos_epoch\": "@, decimal(v), 'e');
    lemma_joined(start, ","@, 'a');
    lemma_joined(start, ","@, 'e');
    let hash = "\""@ + "execution_epoch_hash"@ + "\""@;
    let address = "\""@ + "address"@ + "\""@;
    assert(hash[1] == 'e');
    assert(address[1] == 'a');
    lemma_absent(line, hash);
    lemma_absent(line, address);
    lemma_silent(done, line);
    lemma_lacks("  \"pos_epoch\": "@, '\n');
    lemma_lacks(","@, '\n');
    lemma_lacks_joined("  \"pos_epoch\": "@, decimal(v), '\n');
    lemma_lacks_joined(start, ","@, '\n');
}

/// The other lines tell nothing of the reward.
proof fn lemma_frame_lines(done: RewardModel)
    ensures
        told(done, "{"@) == Ok::<RewardModel, RewardTextError>(done),
        told(done, "  \"account_rewards\": ["@) == Ok::<RewardModel, RewardTextError>(done),
        told(done, "  ]"@) == Ok::<RewardModel, RewardTextError>(done),
        told(done, "}"@) == Ok::<RewardModel, RewardTextError>(done),
        lacks("{"@, '\n'),
        lacks("  \"account_rewards\": ["@, '\n'),
        lacks("  ]"@, '\n'),
        lacks("}"@, '\n'),
{
    reveal_strlit("{");
    reveal_strlit("  \"account_rewards\": [");
    reveal_strlit("  ]");
    reveal_strlit("}");
    reveal_strlit("execution_epoch_hash");
    reveal_strlit("address");
    reveal_strlit("\"");
    reveal_with_fuel(missing, 30);
    reveal_with_fuel(unopened, 30);
    lemma_lacks("{"@, '\n');
    lemma_lacks("  \"account_rewards\": ["@, '\n');
    lemma_lacks("  ]"@, '\n');
    lemma_lacks("}"@, '\n');
    let hash = "\""@ + "execution_epoch_hash"@ + "\""@;
    let address = "\""@ + "address"@ + "\""@;
    assert(hash[1] == 'e');
    assert(address[1] == 'a');
    lemma_never_opens("{"@, 'e');
    lemma_never_opens("{"@, 'a');
    lemma_never_opens("  ]"@, 'e');
    lemma_never_opens("  ]"@, 'a');
    lemma_never_opens("}"@, 'e');
    lemma_never_opens("}"@, 'a');
    lemma_never_opens("  \"account_rewards\": ["@, 'e');
    lemma_absent("{"@, hash);
    lemma_absent("{"@, address);
    lemma_absent("  ]"@, hash);
    lemma_absent("  ]"@, address);
    lemma_absent("}"@, hash);
    lemma_absent("}"@, address);
    let line = "  \"account_rewards\": ["@;
    lemma_absent(line, hash);
    assert forall|i: int| 0 <= i implies !#[trigger] stands_at(line, address, i) by {
        if stands_at(line, address, i) {
            lemma_opens_there(line, address, i);
            assert(line.subrange(i, i + address.len())[2] == line[i + 2]);
            assert(address[2] == 'd');
            if i != 2 {
                assert(unopened(line, 'a', 3));
                if i > 2 {
                    lemma_unopened(line, 'a', 3, i);
                }
            }
        }
    }
    lemma_not_found(line, address, 0);
    lemma_silent(done, "{"@);
    lemma_silent(done, "  ]"@);
    lemma_silent(done, "}"@);
    lemma_silent(done, line);
}

/// Reading goes on behind a line with what the line told.
proof fn lemma_next(done: RewardModel, pre: Seq<char>, line: Seq<char>, post: Seq<char>)
    requires
        lacks(line, '\n'),
        told(done, line) is Ok,
    ensures
        reading(done, pre + line + "\n"@ + post, pre.len() as int) == reading(
            told(done, line)->Ok_0,
            pre + line + "\n"@ + post,
            (pre.len() + line.len() + 1) as int,
        ),
{
    reveal(told);
    reveal(reading);
    reveal_strlit("\n");
    let text = pre + line + "\n"@ + post;
    let from = pre.len() as int;
    let end = from + line.len();
    assert(text[end] == '\n');
    assert forall|i: int| from <= i < end implies #[trigger] text[i] != '\n' by {
        assert(text[i] == line[i - from]);
    }
    lemma_first(text, '\n', from, end);
    assert(text.subrange(from, end) =~= line);
}

/// The text before the accounts.
spec fn head(pos_epoch: u64, hash: Seq<u8>) -> Seq<char> {
    "{\n  \"pos_epoch\": "@ + decimal(pos_epoch as nat) + ",\n  \"execution_epoch_hash\": \"0x"@
        + hex_of(hash) + "\",\n  \"account_rewards\": [\n"@
}

/// The fixed parts of the text, taken apart at the line ends.
proof fn lemma_frame_parts()
    ensures
        "{\n  \"pos_epoch\": "@ == "{"@ + "\n"@ + "  \"pos_epoch\": "@,
        ",\n  \"execution_epoch_hash\": \"0x"@ == ","@ + "\n"@
            + "  \"execution_epoch_hash\": \"0x"@,
        "\",\n  \"account_rewards\": [\n"@ == "\","@ + "\n"@ + "  \"account_rewards\": ["@ + "\n"@,
        "  ]\n}\n"@ == "  ]"@ + "\n"@ + "}"@ + "\n"@,
        ",\n"@ == ","@ + "\n"@,
        "{"@.len() == 1,
        "\n"@.len() == 1,
        "  ]"@.len() == 3,
        "}"@.len() == 1,
{
    reveal_strlit("{\n  \"pos_epoch\": ");
    reveal_strlit(",\n  \"execution_epoch_hash\": \"0x");
    reveal_strlit("\",\n  \"account_rewards\": [\n");
    reveal_strlit("  ]\n}\n");
    reveal_strlit(",\n");
    reveal_strlit("{");
    reveal_strlit("\n");
    reveal_strlit("  \"pos_epoch\": ");
    reveal_strlit(",");
    reveal_strlit("  \"execution_epoch_hash\": \"0x");
    reveal_strlit("\",");
    reveal_strlit("  \"account_rewards\": [");
    reveal_strlit("  ]");
    reveal_strlit("}");
    reveal_with_fuel(agree, 32);
    lemma_same("{\n  \"pos_epoch\": "@, "{"@ + "\n"@ + "  \"pos_epoch\": "@);
    lemma_same(
        ",\n  \"execution_epoch_hash\": \"0x"@,
        ","@ + "\n"@ + "  \"execution_epoch_hash\": \"0x"@,
    );
    lemma_same(
        "\",\n  \"account_rewards\": [\n"@,
        "\","@ + "\n"@ + "  \"account_rewards\": ["@ + "\n"@,
    );
    lemma_same("  ]\n}\n"@, "  ]"@ + "\n"@ + "}"@ + "\n"@);
    lemma_same(",\n"@, ","@ + "\n"@);
}

/// The lines before the accounts tell the hash.
proof fn lemma_head(done: RewardModel, pos_epoch: u64, hash: Seq<u8>, rest: Seq<char>)
    requires
        hash.len() == 32,
    ensures
        reading(done, head(pos_epoch, hash) + rest, 0) == reading(
            RewardModel { epoch_hash: hash, accounts: done.accounts },
            head(pos_epoch, hash) + rest,
            head(pos_epoch, hash).len() as int,
        ),
{
    lemma_frame_parts();
    let text = head(pos_epoch, hash) + rest;
    let epoch = "  \"pos_epoch\": "@ + decimal(pos_epoch as nat) + ","@;
    let line = "  \"execution_epoch_hash\": \"0x"@ + hex_of(hash) + "\","@;
    let open = "  \"account_rewards\": ["@;
    let known = RewardModel { epoch_hash: hash, accounts: done.accounts };
    let none = Seq::<char>::empty();
    let p1 = "{"@ + "\n"@;
    let p2 = p1 + epoch + "\n"@;
    let p3 = p2 + line + "\n"@;
    assert(head(pos_epoch, hash) =~= p3 + open + "\n"@);
    let r3 = rest;
    let r2 = open + "\n"@ + rest;
    let r1 = line + "\n"@ + r2;
    let r0 = epoch + "\n"@ + r1;
    assert(text =~= none + "{"@ + "\n"@ + r0);
    assert(text =~= p1 + epoch + "\n"@ + r1);
    assert(text =~= p2 + line + "\n"@ + r2);
    assert(text =~= p3 + open + "\n"@ + r3);
    lemma_frame_lines(done);
    lemma_frame_lines(known);
    lemma_epoch_line(done, pos_epoch as nat);
    lemma_hash_line(done, hash);
    lemma_next(done, none, "{"@, r0);
    lemma_next(done, p1, epoch, r1);
    lemma_next(done, p2, line, r2);
    lemma_next(known, p3, open, r3);
}

/// The lines of the first accounts start the lines of all.
proof fn lemma_lines_start(accounts: Seq<RewardAccountModel>, n: int, m: int)
    requires
        0 <= n <= m,
    ensures
        account_lines(accounts, n).len() <= account_lines(accounts, m).len(),
        account_lines(accounts, m).take(account_lines(accounts, n).len() as int) == account_lines(
            accounts,
            n,
        ),
    decreases m - n,
{
    if n < m {
        lemma_lines_start(accounts, n, m - 1);
        let short = account_lines(accounts, n);
        let long = account_lines(accounts, m - 1);
        assert(account_lines(accounts, m).take(short.len() as int) =~= long.take(
            short.len() as int,
        ));
    } else {
        assert(account_lines(accounts, m).take(account_lines(accounts, m).len() as int)
            =~= account_lines(accounts, m));
    }
}

proof fn lemma_line_form(a: RewardAccountModel, last: bool, comma: Seq<char>)
    requires
        comma == if last {
            Seq::<char>::empty()
        } else {
            ","@
        },
    ensures
        account_line(a, last) == account_text(a, comma) + "\n"@,
{
    lemma_frame_parts();
    assert(account_line(a, last) =~= account_text(a, comma) + "\n"@);
}

/// The lines of the first `n` accounts tell them.
proof fn lemma_accounts(
    done: RewardModel,
    pre: Seq<char>,
    accounts: Seq<RewardAccountModel>,
    post: Seq<char>,
    n: int,
)
    requires
        0 <= n <= accounts.len(),
        done.accounts == Seq::<RewardAccountModel>::empty(),
        forall|i: int| 0 <= i < accounts.len() ==> account_sized(#[trigger] accounts[i]),
    ensures
        ({
            let text = pre + account_lines(accounts, accounts.len() as int) + post;
            reading(done, text, pre.len() as int) == reading(
                RewardModel { epoch_hash: done.epoch_hash, accounts: accounts.take(n) },
                text,
                (pre.len() + account_lines(accounts, n).len()) as int,
            )
        }),
    decreases n,
{
    let all = account_lines(accounts, accounts.len() as int);
    let text = pre + all + post;
    if n == 0 {
        assert(accounts.take(0) =~= done.accounts);
    } else {
        lemma_accounts(done, pre, accounts, post, n - 1);
        lemma_frame_parts();
        let a = accounts[n - 1];
        let last = n == accounts.len();
        let comma = if last {
            Seq::<char>::empty()
        } else {
            ","@
        };
        let before = pre + account_lines(accounts, n - 1);
        let line = account_text(a, comma);
        lemma_line_form(a, last, comma);
        lemma_lines_start(accounts, n, accounts.len() as int);
        let upto = account_lines(accounts, n);
        let rest = all.skip(upto.len() as int) + post;
        assert(all =~= upto + all.skip(upto.len() as int));
        assert(text =~= before + line + "\n"@ + rest);
        let known = RewardModel { epoch_hash: done.epoch_hash, accounts: accounts.take(n - 1) };
        assert(account_sized(a));
        lemma_account_line(known, a, comma);
        lemma_account_letters(a, comma);
        lemma_next(known, before, line, rest);
        assert(accounts.take(n - 1).push(a) =~= accounts.take(n));
        assert(before.len() + line.len() + 1 == pre.len() + upto.len());
    }
}

/// A PoS reward that was written as text is read back from it, whatever the PoS epoch.
pub proof fn law_reward_read_back(pos_epoch: u64, r: RewardModel)
    requires
        r.epoch_hash.len() == 32,
        forall|i: int| 0 <= i < r.accounts.len() ==> account_sized(#[trigger] r.accounts[i]),
    ensures
        reward_text(reward_lines(pos_epoch, r)) == Ok::<RewardModel, RewardTextError>(r),
{
    let text = reward_lines(pos_epoch, r);
    let start = head(pos_epoch, r.epoch_hash);
    let n = r.accounts.len() as int;
    let all = account_lines(r.accounts, n);
    let first = RewardModel { accounts: Seq::empty(), epoch_hash: zeros(32) };
    let known = RewardModel { epoch_hash: r.epoch_hash, accounts: first.accounts };
    assert(text =~= start + (all + "  ]\n}\n"@));
    assert(text =~= start + all + "  ]\n}\n"@);
    lemma_head(first, pos_epoch, r.epoch_hash, all + "  ]\n}\n"@);
    lemma_accounts(known, start, r.accounts, "  ]\n}\n"@, n);
    assert(r.accounts.take(n) =~= r.accounts);
    lemma_frame_parts();
    lemma_frame_lines(r);
    let p1 = start + all;
    let p2 = p1 + "  ]"@ + "\n"@;
    let none = Seq::<char>::empty();
    assert(text =~= p1 + "  ]"@ + "\n"@ + ("}"@ + "\n"@));
    assert(text =~= p2 + "}"@ + "\n"@ + none);
    lemma_next(r, p1, "  ]"@, "}"@ + "\n"@);
    lemma_next(r, p2, "}"@, none);
    reveal(reading);
}

} // verus!
