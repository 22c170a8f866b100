//! PoS rewards as text, one account to a line.
use crate::cfxpack::decimal::{append_decimal, decimal_word, parse_decimal};
use crate::cfxpack::packet::{PosRewardAccount, PosRewardEntry, RewardAccountModel, RewardModel};
use crate::cfxpack::types::{be_value, zeros, Address};
use crate::extract::db::{StoredReward, StoredShare};
use crate::text::{append_hex, append_number, decimal, find_first, find_from, find_text, first_place, hex_of, is_at, letters, parse_hex, part, stands_at, trim, trimmed, unhex};
use crate::types::H256;
use vstd::prelude::*;
use vstd::string::StringExecFns;

verus! {

/// Why a text holds no PoS reward.
#[derive(Clone, Copy, Debug, PartialEq, Eq, Structural)]
pub enum RewardTextError {
    EpochHash,
    MissingAddress,
    MissingIdentifier,
    MissingReward,
    Address,
    Identifier,
    Reward,
}

/// Where the quotation marks that a text starts with end.
pub open spec fn quotes_end(s: Seq<char>, i: int) -> int
    decreases s.len() - i,
{
    if 0 <= i < s.len() && s[i] == '"' {
        quotes_end(s, i + 1)
    } else {
        i
    }
}

/// The value that stands behind a key, up to a quotation mark.
pub open spec fn field(line: Seq<char>, key: Seq<char>) -> Option<Seq<char>> {
    let pattern = "\""@ + key + "\":"@;
    match find_from(line, pattern, 0) {
        None => None,
        Some(at) => {
            let rest = trimmed(line.skip(at + pattern.len()));
            let value = rest.skip(quotes_end(rest, 0));
            match first_place(value, '"', 0) {
                None => None,
                Some(end) => Some(value.take(end)),
            }
        },
    }
}

/// The value that stands behind a key, up to a quotation mark.
pub fn extract_json_string(line: &[char], key: &str) -> (r: Option<Vec<char>>)
    ensures
        match r {
            Some(v) => field(line@, key@) == Some(v@),
            None => field(line@, key@) is None,
        },
{
    let mut text: String = String::from_str("\"");
    text.append(key);
    text.append("\":");
    let pattern = letters(text.as_str());
    match find_text(line, pattern.as_slice()) {
        Some(at) => {
            assert(at + pattern@.len() <= line.len());
            let tail = part(line, at + pattern.len(), line.len());
            let rest = trim(tail.as_slice());
            let mut i: usize = 0;
            while i < rest.len() && rest[i] == '"'
                invariant
                    i <= rest@.len(),
                    quotes_end(rest@, 0) == quotes_end(rest@, i as int),
                decreases rest@.len() - i,
            {
                i += 1;
            }
            let value = part(rest.as_slice(), i, rest.len());
            match find_first(value.as_slice(), '"', 0) {
                Some(end) => Some(part(value.as_slice(), 0, end)),
                None => None,
            }
        },
        None => None,
    }
}

/// The `n` bytes that hexadecimal digits stand for, with `0x` before them or not.
pub open spec fn fixed_hex(s: Seq<char>, n: nat) -> Option<Seq<u8>> {
    let digits = if stands_at(s, "0x"@, 0) {
        s.skip(2)
    } else {
        s
    };
    match unhex(digits) {
        Some(bytes) => if bytes.len() == n {
            Some(bytes)
        } else {
            None
        },
        None => None,
    }
}

/// The `n` bytes that hexadecimal digits stand for.
fn parse_fixed(s: &[char], n: usize) -> (r: Option<Vec<u8>>)
    ensures
        match r {
            Some(b) => fixed_hex(s@, n as nat) == Some(b@) && b@.len() == n,
            None => fixed_hex(s@, n as nat) is None,
        },
{
    let mark = letters("0x");
    proof {
        reveal_strlit("0x");
        assert(s@.skip(0) =~= s@);
    }
    let from: usize = if is_at(s, mark.as_slice(), 0) {
        2
    } else {
        0
    };
    let digits = part(s, from, s.len());
    match parse_hex(digits.as_slice()) {
        Some(b) => {
            if b.len() == n {
                Some(b)
            } else {
                None
            }
        },
        None => None,
    }
}

/// Whether a line names a key.
pub open spec fn names(line: Seq<char>, key: Seq<char>) -> bool {
    find_from(line, "\""@ + key + "\""@, 0) is Some
}

fn line_names(line: &[char], key: &str) -> (r: bool)
    ensures
        r == names(line@, key@),
{
    let mut text: String = String::from_str("\"");
    text.append(key);
    text.append("\"");
    let pattern = letters(text.as_str());
    find_text(line, pattern.as_slice()).is_some()
}

/// The hash of a reward, as far as a line tells it.
pub open spec fn line_hash(hash: Seq<u8>, line: Seq<char>) -> Result<Seq<u8>, RewardTextError> {
    if !names(line, "execution_epoch_hash"@) {
        Ok(hash)
    } else {
        match field(line, "execution_epoch_hash"@) {
            None => Ok(hash),
            Some(v) => match fixed_hex(v, 32) {
                Some(bytes) => Ok(bytes),
                None => Err(RewardTextError::EpochHash),
            },
        }
    }
}

/// The account that a line tells of, if it does.
pub open spec fn line_account(line: Seq<char>) -> Result<
    Option<RewardAccountModel>,
    RewardTextError,
> {
    if !(names(line, "address"@) && names(line, "pos_identifier"@) && names(line, "reward"@)) {
        Ok(None)
    } else {
        match field(line, "address"@) {
            None => Err(RewardTextError::MissingAddress),
            Some(a) => match field(line, "pos_identifier"@) {
                None => Err(RewardTextError::MissingIdentifier),
                Some(i) => match field(line, "reward"@) {
                    None => Err(RewardTextError::MissingReward),
                    Some(r) => match fixed_hex(a, 20) {
                        None => Err(RewardTextError::Address),
                        Some(address) => match fixed_hex(i, 32) {
                            None => Err(RewardTextError::Identifier),
                            Some(identifier) => match decimal_word(r) {
                                None => Err(RewardTextError::Reward),
                                Some(reward) => Ok(
                                    Some(RewardAccountModel { address, identifier, reward }),
                                ),
                            },
                        },
                    },
                },
            },
        }
    }
}

/// The hash that a line tells.
fn parse_line_hash(hash: H256, line: &[char]) -> (r: Result<H256, RewardTextError>)
    ensures
        match r {
            Ok(h) => line_hash(hash@, line@) == Ok::<Seq<u8>, RewardTextError>(h@),
            Err(e) => line_hash(hash@, line@) == Err::<Seq<u8>, RewardTextError>(e),
        },
{
    if !line_names(line, "execution_epoch_hash") {
        return Ok(hash);
    }
    match extract_json_string(line, "execution_epoch_hash") {
        Some(v) => {
            match parse_fixed(v.as_slice(), 32) {
                Some(b) => Ok(H256::from_slice(b.as_slice())),
                None => Err(RewardTextError::EpochHash),
            }
        },
        None => Ok(hash),
    }
}

/// The account that a line tells of.
fn parse_line_account(line: &[char]) -> (r: Result<Option<PosRewardAccount>, RewardTextError>)
    ensures
        match r {
            Ok(Some(a)) => line_account(line@) == Ok::<
                Option<RewardAccountModel>,
                RewardTextError,
            >(Some(a@)),
            Ok(None) => line_account(line@) == Ok::<Option<RewardAccountModel>, RewardTextError>(
                None,
            ),
            Err(e) => line_account(line@) == Err::<Option<RewardAccountModel>, RewardTextError>(e),
        },
{
    if !line_names(line, "address") || !line_names(line, "pos_identifier") || !line_names(
        line,
        "reward",
    ) {
        return Ok(None);
    }
    let a = match extract_json_string(line, "address") {
        Some(v) => v,
        None => {
            return Err(RewardTextError::MissingAddress);
        },
    };
    let i = match extract_json_string(line, "pos_identifier") {
        Some(v) => v,
        None => {
            return Err(RewardTextError::MissingIdentifier);
        },
    };
    let r = match extract_json_string(line, "reward") {
        Some(v) => v,
        None => {
            return Err(RewardTextError::MissingReward);
        },
    };
    let address = match parse_fixed(a.as_slice(), 20) {
        Some(b) => Address::from_slice(b.as_slice()),
        None => {
            return Err(RewardTextError::Address);
        },
    };
    let pos_identifier = match parse_fixed(i.as_slice(), 32) {
        Some(b) => H256::from_slice(b.as_slice()),
        None => {
            return Err(RewardTextError::Identifier);
        },
    };
    match parse_decimal(r.as_slice()) {
        Some(reward) => Ok(Some(PosRewardAccount { address, pos_identifier, reward })),
        None => Err(RewardTextError::Reward),
    }
}

/// A reward with what one line more tells.
pub open spec fn with_line(done: RewardModel, line: Seq<char>) -> Result<
    RewardModel,
    RewardTextError,
> {
    match line_hash(done.epoch_hash, line) {
        Err(e) => Err(e),
        Ok(epoch_hash) => match line_account(line) {
            Err(e) => Err(e),
            Ok(None) => Ok(RewardModel { epoch_hash, accounts: done.accounts }),
            Ok(Some(a)) => Ok(RewardModel { epoch_hash, accounts: done.accounts.push(a) }),
        },
    }
}

/// Where the line that starts at `from` ends.
pub open spec fn line_end(text: Seq<char>, from: int) -> int {
    match first_place(text, '\n', from) {
        Some(i) => i,
        None => text.len() as int,
    }
}

proof fn lemma_line_end(text: Seq<char>, from: int)
    requires
        0 <= from <= text.len(),
    ensures
        from <= line_end(text, from) <= text.len(),
    decreases text.len() - from,
{
    if from < text.len() && text[from] != '\n' {
        lemma_line_end(text, from + 1);
    }
}

/// A reward with what the lines from `from` on tell.
pub open spec fn with_lines(done: RewardModel, text: Seq<char>, from: int) -> Result<
    RewardModel,
    RewardTextError,
>
    decreases text.len() + 1 - from,
{
    let end = line_end(text, from);
    if from < 0 || from >= text.len() || !(from <= end <= text.len()) {
        Ok(done)
    } else {
        match with_line(done, text.subrange(from, end)) {
            Err(e) => Err(e),
            Ok(more) => with_lines(more, text, end + 1),
        }
    }
}

/// The PoS reward that a text tells.
pub open spec fn reward_text(text: Seq<char>) -> Result<RewardModel, RewardTextError> {
    with_lines(RewardModel { accounts: Seq::empty(), epoch_hash: zeros(32) }, text, 0)
}

/// Reads a PoS reward. Every account stands on a line of its own; other lines are
/// passed over.
pub fn parse_reward_json(json: &str) -> (r: Result<PosRewardEntry, RewardTextError>)
    ensures
        match r {
            Ok(entry) => reward_text(json@) == Ok::<RewardModel, RewardTextError>(entry@),
            Err(e) => reward_text(json@) == Err::<RewardModel, RewardTextError>(e),
        },
{
    let text = letters(json);
    let mut entry = PosRewardEntry {
        account_rewards: Vec::new(),
        execution_epoch_hash: H256::zero(),
    };
    let mut from: usize = 0;
    proof {
        assert(entry@.accounts =~= Seq::empty());
        assert(entry@.epoch_hash =~= zeros(32));
    }
    while from < text.len()
        invariant
            text@ == json@,
            from <= text@.len() + 1,
            reward_text(json@) == with_lines(entry@, text@, from as int),
        decreases text@.len() + 1 - from,
    {
        let end: usize = match find_first(text.as_slice(), '\n', from) {
            Some(i) => i,
            None => text.len(),
        };
        let line = part(text.as_slice(), from, end);
        let ghost before = entry@;
        proof {
            lemma_line_end(text@, from as int);
            assert(line@ == text@.subrange(from as int, line_end(text@, from as int)));
        }
        match parse_line_hash(entry.execution_epoch_hash, line.as_slice()) {
            Ok(h) => {
                entry.execution_epoch_hash = h;
            },
            Err(e) => {
                return Err(e);
            },
        }
        match parse_line_account(line.as_slice()) {
            Ok(Some(a)) => {
                entry.account_rewards.push(a);
                proof {
                    assert(entry@.accounts =~= before.accounts.push(a@));
                }
            },
            Ok(None) => {},
            Err(e) => {
                return Err(e);
            },
        }
        if end == text.len() {
            proof {
                assert(with_lines(entry@, text@, end + 1) == Ok::<RewardModel, RewardTextError>(
                    entry@,
                ));
            }
            return Ok(entry);
        }
        from = end + 1;
    }
    Ok(entry)
}

/// The line of one account.
pub open spec fn account_line(a: RewardAccountModel, last: bool) -> Seq<char> {
    "    {\"address\": \"0x"@ + hex_of(a.address) + "\", \"pos_identifier\": \"0x"@ + hex_of(
        a.identifier,
    ) + "\", \"reward\": \""@ + decimal(be_value(a.reward)) + "\"}"@ + (if last {
        "\n"@
    } else {
        ",\n"@
    })
}

/// The lines of the first `n` accounts.
pub open spec fn account_lines(accounts: Seq<RewardAccountModel>, n: int) -> Seq<char>
    decreases n,
{
    if n <= 0 {
        Seq::empty()
    } else {
        account_lines(accounts, n - 1) + account_line(accounts[n - 1], n == accounts.len())
    }
}

/// The text of a PoS reward.
pub open spec fn reward_lines(pos_epoch: u64, r: RewardModel) -> Seq<char> {
    "{\n  \"pos_epoch\": "@ + decimal(pos_epoch as nat) + ",\n  \"execution_epoch_hash\": \"0x"@
        + hex_of(r.epoch_hash) + "\",\n  \"account_rewards\": [\n"@ + account_lines(
        r.accounts,
        r.accounts.len() as int,
    ) + "  ]\n}\n"@
}

/// Writes a stored PoS reward as text, as it stands.
#[verifier::rlimit(60)]
pub fn reward_json(pos_epoch: u64, entry: &StoredReward) -> (r: String)
    ensures
        r@ == reward_lines(pos_epoch, entry@),
{
    let ghost m = entry@;
    let ghost n = m.accounts.len() as int;
    let mut out: String = String::from_str("{\n  \"pos_epoch\": ");
    append_number(&mut out, pos_epoch);
    out.append(",\n  \"execution_epoch_hash\": \"0x");
    append_hex(&mut out, entry.execution_epoch_hash.as_slice());
    out.append("\",\n  \"account_rewards\": [\n");
    let ghost head = out@;
    let mut i: usize = 0;
    proof {
        assert(head + account_lines(m.accounts, 0) =~= head);
    }
    while i < entry.shares.len()
        invariant
            i <= entry.shares@.len(),
            m == entry@,
            n == m.accounts.len(),
            n == entry.shares@.len(),
            out@ == head + account_lines(m.accounts, i as int),
        decreases entry.shares@.len() - i,
    {
        let a: &StoredShare = &entry.shares[i];
        let ghost before = out@;
        out.append("    {\"address\": \"0x");
        append_hex(&mut out, a.address.as_slice());
        out.append("\", \"pos_identifier\": \"0x");
        append_hex(&mut out, a.pos_identifier.as_slice());
        out.append("\", \"reward\": \"");
        append_decimal(&mut out, &a.reward);
        out.append("\"}");
        if i + 1 == entry.shares.len() {
            out.append("\n");
        } else {
            out.append(",\n");
        }
        proof {
            assert(a@ == m.accounts[i as int]);
            let line = account_line(a@, i + 1 == n);
            assert(out@ =~= before + line);
            let lines = account_lines(m.accounts, i as int);
            assert((head + lines) + line =~= head + (lines + line));
        }
        i += 1;
    }
    out.append("  ]\n}\n");
    out
}

} // verus!
