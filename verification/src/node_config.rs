//! Node configuration from environment variables.

use vstd::prelude::*;
use vstd::string::*;

use crate::text::{decimal, digit_char};

verus! {

/// Why a text is not a number.
#[derive(Debug, Clone, Copy, PartialEq, Eq, Structural)]
pub enum NumberError {
    /// There is no digit.
    Empty,
    /// A character is not a decimal digit.
    InvalidDigit,
    /// The number is larger than its type can hold.
    PosOverflow,
}

/// The value of a decimal digit.
pub open spec fn digit_value(c: char) -> Option<nat> {
    if '0' <= c <= '9' {
        Some((c as int - '0' as int) as nat)
    } else {
        None
    }
}

/// The number that `digits` write in base ten, where it is at most `max`. Digits are read
/// from the left, and the first one that does not fit decides what is wrong.
pub open spec fn digits_number(digits: Seq<char>, max: nat) -> Result<nat, NumberError>
    decreases digits.len(),
{
    if digits.len() == 0 {
        Ok(0)
    } else {
        match digits_number(digits.drop_last(), max) {
            Err(e) => Err(e),
            Ok(high) => match digit_value(digits.last()) {
                None => Err(NumberError::InvalidDigit),
                Some(d) => if 10 * high + d > max {
                    Err(NumberError::PosOverflow)
                } else {
                    Ok(10 * high + d)
                },
            },
        }
    }
}

/// The number that `text` writes in base ten, with or without a leading plus sign.
pub open spec fn number(text: Seq<char>, max: nat) -> Result<nat, NumberError> {
    if text.len() == 0 {
        Err(NumberError::Empty)
    } else if text[0] == '+' {
        if text.len() == 1 {
            Err(NumberError::InvalidDigit)
        } else {
            digits_number(text.skip(1), max)
        }
    } else {
        digits_number(text, max)
    }
}

/// Reads a number of at most `max`.
pub fn parse_number(text: &str, max: u64) -> (r: Result<u64, NumberError>)
    ensures
        match number(text@, max as nat) {
            Ok(n) => r == Ok::<u64, NumberError>(n as u64) && n <= max,
            Err(e) => r == Err::<u64, NumberError>(e),
        },
{
    let len: usize = text.unicode_len();
    if len == 0 {
        return Err(NumberError::Empty);
    }
    let start: usize = if text.get_char(0) == '+' {
        1
    } else {
        0
    };
    if start == len {
        return Err(NumberError::InvalidDigit);
    }
    let ghost digits = text@.skip(start as int);
    assert(text@.skip(0) =~= text@);
    let mut value: u64 = 0;
    let mut i: usize = start;
    assert(digits.take(0) =~= Seq::<char>::empty());
    while i < len
        invariant
            start <= i <= len == text@.len(),
            digits == text@.skip(start as int),
            number(text@, max as nat) == digits_number(digits, max as nat),
            value <= max,
            digits_number(digits.take(i - start), max as nat) == Ok::<nat, NumberError>(
                value as nat,
            ),
        decreases len - i,
    {
        let c: char = text.get_char(i);
        proof {
            let longer = digits.take(i - start + 1);
            assert(longer.drop_last() =~= digits.take(i - start));
            assert(longer.last() == c);
        }
        if c < '0' || c > '9' {
            proof {
                lemma_stuck(digits, i - start + 1, max as nat);
            }
            return Err(NumberError::InvalidDigit);
        }
        let d: u64 = (c as u32 - '0' as u32) as u64;
        if d > max || value > max / 10 || 10 * value > max - d {
            proof {
                lemma_stuck(digits, i - start + 1, max as nat);
            }
            return Err(NumberError::PosOverflow);
        }
        value = 10 * value + d;
        i += 1;
    }
    assert(digits.take(len - start) =~= digits);
    Ok(value)
}

/// What is wrong with the first digits is wrong with the whole.
proof fn lemma_stuck(digits: Seq<char>, n: int, max: nat)
    requires
        0 <= n <= digits.len(),
        digits_number(digits.take(n), max) is Err,
    ensures
        digits_number(digits, max) == digits_number(digits.take(n), max),
    decreases digits.len(),
{
    if n == digits.len() {
        assert(digits.take(n) =~= digits);
    } else {
        assert(digits.drop_last().take(n) =~= digits.take(n));
        lemma_stuck(digits.drop_last(), n, max);
    }
}

/// Reading a decimal numeral gives back the number it was written for.
pub proof fn law_reading_undoes_writing(n: nat, max: nat)
    requires
        n <= max,
    ensures
        number(decimal(n), max) == Ok::<nat, NumberError>(n),
{
    lemma_digits_of_decimal(n, max);
    lemma_decimal_starts_with_digit(n);
}

proof fn lemma_digits_of_decimal(n: nat, max: nat)
    requires
        n <= max,
    ensures
        digits_number(decimal(n), max) == Ok::<nat, NumberError>(n),
    decreases n,
{
    assert(digit_value(digit_char((n % 10) as int)) == Some(n % 10));
    if n < 10 {
        assert(decimal(n).drop_last() =~= Seq::<char>::empty());
        assert(digits_number(Seq::<char>::empty(), max) == Ok::<nat, NumberError>(0));
        assert(n % 10 == n);
    } else {
        lemma_digits_of_decimal(n / 10, max);
        assert(decimal(n).drop_last() =~= decimal(n / 10));
    }
}

proof fn lemma_decimal_starts_with_digit(n: nat)
    ensures
        decimal(n).len() > 0,
        digit_value(decimal(n)[0]) is Some,
    decreases n,
{
    if n >= 10 {
        lemma_decimal_starts_with_digit(n / 10);
    }
}

/// The non-empty parts of `text` between commas, from position `i` on, where `current` is
/// what has been read of the part at hand.
pub open spec fn parts_from(text: Seq<char>, i: int, current: Seq<char>) -> Seq<Seq<char>>
    decreases text.len() - i,
{
    let closed = if current.len() > 0 {
        seq![current]
    } else {
        Seq::empty()
    };
    if i < 0 || i >= text.len() {
        closed
    } else if text[i] == ',' {
        closed + parts_from(text, i + 1, Seq::empty())
    } else {
        parts_from(text, i + 1, current.push(text[i]))
    }
}

/// The non-empty parts of `text` between commas.
pub open spec fn peers_of(text: Seq<char>) -> Seq<Seq<char>> {
    parts_from(text, 0, Seq::empty())
}

/// The contents of each of `list`.
pub open spec fn texts_of(list: Seq<String>) -> Seq<Seq<char>> {
    list.map_values(|s: String| s@)
}

/// Splits a comma-separated list, dropping empty parts.
pub fn split_peers(text: &str) -> (r: Vec<String>)
    ensures
        texts_of(r@) == peers_of(text@),
{
    let len: usize = text.unicode_len();
    let mut out: Vec<String> = Vec::new();
    let mut start: usize = 0;
    let mut i: usize = 0;
    proof {
        assert(text@.subrange(0, 0) =~= Seq::<char>::empty());
        assert(texts_of(out@) =~= Seq::<Seq<char>>::empty());
        assert(texts_of(out@) + parts_from(text@, 0, Seq::empty()) =~= peers_of(text@));
    }
    while i < len
        invariant
            start <= i <= len == text@.len(),
            texts_of(out@) + parts_from(
                text@,
                i as int,
                text@.subrange(start as int, i as int),
            ) == peers_of(text@),
        decreases len - i,
    {
        let ghost current = text@.subrange(start as int, i as int);
        let ghost before = out@;
        if text.get_char(i) == ',' {
            if start < i {
                out.push(String::from_str(text.substring_char(start, i)));
                assert(texts_of(out@) =~= texts_of(before).push(current));
            }
            start = i + 1;
            proof {
                assert(text@.subrange(i + 1, i + 1) =~= Seq::<char>::empty());
                let rest = parts_from(text@, i + 1, Seq::empty());
                assert(texts_of(out@) + rest =~= texts_of(before) + parts_from(
                    text@,
                    i as int,
                    current,
                ));
            }
        } else {
            assert(text@.subrange(start as int, i + 1) =~= current.push(text@[i as int]));
        }
        i += 1;
    }
    let ghost before = out@;
    if start < len {
        out.push(String::from_str(text.substring_char(start, len)));
        assert(texts_of(out@) =~= texts_of(before).push(
            text@.subrange(start as int, len as int),
        ));
    }
    assert(texts_of(out@) =~= peers_of(text@));
    out
}

/// Every part is free of commas and not empty.
pub proof fn law_peers_are_parts(text: Seq<char>, k: int)
    requires
        0 <= k < peers_of(text).len(),
    ensures
        peers_of(text)[k].len() > 0,
        !peers_of(text)[k].contains(','),
{
    lemma_parts(text, 0, Seq::empty(), k);
}

proof fn lemma_parts(text: Seq<char>, i: int, current: Seq<char>, k: int)
    requires
        !current.contains(','),
        0 <= k < parts_from(text, i, current).len(),
    ensures
        parts_from(text, i, current)[k].len() > 0,
        !parts_from(text, i, current)[k].contains(','),
    decreases text.len() - i,
{
    if 0 <= i < text.len() {
        if text[i] == ',' {
            let before: int = if current.len() > 0 {
                1
            } else {
                0
            };
            if k >= before {
                lemma_parts(text, i + 1, Seq::empty(), k - before);
            }
        } else {
            let longer = current.push(text[i]);
            assert(!longer.contains(',')) by {
                if longer.contains(',') {
                    let at = longer.index_of(',');
                    if at < current.len() {
                        assert(current[at] == ',');
                    }
                }
            }
            lemma_parts(text, i + 1, longer, k);
        }
    }
}

/// The environment variables that a node reads. `None` stands for one that is not set.
#[derive(Debug)]
pub struct NodeVars {
    pub node_index: Option<String>,
    pub committee_size: Option<String>,
    pub consensus_port: Option<String>,
    pub rpc_port: Option<String>,
    pub health_port: Option<String>,
    pub peers: Option<String>,
}

/// Node configuration.
#[derive(Debug)]
pub struct NodeConfig {
    pub node_index: usize,
    pub committee_size: usize,
    pub consensus_port: u16,
    pub rpc_port: u16,
    pub health_port: u16,
    pub peers: Vec<String>,
}

/// A configuration as plain values.
#[verifier::ext_equal]
pub struct ConfigView {
    pub node_index: nat,
    pub committee_size: nat,
    pub consensus_port: nat,
    pub rpc_port: nat,
    pub health_port: nat,
    pub peers: Seq<Seq<char>>,
}

impl View for NodeConfig {
    type V = ConfigView;

    open spec fn view(&self) -> ConfigView {
        ConfigView {
            node_index: self.node_index as nat,
            committee_size: self.committee_size as nat,
            consensus_port: self.consensus_port as nat,
            rpc_port: self.rpc_port as nat,
            health_port: self.health_port as nat,
            peers: texts_of(self.peers@),
        }
    }
}

/// What is said about a number that cannot be read.
pub open spec fn complaint(e: NumberError) -> Seq<char> {
    match e {
        NumberError::Empty => "cannot parse integer from empty string"@,
        NumberError::InvalidDigit => "invalid digit found in string"@,
        NumberError::PosOverflow => "number too large to fit in target type"@,
    }
}

impl NumberError {
    /// What is said about a number that cannot be read.
    pub fn text(self) -> (r: &'static str)
        ensures
            r@ == complaint(self),
    {
        match self {
            NumberError::Empty => "cannot parse integer from empty string",
            NumberError::InvalidDigit => "invalid digit found in string",
            NumberError::PosOverflow => "number too large to fit in target type",
        }
    }
}

/// The number that the variable `key` holds, or `default` if it is not set.
pub open spec fn setting(
    key: Seq<char>,
    value: Option<String>,
    default: nat,
    max: nat,
) -> Result<nat, Seq<char>> {
    match value {
        None => Ok(default),
        Some(text) => match number(text@, max) {
            Ok(n) => Ok(n),
            Err(e) => Err("invalid "@ + key + ": "@ + complaint(e)),
        },
    }
}

/// The configuration that `vars` describe, or what is wrong with the first variable that
/// cannot be read.
pub open spec fn config_of(vars: NodeVars) -> Result<ConfigView, Seq<char>> {
    match setting("NODE_INDEX"@, vars.node_index, 0, usize::MAX as nat) {
        Err(e) => Err(e),
        Ok(node_index) => match setting(
            "COMMITTEE_SIZE"@,
            vars.committee_size,
            4,
            usize::MAX as nat,
        ) {
            Err(e) => Err(e),
            Ok(committee_size) => match setting(
                "CONSENSUS_PORT"@,
                vars.consensus_port,
                9000,
                u16::MAX as nat,
            ) {
                Err(e) => Err(e),
                Ok(consensus_port) => match setting(
                    "RPC_PORT"@,
                    vars.rpc_port,
                    8545,
                    u16::MAX as nat,
                ) {
                    Err(e) => Err(e),
                    Ok(rpc_port) => match setting(
                        "HEALTH_PORT"@,
                        vars.health_port,
                        9001,
                        u16::MAX as nat,
                    ) {
                        Err(e) => Err(e),
                        Ok(health_port) => Ok(
                            ConfigView {
                                node_index,
                                committee_size,
                                consensus_port,
                                rpc_port,
                                health_port,
                                peers: match vars.peers {
                                    None => Seq::empty(),
                                    Some(list) => peers_of(list@),
                                },
                            },
                        ),
                    },
                },
            },
        },
    }
}

/// Reads the variable `key`.
fn read_setting(key: &str, value: &Option<String>, default: u64, max: u64) -> (r: Result<
    u64,
    String,
>)
    requires
        default <= max,
    ensures
        match setting(key@, *value, default as nat, max as nat) {
            Ok(n) => r matches Ok(m) && m == n && m <= max,
            Err(e) => r matches Err(text) && text@ == e,
        },
{
    match value {
        None => Ok(default),
        Some(text) => match parse_number(text.as_str(), max) {
            Ok(n) => Ok(n),
            Err(e) => {
                let mut out = String::from_str("invalid ");
                out.append(key);
                out.append(": ");
                out.append(e.text());
                Err(out)
            },
        },
    }
}

impl NodeConfig {
    /// Builds the configuration from environment variables, all of them optional:
    /// - `NODE_INDEX`: zero-based node index (default: 0)
    /// - `COMMITTEE_SIZE`: total number of validators (default: 4)
    /// - `CONSENSUS_PORT`: port for consensus (default: 9000)
    /// - `RPC_PORT`: port for the JSON-RPC endpoint (default: 8545)
    /// - `HEALTH_PORT`: port for the health endpoint (default: 9001)
    /// - `PEERS`: comma-separated peer addresses (default: empty)
    pub fn from_vars(vars: &NodeVars) -> (r: Result<NodeConfig, String>)
        ensures
            match config_of(*vars) {
                Ok(config) => r matches Ok(c) && c@ == config,
                Err(e) => r matches Err(text) && text@ == e,
            },
    {
        let node_index = match read_setting(
            "NODE_INDEX",
            &vars.node_index,
            0,
            usize::MAX as u64,
        ) {
            Ok(n) => n,
            Err(e) => {
                return Err(e);
            },
        };
        let committee_size = match read_setting(
            "COMMITTEE_SIZE",
            &vars.committee_size,
            4,
            usize::MAX as u64,
        ) {
            Ok(n) => n,
            Err(e) => {
                return Err(e);
            },
        };
        let consensus_port = match read_setting(
            "CONSENSUS_PORT",
            &vars.consensus_port,
            9000,
            u16::MAX as u64,
        ) {
            Ok(n) => n,
            Err(e) => {
                return Err(e);
            },
        };
        let rpc_port = match read_setting("RPC_PORT", &vars.rpc_port, 8545, u16::MAX as u64) {
            Ok(n) => n,
            Err(e) => {
                return Err(e);
            },
        };
        let health_port = match read_setting(
            "HEALTH_PORT",
            &vars.health_port,
            9001,
            u16::MAX as u64,
        ) {
            Ok(n) => n,
            Err(e) => {
                return Err(e);
            },
        };
        let peers = match &vars.peers {
            None => Vec::new(),
            Some(list) => split_peers(list.as_str()),
        };
        proof {
            if vars.peers is None {
                assert(texts_of(peers@) =~= Seq::<Seq<char>>::empty());
            }
        }
        Ok(
            NodeConfig {
                node_index: node_index as usize,
                committee_size: committee_size as usize,
                consensus_port: consensus_port as u16,
                rpc_port: rpc_port as u16,
                health_port: health_port as u16,
                peers,
            },
        )
    }
}

/// Whether `text` can be continued: it has a digit's place, that is, something besides a sign.
pub open spec fn started(text: Seq<char>) -> bool {
    text.len() > 0 && text != seq!['+']
}

/// How numbers are read. Nothing is no number, a lone sign is none, and a sign in front changes
/// nothing. Each digit appended multiplies by ten and adds itself, as long as the limit is kept;
/// what is no digit is complained of; and once something is wrong it stays wrong.
pub proof fn law_reading_digit_by_digit(text: Seq<char>, c: char, max: nat)
    ensures
        number(Seq::empty(), max) == Err::<nat, NumberError>(NumberError::Empty),
        number(seq!['+'], max) == Err::<nat, NumberError>(NumberError::InvalidDigit),
        text.len() > 0 && text[0] != '+' ==> number(seq!['+'] + text, max) == number(text, max),
        '0' <= c <= '9' ==> number(seq![c], max) == if c as int - '0' as int <= max {
            Ok::<nat, NumberError>((c as int - '0' as int) as nat)
        } else {
            Err(NumberError::PosOverflow)
        },
        !('0' <= c <= '9') ==> number(seq![c], max) == Err::<nat, NumberError>(
            NumberError::InvalidDigit,
        ),
        started(text) && '0' <= c <= '9' ==> number(text.push(c), max) == match number(text, max) {
            Ok(n) => if 10 * n + (c as int - '0' as int) <= max {
                Ok::<nat, NumberError>((10 * n + (c as int - '0' as int)) as nat)
            } else {
                Err(NumberError::PosOverflow)
            },
            Err(e) => Err(e),
        },
        started(text) && !('0' <= c <= '9') ==> number(text.push(c), max) == match number(
            text,
            max,
        ) {
            Ok(_) => Err::<nat, NumberError>(NumberError::InvalidDigit),
            Err(e) => Err(e),
        },
{
    let one = seq![c];
    assert(one.drop_last() =~= Seq::<char>::empty());
    assert(digits_number(Seq::<char>::empty(), max) == Ok::<nat, NumberError>(0));
    assert(digits_number(one, max) == match digit_value(c) {
        None => Err::<nat, NumberError>(NumberError::InvalidDigit),
        Some(d) => if d > max {
            Err(NumberError::PosOverflow)
        } else {
            Ok(d)
        },
    });
    assert((seq!['+'] + text).skip(1) =~= text);
    if started(text) {
        let longer = text.push(c);
        assert(longer[0] == text[0]);
        if text[0] == '+' {
            if text.len() == 1 {
                assert(text =~= seq!['+']);
            }
            assert(longer.skip(1).drop_last() =~= text.skip(1));
            assert(longer.skip(1).last() == c);
        } else {
            assert(longer.drop_last() =~= text);
            assert(longer.last() == c);
        }
    }
}

proof fn lemma_parts_shift(a: Seq<char>, b: Seq<char>, i: int, j: int, current: Seq<char>)
    requires
        0 <= i <= a.len(),
        0 <= j <= b.len(),
        a.skip(i) == b.skip(j),
    ensures
        parts_from(a, i, current) == parts_from(b, j, current),
    decreases a.len() - i,
{
    assert(a.skip(i).len() == a.len() - i);
    assert(b.skip(j).len() == b.len() - j);
    if i < a.len() {
        assert(a.skip(i)[0] == a[i] && b.skip(j)[0] == b[j]);
        assert(a.skip(i + 1) =~= a.skip(i).skip(1));
        assert(b.skip(j + 1) =~= b.skip(j).skip(1));
        if a[i] == ',' {
            lemma_parts_shift(a, b, i + 1, j + 1, Seq::empty());
        } else {
            lemma_parts_shift(a, b, i + 1, j + 1, current.push(a[i]));
        }
    }
}

proof fn lemma_parts_split(a: Seq<char>, b: Seq<char>, i: int, current: Seq<char>)
    requires
        0 <= i <= a.len(),
    ensures
        parts_from(a + seq![','] + b, i, current) == parts_from(a, i, current) + peers_of(b),
    decreases a.len() - i,
{
    let whole = a + seq![','] + b;
    let closed = if current.len() > 0 {
        seq![current]
    } else {
        Seq::<Seq<char>>::empty()
    };
    if i == a.len() {
        assert(whole[i] == ',');
        assert(whole.skip(i + 1) =~= b);
        assert(b.skip(0) =~= b);
        lemma_parts_shift(whole, b, i + 1, 0, Seq::empty());
    } else {
        assert(whole[i] == a[i]);
        if a[i] == ',' {
            lemma_parts_split(a, b, i + 1, Seq::empty());
            assert(parts_from(whole, i, current) =~= parts_from(a, i, current) + peers_of(b));
        } else {
            lemma_parts_split(a, b, i + 1, current.push(a[i]));
        }
    }
}

proof fn lemma_parts_whole(text: Seq<char>, i: int, current: Seq<char>)
    requires
        0 <= i <= text.len(),
        !text.contains(','),
    ensures
        parts_from(text, i, current) == if current.len() + text.len() - i > 0 {
            seq![current + text.skip(i)]
        } else {
            Seq::empty()
        },
    decreases text.len() - i,
{
    if i < text.len() {
        assert(text[i] != ',') by {
            if text[i] == ',' {
                assert(text.contains(','));
            }
        }
        lemma_parts_whole(text, i + 1, current.push(text[i]));
        assert(current.push(text[i]) + text.skip(i + 1) =~= current + text.skip(i));
    } else {
        assert(current + text.skip(i) =~= current);
    }
}

/// Splitting at a comma splits the list there: the parts of a text are those of what goes before
/// the comma and those of what follows it, in order. A text without a comma is one part, and an
/// empty text is none.
pub proof fn law_peers_split_at_commas(a: Seq<char>, b: Seq<char>)
    ensures
        peers_of(a + seq![','] + b) == peers_of(a) + peers_of(b),
        !a.contains(',') && a.len() > 0 ==> peers_of(a) == seq![a],
        peers_of(Seq::empty()) == Seq::<Seq<char>>::empty(),
{
    lemma_parts_split(a, b, 0, Seq::empty());
    if !a.contains(',') {
        lemma_parts_whole(a, 0, Seq::empty());
        assert(Seq::<char>::empty() + a.skip(0) =~= a);
    }
}

/// Whether `value` is read as `n`: as the number it writes, or as `default` if it is not set.
pub open spec fn read_as(value: Option<String>, default: nat, max: nat, n: nat) -> bool {
    match value {
        None => n == default,
        Some(text) => number(text@, max) == Ok::<nat, NumberError>(n),
    }
}

/// Whether `value` is set to what is no number up to `max`, for the reason `why`.
pub open spec fn unreadable(value: Option<String>, max: nat, why: NumberError) -> bool {
    match value {
        None => false,
        Some(text) => number(text@, max) == Err::<nat, NumberError>(why),
    }
}

/// Whether `e` complains that the variable `key` is not readable, for the reason `why`.
pub open spec fn complains(e: Seq<char>, key: Seq<char>, why: NumberError) -> bool {
    e == "invalid "@ + key + ": "@ + match why {
        NumberError::Empty => "cannot parse integer from empty string"@,
        NumberError::InvalidDigit => "invalid digit found in string"@,
        NumberError::PosOverflow => "number too large to fit in target type"@,
    }
}

/// The configuration takes each setting from its own variable, or its default where that is not
/// set, and the peers as listed. It fails exactly if a variable is not readable, and then complains
/// of the first such one.
pub proof fn law_config_reads_each_variable(vars: NodeVars)
    ensures
        config_of(vars) matches Ok(c) ==> {
            &&& read_as(vars.node_index, 0, usize::MAX as nat, c.node_index)
            &&& read_as(vars.committee_size, 4, usize::MAX as nat, c.committee_size)
            &&& read_as(vars.consensus_port, 9000, u16::MAX as nat, c.consensus_port)
            &&& read_as(vars.rpc_port, 8545, u16::MAX as nat, c.rpc_port)
            &&& read_as(vars.health_port, 9001, u16::MAX as nat, c.health_port)
            &&& vars.peers is None ==> c.peers.len() == 0
            &&& vars.peers matches Some(list) ==> c.peers == peers_of(list@)
        },
        forall|why: NumberError| #[trigger]
            unreadable(vars.node_index, usize::MAX as nat, why) ==> (config_of(vars) matches Err(e)
                && complains(e, "NODE_INDEX"@, why)),
        vars.node_index is None || number(vars.node_index->0@, usize::MAX as nat) is Ok ==> {
            &&& forall|why: NumberError| #[trigger]
                unreadable(vars.committee_size, usize::MAX as nat, why) ==> (config_of(
                    vars,
                ) matches Err(e) && complains(e, "COMMITTEE_SIZE"@, why))
            &&& vars.committee_size is None || number(
                vars.committee_size->0@,
                usize::MAX as nat,
            ) is Ok ==> {
                &&& forall|why: NumberError| #[trigger]
                    unreadable(vars.consensus_port, u16::MAX as nat, why) ==> (config_of(
                        vars,
                    ) matches Err(e) && complains(e, "CONSENSUS_PORT"@, why))
                &&& vars.consensus_port is None || number(
                    vars.consensus_port->0@,
                    u16::MAX as nat,
                ) is Ok ==> {
                    &&& forall|why: NumberError| #[trigger]
                        unreadable(vars.rpc_port, u16::MAX as nat, why) ==> (config_of(
                            vars,
                        ) matches Err(e) && complains(e, "RPC_PORT"@, why))
                    &&& vars.rpc_port is None || number(vars.rpc_port->0@, u16::MAX as nat) is Ok
                        ==> {
                        &&& forall|why: NumberError| #[trigger]
                            unreadable(vars.health_port, u16::MAX as nat, why) ==> (config_of(
                                vars,
                            ) matches Err(e) && complains(e, "HEALTH_PORT"@, why))
                        &&& vars.health_port is None || number(
                            vars.health_port->0@,
                            u16::MAX as nat,
                        ) is Ok ==> config_of(vars) is Ok
                    }
                }
            }
        },
{
}

/// What is said of a configuration is what it holds, field by field.
pub proof fn law_view_shows_config(config: NodeConfig)
    ensures
        config@.node_index == config.node_index,
        config@.committee_size == config.committee_size,
        config@.consensus_port == config.consensus_port,
        config@.rpc_port == config.rpc_port,
        config@.health_port == config.health_port,
        config@.peers.len() == config.peers@.len(),
        forall|k: int|
            0 <= k < config.peers@.len() ==> #[trigger] config@.peers[k] == config.peers@[k]@,
{
}

} // verus!
