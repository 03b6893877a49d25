//! Replica identity and the Lamport clock.

use vstd::prelude::*;

verus! {

// ---------------------------------------------------------------------------
// The text form of a 128-bit identifier
// ---------------------------------------------------------------------------
/// The value of a hexadecimal digit, in either case.
pub open spec fn hex_digit(c: char) -> Option<int> {
    if '0' <= c <= '9' {
        Some(c as int - '0' as int)
    } else if 'a' <= c <= 'f' {
        Some(c as int - 'a' as int + 10)
    } else if 'A' <= c <= 'F' {
        Some(c as int - 'A' as int + 10)
    } else {
        None
    }
}

/// The lower-case hexadecimal digit of value `d`.
pub open spec fn hex_char(d: int) -> char {
    if d < 10 {
        ('0' as int + d) as char
    } else {
        ('a' as int + d - 10) as char
    }
}

/// The number written by a string of hexadecimal digits, or `None` if a
/// character is no digit.
pub open spec fn hex_value(s: Seq<char>) -> Option<int>
    decreases s.len(),
{
    if s.len() == 0 {
        Some(0)
    } else {
        match (hex_value(s.drop_last()), hex_digit(s.last())) {
            (Some(high), Some(low)) => Some(16 * high + low),
            _ => None,
        }
    }
}

/// The last `n` hexadecimal digits of `x`, in lower case.
pub open spec fn hex_digits(x: int, n: nat) -> Seq<char>
    decreases n,
{
    if n == 0 {
        Seq::empty()
    } else {
        hex_digits(x / 16, (n - 1) as nat).push(hex_char(x % 16))
    }
}

/// The hyphenated form: groups of 8, 4, 4, 4 and 12 digits.
pub open spec fn uuid_text(bits: u128) -> Seq<char> {
    let d = hex_digits(bits as int, 32);
    d.subrange(0, 8).push('-') + d.subrange(8, 12).push('-') + d.subrange(12, 16).push('-')
        + d.subrange(16, 20).push('-') + d.subrange(20, 32)
}

/// The number written in hyphenated form.
pub open spec fn hyphenated_value(s: Seq<char>) -> Option<int> {
    if s.len() == 36 && s[8] == '-' && s[13] == '-' && s[18] == '-' && s[23] == '-' {
        hex_value(
            s.subrange(0, 8) + s.subrange(9, 13) + s.subrange(14, 18) + s.subrange(19, 23)
                + s.subrange(24, 36),
        )
    } else {
        None
    }
}

/// `c` is the letter `lower`, in either case.
pub open spec fn is_letter(c: char, lower: char) -> bool {
    c == lower || c as int + 32 == lower as int
}

/// `s` starts with `urn:uuid:`, in either case.
pub open spec fn has_urn_prefix(s: Seq<char>) -> bool {
    &&& is_letter(s[0], 'u') && is_letter(s[1], 'r') && is_letter(s[2], 'n') && s[3] == ':'
    &&& is_letter(s[4], 'u') && is_letter(s[5], 'u') && is_letter(s[6], 'i') && is_letter(s[7], 'd')
    &&& s[8] == ':'
}

/// The identifier that a text stands for: 32 plain digits, the hyphenated
/// form, the hyphenated form in braces, or the hyphenated form as a URN.
pub open spec fn uuid_value(s: Seq<char>) -> Option<int> {
    if s.len() == 32 {
        hex_value(s)
    } else if s.len() == 36 {
        hyphenated_value(s)
    } else if s.len() == 38 && s[0] == '{' && s[37] == '}' {
        hyphenated_value(s.subrange(1, 37))
    } else if s.len() == 45 && has_urn_prefix(s) {
        hyphenated_value(s.subrange(9, 45))
    } else {
        None
    }
}

/// `uuid::Error`, as `uuid::Uuid::parse_str` returns it.
#[verifier::external_type_specification]
#[verifier::external_body]
pub struct ExUuidError(uuid::Error);

/// Calls `uuid::Uuid::parse_str`. It accepts exactly the four forms of
/// `uuid_value` and returns the number written there.
#[verifier::external_body]
fn parse_uuid(text: &str) -> (r: Result<u128, uuid::Error>)
    ensures
        match r {
            Ok(bits) => uuid_value(text@) == Some(bits as int),
            Err(_) => uuid_value(text@) is None,
        },
{
    Ok(uuid::Uuid::parse_str(text)?.as_u128())
}

/// Calls `to_string` of `uuid::Uuid`, which writes the hyphenated form in lower
/// case.
#[verifier::external_body]
fn format_uuid(bits: u128) -> (text: String)
    ensures
        text@ == uuid_text(bits),
{
    uuid::Uuid::from_u128(bits).to_string()
}

/// Calls `uuid::Uuid::now_v7`. The identifier depends on the time and on chance:
/// only its version (7) and its variant bits (binary 10) are fixed.
#[verifier::external_body]
fn now_v7() -> (bits: u128)
    ensures
        (bits >> 76) & 0xf == 7,
        (bits >> 62) & 0x3 == 2,
{
    uuid::Uuid::now_v7().as_u128()
}

// ---------------------------------------------------------------------------
// Replica identity
// ---------------------------------------------------------------------------
/// Globally unique identity of a node: the 128 bits of a UUID. Identities are
/// ordered as these numbers.
#[derive(Debug, Clone, Copy, PartialEq, Eq, Structural, Hash, PartialOrd, Ord)]
pub struct ReplicaId {
    pub bits: u128,
}

/// A text that is not a UUID.
#[derive(Debug, Clone, Copy, PartialEq, Eq, Structural)]
pub struct InvalidReplicaId {}

impl ReplicaId {
    /// Greatest possible replica id. As a watermark tie-breaker it makes an
    /// entry suppress every operation at or below its timestamp.
    pub fn greatest() -> (id: ReplicaId)
        ensures
            id.bits == u128::MAX,
            forall|other: ReplicaId| other.bits <= id.bits,
    {
        ReplicaId { bits: u128::MAX }
    }

    /// Generates a new replica id from the clock and the random source.
    pub fn new() -> (id: ReplicaId)
        ensures
            (id.bits >> 76) & 0xf == 7,
            (id.bits >> 62) & 0x3 == 2,
    {
        ReplicaId { bits: now_v7() }
    }

    /// Parses a replica id from its text.
    pub fn from_string(s: &str) -> (r: Result<ReplicaId, InvalidReplicaId>)
        ensures
            match r {
                Ok(id) => uuid_value(s@) == Some(id.bits as int),
                Err(_) => uuid_value(s@) is None,
            },
    {
        match parse_uuid(s) {
            Ok(bits) => Ok(ReplicaId { bits }),
            Err(_) => Err(InvalidReplicaId {  }),
        }
    }

    /// The hyphenated text of the id.
    pub fn to_string(&self) -> (text: String)
        ensures
            text@ == uuid_text(self.bits),
    {
        format_uuid(self.bits)
    }
}

impl Default for ReplicaId {
    fn default() -> (id: ReplicaId)
        ensures
            (id.bits >> 76) & 0xf == 7,
            (id.bits >> 62) & 0x3 == 2,
    {
        ReplicaId::new()
    }
}

proof fn lemma_hex_digit_of_char(d: int)
    requires
        0 <= d < 16,
    ensures
        hex_digit(hex_char(d)) == Some(d),
        hex_char(d) != '-',
        (hex_char(d) as int) < 128,
{
}

proof fn lemma_hex_digits(x: int, n: nat)
    requires
        0 <= x,
    ensures
        hex_digits(x, n).len() == n,
        forall|i: int| 0 <= i < n ==> (#[trigger] hex_digits(x, n)[i] as int) < 128,
    decreases n,
{
    if n > 0 {
        lemma_hex_digits(x / 16, (n - 1) as nat);
        lemma_hex_digit_of_char(x % 16);
    }
}

spec fn pow16(n: nat) -> int
    decreases n,
{
    if n == 0 {
        1
    } else {
        16 * pow16((n - 1) as nat)
    }
}

proof fn lemma_hex_round_trip(x: int, n: nat)
    requires
        0 <= x < pow16(n),
    ensures
        hex_value(hex_digits(x, n)) == Some(x),
    decreases n,
{
    if n > 0 {
        lemma_hex_round_trip(x / 16, (n - 1) as nat);
        lemma_hex_digit_of_char(x % 16);
        let s = hex_digits(x, n);
        assert(s.drop_last() =~= hex_digits(x / 16, (n - 1) as nat));
    }
}

/// The text of a replica id has 36 characters, all of them ASCII.
pub proof fn law_uuid_text_shape(bits: u128)
    ensures
        uuid_text(bits).len() == 36,
        forall|i: int| 0 <= i < 36 ==> (#[trigger] uuid_text(bits)[i] as int) < 128,
{
    lemma_hex_digits(bits as int, 32);
    let d = hex_digits(bits as int, 32);
    assert forall|i: int| 0 <= i < 36 implies (#[trigger] uuid_text(bits)[i] as int) < 128 by {
        let j = if i < 8 {
            i
        } else if i < 13 {
            i - 1
        } else if i < 18 {
            i - 2
        } else if i < 23 {
            i - 3
        } else {
            i - 4
        };
        assert(uuid_text(bits)[i] == '-' || (0 <= j < 32 && uuid_text(bits)[i] == d[j]));
    }
}

/// Reading the text of a replica id gives back the replica id.
pub proof fn law_replica_id_text_round_trip(bits: u128)
    ensures
        uuid_value(uuid_text(bits)) == Some(bits as int),
{
    law_uuid_text_shape(bits);
    lemma_hex_digits(bits as int, 32);
    let d = hex_digits(bits as int, 32);
    let s = uuid_text(bits);
    assert(s.subrange(0, 8) + s.subrange(9, 13) + s.subrange(14, 18) + s.subrange(19, 23)
        + s.subrange(24, 36) =~= d);
    assert(pow16(32) == 0x1_0000_0000_0000_0000_0000_0000_0000_0000) by {
        reveal_with_fuel(pow16, 33);
    }
    lemma_hex_round_trip(bits as int, 32);
}

// ---------------------------------------------------------------------------
// Lamport clock
// ---------------------------------------------------------------------------
/// Lamport logical clock, used to establish the causal order of operations. It
/// stops at `u64::MAX` instead of wrapping.
#[derive(Debug)]
pub struct LamportClock {
    counter: u64,
}

impl View for LamportClock {
    type V = u64;

    /// The last timestamp given out or observed.
    closed spec fn view(&self) -> u64 {
        self.counter
    }
}

/// The timestamp after `t`.
pub open spec fn next_timestamp(t: u64) -> u64 {
    if t == u64::MAX {
        t
    } else {
        (t + 1) as u64
    }
}

/// The timestamp of a clock at `local` that has observed `remote`.
pub open spec fn observe_timestamp(local: u64, remote: u64) -> u64 {
    next_timestamp(if local < remote { remote } else { local })
}

impl LamportClock {
    /// A clock that has not ticked.
    pub fn new() -> (clock: LamportClock)
        ensures
            clock@ == 0,
    {
        LamportClock { counter: 0 }
    }

    /// Advances the clock and returns the new timestamp.
    pub fn tick(&mut self) -> (t: u64)
        ensures
            t == next_timestamp(old(self)@),
            final(self)@ == t,
    {
        let t: u64 = self.counter.saturating_add(1);
        self.counter = t;
        t
    }

    /// Advances the clock past both its own time and `remote_timestamp`.
    pub fn update(&mut self, remote_timestamp: u64) -> (t: u64)
        ensures
            t == observe_timestamp(old(self)@, remote_timestamp),
            final(self)@ == t,
    {
        let greater: u64 = if self.counter < remote_timestamp {
            remote_timestamp
        } else {
            self.counter
        };
        let t: u64 = greater.saturating_add(1);
        self.counter = t;
        t
    }
}

impl Clone for LamportClock {
    fn clone(&self) -> (clock: LamportClock)
        ensures
            clock@ == self@,
    {
        LamportClock { counter: self.counter }
    }
}

impl Default for LamportClock {
    fn default() -> (clock: LamportClock)
        ensures
            clock@ == 0,
    {
        LamportClock::new()
    }
}

/// Until the clock is exhausted, each tick gives a timestamp above everything
/// that the clock gave out or observed before. Two operations of one node
/// therefore never share a timestamp.
pub proof fn law_tick_is_fresh(t: u64)
    requires
        t < u64::MAX,
    ensures
        t < next_timestamp(t),
{
}

/// A local write that follows the observation of a remote timestamp is stamped
/// above that timestamp, as long as the clock has a timestamp left.
pub proof fn law_tick_beats_observed(local: u64, remote: u64)
    requires
        remote < u64::MAX,
    ensures
        remote < observe_timestamp(local, remote),
        local < u64::MAX ==> local < observe_timestamp(local, remote),
        observe_timestamp(local, remote) <= next_timestamp(observe_timestamp(local, remote)),
{
}

/// A tick goes up by one, and an observation to one above the greater of the two times.
/// At the last timestamp the clock stands still.
pub proof fn law_clock_steps_by_one(local: u64, remote: u64)
    ensures
        local < 0xffff_ffff_ffff_ffff ==> next_timestamp(local) == local + 1,
        local == 0xffff_ffff_ffff_ffff ==> next_timestamp(local) == local,
        remote <= local < 0xffff_ffff_ffff_ffff ==> observe_timestamp(local, remote) == local + 1,
        local <= remote < 0xffff_ffff_ffff_ffff ==> observe_timestamp(local, remote) == remote + 1,
        local == 0xffff_ffff_ffff_ffff || remote == 0xffff_ffff_ffff_ffff ==> observe_timestamp(
            local,
            remote,
        ) == 0xffff_ffff_ffff_ffff,
{
}

/// A lower-case hexadecimal digit.
pub open spec fn is_lower_hex(c: char) -> bool {
    '0' <= c <= '9' || 'a' <= c <= 'f'
}

proof fn lemma_lower_hex(x: int, n: nat)
    requires
        0 <= x,
    ensures
        hex_digits(x, n).len() == n,
        forall|i: int| 0 <= i < n ==> is_lower_hex(#[trigger] hex_digits(x, n)[i]),
    decreases n,
{
    if n > 0 {
        lemma_lower_hex(x / 16, (n - 1) as nat);
        let c = hex_char(x % 16);
        assert(is_lower_hex(c));
    }
}

/// The text of a replica id is 32 lower-case hexadecimal digits, in groups of 8, 4, 4, 4
/// and 12 with a hyphen between them.
pub proof fn law_uuid_text_is_grouped(bits: u128, i: int)
    requires
        0 <= i < 36,
    ensures
        uuid_text(bits).len() == 36,
        i == 8 || i == 13 || i == 18 || i == 23 <==> uuid_text(bits)[i] == '-',
        i != 8 && i != 13 && i != 18 && i != 23 ==> is_lower_hex(uuid_text(bits)[i]),
{
    lemma_lower_hex(bits as int, 32);
    let d = hex_digits(bits as int, 32);
    let j = if i < 8 {
        i
    } else if i < 13 {
        i - 1
    } else if i < 18 {
        i - 2
    } else if i < 23 {
        i - 3
    } else {
        i - 4
    };
    if i != 8 && i != 13 && i != 18 && i != 23 {
        assert(uuid_text(bits)[i] == d[j]);
        assert(is_lower_hex(d[j]));
    }
}

} // verus!
