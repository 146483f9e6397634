use vstd::prelude::*;
use vstd::string::StringSliceAdditionalSpecFns;
use vstd::utf8::{
    encode_utf8_valid_utf8, is_char_boundary, length_of_first_scalar, pop_first_scalar,
    valid_utf8,
};

verus! {

/// The bytes of the command that toggles the LED.
pub open spec fn led_command() -> Seq<u8> {
    seq!['/' as u8, 'l' as u8, 'e' as u8, 'd' as u8]
}

/// The bytes of the command that asks for the device's address.
pub open spec fn ip_command() -> Seq<u8> {
    seq!['/' as u8, 'i' as u8, 'p' as u8]
}

/// The bytes that start a command whose rest is sent back.
pub open spec fn echo_prefix() -> Seq<u8> {
    seq!['/' as u8, 'e' as u8, 'c' as u8, 'h' as u8, 'o' as u8]
}

/// `b` begins with `p`.
pub open spec fn starts_with(b: Seq<u8>, p: Seq<u8>) -> bool {
    p.len() <= b.len() && b.subrange(0, p.len() as int) == p
}

/// A command read from the text of a chat message.
#[derive(Debug, PartialEq, Eq)]
pub enum Command<'a> {
    /// `/led`: toggle the LED.
    Led,
    /// `/ip`: reply with the device's address.
    Ip,
    /// `/echo<text>`: reply with `<text>`, exactly as it follows `/echo`.
    Echo(&'a str),
}

/// Whether the bytes `b` begin with the bytes `p`.
fn bytes_start_with(b: &[u8], p: &[u8]) -> (r: bool)
    ensures
        r == starts_with(b@, p@),
{
    if p.len() > b.len() {
        return false;
    }
    let mut i: usize = 0;
    while i < p.len()
        invariant
            p@.len() <= b@.len(),
            i <= p@.len(),
            b@.subrange(0, i as int) == p@.subrange(0, i as int),
        decreases p.len() - i,
    {
        if b[i] != p[i] {
            assert(b@.subrange(0, p@.len() as int)[i as int] != p@[i as int]);
            return false;
        }
        i = i + 1;
        assert(b@.subrange(0, i as int) =~= p@.subrange(0, i as int));
    }
    assert(p@.subrange(0, i as int) =~= p@);
    true
}

/// A valid UTF-8 sequence whose first `k` bytes are ASCII has a character
/// boundary at `k`.
proof fn lemma_ascii_prefix_boundary(b: Seq<u8>, k: int)
    requires
        valid_utf8(b),
        0 <= k <= b.len(),
        forall|i: int| 0 <= i < k ==> #[trigger] b[i] < 0x80,
    ensures
        is_char_boundary(b, k),
    decreases k,
{
    if k > 0 {
        reveal_with_fuel(valid_utf8, 2);
        assert(length_of_first_scalar(b) == 1);
        let rest = pop_first_scalar(b);
        assert(rest =~= b.subrange(1, b.len() as int));
        assert forall|i: int| 0 <= i < k - 1 implies #[trigger] rest[i] < 0x80 by {
            assert(rest[i] == b[i + 1]);
        }
        lemma_ascii_prefix_boundary(rest, k - 1);
    }
}

/// Reads the command in the text of a chat message: `/led`, `/ip`, or
/// `/echo` followed by the text to send back. Any other text is no command.
pub fn parse_command(text: &str) -> (r: Option<Command<'_>>)
    ensures
        ({
            let b = text.spec_bytes();
            match r {
                Some(Command::Led) => b == led_command(),
                Some(Command::Ip) => b == ip_command(),
                Some(Command::Echo(rest)) => starts_with(b, echo_prefix()) && rest.spec_bytes()
                    == b.subrange(echo_prefix().len() as int, b.len() as int),
                None => b != led_command() && b != ip_command() && !starts_with(
                    b,
                    echo_prefix(),
                ),
            }
        }),
{
    let b = text.as_bytes();
    let led: [u8; 4] = ['/' as u8, 'l' as u8, 'e' as u8, 'd' as u8];
    let ip: [u8; 3] = ['/' as u8, 'i' as u8, 'p' as u8];
    let echo: [u8; 5] = ['/' as u8, 'e' as u8, 'c' as u8, 'h' as u8, 'o' as u8];
    assert(led@ =~= led_command());
    assert(ip@ =~= ip_command());
    assert(echo@ =~= echo_prefix());
    if b.len() == 4 && bytes_start_with(b, led.as_slice()) {
        assert(b@ =~= b@.subrange(0, 4));
        return Some(Command::Led);
    }
    if b.len() == 3 && bytes_start_with(b, ip.as_slice()) {
        assert(b@ =~= b@.subrange(0, 3));
        return Some(Command::Ip);
    }
    if bytes_start_with(b, echo.as_slice()) {
        proof {
            encode_utf8_valid_utf8(text@);
            assert forall|i: int| 0 <= i < 5 implies #[trigger] b@[i] < 0x80 by {
                assert(b@[i] == b@.subrange(0, 5)[i]);
            }
            lemma_ascii_prefix_boundary(b@, 5);
        }
        let (_, rest) = text.split_at(5);
        return Some(Command::Echo(rest));
    }
    proof {
        if b@ == led_command() {
            assert(b@.subrange(0, 4) =~= b@);
        }
        if b@ == ip_command() {
            assert(b@.subrange(0, 3) =~= b@);
        }
    }
    None
}

/// How many polls in a row may fail before the poll loop gives up: it stops
/// once more than this many have failed.
pub const MAX_FAILED_POLLS: u32 = 10;

/// What the poll loop keeps between polls: the first update id it still
/// wants, and how many polls in a row have failed.
pub struct PollState {
    pub offset: i64,
    pub failed_in_row: u32,
}

impl PollState {
    /// Starts at offset 0, with no failed poll.
    pub fn new() -> (r: Self)
        ensures
            r.offset == 0,
            r.failed_in_row == 0,
    {
        PollState { offset: 0, failed_in_row: 0 }
    }

    /// The loop stops once more than `MAX_FAILED_POLLS` polls in a row failed.
    pub fn should_stop(&self) -> (r: bool)
        ensures
            r == (self.failed_in_row > MAX_FAILED_POLLS),
    {
        self.failed_in_row > MAX_FAILED_POLLS
    }

    /// Counts one more failed poll (the count stops at `u32::MAX`).
    pub fn poll_failed(&mut self)
        ensures
            final(self).offset == old(self).offset,
            final(self).failed_in_row == if old(self).failed_in_row < u32::MAX {
                (old(self).failed_in_row + 1) as u32
            } else {
                u32::MAX
            },
    {
        if self.failed_in_row < u32::MAX {
            self.failed_in_row = self.failed_in_row + 1;
        }
    }

    /// A poll succeeded: the run of failures is over.
    pub fn poll_succeeded(&mut self)
        ensures
            final(self).offset == old(self).offset,
            final(self).failed_in_row == 0,
    {
        self.failed_in_row = 0;
    }

    /// The update `update_id` was handled: the next poll asks for the updates
    /// after it.
    pub fn update_handled(&mut self, update_id: i64)
        requires
            update_id < i64::MAX,
        ensures
            final(self).offset == update_id + 1,
            final(self).failed_in_row == old(self).failed_in_row,
    {
        self.offset = update_id + 1;
    }
}

/// The decimal digits, in order of value.
pub open spec fn digit_chars() -> Seq<char> {
    seq!['0', '1', '2', '3', '4', '5', '6', '7', '8', '9']
}

/// The decimal notation of `n`, with no leading zeros.
pub open spec fn decimal_nat(n: nat) -> Seq<char>
    decreases n,
{
    if n < 10 {
        seq![digit_chars()[n as int]]
    } else {
        decimal_nat(n / 10).push(digit_chars()[(n % 10) as int])
    }
}

/// The decimal notation of `n`, with a minus sign when it is negative.
pub open spec fn decimal(n: int) -> Seq<char> {
    if n < 0 {
        seq!['-'] + decimal_nat((-n) as nat)
    } else {
        decimal_nat(n as nat)
    }
}

/// Relies on `String::push`: `c` is appended to the end of `s`.
#[verifier::external_body]
fn push_char(s: &mut String, c: char)
    ensures
        final(s)@ == old(s)@.push(c),
{
    s.push(c)
}

fn push_decimal_nat(s: &mut String, n: u64)
    ensures
        final(s)@ == old(s)@ + decimal_nat(n as nat),
    decreases n,
{
    let digits: [char; 10] = ['0', '1', '2', '3', '4', '5', '6', '7', '8', '9'];
    assert(digits@ =~= digit_chars());
    if n >= 10 {
        push_decimal_nat(s, n / 10);
    }
    push_char(s, digits[(n % 10) as usize]);
    assert(final(s)@ =~= old(s)@ + decimal_nat(n as nat));
}

fn push_decimal(s: &mut String, n: i64)
    ensures
        final(s)@ == old(s)@ + decimal(n as int),
{
    if n < 0 {
        push_char(s, '-');
        let magnitude: u64 = (-(n + 1)) as u64 + 1;
        push_decimal_nat(s, magnitude);
        assert(final(s)@ =~= old(s)@ + decimal(n as int));
    } else {
        push_decimal_nat(s, n as u64);
    }
}

/// The path of the request that sends a message: `/bot<token>/sendMessage`.
pub fn send_message_path(bot_token: &str) -> (r: String)
    ensures
        r@ == "/bot"@ + bot_token@ + "/sendMessage"@,
{
    let mut r = String::from_str("/bot");
    r.append(bot_token);
    r.append("/sendMessage");
    r
}

/// The path of the request that asks for the updates from `offset` on:
/// `/bot<token>/getUpdates?offset=<offset in decimal>`.
pub fn get_updates_path(bot_token: &str, offset: i64) -> (r: String)
    ensures
        r@ == "/bot"@ + bot_token@ + "/getUpdates?offset="@ + decimal(offset as int),
{
    let mut r = String::from_str("/bot");
    r.append(bot_token);
    r.append("/getUpdates?offset=");
    push_decimal(&mut r, offset);
    r
}

} // verus!
