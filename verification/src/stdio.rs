use vstd::prelude::*;

verus! {

/// Data register of the first serial port.
pub const COM1_DATA: u16 = 0x3F8;
/// Line status register of the first serial port.
pub const COM1_LSR: u16 = 0x3FD;
/// Line status bit: the transmit register is empty.
pub const LSR_THRE: u8 = 0x20;

/// How important a log message is, least first.
#[derive(Debug, Clone, Copy, PartialEq, Eq, Structural)]
pub enum LogLevel {
    Debug,
    Info,
    Warning,
    Error,
}

/// The place of a level in the order Debug < Info < Warning < Error.
pub open spec fn rank_spec(level: LogLevel) -> u8 {
    match level {
        LogLevel::Debug => 0,
        LogLevel::Info => 1,
        LogLevel::Warning => 2,
        LogLevel::Error => 3,
    }
}

impl LogLevel {
    /// The place of the level in the order Debug < Info < Warning < Error.
    pub fn rank(self) -> (r: u8)
        ensures
            r == rank_spec(self),
    {
        match self {
            LogLevel::Debug => 0,
            LogLevel::Info => 1,
            LogLevel::Warning => 2,
            LogLevel::Error => 3,
        }
    }
}

/// Whether a message of `level` is printed when the console shows `current`
/// and above.
pub fn should_print(level: LogLevel, current: LogLevel) -> (r: bool)
    ensures
        r == (rank_spec(level) >= rank_spec(current)),
{
    level.rank() >= current.rank()
}

/// The tag that starts a log line of `level`.
pub open spec fn prefix_spec(level: LogLevel) -> Seq<char> {
    match level {
        LogLevel::Error => "[ERROR] "@,
        LogLevel::Warning => "[WARN]  "@,
        LogLevel::Info => "[INFO]  "@,
        LogLevel::Debug => "[DEBUG] "@,
    }
}

/// The tag that starts a log line of `level`.
pub fn prefix(level: LogLevel) -> (r: &'static str)
    ensures
        r@ == prefix_spec(level),
{
    match level {
        LogLevel::Error => "[ERROR] ",
        LogLevel::Warning => "[WARN]  ",
        LogLevel::Info => "[INFO]  ",
        LogLevel::Debug => "[DEBUG] ",
    }
}

/// The bytes of `text` before its first zero byte.
pub open spec fn before_nul(text: Seq<u8>) -> Seq<u8>
    decreases text.len(),
{
    if text.len() == 0 {
        text
    } else if text[0] == 0 {
        Seq::empty()
    } else {
        seq![text[0]] + before_nul(text.drop_first())
    }
}

/// The bytes that go out on the serial port for `text`: those before its
/// first zero byte.
pub fn serial_bytes(text: &[u8]) -> (r: Vec<u8>)
    ensures
        r@ == before_nul(text@),
{
    let mut r: Vec<u8> = Vec::new();
    let mut i: usize = 0;
    assert(text@.skip(0) =~= text@);
    assert(r@ + before_nul(text@.skip(0)) =~= before_nul(text@));
    while i < text.len() && text[i] != 0
        invariant
            i <= text@.len(),
            forall|k: int| 0 <= k < i ==> text@[k] != 0,
            r@ == text@.take(i as int),
            before_nul(text@) == r@ + before_nul(text@.skip(i as int)),
        decreases text@.len() - i,
    {
        assert(text@.skip(i as int).drop_first() =~= text@.skip(i + 1));
        r.push(text[i]);
        i = i + 1;
        assert(r@ =~= text@.take(i as int));
        assert(before_nul(text@) =~= r@ + before_nul(text@.skip(i as int)));
    }
    assert(before_nul(text@.skip(i as int)) =~= Seq::<u8>::empty());
    assert(r@ + Seq::<u8>::empty() =~= r@);
    r
}

/// Whether the line status `lsr` says a byte may be sent.
pub fn transmit_ready(lsr: u8) -> (r: bool)
    ensures
        r == (lsr & LSR_THRE != 0),
{
    lsr & LSR_THRE != 0
}

} // verus!
