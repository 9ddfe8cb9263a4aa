//! What the kernel log writes to the console: a color per level, and lines
//! ended the way a serial terminal expects.
use vstd::prelude::*;
use vstd::string::*;

verus! {

/// Writing text to the console.
pub trait LogFuncs {
    fn console_write_str(&self, s: &str);
}

/// The levels of log messages, from the most to the least severe.
#[derive(Copy, Clone, Debug, PartialEq, Eq, Structural)]
pub enum LogLevel {
    Error,
    Warn,
    Info,
    Debug,
    Trace,
}

/// The terminal color of a level's messages: red, yellow, green, cyan and
/// bright black.
pub open spec fn color_code(level: LogLevel) -> u8 {
    match level {
        LogLevel::Error => 31,
        LogLevel::Warn => 33,
        LogLevel::Info => 32,
        LogLevel::Debug => 36,
        LogLevel::Trace => 90,
    }
}

/// The terminal color of a level's messages.
pub fn color_of(level: LogLevel) -> (r: u8)
    ensures
        r == color_code(level),
{
    match level {
        LogLevel::Error => 31,
        LogLevel::Warn => 33,
        LogLevel::Info => 32,
        LogLevel::Debug => 36,
        LogLevel::Trace => 90,
    }
}

/// The bytes sent to the console for the characters `s`: each character
/// goes out as the low byte of its code, and one whose low byte is a line
/// feed goes out as carriage return and line feed.
pub open spec fn console_bytes_spec(s: Seq<char>) -> Seq<u8>
    decreases s.len(),
{
    if s.len() == 0 {
        Seq::empty()
    } else {
        console_bytes_spec(s.drop_last()) + (if (s.last() as u32) as u8 == 10 {
            seq![13u8, 10u8]
        } else {
            seq![(s.last() as u32) as u8]
        })
    }
}

/// The bytes sent to the console for `s`.
pub fn console_bytes(s: &str) -> (r: Vec<u8>)
    ensures
        r@ == console_bytes_spec(s@),
{
    let n = s.unicode_len();
    let mut out: Vec<u8> = Vec::new();
    let mut i: usize = 0;
    while i < n
        invariant
            n == s@.len(),
            i <= n,
            out@ == console_bytes_spec(s@.subrange(0, i as int)),
        decreases n - i,
    {
        let c = s.get_char(i);
        proof {
            let t = s@.subrange(0, i + 1);
            assert(t.drop_last() =~= s@.subrange(0, i as int));
            assert(t.last() == c);
        }
        let b = (c as u32) as u8;
        if b == 10 {
            out.push(13);
            out.push(10);
            proof {
                assert(out@ =~= console_bytes_spec(s@.subrange(0, i + 1)));
            }
        } else {
            out.push(b);
            proof {
                assert(out@ =~= console_bytes_spec(s@.subrange(0, i + 1)));
            }
        }
        i = i + 1;
    }
    proof {
        assert(s@.subrange(0, n as int) =~= s@);
    }
    out
}

} // verus!
