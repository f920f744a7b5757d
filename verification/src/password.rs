//! The decisions of the password-guessing loop.
//!
//! The loop itself reads lines and prints; what it does with each line read
//! is decided here.
use vstd::prelude::*;
use vstd::string::StringSliceAdditionalSpecFns;
use vstd::utf8::encode_utf8;
use vstd::utf8::encode_utf8_decode_utf8;
use vstd::utf8::encode_utf8_valid_utf8;
use vstd::utf8::is_char_boundary;

verus! {

/// What the guessing loop does with a line it read.
#[derive(Debug, PartialEq, Eq)]
pub enum Guess {
    /// The input has ended: stop.
    EndOfInput,
    /// The line, without its last byte, is the password: stop.
    Correct,
    /// A wrong guess; the count of wrong guesses becomes `next`.
    Wrong { next: i32 },
}


/// Decides what a line read means when `guesses` wrong guesses came before.
/// The line's last byte is dropped before the comparison, so that byte must
/// end a character.
pub fn judge_line(secret: &String, line: &str, guesses: i32) -> (r: Guess)
    requires
        line.spec_bytes().len() > 0 ==> is_char_boundary(line.spec_bytes(), line.spec_bytes().len() - 1),
        line.spec_bytes().len() > 0 && line.spec_bytes().drop_last() != encode_utf8(secret@) ==> guesses
            < i32::MAX,
    ensures
        line.spec_bytes().len() == 0 ==> r == Guess::EndOfInput,
        line.spec_bytes().len() > 0 && line.spec_bytes().drop_last() == encode_utf8(secret@) ==> r
            == Guess::Correct,
        line.spec_bytes().len() > 0 && line.spec_bytes().drop_last() != encode_utf8(secret@) ==> r == (
        Guess::Wrong { next: (guesses + 1) as i32 }),
{
    let n = line.as_bytes().len();
    if n == 0 {
        return Guess::EndOfInput;
    }
    proof {
        encode_utf8_valid_utf8(line@);
    }
    let (head, _) = line.split_at(n - 1);
    let candidate = head.to_owned();
    proof {
        assert(head.spec_bytes() =~= line.spec_bytes().drop_last());
        encode_utf8_decode_utf8(candidate@);
        encode_utf8_decode_utf8(secret@);
    }
    if candidate == *secret {
        Guess::Correct
    } else {
        Guess::Wrong { next: guesses + 1 }
    }
}

} // verus!
