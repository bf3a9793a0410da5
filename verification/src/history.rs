//! Shell history: picking the candidate command out of the tail of the
//! history file, and rendering the entry line that the host shell's own
//! reader accepts.

use vstd::prelude::*;
use vstd::string::*;

use crate::codec::find_from;
use crate::codec::find_in;
use crate::codec::lemma_find_from_some;
use crate::codec::trim;
use crate::codec::trim_chars;

verus! {

/// Why the last command could not be recovered or rerun.
#[derive(Debug)]
pub enum CommandError {
    /// The history file's location is not configured.
    NoHistoryFile(String),
    /// No contentful command could be extracted from the history tail.
    Extract(String),
    /// The candidate command could not be rerun.
    Run(String),
}

/// The text up to the first line break, or all of it when there is none.
pub open spec fn first_line(s: Seq<char>) -> Seq<char> {
    match find_from(s, seq!['\n'], 0) {
        Option::Some(i) => s.subrange(0, i),
        Option::None => s,
    }
}

/// Position of the last occurrence of `c` in `s`.
pub open spec fn find_last(s: Seq<char>, c: char) -> Option<int>
    decreases s.len(),
{
    if s.len() == 0 {
        Option::None
    } else if s[s.len() - 1] == c {
        Option::Some(s.len() - 1)
    } else {
        find_last(s.subrange(0, s.len() - 1), c)
    }
}

/// The candidate command in a history tail: the tail's first line is the
/// entry to correct (the line after it is the tool's own invocation); on a
/// compound line, the last statement segment counts; the segment is taken
/// trimmed.
pub open spec fn candidate_spec(tail: Seq<char>) -> Seq<char> {
    let line = first_line(tail);
    let seg = match find_last(line, ';') {
        Option::Some(i) => line.subrange(i + 1, line.len() as int),
        Option::None => line,
    };
    trim_chars(seg)
}

/// The message reported when the tail holds no line at all.
pub open spec fn no_line_msg() -> Seq<char> {
    "No command found in history file"@
}

/// The message reported when the selected segment trims to nothing.
pub open spec fn blank_segment_msg() -> Seq<char> {
    "Command needs to be contentful"@
}

/// The candidate command of a history tail, when the tail holds a
/// contentful one.
pub fn extract_candidate(tail: &str) -> (r: Result<String, CommandError>)
    ensures
        candidate_spec(tail@).len() > 0 ==> (r matches Result::Ok(c) && c@ == candidate_spec(
            tail@,
        )),
        candidate_spec(tail@).len() == 0 ==> (r matches Result::Err(CommandError::Extract(m))
            && m@ == (if first_line(tail@).len() == 0 {
            no_line_msg()
        } else {
            blank_segment_msg()
        })),
{
    proof {
        reveal_strlit("\n");
        assert("\n"@ =~= seq!['\n']);
    }
    let n = tail.unicode_len();
    let line_end = match find_in(tail, "\n", 0) {
        Option::Some(i) => {
            proof {
                lemma_find_from_some(tail@, seq!['\n'], 0, i as int);
            }
            i
        },
        Option::None => n,
    };
    let line = tail.substring_char(0, line_end);
    proof {
        if find_from(tail@, seq!['\n'], 0) is None {
            assert(tail@.subrange(0, n as int) =~= tail@);
        }
        assert(line@ == first_line(tail@));
    }
    let ln = line.unicode_len();
    if ln == 0 {
        return Result::Err(
            CommandError::Extract(String::from_str("No command found in history file")),
        );
    }
    let ghost line_view = line@;
    proof {
        assert(line_view.subrange(0, ln as int) =~= line_view);
    }
    let mut i: usize = ln;
    let mut found = false;
    loop
        invariant_except_break
            !found,
            find_last(line_view, ';') == find_last(line_view.subrange(0, i as int), ';'),
        invariant
            i <= ln,
            ln == line_view.len(),
            line_view == line@,
        ensures
            i <= ln,
            ln == line_view.len(),
            found ==> 1 <= i && find_last(line_view, ';') == Option::Some(i - 1),
            !found ==> i == 0 && find_last(line_view, ';') is None,
        decreases i,
    {
        if i == 0 {
            proof {
                assert(line_view.subrange(0, 0) =~= Seq::<char>::empty());
            }
            break;
        }
        let c = line.get_char(i - 1);
        proof {
            assert(line_view.subrange(0, i as int)[i - 1] == line_view[i - 1]);
        }
        if c == ';' {
            found = true;
            break;
        }
        proof {
            assert(line_view.subrange(0, i as int).subrange(0, i - 1) =~= line_view.subrange(
                0,
                i - 1,
            ));
        }
        i = i - 1;
    }
    let seg_start = if found {
        i
    } else {
        0
    };
    let seg = line.substring_char(seg_start, ln);
    proof {
        match find_last(line_view, ';') {
            Option::Some(p) => {
                assert(seg@ == line_view.subrange(p + 1, line_view.len() as int));
            },
            Option::None => {
                assert(seg@ =~= line_view);
            },
        }
    }
    let cand = trim(seg);
    proof {
        assert(cand@ == candidate_spec(tail@));
    }
    if cand.as_str().is_empty() {
        Result::Err(CommandError::Extract(String::from_str("Command needs to be contentful")))
    } else {
        Result::Ok(cand)
    }
}

/// The decimal digit for a value below ten.
pub open spec fn digit_char(d: int) -> char {
    if d == 0 {
        '0'
    } else if d == 1 {
        '1'
    } else if d == 2 {
        '2'
    } else if d == 3 {
        '3'
    } else if d == 4 {
        '4'
    } else if d == 5 {
        '5'
    } else if d == 6 {
        '6'
    } else if d == 7 {
        '7'
    } else if d == 8 {
        '8'
    } else {
        '9'
    }
}

/// The character is a decimal digit.
pub open spec fn is_digit_char(c: char) -> bool {
    ||| c == '0'
    ||| c == '1'
    ||| c == '2'
    ||| c == '3'
    ||| c == '4'
    ||| c == '5'
    ||| c == '6'
    ||| c == '7'
    ||| c == '8'
    ||| c == '9'
}

/// The decimal rendering of a number, most significant digit first, with
/// no leading zeros (a single zero for zero itself).
pub open spec fn dec_digits(n: nat) -> Seq<char>
    decreases n,
{
    if n < 10 {
        seq![digit_char(n as int)]
    } else {
        dec_digits(n / 10) + seq![digit_char((n % 10) as int)]
    }
}

/// A decimal rendering is non-empty and made of digits only.
pub proof fn lemma_dec_digits_are_digits(n: nat)
    ensures
        dec_digits(n).len() >= 1,
        forall|i: int| 0 <= i < dec_digits(n).len() ==> is_digit_char(dec_digits(n)[i]),
    decreases n,
{
    if n < 10 {
    } else {
        lemma_dec_digits_are_digits(n / 10);
    }
}

/// The decimal digit for a value below ten, as text.
fn digit_str(d: u64) -> (r: &'static str)
    requires
        d < 10,
    ensures
        r@ == seq![digit_char(d as int)],
{
    proof {
        reveal_strlit("0");
        reveal_strlit("1");
        reveal_strlit("2");
        reveal_strlit("3");
        reveal_strlit("4");
        reveal_strlit("5");
        reveal_strlit("6");
        reveal_strlit("7");
        reveal_strlit("8");
        reveal_strlit("9");
        assert("0"@ =~= seq!['0']);
        assert("1"@ =~= seq!['1']);
        assert("2"@ =~= seq!['2']);
        assert("3"@ =~= seq!['3']);
        assert("4"@ =~= seq!['4']);
        assert("5"@ =~= seq!['5']);
        assert("6"@ =~= seq!['6']);
        assert("7"@ =~= seq!['7']);
        assert("8"@ =~= seq!['8']);
        assert("9"@ =~= seq!['9']);
    }
    match d {
        0 => "0",
        1 => "1",
        2 => "2",
        3 => "3",
        4 => "4",
        5 => "5",
        6 => "6",
        7 => "7",
        8 => "8",
        _ => "9",
    }
}

/// The decimal rendering of a number, as text.
pub fn u64_to_dec(n: u64) -> (r: String)
    ensures
        r@ == dec_digits(n as nat),
{
    let first = digit_str(n % 10);
    let mut acc = first.to_owned();
    let mut m = n / 10;
    proof {
        if n >= 10 {
            assert(dec_digits(n as nat) == dec_digits((n / 10) as nat) + seq![digit_char(
                (n % 10) as int,
            )]);
        }
    }
    while m > 0
        invariant
            dec_digits(n as nat) == (if m > 0 {
                dec_digits(m as nat) + acc@
            } else {
                acc@
            }),
        decreases m,
    {
        let d = digit_str(m % 10);
        let ds = d.to_owned();
        let next = ds.concat(acc.as_str());
        proof {
            if m >= 10 {
                assert(dec_digits(m as nat) == dec_digits((m / 10) as nat) + seq![digit_char(
                    (m % 10) as int,
                )]);
                assert((dec_digits((m / 10) as nat) + seq![digit_char((m % 10) as int)]) + acc@
                    =~= dec_digits((m / 10) as nat) + (seq![digit_char((m % 10) as int)] + acc@));
            }
        }
        acc = next;
        m = m / 10;
    }
    acc
}

/// A history entry line: `: `, the timestamp in decimal, `:0;`, the
/// command itself, and a line break.
pub open spec fn history_entry_spec(ts: nat, cmd: Seq<char>) -> Seq<char> {
    seq![':', ' '] + dec_digits(ts) + seq![':', '0', ';'] + cmd + seq!['\n']
}

/// A line of the history-entry shape whose timestamp field is `k` digits
/// wide and whose command text is `cmd`, byte for byte.
pub open spec fn history_line_shape(e: Seq<char>, cmd: Seq<char>, k: int) -> bool {
    &&& 1 <= k
    &&& e.len() == k + 6 + cmd.len()
    &&& e[0] == ':'
    &&& e[1] == ' '
    &&& (forall|i: int| 2 <= i < 2 + k ==> is_digit_char(e[i]))
    &&& e[2 + k] == ':'
    &&& e[3 + k] == '0'
    &&& e[4 + k] == ';'
    &&& e.subrange(5 + k, 5 + k + cmd.len() as int) == cmd
    &&& e[e.len() - 1] == '\n'
}

/// A line in the format the host shell accepts: a timestamp of at least
/// one digit between the fixed punctuation, the command preserved exactly,
/// and a final line break.
pub open spec fn is_history_line(e: Seq<char>, cmd: Seq<char>) -> bool {
    exists|k: int| history_line_shape(e, cmd, k)
}

/// Every formatted history entry has the accepted shape, whatever the
/// timestamp and the command.
pub proof fn lemma_history_entry_shape(ts: nat, cmd: Seq<char>)
    ensures
        is_history_line(history_entry_spec(ts, cmd), cmd),
{
    lemma_dec_digits_are_digits(ts);
    let e = history_entry_spec(ts, cmd);
    let k = dec_digits(ts).len() as int;
    assert(e.subrange(5 + k, 5 + k + cmd.len() as int) =~= cmd);
    assert(history_line_shape(e, cmd, k));
}

/// The history entry recording that `command` ran at `timestamp`, in the
/// exact format the host shell's reader accepts.
pub fn format_history_entry(timestamp: u64, command: &str) -> (r: String)
    ensures
        r@ == history_entry_spec(timestamp as nat, command@),
{
    let mut s = String::from_str(": ");
    let d = u64_to_dec(timestamp);
    s.append(d.as_str());
    s.append(":0;");
    s.append(command);
    s.append("\n");
    proof {
        reveal_strlit(": ");
        reveal_strlit(":0;");
        reveal_strlit("\n");
        assert(s@ =~= history_entry_spec(timestamp as nat, command@));
    }
    s
}

} // verus!
