//! Source readers: extracting a normalized command from one line of a
//! shell's native history file, in either of the two supported formats.

use vstd::prelude::*;
use crate::text::{
    trim_spec, trim_chars, lower_of, lowercase, string_from_chars, chars_of,
    lemma_trim_spec_idempotent,
};

verus! {

/// Which native history syntax a source file uses.
///
/// `Fish` is the structured-entry format: each record opens with the
/// fixed marker `- cmd: ` followed by the command text. `Bash` is the
/// plain-line format: one command per line, `#` opening a comment.
#[derive(Clone, Copy, PartialEq, Eq, Structural, Debug)]
pub enum HistoryFormat {
    Fish,
    Bash,
}

/// The marker that opens each command record in the structured format.
pub open spec fn fish_marker() -> Seq<char> {
    seq!['-', ' ', 'c', 'm', 'd', ':', ' ']
}

/// The command a single history line yields, if any, already
/// normalized: trimmed and lower-cased, never empty.
///
/// In the structured format, only lines carrying the marker yield a
/// command: the marker is stripped and the rest trimmed and
/// lower-cased; a record whose command is empty after trimming yields
/// nothing. In the plain-line format, the trimmed, lower-cased line is
/// the command unless the trimmed line is empty or opens a comment.
pub open spec fn parse_line_spec(line: Seq<char>, fmt: HistoryFormat) -> Option<Seq<char>> {
    match fmt {
        HistoryFormat::Fish => {
            if line.len() >= 7 && line.take(7) == fish_marker() {
                let t = trim_spec(line.skip(7));
                if t.len() == 0 {
                    None
                } else {
                    Some(lower_of(t))
                }
            } else {
                None
            }
        },
        HistoryFormat::Bash => {
            let t = trim_spec(line);
            if t.len() == 0 || t[0] == '#' {
                None
            } else {
                Some(lower_of(t))
            }
        },
    }
}

fn has_fish_marker(line: &Vec<char>) -> (r: bool)
    ensures
        r == (line@.len() >= 7 && line@.take(7) == fish_marker()),
{
    if line.len() < 7 {
        return false;
    }
    let m: Vec<char> = vec!['-', ' ', 'c', 'm', 'd', ':', ' '];
    proof {
        assert(m@ =~= fish_marker());
    }
    let mut k: usize = 0;
    while k < 7
        invariant
            0 <= k <= 7,
            line@.len() >= 7,
            m@ == fish_marker(),
            forall|t: int| 0 <= t < k ==> line@[t] == fish_marker()[t],
        decreases 7 - k,
    {
        if line[k] != m[k] {
            proof {
                assert(line@.take(7)[k as int] != fish_marker()[k as int]);
            }
            return false;
        }
        k = k + 1;
    }
    proof {
        assert(line@.take(7) =~= fish_marker());
    }
    true
}

pub(crate) fn copy_range(v: &Vec<char>, from: usize, to: usize) -> (r: Vec<char>)
    requires
        from <= to <= v.len(),
    ensures
        r@ == v@.subrange(from as int, to as int),
{
    let mut r: Vec<char> = Vec::new();
    let mut k: usize = from;
    while k < to
        invariant
            from <= k <= to <= v.len(),
            r@ == v@.subrange(from as int, k as int),
        decreases to - k,
    {
        r.push(v[k]);
        proof {
            assert(v@.subrange(from as int, k as int).push(v@[k as int]) =~= v@.subrange(
                from as int,
                k as int + 1,
            ));
        }
        k = k + 1;
    }
    r
}

/// Lower-cases a trimmed, non-empty command, keeping it trimmed and
/// non-empty.
fn fold_command(t: &Vec<char>) -> (r: Vec<char>)
    requires
        t@.len() > 0,
        trim_spec(t@) == t@,
    ensures
        r@ == lower_of(t@),
        r@.len() > 0,
        trim_spec(r@) == r@,
{
    let ts = string_from_chars(t);
    let low = lowercase(ts.as_str());
    chars_of(low.as_str())
}

/// Extracts the command a history line yields under the given format,
/// or nothing when the line carries none. A command that comes out is
/// normalized: non-empty and trimmed.
pub fn parse_line_chars(line: &Vec<char>, fmt: HistoryFormat) -> (r: Option<Vec<char>>)
    ensures
        (r is Some) == (parse_line_spec(line@, fmt) is Some),
        r matches Some(c) ==> parse_line_spec(line@, fmt) == Some(c@),
        r matches Some(c) ==> c@.len() > 0 && trim_spec(c@) == c@,
{
    match fmt {
        HistoryFormat::Fish => {
            if has_fish_marker(line) {
                let tail = copy_range(line, 7, line.len());
                proof {
                    assert(line@.subrange(7, line@.len() as int) =~= line@.skip(7));
                }
                let t = trim_chars(&tail);
                if t.len() == 0 {
                    None
                } else {
                    proof {
                        lemma_trim_spec_idempotent(tail@);
                    }
                    Some(fold_command(&t))
                }
            } else {
                None
            }
        },
        HistoryFormat::Bash => {
            let t = trim_chars(line);
            if t.len() == 0 {
                None
            } else if t[0] == '#' {
                None
            } else {
                proof {
                    lemma_trim_spec_idempotent(line@);
                }
                Some(fold_command(&t))
            }
        },
    }
}

} // verus!
