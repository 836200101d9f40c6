//! The canonical log store: full regeneration of a partition's content
//! from a source history file, incremental append without duplicates, and
//! normalized reading of a partition's entries.
//!
//! The two persistence operations are alternatives and must not be mixed
//! on one partition: `rebuild_content` regenerates the whole partition,
//! `append_new_entries` accumulates entries monotonically.

use vstd::prelude::*;
use crate::source::{HistoryFormat, parse_line_spec, parse_line_chars};
use crate::text::{
    split_lines, split_to_lines, chars_of, string_from_chars, trim_spec, trim_chars, lowercase,
    lower_of, lemma_trim_spec_idempotent,
};

verus! {

/// The commands that a sequence of history lines yields under `fmt`,
/// in line order, each already normalized by `parse_line_spec`:
/// trimmed, lower-cased, never empty.
pub open spec fn commands_from_lines(lines: Seq<Seq<char>>, fmt: HistoryFormat) -> Seq<Seq<char>>
    decreases lines.len(),
{
    if lines.len() == 0 {
        Seq::empty()
    } else {
        let rest = commands_from_lines(lines.drop_first(), fmt);
        match parse_line_spec(lines[0], fmt) {
            Some(c) => seq![c] + rest,
            None => rest,
        }
    }
}

/// The commands that source text `src` yields under `fmt`.
pub open spec fn commands_of(src: Seq<char>, fmt: HistoryFormat) -> Seq<Seq<char>> {
    commands_from_lines(split_lines(src), fmt)
}

/// Log entries serialized as text: each entry followed by a newline.
pub open spec fn joined_log(cmds: Seq<Seq<char>>) -> Seq<char>
    decreases cmds.len(),
{
    if cmds.len() == 0 {
        Seq::empty()
    } else {
        cmds[0] + seq!['\n'] + joined_log(cmds.drop_first())
    }
}

/// The content a full rebuild writes to a partition: every normalized
/// command the source yields, in source order, one per line.
pub open spec fn rebuild_spec(src: Seq<char>, fmt: HistoryFormat) -> Seq<char> {
    joined_log(commands_of(src, fmt))
}

/// Appends to `dst` the characters of `add` followed by a newline.
fn push_entry(dst: &mut Vec<char>, add: &Vec<char>)
    ensures
        final(dst)@ == old(dst)@ + add@ + seq!['\n'],
{
    let mut k: usize = 0;
    while k < add.len()
        invariant
            0 <= k <= add.len(),
            dst@ == old(dst)@ + add@.take(k as int),
        decreases add.len() - k,
    {
        dst.push(add[k]);
        proof {
            assert((old(dst)@ + add@.take(k as int)).push(add@[k as int]) =~= old(dst)@
                + add@.take(k as int + 1));
        }
        k = k + 1;
    }
    dst.push('\n');
    proof {
        assert(add@.take(add@.len() as int) =~= add@);
        assert((old(dst)@ + add@).push('\n') =~= old(dst)@ + add@ + seq!['\n']);
    }
}

/// Regenerates a partition's full content from the source history text.
///
/// The result depends on the source text alone: it is the commands the
/// source yields, in order, one per line.
pub fn rebuild_content(src: &str, fmt: HistoryFormat) -> (r: String)
    ensures
        r@ == rebuild_spec(src@, fmt),
{
    let v = chars_of(src);
    let lines = split_to_lines(&v);
    let ghost lviews = lines@.map_values(|l: Vec<char>| l@);
    let mut out: Vec<char> = Vec::new();
    let mut i: usize = 0;
    proof {
        assert(lviews.skip(0) =~= lviews);
        assert(out@ + joined_log(commands_from_lines(lviews, fmt)) =~= rebuild_spec(src@, fmt));
    }
    while i < lines.len()
        invariant
            0 <= i <= lines.len(),
            lviews == lines@.map_values(|l: Vec<char>| l@),
            commands_from_lines(lviews, fmt) == commands_of(src@, fmt),
            out@ + joined_log(commands_from_lines(lviews.skip(i as int), fmt)) == rebuild_spec(
                src@,
                fmt,
            ),
        decreases lines.len() - i,
    {
        let ghost suf = lviews.skip(i as int);
        proof {
            assert(suf[0] == lines@[i as int]@);
            assert(suf.drop_first() =~= lviews.skip(i as int + 1));
        }
        match parse_line_chars(&lines[i], fmt) {
            Some(cmd) => {
                proof {
                    let rest = commands_from_lines(lviews.skip(i as int + 1), fmt);
                    assert(commands_from_lines(suf, fmt) == seq![cmd@] + rest);
                    assert((seq![cmd@] + rest)[0] == cmd@);
                    assert((seq![cmd@] + rest).drop_first() =~= rest);
                    assert(joined_log(seq![cmd@] + rest) == cmd@ + seq!['\n'] + joined_log(rest));
                    assert(out@ + (cmd@ + seq!['\n'] + joined_log(rest)) =~= (out@ + cmd@
                        + seq!['\n']) + joined_log(rest));
                }
                push_entry(&mut out, &cmd);
            },
            None => {
                proof {
                    assert(commands_from_lines(suf, fmt) == commands_from_lines(
                        lviews.skip(i as int + 1),
                        fmt,
                    ));
                }
            },
        }
        i = i + 1;
    }
    proof {
        assert(lviews.skip(lines.len() as int) =~= Seq::<Seq<char>>::empty());
        assert(out@ + Seq::<char>::empty() =~= out@);
    }
    string_from_chars(&out)
}

/// The commands the source yields, as owned strings.
pub fn parse_commands(src: &str, fmt: HistoryFormat) -> (r: Vec<String>)
    ensures
        r@.map_values(|s: String| s@) == commands_of(src@, fmt),
{
    let v = chars_of(src);
    let lines = split_to_lines(&v);
    let ghost lviews = lines@.map_values(|l: Vec<char>| l@);
    let ghost sv = |s: String| s@;
    let mut out: Vec<String> = Vec::new();
    let mut i: usize = 0;
    proof {
        assert(lviews.skip(0) =~= lviews);
        assert(out@.map_values(sv) + commands_from_lines(lviews, fmt) =~= commands_of(src@, fmt));
    }
    while i < lines.len()
        invariant
            0 <= i <= lines.len(),
            lviews == lines@.map_values(|l: Vec<char>| l@),
            sv == (|s: String| s@),
            out@.map_values(sv) + commands_from_lines(lviews.skip(i as int), fmt) == commands_of(
                src@,
                fmt,
            ),
        decreases lines.len() - i,
    {
        let ghost suf = lviews.skip(i as int);
        proof {
            assert(suf[0] == lines@[i as int]@);
            assert(suf.drop_first() =~= lviews.skip(i as int + 1));
        }
        match parse_line_chars(&lines[i], fmt) {
            Some(cmd) => {
                let s = string_from_chars(&cmd);
                proof {
                    let rest = commands_from_lines(lviews.skip(i as int + 1), fmt);
                    assert(commands_from_lines(suf, fmt) == seq![cmd@] + rest);
                    assert((seq![cmd@] + rest)[0] == cmd@);
                    assert((seq![cmd@] + rest).drop_first() =~= rest);
                    assert(out@.push(s).map_values(sv) =~= out@.map_values(sv) + seq![s@]);
                    assert(out@.map_values(sv) + (seq![cmd@] + rest) =~= (out@.map_values(sv)
                        + seq![cmd@]) + rest);
                }
                out.push(s);
            },
            None => {
                proof {
                    assert(commands_from_lines(suf, fmt) == commands_from_lines(
                        lviews.skip(i as int + 1),
                        fmt,
                    ));
                }
            },
        }
        i = i + 1;
    }
    proof {
        assert(lviews.skip(lines.len() as int) =~= Seq::<Seq<char>>::empty());
        assert(out@.map_values(sv) + Seq::<Seq<char>>::empty() =~= out@.map_values(sv));
    }
    out
}

/// No two entries of `s` hold the same text.
pub open spec fn distinct_entries(s: Seq<Seq<char>>) -> bool {
    forall|i: int, j: int| 0 <= i < j < s.len() ==> s[i] != s[j]
}

/// The working-set accumulation of `append_new_entries`: each command in
/// turn is appended unless an equal entry is already present. The
/// commands arrive normalized, so this equality is textual equality
/// post-normalization.
pub open spec fn dedup_append(existing: Seq<Seq<char>>, cmds: Seq<Seq<char>>) -> Seq<Seq<char>>
    decreases cmds.len(),
{
    if cmds.len() == 0 {
        existing
    } else {
        let grown = if existing.contains(cmds[0]) {
            existing
        } else {
            existing.push(cmds[0])
        };
        dedup_append(grown, cmds.drop_first())
    }
}

fn contains_string(v: &Vec<String>, s: &String) -> (r: bool)
    ensures
        r == v@.map_values(|x: String| x@).contains(s@),
{
    let ghost sv = |x: String| x@;
    let mut k: usize = 0;
    while k < v.len()
        invariant
            0 <= k <= v.len(),
            sv == (|x: String| x@),
            forall|t: int| 0 <= t < k ==> v@.map_values(sv)[t] != s@,
        decreases v.len() - k,
    {
        if v[k] == *s {
            proof {
                assert(v@.map_values(sv)[k as int] == s@);
            }
            return true;
        }
        k = k + 1;
    }
    proof {
        assert forall|t: int| 0 <= t < v@.map_values(sv).len() implies v@.map_values(sv)[t]
            != s@ by {}
    }
    false
}

/// Reads the destination's entries into a working set and appends only
/// the source's commands not already present, in order of first
/// appearance; previously-seen entries are never rewritten or reordered.
pub fn append_new_entries(existing: &Vec<String>, src: &str, fmt: HistoryFormat) -> (r: Vec<
    String,
>)
    ensures
        r@.map_values(|s: String| s@) == dedup_append(
            existing@.map_values(|s: String| s@),
            commands_of(src@, fmt),
        ),
{
    let ghost sv = |s: String| s@;
    let mut acc: Vec<String> = Vec::new();
    let mut k: usize = 0;
    while k < existing.len()
        invariant
            0 <= k <= existing.len(),
            sv == (|s: String| s@),
            acc@.map_values(sv) == existing@.map_values(sv).take(k as int),
        decreases existing.len() - k,
    {
        let s = existing[k].clone();
        proof {
            assert(acc@.push(s).map_values(sv) =~= acc@.map_values(sv).push(s@));
            assert(existing@.map_values(sv).take(k as int).push(existing@[k as int]@)
                =~= existing@.map_values(sv).take(k as int + 1));
        }
        acc.push(s);
        k = k + 1;
    }
    proof {
        assert(existing@.map_values(sv).take(existing.len() as int) =~= existing@.map_values(sv));
    }
    let cmds = parse_commands(src, fmt);
    let ghost cviews = cmds@.map_values(sv);
    let mut i: usize = 0;
    proof {
        assert(cviews.skip(0) =~= cviews);
    }
    while i < cmds.len()
        invariant
            0 <= i <= cmds.len(),
            sv == (|s: String| s@),
            cviews == cmds@.map_values(sv),
            dedup_append(acc@.map_values(sv), cviews.skip(i as int)) == dedup_append(
                existing@.map_values(sv),
                commands_of(src@, fmt),
            ),
        decreases cmds.len() - i,
    {
        let ghost suf = cviews.skip(i as int);
        proof {
            assert(suf[0] == cmds@[i as int]@);
            assert(suf.drop_first() =~= cviews.skip(i as int + 1));
        }
        if !contains_string(&acc, &cmds[i]) {
            let s = cmds[i].clone();
            proof {
                assert(acc@.push(s).map_values(sv) =~= acc@.map_values(sv).push(s@));
            }
            acc.push(s);
        }
        i = i + 1;
    }
    proof {
        assert(cviews.skip(cmds.len() as int) =~= Seq::<Seq<char>>::empty());
    }
    acc
}

/// A normalized entry list read back from a partition's content: each
/// line trimmed, empty lines dropped, the rest lower-cased.
pub open spec fn normalized_from_lines(lines: Seq<Seq<char>>) -> Seq<Seq<char>>
    decreases lines.len(),
{
    if lines.len() == 0 {
        Seq::empty()
    } else {
        let rest = normalized_from_lines(lines.drop_first());
        let t = trim_spec(lines[0]);
        if t.len() == 0 {
            rest
        } else {
            seq![lower_of(t)] + rest
        }
    }
}

/// The canonical entries that partition content `content` yields.
pub open spec fn normalized_entries_spec(content: Seq<char>) -> Seq<Seq<char>> {
    normalized_from_lines(split_lines(content))
}

/// Reads a partition's content into its canonical entries: one per
/// non-blank line, trimmed and lower-cased (defensive re-normalization),
/// in line order. Every entry satisfies the Command invariant: it is
/// non-empty and carries no edge whitespace.
pub fn read_log_entries(content: &str) -> (r: Vec<String>)
    ensures
        r@.map_values(|s: String| s@) == normalized_entries_spec(content@),
        forall|j: int|
            0 <= j < r@.len() ==> (#[trigger] r@[j])@.len() > 0 && trim_spec(r@[j]@) == r@[j]@,
{
    let v = chars_of(content);
    let lines = split_to_lines(&v);
    let ghost lviews = lines@.map_values(|l: Vec<char>| l@);
    let ghost sv = |s: String| s@;
    let mut out: Vec<String> = Vec::new();
    let mut i: usize = 0;
    proof {
        assert(lviews.skip(0) =~= lviews);
        assert(out@.map_values(sv) + normalized_from_lines(lviews) =~= normalized_entries_spec(
            content@,
        ));
    }
    while i < lines.len()
        invariant
            0 <= i <= lines.len(),
            lviews == lines@.map_values(|l: Vec<char>| l@),
            sv == (|s: String| s@),
            out@.map_values(sv) + normalized_from_lines(lviews.skip(i as int))
                == normalized_entries_spec(content@),
            forall|j: int|
                0 <= j < out@.len() ==> (#[trigger] out@[j])@.len() > 0 && trim_spec(out@[j]@)
                    == out@[j]@,
        decreases lines.len() - i,
    {
        let ghost suf = lviews.skip(i as int);
        proof {
            assert(suf[0] == lines@[i as int]@);
            assert(suf.drop_first() =~= lviews.skip(i as int + 1));
        }
        let t = trim_chars(&lines[i]);
        if t.len() > 0 {
            let ts = string_from_chars(&t);
            proof {
                lemma_trim_spec_idempotent(lines@[i as int]@);
            }
            let low = lowercase(ts.as_str());
            proof {
                let rest = normalized_from_lines(lviews.skip(i as int + 1));
                assert(normalized_from_lines(suf) == seq![lower_of(t@)] + rest);
                assert(out@.push(low).map_values(sv) =~= out@.map_values(sv) + seq![low@]);
                assert(out@.map_values(sv) + (seq![low@] + rest) =~= (out@.map_values(sv)
                    + seq![low@]) + rest);
            }
            out.push(low);
        } else {
            proof {
                assert(normalized_from_lines(suf) == normalized_from_lines(
                    lviews.skip(i as int + 1),
                ));
            }
        }
        i = i + 1;
    }
    proof {
        assert(lviews.skip(lines.len() as int) =~= Seq::<Seq<char>>::empty());
        assert(out@.map_values(sv) + Seq::<Seq<char>>::empty() =~= out@.map_values(sv));
    }
    out
}

/// Rebuilding is a pure function of the source text: running it twice on
/// an unchanged source produces byte-identical canonical content.
pub proof fn lemma_rebuild_idempotent(src1: Seq<char>, src2: Seq<char>, fmt: HistoryFormat)
    requires
        src1 == src2,
    ensures
        rebuild_spec(src1, fmt) == rebuild_spec(src2, fmt),
{
}

/// Every entry already present stays, at its position: the working set
/// only grows at the end.
pub proof fn lemma_dedup_append_grows(existing: Seq<Seq<char>>, cmds: Seq<Seq<char>>)
    ensures
        existing.is_prefix_of(dedup_append(existing, cmds)),
        forall|k: int|
            0 <= k < cmds.len() ==> dedup_append(existing, cmds).contains(#[trigger] cmds[k]),
    decreases cmds.len(),
{
    if cmds.len() == 0 {
        assert(existing =~= dedup_append(existing, cmds).subrange(0, existing.len() as int));
    } else {
        let grown = if existing.contains(cmds[0]) {
            existing
        } else {
            existing.push(cmds[0])
        };
        lemma_dedup_append_grows(grown, cmds.drop_first());
        let out = dedup_append(existing, cmds);
        assert(existing.is_prefix_of(grown)) by {
            assert(existing =~= grown.subrange(0, existing.len() as int));
        }
        assert(existing.is_prefix_of(out)) by {
            assert(grown =~= out.subrange(0, grown.len() as int));
            assert(existing =~= grown.subrange(0, existing.len() as int));
            assert(existing =~= out.subrange(0, existing.len() as int));
        }
        assert(out.contains(cmds[0])) by {
            assert(grown.contains(cmds[0])) by {
                if !existing.contains(cmds[0]) {
                    assert(grown[existing.len() as int] == cmds[0]);
                }
            }
            let w = choose|w: int| 0 <= w < grown.len() && grown[w] == cmds[0];
            assert(grown =~= out.subrange(0, grown.len() as int));
            assert(out[w] == cmds[0]);
        }
        assert forall|k: int| 0 <= k < cmds.len() implies out.contains(#[trigger] cmds[k]) by {
            if k > 0 {
                assert(cmds.drop_first()[k - 1] == cmds[k]);
            }
        }
    }
}

/// Appending commands that are all already present changes nothing.
pub proof fn lemma_dedup_append_noop(existing: Seq<Seq<char>>, cmds: Seq<Seq<char>>)
    requires
        forall|k: int| 0 <= k < cmds.len() ==> existing.contains(#[trigger] cmds[k]),
    ensures
        dedup_append(existing, cmds) == existing,
    decreases cmds.len(),
{
    if cmds.len() == 0 {
    } else {
        assert(existing.contains(cmds[0]));
        assert forall|k: int| 0 <= k < cmds.drop_first().len() implies existing.contains(
            #[trigger] cmds.drop_first()[k],
        ) by {
            assert(cmds.drop_first()[k] == cmds[k + 1]);
        }
        lemma_dedup_append_noop(existing, cmds.drop_first());
    }
}

/// Ingesting the same source twice appends nothing the second time: the
/// destination after two runs equals the destination after one.
pub proof fn lemma_append_new_idempotent(existing: Seq<Seq<char>>, cmds: Seq<Seq<char>>)
    ensures
        dedup_append(dedup_append(existing, cmds), cmds) == dedup_append(existing, cmds),
{
    let once = dedup_append(existing, cmds);
    lemma_dedup_append_grows(existing, cmds);
    lemma_dedup_append_noop(once, cmds);
}

/// The destination never holds two equal entries, provided it held none
/// before the run.
pub proof fn lemma_dedup_append_distinct(existing: Seq<Seq<char>>, cmds: Seq<Seq<char>>)
    requires
        distinct_entries(existing),
    ensures
        distinct_entries(dedup_append(existing, cmds)),
    decreases cmds.len(),
{
    if cmds.len() == 0 {
    } else {
        let grown = if existing.contains(cmds[0]) {
            existing
        } else {
            existing.push(cmds[0])
        };
        assert(distinct_entries(grown)) by {
            if !existing.contains(cmds[0]) {
                assert forall|i: int, j: int| 0 <= i < j < grown.len() implies grown[i]
                    != grown[j] by {
                    if j == existing.len() {
                        assert(grown[i] == existing[i]);
                    }
                }
            }
        }
        lemma_dedup_append_distinct(grown, cmds.drop_first());
    }
}

} // verus!
