//! The aggregator: extracting each command's leading token and counting
//! exact per-token frequency over a run's canonical entries.

use vstd::prelude::*;
use crate::text::{
    trim_spec, trim_chars, lower_of, lowercase, first_word_spec, first_word_chars, chars_of,
    string_from_chars, alnum,
};

verus! {

/// The aggregation key a command yields: the command is trimmed and
/// lower-cased defensively, and its first whitespace-delimited word
/// taken; the word counts only when it is non-empty and opens with an
/// alphanumeric character.
pub open spec fn token_of(cmd: Seq<char>) -> Option<Seq<char>> {
    let w = first_word_spec(lower_of(trim_spec(cmd)));
    if w.len() == 0 {
        None
    } else if alnum(w[0]) {
        Some(w)
    } else {
        None
    }
}

/// Extracts the token a command yields, or nothing when the command
/// yields none.
pub fn extract_token(cmd: &str) -> (r: Option<String>)
    ensures
        (r is Some) == (token_of(cmd@) is Some),
        r matches Some(t) ==> token_of(cmd@) == Some(t@),
{
    let v = chars_of(cmd);
    let t = trim_chars(&v);
    let ts = string_from_chars(&t);
    let low = lowercase(ts.as_str());
    let lv = chars_of(low.as_str());
    let w = first_word_chars(&lv);
    if w.len() == 0 {
        None
    } else if w[0].is_alphanumeric() {
        Some(string_from_chars(&w))
    } else {
        None
    }
}

/// How many of the commands yield exactly the token `t`.
pub open spec fn count_token(cmds: Seq<Seq<char>>, t: Seq<char>) -> int
    decreases cmds.len(),
{
    if cmds.len() == 0 {
        0
    } else {
        count_token(cmds.drop_first(), t) + (if token_of(cmds[0]) == Some(t) {
            1int
        } else {
            0int
        })
    }
}

pub proof fn lemma_count_token_snoc(cmds: Seq<Seq<char>>, c: Seq<char>, t: Seq<char>)
    ensures
        count_token(cmds.push(c), t) == count_token(cmds, t) + (if token_of(c) == Some(t) {
            1int
        } else {
            0int
        }),
    decreases cmds.len(),
{
    if cmds.len() == 0 {
        assert(cmds.push(c)[0] == c);
        assert(cmds.push(c).drop_first() =~= Seq::<Seq<char>>::empty());
        assert(count_token(cmds.push(c).drop_first(), t) == 0);
        assert(count_token(cmds.push(c), t) == count_token(cmds.push(c).drop_first(), t) + (
        if token_of(cmds.push(c)[0]) == Some(t) {
            1int
        } else {
            0int
        }));
    } else {
        assert(cmds.push(c)[0] == cmds[0]);
        assert(cmds.push(c).drop_first() =~= cmds.drop_first().push(c));
        lemma_count_token_snoc(cmds.drop_first(), c, t);
        assert(count_token(cmds.push(c), t) == count_token(cmds.push(c).drop_first(), t) + (
        if token_of(cmds.push(c)[0]) == Some(t) {
            1int
        } else {
            0int
        }));
        assert(count_token(cmds, t) == count_token(cmds.drop_first(), t) + (if token_of(cmds[0])
            == Some(t) {
            1int
        } else {
            0int
        }));
    }
}

pub proof fn lemma_count_token_zero(cmds: Seq<Seq<char>>, t: Seq<char>)
    requires
        forall|i: int| 0 <= i < cmds.len() ==> #[trigger] token_of(cmds[i]) != Some(t),
    ensures
        count_token(cmds, t) == 0,
    decreases cmds.len(),
{
    if cmds.len() > 0 {
        assert(forall|i: int|
            0 <= i < cmds.drop_first().len() ==> #[trigger] token_of(cmds.drop_first()[i])
                == token_of(cmds[i + 1]));
        lemma_count_token_zero(cmds.drop_first(), t);
    }
}

/// Whether the table holds an entry keyed by token `t`.
pub open spec fn has_key(table: Seq<(String, usize)>, t: Seq<char>) -> bool {
    exists|j: int| 0 <= j < table.len() && (#[trigger] table[j]).0@ == t
}

fn find_key(table: &Vec<(String, usize)>, t: &String) -> (o: Option<usize>)
    ensures
        o matches Some(j) ==> 0 <= j < table@.len() && table@[j as int].0@ == t@,
        o is None ==> forall|k: int| 0 <= k < table@.len() ==> (#[trigger] table@[k]).0@ != t@,
{
    let mut j: usize = 0;
    while j < table.len()
        invariant
            0 <= j <= table.len(),
            forall|k: int| 0 <= k < j ==> (#[trigger] table@[k]).0@ != t@,
        decreases table.len() - j,
    {
        if table[j].0 == *t {
            return Some(j);
        }
        j = j + 1;
    }
    None
}

/// Builds the frequency table of a run's commands: one entry per distinct
/// token, carrying the exact number of commands that yield it. Commands
/// that yield no token contribute nothing; over zero commands the table
/// is empty.
pub fn count_frequencies(cmds: &Vec<String>) -> (r: Vec<(String, usize)>)
    ensures
        forall|a: int, b: int|
            0 <= a < b < r@.len() ==> (#[trigger] r@[a]).0@ != (#[trigger] r@[b]).0@,
        forall|j: int|
            0 <= j < r@.len() ==> 1 <= (#[trigger] r@[j]).1 && (r@[j].1 as int) == count_token(
                cmds@.map_values(|s: String| s@),
                r@[j].0@,
            ),
        forall|i: int|
            0 <= i < cmds@.len() ==> match #[trigger] token_of(cmds@[i]@) {
                Some(t) => has_key(r@, t),
                None => true,
            },
        cmds@.len() == 0 ==> r@.len() == 0,
{
    let ghost sv = |s: String| s@;
    let ghost cviews = cmds@.map_values(|s: String| s@);
    let mut rt: Vec<(String, usize)> = Vec::new();
    let mut i: usize = 0;
    while i < cmds.len()
        invariant
            0 <= i <= cmds.len(),
            sv == (|s: String| s@),
            cviews == cmds@.map_values(sv),
            forall|a: int, b: int|
                0 <= a < b < rt@.len() ==> (#[trigger] rt@[a]).0@ != (#[trigger] rt@[b]).0@,
            forall|j: int|
                0 <= j < rt@.len() ==> 1 <= (#[trigger] rt@[j]).1 && rt@[j].1 <= i && (
                rt@[j].1 as int) == count_token(cviews.take(i as int), rt@[j].0@),
            forall|ii: int|
                0 <= ii < i ==> match #[trigger] token_of(cviews[ii]) {
                    Some(t) => has_key(rt@, t),
                    None => true,
                },
            cmds@.len() == 0 ==> rt@.len() == 0,
        decreases cmds.len() - i,
    {
        proof {
            assert(cviews[i as int] == cmds@[i as int]@);
            assert(cviews.take(i as int).push(cviews[i as int]) =~= cviews.take(i as int + 1));
        }
        let c = &cmds[i];
        match extract_token(c.as_str()) {
            Some(tok) => {
                proof {
                    assert(token_of(cviews[i as int]) == Some(tok@));
                }
                match find_key(&rt, &tok) {
                    Some(j) => {
                        let ghost rt0 = rt@;
                        let entry = rt.remove(j);
                        let n = entry.1;
                        proof {
                            assert(1 <= n && n <= i);
                            assert(i < cmds.len());
                        }
                        rt.insert(j, (entry.0, n + 1));
                        proof {
                            assert(rt@ =~= rt0.update(j as int, (entry.0, (n + 1) as usize)));
                            assert(forall|k: int|
                                0 <= k < rt@.len() ==> (#[trigger] rt@[k]).0 == rt0[k].0);
                            assert(rt@[j as int].0@ == tok@);
                            assert forall|k: int| 0 <= k < rt@.len() implies 1 <= (
                            #[trigger] rt@[k]).1 && rt@[k].1 <= i + 1 && (rt@[k].1 as int)
                                == count_token(cviews.take(i as int + 1), rt@[k].0@) by {
                                lemma_count_token_snoc(
                                    cviews.take(i as int),
                                    cviews[i as int],
                                    rt@[k].0@,
                                );
                                if k != j as int {
                                    if (j as int) < k {
                                        assert(rt0[j as int].0@ != rt0[k].0@);
                                    } else {
                                        assert(rt0[k].0@ != rt0[j as int].0@);
                                    }
                                }
                            }
                            assert forall|ii: int| 0 <= ii < i + 1 implies match #[trigger] token_of(
                                cviews[ii],
                            ) {
                                Some(t) => has_key(rt@, t),
                                None => true,
                            } by {
                                if ii == i {
                                    assert(rt@[j as int].0@ == tok@);
                                } else {
                                    match token_of(cviews[ii]) {
                                        Some(t) => {
                                            assert(has_key(rt0, t));
                                            let w = choose|w: int|
                                                0 <= w < rt0.len() && (#[trigger] rt0[w]).0@ == t;
                                            assert(rt@[w].0@ == t);
                                        },
                                        None => {},
                                    }
                                }
                            }
                        }
                    },
                    None => {
                        proof {
                            assert forall|ii: int|
                                0 <= ii < i implies #[trigger] token_of(cviews.take(i as int)[ii])
                                != Some(tok@) by {
                                assert(cviews.take(i as int)[ii] == cviews[ii]);
                                if token_of(cviews[ii]) == Some(tok@) {
                                    assert(has_key(rt@, tok@));
                                }
                            }
                            lemma_count_token_zero(cviews.take(i as int), tok@);
                        }
                        let ghost rt0 = rt@;
                        rt.push((tok, 1));
                        proof {
                            assert(forall|k: int| 0 <= k < rt0.len() ==> #[trigger] rt@[k] == rt0[k]);
                            assert(rt@[rt@.len() - 1].0@ == tok@);
                            assert forall|k: int| 0 <= k < rt@.len() implies 1 <= (
                            #[trigger] rt@[k]).1 && rt@[k].1 <= i + 1 && (rt@[k].1 as int)
                                == count_token(cviews.take(i as int + 1), rt@[k].0@) by {
                                lemma_count_token_snoc(
                                    cviews.take(i as int),
                                    cviews[i as int],
                                    rt@[k].0@,
                                );
                            }
                            assert forall|ii: int| 0 <= ii < i + 1 implies match #[trigger] token_of(
                                cviews[ii],
                            ) {
                                Some(t) => has_key(rt@, t),
                                None => true,
                            } by {
                                if ii < i {
                                    match token_of(cviews[ii]) {
                                        Some(t) => {
                                            assert(has_key(rt0, t));
                                            let w = choose|w: int|
                                                0 <= w < rt0.len() && (#[trigger] rt0[w]).0@ == t;
                                            assert(rt@[w].0@ == t);
                                        },
                                        None => {},
                                    }
                                } else {
                                    assert(rt@[rt@.len() - 1].0@ == tok@);
                                }
                            }
                        }
                    },
                }
            },
            None => {
                proof {
                    assert forall|k: int| 0 <= k < rt@.len() implies 1 <= (#[trigger] rt@[k]).1
                        && rt@[k].1 <= i + 1 && (rt@[k].1 as int) == count_token(
                        cviews.take(i as int + 1),
                        rt@[k].0@,
                    ) by {
                        lemma_count_token_snoc(cviews.take(i as int), cviews[i as int], rt@[k].0@);
                    }
                }
            },
        }
        i = i + 1;
    }
    proof {
        assert(cviews.take(cmds.len() as int) =~= cviews);
        assert forall|ii: int| 0 <= ii < cmds@.len() implies match #[trigger] token_of(
            cmds@[ii]@,
        ) {
            Some(t) => has_key(rt@, t),
            None => true,
        } by {
            assert(cviews[ii] == cmds@[ii]@);
            assert(match token_of(cviews[ii]) {
                Some(t) => has_key(rt@, t),
                None => true,
            });
        }
    }
    rt
}

} // verus!
