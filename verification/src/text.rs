//! Character-level foundations: whitespace classification, trimming,
//! leading-word extraction and line splitting, specified over `Seq<char>`
//! and implemented over `Vec<char>`.

use vstd::prelude::*;
use vstd::string::StrSliceExecFns;

verus! {

/// The characters the normalizer treats as whitespace: the Unicode
/// `White_Space` set, the same set `str::trim` strips.
pub open spec fn is_ws_char(c: char) -> bool {
    let u = c as u32;
    u == 0x09 || u == 0x0a || u == 0x0b || u == 0x0c || u == 0x0d || u == 0x20 || u == 0x85
        || u == 0xa0 || u == 0x1680 || (0x2000 <= u && u <= 0x200a) || u == 0x2028 || u == 0x2029
        || u == 0x202f || u == 0x205f || u == 0x3000
}

pub fn is_ws(c: char) -> (r: bool)
    ensures
        r == is_ws_char(c),
{
    let u = c as u32;
    u == 0x09 || u == 0x0a || u == 0x0b || u == 0x0c || u == 0x0d || u == 0x20 || u == 0x85
        || u == 0xa0 || u == 0x1680 || (0x2000 <= u && u <= 0x200a) || u == 0x2028 || u == 0x2029
        || u == 0x202f || u == 0x205f || u == 0x3000
}

/// `s` with its leading whitespace removed.
pub open spec fn trim_start_spec(s: Seq<char>) -> Seq<char>
    decreases s.len(),
{
    if s.len() == 0 {
        s
    } else if is_ws_char(s[0]) {
        trim_start_spec(s.drop_first())
    } else {
        s
    }
}

/// `s` with its trailing whitespace removed.
pub open spec fn trim_end_spec(s: Seq<char>) -> Seq<char>
    decreases s.len(),
{
    if s.len() == 0 {
        s
    } else if is_ws_char(s[s.len() - 1]) {
        trim_end_spec(s.drop_last())
    } else {
        s
    }
}

/// `s` with leading and trailing whitespace removed.
pub open spec fn trim_spec(s: Seq<char>) -> Seq<char> {
    trim_end_spec(trim_start_spec(s))
}

proof fn lemma_trim_start_head(s: Seq<char>)
    ensures
        trim_start_spec(s).len() > 0 ==> !is_ws_char(trim_start_spec(s)[0]),
    decreases s.len(),
{
    if s.len() > 0 && is_ws_char(s[0]) {
        lemma_trim_start_head(s.drop_first());
    }
}

proof fn lemma_trim_end_shape(s: Seq<char>)
    ensures
        trim_end_spec(s).len() > 0 ==> trim_end_spec(s)[0] == s[0] && !is_ws_char(
            trim_end_spec(s)[trim_end_spec(s).len() - 1],
        ),
    decreases s.len(),
{
    if s.len() > 0 && is_ws_char(s[s.len() - 1]) {
        lemma_trim_end_shape(s.drop_last());
    }
}

/// A trimmed sequence is a fixed point of trimming: its first and last
/// characters are not whitespace, so trimming it again changes nothing.
pub proof fn lemma_trim_spec_idempotent(s: Seq<char>)
    ensures
        trim_spec(trim_spec(s)) == trim_spec(s),
{
    let t = trim_spec(s);
    lemma_trim_start_head(s);
    lemma_trim_end_shape(trim_start_spec(s));
    if t.len() > 0 {
        assert(!is_ws_char(t[0]));
        assert(!is_ws_char(t[t.len() - 1]));
        assert(trim_start_spec(t) == t);
        assert(trim_end_spec(t) == t);
    }
}

/// The longest whitespace-free prefix of `s`.
pub open spec fn leading_word(s: Seq<char>) -> Seq<char>
    decreases s.len(),
{
    if s.len() == 0 || is_ws_char(s[0]) {
        Seq::empty()
    } else {
        seq![s[0]] + leading_word(s.drop_first())
    }
}

/// The first whitespace-delimited word of `s`; empty when `s` holds no
/// non-whitespace character.
pub open spec fn first_word_spec(s: Seq<char>) -> Seq<char> {
    leading_word(trim_start_spec(s))
}

/// Advances past leading whitespace, returning the first index whose
/// character is not whitespace (or the length), and relating the rest
/// of the sequence to `trim_start_spec`.
fn skip_ws(v: &Vec<char>) -> (i: usize)
    ensures
        0 <= i <= v.len(),
        trim_start_spec(v@) == v@.skip(i as int),
        i < v.len() ==> !is_ws_char(v@[i as int]),
{
    let mut i: usize = 0;
    proof {
        assert(v@.skip(0) =~= v@);
    }
    while i < v.len() && is_ws(v[i])
        invariant
            0 <= i <= v.len(),
            trim_start_spec(v@) == trim_start_spec(v@.skip(i as int)),
        decreases v.len() - i,
    {
        proof {
            assert(v@.skip(i as int).drop_first() =~= v@.skip(i as int + 1));
        }
        i = i + 1;
    }
    proof {
        if i == v.len() {
            assert(v@.skip(i as int) =~= Seq::<char>::empty());
        }
    }
    i
}

pub fn trim_chars(v: &Vec<char>) -> (r: Vec<char>)
    ensures
        r@ == trim_spec(v@),
{
    let i = skip_ws(v);
    let ghost mid = v@.skip(i as int);
    let mut j: usize = v.len();
    proof {
        assert(v@.subrange(i as int, v.len() as int) =~= mid);
    }
    while j > i && is_ws(v[j - 1])
        invariant
            i <= j <= v.len(),
            trim_end_spec(mid) == trim_end_spec(v@.subrange(i as int, j as int)),
        decreases j,
    {
        proof {
            let cur = v@.subrange(i as int, j as int);
            assert(cur[cur.len() - 1] == v@[j - 1]);
            assert(cur.drop_last() =~= v@.subrange(i as int, j as int - 1));
        }
        j = j - 1;
    }
    proof {
        let cur = v@.subrange(i as int, j as int);
        if j == i {
            assert(cur =~= Seq::<char>::empty());
        } else {
            assert(cur[cur.len() - 1] == v@[j - 1]);
        }
        assert(trim_end_spec(cur) == cur);
    }
    let mut r: Vec<char> = Vec::new();
    let mut k: usize = i;
    while k < j
        invariant
            i <= k <= j <= v.len(),
            r@ == v@.subrange(i as int, k as int),
        decreases j - k,
    {
        r.push(v[k]);
        proof {
            assert(v@.subrange(i as int, k as int).push(v@[k as int]) =~= v@.subrange(
                i as int,
                k as int + 1,
            ));
        }
        k = k + 1;
    }
    r
}

pub fn first_word_chars(v: &Vec<char>) -> (r: Vec<char>)
    ensures
        r@ == first_word_spec(v@),
{
    let i = skip_ws(v);
    let mut r: Vec<char> = Vec::new();
    let mut k: usize = i;
    proof {
        assert(leading_word(v@.skip(i as int)) == r@ + leading_word(v@.skip(i as int)));
    }
    while k < v.len() && !is_ws(v[k])
        invariant
            i <= k <= v.len(),
            leading_word(v@.skip(i as int)) == r@ + leading_word(v@.skip(k as int)),
        decreases v.len() - k,
    {
        proof {
            let cur = v@.skip(k as int);
            assert(cur[0] == v@[k as int]);
            assert(cur.drop_first() =~= v@.skip(k as int + 1));
            assert(leading_word(cur) == seq![v@[k as int]] + leading_word(v@.skip(k as int + 1)));
            assert(r@ + (seq![v@[k as int]] + leading_word(v@.skip(k as int + 1))) =~= r@.push(
                v@[k as int],
            ) + leading_word(v@.skip(k as int + 1)));
        }
        r.push(v[k]);
        k = k + 1;
    }
    proof {
        if k == v.len() {
            assert(v@.skip(k as int) =~= Seq::<char>::empty());
        }
        assert(leading_word(v@.skip(k as int)) =~= Seq::<char>::empty());
        assert(r@ + Seq::<char>::empty() =~= r@);
    }
    r
}

/// A raw line with a trailing carriage return removed, as `str::lines`
/// treats a `\r\n` ending.
pub open spec fn strip_cr(l: Seq<char>) -> Seq<char> {
    if l.len() > 0 && l[l.len() - 1] == '\r' {
        l.drop_last()
    } else {
        l
    }
}

/// The lines of `s`, split at `'\n'`, without a trailing empty line when
/// `s` ends in `'\n'`; carriage returns are kept here and removed by
/// `split_lines`.
pub open spec fn raw_lines(s: Seq<char>) -> Seq<Seq<char>>
    decreases s.len(),
{
    if s.len() == 0 {
        Seq::empty()
    } else if s[0] == '\n' {
        seq![Seq::<char>::empty()] + raw_lines(s.drop_first())
    } else {
        let rest = raw_lines(s.drop_first());
        if rest.len() == 0 {
            seq![seq![s[0]]]
        } else {
            seq![seq![s[0]] + rest[0]] + rest.drop_first()
        }
    }
}

/// The lines of `s` as `str::lines` yields them: split at `'\n'`, each
/// line with a trailing `'\r'` removed, no trailing empty line.
pub open spec fn split_lines(s: Seq<char>) -> Seq<Seq<char>> {
    raw_lines(s).map_values(|l: Seq<char>| strip_cr(l))
}

/// Peels the first line off `raw_lines`: if position `n` holds the first
/// newline of `s`, the lines of `s` are `s.take(n)` followed by the lines
/// of what comes after the newline.
pub proof fn lemma_raw_lines_step(s: Seq<char>, n: int)
    requires
        s.len() > 0,
        0 <= n <= s.len(),
        forall|k: int| 0 <= k < n ==> s[k] != '\n',
        n < s.len() ==> s[n] == '\n',
    ensures
        n < s.len() ==> raw_lines(s) == seq![s.take(n)] + raw_lines(s.skip(n + 1)),
        n == s.len() ==> raw_lines(s) == seq![s],
    decreases n,
{
    if n == 0 {
        assert(s[0] == '\n');
        assert(s.take(0) =~= Seq::<char>::empty());
        assert(s.drop_first() =~= s.skip(1));
    } else {
        let d = s.drop_first();
        assert(s[0] != '\n');
        assert(forall|k: int| 0 <= k < n - 1 ==> d[k] == s[k + 1] && d[k] != '\n');
        if d.len() == 0 {
            assert(n == 1 && n == s.len());
            assert(raw_lines(d) == Seq::<Seq<char>>::empty());
            assert(raw_lines(s) == seq![seq![s[0]]]);
            assert(seq![s[0]] =~= s);
            assert(raw_lines(s) =~= seq![s]);
        } else {
            lemma_raw_lines_step(d, n - 1);
            let rest = raw_lines(d);
            if n < s.len() {
                assert(rest == seq![d.take(n - 1)] + raw_lines(d.skip(n)));
                assert(rest.len() > 0);
                assert(rest[0] == d.take(n - 1));
                assert(seq![s[0]] + d.take(n - 1) =~= s.take(n));
                assert(rest.drop_first() =~= raw_lines(d.skip(n)));
                assert(d.skip(n) =~= s.skip(n + 1));
                assert(raw_lines(s) == seq![seq![s[0]] + rest[0]] + rest.drop_first());
                assert(raw_lines(s) =~= seq![s.take(n)] + raw_lines(s.skip(n + 1)));
            } else {
                assert(n - 1 == d.len());
                assert(rest == seq![d]);
                assert(rest.len() == 1);
                assert(rest.drop_first() =~= Seq::<Seq<char>>::empty());
                assert(seq![s[0]] + d =~= s);
                assert(raw_lines(s) == seq![seq![s[0]] + rest[0]] + rest.drop_first());
                assert(raw_lines(s) =~= seq![s]);
            }
        }
    }
}

pub fn split_to_lines(v: &Vec<char>) -> (r: Vec<Vec<char>>)
    ensures
        r@.map_values(|l: Vec<char>| l@) == split_lines(v@),
{
    let mut r: Vec<Vec<char>> = Vec::new();
    let mut i: usize = 0;
    let mut finished: bool = false;
    proof {
        assert(v@.skip(0) =~= v@);
        assert(r@.map_values(|l: Vec<char>| l@) + split_lines(v@.skip(0)) =~= split_lines(v@));
    }
    while !finished && i < v.len()
        invariant
            0 <= i <= v.len(),
            finished ==> r@.map_values(|l: Vec<char>| l@) == split_lines(v@),
            !finished ==> r@.map_values(|l: Vec<char>| l@) + split_lines(v@.skip(i as int))
                == split_lines(v@),
        decreases v.len() - i + (if finished { 0int } else { 1int }),
    {
        let mut j: usize = i;
        while j < v.len() && v[j] != '\n'
            invariant
                i <= j <= v.len(),
                forall|k: int| i <= k < j ==> v@[k] != '\n',
            decreases v.len() - j,
        {
            j = j + 1;
        }
        let end: usize = if j > i && v[j - 1] == '\r' {
            j - 1
        } else {
            j
        };
        let mut line: Vec<char> = Vec::new();
        let mut k: usize = i;
        while k < end
            invariant
                i <= k <= end <= v.len(),
                line@ == v@.subrange(i as int, k as int),
            decreases end - k,
        {
            line.push(v[k]);
            proof {
                assert(v@.subrange(i as int, k as int).push(v@[k as int]) =~= v@.subrange(
                    i as int,
                    k as int + 1,
                ));
            }
            k = k + 1;
        }
        proof {
            let suf = v@.skip(i as int);
            let m = j - i;
            assert(forall|t: int| 0 <= t < m ==> suf[t] == v@[i + t] && suf[t] != '\n');
            assert(m < suf.len() ==> suf[m] == v@[j as int]);
            lemma_raw_lines_step(suf, m);
            assert(suf.take(m) =~= v@.subrange(i as int, j as int));
            assert(line@ =~= strip_cr(suf.take(m)));
            let f = |l: Seq<char>| strip_cr(l);
            let g = |l: Vec<char>| l@;
            if (j as int) < suf.len() + i {
                assert(raw_lines(suf) == seq![suf.take(m)] + raw_lines(suf.skip(m + 1)));
                assert(suf.skip(m + 1) =~= v@.skip(j + 1));
                assert(split_lines(suf) =~= seq![strip_cr(suf.take(m))] + split_lines(
                    v@.skip(j + 1),
                ));
            } else {
                assert(j == v.len());
                assert(raw_lines(suf) == seq![suf]);
                assert(split_lines(suf) =~= seq![strip_cr(suf)]);
                assert(strip_cr(suf) == strip_cr(suf.take(m)));
            }
            assert(r@.push(line).map_values(g) =~= r@.map_values(g) + seq![line@]);
            if (j as int) < v@.len() {
                assert(r@.map_values(g) + seq![line@] + split_lines(v@.skip(j + 1)) =~=
                split_lines(v@));
            } else {
                assert(r@.map_values(g) + seq![line@] =~= split_lines(v@));
            }
        }
        r.push(line);
        if j == v.len() {
            finished = true;
        } else {
            i = j + 1;
        }
    }
    proof {
        if !finished {
            assert(v@.skip(i as int) =~= Seq::<char>::empty());
            assert(r@.map_values(|l: Vec<char>| l@) + Seq::<Seq<char>>::empty() =~= r@.map_values(
                |l: Vec<char>| l@,
            ));
        }
    }
    r
}

pub fn chars_of(s: &str) -> (r: Vec<char>)
    ensures
        r@ == s@,
{
    let n = s.unicode_len();
    let mut r: Vec<char> = Vec::new();
    let mut k: usize = 0;
    while k < n
        invariant
            0 <= k <= n,
            n == s@.len(),
            r@ == s@.take(k as int),
        decreases n - k,
    {
        let c = s.get_char(k);
        r.push(c);
        proof {
            assert(s@.take(k as int).push(s@[k as int]) =~= s@.take(k as int + 1));
        }
        k = k + 1;
    }
    proof {
        assert(s@.take(n as int) =~= s@);
    }
    r
}

/// Relies on `String`'s `FromIterator<&char>` impl: collecting the
/// characters of a vector yields a string holding exactly those
/// characters, in order.
#[verifier::external_body]
pub(crate) fn string_from_chars(v: &Vec<char>) -> (r: String)
    ensures
        r@ == v@,
{
    v.iter().collect()
}

pub uninterp spec fn lower_of(s: Seq<char>) -> Seq<char>;

/// Relies on `str::to_lowercase`: the result is a function of the input
/// characters alone (the Unicode lowercase mapping, locale-independent).
/// An empty input yields an empty result and a non-empty input a
/// non-empty one (every character maps to at least one character), and
/// no character lower-cases to whitespace nor whitespace to anything
/// else, so a trimmed input yields a trimmed result.
#[verifier::external_body]
pub(crate) fn lowercase(s: &str) -> (r: String)
    ensures
        r@ == lower_of(s@),
        s@.len() == 0 ==> r@.len() == 0,
        s@.len() > 0 ==> r@.len() > 0,
        trim_spec(s@) == s@ ==> trim_spec(r@) == r@,
{
    s.to_lowercase()
}

pub uninterp spec fn alnum(c: char) -> bool;

/// Relies on `char::is_alphanumeric`: whether a character counts as
/// alphanumeric depends on the character alone.
pub assume_specification[ char::is_alphanumeric ](c: char) -> (r: bool)
    ensures
        r == alnum(c),
;

} // verus!
