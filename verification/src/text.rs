//! Character-level text model: whitespace, trimming, line splitting and
//! joining, stated over `Seq<char>` and implemented over `Vec<char>`.
use vstd::prelude::*;

verus! {

broadcast use vstd::string::group_string_axioms;

// ---------------------------------------------------------------------------
// Whitespace
// ---------------------------------------------------------------------------

/// The Unicode `White_Space` property, which `char::is_whitespace` tests and
/// which `str::trim` and friends strip.
pub open spec fn is_ws(c: char) -> bool {
    let u = c as u32;
    ||| (0x09 <= u && u <= 0x0d)
    ||| u == 0x20
    ||| u == 0x85
    ||| u == 0xa0
    ||| u == 0x1680
    ||| (0x2000 <= u && u <= 0x200a)
    ||| u == 0x2028
    ||| u == 0x2029
    ||| u == 0x202f
    ||| u == 0x205f
    ||| u == 0x3000
}

/// Whether `c` is Unicode whitespace.
pub fn is_whitespace(c: char) -> (b: bool)
    ensures
        b == is_ws(c),
{
    let u = c as u32;
    (0x09 <= u && u <= 0x0d) || u == 0x20 || u == 0x85 || u == 0xa0 || u == 0x1680 || (0x2000
        <= u && u <= 0x200a) || u == 0x2028 || u == 0x2029 || u == 0x202f || u == 0x205f || u
        == 0x3000
}

/// A text is blank when trimming it leaves nothing.
pub open spec fn is_blank(s: Seq<char>) -> bool {
    forall|i: int| 0 <= i < s.len() ==> is_ws(#[trigger] s[i])
}

/// Whether every character of `s` is whitespace.
pub fn blank(s: &[char]) -> (b: bool)
    ensures
        b == is_blank(s@),
{
    let mut i: usize = 0;
    while i < s.len()
        invariant
            i <= s@.len(),
            forall|j: int| 0 <= j < i ==> is_ws(#[trigger] s@[j]),
        decreases s.len() - i,
    {
        if !is_whitespace(s[i]) {
            return false;
        }
        i = i + 1;
    }
    true
}

// ---------------------------------------------------------------------------
// Leading spaces and trimming
// ---------------------------------------------------------------------------

/// Number of `' '` characters at the start of `s`.
pub open spec fn lead_spaces(s: Seq<char>) -> nat
    decreases s.len(),
{
    if s.len() > 0 && s[0] == ' ' {
        1 + lead_spaces(s.drop_first())
    } else {
        0
    }
}

/// `lead_spaces` counts exactly the maximal run of spaces at the start.
pub proof fn lemma_lead_spaces(s: Seq<char>)
    ensures
        lead_spaces(s) <= s.len(),
        forall|i: int| 0 <= i < lead_spaces(s) ==> s[i] == ' ',
        lead_spaces(s) < s.len() ==> s[lead_spaces(s) as int] != ' ',
    decreases s.len(),
{
    if s.len() > 0 && s[0] == ' ' {
        lemma_lead_spaces(s.drop_first());
        assert forall|i: int| 0 <= i < lead_spaces(s) implies s[i] == ' ' by {
            if i > 0 {
                assert(s.drop_first()[i - 1] == s[i]);
            }
        }
    }
}

/// Any run of `n` spaces that cannot be extended is the leading run.
pub proof fn lemma_lead_spaces_unique(s: Seq<char>, n: nat)
    requires
        n <= s.len(),
        forall|i: int| 0 <= i < n ==> s[i] == ' ',
        n < s.len() ==> s[n as int] != ' ',
    ensures
        lead_spaces(s) == n,
    decreases s.len(),
{
    if n > 0 {
        assert(s[0] == ' ');
        let t = s.drop_first();
        assert forall|i: int| 0 <= i < n - 1 implies t[i] == ' ' by {
            assert(s[i + 1] == ' ');
        }
        if n - 1 < t.len() {
            assert(t[n - 1] == s[n as int]);
        }
        lemma_lead_spaces_unique(t, (n - 1) as nat);
    }
}

/// At least `n` leading spaces.
pub open spec fn has_indent(s: Seq<char>, n: nat) -> bool {
    n <= s.len() && forall|i: int| 0 <= i < n ==> s[i] == ' '
}

/// `s` with trailing whitespace removed (`str::trim_end`).
pub open spec fn trim_end(s: Seq<char>) -> Seq<char>
    decreases s.len(),
{
    if s.len() > 0 && is_ws(s.last()) {
        trim_end(s.drop_last())
    } else {
        s
    }
}

/// `s` with leading whitespace removed (`str::trim_start`).
pub open spec fn trim_start(s: Seq<char>) -> Seq<char>
    decreases s.len(),
{
    if s.len() > 0 && is_ws(s[0]) {
        trim_start(s.drop_first())
    } else {
        s
    }
}

/// `s` with whitespace removed at both ends (`str::trim`).
pub open spec fn trim(s: Seq<char>) -> Seq<char> {
    trim_start(trim_end(s))
}

/// `trim_end` keeps a prefix, up to a non-whitespace character.
pub proof fn lemma_trim_end(s: Seq<char>)
    ensures
        trim_end(s).len() <= s.len(),
        trim_end(s) == s.take(trim_end(s).len() as int),
        forall|i: int| trim_end(s).len() <= i < s.len() ==> is_ws(#[trigger] s[i]),
        trim_end(s).len() > 0 ==> !is_ws(trim_end(s).last()),
    decreases s.len(),
{
    if s.len() > 0 && is_ws(s.last()) {
        lemma_trim_end(s.drop_last());
        assert(trim_end(s) == trim_end(s.drop_last()));
        assert(s.drop_last().take(trim_end(s).len() as int) == s.take(trim_end(s).len() as int));
        assert forall|i: int| trim_end(s).len() <= i < s.len() implies is_ws(#[trigger] s[i]) by {
            if i < s.len() - 1 {
                assert(s.drop_last()[i] == s[i]);
            }
        }
    } else {
        assert(s.take(s.len() as int) == s);
    }
}

/// A prefix that keeps only whitespace beyond it, ending in a
/// non-whitespace character, is what `trim_end` keeps.
pub proof fn lemma_trim_end_unique(s: Seq<char>, k: int)
    requires
        0 <= k <= s.len(),
        forall|i: int| k <= i < s.len() ==> is_ws(#[trigger] s[i]),
        k > 0 ==> !is_ws(s[k - 1]),
    ensures
        trim_end(s) == s.take(k),
    decreases s.len(),
{
    if s.len() > k {
        assert(is_ws(s.last()));
        let t = s.drop_last();
        assert forall|i: int| k <= i < t.len() implies is_ws(#[trigger] t[i]) by {
            assert(t[i] == s[i]);
        }
        if k > 0 {
            assert(t[k - 1] == s[k - 1]);
        }
        lemma_trim_end_unique(t, k);
        assert(t.take(k) == s.take(k));
    } else {
        assert(s.take(k) == s);
        if s.len() > 0 {
            assert(s.last() == s[k - 1]);
        }
    }
}

/// `trim_start` keeps a suffix, starting at a non-whitespace character.
pub proof fn lemma_trim_start(s: Seq<char>)
    ensures
        trim_start(s).len() <= s.len(),
        trim_start(s) == s.skip(s.len() - trim_start(s).len()),
        trim_start(s).len() > 0 ==> !is_ws(trim_start(s)[0]),
    decreases s.len(),
{
    if s.len() > 0 && is_ws(s[0]) {
        lemma_trim_start(s.drop_first());
        assert(s.drop_first().skip(s.drop_first().len() - trim_start(s).len()) == s.skip(
            s.len() - trim_start(s).len(),
        ));
    } else {
        assert(s.skip(0) == s);
    }
}

/// A suffix that starts at a non-whitespace character (or the end), with
/// only whitespace before it, is what `trim_start` keeps.
pub proof fn lemma_trim_start_unique(s: Seq<char>, k: int)
    requires
        0 <= k <= s.len(),
        forall|i: int| 0 <= i < k ==> is_ws(#[trigger] s[i]),
        k < s.len() ==> !is_ws(s[k]),
    ensures
        trim_start(s) == s.skip(k),
    decreases s.len(),
{
    if k > 0 {
        assert(is_ws(s[0]));
        let t = s.drop_first();
        assert forall|i: int| 0 <= i < k - 1 implies is_ws(#[trigger] t[i]) by {
            assert(t[i] == s[i + 1]);
        }
        if k - 1 < t.len() {
            assert(t[k - 1] == s[k]);
        }
        lemma_trim_start_unique(t, k - 1);
        assert(t.skip(k - 1) =~= s.skip(k));
    } else {
        assert(s.skip(0) =~= s);
    }
}

/// `s` with whitespace removed at both ends.
pub fn trim_string(s: &str) -> (r: String)
    ensures
        r@ == trim(s@),
{
    let v = chars_of(s);
    let mut k = v.len();
    while k > 0 && is_whitespace(v[k - 1])
        invariant
            k <= v@.len(),
            forall|i: int| k <= i < v@.len() ==> is_ws(#[trigger] v@[i]),
        decreases k,
    {
        k = k - 1;
    }
    proof {
        lemma_trim_end_unique(v@, k as int);
    }
    let ghost t = v@.take(k as int);
    let mut a: usize = 0;
    while a < k && is_whitespace(v[a])
        invariant
            a <= k <= v@.len(),
            t == v@.take(k as int),
            forall|i: int| 0 <= i < a ==> is_ws(#[trigger] t[i]),
        decreases k - a,
    {
        a = a + 1;
    }
    proof {
        lemma_trim_start_unique(t, a as int);
    }
    let mut r = String::new();
    let mut i = a;
    while i < k
        invariant
            a <= i <= k <= v@.len(),
            t == v@.take(k as int),
            r@ == t.subrange(a as int, i as int),
        decreases k - i,
    {
        push_char(&mut r, v[i]);
        i = i + 1;
    }
    assert(t.skip(a as int) =~= t.subrange(a as int, k as int));
    r
}

/// A text with no whitespace at either end is unchanged by `trim`, and a
/// nonempty text with whitespace at one end is changed by it.
pub proof fn lemma_trim_fixed(s: Seq<char>)
    ensures
        (trim(s) == s) <==> (s.len() == 0 || (!is_ws(s[0]) && !is_ws(s.last()))),
{
    lemma_trim_end(trim_end(s));
    lemma_trim_end(s);
    lemma_trim_start(trim_end(s));
    if s.len() > 0 && !is_ws(s[0]) && !is_ws(s.last()) {
        assert(trim_end(s) == s);
        assert(trim_start(s) == s);
    }
    if s.len() > 0 && is_ws(s.last()) {
        assert(trim_end(s).len() < s.len());
    }
    if s.len() > 0 && is_ws(s[0]) && !is_ws(s.last()) {
        assert(trim_end(s) == s);
        assert(trim_start(s) == trim_start(s.drop_first()));
        lemma_trim_start(s.drop_first());
    }
}

/// Whether `c` occurs in `s`.
pub open spec fn has_char(s: Seq<char>, c: char) -> bool {
    exists|i: int| 0 <= i < s.len() && s[i] == c
}

// ---------------------------------------------------------------------------
// Lines (`str::lines`) and joining (`[String]::join`)
// ---------------------------------------------------------------------------

/// A line with one trailing carriage return removed, if it has one.
pub open spec fn strip_cr(x: Seq<char>) -> Seq<char> {
    if x.len() > 0 && x.last() == '\r' {
        x.drop_last()
    } else {
        x
    }
}

/// Reading `s` left to right: the lines finished by a `'\n'` so far (with a
/// `"\r\n"` ending counted as one terminator), and the unfinished rest.
pub open spec fn split_state(s: Seq<char>) -> (Seq<Seq<char>>, Seq<char>)
    decreases s.len(),
{
    if s.len() == 0 {
        (Seq::empty(), Seq::empty())
    } else {
        let (done, cur) = split_state(s.drop_last());
        if s.last() == '\n' {
            (done.push(strip_cr(cur)), Seq::empty())
        } else {
            (done, cur.push(s.last()))
        }
    }
}

/// The lines of `s` as `str::lines` yields them: split at `'\n'`, a
/// `'\r'` right before the `'\n'` dropped, and no final empty line when `s`
/// ends with a line terminator.
pub open spec fn text_lines(s: Seq<char>) -> Seq<Seq<char>> {
    let (done, cur) = split_state(s);
    if cur.len() > 0 {
        done.push(cur)
    } else {
        done
    }
}

/// The lines of `s`, as `str::lines` splits them.
pub fn split_lines(s: &Vec<char>) -> (lines: Vec<Vec<char>>)
    ensures
        lines@.map_values(|l: Vec<char>| l@) == text_lines(s@),
{
    let mut done: Vec<Vec<char>> = Vec::new();
    let mut cur: Vec<char> = Vec::new();
    let mut i: usize = 0;
    while i < s.len()
        invariant
            i <= s@.len(),
            (done@.map_values(|l: Vec<char>| l@), cur@) == split_state(s@.take(i as int)),
        decreases s.len() - i,
    {
        let c = s[i];
        assert(s@.take(i + 1).drop_last() == s@.take(i as int));
        assert(s@.take(i + 1).last() == c);
        if c == '\n' {
            if cur.len() > 0 && cur[cur.len() - 1] == '\r' {
                cur.pop();
            }
            done.push(cur);
            cur = Vec::new();
        } else {
            cur.push(c);
        }
        i = i + 1;
    }
    assert(s@.take(s@.len() as int) == s@);
    if cur.len() > 0 {
        done.push(cur);
    }
    done
}

/// `lines` separated by `sep`.
pub open spec fn join(lines: Seq<Seq<char>>, sep: Seq<char>) -> Seq<char>
    decreases lines.len(),
{
    if lines.len() == 0 {
        Seq::empty()
    } else if lines.len() == 1 {
        lines[0]
    } else {
        join(lines.drop_last(), sep) + sep + lines.last()
    }
}

/// Each of `lines` followed by `sep`.
pub open spec fn terminated(lines: Seq<Seq<char>>, sep: Seq<char>) -> Seq<char>
    decreases lines.len(),
{
    if lines.len() == 0 {
        Seq::empty()
    } else {
        terminated(lines.drop_last(), sep) + lines.last() + sep
    }
}

/// Joining and then appending one more separator terminates every line.
pub proof fn lemma_join_terminated(lines: Seq<Seq<char>>, sep: Seq<char>)
    requires
        lines.len() > 0,
    ensures
        join(lines, sep) + sep == terminated(lines, sep),
    decreases lines.len(),
{
    if lines.len() > 1 {
        lemma_join_terminated(lines.drop_last(), sep);
    } else {
        assert(terminated(lines.drop_last(), sep) == Seq::<char>::empty());
        assert(Seq::<char>::empty() + lines[0] == lines[0]);
    }
}

/// Joining one more line puts it after the terminated earlier lines.
pub proof fn lemma_join_push(lines: Seq<Seq<char>>, last: Seq<char>, sep: Seq<char>)
    ensures
        join(lines.push(last), sep) == terminated(lines, sep) + last,
{
    let l2 = lines.push(last);
    assert(l2.drop_last() == lines);
    if lines.len() > 0 {
        lemma_join_terminated(lines, sep);
    } else {
        assert(terminated(lines, sep) == Seq::<char>::empty());
        assert(Seq::<char>::empty() + last == last);
    }
}

// ---------------------------------------------------------------------------
// Building strings
// ---------------------------------------------------------------------------

/// `String::push` from std: appends one character.
#[verifier::external_body]
pub(crate) fn push_char(s: &mut String, c: char)
    ensures
        final(s)@ == old(s)@.push(c),
{
    s.push(c);
}

/// Appends the characters of `v` to `s`.
pub fn push_chars(s: &mut String, v: &[char])
    ensures
        final(s)@ == old(s)@ + v@,
{
    let mut i: usize = 0;
    while i < v.len()
        invariant
            i <= v@.len(),
            s@ == old(s)@ + v@.take(i as int),
        decreases v.len() - i,
    {
        assert(v@.take(i + 1) == v@.take(i as int).push(v@[i as int]));
        push_char(s, v[i]);
        i = i + 1;
    }
    assert(v@.take(v@.len() as int) == v@);
}

/// A `String` holding the characters of `v`.
pub fn string_of(v: &[char]) -> (s: String)
    ensures
        s@ == v@,
{
    let mut s = String::new();
    push_chars(&mut s, v);
    s
}

/// The characters of `s`, in order.
pub fn chars_of(s: &str) -> (v: Vec<char>)
    ensures
        v@ == s@,
{
    let mut v: Vec<char> = Vec::new();
    for c in it: s.chars()
        invariant
            it.seq() == s@,
            v@ == it.seq().take(it.index() as int),
    {
        v.push(c);
    }
    v
}

/// Whether two strings hold the same characters.
pub fn str_eq(a: &str, b: &str) -> (r: bool)
    ensures
        r == (a@ == b@),
{
    let x = chars_of(a);
    let y = chars_of(b);
    chars_eq(x.as_slice(), y.as_slice())
}

/// Whether two character slices are equal.
pub fn chars_eq(a: &[char], b: &[char]) -> (r: bool)
    ensures
        r == (a@ == b@),
{
    if a.len() != b.len() {
        return false;
    }
    let mut i: usize = 0;
    while i < a.len()
        invariant
            a@.len() == b@.len(),
            i <= a@.len(),
            forall|j: int| 0 <= j < i ==> a@[j] == b@[j],
        decreases a.len() - i,
    {
        if a[i] != b[i] {
            return false;
        }
        i = i + 1;
    }
    assert(a@ =~= b@);
    true
}

} // verus!
