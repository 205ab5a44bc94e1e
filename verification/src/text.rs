//! Character-level text model shared by the codec: ASCII whitespace,
//! trimming at record boundaries, and splitting a stream into lines.

use vstd::prelude::*;
use vstd::string::StrSliceExecFns;

verus! {

/// The whitespace characters trimmed at a record boundary: the characters
/// with the Unicode `White_Space` property, as `char::is_whitespace` has them.
pub open spec fn is_space(c: char) -> bool {
    c == ' ' || c == '\t' || c == '\n' || c == '\u{b}' || c == '\u{c}' || c == '\r'
        || c == '\u{85}' || c == '\u{a0}' || c == '\u{1680}' || c == '\u{2000}' || c == '\u{2001}'
        || c == '\u{2002}' || c == '\u{2003}' || c == '\u{2004}' || c == '\u{2005}'
        || c == '\u{2006}' || c == '\u{2007}' || c == '\u{2008}' || c == '\u{2009}'
        || c == '\u{200a}' || c == '\u{2028}' || c == '\u{2029}' || c == '\u{202f}'
        || c == '\u{205f}' || c == '\u{3000}'
}

/// `s` with its leading whitespace removed.
pub open spec fn trim_start(s: Seq<char>) -> Seq<char>
    decreases s.len(),
{
    if s.len() > 0 && is_space(s[0]) {
        trim_start(s.drop_first())
    } else {
        s
    }
}

/// `s` with its trailing whitespace removed.
pub open spec fn trim_end(s: Seq<char>) -> Seq<char>
    decreases s.len(),
{
    if s.len() > 0 && is_space(s[s.len() - 1]) {
        trim_end(s.drop_last())
    } else {
        s
    }
}

/// `s` with both leading and trailing whitespace removed.
pub open spec fn trim(s: Seq<char>) -> Seq<char> {
    trim_end(trim_start(s))
}

pub proof fn lemma_trim_start_props(s: Seq<char>)
    ensures
        trim_start(s).len() <= s.len(),
        trim_start(s) == s.subrange(s.len() - trim_start(s).len(), s.len() as int),
        trim_start(s).len() > 0 ==> !is_space(trim_start(s)[0]),
    decreases s.len(),
{
    if s.len() > 0 && is_space(s[0]) {
        lemma_trim_start_props(s.drop_first());
        let r = trim_start(s);
        assert(s.drop_first().subrange(s.drop_first().len() - r.len(), s.drop_first().len() as int)
            =~= s.subrange(s.len() - r.len(), s.len() as int));
    } else {
        assert(trim_start(s) =~= s.subrange(0, s.len() as int));
    }
}

pub proof fn lemma_trim_end_props(s: Seq<char>)
    ensures
        trim_end(s).len() <= s.len(),
        trim_end(s) == s.subrange(0, trim_end(s).len() as int),
        trim_end(s).len() > 0 ==> !is_space(trim_end(s)[trim_end(s).len() - 1]),
    decreases s.len(),
{
    if s.len() > 0 && is_space(s[s.len() - 1]) {
        lemma_trim_end_props(s.drop_last());
        let r = trim_end(s);
        assert(s.drop_last().subrange(0, r.len() as int) =~= s.subrange(0, r.len() as int));
    } else {
        assert(trim_end(s) =~= s.subrange(0, s.len() as int));
    }
}

pub proof fn lemma_trim_start_at(s: Seq<char>, k: int)
    requires
        0 <= k <= s.len(),
        forall|i: int| 0 <= i < k ==> is_space(s[i]),
        k == s.len() || !is_space(s[k]),
    ensures
        trim_start(s) == s.subrange(k, s.len() as int),
    decreases k,
{
    if k == 0 {
        assert(trim_start(s) =~= s.subrange(0, s.len() as int));
    } else {
        assert(is_space(s[0]));
        let d = s.drop_first();
        assert forall|i: int| 0 <= i < k - 1 implies is_space(d[i]) by {
            assert(is_space(s[i + 1]));
        }
        lemma_trim_start_at(d, k - 1);
        assert(d.subrange(k - 1, d.len() as int) =~= s.subrange(k, s.len() as int));
    }
}

pub proof fn lemma_trim_end_at(s: Seq<char>, k: int)
    requires
        0 <= k <= s.len(),
        forall|i: int| k <= i < s.len() ==> is_space(s[i]),
        k == 0 || !is_space(s[k - 1]),
    ensures
        trim_end(s) == s.subrange(0, k),
    decreases s.len() - k,
{
    if k == s.len() {
        assert(trim_end(s) =~= s.subrange(0, k));
    } else {
        assert(is_space(s[s.len() - 1]));
        let d = s.drop_last();
        lemma_trim_end_at(d, k);
        assert(d.subrange(0, k) =~= s.subrange(0, k));
    }
}

/// Appending a whitespace character does not change the trimmed tail.
pub proof fn lemma_trim_end_space_suffix(s: Seq<char>, c: char)
    requires
        is_space(c),
    ensures
        trim_end(s.push(c)) == trim_end(s),
{
    assert(s.push(c).drop_last() =~= s);
}

/// A nonempty stream equal to its own trim neither starts nor ends in
/// whitespace.
pub proof fn lemma_trimmed_ends(s: Seq<char>)
    requires
        trim(s) == s,
        s.len() > 0,
    ensures
        !is_space(s[0]),
        !is_space(s[s.len() - 1]),
        trim_start(s) == s,
        trim_end(s) == s,
{
    lemma_trim_start_props(s);
    lemma_trim_end_props(trim_start(s));
    assert(trim(s).len() <= trim_start(s).len() <= s.len());
    assert(trim_start(s).len() == s.len());
    assert(trim_start(s) =~= s);
    if is_space(s[0]) {
        lemma_trim_start_props(s.drop_first());
        assert(false);
    }
    if is_space(s[s.len() - 1]) {
        lemma_trim_end_props(s.drop_last());
        assert(false);
    }
}

/// Appending a newline to a nonempty, already-trimmed body trims back to the
/// body itself.
pub proof fn lemma_trim_append_newline(s: Seq<char>)
    requires
        s.len() > 0,
        trim(s) == s,
    ensures
        trim(s + seq!['\n']) == s,
{
    lemma_trimmed_ends(s);
    let t = s + seq!['\n'];
    assert(!is_space(t[0]));
    assert(trim_start(t) == t);
    assert(t =~= s.push('\n'));
    lemma_trim_end_space_suffix(s, '\n');
}

/// The index of the first newline in `s`, or `s.len()` if there is none.
pub open spec fn first_nl(s: Seq<char>) -> int
    decreases s.len(),
{
    if s.len() == 0 {
        0
    } else if s[0] == '\n' {
        0
    } else {
        1 + first_nl(s.drop_first())
    }
}

pub proof fn lemma_first_nl_bounds(s: Seq<char>)
    ensures
        0 <= first_nl(s) <= s.len(),
        forall|i: int| 0 <= i < first_nl(s) ==> s[i] != '\n',
        first_nl(s) < s.len() ==> s[first_nl(s)] == '\n',
    decreases s.len(),
{
    if s.len() > 0 && s[0] != '\n' {
        lemma_first_nl_bounds(s.drop_first());
        assert forall|i: int| 0 <= i < first_nl(s) implies s[i] != '\n' by {
            if i > 0 {
                assert(s.drop_first()[i - 1] != '\n');
            }
        }
    }
}

pub proof fn lemma_first_nl_at(s: Seq<char>, k: int)
    requires
        0 <= k <= s.len(),
        forall|i: int| 0 <= i < k ==> s[i] != '\n',
        k == s.len() || s[k] == '\n',
    ensures
        first_nl(s) == k,
    decreases s.len(),
{
    if s.len() > 0 && s[0] != '\n' {
        lemma_first_nl_at(s.drop_first(), k - 1);
    }
}

/// `line` with one trailing carriage return removed, so that a line read
/// from a CRLF-terminated stream matches its LF-terminated form.
pub open spec fn strip_cr(line: Seq<char>) -> Seq<char> {
    if line.len() > 0 && line[line.len() - 1] == '\r' {
        line.drop_last()
    } else {
        line
    }
}

/// No carriage return stands immediately before a newline in `s`.
pub open spec fn has_no_crlf(s: Seq<char>) -> bool {
    forall|i: int| 0 <= i < s.len() - 1 ==> !(#[trigger] s[i] == '\r' && s[i + 1] == '\n')
}

/// The lines of `s`, split at each newline, each newline-terminated line
/// with one trailing carriage return removed. The segment after the final
/// newline is a line only when it is followed by further characters, so a
/// stream that ends in a newline contributes no trailing empty line, and an
/// unterminated final line keeps a trailing carriage return.
pub open spec fn split_lines(s: Seq<char>) -> Seq<Seq<char>>
    decreases s.len(),
{
    if s.len() == 0 {
        Seq::empty()
    } else {
        let k = first_nl(s);
        if k == s.len() {
            seq![s]
        } else {
            proof {
                lemma_first_nl_bounds(s);
            }
            seq![strip_cr(s.subrange(0, k))] + split_lines(s.subrange(k + 1, s.len() as int))
        }
    }
}

/// The lines of `lines` joined back together, each terminated by a newline.
pub open spec fn join_lines(lines: Seq<Seq<char>>) -> Seq<char>
    decreases lines.len(),
{
    if lines.len() == 0 {
        Seq::empty()
    } else {
        lines[0] + seq!['\n'] + join_lines(lines.drop_first())
    }
}

/// A stream with no newline and no trailing carriage return, terminated by
/// a newline, is a single line.
pub proof fn lemma_split_single_line(s: Seq<char>)
    requires
        forall|i: int| 0 <= i < s.len() ==> s[i] != '\n',
        s.len() == 0 || s[s.len() - 1] != '\r',
    ensures
        split_lines(s + seq!['\n']) == seq![s],
{
    reveal_with_fuel(split_lines, 2);
    let t = s + seq!['\n'];
    assert(forall|i: int| 0 <= i < s.len() ==> t[i] != '\n');
    lemma_first_nl_at(t, s.len() as int);
    assert(t.subrange(0, s.len() as int) =~= s);
    let rest = t.subrange(s.len() as int + 1, t.len() as int);
    assert(rest =~= Seq::<char>::empty());
    assert(split_lines(rest) =~= Seq::<Seq<char>>::empty());
    assert(strip_cr(t.subrange(0, s.len() as int)) == s);
    assert(split_lines(t) =~= seq![s]);
}

/// Splitting distributes over a newline-terminated prefix.
pub proof fn lemma_split_lines_append(a: Seq<char>, b: Seq<char>)
    ensures
        split_lines(a + seq!['\n'] + b) == split_lines(a + seq!['\n']) + split_lines(b),
    decreases a.len(),
{
    let t = a + seq!['\n'] + b;
    let ta = a + seq!['\n'];
    lemma_first_nl_bounds(a);
    let k = first_nl(a);
    if k == a.len() {
        // no newline inside `a` itself
        assert(forall|i: int| 0 <= i < k ==> t[i] != '\n');
        assert(t[k] == '\n');
        lemma_first_nl_at(t, k);
        lemma_first_nl_at(ta, k);
        assert(t.subrange(0, k) =~= a);
        assert(ta.subrange(0, k) =~= a);
        if k == b.len() + a.len() {
            // t = a + '\n' and b is empty
            assert(b =~= t.subrange(k + 1, t.len() as int));
            assert(split_lines(t) =~= seq![strip_cr(a)] + split_lines(b));
        } else {
            assert(t.subrange(k + 1, t.len() as int) =~= b);
        }
        let tail = ta.subrange(k + 1, ta.len() as int);
        assert(tail =~= Seq::<char>::empty());
        assert(split_lines(tail) =~= Seq::<Seq<char>>::empty());
        assert(split_lines(ta) =~= seq![strip_cr(a)]);
        assert(split_lines(t) =~= seq![strip_cr(a)] + split_lines(b));
    } else {
        // the first newline lies inside `a`
        assert(forall|i: int| 0 <= i < k ==> t[i] != '\n');
        assert(t[k] == '\n');
        lemma_first_nl_at(t, k);
        lemma_first_nl_at(ta, k);
        let a2 = a.subrange(k + 1, a.len() as int);
        assert(t.subrange(k + 1, t.len() as int) =~= a2 + seq!['\n'] + b);
        assert(ta.subrange(k + 1, ta.len() as int) =~= a2 + seq!['\n']);
        assert(t.subrange(0, k) =~= a.subrange(0, k));
        assert(ta.subrange(0, k) =~= a.subrange(0, k));
        lemma_split_lines_append(a2, b);
        assert(split_lines(t) =~= seq![strip_cr(a.subrange(0, k))] + (split_lines(a2 + seq!['\n'])
            + split_lines(b)));
        assert(split_lines(ta) =~= seq![strip_cr(a.subrange(0, k))] + split_lines(a2 + seq!['\n']));
        assert(split_lines(t) =~= split_lines(ta) + split_lines(b));
    }
}

/// Joining the lines of a newline-terminated stream rebuilds the stream,
/// provided no line of the stream ends in a carriage return.
pub proof fn lemma_join_split(s: Seq<char>)
    requires
        has_no_crlf(s),
        s.len() == 0 || s[s.len() - 1] != '\r',
    ensures
        join_lines(split_lines(s + seq!['\n'])) == s + seq!['\n'],
    decreases s.len(),
{
    let t = s + seq!['\n'];
    lemma_first_nl_bounds(t);
    let k = first_nl(t);
    assert(t[s.len() as int] == '\n');
    assert(k <= s.len());
    if k == s.len() {
        assert forall|i: int| 0 <= i < s.len() implies s[i] != '\n' by {
            assert(t[i] != '\n');
        }
        lemma_split_single_line(s);
        assert(split_lines(t) == seq![s]);
        let empty_lines = seq![s].drop_first();
        assert(empty_lines =~= Seq::<Seq<char>>::empty());
        assert(join_lines(empty_lines) =~= Seq::<char>::empty());
        assert(join_lines(split_lines(t)) =~= s + seq!['\n']);
    } else {
        assert(s[k] == '\n');
        let s2 = s.subrange(k + 1, s.len() as int);
        assert(t.subrange(k + 1, t.len() as int) =~= s2 + seq!['\n']);
        let head = t.subrange(0, k);
        if k > 0 {
            // a carriage return at the head's tail would stand before the
            // newline at `k`, which the precondition rules out
            assert(!(s[k - 1] == '\r' && s[k - 1 + 1] == '\n'));
            assert(head[k - 1] == s[k - 1]);
        }
        assert(strip_cr(head) == head);
        let rest = split_lines(s2 + seq!['\n']);
        assert(split_lines(t) == seq![head] + rest);
        assert((seq![head] + rest).drop_first() =~= rest);
        assert((seq![head] + rest)[0] == head);
        assert forall|i: int| 0 <= i < s2.len() - 1 implies !(#[trigger] s2[i] == '\r' && s2[i + 1]
            == '\n') by {
            assert(!(s[i + k + 1] == '\r' && s[i + k + 1 + 1] == '\n'));
        }
        if s2.len() > 0 {
            assert(s2[s2.len() - 1] == s[s.len() - 1]);
        }
        lemma_join_split(s2);
        assert(join_lines(split_lines(t)) == head + seq!['\n'] + (s2 + seq!['\n']));
        assert(head + seq!['\n'] + (s2 + seq!['\n']) =~= s + seq!['\n']);
    }
}

/// Whether `c` is one of the whitespace characters the codec trims.
pub fn char_is_space(c: char) -> (r: bool)
    ensures
        r == is_space(c),
{
    c == ' ' || c == '\t' || c == '\n' || c == '\u{b}' || c == '\u{c}' || c == '\r'
        || c == '\u{85}' || c == '\u{a0}' || c == '\u{1680}' || c == '\u{2000}' || c == '\u{2001}'
        || c == '\u{2002}' || c == '\u{2003}' || c == '\u{2004}' || c == '\u{2005}'
        || c == '\u{2006}' || c == '\u{2007}' || c == '\u{2008}' || c == '\u{2009}'
        || c == '\u{200a}' || c == '\u{2028}' || c == '\u{2029}' || c == '\u{202f}'
        || c == '\u{205f}' || c == '\u{3000}'
}

/// Whether two string slices hold the same characters.
pub fn str_eq(a: &str, b: &str) -> (r: bool)
    ensures
        r == (a@ == b@),
{
    let an = a.unicode_len();
    let bn = b.unicode_len();
    if an != bn {
        return false;
    }
    let mut i: usize = 0;
    while i < an
        invariant
            an == a@.len(),
            an == b@.len(),
            i <= an,
            forall|j: int| 0 <= j < i ==> a@[j] == b@[j],
        decreases an - i,
    {
        if a.get_char(i) != b.get_char(i) {
            return false;
        }
        i = i + 1;
    }
    proof {
        assert(a@ =~= b@);
    }
    true
}

/// A copy of `s` with leading and trailing whitespace removed.
pub fn trim_str(s: &str) -> (r: String)
    ensures
        r@ == trim(s@),
{
    let n = s.unicode_len();
    let mut a: usize = 0;
    while a < n && char_is_space(s.get_char(a))
        invariant
            n == s@.len(),
            a <= n,
            forall|i: int| 0 <= i < a ==> is_space(s@[i]),
        decreases n - a,
    {
        a = a + 1;
    }
    proof {
        lemma_trim_start_at(s@, a as int);
    }
    if a == n {
        proof {
            assert(trim_start(s@) =~= Seq::<char>::empty());
            assert(trim(s@) =~= Seq::<char>::empty());
        }
        return String::new();
    }
    let mut b: usize = n;
    while b > a + 1 && char_is_space(s.get_char(b - 1))
        invariant
            n == s@.len(),
            a < b <= n,
            !is_space(s@[a as int]),
            forall|i: int| b <= i < n ==> is_space(s@[i]),
        decreases b,
    {
        b = b - 1;
    }
    proof {
        let t = s@.subrange(a as int, n as int);
        assert(!is_space(t[0]));
        assert forall|i: int| b - a <= i < t.len() implies is_space(t[i]) by {
            assert(is_space(s@[i + a]));
        }
        assert(!is_space(t[b - a - 1]));
        lemma_trim_end_at(t, b - a);
        assert(t.subrange(0, b - a) =~= s@.subrange(a as int, b as int));
    }
    s.substring_char(a, b).to_owned()
}

} // verus!
