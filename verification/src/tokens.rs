//! Line tokenization.
//!
//! A protocol line is trimmed of leading and trailing ASCII whitespace and
//! then split strictly on single space characters: consecutive spaces produce
//! empty tokens, which downstream numeric conversion rejects uniformly.

use vstd::prelude::*;
use vstd::string::StrSliceExecFns;

verus! {

/// Whether `c` is ASCII whitespace (the characters trimming removes).
pub open spec fn is_space_char(c: char) -> bool {
    c == ' ' || c == '\t' || c == '\n' || c == '\r' || c as u32 == 11 || c as u32 == 12
}

/// `s` without leading whitespace.
pub open spec fn spec_trim_start(s: Seq<char>) -> Seq<char>
    decreases s.len(),
{
    if s.len() > 0 && is_space_char(s[0]) {
        spec_trim_start(s.drop_first())
    } else {
        s
    }
}

/// `s` without trailing whitespace.
pub open spec fn spec_trim_end(s: Seq<char>) -> Seq<char>
    decreases s.len(),
{
    if s.len() > 0 && is_space_char(s.last()) {
        spec_trim_end(s.drop_last())
    } else {
        s
    }
}

/// `s` without leading or trailing whitespace.
pub open spec fn spec_trim(s: Seq<char>) -> Seq<char> {
    spec_trim_end(spec_trim_start(s))
}

/// `s` split on every occurrence of `sep`.  Splitting never yields an empty
/// token list: the empty string splits into one empty token.
pub open spec fn spec_split_on(s: Seq<char>, sep: char) -> Seq<Seq<char>>
    decreases s.len(),
{
    if s.len() == 0 {
        seq![Seq::<char>::empty()]
    } else if s[0] == sep {
        seq![Seq::<char>::empty()] + spec_split_on(s.drop_first(), sep)
    } else {
        let rest = spec_split_on(s.drop_first(), sep);
        seq![seq![s[0]] + rest[0]] + rest.drop_first()
    }
}

/// `s` split on single spaces.
pub open spec fn spec_split(s: Seq<char>) -> Seq<Seq<char>> {
    spec_split_on(s, ' ')
}

/// The token list of a protocol line: trim, then split on single spaces.
pub open spec fn spec_tokenize(s: Seq<char>) -> Seq<Seq<char>> {
    spec_split(spec_trim(s))
}

/// Splitting yields at least one token.
pub proof fn lemma_split_len(s: Seq<char>, sep: char)
    ensures
        spec_split_on(s, sep).len() >= 1,
    decreases s.len(),
{
    if s.len() > 0 {
        lemma_split_len(s.drop_first(), sep);
    }
}

/// Unfolds one token from the front of a split: if the first space of `s`
/// stands at `j`, the first token is `s[0 .. j]` and the rest of the split
/// starts after the space.
proof fn lemma_split_first(s: Seq<char>, sep: char, j: int)
    requires
        0 <= j <= s.len(),
        forall|k: int| 0 <= k < j ==> s[k] != sep,
        j == s.len() || s[j] == sep,
    ensures
        j == s.len() ==> spec_split_on(s, sep) =~~= seq![s],
        j < s.len() ==> spec_split_on(s, sep) =~~= seq![s.subrange(0, j)] + spec_split_on(
            s.subrange(j + 1, s.len() as int),
            sep,
        ),
    decreases j,
{
    lemma_split_len(s, sep);
    if j == 0 {
        if s.len() == 0 {
            assert(spec_split_on(s, sep) =~~= seq![s]);
        } else {
            assert(s[0] == sep);
            assert(s.subrange(0, 0) =~= Seq::<char>::empty());
            assert(s.subrange(1, s.len() as int) =~= s.drop_first());
        }
    } else {
        let d = s.drop_first();
        lemma_split_first(d, sep, j - 1);
        lemma_split_len(d, sep);
        let rest = spec_split_on(d, sep);
        if j == s.len() {
            assert(rest =~~= seq![d]);
            assert(seq![s[0]] + d =~= s);
            assert(spec_split_on(s, sep) =~~= seq![s]);
        } else {
            assert(rest =~~= seq![d.subrange(0, j - 1)] + spec_split_on(
                d.subrange(j, d.len() as int),
                sep,
            ));
            assert(seq![s[0]] + d.subrange(0, j - 1) =~= s.subrange(0, j));
            assert(d.subrange(j, d.len() as int) =~= s.subrange(j + 1, s.len() as int));
            assert(rest.drop_first() =~~= spec_split_on(s.subrange(j + 1, s.len() as int), sep));
            assert(spec_split_on(s, sep) =~~= seq![s.subrange(0, j)] + spec_split_on(
                s.subrange(j + 1, s.len() as int),
                sep,
            ));
        }
    }
}

/// If everything before `a` is whitespace and `a` is not (or is the end),
/// trimming the start lands exactly on `a`.
proof fn lemma_trim_start_idx(s: Seq<char>, a: int)
    requires
        0 <= a <= s.len(),
        forall|j: int| 0 <= j < a ==> is_space_char(#[trigger] s[j]),
        a == s.len() || !is_space_char(s[a]),
    ensures
        spec_trim_start(s) =~= s.subrange(a, s.len() as int),
    decreases a,
{
    if a == 0 {
        assert(s.subrange(0, s.len() as int) =~= s);
    } else {
        let d = s.drop_first();
        lemma_trim_start_idx(d, a - 1);
        assert(d.subrange(a - 1, d.len() as int) =~= s.subrange(a, s.len() as int));
    }
}

/// If everything from `b` on is whitespace and `b - 1` is not (or `b` is the
/// start), trimming the end lands exactly on `b`.
proof fn lemma_trim_end_idx(s: Seq<char>, b: int)
    requires
        0 <= b <= s.len(),
        forall|j: int| b <= j < s.len() ==> is_space_char(#[trigger] s[j]),
        b == 0 || !is_space_char(s[b - 1]),
    ensures
        spec_trim_end(s) =~= s.subrange(0, b),
    decreases s.len() - b,
{
    if b == s.len() {
        assert(s.subrange(0, s.len() as int) =~= s);
    } else {
        let d = s.drop_last();
        assert(is_space_char(s.last()));
        lemma_trim_end_idx(d, b);
        assert(d.subrange(0, b) =~= s.subrange(0, b));
    }
}

/// Whether `c` is ASCII whitespace.
fn is_space(c: char) -> (r: bool)
    ensures
        r == is_space_char(c),
{
    c == ' ' || c == '\t' || c == '\n' || c == '\r' || c as u32 == 11 || c as u32 == 12
}

/// Splits a line into its tokens: trims ASCII whitespace at both ends, then
/// cuts on every single space.  Always yields at least one token.
pub fn tokenize(line: &str) -> (r: Vec<String>)
    ensures
        r.deep_view() =~~= spec_tokenize(line@),
        r.len() >= 1,
{
    let n = line.unicode_len();
    let mut a: usize = 0;
    while a < n && is_space(line.get_char(a))
        invariant
            0 <= a <= n,
            n == line@.len(),
            forall|j: int| 0 <= j < a ==> is_space_char(#[trigger] line@[j]),
        decreases n - a,
    {
        a = a + 1;
    }
    let mut b: usize = n;
    while b > a && is_space(line.get_char(b - 1))
        invariant
            a <= b <= n,
            n == line@.len(),
            forall|j: int| b <= j < n ==> is_space_char(#[trigger] line@[j]),
        decreases b,
    {
        b = b - 1;
    }
    let trimmed = line.substring_char(a, b);
    proof {
        lemma_trim_start_idx(line@, a as int);
        let t = line@.subrange(a as int, n as int);
        lemma_trim_end_idx(t, b - a);
        assert(t.subrange(0, b - a) =~= line@.subrange(a as int, b as int));
        assert(spec_trim(line@) =~= trimmed@);
    }
    split_on(trimmed, ' ')
}

/// Splits `s` on every occurrence of `sep`.  Always yields at least one
/// token.
pub fn split_on(s: &str, sep: char) -> (r: Vec<String>)
    ensures
        r.deep_view() =~~= spec_split_on(s@, sep),
        r.len() >= 1,
{
    let n = s.unicode_len();
    let mut toks: Vec<String> = Vec::new();
    let mut pos: usize = 0;
    proof {
        assert(s@.subrange(0, n as int) =~= s@);
        assert(toks.deep_view() =~~= Seq::<Seq<char>>::empty());
    }
    loop
        invariant_except_break
            0 <= pos <= n,
            n == s@.len(),
            spec_split_on(s@, sep) =~~= toks.deep_view() + spec_split_on(
                s@.subrange(pos as int, n as int),
                sep,
            ),
        ensures
            toks.deep_view() =~~= spec_split_on(s@, sep),
            toks.len() >= 1,
        decreases n - pos,
    {
        let mut j = pos;
        while j < n && s.get_char(j) != sep
            invariant
                pos <= j <= n,
                n == s@.len(),
                forall|k: int| pos <= k < j ==> s@[k] != sep,
            decreases n - j,
        {
            j = j + 1;
        }
        let tok = s.substring_char(pos, j).to_owned();
        proof {
            let suffix = s@.subrange(pos as int, n as int);
            lemma_split_first(suffix, sep, j - pos);
            lemma_split_len(suffix, sep);
            assert(suffix.subrange(0, j - pos) =~= s@.subrange(pos as int, j as int));
            if j < n {
                assert(suffix.subrange(j - pos + 1, suffix.len() as int) =~= s@.subrange(
                    j + 1,
                    n as int,
                ));
            }
        }
        toks.push(tok);
        if j == n {
            proof {
                assert(toks.deep_view() =~~= spec_split_on(s@, sep));
            }
            break ;
        }
        pos = j + 1;
    }
    toks
}

/// Compares two string slices character by character.
pub fn str_eq(a: &str, b: &str) -> (r: bool)
    ensures
        r == (a@ == b@),
{
    let na = a.unicode_len();
    let nb = b.unicode_len();
    if na != nb {
        return false;
    }
    let mut i: usize = 0;
    while i < na
        invariant
            0 <= i <= na,
            na == a@.len(),
            nb == b@.len(),
            na == nb,
            forall|j: int| 0 <= j < i ==> a@[j] == b@[j],
        decreases na - i,
    {
        if a.get_char(i) != b.get_char(i) {
            return false;
        }
        i = i + 1;
    }
    proof {
        assert(a@ =~= b@);
    }
    true
}


/// Tokenizing a line built of three space-free tokens joined by single
/// spaces yields exactly those three tokens.
pub proof fn lemma_tokenize_three(a: Seq<char>, b: Seq<char>, c: Seq<char>)
    requires
        a.len() > 0,
        c.len() > 0,
        forall|i: int| 0 <= i < a.len() ==> #[trigger] a[i] != ' ',
        forall|i: int| 0 <= i < b.len() ==> #[trigger] b[i] != ' ',
        forall|i: int| 0 <= i < c.len() ==> #[trigger] c[i] != ' ',
        !is_space_char(a[0]),
        !is_space_char(c.last()),
    ensures
        spec_tokenize(a + " "@ + b + " "@ + c) =~~= seq![a, b, c],
{
    reveal_strlit(" ");
    let s = a + " "@ + b + " "@ + c;
    assert(s.len() == a.len() + 1 + b.len() + 1 + c.len());
    assert(s[0] == a[0]);
    assert(s.last() == c.last());
    assert(spec_trim_start(s) == s);
    assert(spec_trim_end(s) == s);
    assert(spec_trim(s) == s);
    let i = a.len() as int;
    assert forall|k: int| 0 <= k < i implies s[k] != ' ' by {
        assert(s[k] == a[k]);
    }
    assert(s[i] == ' ');
    lemma_split_first(s, ' ', i);
    assert(s.subrange(0, i) =~= a);
    let s2 = s.subrange(i + 1, s.len() as int);
    assert(s2 =~= b + " "@ + c);
    let j = b.len() as int;
    assert forall|k: int| 0 <= k < j implies s2[k] != ' ' by {
        assert(s2[k] == b[k]);
    }
    assert(s2[j] == ' ');
    lemma_split_first(s2, ' ', j);
    assert(s2.subrange(0, j) =~= b);
    let s3 = s2.subrange(j + 1, s2.len() as int);
    assert(s3 =~= c);
    assert forall|k: int| 0 <= k < s3.len() implies s3[k] != ' ' by {
        assert(s3[k] == c[k]);
    }
    lemma_split_first(s3, ' ', s3.len() as int);
    assert(spec_split_on(s3, ' ') =~~= seq![s3]);
    assert(spec_split_on(s2, ' ') =~~= seq![b] + seq![c]);
    assert(spec_split_on(s, ' ') =~~= seq![a] + (seq![b] + seq![c]));
    assert(seq![a] + (seq![b] + seq![c]) =~~= seq![a, b, c]);
}

} // verus!
