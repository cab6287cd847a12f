//! Splitting text into lines and whitespace-separated tokens, with comment
//! stripping: the lexical layer of the braid file format.
use vstd::prelude::*;

verus! {

/// ASCII whitespace, as the file format understands it.
pub open spec fn is_space(c: char) -> bool {
    c == ' ' || c == '\t' || c == '\n' || c == '\r' || c == '\u{b}' || c == '\u{c}'
}

/// The index of the first line break in `s`, or its length.
pub open spec fn line_break(s: Seq<char>) -> nat
    decreases s.len(),
{
    if s.len() == 0 {
        0
    } else if s[0] == '\n' {
        0
    } else {
        (1 + line_break(s.drop_first())) as nat
    }
}

/// `line_break` is the unique index bounded by the length with no `'\n'`
/// strictly before it and one at it (unless it is the length).
pub proof fn lemma_line_break_is(s: Seq<char>, k: int)
    requires
        0 <= k <= s.len(),
        forall|j: int| 0 <= j < k ==> s[j] != '\n',
        k < s.len() ==> s[k] == '\n',
    ensures
        line_break(s) == k,
    decreases s.len(),
{
    if k > 0 {
        assert(forall|j: int| 0 <= j < k - 1 ==> s.drop_first()[j] == s[j + 1]);
        if k - 1 < s.drop_first().len() {
            assert(s.drop_first()[k - 1] == s[k]);
        }
        lemma_line_break_is(s.drop_first(), k - 1);
    }
}

/// The index of the first `#` in `s`, or its length.
pub open spec fn first_hash(s: Seq<char>) -> nat
    decreases s.len(),
{
    if s.len() == 0 {
        0
    } else if s[0] == '#' {
        0
    } else {
        (1 + first_hash(s.drop_first())) as nat
    }
}

/// `first_hash` is the unique index bounded by the length with no `#`
/// strictly before it and one at it (unless it is the length).
pub proof fn lemma_first_hash_is(s: Seq<char>, k: int)
    requires
        0 <= k <= s.len(),
        forall|j: int| 0 <= j < k ==> s[j] != '#',
        k < s.len() ==> s[k] == '#',
    ensures
        first_hash(s) == k,
    decreases s.len(),
{
    if k > 0 {
        assert(forall|j: int| 0 <= j < k - 1 ==> s.drop_first()[j] == s[j + 1]);
        if k - 1 < s.drop_first().len() {
            assert(s.drop_first()[k - 1] == s[k]);
        }
        lemma_first_hash_is(s.drop_first(), k - 1);
    }
}

/// The length of the token at the head of `s`: its longest non-space prefix.
pub open spec fn token_len(s: Seq<char>) -> nat
    decreases s.len(),
{
    if s.len() == 0 {
        0
    } else if is_space(s[0]) {
        0
    } else {
        (1 + token_len(s.drop_first())) as nat
    }
}

/// `token_len` is the unique index bounded by the length with no space
/// strictly before it and one at it (unless it is the length).
pub proof fn lemma_token_len_is(s: Seq<char>, k: int)
    requires
        0 <= k <= s.len(),
        forall|j: int| 0 <= j < k ==> !is_space(#[trigger] s[j]),
        k < s.len() ==> is_space(s[k]),
    ensures
        token_len(s) == k,
    decreases s.len(),
{
    if k > 0 {
        assert(forall|j: int| 0 <= j < k - 1 ==> s.drop_first()[j] == s[j + 1]);
        if k - 1 < s.drop_first().len() {
            assert(s.drop_first()[k - 1] == s[k]);
        }
        lemma_token_len_is(s.drop_first(), k - 1);
    }
}

/// The lines of `s`, split at `'\n'`; the separator belongs to no line, and
/// text without a final separator still ends a line.
pub open spec fn split_lines(s: Seq<char>) -> Seq<Seq<char>>
    decreases s.len(),
{
    let k = line_break(s);
    if k >= s.len() {
        seq![s]
    } else {
        seq![s.take(k as int)] + split_lines(s.skip(k as int + 1))
    }
}

/// The prefix of a line before its first `#`: a comment runs to the end of
/// the line.
pub open spec fn strip_comment(line: Seq<char>) -> Seq<char> {
    line.take(first_hash(line) as int)
}

/// The maximal nonempty runs of non-space characters of `s`, in order.
pub open spec fn split_ws(s: Seq<char>) -> Seq<Seq<char>>
    decreases s.len(),
{
    if s.len() == 0 {
        Seq::empty()
    } else if is_space(s[0]) {
        split_ws(s.drop_first())
    } else {
        let k = token_len(s);
        if k >= s.len() {
            seq![s]
        } else {
            seq![s.take(k as int)] + split_ws(s.skip(k as int))
        }
    }
}

/// The tokens of one line, after comment stripping.
pub open spec fn line_tokens(line: Seq<char>) -> Seq<Seq<char>> {
    split_ws(strip_comment(line))
}

/// The token sequences of the lines that still hold a token at all, in
/// order: blank and comment-only lines disappear.
pub open spec fn token_lines(lines: Seq<Seq<char>>) -> Seq<Seq<Seq<char>>>
    decreases lines.len(),
{
    if lines.len() == 0 {
        Seq::empty()
    } else {
        let rest = token_lines(lines.drop_last());
        if line_tokens(lines.last()).len() == 0 {
            rest
        } else {
            rest.push(line_tokens(lines.last()))
        }
    }
}

/// All tokens after the first token-bearing line, in order.
pub open spec fn rest_tokens(tls: Seq<Seq<Seq<char>>>) -> Seq<Seq<char>>
    decreases tls.len(),
{
    if tls.len() <= 1 {
        Seq::empty()
    } else {
        rest_tokens(tls.drop_last()) + tls.last()
    }
}

/// The bounds of `token_len`: spaces never stand strictly before it, and
/// one stands at it unless it is the length.
pub proof fn lemma_token_len_bounds(s: Seq<char>)
    ensures
        token_len(s) <= s.len(),
        forall|j: int| 0 <= j < token_len(s) ==> !is_space(#[trigger] s[j]),
        token_len(s) < s.len() ==> is_space(s[token_len(s) as int]),
    decreases s.len(),
{
    if s.len() > 0 && !is_space(s[0]) {
        lemma_token_len_bounds(s.drop_first());
        assert forall|j: int| 0 <= j < token_len(s) implies !is_space(#[trigger] s[j]) by {
            if j > 0 {
                assert(s.drop_first()[j - 1] == s[j]);
            }
        }
        if token_len(s) < s.len() {
            assert(s.drop_first()[token_len(s.drop_first()) as int] == s[token_len(s) as int]);
        }
    }
}

/// A nonempty text without spaces is one token.
pub proof fn lemma_split_ws_single(t: Seq<char>)
    requires
        t.len() >= 1,
        forall|j: int| 0 <= j < t.len() ==> !is_space(#[trigger] t[j]),
    ensures
        split_ws(t) == seq![t],
{
    lemma_token_len_is(t, t.len() as int);
}

/// The tokens on either side of a space separator concatenate.
pub proof fn lemma_split_ws_append(a: Seq<char>, b: Seq<char>)
    ensures
        split_ws(a + seq![' '] + b) == split_ws(a) + split_ws(b),
    decreases a.len(),
{
    let s = a + seq![' '] + b;
    if a.len() == 0 {
        assert(s =~= seq![' '] + b);
        assert(s[0] == ' ');
        assert(s.drop_first() =~= b);
        assert(split_ws(a) =~= Seq::<Seq<char>>::empty());
        assert(split_ws(a) + split_ws(b) =~= split_ws(b));
    } else if is_space(a[0]) {
        assert(s[0] == a[0]);
        lemma_split_ws_append(a.drop_first(), b);
        assert(s.drop_first() =~= a.drop_first() + seq![' '] + b);
    } else {
        assert(s[0] == a[0]);
        lemma_token_len_bounds(a);
        let k = token_len(a) as int;
        assert(k >= 1);
        if k == a.len() {
            assert forall|j: int| 0 <= j < k implies !is_space(#[trigger] s[j]) by {
                assert(s[j] == a[j]);
            }
            assert(s[k] == ' ');
            lemma_token_len_is(s, k);
            assert(split_ws(s) == seq![s.take(k)] + split_ws(s.skip(k)));
            assert(s.take(k) =~= a);
            assert(s.skip(k) =~= seq![' '] + b);
            assert(s.skip(k)[0] == ' ');
            assert(s.skip(k).drop_first() =~= b);
            assert(split_ws(a) == seq![a]);
            assert(seq![s.take(k)] + split_ws(b) =~= split_ws(a) + split_ws(b));
        } else {
            assert(is_space(a[k]));
            assert forall|j: int| 0 <= j < k implies !is_space(#[trigger] s[j]) by {
                assert(s[j] == a[j]);
            }
            assert(s[k] == a[k]);
            lemma_token_len_is(s, k);
            assert(split_ws(s) == seq![s.take(k)] + split_ws(s.skip(k)));
            assert(split_ws(a) == seq![a.take(k)] + split_ws(a.skip(k)));
            assert(s.take(k) =~= a.take(k));
            assert(s.skip(k) =~= a.skip(k) + seq![' '] + b);
            lemma_split_ws_append(a.skip(k), b);
            assert(seq![s.take(k)] + (split_ws(a.skip(k)) + split_ws(b)) =~= (seq![a.take(k)]
                + split_ws(a.skip(k))) + split_ws(b));
        }
    }
}

/// The views of a vector of character vectors.
pub open spec fn seq_views(s: Seq<Vec<char>>) -> Seq<Seq<char>> {
    s.map(|k: int, v: Vec<char>| v@)
}

/// Executable test for `is_space`.
pub fn is_space_exec(c: char) -> (b: bool)
    ensures
        b == is_space(c),
{
    c == ' ' || c == '\t' || c == '\n' || c == '\r' || c == '\u{b}' || c == '\u{c}'
}

/// Copies `v[from..to]` into a fresh vector.
pub fn copy_range(v: &Vec<char>, from: usize, to: usize) -> (r: Vec<char>)
    requires
        from <= to <= v@.len(),
    ensures
        r@ == v@.subrange(from as int, to as int),
{
    let mut r: Vec<char> = Vec::new();
    let mut k: usize = from;
    while k < to
        invariant
            from <= k <= to <= v@.len(),
            r@ == v@.subrange(from as int, k as int),
        decreases to - k,
    {
        r.push(v[k]);
        proof {
            assert(v@.subrange(from as int, k + 1) =~= v@.subrange(from as int, k as int).push(
                v@[k as int],
            ));
        }
        k = k + 1;
    }
    r
}

/// The characters of a string slice, as a vector.
pub fn chars_of_str(s: &str) -> (v: Vec<char>)
    ensures
        v@ == s@,
{
    let n: usize = s.unicode_len();
    let mut v: Vec<char> = Vec::new();
    let mut i: usize = 0;
    while i < n
        invariant
            i <= n,
            n == s@.len(),
            v@ == s@.take(i as int),
        decreases n - i,
    {
        let c = s.get_char(i);
        v.push(c);
        proof {
            assert(s@.take(i + 1) =~= s@.take(i as int).push(s@[i as int]));
        }
        i = i + 1;
    }
    proof {
        assert(s@.take(n as int) =~= s@);
    }
    v
}

/// Splits `v` into its lines.
#[verifier::loop_isolation(true)]
pub fn split_lines_exec(v: &Vec<char>) -> (r: Vec<Vec<char>>)
    ensures
        seq_views(r@) == split_lines(v@),
{
    let n: usize = v.len();
    let mut r: Vec<Vec<char>> = Vec::new();
    let mut i: usize = 0;
    proof {
        assert(v@.skip(0) =~= v@);
        assert(seq_views(r@) =~= Seq::<Seq<char>>::empty());
        assert(seq_views(r@) + split_lines(v@) =~= split_lines(v@));
    }
    loop
        invariant_except_break
            i <= n,
            n == v@.len(),
            split_lines(v@) == seq_views(r@) + split_lines(v@.skip(i as int)),
        ensures
            seq_views(r@) == split_lines(v@),
        decreases n - i,
    {
        let mut j: usize = i;
        while j < n && v[j] != '\n'
            invariant
                i <= j <= n,
                n == v@.len(),
                forall|k: int| i <= k < j ==> v@[k] != '\n',
            decreases n - j,
        {
            j = j + 1;
        }
        let line = copy_range(v, i, j);
        proof {
            let tail = v@.skip(i as int);
            assert(forall|k: int| 0 <= k < tail.len() ==> tail[k] == v@[i + k]);
            lemma_line_break_is(tail, j - i);
            assert(line@ =~= tail.take(j - i));
            if j == n {
                assert(line_break(tail) >= tail.len());
                assert(split_lines(tail) == seq![tail]);
                assert(line@ =~= tail);
                assert(seq_views(r@.push(line)) =~= seq_views(r@) + seq![line@]);
                assert(seq_views(r@) + seq![tail] =~= seq_views(r@.push(line)));
                assert(seq_views(r@.push(line)) =~= split_lines(v@));
            } else {
                assert(split_lines(tail) == seq![tail.take(j - i)] + split_lines(
                    tail.skip(j - i + 1),
                ));
                assert(tail.skip(j - i + 1) =~= v@.skip(j + 1));
                assert(seq_views(r@.push(line)) =~= seq_views(r@) + seq![tail.take(j - i)]);
                assert(seq_views(r@.push(line)) + split_lines(v@.skip(j + 1)) =~= seq_views(r@) + (
                seq![tail.take(j - i)] + split_lines(v@.skip(j + 1))));
            }
        }
        r.push(line);
        if j == n {
            break ;
        }
        i = j + 1;
    }
    r
}

/// The tokens of one line, after comment stripping.
pub fn line_tokens_exec(line: &Vec<char>) -> (r: Vec<Vec<char>>)
    ensures
        seq_views(r@) == line_tokens(line@),
{
    let mut h: usize = 0;
    while h < line.len() && line[h] != '#'
        invariant
            h <= line@.len(),
            forall|k: int| 0 <= k < h ==> line@[k] != '#',
        decreases line@.len() - h,
    {
        h = h + 1;
    }
    proof {
        lemma_first_hash_is(line@, h as int);
    }
    let ghost stripped = strip_comment(line@);
    let mut r: Vec<Vec<char>> = Vec::new();
    let mut i: usize = 0;
    proof {
        assert(stripped =~= line@.take(h as int));
        assert(stripped.skip(0) =~= stripped);
        assert(seq_views(r@) =~= Seq::<Seq<char>>::empty());
        assert(seq_views(r@) + split_ws(stripped) =~= split_ws(stripped));
    }
    while i < h
        invariant
            i <= h <= line@.len(),
            stripped == line@.take(h as int),
            split_ws(stripped) == seq_views(r@) + split_ws(stripped.skip(i as int)),
        decreases h - i,
    {
        let c = line[i];
        proof {
            assert(stripped[i as int] == line@[i as int]);
        }
        if is_space_exec(c) {
            proof {
                let tail = stripped.skip(i as int);
                assert(tail[0] == stripped[i as int]);
                assert(tail.drop_first() =~= stripped.skip(i + 1));
            }
            i = i + 1;
        } else {
            let mut j: usize = i + 1;
            while j < h && !is_space_exec(line[j])
                invariant
                    i < j <= h,
                    forall|k: int| i <= k < j ==> !is_space(#[trigger] line@[k]),
                decreases h - j,
            {
                j = j + 1;
            }
            let tok = copy_range(line, i, j);
            proof {
                let tail = stripped.skip(i as int);
                assert(forall|k: int| 0 <= k < tail.len() ==> tail[k] == line@[i + k]);
                assert(forall|k: int| 0 <= k < j - i ==> !is_space(#[trigger] tail[k]));
                lemma_token_len_is(tail, j - i);
                assert(tok@ =~= tail.take(j - i));
                assert(!is_space(tail[0]));
                if j == h {
                    assert(token_len(tail) >= tail.len());
                    assert(split_ws(tail) == seq![tail]);
                    assert(tok@ =~= tail);
                    assert(stripped.skip(j as int) =~= Seq::<char>::empty());
                    assert(split_ws(stripped.skip(j as int)) =~= Seq::<Seq<char>>::empty());
                    assert(seq_views(r@.push(tok)) =~= seq_views(r@) + seq![tail]);
                    assert(seq_views(r@.push(tok)) + split_ws(stripped.skip(j as int))
                        =~= seq_views(r@) + seq![tail]);
                } else {
                    assert(split_ws(tail) == seq![tail.take(j - i)] + split_ws(tail.skip(j - i)));
                    assert(tail.skip(j - i) =~= stripped.skip(j as int));
                    assert(seq_views(r@.push(tok)) =~= seq_views(r@) + seq![tail.take(j - i)]);
                    assert(seq_views(r@.push(tok)) + split_ws(stripped.skip(j as int))
                        =~= seq_views(r@) + (seq![tail.take(j - i)] + split_ws(
                        stripped.skip(j as int),
                    )));
                }
            }
            r.push(tok);
            i = j;
        }
    }
    proof {
        assert(stripped.skip(i as int) =~= Seq::<char>::empty());
        assert(split_ws(Seq::<char>::empty()) =~= Seq::<Seq<char>>::empty());
        assert(seq_views(r@) + split_ws(stripped.skip(i as int)) =~= seq_views(r@));
    }
    r
}

} // verus!
